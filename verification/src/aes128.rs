use vstd::prelude::*;

verus! {

/// The AES substitution box.
pub open spec fn sbox(b: u8) -> u8 {
    match b {
        0u8 => 0x63u8,
        1u8 => 0x7cu8,
        2u8 => 0x77u8,
        3u8 => 0x7bu8,
        4u8 => 0xf2u8,
        5u8 => 0x6bu8,
        6u8 => 0x6fu8,
        7u8 => 0xc5u8,
        8u8 => 0x30u8,
        9u8 => 0x01u8,
        10u8 => 0x67u8,
        11u8 => 0x2bu8,
        12u8 => 0xfeu8,
        13u8 => 0xd7u8,
        14u8 => 0xabu8,
        15u8 => 0x76u8,
        16u8 => 0xcau8,
        17u8 => 0x82u8,
        18u8 => 0xc9u8,
        19u8 => 0x7du8,
        20u8 => 0xfau8,
        21u8 => 0x59u8,
        22u8 => 0x47u8,
        23u8 => 0xf0u8,
        24u8 => 0xadu8,
        25u8 => 0xd4u8,
        26u8 => 0xa2u8,
        27u8 => 0xafu8,
        28u8 => 0x9cu8,
        29u8 => 0xa4u8,
        30u8 => 0x72u8,
        31u8 => 0xc0u8,
        32u8 => 0xb7u8,
        33u8 => 0xfdu8,
        34u8 => 0x93u8,
        35u8 => 0x26u8,
        36u8 => 0x36u8,
        37u8 => 0x3fu8,
        38u8 => 0xf7u8,
        39u8 => 0xccu8,
        40u8 => 0x34u8,
        41u8 => 0xa5u8,
        42u8 => 0xe5u8,
        43u8 => 0xf1u8,
        44u8 => 0x71u8,
        45u8 => 0xd8u8,
        46u8 => 0x31u8,
        47u8 => 0x15u8,
        48u8 => 0x04u8,
        49u8 => 0xc7u8,
        50u8 => 0x23u8,
        51u8 => 0xc3u8,
        52u8 => 0x18u8,
        53u8 => 0x96u8,
        54u8 => 0x05u8,
        55u8 => 0x9au8,
        56u8 => 0x07u8,
        57u8 => 0x12u8,
        58u8 => 0x80u8,
        59u8 => 0xe2u8,
        60u8 => 0xebu8,
        61u8 => 0x27u8,
        62u8 => 0xb2u8,
        63u8 => 0x75u8,
        64u8 => 0x09u8,
        65u8 => 0x83u8,
        66u8 => 0x2cu8,
        67u8 => 0x1au8,
        68u8 => 0x1bu8,
        69u8 => 0x6eu8,
        70u8 => 0x5au8,
        71u8 => 0xa0u8,
        72u8 => 0x52u8,
        73u8 => 0x3bu8,
        74u8 => 0xd6u8,
        75u8 => 0xb3u8,
        76u8 => 0x29u8,
        77u8 => 0xe3u8,
        78u8 => 0x2fu8,
        79u8 => 0x84u8,
        80u8 => 0x53u8,
        81u8 => 0xd1u8,
        82u8 => 0x00u8,
        83u8 => 0xedu8,
        84u8 => 0x20u8,
        85u8 => 0xfcu8,
        86u8 => 0xb1u8,
        87u8 => 0x5bu8,
        88u8 => 0x6au8,
        89u8 => 0xcbu8,
        90u8 => 0xbeu8,
        91u8 => 0x39u8,
        92u8 => 0x4au8,
        93u8 => 0x4cu8,
        94u8 => 0x58u8,
        95u8 => 0xcfu8,
        96u8 => 0xd0u8,
        97u8 => 0xefu8,
        98u8 => 0xaau8,
        99u8 => 0xfbu8,
        100u8 => 0x43u8,
        101u8 => 0x4du8,
        102u8 => 0x33u8,
        103u8 => 0x85u8,
        104u8 => 0x45u8,
        105u8 => 0xf9u8,
        106u8 => 0x02u8,
        107u8 => 0x7fu8,
        108u8 => 0x50u8,
        109u8 => 0x3cu8,
        110u8 => 0x9fu8,
        111u8 => 0xa8u8,
        112u8 => 0x51u8,
        113u8 => 0xa3u8,
        114u8 => 0x40u8,
        115u8 => 0x8fu8,
        116u8 => 0x92u8,
        117u8 => 0x9du8,
        118u8 => 0x38u8,
        119u8 => 0xf5u8,
        120u8 => 0xbcu8,
        121u8 => 0xb6u8,
        122u8 => 0xdau8,
        123u8 => 0x21u8,
        124u8 => 0x10u8,
        125u8 => 0xffu8,
        126u8 => 0xf3u8,
        127u8 => 0xd2u8,
        128u8 => 0xcdu8,
        129u8 => 0x0cu8,
        130u8 => 0x13u8,
        131u8 => 0xecu8,
        132u8 => 0x5fu8,
        133u8 => 0x97u8,
        134u8 => 0x44u8,
        135u8 => 0x17u8,
        136u8 => 0xc4u8,
        137u8 => 0xa7u8,
        138u8 => 0x7eu8,
        139u8 => 0x3du8,
        140u8 => 0x64u8,
        141u8 => 0x5du8,
        142u8 => 0x19u8,
        143u8 => 0x73u8,
        144u8 => 0x60u8,
        145u8 => 0x81u8,
        146u8 => 0x4fu8,
        147u8 => 0xdcu8,
        148u8 => 0x22u8,
        149u8 => 0x2au8,
        150u8 => 0x90u8,
        151u8 => 0x88u8,
        152u8 => 0x46u8,
        153u8 => 0xeeu8,
        154u8 => 0xb8u8,
        155u8 => 0x14u8,
        156u8 => 0xdeu8,
        157u8 => 0x5eu8,
        158u8 => 0x0bu8,
        159u8 => 0xdbu8,
        160u8 => 0xe0u8,
        161u8 => 0x32u8,
        162u8 => 0x3au8,
        163u8 => 0x0au8,
        164u8 => 0x49u8,
        165u8 => 0x06u8,
        166u8 => 0x24u8,
        167u8 => 0x5cu8,
        168u8 => 0xc2u8,
        169u8 => 0xd3u8,
        170u8 => 0xacu8,
        171u8 => 0x62u8,
        172u8 => 0x91u8,
        173u8 => 0x95u8,
        174u8 => 0xe4u8,
        175u8 => 0x79u8,
        176u8 => 0xe7u8,
        177u8 => 0xc8u8,
        178u8 => 0x37u8,
        179u8 => 0x6du8,
        180u8 => 0x8du8,
        181u8 => 0xd5u8,
        182u8 => 0x4eu8,
        183u8 => 0xa9u8,
        184u8 => 0x6cu8,
        185u8 => 0x56u8,
        186u8 => 0xf4u8,
        187u8 => 0xeau8,
        188u8 => 0x65u8,
        189u8 => 0x7au8,
        190u8 => 0xaeu8,
        191u8 => 0x08u8,
        192u8 => 0xbau8,
        193u8 => 0x78u8,
        194u8 => 0x25u8,
        195u8 => 0x2eu8,
        196u8 => 0x1cu8,
        197u8 => 0xa6u8,
        198u8 => 0xb4u8,
        199u8 => 0xc6u8,
        200u8 => 0xe8u8,
        201u8 => 0xddu8,
        202u8 => 0x74u8,
        203u8 => 0x1fu8,
        204u8 => 0x4bu8,
        205u8 => 0xbdu8,
        206u8 => 0x8bu8,
        207u8 => 0x8au8,
        208u8 => 0x70u8,
        209u8 => 0x3eu8,
        210u8 => 0xb5u8,
        211u8 => 0x66u8,
        212u8 => 0x48u8,
        213u8 => 0x03u8,
        214u8 => 0xf6u8,
        215u8 => 0x0eu8,
        216u8 => 0x61u8,
        217u8 => 0x35u8,
        218u8 => 0x57u8,
        219u8 => 0xb9u8,
        220u8 => 0x86u8,
        221u8 => 0xc1u8,
        222u8 => 0x1du8,
        223u8 => 0x9eu8,
        224u8 => 0xe1u8,
        225u8 => 0xf8u8,
        226u8 => 0x98u8,
        227u8 => 0x11u8,
        228u8 => 0x69u8,
        229u8 => 0xd9u8,
        230u8 => 0x8eu8,
        231u8 => 0x94u8,
        232u8 => 0x9bu8,
        233u8 => 0x1eu8,
        234u8 => 0x87u8,
        235u8 => 0xe9u8,
        236u8 => 0xceu8,
        237u8 => 0x55u8,
        238u8 => 0x28u8,
        239u8 => 0xdfu8,
        240u8 => 0x8cu8,
        241u8 => 0xa1u8,
        242u8 => 0x89u8,
        243u8 => 0x0du8,
        244u8 => 0xbfu8,
        245u8 => 0xe6u8,
        246u8 => 0x42u8,
        247u8 => 0x68u8,
        248u8 => 0x41u8,
        249u8 => 0x99u8,
        250u8 => 0x2du8,
        251u8 => 0x0fu8,
        252u8 => 0xb0u8,
        253u8 => 0x54u8,
        254u8 => 0xbbu8,
        255u8 => 0x16u8,
    }
}

/// The inverse AES substitution box.
pub open spec fn inv_sbox(b: u8) -> u8 {
    match b {
        0u8 => 0x52u8,
        1u8 => 0x09u8,
        2u8 => 0x6au8,
        3u8 => 0xd5u8,
        4u8 => 0x30u8,
        5u8 => 0x36u8,
        6u8 => 0xa5u8,
        7u8 => 0x38u8,
        8u8 => 0xbfu8,
        9u8 => 0x40u8,
        10u8 => 0xa3u8,
        11u8 => 0x9eu8,
        12u8 => 0x81u8,
        13u8 => 0xf3u8,
        14u8 => 0xd7u8,
        15u8 => 0xfbu8,
        16u8 => 0x7cu8,
        17u8 => 0xe3u8,
        18u8 => 0x39u8,
        19u8 => 0x82u8,
        20u8 => 0x9bu8,
        21u8 => 0x2fu8,
        22u8 => 0xffu8,
        23u8 => 0x87u8,
        24u8 => 0x34u8,
        25u8 => 0x8eu8,
        26u8 => 0x43u8,
        27u8 => 0x44u8,
        28u8 => 0xc4u8,
        29u8 => 0xdeu8,
        30u8 => 0xe9u8,
        31u8 => 0xcbu8,
        32u8 => 0x54u8,
        33u8 => 0x7bu8,
        34u8 => 0x94u8,
        35u8 => 0x32u8,
        36u8 => 0xa6u8,
        37u8 => 0xc2u8,
        38u8 => 0x23u8,
        39u8 => 0x3du8,
        40u8 => 0xeeu8,
        41u8 => 0x4cu8,
        42u8 => 0x95u8,
        43u8 => 0x0bu8,
        44u8 => 0x42u8,
        45u8 => 0xfau8,
        46u8 => 0xc3u8,
        47u8 => 0x4eu8,
        48u8 => 0x08u8,
        49u8 => 0x2eu8,
        50u8 => 0xa1u8,
        51u8 => 0x66u8,
        52u8 => 0x28u8,
        53u8 => 0xd9u8,
        54u8 => 0x24u8,
        55u8 => 0xb2u8,
        56u8 => 0x76u8,
        57u8 => 0x5bu8,
        58u8 => 0xa2u8,
        59u8 => 0x49u8,
        60u8 => 0x6du8,
        61u8 => 0x8bu8,
        62u8 => 0xd1u8,
        63u8 => 0x25u8,
        64u8 => 0x72u8,
        65u8 => 0xf8u8,
        66u8 => 0xf6u8,
        67u8 => 0x64u8,
        68u8 => 0x86u8,
        69u8 => 0x68u8,
        70u8 => 0x98u8,
        71u8 => 0x16u8,
        72u8 => 0xd4u8,
        73u8 => 0xa4u8,
        74u8 => 0x5cu8,
        75u8 => 0xccu8,
        76u8 => 0x5du8,
        77u8 => 0x65u8,
        78u8 => 0xb6u8,
        79u8 => 0x92u8,
        80u8 => 0x6cu8,
        81u8 => 0x70u8,
        82u8 => 0x48u8,
        83u8 => 0x50u8,
        84u8 => 0xfdu8,
        85u8 => 0xedu8,
        86u8 => 0xb9u8,
        87u8 => 0xdau8,
        88u8 => 0x5eu8,
        89u8 => 0x15u8,
        90u8 => 0x46u8,
        91u8 => 0x57u8,
        92u8 => 0xa7u8,
        93u8 => 0x8du8,
        94u8 => 0x9du8,
        95u8 => 0x84u8,
        96u8 => 0x90u8,
        97u8 => 0xd8u8,
        98u8 => 0xabu8,
        99u8 => 0x00u8,
        100u8 => 0x8cu8,
        101u8 => 0xbcu8,
        102u8 => 0xd3u8,
        103u8 => 0x0au8,
        104u8 => 0xf7u8,
        105u8 => 0xe4u8,
        106u8 => 0x58u8,
        107u8 => 0x05u8,
        108u8 => 0xb8u8,
        109u8 => 0xb3u8,
        110u8 => 0x45u8,
        111u8 => 0x06u8,
        112u8 => 0xd0u8,
        113u8 => 0x2cu8,
        114u8 => 0x1eu8,
        115u8 => 0x8fu8,
        116u8 => 0xcau8,
        117u8 => 0x3fu8,
        118u8 => 0x0fu8,
        119u8 => 0x02u8,
        120u8 => 0xc1u8,
        121u8 => 0xafu8,
        122u8 => 0xbdu8,
        123u8 => 0x03u8,
        124u8 => 0x01u8,
        125u8 => 0x13u8,
        126u8 => 0x8au8,
        127u8 => 0x6bu8,
        128u8 => 0x3au8,
        129u8 => 0x91u8,
        130u8 => 0x11u8,
        131u8 => 0x41u8,
        132u8 => 0x4fu8,
        133u8 => 0x67u8,
        134u8 => 0xdcu8,
        135u8 => 0xeau8,
        136u8 => 0x97u8,
        137u8 => 0xf2u8,
        138u8 => 0xcfu8,
        139u8 => 0xceu8,
        140u8 => 0xf0u8,
        141u8 => 0xb4u8,
        142u8 => 0xe6u8,
        143u8 => 0x73u8,
        144u8 => 0x96u8,
        145u8 => 0xacu8,
        146u8 => 0x74u8,
        147u8 => 0x22u8,
        148u8 => 0xe7u8,
        149u8 => 0xadu8,
        150u8 => 0x35u8,
        151u8 => 0x85u8,
        152u8 => 0xe2u8,
        153u8 => 0xf9u8,
        154u8 => 0x37u8,
        155u8 => 0xe8u8,
        156u8 => 0x1cu8,
        157u8 => 0x75u8,
        158u8 => 0xdfu8,
        159u8 => 0x6eu8,
        160u8 => 0x47u8,
        161u8 => 0xf1u8,
        162u8 => 0x1au8,
        163u8 => 0x71u8,
        164u8 => 0x1du8,
        165u8 => 0x29u8,
        166u8 => 0xc5u8,
        167u8 => 0x89u8,
        168u8 => 0x6fu8,
        169u8 => 0xb7u8,
        170u8 => 0x62u8,
        171u8 => 0x0eu8,
        172u8 => 0xaau8,
        173u8 => 0x18u8,
        174u8 => 0xbeu8,
        175u8 => 0x1bu8,
        176u8 => 0xfcu8,
        177u8 => 0x56u8,
        178u8 => 0x3eu8,
        179u8 => 0x4bu8,
        180u8 => 0xc6u8,
        181u8 => 0xd2u8,
        182u8 => 0x79u8,
        183u8 => 0x20u8,
        184u8 => 0x9au8,
        185u8 => 0xdbu8,
        186u8 => 0xc0u8,
        187u8 => 0xfeu8,
        188u8 => 0x78u8,
        189u8 => 0xcdu8,
        190u8 => 0x5au8,
        191u8 => 0xf4u8,
        192u8 => 0x1fu8,
        193u8 => 0xddu8,
        194u8 => 0xa8u8,
        195u8 => 0x33u8,
        196u8 => 0x88u8,
        197u8 => 0x07u8,
        198u8 => 0xc7u8,
        199u8 => 0x31u8,
        200u8 => 0xb1u8,
        201u8 => 0x12u8,
        202u8 => 0x10u8,
        203u8 => 0x59u8,
        204u8 => 0x27u8,
        205u8 => 0x80u8,
        206u8 => 0xecu8,
        207u8 => 0x5fu8,
        208u8 => 0x60u8,
        209u8 => 0x51u8,
        210u8 => 0x7fu8,
        211u8 => 0xa9u8,
        212u8 => 0x19u8,
        213u8 => 0xb5u8,
        214u8 => 0x4au8,
        215u8 => 0x0du8,
        216u8 => 0x2du8,
        217u8 => 0xe5u8,
        218u8 => 0x7au8,
        219u8 => 0x9fu8,
        220u8 => 0x93u8,
        221u8 => 0xc9u8,
        222u8 => 0x9cu8,
        223u8 => 0xefu8,
        224u8 => 0xa0u8,
        225u8 => 0xe0u8,
        226u8 => 0x3bu8,
        227u8 => 0x4du8,
        228u8 => 0xaeu8,
        229u8 => 0x2au8,
        230u8 => 0xf5u8,
        231u8 => 0xb0u8,
        232u8 => 0xc8u8,
        233u8 => 0xebu8,
        234u8 => 0xbbu8,
        235u8 => 0x3cu8,
        236u8 => 0x83u8,
        237u8 => 0x53u8,
        238u8 => 0x99u8,
        239u8 => 0x61u8,
        240u8 => 0x17u8,
        241u8 => 0x2bu8,
        242u8 => 0x04u8,
        243u8 => 0x7eu8,
        244u8 => 0xbau8,
        245u8 => 0x77u8,
        246u8 => 0xd6u8,
        247u8 => 0x26u8,
        248u8 => 0xe1u8,
        249u8 => 0x69u8,
        250u8 => 0x14u8,
        251u8 => 0x63u8,
        252u8 => 0x55u8,
        253u8 => 0x21u8,
        254u8 => 0x0cu8,
        255u8 => 0x7du8,
    }
}

/// Looks a byte up in the AES substitution box.
fn sbox_lookup(b: u8) -> (r: u8)
    ensures
        r == sbox(b),
{
    match b {
        0u8 => 0x63u8,
        1u8 => 0x7cu8,
        2u8 => 0x77u8,
        3u8 => 0x7bu8,
        4u8 => 0xf2u8,
        5u8 => 0x6bu8,
        6u8 => 0x6fu8,
        7u8 => 0xc5u8,
        8u8 => 0x30u8,
        9u8 => 0x01u8,
        10u8 => 0x67u8,
        11u8 => 0x2bu8,
        12u8 => 0xfeu8,
        13u8 => 0xd7u8,
        14u8 => 0xabu8,
        15u8 => 0x76u8,
        16u8 => 0xcau8,
        17u8 => 0x82u8,
        18u8 => 0xc9u8,
        19u8 => 0x7du8,
        20u8 => 0xfau8,
        21u8 => 0x59u8,
        22u8 => 0x47u8,
        23u8 => 0xf0u8,
        24u8 => 0xadu8,
        25u8 => 0xd4u8,
        26u8 => 0xa2u8,
        27u8 => 0xafu8,
        28u8 => 0x9cu8,
        29u8 => 0xa4u8,
        30u8 => 0x72u8,
        31u8 => 0xc0u8,
        32u8 => 0xb7u8,
        33u8 => 0xfdu8,
        34u8 => 0x93u8,
        35u8 => 0x26u8,
        36u8 => 0x36u8,
        37u8 => 0x3fu8,
        38u8 => 0xf7u8,
        39u8 => 0xccu8,
        40u8 => 0x34u8,
        41u8 => 0xa5u8,
        42u8 => 0xe5u8,
        43u8 => 0xf1u8,
        44u8 => 0x71u8,
        45u8 => 0xd8u8,
        46u8 => 0x31u8,
        47u8 => 0x15u8,
        48u8 => 0x04u8,
        49u8 => 0xc7u8,
        50u8 => 0x23u8,
        51u8 => 0xc3u8,
        52u8 => 0x18u8,
        53u8 => 0x96u8,
        54u8 => 0x05u8,
        55u8 => 0x9au8,
        56u8 => 0x07u8,
        57u8 => 0x12u8,
        58u8 => 0x80u8,
        59u8 => 0xe2u8,
        60u8 => 0xebu8,
        61u8 => 0x27u8,
        62u8 => 0xb2u8,
        63u8 => 0x75u8,
        64u8 => 0x09u8,
        65u8 => 0x83u8,
        66u8 => 0x2cu8,
        67u8 => 0x1au8,
        68u8 => 0x1bu8,
        69u8 => 0x6eu8,
        70u8 => 0x5au8,
        71u8 => 0xa0u8,
        72u8 => 0x52u8,
        73u8 => 0x3bu8,
        74u8 => 0xd6u8,
        75u8 => 0xb3u8,
        76u8 => 0x29u8,
        77u8 => 0xe3u8,
        78u8 => 0x2fu8,
        79u8 => 0x84u8,
        80u8 => 0x53u8,
        81u8 => 0xd1u8,
        82u8 => 0x00u8,
        83u8 => 0xedu8,
        84u8 => 0x20u8,
        85u8 => 0xfcu8,
        86u8 => 0xb1u8,
        87u8 => 0x5bu8,
        88u8 => 0x6au8,
        89u8 => 0xcbu8,
        90u8 => 0xbeu8,
        91u8 => 0x39u8,
        92u8 => 0x4au8,
        93u8 => 0x4cu8,
        94u8 => 0x58u8,
        95u8 => 0xcfu8,
        96u8 => 0xd0u8,
        97u8 => 0xefu8,
        98u8 => 0xaau8,
        99u8 => 0xfbu8,
        100u8 => 0x43u8,
        101u8 => 0x4du8,
        102u8 => 0x33u8,
        103u8 => 0x85u8,
        104u8 => 0x45u8,
        105u8 => 0xf9u8,
        106u8 => 0x02u8,
        107u8 => 0x7fu8,
        108u8 => 0x50u8,
        109u8 => 0x3cu8,
        110u8 => 0x9fu8,
        111u8 => 0xa8u8,
        112u8 => 0x51u8,
        113u8 => 0xa3u8,
        114u8 => 0x40u8,
        115u8 => 0x8fu8,
        116u8 => 0x92u8,
        117u8 => 0x9du8,
        118u8 => 0x38u8,
        119u8 => 0xf5u8,
        120u8 => 0xbcu8,
        121u8 => 0xb6u8,
        122u8 => 0xdau8,
        123u8 => 0x21u8,
        124u8 => 0x10u8,
        125u8 => 0xffu8,
        126u8 => 0xf3u8,
        127u8 => 0xd2u8,
        128u8 => 0xcdu8,
        129u8 => 0x0cu8,
        130u8 => 0x13u8,
        131u8 => 0xecu8,
        132u8 => 0x5fu8,
        133u8 => 0x97u8,
        134u8 => 0x44u8,
        135u8 => 0x17u8,
        136u8 => 0xc4u8,
        137u8 => 0xa7u8,
        138u8 => 0x7eu8,
        139u8 => 0x3du8,
        140u8 => 0x64u8,
        141u8 => 0x5du8,
        142u8 => 0x19u8,
        143u8 => 0x73u8,
        144u8 => 0x60u8,
        145u8 => 0x81u8,
        146u8 => 0x4fu8,
        147u8 => 0xdcu8,
        148u8 => 0x22u8,
        149u8 => 0x2au8,
        150u8 => 0x90u8,
        151u8 => 0x88u8,
        152u8 => 0x46u8,
        153u8 => 0xeeu8,
        154u8 => 0xb8u8,
        155u8 => 0x14u8,
        156u8 => 0xdeu8,
        157u8 => 0x5eu8,
        158u8 => 0x0bu8,
        159u8 => 0xdbu8,
        160u8 => 0xe0u8,
        161u8 => 0x32u8,
        162u8 => 0x3au8,
        163u8 => 0x0au8,
        164u8 => 0x49u8,
        165u8 => 0x06u8,
        166u8 => 0x24u8,
        167u8 => 0x5cu8,
        168u8 => 0xc2u8,
        169u8 => 0xd3u8,
        170u8 => 0xacu8,
        171u8 => 0x62u8,
        172u8 => 0x91u8,
        173u8 => 0x95u8,
        174u8 => 0xe4u8,
        175u8 => 0x79u8,
        176u8 => 0xe7u8,
        177u8 => 0xc8u8,
        178u8 => 0x37u8,
        179u8 => 0x6du8,
        180u8 => 0x8du8,
        181u8 => 0xd5u8,
        182u8 => 0x4eu8,
        183u8 => 0xa9u8,
        184u8 => 0x6cu8,
        185u8 => 0x56u8,
        186u8 => 0xf4u8,
        187u8 => 0xeau8,
        188u8 => 0x65u8,
        189u8 => 0x7au8,
        190u8 => 0xaeu8,
        191u8 => 0x08u8,
        192u8 => 0xbau8,
        193u8 => 0x78u8,
        194u8 => 0x25u8,
        195u8 => 0x2eu8,
        196u8 => 0x1cu8,
        197u8 => 0xa6u8,
        198u8 => 0xb4u8,
        199u8 => 0xc6u8,
        200u8 => 0xe8u8,
        201u8 => 0xddu8,
        202u8 => 0x74u8,
        203u8 => 0x1fu8,
        204u8 => 0x4bu8,
        205u8 => 0xbdu8,
        206u8 => 0x8bu8,
        207u8 => 0x8au8,
        208u8 => 0x70u8,
        209u8 => 0x3eu8,
        210u8 => 0xb5u8,
        211u8 => 0x66u8,
        212u8 => 0x48u8,
        213u8 => 0x03u8,
        214u8 => 0xf6u8,
        215u8 => 0x0eu8,
        216u8 => 0x61u8,
        217u8 => 0x35u8,
        218u8 => 0x57u8,
        219u8 => 0xb9u8,
        220u8 => 0x86u8,
        221u8 => 0xc1u8,
        222u8 => 0x1du8,
        223u8 => 0x9eu8,
        224u8 => 0xe1u8,
        225u8 => 0xf8u8,
        226u8 => 0x98u8,
        227u8 => 0x11u8,
        228u8 => 0x69u8,
        229u8 => 0xd9u8,
        230u8 => 0x8eu8,
        231u8 => 0x94u8,
        232u8 => 0x9bu8,
        233u8 => 0x1eu8,
        234u8 => 0x87u8,
        235u8 => 0xe9u8,
        236u8 => 0xceu8,
        237u8 => 0x55u8,
        238u8 => 0x28u8,
        239u8 => 0xdfu8,
        240u8 => 0x8cu8,
        241u8 => 0xa1u8,
        242u8 => 0x89u8,
        243u8 => 0x0du8,
        244u8 => 0xbfu8,
        245u8 => 0xe6u8,
        246u8 => 0x42u8,
        247u8 => 0x68u8,
        248u8 => 0x41u8,
        249u8 => 0x99u8,
        250u8 => 0x2du8,
        251u8 => 0x0fu8,
        252u8 => 0xb0u8,
        253u8 => 0x54u8,
        254u8 => 0xbbu8,
        255u8 => 0x16u8,
    }
}

/// Looks a byte up in the inverse AES substitution box.
fn inv_sbox_lookup(b: u8) -> (r: u8)
    ensures
        r == inv_sbox(b),
{
    match b {
        0u8 => 0x52u8,
        1u8 => 0x09u8,
        2u8 => 0x6au8,
        3u8 => 0xd5u8,
        4u8 => 0x30u8,
        5u8 => 0x36u8,
        6u8 => 0xa5u8,
        7u8 => 0x38u8,
        8u8 => 0xbfu8,
        9u8 => 0x40u8,
        10u8 => 0xa3u8,
        11u8 => 0x9eu8,
        12u8 => 0x81u8,
        13u8 => 0xf3u8,
        14u8 => 0xd7u8,
        15u8 => 0xfbu8,
        16u8 => 0x7cu8,
        17u8 => 0xe3u8,
        18u8 => 0x39u8,
        19u8 => 0x82u8,
        20u8 => 0x9bu8,
        21u8 => 0x2fu8,
        22u8 => 0xffu8,
        23u8 => 0x87u8,
        24u8 => 0x34u8,
        25u8 => 0x8eu8,
        26u8 => 0x43u8,
        27u8 => 0x44u8,
        28u8 => 0xc4u8,
        29u8 => 0xdeu8,
        30u8 => 0xe9u8,
        31u8 => 0xcbu8,
        32u8 => 0x54u8,
        33u8 => 0x7bu8,
        34u8 => 0x94u8,
        35u8 => 0x32u8,
        36u8 => 0xa6u8,
        37u8 => 0xc2u8,
        38u8 => 0x23u8,
        39u8 => 0x3du8,
        40u8 => 0xeeu8,
        41u8 => 0x4cu8,
        42u8 => 0x95u8,
        43u8 => 0x0bu8,
        44u8 => 0x42u8,
        45u8 => 0xfau8,
        46u8 => 0xc3u8,
        47u8 => 0x4eu8,
        48u8 => 0x08u8,
        49u8 => 0x2eu8,
        50u8 => 0xa1u8,
        51u8 => 0x66u8,
        52u8 => 0x28u8,
        53u8 => 0xd9u8,
        54u8 => 0x24u8,
        55u8 => 0xb2u8,
        56u8 => 0x76u8,
        57u8 => 0x5bu8,
        58u8 => 0xa2u8,
        59u8 => 0x49u8,
        60u8 => 0x6du8,
        61u8 => 0x8bu8,
        62u8 => 0xd1u8,
        63u8 => 0x25u8,
        64u8 => 0x72u8,
        65u8 => 0xf8u8,
        66u8 => 0xf6u8,
        67u8 => 0x64u8,
        68u8 => 0x86u8,
        69u8 => 0x68u8,
        70u8 => 0x98u8,
        71u8 => 0x16u8,
        72u8 => 0xd4u8,
        73u8 => 0xa4u8,
        74u8 => 0x5cu8,
        75u8 => 0xccu8,
        76u8 => 0x5du8,
        77u8 => 0x65u8,
        78u8 => 0xb6u8,
        79u8 => 0x92u8,
        80u8 => 0x6cu8,
        81u8 => 0x70u8,
        82u8 => 0x48u8,
        83u8 => 0x50u8,
        84u8 => 0xfdu8,
        85u8 => 0xedu8,
        86u8 => 0xb9u8,
        87u8 => 0xdau8,
        88u8 => 0x5eu8,
        89u8 => 0x15u8,
        90u8 => 0x46u8,
        91u8 => 0x57u8,
        92u8 => 0xa7u8,
        93u8 => 0x8du8,
        94u8 => 0x9du8,
        95u8 => 0x84u8,
        96u8 => 0x90u8,
        97u8 => 0xd8u8,
        98u8 => 0xabu8,
        99u8 => 0x00u8,
        100u8 => 0x8cu8,
        101u8 => 0xbcu8,
        102u8 => 0xd3u8,
        103u8 => 0x0au8,
        104u8 => 0xf7u8,
        105u8 => 0xe4u8,
        106u8 => 0x58u8,
        107u8 => 0x05u8,
        108u8 => 0xb8u8,
        109u8 => 0xb3u8,
        110u8 => 0x45u8,
        111u8 => 0x06u8,
        112u8 => 0xd0u8,
        113u8 => 0x2cu8,
        114u8 => 0x1eu8,
        115u8 => 0x8fu8,
        116u8 => 0xcau8,
        117u8 => 0x3fu8,
        118u8 => 0x0fu8,
        119u8 => 0x02u8,
        120u8 => 0xc1u8,
        121u8 => 0xafu8,
        122u8 => 0xbdu8,
        123u8 => 0x03u8,
        124u8 => 0x01u8,
        125u8 => 0x13u8,
        126u8 => 0x8au8,
        127u8 => 0x6bu8,
        128u8 => 0x3au8,
        129u8 => 0x91u8,
        130u8 => 0x11u8,
        131u8 => 0x41u8,
        132u8 => 0x4fu8,
        133u8 => 0x67u8,
        134u8 => 0xdcu8,
        135u8 => 0xeau8,
        136u8 => 0x97u8,
        137u8 => 0xf2u8,
        138u8 => 0xcfu8,
        139u8 => 0xceu8,
        140u8 => 0xf0u8,
        141u8 => 0xb4u8,
        142u8 => 0xe6u8,
        143u8 => 0x73u8,
        144u8 => 0x96u8,
        145u8 => 0xacu8,
        146u8 => 0x74u8,
        147u8 => 0x22u8,
        148u8 => 0xe7u8,
        149u8 => 0xadu8,
        150u8 => 0x35u8,
        151u8 => 0x85u8,
        152u8 => 0xe2u8,
        153u8 => 0xf9u8,
        154u8 => 0x37u8,
        155u8 => 0xe8u8,
        156u8 => 0x1cu8,
        157u8 => 0x75u8,
        158u8 => 0xdfu8,
        159u8 => 0x6eu8,
        160u8 => 0x47u8,
        161u8 => 0xf1u8,
        162u8 => 0x1au8,
        163u8 => 0x71u8,
        164u8 => 0x1du8,
        165u8 => 0x29u8,
        166u8 => 0xc5u8,
        167u8 => 0x89u8,
        168u8 => 0x6fu8,
        169u8 => 0xb7u8,
        170u8 => 0x62u8,
        171u8 => 0x0eu8,
        172u8 => 0xaau8,
        173u8 => 0x18u8,
        174u8 => 0xbeu8,
        175u8 => 0x1bu8,
        176u8 => 0xfcu8,
        177u8 => 0x56u8,
        178u8 => 0x3eu8,
        179u8 => 0x4bu8,
        180u8 => 0xc6u8,
        181u8 => 0xd2u8,
        182u8 => 0x79u8,
        183u8 => 0x20u8,
        184u8 => 0x9au8,
        185u8 => 0xdbu8,
        186u8 => 0xc0u8,
        187u8 => 0xfeu8,
        188u8 => 0x78u8,
        189u8 => 0xcdu8,
        190u8 => 0x5au8,
        191u8 => 0xf4u8,
        192u8 => 0x1fu8,
        193u8 => 0xddu8,
        194u8 => 0xa8u8,
        195u8 => 0x33u8,
        196u8 => 0x88u8,
        197u8 => 0x07u8,
        198u8 => 0xc7u8,
        199u8 => 0x31u8,
        200u8 => 0xb1u8,
        201u8 => 0x12u8,
        202u8 => 0x10u8,
        203u8 => 0x59u8,
        204u8 => 0x27u8,
        205u8 => 0x80u8,
        206u8 => 0xecu8,
        207u8 => 0x5fu8,
        208u8 => 0x60u8,
        209u8 => 0x51u8,
        210u8 => 0x7fu8,
        211u8 => 0xa9u8,
        212u8 => 0x19u8,
        213u8 => 0xb5u8,
        214u8 => 0x4au8,
        215u8 => 0x0du8,
        216u8 => 0x2du8,
        217u8 => 0xe5u8,
        218u8 => 0x7au8,
        219u8 => 0x9fu8,
        220u8 => 0x93u8,
        221u8 => 0xc9u8,
        222u8 => 0x9cu8,
        223u8 => 0xefu8,
        224u8 => 0xa0u8,
        225u8 => 0xe0u8,
        226u8 => 0x3bu8,
        227u8 => 0x4du8,
        228u8 => 0xaeu8,
        229u8 => 0x2au8,
        230u8 => 0xf5u8,
        231u8 => 0xb0u8,
        232u8 => 0xc8u8,
        233u8 => 0xebu8,
        234u8 => 0xbbu8,
        235u8 => 0x3cu8,
        236u8 => 0x83u8,
        237u8 => 0x53u8,
        238u8 => 0x99u8,
        239u8 => 0x61u8,
        240u8 => 0x17u8,
        241u8 => 0x2bu8,
        242u8 => 0x04u8,
        243u8 => 0x7eu8,
        244u8 => 0xbau8,
        245u8 => 0x77u8,
        246u8 => 0xd6u8,
        247u8 => 0x26u8,
        248u8 => 0xe1u8,
        249u8 => 0x69u8,
        250u8 => 0x14u8,
        251u8 => 0x63u8,
        252u8 => 0x55u8,
        253u8 => 0x21u8,
        254u8 => 0x0cu8,
        255u8 => 0x7du8,
    }
}

/// The inverse box undoes the box on every byte.
pub proof fn lemma_inv_sbox_sbox(b: u8)
    ensures
        inv_sbox(sbox(b)) == b,
{
    assert(inv_sbox(sbox(b)) == b) by (bit_vector);
}

/// Doubling in GF(2^8) modulo the AES polynomial.
pub open spec fn xtime(a: u8) -> u8 {
    if a & 0x80u8 == 0x80u8 {
        (a << 1u8) ^ 0x1bu8
    } else {
        a << 1u8
    }
}

/// Bit `i` of `b` selects `x`, else zero.
pub open spec fn bit_term(b: u8, i: u8, x: u8) -> u8 {
    if (b >> i) & 1u8 == 1u8 {
        x
    } else {
        0u8
    }
}

/// Product of `a` and `b` in GF(2^8) modulo the AES polynomial.
pub open spec fn gmul(a: u8, b: u8) -> u8 {
    let a1 = xtime(a);
    let a2 = xtime(a1);
    let a3 = xtime(a2);
    let a4 = xtime(a3);
    let a5 = xtime(a4);
    let a6 = xtime(a5);
    let a7 = xtime(a6);
    bit_term(b, 0, a) ^ bit_term(b, 1, a1) ^ bit_term(b, 2, a2) ^ bit_term(b, 3, a3) ^ bit_term(
        b,
        4,
        a4,
    ) ^ bit_term(b, 5, a5) ^ bit_term(b, 6, a6) ^ bit_term(b, 7, a7)
}

/// The mixing coefficients: `[2, 1, 1, 3]` when encrypting, `[14, 9, 13, 11]` when decrypting.
pub open spec fn mix_const(encryption: bool, m: int) -> u8 {
    if encryption {
        if m == 0 { 2u8 } else if m == 1 { 1u8 } else if m == 2 { 1u8 } else { 3u8 }
    } else {
        if m == 0 { 14u8 } else if m == 1 { 9u8 } else if m == 2 { 13u8 } else { 11u8 }
    }
}

/// Entry `k` of the mixed column `(s0, s1, s2, s3)`.
pub open spec fn mix_entry(s0: u8, s1: u8, s2: u8, s3: u8, k: int, encryption: bool) -> u8 {
    let c0 = mix_const(encryption, 0);
    let c1 = mix_const(encryption, 1);
    let c2 = mix_const(encryption, 2);
    let c3 = mix_const(encryption, 3);
    if k == 0 {
        gmul(s0, c0) ^ gmul(s3, c1) ^ gmul(s2, c2) ^ gmul(s1, c3)
    } else if k == 1 {
        gmul(s1, c0) ^ gmul(s0, c1) ^ gmul(s3, c2) ^ gmul(s2, c3)
    } else if k == 2 {
        gmul(s2, c0) ^ gmul(s1, c1) ^ gmul(s0, c2) ^ gmul(s3, c3)
    } else {
        gmul(s3, c0) ^ gmul(s2, c1) ^ gmul(s1, c2) ^ gmul(s0, c3)
    }
}

/// One step of the shift-and-add multiplication leaves the remaining product unchanged.
proof fn lemma_gmul_step(a: u8, b: u8)
    ensures
        gmul(a, b) == (if b & 1u8 == 1u8 { a } else { 0u8 }) ^ gmul(xtime(a), b >> 1u8),
{
    assert(gmul(a, b) == (if b & 1u8 == 1u8 { a } else { 0u8 }) ^ gmul(xtime(a), b >> 1u8))
        by (bit_vector);
}

proof fn lemma_xtime_linear(x: u8, y: u8)
    ensures
        xtime(x ^ y) == xtime(x) ^ xtime(y),
{
    assert(xtime(x ^ y) == xtime(x) ^ xtime(y)) by (bit_vector);
}

proof fn lemma_bit_term_linear(c: u8, i: u8, a: u8, b: u8)
    ensures
        bit_term(c, i, a ^ b) == bit_term(c, i, a) ^ bit_term(c, i, b),
{
    assert(bit_term(c, i, a ^ b) == bit_term(c, i, a) ^ bit_term(c, i, b)) by (bit_vector);
}

/// Multiplication by a constant distributes over xor.
proof fn lemma_gmul_linear(x: u8, y: u8, c: u8)
    ensures
        gmul(x ^ y, c) == gmul(x, c) ^ gmul(y, c),
{
    let x0 = x;
    let y0 = y;
    let x1 = xtime(x0);
    let y1 = xtime(y0);
    lemma_xtime_linear(x0, y0);
    let x2 = xtime(x1);
    let y2 = xtime(y1);
    lemma_xtime_linear(x1, y1);
    let x3 = xtime(x2);
    let y3 = xtime(y2);
    lemma_xtime_linear(x2, y2);
    let x4 = xtime(x3);
    let y4 = xtime(y3);
    lemma_xtime_linear(x3, y3);
    let x5 = xtime(x4);
    let y5 = xtime(y4);
    lemma_xtime_linear(x4, y4);
    let x6 = xtime(x5);
    let y6 = xtime(y5);
    lemma_xtime_linear(x5, y5);
    let x7 = xtime(x6);
    let y7 = xtime(y6);
    lemma_xtime_linear(x6, y6);
    assert(xtime(xtime(xtime(xtime(xtime(xtime(xtime(x ^ y))))))) == x7 ^ y7);
    lemma_bit_term_linear(c, 0u8, x0, y0);
    let u0 = bit_term(c, 0u8, x0);
    let v0 = bit_term(c, 0u8, y0);
    lemma_bit_term_linear(c, 1u8, x1, y1);
    let u1 = bit_term(c, 1u8, x1);
    let v1 = bit_term(c, 1u8, y1);
    lemma_bit_term_linear(c, 2u8, x2, y2);
    let u2 = bit_term(c, 2u8, x2);
    let v2 = bit_term(c, 2u8, y2);
    lemma_bit_term_linear(c, 3u8, x3, y3);
    let u3 = bit_term(c, 3u8, x3);
    let v3 = bit_term(c, 3u8, y3);
    lemma_bit_term_linear(c, 4u8, x4, y4);
    let u4 = bit_term(c, 4u8, x4);
    let v4 = bit_term(c, 4u8, y4);
    lemma_bit_term_linear(c, 5u8, x5, y5);
    let u5 = bit_term(c, 5u8, x5);
    let v5 = bit_term(c, 5u8, y5);
    lemma_bit_term_linear(c, 6u8, x6, y6);
    let u6 = bit_term(c, 6u8, x6);
    let v6 = bit_term(c, 6u8, y6);
    lemma_bit_term_linear(c, 7u8, x7, y7);
    let u7 = bit_term(c, 7u8, x7);
    let v7 = bit_term(c, 7u8, y7);
    let lhs = gmul(x ^ y, c);
    assert(lhs == (u0 ^ v0) ^ (u1 ^ v1) ^ (u2 ^ v2) ^ (u3 ^ v3) ^ (u4 ^ v4) ^ (u5 ^ v5) ^ (u6 ^ v6) ^ (u7 ^ v7));
    let gx = gmul(x, c);
    let gy = gmul(y, c);
    assert(lhs == gx ^ gy) by (bit_vector)
        requires
            lhs == (u0 ^ v0) ^ (u1 ^ v1) ^ (u2 ^ v2) ^ (u3 ^ v3) ^ (u4 ^ v4) ^ (u5 ^ v5) ^ (u6 ^ v6) ^ (u7 ^ v7),
            gx == u0 ^ u1 ^ u2 ^ u3 ^ u4 ^ u5 ^ u6 ^ u7,
            gy == v0 ^ v1 ^ v2 ^ v3 ^ v4 ^ v5 ^ v6 ^ v7,
    ;
}

proof fn lemma_gmul_linear4(x0: u8, x1: u8, x2: u8, x3: u8, c: u8)
    ensures
        gmul(x0 ^ x1 ^ x2 ^ x3, c) == gmul(x0, c) ^ gmul(x1, c) ^ gmul(x2, c) ^ gmul(x3, c),
{
    lemma_gmul_linear(x0 ^ x1 ^ x2, x3, c);
    lemma_gmul_linear(x0 ^ x1, x2, c);
    lemma_gmul_linear(x0, x1, c);
}

proof fn lemma_mix_cancel_0(s: u8)
    ensures
        gmul(gmul(s, 2u8), 14u8) ^ gmul(gmul(s, 1u8), 11u8) ^ gmul(gmul(s, 1u8), 13u8) ^ gmul(gmul(s, 3u8), 9u8) == s,
{
    assert(gmul(gmul(s, 2u8), 14u8) ^ gmul(gmul(s, 1u8), 11u8) ^ gmul(gmul(s, 1u8), 13u8) ^ gmul(gmul(s, 3u8), 9u8) == s) by (bit_vector);
}

proof fn lemma_mix_cancel_1(s: u8)
    ensures
        gmul(gmul(s, 2u8), 9u8) ^ gmul(gmul(s, 1u8), 14u8) ^ gmul(gmul(s, 1u8), 11u8) ^ gmul(gmul(s, 3u8), 13u8) == 0u8,
{
    assert(gmul(gmul(s, 2u8), 9u8) ^ gmul(gmul(s, 1u8), 14u8) ^ gmul(gmul(s, 1u8), 11u8) ^ gmul(gmul(s, 3u8), 13u8) == 0u8) by (bit_vector);
}

proof fn lemma_mix_cancel_2(s: u8)
    ensures
        gmul(gmul(s, 2u8), 13u8) ^ gmul(gmul(s, 1u8), 9u8) ^ gmul(gmul(s, 1u8), 14u8) ^ gmul(gmul(s, 3u8), 11u8) == 0u8,
{
    assert(gmul(gmul(s, 2u8), 13u8) ^ gmul(gmul(s, 1u8), 9u8) ^ gmul(gmul(s, 1u8), 14u8) ^ gmul(gmul(s, 3u8), 11u8) == 0u8) by (bit_vector);
}

proof fn lemma_mix_cancel_3(s: u8)
    ensures
        gmul(gmul(s, 2u8), 11u8) ^ gmul(gmul(s, 1u8), 13u8) ^ gmul(gmul(s, 1u8), 9u8) ^ gmul(gmul(s, 3u8), 14u8) == 0u8,
{
    assert(gmul(gmul(s, 2u8), 11u8) ^ gmul(gmul(s, 1u8), 13u8) ^ gmul(gmul(s, 1u8), 9u8) ^ gmul(gmul(s, 3u8), 14u8) == 0u8) by (bit_vector);
}

/// Mixing a column and then inverse-mixing it gives the column back.
pub proof fn lemma_mix_inverse(s0: u8, s1: u8, s2: u8, s3: u8)
    ensures
        ({
            let m0 = mix_entry(s0, s1, s2, s3, 0, true);
            let m1 = mix_entry(s0, s1, s2, s3, 1, true);
            let m2 = mix_entry(s0, s1, s2, s3, 2, true);
            let m3 = mix_entry(s0, s1, s2, s3, 3, true);
            &&& mix_entry(m0, m1, m2, m3, 0, false) == s0
            &&& mix_entry(m0, m1, m2, m3, 1, false) == s1
            &&& mix_entry(m0, m1, m2, m3, 2, false) == s2
            &&& mix_entry(m0, m1, m2, m3, 3, false) == s3
        }),
{
    let m0 = mix_entry(s0, s1, s2, s3, 0, true);
    let m1 = mix_entry(s0, s1, s2, s3, 1, true);
    let m2 = mix_entry(s0, s1, s2, s3, 2, true);
    let m3 = mix_entry(s0, s1, s2, s3, 3, true);
    {
        let p00 = gmul(gmul(s0, 2u8), 14u8);
        let p01 = gmul(gmul(s1, 3u8), 14u8);
        let p02 = gmul(gmul(s2, 1u8), 14u8);
        let p03 = gmul(gmul(s3, 1u8), 14u8);
        let p10 = gmul(gmul(s0, 1u8), 11u8);
        let p11 = gmul(gmul(s1, 2u8), 11u8);
        let p12 = gmul(gmul(s2, 3u8), 11u8);
        let p13 = gmul(gmul(s3, 1u8), 11u8);
        let p20 = gmul(gmul(s0, 1u8), 13u8);
        let p21 = gmul(gmul(s1, 1u8), 13u8);
        let p22 = gmul(gmul(s2, 2u8), 13u8);
        let p23 = gmul(gmul(s3, 3u8), 13u8);
        let p30 = gmul(gmul(s0, 3u8), 9u8);
        let p31 = gmul(gmul(s1, 1u8), 9u8);
        let p32 = gmul(gmul(s2, 1u8), 9u8);
        let p33 = gmul(gmul(s3, 2u8), 9u8);
        lemma_gmul_linear4(gmul(s0, 2u8), gmul(s3, 1u8), gmul(s2, 1u8), gmul(s1, 3u8), 14u8);
        lemma_gmul_linear4(gmul(s1, 2u8), gmul(s0, 1u8), gmul(s3, 1u8), gmul(s2, 3u8), 11u8);
        lemma_gmul_linear4(gmul(s2, 2u8), gmul(s1, 1u8), gmul(s0, 1u8), gmul(s3, 3u8), 13u8);
        lemma_gmul_linear4(gmul(s3, 2u8), gmul(s2, 1u8), gmul(s1, 1u8), gmul(s0, 3u8), 9u8);
        lemma_mix_cancel_0(s0);
        lemma_mix_cancel_3(s1);
        lemma_mix_cancel_2(s2);
        lemma_mix_cancel_1(s3);
        let g = gmul(m0, 14u8) ^ gmul(m3, 9u8) ^ gmul(m2, 13u8) ^ gmul(m1, 11u8);
        assert(g == s0) by (bit_vector)
            requires
                gmul(m0, 14u8) == p00 ^ p03 ^ p02 ^ p01,
                gmul(m1, 11u8) == p11 ^ p10 ^ p13 ^ p12,
                gmul(m2, 13u8) == p22 ^ p21 ^ p20 ^ p23,
                gmul(m3, 9u8) == p33 ^ p32 ^ p31 ^ p30,
                p00 ^ p10 ^ p20 ^ p30 == s0,
                p11 ^ p21 ^ p31 ^ p01 == 0u8,
                p22 ^ p32 ^ p02 ^ p12 == 0u8,
                p33 ^ p03 ^ p13 ^ p23 == 0u8,
                g == gmul(m0, 14u8) ^ gmul(m3, 9u8) ^ gmul(m2, 13u8) ^ gmul(m1, 11u8),
        ;
    }
    {
        let p00 = gmul(gmul(s0, 2u8), 9u8);
        let p01 = gmul(gmul(s1, 3u8), 9u8);
        let p02 = gmul(gmul(s2, 1u8), 9u8);
        let p03 = gmul(gmul(s3, 1u8), 9u8);
        let p10 = gmul(gmul(s0, 1u8), 14u8);
        let p11 = gmul(gmul(s1, 2u8), 14u8);
        let p12 = gmul(gmul(s2, 3u8), 14u8);
        let p13 = gmul(gmul(s3, 1u8), 14u8);
        let p20 = gmul(gmul(s0, 1u8), 11u8);
        let p21 = gmul(gmul(s1, 1u8), 11u8);
        let p22 = gmul(gmul(s2, 2u8), 11u8);
        let p23 = gmul(gmul(s3, 3u8), 11u8);
        let p30 = gmul(gmul(s0, 3u8), 13u8);
        let p31 = gmul(gmul(s1, 1u8), 13u8);
        let p32 = gmul(gmul(s2, 1u8), 13u8);
        let p33 = gmul(gmul(s3, 2u8), 13u8);
        lemma_gmul_linear4(gmul(s0, 2u8), gmul(s3, 1u8), gmul(s2, 1u8), gmul(s1, 3u8), 9u8);
        lemma_gmul_linear4(gmul(s1, 2u8), gmul(s0, 1u8), gmul(s3, 1u8), gmul(s2, 3u8), 14u8);
        lemma_gmul_linear4(gmul(s2, 2u8), gmul(s1, 1u8), gmul(s0, 1u8), gmul(s3, 3u8), 11u8);
        lemma_gmul_linear4(gmul(s3, 2u8), gmul(s2, 1u8), gmul(s1, 1u8), gmul(s0, 3u8), 13u8);
        lemma_mix_cancel_1(s0);
        lemma_mix_cancel_0(s1);
        lemma_mix_cancel_3(s2);
        lemma_mix_cancel_2(s3);
        let g = gmul(m1, 14u8) ^ gmul(m0, 9u8) ^ gmul(m3, 13u8) ^ gmul(m2, 11u8);
        assert(g == s1) by (bit_vector)
            requires
                gmul(m0, 9u8) == p00 ^ p03 ^ p02 ^ p01,
                gmul(m1, 14u8) == p11 ^ p10 ^ p13 ^ p12,
                gmul(m2, 11u8) == p22 ^ p21 ^ p20 ^ p23,
                gmul(m3, 13u8) == p33 ^ p32 ^ p31 ^ p30,
                p00 ^ p10 ^ p20 ^ p30 == 0u8,
                p11 ^ p21 ^ p31 ^ p01 == s1,
                p22 ^ p32 ^ p02 ^ p12 == 0u8,
                p33 ^ p03 ^ p13 ^ p23 == 0u8,
                g == gmul(m1, 14u8) ^ gmul(m0, 9u8) ^ gmul(m3, 13u8) ^ gmul(m2, 11u8),
        ;
    }
    {
        let p00 = gmul(gmul(s0, 2u8), 13u8);
        let p01 = gmul(gmul(s1, 3u8), 13u8);
        let p02 = gmul(gmul(s2, 1u8), 13u8);
        let p03 = gmul(gmul(s3, 1u8), 13u8);
        let p10 = gmul(gmul(s0, 1u8), 9u8);
        let p11 = gmul(gmul(s1, 2u8), 9u8);
        let p12 = gmul(gmul(s2, 3u8), 9u8);
        let p13 = gmul(gmul(s3, 1u8), 9u8);
        let p20 = gmul(gmul(s0, 1u8), 14u8);
        let p21 = gmul(gmul(s1, 1u8), 14u8);
        let p22 = gmul(gmul(s2, 2u8), 14u8);
        let p23 = gmul(gmul(s3, 3u8), 14u8);
        let p30 = gmul(gmul(s0, 3u8), 11u8);
        let p31 = gmul(gmul(s1, 1u8), 11u8);
        let p32 = gmul(gmul(s2, 1u8), 11u8);
        let p33 = gmul(gmul(s3, 2u8), 11u8);
        lemma_gmul_linear4(gmul(s0, 2u8), gmul(s3, 1u8), gmul(s2, 1u8), gmul(s1, 3u8), 13u8);
        lemma_gmul_linear4(gmul(s1, 2u8), gmul(s0, 1u8), gmul(s3, 1u8), gmul(s2, 3u8), 9u8);
        lemma_gmul_linear4(gmul(s2, 2u8), gmul(s1, 1u8), gmul(s0, 1u8), gmul(s3, 3u8), 14u8);
        lemma_gmul_linear4(gmul(s3, 2u8), gmul(s2, 1u8), gmul(s1, 1u8), gmul(s0, 3u8), 11u8);
        lemma_mix_cancel_2(s0);
        lemma_mix_cancel_1(s1);
        lemma_mix_cancel_0(s2);
        lemma_mix_cancel_3(s3);
        let g = gmul(m2, 14u8) ^ gmul(m1, 9u8) ^ gmul(m0, 13u8) ^ gmul(m3, 11u8);
        assert(g == s2) by (bit_vector)
            requires
                gmul(m0, 13u8) == p00 ^ p03 ^ p02 ^ p01,
                gmul(m1, 9u8) == p11 ^ p10 ^ p13 ^ p12,
                gmul(m2, 14u8) == p22 ^ p21 ^ p20 ^ p23,
                gmul(m3, 11u8) == p33 ^ p32 ^ p31 ^ p30,
                p00 ^ p10 ^ p20 ^ p30 == 0u8,
                p11 ^ p21 ^ p31 ^ p01 == 0u8,
                p22 ^ p32 ^ p02 ^ p12 == s2,
                p33 ^ p03 ^ p13 ^ p23 == 0u8,
                g == gmul(m2, 14u8) ^ gmul(m1, 9u8) ^ gmul(m0, 13u8) ^ gmul(m3, 11u8),
        ;
    }
    {
        let p00 = gmul(gmul(s0, 2u8), 11u8);
        let p01 = gmul(gmul(s1, 3u8), 11u8);
        let p02 = gmul(gmul(s2, 1u8), 11u8);
        let p03 = gmul(gmul(s3, 1u8), 11u8);
        let p10 = gmul(gmul(s0, 1u8), 13u8);
        let p11 = gmul(gmul(s1, 2u8), 13u8);
        let p12 = gmul(gmul(s2, 3u8), 13u8);
        let p13 = gmul(gmul(s3, 1u8), 13u8);
        let p20 = gmul(gmul(s0, 1u8), 9u8);
        let p21 = gmul(gmul(s1, 1u8), 9u8);
        let p22 = gmul(gmul(s2, 2u8), 9u8);
        let p23 = gmul(gmul(s3, 3u8), 9u8);
        let p30 = gmul(gmul(s0, 3u8), 14u8);
        let p31 = gmul(gmul(s1, 1u8), 14u8);
        let p32 = gmul(gmul(s2, 1u8), 14u8);
        let p33 = gmul(gmul(s3, 2u8), 14u8);
        lemma_gmul_linear4(gmul(s0, 2u8), gmul(s3, 1u8), gmul(s2, 1u8), gmul(s1, 3u8), 11u8);
        lemma_gmul_linear4(gmul(s1, 2u8), gmul(s0, 1u8), gmul(s3, 1u8), gmul(s2, 3u8), 13u8);
        lemma_gmul_linear4(gmul(s2, 2u8), gmul(s1, 1u8), gmul(s0, 1u8), gmul(s3, 3u8), 9u8);
        lemma_gmul_linear4(gmul(s3, 2u8), gmul(s2, 1u8), gmul(s1, 1u8), gmul(s0, 3u8), 14u8);
        lemma_mix_cancel_3(s0);
        lemma_mix_cancel_2(s1);
        lemma_mix_cancel_1(s2);
        lemma_mix_cancel_0(s3);
        let g = gmul(m3, 14u8) ^ gmul(m2, 9u8) ^ gmul(m1, 13u8) ^ gmul(m0, 11u8);
        assert(g == s3) by (bit_vector)
            requires
                gmul(m0, 11u8) == p00 ^ p03 ^ p02 ^ p01,
                gmul(m1, 13u8) == p11 ^ p10 ^ p13 ^ p12,
                gmul(m2, 9u8) == p22 ^ p21 ^ p20 ^ p23,
                gmul(m3, 14u8) == p33 ^ p32 ^ p31 ^ p30,
                p00 ^ p10 ^ p20 ^ p30 == 0u8,
                p11 ^ p21 ^ p31 ^ p01 == 0u8,
                p22 ^ p32 ^ p02 ^ p12 == 0u8,
                p33 ^ p03 ^ p13 ^ p23 == s3,
                g == gmul(m3, 14u8) ^ gmul(m2, 9u8) ^ gmul(m1, 13u8) ^ gmul(m0, 11u8),
        ;
    }
}

// ------------------------------------------------------------------------------------------
// The state as a 4x4 grid of bytes, and the AES steps on it.
// ------------------------------------------------------------------------------------------

/// A 4x4 matrix of bytes held as rows.
pub open spec fn grid(s: [[u8; 4]; 4]) -> Seq<Seq<u8>> {
    Seq::new(4, |r: int| s[r]@)
}

/// A 4x4 grid: four rows of four bytes.
pub open spec fn is_grid(g: Seq<Seq<u8>>) -> bool {
    g.len() == 4 && forall|r: int| 0 <= r < 4 ==> #[trigger] g[r].len() == 4
}

/// Every byte replaced through the box (or the inverse box when decrypting).
pub open spec fn sub_grid(g: Seq<Seq<u8>>, encryption: bool) -> Seq<Seq<u8>> {
    Seq::new(
        4,
        |r: int|
            Seq::new(
                4,
                |c: int|
                    if encryption {
                        sbox(g[r][c])
                    } else {
                        inv_sbox(g[r][c])
                    },
            ),
    )
}

/// Row `r` rotated left by `r` places.
pub open spec fn shift_grid(g: Seq<Seq<u8>>) -> Seq<Seq<u8>> {
    Seq::new(4, |r: int| Seq::new(4, |c: int| g[r][(c + r) % 4]))
}

/// Row `r` rotated right by `r` places.
pub open spec fn inv_shift_grid(g: Seq<Seq<u8>>) -> Seq<Seq<u8>> {
    Seq::new(4, |r: int| Seq::new(4, |c: int| g[r][(c + 4 - r) % 4]))
}

/// Every column mixed (or inverse-mixed when decrypting).
pub open spec fn mix_grid(g: Seq<Seq<u8>>, encryption: bool) -> Seq<Seq<u8>> {
    Seq::new(
        4,
        |r: int| Seq::new(4, |c: int| mix_entry(g[0][c], g[1][c], g[2][c], g[3][c], r, encryption)),
    )
}

/// Cell `(r, c)` xored with byte `r` of key word `c`.
pub open spec fn ark_grid(g: Seq<Seq<u8>>, k: Seq<Seq<u8>>) -> Seq<Seq<u8>> {
    Seq::new(4, |r: int| Seq::new(4, |c: int| g[r][c] ^ k[c][r]))
}

/// Sixteen bytes laid out column by column.
pub open spec fn load_grid(bytes: Seq<u8>) -> Seq<Seq<u8>> {
    Seq::new(4, |r: int| Seq::new(4, |c: int| bytes[c * 4 + r]))
}

/// The grid read back column by column.
pub open spec fn store_grid(g: Seq<Seq<u8>>) -> Seq<u8> {
    Seq::new(16, |i: int| g[i % 4][i / 4])
}

// ------------------------------------------------------------------------------------------
// The key schedule.
// ------------------------------------------------------------------------------------------

/// The round constant for generation round `r`.
pub open spec fn rcon(r: int) -> u8 {
    if r == 1 {
        0x01u8
    } else if r == 2 {
        0x02u8
    } else if r == 3 {
        0x04u8
    } else if r == 4 {
        0x08u8
    } else if r == 5 {
        0x10u8
    } else if r == 6 {
        0x20u8
    } else if r == 7 {
        0x40u8
    } else if r == 8 {
        0x80u8
    } else if r == 9 {
        0x1Bu8
    } else if r == 10 {
        0x36u8
    } else {
        0x00u8
    }
}

/// Bytewise xor of two words.
pub open spec fn xor_word(a: Seq<u8>, b: Seq<u8>) -> Seq<u8> {
    Seq::new(4, |i: int| a[i] ^ b[i])
}

/// A word rotated left by one byte.
pub open spec fn rot_word(a: Seq<u8>) -> Seq<u8> {
    Seq::new(4, |i: int| a[(i + 1) % 4])
}

/// Every byte of a word replaced through the box.
pub open spec fn sub_word(a: Seq<u8>) -> Seq<u8> {
    Seq::new(4, |i: int| sbox(a[i]))
}

/// Word `i` of the expanded key.
pub open spec fn key_word(key: Seq<u8>, i: nat) -> Seq<u8>
    decreases i,
{
    if i < 4 {
        key.subrange(4 * (i as int), 4 * (i as int) + 4)
    } else if i % 4 == 0 {
        xor_word(
            xor_word(
                key_word(key, (i - 4) as nat),
                sub_word(rot_word(key_word(key, (i - 1) as nat))),
            ),
            seq![rcon((i / 4) as int), 0u8, 0u8, 0u8],
        )
    } else {
        xor_word(key_word(key, (i - 4) as nat), key_word(key, (i - 1) as nat))
    }
}

/// The 44 words of the expanded key.
pub open spec fn key_words(key: Seq<u8>) -> Seq<Seq<u8>> {
    Seq::new(44, |i: int| key_word(key, i as nat))
}

/// The four words of round key `r`.
pub open spec fn round_key(w: Seq<Seq<u8>>, r: int) -> Seq<Seq<u8>> {
    w.subrange(4 * r, 4 * r + 4)
}

// ------------------------------------------------------------------------------------------
// The block cipher.
// ------------------------------------------------------------------------------------------

/// Encryption round `r` (1 to 9).
pub open spec fn enc_round(g: Seq<Seq<u8>>, w: Seq<Seq<u8>>, r: int) -> Seq<Seq<u8>> {
    ark_grid(mix_grid(shift_grid(sub_grid(g, true)), true), round_key(w, r))
}

/// Encryption rounds 1 to `n`.
pub open spec fn enc_rounds(g: Seq<Seq<u8>>, w: Seq<Seq<u8>>, n: nat) -> Seq<Seq<u8>>
    decreases n,
{
    if n == 0 {
        g
    } else {
        enc_round(enc_rounds(g, w, (n - 1) as nat), w, n as int)
    }
}

/// A 16-byte block encrypted with the expanded key `w`.
pub open spec fn enc_block(w: Seq<Seq<u8>>, bytes: Seq<u8>) -> Seq<u8> {
    let g0 = ark_grid(load_grid(bytes), round_key(w, 0));
    let g9 = enc_rounds(g0, w, 9);
    store_grid(ark_grid(shift_grid(sub_grid(g9, true)), round_key(w, 10)))
}

/// Decryption round `r` (9 down to 1).
pub open spec fn dec_round(g: Seq<Seq<u8>>, w: Seq<Seq<u8>>, r: int) -> Seq<Seq<u8>> {
    sub_grid(inv_shift_grid(mix_grid(ark_grid(g, round_key(w, r)), false)), false)
}

/// Decryption rounds `n` down to 1.
pub open spec fn dec_rounds(g: Seq<Seq<u8>>, w: Seq<Seq<u8>>, n: nat) -> Seq<Seq<u8>>
    decreases n,
{
    if n == 0 {
        g
    } else {
        dec_rounds(dec_round(g, w, n as int), w, (n - 1) as nat)
    }
}

/// A 16-byte block decrypted with the expanded key `w`.
pub open spec fn dec_block(w: Seq<Seq<u8>>, bytes: Seq<u8>) -> Seq<u8> {
    let g0 = sub_grid(inv_shift_grid(ark_grid(load_grid(bytes), round_key(w, 10))), false);
    let g9 = dec_rounds(g0, w, 9);
    store_grid(ark_grid(g9, round_key(w, 0)))
}

/// Block `b` (bytes `16 b` to `16 b + 16`) of a message.
pub open spec fn block_of(bytes: Seq<u8>, b: int) -> Seq<u8> {
    bytes.subrange(16 * b, 16 * b + 16)
}

/// A message of whole blocks encrypted block by block (electronic codebook mode).
pub open spec fn enc_message(key: Seq<u8>, bytes: Seq<u8>) -> Seq<u8> {
    Seq::new(bytes.len(), |i: int| enc_block(key_words(key), block_of(bytes, i / 16))[i % 16])
}

/// A message decrypted block by block; bytes after the last whole block come out as zero.
pub open spec fn dec_message(key: Seq<u8>, bytes: Seq<u8>) -> Seq<u8> {
    Seq::new(
        bytes.len(),
        |i: int|
            if i < (bytes.len() / 16) * 16 {
                dec_block(key_words(key), block_of(bytes, i / 16))[i % 16]
            } else {
                0u8
            },
    )
}

// ------------------------------------------------------------------------------------------
// Inverse laws.
// ------------------------------------------------------------------------------------------

proof fn lemma_xor_twice(a: u8, b: u8)
    ensures
        (a ^ b) ^ b == a,
{
    assert((a ^ b) ^ b == a) by (bit_vector);
}

proof fn lemma_ark_involution(g: Seq<Seq<u8>>, k: Seq<Seq<u8>>)
    requires
        is_grid(g),
    ensures
        ark_grid(ark_grid(g, k), k) == g,
{
    assert forall|r: int, c: int| 0 <= r < 4 && 0 <= c < 4 implies ark_grid(ark_grid(g, k), k)[r][c]
        == g[r][c] by {
        lemma_xor_twice(g[r][c], k[c][r]);
    }
    assert forall|r: int| 0 <= r < 4 implies ark_grid(ark_grid(g, k), k)[r] =~= g[r] by {}
    assert(ark_grid(ark_grid(g, k), k) =~= g);
}

proof fn lemma_sub_inverse(g: Seq<Seq<u8>>)
    requires
        is_grid(g),
    ensures
        sub_grid(sub_grid(g, true), false) == g,
{
    assert forall|r: int| 0 <= r < 4 implies sub_grid(sub_grid(g, true), false)[r] =~= g[r] by {
        assert forall|c: int| 0 <= c < 4 implies sub_grid(sub_grid(g, true), false)[r][c]
            == g[r][c] by {
            lemma_inv_sbox_sbox(g[r][c]);
        }
    }
    assert(sub_grid(sub_grid(g, true), false) =~= g);
}

proof fn lemma_shift_inverse(g: Seq<Seq<u8>>)
    requires
        is_grid(g),
    ensures
        inv_shift_grid(shift_grid(g)) == g,
{
    assert forall|r: int| 0 <= r < 4 implies inv_shift_grid(shift_grid(g))[r] =~= g[r] by {
        assert forall|c: int| 0 <= c < 4 implies inv_shift_grid(shift_grid(g))[r][c] == g[r][c] by {
            assert(((c + 4 - r) % 4 + r) % 4 == c);
        }
    }
    assert(inv_shift_grid(shift_grid(g)) =~= g);
}

proof fn lemma_mix_grid_inverse(g: Seq<Seq<u8>>)
    requires
        is_grid(g),
    ensures
        mix_grid(mix_grid(g, true), false) == g,
{
    let m = mix_grid(g, true);
    assert forall|r: int| 0 <= r < 4 implies mix_grid(m, false)[r] =~= g[r] by {
        assert forall|c: int| 0 <= c < 4 implies mix_grid(m, false)[r][c] == g[r][c] by {
            lemma_mix_inverse(g[0][c], g[1][c], g[2][c], g[3][c]);
        }
    }
    assert(mix_grid(m, false) =~= g);
}

proof fn lemma_round_inverse(g: Seq<Seq<u8>>, w: Seq<Seq<u8>>, r: int)
    requires
        is_grid(g),
    ensures
        dec_round(enc_round(g, w, r), w, r) == g,
        is_grid(enc_round(g, w, r)),
{
    let k = round_key(w, r);
    let a = sub_grid(g, true);
    let b = shift_grid(a);
    let c = mix_grid(b, true);
    lemma_ark_involution(c, k);
    lemma_mix_grid_inverse(b);
    lemma_shift_inverse(a);
    lemma_sub_inverse(g);
}

proof fn lemma_rounds_inverse(g: Seq<Seq<u8>>, w: Seq<Seq<u8>>, n: nat)
    requires
        is_grid(g),
    ensures
        dec_rounds(enc_rounds(g, w, n), w, n) == g,
        is_grid(enc_rounds(g, w, n)),
    decreases n,
{
    if n > 0 {
        lemma_rounds_inverse(g, w, (n - 1) as nat);
        lemma_round_inverse(enc_rounds(g, w, (n - 1) as nat), w, n as int);
    }
}

proof fn lemma_load_store(g: Seq<Seq<u8>>)
    requires
        is_grid(g),
    ensures
        load_grid(store_grid(g)) == g,
{
    assert forall|r: int| 0 <= r < 4 implies load_grid(store_grid(g))[r] =~= g[r] by {
        assert forall|c: int| 0 <= c < 4 implies load_grid(store_grid(g))[r][c] == g[r][c] by {
            assert((c * 4 + r) % 4 == r);
            assert((c * 4 + r) / 4 == c);
        }
    }
    assert(load_grid(store_grid(g)) =~= g);
}

proof fn lemma_store_load(bytes: Seq<u8>)
    requires
        bytes.len() == 16,
    ensures
        store_grid(load_grid(bytes)) == bytes,
{
    assert forall|i: int| 0 <= i < 16 implies store_grid(load_grid(bytes))[i] == bytes[i] by {
        assert((i / 4) * 4 + i % 4 == i);
    }
    assert(store_grid(load_grid(bytes)) =~= bytes);
}

/// Decrypting an encrypted block with the same expanded key gives the block back.
pub proof fn lemma_block_roundtrip(w: Seq<Seq<u8>>, bytes: Seq<u8>)
    requires
        bytes.len() == 16,
    ensures
        dec_block(w, enc_block(w, bytes)) == bytes,
{
    let g0 = ark_grid(load_grid(bytes), round_key(w, 0));
    lemma_rounds_inverse(g0, w, 9);
    let g9 = enc_rounds(g0, w, 9);
    let a = sub_grid(g9, true);
    let b = shift_grid(a);
    let c = ark_grid(b, round_key(w, 10));
    lemma_load_store(c);
    lemma_ark_involution(b, round_key(w, 10));
    lemma_shift_inverse(a);
    lemma_sub_inverse(g9);
    lemma_ark_involution(load_grid(bytes), round_key(w, 0));
    lemma_store_load(bytes);
}

/// Decrypting an encrypted message of whole blocks with the same key gives the message back.
pub proof fn lemma_message_roundtrip(key: Seq<u8>, bytes: Seq<u8>)
    requires
        bytes.len() % 16 == 0,
    ensures
        dec_message(key, enc_message(key, bytes)) == bytes,
{
    let e = enc_message(key, bytes);
    let w = key_words(key);
    assert forall|i: int| 0 <= i < bytes.len() implies dec_message(key, e)[i] == bytes[i] by {
        let b = i / 16;
        assert(16 * b + 16 <= bytes.len()) by {
            assert(bytes.len() == (bytes.len() / 16) * 16);
        }
        assert(block_of(e, b) =~= enc_block(w, block_of(bytes, b))) by {
            assert forall|j: int| 0 <= j < 16 implies block_of(e, b)[j] == enc_block(
                w,
                block_of(bytes, b),
            )[j] by {
                assert((16 * b + j) / 16 == b);
                assert((16 * b + j) % 16 == j);
            }
        }
        lemma_block_roundtrip(w, block_of(bytes, b));
        assert(i < (bytes.len() / 16) * 16);
    }
    assert(dec_message(key, e) =~= bytes);
}

// ------------------------------------------------------------------------------------------
// Executable AES-128.
// ------------------------------------------------------------------------------------------

/// The words of an expanded key.
pub open spec fn words_of(ek: [[u8; 4]; 44]) -> Seq<Seq<u8>> {
    Seq::new(44, |i: int| ek[i]@)
}

proof fn lemma_grid_ext(a: [[u8; 4]; 4], g: Seq<Seq<u8>>)
    requires
        is_grid(g),
        forall|r: int, c: int| 0 <= r < 4 && 0 <= c < 4 ==> a[r][c] == #[trigger] g[r][c],
    ensures
        grid(a) == g,
{
    assert forall|r: int| 0 <= r < 4 implies grid(a)[r] =~= g[r] by {
        assert forall|c: int| 0 <= c < 4 implies grid(a)[r][c] == g[r][c] by {
            assert(a[r][c] == g[r][c]);
        }
    }
    assert(grid(a) =~= g);
}

/// The four words of round key `round`, copied out of the expanded key.
fn clone_into_array(expanded_key: &[[u8; 4]; 44], round: usize) -> (r: [[u8; 4]; 4])
    requires
        round <= 10,
    ensures
        grid(r) == round_key(words_of(*expanded_key), round as int),
{
    let r = [
        expanded_key[4 * round],
        expanded_key[4 * round + 1],
        expanded_key[4 * round + 2],
        expanded_key[4 * round + 3],
    ];
    assert(grid(r) =~= round_key(words_of(*expanded_key), round as int));
    r
}

/// The round constant of generation round `r`.
fn round_constant(r: usize) -> (c: u8)
    ensures
        c == rcon(r as int),
{
    if r == 1 {
        0x01
    } else if r == 2 {
        0x02
    } else if r == 3 {
        0x04
    } else if r == 4 {
        0x08
    } else if r == 5 {
        0x10
    } else if r == 6 {
        0x20
    } else if r == 7 {
        0x40
    } else if r == 8 {
        0x80
    } else if r == 9 {
        0x1B
    } else if r == 10 {
        0x36
    } else {
        0x00
    }
}

/// Generates the 44 words of the expanded key from a 16-byte key.
fn key_schedule_aes128(key_bytes: &[u8; 16]) -> (expanded_key: [[u8; 4]; 44])
    ensures
        words_of(expanded_key) == key_words(key_bytes@),
{
    let mut original_key = [[0u8; 4]; 4];
    let mut expanded_key = [[0u8; 4]; 44];
    for i in 0..4
        invariant
            forall|j: int| 0 <= j < i ==> original_key[j]@ =~= #[trigger] key_bytes@.subrange(
                4 * j,
                4 * j + 4,
            ),
    {
        original_key[i] = [
            key_bytes[4 * i],
            key_bytes[4 * i + 1],
            key_bytes[4 * i + 2],
            key_bytes[4 * i + 3],
        ];
        assert(original_key[i as int]@ =~= key_bytes@.subrange(4 * i, 4 * i + 4));
    }
    for i in 0..44
        invariant
            forall|j: int| 0 <= j < 4 ==> original_key[j]@ =~= #[trigger] key_bytes@.subrange(
                4 * j,
                4 * j + 4,
            ),
            forall|j: int| 0 <= j < i ==> #[trigger] expanded_key[j]@ == key_word(
                key_bytes@,
                j as nat,
            ),
    {
        if i < 4 {
            expanded_key[i] = original_key[i];
        } else if i % 4 == 0 {
            let mut rcon_word = [0u8; 4];
            rcon_word[0] = round_constant(i / 4);
            assert(rcon_word@ =~= seq![rcon((i / 4) as int), 0u8, 0u8, 0u8]);
            expanded_key[i] = xor_words(
                &xor_words(&expanded_key[i - 4], &substitute_word(&rotate_word(&expanded_key[i - 1]))),
                &rcon_word,
            );
        } else {
            expanded_key[i] = xor_words(&expanded_key[i - 4], &expanded_key[i - 1]);
        }
    }
    assert(words_of(expanded_key) =~= key_words(key_bytes@));
    expanded_key
}

/// A byte through the box, or the inverse box when not encrypting.
fn substitute(byte: &u8, encryption: bool) -> (r: u8)
    ensures
        r == (if encryption {
            sbox(*byte)
        } else {
            inv_sbox(*byte)
        }),
{
    match encryption {
        true => sbox_lookup(*byte),
        false => inv_sbox_lookup(*byte),
    }
}

/// A word rotated left by one byte.
fn rotate_word(word: &[u8; 4]) -> (result: [u8; 4])
    ensures
        result@ == rot_word(word@),
{
    let result = [word[1], word[2], word[3], word[0]];
    assert(result@ =~= rot_word(word@));
    result
}

/// Every byte of a word through the box.
fn substitute_word(word: &[u8; 4]) -> (result: [u8; 4])
    ensures
        result@ == sub_word(word@),
{
    let result = [
        substitute(&word[0], true),
        substitute(&word[1], true),
        substitute(&word[2], true),
        substitute(&word[3], true),
    ];
    assert(result@ =~= sub_word(word@));
    result
}

/// Bytewise xor of two words.
fn xor_words(word1: &[u8; 4], word2: &[u8; 4]) -> (result: [u8; 4])
    ensures
        result@ == xor_word(word1@, word2@),
{
    let result = [word1[0] ^ word2[0], word1[1] ^ word2[1], word1[2] ^ word2[2], word1[3] ^ word2[3]];
    assert(result@ =~= xor_word(word1@, word2@));
    result
}

/// Adds a round key to the state: cell `(i, j)` is xored with byte `i` of word `j`.
fn add_round_key(state: &mut [[u8; 4]; 4], key: &[[u8; 4]; 4])
    ensures
        grid(*final(state)) == ark_grid(grid(*old(state)), grid(*key)),
{
    let ghost g = ark_grid(grid(*state), grid(*key));
    for i in 0..4
        invariant
            forall|r: int, c: int|
                0 <= r < 4 && 0 <= c < 4 ==> #[trigger] state[r][c] == (if r < i {
                    g[r][c]
                } else {
                    old(state)[r][c]
                }),
            g == ark_grid(grid(*old(state)), grid(*key)),
    {
        for j in 0..4
            invariant
                forall|r: int, c: int|
                    0 <= r < 4 && 0 <= c < 4 ==> #[trigger] state[r][c] == (if r < i || (r == i
                        && c < j) {
                        g[r][c]
                    } else {
                        old(state)[r][c]
                    }),
                g == ark_grid(grid(*old(state)), grid(*key)),
                i < 4,
        {
            state[i][j] = state[i][j] ^ key[j][i];
        }
    }
    proof {
        lemma_grid_ext(*state, g);
    }
}

/// Every byte of the state through the box (`encryption`) or the inverse box.
fn substitute_all(state: &mut [[u8; 4]; 4], encryption: bool)
    ensures
        grid(*final(state)) == sub_grid(grid(*old(state)), encryption),
{
    let ghost g = sub_grid(grid(*state), encryption);
    for i in 0..4
        invariant
            forall|r: int, c: int|
                0 <= r < 4 && 0 <= c < 4 ==> #[trigger] state[r][c] == (if r < i {
                    g[r][c]
                } else {
                    old(state)[r][c]
                }),
            g == sub_grid(grid(*old(state)), encryption),
    {
        for j in 0..4
            invariant
                forall|r: int, c: int|
                    0 <= r < 4 && 0 <= c < 4 ==> #[trigger] state[r][c] == (if r < i || (r == i
                        && c < j) {
                        g[r][c]
                    } else {
                        old(state)[r][c]
                    }),
                g == sub_grid(grid(*old(state)), encryption),
                i < 4,
        {
            state[i][j] = substitute(&state[i][j], encryption);
        }
    }
    proof {
        lemma_grid_ext(*state, g);
    }
}

/// The substitute-bytes step of an encryption round.
fn substitute_bytes(state: &mut [[u8; 4]; 4])
    ensures
        grid(*final(state)) == sub_grid(grid(*old(state)), true),
{
    substitute_all(state, true);
}

/// The substitute-bytes step of a decryption round.
fn inverse_substitute_bytes(state: &mut [[u8; 4]; 4])
    ensures
        grid(*final(state)) == sub_grid(grid(*old(state)), false),
{
    substitute_all(state, false);
}

/// The shift-rows step: row `i` rotated left by `i`.
fn shift_rows(state: &mut [[u8; 4]; 4])
    ensures
        grid(*final(state)) == shift_grid(grid(*old(state))),
{
    let s = *state;
    *state = [
        s[0],
        [s[1][1], s[1][2], s[1][3], s[1][0]],
        [s[2][2], s[2][3], s[2][0], s[2][1]],
        [s[3][3], s[3][0], s[3][1], s[3][2]],
    ];
    proof {
        lemma_grid_ext(*state, shift_grid(grid(s)));
    }
}

/// The inverse shift-rows step: row `i` rotated right by `i`.
fn inverse_shift_rows(state: &mut [[u8; 4]; 4])
    ensures
        grid(*final(state)) == inv_shift_grid(grid(*old(state))),
{
    let s = *state;
    *state = [
        s[0],
        [s[1][3], s[1][0], s[1][1], s[1][2]],
        [s[2][2], s[2][3], s[2][0], s[2][1]],
        [s[3][1], s[3][2], s[3][3], s[3][0]],
    ];
    proof {
        lemma_grid_ext(*state, inv_shift_grid(grid(s)));
    }
}

/// Multiplies `ap` by `bp` in GF(2^8) modulo the AES polynomial, by shift and add.
fn galois_multiplication(ap: u8, bp: u8) -> (r: u8)
    ensures
        r == gmul(ap, bp),
{
    let mut p = 0u8;
    let mut a = ap;
    let mut b = bp;
    let mut i: u8 = 0;
    proof {
        assert(0u8 ^ gmul(ap, bp) == gmul(ap, bp)) by (bit_vector);
        assert(bp >> 0u8 == bp) by (bit_vector);
    }
    while i < 8
        invariant
            i <= 8,
            p ^ gmul(a, b) == gmul(ap, bp),
            b == bp >> i,
        decreases 8 - i,
    {
        let ghost p0 = p;
        let ghost a0 = a;
        let ghost b0 = b;
        if b & 1 == 1 {
            p ^= a;
        }
        let high_bit = a & 0x80;
        a = a << 1;
        if high_bit == 0x80 {
            a ^= 0x1b;
        }
        b = b >> 1;
        proof {
            lemma_gmul_step(a0, b0);
            let bitv = if b0 & 1u8 == 1u8 { a0 } else { 0u8 };
            let rest = gmul(xtime(a0), b0 >> 1u8);
            assert(a == xtime(a0)) by (bit_vector)
                requires
                    a == (if a0 & 0x80u8 == 0x80u8 { (a0 << 1u8) ^ 0x1bu8 } else { a0 << 1u8 }),
            ;
            assert(p ^ rest == p0 ^ (bitv ^ rest)) by (bit_vector)
                requires
                    p == (if b0 & 1u8 == 1u8 { p0 ^ a0 } else { p0 }),
                    bitv == (if b0 & 1u8 == 1u8 { a0 } else { 0u8 }),
            ;
            assert((bp >> i) >> 1u8 == bp >> ((i + 1) as u8)) by (bit_vector)
                requires
                    i < 8,
            ;
        }
        i += 1;
    }
    proof {
        assert(bp >> 8u8 == 0u8) by (bit_vector);
        assert(gmul(a, 0u8) == 0u8) by (bit_vector);
        assert(p ^ 0u8 == p) by (bit_vector);
    }
    p
}

/// The mixing coefficient `m`: `[2, 1, 1, 3]` when encrypting, `[14, 9, 13, 11]` when not.
fn mix_coefficient(encryption: bool, m: usize) -> (c: u8)
    requires
        m < 4,
    ensures
        c == mix_const(encryption, m as int),
{
    if encryption {
        if m == 0 {
            2
        } else if m == 1 {
            1
        } else if m == 2 {
            1
        } else {
            3
        }
    } else {
        if m == 0 {
            14
        } else if m == 1 {
            9
        } else if m == 2 {
            13
        } else {
            11
        }
    }
}

/// The mix-columns step (or its inverse when not encrypting).
pub fn mix_columns(state: &mut [[u8; 4]; 4], encryption: bool)
    ensures
        grid(*final(state)) == mix_grid(grid(*old(state)), encryption),
{
    let ghost g = mix_grid(grid(*state), encryption);
    for i in 0..4
        invariant
            forall|r: int, c: int|
                0 <= r < 4 && 0 <= c < 4 ==> #[trigger] state[r][c] == (if c < i {
                    g[r][c]
                } else {
                    old(state)[r][c]
                }),
            g == mix_grid(grid(*old(state)), encryption),
    {
        // the column, in the order the coefficients are applied for the first entry
        let col = [state[0][i], state[1][i], state[2][i], state[3][i]];
        for k in 0..4
            invariant
                forall|r: int, c: int|
                    0 <= r < 4 && 0 <= c < 4 ==> #[trigger] state[r][c] == (if c < i || (c == i
                        && r < k) {
                        g[r][c]
                    } else {
                        old(state)[r][c]
                    }),
                g == mix_grid(grid(*old(state)), encryption),
                i < 4,
                col[0] == old(state)[0][i as int],
                col[1] == old(state)[1][i as int],
                col[2] == old(state)[2][i as int],
                col[3] == old(state)[3][i as int],
        {
            let t0 = galois_multiplication(col[k], mix_coefficient(encryption, 0));
            let t1 = galois_multiplication(col[(k + 3) % 4], mix_coefficient(encryption, 1));
            let t2 = galois_multiplication(col[(k + 2) % 4], mix_coefficient(encryption, 2));
            let t3 = galois_multiplication(col[(k + 1) % 4], mix_coefficient(encryption, 3));
            state[k][i] = t0 ^ t1 ^ t2 ^ t3;
        }
    }
    proof {
        lemma_grid_ext(*state, g);
    }
}

/// The state of a 16-byte block, laid out column by column.
fn load_state(bytes: &[u8; 16]) -> (state: [[u8; 4]; 4])
    ensures
        grid(state) == load_grid(bytes@),
{
    let b = bytes;
    let state = [
        [b[0], b[4], b[8], b[12]],
        [b[1], b[5], b[9], b[13]],
        [b[2], b[6], b[10], b[14]],
        [b[3], b[7], b[11], b[15]],
    ];
    proof {
        lemma_grid_ext(state, load_grid(bytes@));
    }
    state
}

/// The state read back column by column.
fn store_state(state: &[[u8; 4]; 4]) -> (result: [u8; 16])
    ensures
        result@ == store_grid(grid(*state)),
{
    let s = state;
    let result = [
        s[0][0],
        s[1][0],
        s[2][0],
        s[3][0],
        s[0][1],
        s[1][1],
        s[2][1],
        s[3][1],
        s[0][2],
        s[1][2],
        s[2][2],
        s[3][2],
        s[0][3],
        s[1][3],
        s[2][3],
        s[3][3],
    ];
    assert(result@ =~= store_grid(grid(*state)));
    result
}

/// Encrypts one 16-byte block with an expanded key.
fn encrypt_block_aes128(expanded_key: &[[u8; 4]; 44], bytes: &[u8; 16]) -> (result: [u8; 16])
    ensures
        result@ == enc_block(words_of(*expanded_key), bytes@),
{
    let ghost w = words_of(*expanded_key);
    let mut state = load_state(bytes);
    add_round_key(&mut state, &clone_into_array(expanded_key, 0));
    let ghost g0 = grid(state);
    assert(g0 == ark_grid(load_grid(bytes@), round_key(w, 0)));
    for i in 1..10
        invariant
            grid(state) == enc_rounds(g0, w, (i - 1) as nat),
            w == words_of(*expanded_key),
    {
        substitute_bytes(&mut state);
        shift_rows(&mut state);
        mix_columns(&mut state, true);
        add_round_key(&mut state, &clone_into_array(expanded_key, i));
    }
    substitute_bytes(&mut state);
    shift_rows(&mut state);
    add_round_key(&mut state, &clone_into_array(expanded_key, 10));
    store_state(&state)
}

/// Decrypts one 16-byte block with an expanded key.
fn decrypt_block_aes128(expanded_key: &[[u8; 4]; 44], bytes: &[u8; 16]) -> (result: [u8; 16])
    ensures
        result@ == dec_block(words_of(*expanded_key), bytes@),
{
    let ghost w = words_of(*expanded_key);
    let mut state = load_state(bytes);
    add_round_key(&mut state, &clone_into_array(expanded_key, 10));
    inverse_shift_rows(&mut state);
    inverse_substitute_bytes(&mut state);
    let ghost g0 = grid(state);
    let mut i: usize = 9;
    while i >= 1
        invariant
            i <= 9,
            dec_rounds(grid(state), w, i as nat) == dec_rounds(g0, w, 9),
            w == words_of(*expanded_key),
        decreases i,
    {
        add_round_key(&mut state, &clone_into_array(expanded_key, i));
        mix_columns(&mut state, false);
        inverse_shift_rows(&mut state);
        inverse_substitute_bytes(&mut state);
        i -= 1;
    }
    add_round_key(&mut state, &clone_into_array(expanded_key, 0));
    store_state(&state)
}

/// Copies block `b` of a message.
fn block_at(bytes: &[u8], b: usize) -> (block: [u8; 16])
    requires
        16 * b + 16 <= bytes.len(),
    ensures
        block@ == block_of(bytes@, b as int),
{
    let mut block = [0u8; 16];
    for j in 0..16
        invariant
            16 * b + 16 <= bytes.len(),
            forall|k: int| 0 <= k < j ==> block[k] == bytes@[16 * b + k],
    {
        block[j] = bytes[16 * b + j];
    }
    assert(block@ =~= block_of(bytes@, b as int));
    block
}

/// Encrypts a message of whole 16-byte blocks with AES-128, block by block.
pub fn encrypt_aes128(key_bytes: &[u8; 16], bytes: &[u8]) -> (result: Vec<u8>)
    requires
        bytes.len() % 16 == 0,
    ensures
        result@ == enc_message(key_bytes@, bytes@),
{
    let expanded_key = key_schedule_aes128(key_bytes);
    let ghost w = key_words(key_bytes@);
    let mut result: Vec<u8> = Vec::new();
    let blocks = bytes.len() / 16;
    for i in 0..blocks
        invariant
            blocks * 16 == bytes.len(),
            words_of(expanded_key) == w,
            w == key_words(key_bytes@),
            result@ =~= enc_message(key_bytes@, bytes@).take(16 * i),
    {
        let block = block_at(bytes, i);
        let block = encrypt_block_aes128(&expanded_key, &block);
        for j in 0..16
            invariant
                blocks * 16 == bytes.len(),
                i < blocks,
                block@ == enc_block(w, block_of(bytes@, i as int)),
                w == key_words(key_bytes@),
                result@ =~= enc_message(key_bytes@, bytes@).take(16 * i + j),
        {
            proof {
                assert((16 * i + j) / 16 == i);
                assert((16 * i + j) % 16 == j);
            }
            result.push(block[j]);
            assert(result@ =~= enc_message(key_bytes@, bytes@).take(16 * i + j + 1));
        }
    }
    assert(enc_message(key_bytes@, bytes@).take(16 * blocks) =~= enc_message(key_bytes@, bytes@));
    result
}

/// Decrypts a message with AES-128, block by block; bytes past the last whole block come
/// out as zero.
pub fn decrypt_aes128(key_bytes: &[u8; 16], bytes: &[u8]) -> (result: Vec<u8>)
    requires
        bytes.len() % 4 == 0,
    ensures
        result@ == dec_message(key_bytes@, bytes@),
{
    let expanded_key = key_schedule_aes128(key_bytes);
    let ghost w = key_words(key_bytes@);
    let mut result: Vec<u8> = Vec::new();
    let blocks = bytes.len() / 16;
    for i in 0..blocks
        invariant
            blocks == bytes.len() / 16,
            words_of(expanded_key) == w,
            w == key_words(key_bytes@),
            result@ =~= dec_message(key_bytes@, bytes@).take(16 * i),
    {
        let block = block_at(bytes, i);
        let block = decrypt_block_aes128(&expanded_key, &block);
        for j in 0..16
            invariant
                blocks == bytes.len() / 16,
                i < blocks,
                block@ == dec_block(w, block_of(bytes@, i as int)),
                w == key_words(key_bytes@),
                result@ =~= dec_message(key_bytes@, bytes@).take(16 * i + j),
        {
            proof {
                assert((16 * i + j) / 16 == i);
                assert((16 * i + j) % 16 == j);
            }
            result.push(block[j]);
            assert(result@ =~= dec_message(key_bytes@, bytes@).take(16 * i + j + 1));
        }
    }
    let mut k = 16 * blocks;
    while k < bytes.len()
        invariant
            16 * blocks <= k <= bytes.len(),
            blocks == bytes.len() / 16,
            result@ =~= dec_message(key_bytes@, bytes@).take(k as int),
        decreases bytes.len() - k,
    {
        result.push(0u8);
        assert(result@ =~= dec_message(key_bytes@, bytes@).take(k + 1));
        k += 1;
    }
    assert(dec_message(key_bytes@, bytes@).take(bytes.len() as int) =~= dec_message(
        key_bytes@,
        bytes@,
    ));
    result
}

} // verus!
