use crate::text::string_from_utf8;
use vstd::prelude::*;
use vstd::utf8::*;

verus! {

broadcast use vstd::string::group_string_axioms;

/// Each byte of `p` xored with the byte of `k` at the same place, `k` repeated as often as
/// needed; empty when `k` is empty.
pub open spec fn xor_cycle(p: Seq<u8>, k: Seq<u8>) -> Seq<u8> {
    if k.len() == 0 {
        Seq::empty()
    } else {
        Seq::new(p.len(), |i: int| p[i] ^ k[i % k.len() as int])
    }
}

/// The byte rotated left by `s` bits (`s` below 8): the bits that leave on the left come
/// back on the right.
pub open spec fn rot_left(b: u8, s: u8) -> u8 {
    if s == 0 {
        b
    } else {
        ((b << s) | (b >> ((8 - s) as u8))) as u8
    }
}

/// The byte rotated right by `s` bits (`s` below 8).
pub open spec fn rot_right(b: u8, s: u8) -> u8 {
    if s == 0 {
        b
    } else {
        ((b >> s) | (b << ((8 - s) as u8))) as u8
    }
}

/// Each byte rotated left by `n` modulo 8.
pub open spec fn rotl_all(p: Seq<u8>, n: u8) -> Seq<u8> {
    Seq::new(p.len(), |i: int| rot_left(p[i], n % 8))
}

/// Each byte rotated right by `n` modulo 8.
pub open spec fn rotr_all(p: Seq<u8>, n: u8) -> Seq<u8> {
    Seq::new(p.len(), |i: int| rot_right(p[i], n % 8))
}

/// The byte rotated left by `n` modulo 8.
fn rotate_byte_left(b: u8, n: u8) -> (r: u8)
    ensures
        r == rot_left(b, n % 8),
{
    let s: u8 = n % 8;
    if s == 0 {
        b
    } else {
        (b << s) | (b >> (8 - s))
    }
}

/// The byte rotated right by `n` modulo 8.
fn rotate_byte_right(b: u8, n: u8) -> (r: u8)
    ensures
        r == rot_right(b, n % 8),
{
    let s: u8 = n % 8;
    if s == 0 {
        b
    } else {
        (b >> s) | (b << (8 - s))
    }
}

/// Rotating right undoes rotating left.
proof fn lemma_rot_right_left(b: u8, s: u8)
    requires
        s < 8,
    ensures
        rot_right(rot_left(b, s), s) == b,
{
    if s != 0 {
        assert(0 < s < 8 ==> rot_right(rot_left(b, s), s) == b) by (bit_vector);
    }
}

fn xor_with_key(plain: &[u8], key: &[u8]) -> (r: Vec<u8>)
    ensures
        r@ == xor_cycle(plain@, key@),
{
    let mut r: Vec<u8> = Vec::new();
    if key.len() == 0 {
        return r;
    }
    for i in 0..plain.len()
        invariant
            key.len() > 0,
            r@ =~= xor_cycle(plain@, key@).take(i as int),
    {
        r.push(plain[i] ^ key[i % key.len()]);
    }
    assert(xor_cycle(plain@, key@).take(plain.len() as int) =~= xor_cycle(plain@, key@));
    r
}

/// Xors the text's bytes with the key's bytes repeated; the result must be valid UTF-8.
pub fn encrypt_basic_af(plain_text: &str, key: &str) -> (r: String)
    requires
        valid_utf8(xor_cycle(encode_utf8(plain_text@), encode_utf8(key@))),
    ensures
        r@ == decode_utf8(xor_cycle(encode_utf8(plain_text@), encode_utf8(key@))),
{
    let bytes = xor_with_key(plain_text.as_bytes(), key.as_bytes());
    string_from_utf8(bytes).unwrap()
}

/// Xors the text's bytes with the key's bytes repeated, then rotates each byte left by
/// `random_num` (modulo 8); the result must be valid UTF-8.
pub fn encrypt_basic(plain_text: &str, key: &str, random_num: u8) -> (r: String)
    requires
        valid_utf8(rotl_all(xor_cycle(encode_utf8(plain_text@), encode_utf8(key@)), random_num)),
    ensures
        r@ == decode_utf8(rotl_all(xor_cycle(encode_utf8(plain_text@), encode_utf8(key@)), random_num)),
{
    let x = xor_with_key(plain_text.as_bytes(), key.as_bytes());
    let mut bytes: Vec<u8> = Vec::new();
    for i in 0..x.len()
        invariant
            bytes@ =~= rotl_all(x@, random_num).take(i as int),
    {
        bytes.push(rotate_byte_left(x[i], random_num));
    }
    assert(rotl_all(x@, random_num).take(x.len() as int) =~= rotl_all(x@, random_num));
    string_from_utf8(bytes).unwrap()
}

/// Rotates each byte of the text right by `random_num` (modulo 8), then xors them with the
/// key's bytes repeated: the inverse of [`encrypt_basic`]; the result must be valid UTF-8.
pub fn decrypt_basic(plain_text: &str, key: &str, random_num: u8) -> (r: String)
    requires
        valid_utf8(xor_cycle(rotr_all(encode_utf8(plain_text@), random_num), encode_utf8(key@))),
    ensures
        r@ == decode_utf8(xor_cycle(rotr_all(encode_utf8(plain_text@), random_num), encode_utf8(key@))),
{
    let p = plain_text.as_bytes();
    let mut rotated: Vec<u8> = Vec::new();
    for i in 0..p.len()
        invariant
            rotated@ =~= rotr_all(p@, random_num).take(i as int),
    {
        rotated.push(rotate_byte_right(p[i], random_num));
    }
    assert(rotr_all(p@, random_num).take(p.len() as int) =~= rotr_all(p@, random_num));
    let bytes = xor_with_key(rotated.as_slice(), key.as_bytes());
    string_from_utf8(bytes).unwrap()
}

/// Decrypting what `encrypt_basic` made, with the same non-empty key and the same number,
/// gives the text back.
pub proof fn lemma_basic_roundtrip(plain: Seq<char>, key: Seq<char>, n: u8)
    requires
        encode_utf8(key).len() > 0,
        valid_utf8(rotl_all(xor_cycle(encode_utf8(plain), encode_utf8(key)), n)),
    ensures
        ({
            let enc = decode_utf8(rotl_all(xor_cycle(encode_utf8(plain), encode_utf8(key)), n));
            &&& valid_utf8(xor_cycle(rotr_all(encode_utf8(enc), n), encode_utf8(key)))
            &&& decode_utf8(xor_cycle(rotr_all(encode_utf8(enc), n), encode_utf8(key))) == plain
        }),
{
    let x = xor_cycle(encode_utf8(plain), encode_utf8(key));
    let e = rotl_all(x, n);
    decode_utf8_encode_utf8(e);
    assert forall|i: int| 0 <= i < x.len() implies rotr_all(e, n)[i] == x[i] by {
        lemma_rot_right_left(x[i], n % 8);
    }
    assert(rotr_all(e, n) =~= x);
    lemma_xor_cycle_twice(encode_utf8(plain), encode_utf8(key));
    encode_utf8_valid_utf8(plain);
    encode_utf8_decode_utf8(plain);
}

/// Xoring twice with the same repeated key gives the bytes back.
pub proof fn lemma_xor_cycle_twice(p: Seq<u8>, k: Seq<u8>)
    requires
        k.len() > 0,
    ensures
        xor_cycle(xor_cycle(p, k), k) == p,
{
    assert forall|i: int| 0 <= i < p.len() implies xor_cycle(xor_cycle(p, k), k)[i] == p[i] by {
        let a = p[i];
        let b = k[i % k.len() as int];
        assert((a ^ b) ^ b == a) by (bit_vector);
    }
    assert(xor_cycle(xor_cycle(p, k), k) =~= p);
}

/// Applying `encrypt_basic_af` twice with the same non-empty key gives the text back.
pub proof fn lemma_encrypt_basic_af_twice(plain: Seq<char>, key: Seq<char>)
    requires
        encode_utf8(key).len() > 0,
        valid_utf8(xor_cycle(encode_utf8(plain), encode_utf8(key))),
    ensures
        ({
            let once = decode_utf8(xor_cycle(encode_utf8(plain), encode_utf8(key)));
            &&& valid_utf8(xor_cycle(encode_utf8(once), encode_utf8(key)))
            &&& decode_utf8(xor_cycle(encode_utf8(once), encode_utf8(key))) == plain
        }),
{
    let x = xor_cycle(encode_utf8(plain), encode_utf8(key));
    decode_utf8_encode_utf8(x);
    lemma_xor_cycle_twice(encode_utf8(plain), encode_utf8(key));
    encode_utf8_valid_utf8(plain);
    encode_utf8_decode_utf8(plain);
}

} // verus!
