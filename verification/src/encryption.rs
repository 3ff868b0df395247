use crate::aes128::{dec_message, decrypt_aes128, enc_message, encrypt_aes128, lemma_message_roundtrip};
use crate::text::{lemma_encode_utf8_ascii, lemma_encode_utf8_concat, push_char, string_from_utf8, trim_end, trim_end_string};
use vstd::prelude::*;
use vstd::utf8::*;

verus! {

broadcast use vstd::string::group_string_axioms;

/// A key's bytes cut or zero-filled to sixteen.
pub open spec fn padded_key(key: Seq<u8>) -> Seq<u8> {
    Seq::new(16, |i: int| if i < key.len() { key[i] } else { 0u8 })
}

/// How many spaces bring `n` bytes up to a multiple of sixteen.
pub open spec fn padding_size(n: nat) -> nat {
    if n % 16 == 0 {
        0
    } else {
        (16 - n % 16) as nat
    }
}

/// A text with spaces appended until its UTF-8 encoding fills whole 16-byte blocks.
pub open spec fn padded_text(text: Seq<char>) -> Seq<char> {
    text + Seq::new(padding_size(encode_utf8(text).len()), |i: int| ' ')
}

/// What `encrypt` returns: the padded text's UTF-8 bytes encrypted with the padded key.
pub open spec fn encrypted_text(key: Seq<char>, text: Seq<char>) -> Seq<u8> {
    enc_message(padded_key(encode_utf8(key)), encode_utf8(padded_text(text)))
}

/// The bytes that `decrypt` decodes: the data decrypted with the padded key.
pub open spec fn decrypted_bytes(key: Seq<char>, encrypted: Seq<u8>) -> Seq<u8> {
    dec_message(padded_key(encode_utf8(key)), encrypted)
}

/// The key's UTF-8 bytes, cut or zero-filled to sixteen.
pub fn pad_key(key: &String) -> (ret: [u8; 16])
    ensures
        ret@ == padded_key(encode_utf8(key@)),
{
    let bytes = key.as_str().as_bytes();
    let mut ret = [0u8; 16];
    let n = if bytes.len() >= 16 {
        16
    } else {
        bytes.len()
    };
    for i in 0..n
        invariant
            n <= 16,
            n <= bytes.len(),
            bytes@ == encode_utf8(key@),
            forall|j: int| 0 <= j < 16 ==> #[trigger] ret[j] == (if j < i {
                bytes@[j]
            } else {
                0u8
            }),
    {
        ret[i] = bytes[i];
    }
    assert(ret@ =~= padded_key(encode_utf8(key@)));
    ret
}

proof fn lemma_spaces_ascii(n: nat)
    ensures
        encode_utf8(Seq::new(n, |i: int| ' ')).len() == n,
{
    let sp = Seq::new(n, |i: int| ' ');
    assert forall|i: int| 0 <= i < sp.len() implies (#[trigger] sp[i] as u32) < 128 by {}
    lemma_encode_utf8_ascii(sp);
}

proof fn lemma_padded_len(text: Seq<char>)
    ensures
        encode_utf8(padded_text(text)).len() % 16 == 0,
{
    let n = padding_size(encode_utf8(text).len());
    lemma_encode_utf8_concat(text, Seq::new(n, |i: int| ' '));
    lemma_spaces_ascii(n);
}

/// The text with spaces appended until its UTF-8 length is a multiple of sixteen.
pub fn pad_text(text: String) -> (r: String)
    ensures
        r@ == padded_text(text@),
{
    let mut text = text;
    let len = text.as_str().as_bytes().len();
    assert(len == encode_utf8(text@).len());
    if len % 16 == 0 {
        assert(text@ =~= padded_text(text@));
        text
    } else {
        let ghost t0 = text@;
        let pad = 16 - (len % 16);
        let mut k: usize = 0;
        while k < pad
            invariant
                k <= pad,
                pad == padding_size(encode_utf8(t0).len()),
                text@ =~= t0 + Seq::new(k as nat, |i: int| ' '),
            decreases pad - k,
        {
            push_char(&mut text, ' ');
            k += 1;
            assert(text@ =~= t0 + Seq::new(k as nat, |i: int| ' '));
        }
        text
    }
}

/// Encrypts a text with AES-128 under a key: the text is padded with spaces to whole
/// blocks, the key is cut or zero-filled to sixteen bytes.
pub fn encrypt(key: &String, text: String) -> (r: Vec<u8>)
    ensures
        r@ == encrypted_text(key@, text@),
{
    let key = pad_key(key);
    let ghost original = text@;
    let text = pad_text(text);
    proof {
        lemma_padded_len(original);
    }
    let bytes = text.as_str().as_bytes();
    assert(bytes@ == encode_utf8(text@));
    encrypt_aes128(&key, bytes)
}

/// Decrypts AES-128 data under a key and drops the trailing white space of the text.
pub fn decrypt(key: &String, encrypted: Vec<u8>) -> (r: String)
    requires
        encrypted.len() % 4 == 0,
        valid_utf8(decrypted_bytes(key@, encrypted@)),
    ensures
        r@ == trim_end(decode_utf8(decrypted_bytes(key@, encrypted@))),
{
    let bytes = decrypt_aes128(&pad_key(key), encrypted.as_slice());
    let text = string_from_utf8(bytes).unwrap();
    trim_end_string(text.as_str())
}

/// Decrypts like [`decrypt`] where that can be done: `None` when the data is not made of
/// whole four-byte words or does not decrypt to UTF-8.
pub fn try_decrypt(key: &String, encrypted: Vec<u8>) -> (r: Option<String>)
    ensures
        r is Some <==> (encrypted.len() % 4 == 0 && valid_utf8(decrypted_bytes(key@, encrypted@))),
        r matches Some(t) ==> t@ == trim_end(decode_utf8(decrypted_bytes(key@, encrypted@))),
{
    if encrypted.len() % 4 != 0 {
        return None;
    }
    let bytes = decrypt_aes128(&pad_key(key), encrypted.as_slice());
    match string_from_utf8(bytes) {
        Some(text) => Some(trim_end_string(text.as_str())),
        None => None,
    }
}

proof fn lemma_trim_end_spaces(t: Seq<char>, n: nat)
    ensures
        trim_end(t + Seq::new(n, |i: int| ' ')) == trim_end(t),
    decreases n,
{
    if n == 0 {
        assert(t + Seq::new(n, |i: int| ' ') =~= t);
    } else {
        let s = t + Seq::new(n, |i: int| ' ');
        assert(s.drop_last() =~= t + Seq::new((n - 1) as nat, |i: int| ' '));
        lemma_trim_end_spaces(t, (n - 1) as nat);
    }
}

/// Decrypting what `encrypt` made under the same key gives back the text without its
/// trailing white space; `decrypt` can always be called on it.
pub proof fn lemma_encrypt_decrypt(key: Seq<char>, text: Seq<char>)
    ensures
        encrypted_text(key, text).len() % 4 == 0,
        valid_utf8(decrypted_bytes(key, encrypted_text(key, text))),
        trim_end(decode_utf8(decrypted_bytes(key, encrypted_text(key, text)))) == trim_end(text),
{
    let pk = padded_key(encode_utf8(key));
    let bytes = encode_utf8(padded_text(text));
    lemma_padded_len(text);
    lemma_message_roundtrip(pk, bytes);
    encode_utf8_valid_utf8(padded_text(text));
    encode_utf8_decode_utf8(padded_text(text));
    lemma_trim_end_spaces(text, padding_size(encode_utf8(text).len()));
}

/// The service through which the rest of the system encrypts.
pub struct EncryptionService {}

impl EncryptionService {
    /// A new service.
    pub fn new() -> (s: EncryptionService) {
        EncryptionService {  }
    }

    /// Same as [`encrypt`].
    pub fn encrypt(&self, text: String, key: &String) -> (r: Vec<u8>)
        ensures
            r@ == encrypted_text(key@, text@),
    {
        encrypt(key, text)
    }

    /// Same as [`decrypt`].
    pub fn decrypt(&self, text: Vec<u8>, key: &String) -> (r: String)
        requires
            text.len() % 4 == 0,
            valid_utf8(decrypted_bytes(key@, text@)),
        ensures
            r@ == trim_end(decode_utf8(decrypted_bytes(key@, text@))),
    {
        decrypt(key, text)
    }
}

} // verus!
