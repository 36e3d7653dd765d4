//! The symmetric cipher of a session and, in [`dh`], the key exchange that
//! produces its key.

use vstd::prelude::*;
use vstd::utf8::{encode_utf8, is_ascii_chars, is_ascii_chars_encode_utf8};

pub mod dh;

verus! {

/// Each byte of `data` combined by exclusive or with the key byte at the
/// same position, the key repeating as often as needed.
pub open spec fn xor_with_key(key: Seq<u8>, data: Seq<u8>) -> Seq<u8> {
    Seq::new(data.len(), |i: int| data[i] ^ key[i % (key.len() as int)])
}

/// The ciphertext of a text: its UTF-8 bytes under the key.
pub open spec fn encrypted(key: Seq<u8>, text: Seq<char>) -> Seq<u8> {
    xor_with_key(key, encode_utf8(text))
}

/// The text of a ciphertext: each byte under the key, read as the character
/// with that code.
pub open spec fn decrypted(key: Seq<u8>, cipher: Seq<u8>) -> Seq<char> {
    Seq::new(cipher.len(), |i: int| (cipher[i] ^ key[i % (key.len() as int)]) as char)
}

/// Encrypts a message with a repeating key.
pub fn encrypt(key: &[u8], msg: &str) -> (cipher: Vec<u8>)
    requires
        key@.len() > 0,
    ensures
        cipher@ == encrypted(key@, msg@),
{
    let plain = msg.as_bytes();
    let key_len = key.len();
    let mut cipher: Vec<u8> = Vec::new();
    let mut i: usize = 0;
    while i < plain.len()
        invariant
            key_len == key@.len(),
            key_len > 0,
            plain@ == encode_utf8(msg@),
            0 <= i <= plain@.len(),
            cipher@.len() == i,
            forall|k: int| 0 <= k < i ==> cipher@[k] == plain@[k] ^ key@[k % (key_len as int)],
        decreases plain@.len() - i,
    {
        cipher.push(plain[i] ^ key[i % key_len]);
        i = i + 1;
    }
    assert(cipher@ =~= encrypted(key@, msg@));
    cipher
}

/// Decrypts a ciphertext with a repeating key; each byte of the result
/// becomes one character.
pub fn decrypt(key: &[u8], cipher: &[u8]) -> (msg: String)
    requires
        key@.len() > 0,
    ensures
        msg@ == decrypted(key@, cipher@),
{
    let key_len = key.len();
    let mut msg = String::new();
    let mut i: usize = 0;
    while i < cipher.len()
        invariant
            key_len == key@.len(),
            key_len > 0,
            0 <= i <= cipher@.len(),
            msg@.len() == i,
            forall|k: int|
                0 <= k < i ==> msg@[k] == (cipher@[k] ^ key@[k % (key_len as int)]) as char,
        decreases cipher@.len() - i,
    {
        msg.push((cipher[i] ^ key[i % key_len]) as char);
        i = i + 1;
    }
    assert(msg@ =~= decrypted(key@, cipher@));
    msg
}

/// Decrypting what was encrypted under the same key gives the text back,
/// for every text made of characters that take one byte each.
pub proof fn lemma_cipher_round_trip(key: Seq<u8>, text: Seq<char>)
    requires
        key.len() > 0,
        is_ascii_chars(text),
    ensures
        decrypted(key, encrypted(key, text)) == text,
{
    is_ascii_chars_encode_utf8(text);
    let plain = encode_utf8(text);
    let cipher = encrypted(key, text);
    assert forall|i: int| 0 <= i < text.len() implies decrypted(key, cipher)[i] == text[i] by {
        let k = key[i % (key.len() as int)];
        let b = plain[i];
        assert((b ^ k) ^ k == b) by (bit_vector);
        assert(text[i] as u8 == b);
    }
    assert(decrypted(key, cipher) =~= text);
}

} // verus!
