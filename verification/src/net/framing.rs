//! The frame format: a length prefix of continuation bytes, then the
//! ciphertext.

use vstd::prelude::*;

use crate::crypt::{encrypt, encrypted};
use crate::utils::AppError;

verus! {

/// The length prefix of a frame: one byte 255 for every full 255 in `len`,
/// then the remainder as the closing byte.
pub open spec fn length_prefix(len: nat) -> Seq<u8>
    decreases len,
{
    if len >= 255 {
        seq![255u8] + length_prefix((len - 255) as nat)
    } else {
        seq![len as u8]
    }
}

/// What a reader finds at the head of `bytes`: the length that the prefix
/// there stands for and the number of bytes that the prefix takes, or
/// nothing where the bytes end before a closing byte.
pub open spec fn decoded_length(bytes: Seq<u8>) -> Option<(nat, nat)>
    decreases bytes.len(),
{
    if bytes.len() == 0 {
        None
    } else if bytes[0] != 255 {
        Some((bytes[0] as nat, 1))
    } else {
        match decoded_length(bytes.skip(1)) {
            Some((len, taken)) => Some((len + 255, taken + 1)),
            None => None,
        }
    }
}

/// Decoding undoes encoding: a reader of an encoded length, whatever
/// follows it, finds that length and stops at the end of the prefix.
pub proof fn lemma_length_round_trip(len: nat, rest: Seq<u8>)
    ensures
        decoded_length(length_prefix(len) + rest) == Some((len, length_prefix(len).len())),
    decreases len,
{
    let all = length_prefix(len) + rest;
    if len >= 255 {
        let tail = length_prefix((len - 255) as nat);
        lemma_length_round_trip((len - 255) as nat, rest);
        assert(all.skip(1) =~= tail + rest);
        assert(all[0] == 255u8);
    } else {
        assert(all[0] == len as u8);
    }
}

/// Encodes the length of a block of ciphertext.
pub fn encode_length(len: usize) -> (prefix: Vec<u8>)
    ensures
        prefix@ == length_prefix(len as nat),
{
    let mut prefix: Vec<u8> = Vec::new();
    let mut left: usize = len;
    while left >= 255
        invariant
            left <= len,
            prefix@ + length_prefix(left as nat) == length_prefix(len as nat),
        decreases left,
    {
        proof {
            let next = length_prefix((left - 255) as nat);
            assert(prefix@.push(255u8) + next =~= prefix@ + (seq![255u8] + next));
        }
        left = left - 255;
        prefix.push(255u8);
    }
    proof {
        assert(prefix@.push(left as u8) =~= prefix@ + length_prefix(left as nat));
    }
    prefix.push(left as u8);
    prefix
}

/// Reads a length prefix at the head of `bytes`. Gives the length and the
/// number of bytes read; fails where the bytes end inside the prefix or the
/// length does not fit the machine.
pub fn decode_length(bytes: &[u8]) -> (outcome: Result<(u64, usize), AppError>)
    ensures
        match decoded_length(bytes@) {
            Some((len, taken)) => if len <= u64::MAX {
                outcome == Ok::<(u64, usize), AppError>((len as u64, taken as usize))
            } else {
                outcome == Err::<(u64, usize), AppError>(AppError::Protocol)
            },
            None => outcome == Err::<(u64, usize), AppError>(AppError::Protocol),
        },
{
    let mut total: u64 = 0;
    let mut i: usize = 0;
    assert(bytes@.skip(0) =~= bytes@);
    while i < bytes.len()
        invariant
            0 <= i <= bytes@.len(),
            total == 255 * i,
            forall|k: int| 0 <= k < i ==> bytes@[k] == 255u8,
            decoded_length(bytes@) == match decoded_length(bytes@.skip(i as int)) {
                Some((len, taken)) => Some((len + total as nat, taken + i as nat)),
                None => None,
            },
        decreases bytes@.len() - i,
    {
        let b = bytes[i];
        proof {
            assert(bytes@.skip(i as int)[0] == b);
            assert(bytes@.skip(i as int).skip(1) =~= bytes@.skip(i + 1));
        }
        if b != 255 {
            return match total.checked_add(b as u64) {
                Some(len) => Ok((len, i + 1)),
                None => Err(AppError::Protocol),
            };
        }
        match total.checked_add(255) {
            Some(next) => {
                total = next;
            },
            None => {
                proof {
                    lemma_decoded_length_at_least(bytes@.skip(i + 1));
                }
                return Err(AppError::Protocol);
            },
        }
        i = i + 1;
    }
    Err(AppError::Protocol)
}

/// A decoded length counts 255 for every byte of its prefix but the last.
pub proof fn lemma_decoded_length_at_least(bytes: Seq<u8>)
    ensures
        match decoded_length(bytes) {
            Some((len, taken)) => taken >= 1 && taken <= bytes.len() && len >= 255 * (taken - 1)
                && len <= 255 * (taken - 1) + 254,
            None => true,
        },
    decreases bytes.len(),
{
    if bytes.len() > 0 && bytes[0] == 255 {
        lemma_decoded_length_at_least(bytes.skip(1));
    }
}

/// A message on the wire: the length prefix of its ciphertext, then the
/// ciphertext.
pub open spec fn framed(key: Seq<u8>, text: Seq<char>) -> Seq<u8> {
    length_prefix(encrypted(key, text).len()) + encrypted(key, text)
}

/// Encrypts a message and puts the length of the ciphertext before it.
pub fn frame_message(key: &[u8], text: &str) -> (frame: Vec<u8>)
    requires
        key@.len() > 0,
    ensures
        frame@ == framed(key@, text@),
{
    let mut cipher = encrypt(key, text);
    let mut frame = encode_length(cipher.len());
    frame.append(&mut cipher);
    frame
}

} // verus!
