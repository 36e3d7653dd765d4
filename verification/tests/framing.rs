use dh_chat::crypt::encrypt;
use dh_chat::net::framing::{decode_length, encode_length, frame_message};
use dh_chat::utils::AppError;

#[test]
fn length_round_trip_up_to_2000() {
    for len in 0..=2000usize {
        let prefix = encode_length(len);
        assert_eq!(decode_length(&prefix), Ok((len as u64, prefix.len())));
    }
}

#[test]
fn length_boundary_cases() {
    assert_eq!(encode_length(254), vec![254]);
    assert_eq!(encode_length(255), vec![255, 0]);
    assert_eq!(encode_length(510), vec![255, 255, 0]);
}

#[test]
fn length_prefix_exact_values() {
    assert_eq!(encode_length(0), vec![0]);
    assert_eq!(encode_length(1), vec![1]);
    assert_eq!(encode_length(256), vec![255, 1]);
    assert_eq!(encode_length(509), vec![255, 254]);
    assert_eq!(encode_length(2000), vec![255, 255, 255, 255, 255, 255, 255, 215]);
    assert_eq!(encode_length(100_000).len(), 100_000 / 255 + 1);
}

#[test]
fn decode_length_stops_at_the_closing_byte() {
    assert_eq!(decode_length(&[0]), Ok((0, 1)));
    assert_eq!(decode_length(&[7, 255, 255]), Ok((7, 1)));
    assert_eq!(decode_length(&[255, 0, 9, 9]), Ok((255, 2)));
    assert_eq!(decode_length(&[255, 255, 3, 1, 2, 3]), Ok((513, 3)));
}

#[test]
fn decode_length_fails_inside_a_prefix() {
    assert_eq!(decode_length(&[]), Err(AppError::Protocol));
    assert_eq!(decode_length(&[255]), Err(AppError::Protocol));
    assert_eq!(decode_length(&[255, 255, 255]), Err(AppError::Protocol));
}

#[test]
fn decode_length_ignores_what_follows() {
    for len in [0usize, 1, 254, 255, 256, 1000] {
        let mut bytes = encode_length(len);
        let taken = bytes.len();
        bytes.extend_from_slice(&[255, 255, 1, 2, 3]);
        assert_eq!(decode_length(&bytes), Ok((len as u64, taken)));
    }
}

#[test]
fn frame_is_prefix_then_ciphertext() {
    let key = [3u8, 1, 4, 1, 5];
    let text = "hello";
    let frame = frame_message(&key, text);
    let mut expected = vec![5u8];
    expected.extend(encrypt(&key, text));
    assert_eq!(frame, expected);
    assert_eq!(frame_message(&key, ""), vec![0]);
}

#[test]
fn frame_of_a_long_message_uses_continuation_bytes() {
    let key = [42u8];
    let text = "x".repeat(600);
    let frame = frame_message(&key, &text);
    assert_eq!(&frame[..3], &[255, 255, 90]);
    assert_eq!(frame.len(), 3 + 600);
    assert_eq!(&frame[3..], &encrypt(&key, &text)[..]);
}

#[test]
fn frame_counts_bytes_not_characters() {
    let key = [0u8];
    let frame = frame_message(&key, "\u{e9}");
    assert_eq!(frame, vec![2, 0xc3, 0xa9]);
}
