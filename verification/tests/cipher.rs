use dh_chat::crypt::{decrypt, encrypt};

#[test]
fn enc_dec_test() {
    let key = vec![109, 231, 78, 32, 41, 22, 170, 10];
    let msg = "Hi this is a random message to be encrypted!";
    let cipher = encrypt(&key, msg);
    assert_eq!(msg, &decrypt(&key, &cipher)[..]);
}

#[test]
fn encrypt_xors_each_byte_with_the_repeating_key() {
    let key = [1u8, 2, 3];
    let cipher = encrypt(&key, "AAAAA");
    assert_eq!(cipher, vec![0x41 ^ 1, 0x41 ^ 2, 0x41 ^ 3, 0x41 ^ 1, 0x41 ^ 2]);
}

#[test]
fn encrypt_of_empty_text_is_empty() {
    assert_eq!(encrypt(&[7u8], ""), Vec::<u8>::new());
    assert_eq!(decrypt(&[7u8], &[]), String::new());
}

#[test]
fn decrypt_reads_each_byte_as_one_character() {
    let key = [0u8];
    let text = decrypt(&key, &[0x48, 0x69, 0xe9]);
    assert_eq!(text, "Hi\u{e9}");
}

#[test]
fn round_trip_holds_for_ascii_under_several_keys() {
    let keys: Vec<Vec<u8>> = vec![vec![0], vec![255], vec![1, 2, 3, 4, 5, 6, 7], vec![200, 100]];
    let texts = ["", "a", "hello world", "0123456789 ~!@#$%^&*()_+", "\t tabs \n lines \r"];
    for key in &keys {
        for text in &texts {
            assert_eq!(decrypt(key, &encrypt(key, text)), *text);
        }
    }
}

#[test]
fn multi_byte_text_does_not_round_trip() {
    let key = [9u8, 8, 7];
    let text = "caf\u{e9}";
    let back = decrypt(&key, &encrypt(&key, text));
    assert_ne!(back, text);
    assert_eq!(back.chars().count(), text.len());
}
