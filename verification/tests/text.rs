use dh_chat::crypt::dh::{mod_exp, KeyPair};
use dh_chat::text::{
    chars_of, decimal_string, is_whitespace, line_bounds, parse_decimal, push_decimal, text_of,
    trim_bounds,
};
use dh_chat::utils::{
    format_key, key_setup_begin, key_setup_step, parameter_or_default, parse_confirmation,
    parse_key, parse_mode, parse_u64, AppError, BrokerAction, Confirmation, InputBroker, KeySetup,
    KeySetupAction, KeySetupEvent, Mode, DEFAULT_GENERATOR, DEFAULT_MODULUS,
};

#[test]
fn whitespace_is_what_std_calls_whitespace() {
    for code in 0..=0x10ffffu32 {
        if let Some(c) = char::from_u32(code) {
            assert_eq!(is_whitespace(c), c.is_whitespace(), "U+{:04X}", code);
        }
    }
}

fn trim_by_bounds(text: &str) -> String {
    let chars = chars_of(text);
    let (start, end) = trim_bounds(&chars, 0, chars.len());
    text_of(&chars, start, end)
}

#[test]
fn trimming_matches_std() {
    for text in [
        "",
        " ",
        "\n\t ",
        "a",
        " a",
        "a ",
        "  a b  ",
        "\r\nkey\r\n",
        "\u{a0}x\u{3000}",
        "\u{2003}caf\u{e9} au lait\u{2028}",
        "no space",
    ] {
        assert_eq!(trim_by_bounds(text), text.trim(), "{:?}", text);
    }
}

#[test]
fn trim_bounds_of_a_part() {
    let chars: Vec<char> = "ab  cd  ef".chars().collect();
    assert_eq!(trim_bounds(&chars, 2, 8), (4, 6));
    assert_eq!(trim_bounds(&chars, 2, 4), (4, 4));
    assert_eq!(trim_bounds(&chars, 0, 10), (0, 10));
    assert_eq!(trim_bounds(&chars, 5, 5), (5, 5));
}

#[test]
fn chars_and_text_convert_both_ways() {
    let text = "h\u{e9}llo \u{1f600}";
    let chars = chars_of(text);
    assert_eq!(chars, text.chars().collect::<Vec<char>>());
    assert_eq!(text_of(&chars, 0, chars.len()), text);
    assert_eq!(text_of(&chars, 1, 3), "\u{e9}l");
    assert_eq!(text_of(&chars, 2, 2), "");
}

#[test]
fn parse_u64_matches_std() {
    for text in [
        "0",
        "1",
        "42",
        "  42  ",
        "\t7\n",
        "+7",
        "++7",
        "-7",
        "+",
        "",
        "   ",
        "007",
        "18446744073709551615",
        "18446744073709551616",
        "99999999999999999999999999",
        "1 2",
        "12a",
        "a12",
        "1.5",
        "0x10",
        "\u{a0}5\u{a0}",
        "\u{663}",
        "2315981",
    ] {
        let expected = text.trim().parse::<u64>().map_err(|_| AppError::Parse);
        assert_eq!(parse_u64(text), expected, "{:?}", text);
    }
}

#[test]
fn parse_u64_exact_values() {
    assert_eq!(parse_u64("772197\n"), Ok(772197));
    assert_eq!(parse_u64("18446744073709551615"), Ok(u64::MAX));
    assert_eq!(parse_u64("18446744073709551616"), Err(AppError::Parse));
    assert_eq!(parse_u64(""), Err(AppError::Parse));
}

#[test]
fn parse_decimal_respects_the_bound() {
    let chars: Vec<char> = "x256y".chars().collect();
    assert_eq!(parse_decimal(&chars, 1, 4, 255), None);
    assert_eq!(parse_decimal(&chars, 1, 4, 256), Some(256));
    assert_eq!(parse_decimal(&chars, 1, 3, 255), Some(25));
    assert_eq!(parse_decimal(&chars, 0, 4, 1000), None);
    assert_eq!(parse_decimal(&chars, 2, 2, 1000), None);
}

#[test]
fn decimal_string_matches_std() {
    for x in [0u64, 1, 9, 10, 11, 99, 100, 101, 12345, 2315981, u64::MAX, u64::MAX - 1, 1 << 63] {
        assert_eq!(decimal_string(x), x.to_string());
    }
    for x in 0..2000u64 {
        assert_eq!(decimal_string(x), x.to_string());
        assert_eq!(parse_u64(&decimal_string(x)), Ok(x));
    }
}

#[test]
fn push_decimal_appends() {
    let mut text = String::from("n=");
    push_decimal(&mut text, 4096);
    push_decimal(&mut text, 0);
    assert_eq!(text, "n=40960");
}

#[test]
fn line_bounds_match_std_lines() {
    for text in ["", "a", "a\n", "a\nb", "a\n\nb\n", "\n", "\n\n", "one\ntwo\nthree", "x\n y \n"] {
        let chars: Vec<char> = text.chars().collect();
        let rows: Vec<String> = line_bounds(&chars)
            .into_iter()
            .map(|(from, to)| chars[from..to].iter().collect())
            .collect();
        let expected: Vec<String> = text.lines().map(|l| l.to_string()).collect();
        assert_eq!(rows, expected, "{:?}", text);
    }
}

#[test]
fn key_file_round_trip() {
    let key = KeyPair { private: 123456, public: 654321, modulus: 2315981, gen: 772197 };
    let text = format_key(&key);
    assert_eq!(text, "123456\n654321\n2315981\n772197");
    assert_eq!(parse_key(&text), Ok(key));
    let extreme = KeyPair { private: 0, public: u64::MAX, modulus: 1, gen: 0 };
    assert_eq!(parse_key(&format_key(&extreme)), Ok(extreme));
}

#[test]
fn key_file_takes_the_first_four_lines() {
    let key = KeyPair { private: 1, public: 2, modulus: 3, gen: 4 };
    assert_eq!(parse_key("1\n2\n3\n4\n"), Ok(key));
    assert_eq!(parse_key(" 1 \r\n2\r\n\t3\r\n+4\r\n5\nnot a number\n"), Ok(key));
}

#[test]
fn key_file_errors() {
    assert_eq!(parse_key(""), Err(AppError::Parse));
    assert_eq!(parse_key("1\n2\n3"), Err(AppError::Parse));
    assert_eq!(parse_key("1\n2\n3\n"), Err(AppError::Parse));
    assert_eq!(parse_key("1\n2\n3\nfour"), Err(AppError::Parse));
    assert_eq!(parse_key("one\n2\n3\n4"), Err(AppError::Parse));
    assert_eq!(parse_key("1\n\n3\n4"), Err(AppError::Parse));
    assert_eq!(parse_key("1\n2\n18446744073709551616\n4"), Err(AppError::Parse));
    assert_eq!(parse_key("1 2 3 4"), Err(AppError::Parse));
}

#[test]
fn confirmation_matches_lowercasing() {
    let mut answers: Vec<String> =
        ["y", "Y", "yes", "YES", "Yes", "yEs", "n", "N", "no", "NO", "nO", "", "yy", "ye", "yess",
            "non", " y", "y ", "maybe", "0", "\u{212a}", "y\u{301}"]
            .iter()
            .map(|s| s.to_string())
            .collect();
    for code in 0..=0x10ffffu32 {
        if let Some(c) = char::from_u32(code) {
            answers.push(c.to_string());
        }
    }
    for answer in answers {
        let lower = answer.to_lowercase();
        let expected = if lower == "y" || lower == "yes" {
            Confirmation::Yes
        } else if lower == "n" || lower == "no" {
            Confirmation::No
        } else {
            Confirmation::Unclear
        };
        assert_eq!(parse_confirmation(&answer), expected, "{:?}", answer);
    }
}

#[test]
fn parameter_defaults() {
    assert_eq!(parameter_or_default("", 2315981), Ok(2315981));
    assert_eq!(parameter_or_default("97", 2315981), Ok(97));
    assert_eq!(parameter_or_default("ninety", 2315981), Err(AppError::Parse));
    assert_eq!(parameter_or_default(" ", 2315981), Err(AppError::Parse));
    assert_eq!(DEFAULT_MODULUS, 2315981);
    assert_eq!(DEFAULT_GENERATOR, 772197);
}

#[test]
fn key_setup_uses_the_key_that_is_there() {
    let (state, action) = key_setup_begin();
    assert_eq!((state, action), (KeySetup::Loading, KeySetupAction::Load));
    let key = KeyPair { private: 6, public: 8, modulus: 23, gen: 5 };
    let step = key_setup_step(state, &KeySetupEvent::Loaded(key));
    assert_eq!(step, (KeySetup::Ready, KeySetupAction::Use(key)));
}

#[test]
fn key_setup_makes_a_key_when_asked() {
    let (state, _) = key_setup_begin();
    let step = key_setup_step(state, &KeySetupEvent::LoadFailed(AppError::Io));
    assert_eq!(step, (KeySetup::Confirming, KeySetupAction::AskConfirm));
    let step = key_setup_step(step.0, &KeySetupEvent::Answer("what".to_string()));
    assert_eq!(step, (KeySetup::Confirming, KeySetupAction::RejectAnswer));
    let step = key_setup_step(step.0, &KeySetupEvent::Answer("Yes".to_string()));
    assert_eq!(step, (KeySetup::AskingModulus, KeySetupAction::AskModulus));
    let step = key_setup_step(step.0, &KeySetupEvent::Answer(String::new()));
    assert_eq!(
        step,
        (KeySetup::AskingGenerator { modulus: 2315981 }, KeySetupAction::AskGenerator)
    );
    let (state, action) = key_setup_step(step.0, &KeySetupEvent::Answer(String::new()));
    assert_eq!(state, KeySetup::Ready);
    match action {
        KeySetupAction::SaveAndUse(key) => {
            assert_eq!(key.modulus, 2315981);
            assert_eq!(key.gen, 772197);
            assert!(key.private < 2315981);
            assert_eq!(key.public, mod_exp(772197, key.private, 2315981));
        }
        other => panic!("unexpected action {:?}", other),
    }
}

#[test]
fn key_setup_takes_the_parameters_named() {
    let step = key_setup_step(KeySetup::AskingModulus, &KeySetupEvent::Answer("23".to_string()));
    assert_eq!(step, (KeySetup::AskingGenerator { modulus: 23 }, KeySetupAction::AskGenerator));
    let (state, action) = key_setup_step(step.0, &KeySetupEvent::Answer("5".to_string()));
    assert_eq!(state, KeySetup::Ready);
    match action {
        KeySetupAction::SaveAndUse(key) => {
            assert_eq!((key.modulus, key.gen), (23, 5));
            assert!(key.is_consistent());
        }
        other => panic!("unexpected action {:?}", other),
    }
}

#[test]
fn key_setup_ends_on_no_and_on_failures() {
    let step = key_setup_step(KeySetup::Confirming, &KeySetupEvent::Answer("n".to_string()));
    assert_eq!(step, (KeySetup::Declined, KeySetupAction::Exit));
    let step = key_setup_step(KeySetup::Loading, &KeySetupEvent::LoadFailed(AppError::Parse));
    assert_eq!(step, (KeySetup::Failed, KeySetupAction::Abort));
    let step = key_setup_step(KeySetup::AskingModulus, &KeySetupEvent::Answer("x".to_string()));
    assert_eq!(step, (KeySetup::Failed, KeySetupAction::Abort));
    let step = key_setup_step(
        KeySetup::AskingGenerator { modulus: 23 },
        &KeySetupEvent::Answer("x".to_string()),
    );
    assert_eq!(step, (KeySetup::Failed, KeySetupAction::Abort));
    let step = key_setup_step(
        KeySetup::AskingGenerator { modulus: 0 },
        &KeySetupEvent::Answer("5".to_string()),
    );
    assert_eq!(step, (KeySetup::Failed, KeySetupAction::Abort));
    let step = key_setup_step(KeySetup::Ready, &KeySetupEvent::Answer("y".to_string()));
    assert_eq!(step, (KeySetup::Failed, KeySetupAction::Abort));
    let step = key_setup_step(KeySetup::Loading, &KeySetupEvent::Answer("y".to_string()));
    assert_eq!(step, (KeySetup::Failed, KeySetupAction::Abort));
}

#[test]
fn broker_holds_a_line_until_it_is_taken() {
    let mut broker = InputBroker::new();
    assert_eq!(broker.on_request(), BrokerAction::ReadLine);
    let line = broker.on_line("  hello there \n");
    assert_eq!(line, "hello there");
    // The reader went away: the next reader gets the same line.
    broker.on_delivery(false);
    assert_eq!(broker.on_request(), BrokerAction::Deliver("hello there".to_string()));
    broker.on_delivery(true);
    assert_eq!(broker.on_request(), BrokerAction::ReadLine);
    assert_eq!(broker.on_line("\n"), "");
    assert_eq!(broker.held, Some(String::new()));
}

#[test]
fn mode_is_named_by_one_letter() {
    assert_eq!(parse_mode("c"), Some(Mode::Client));
    assert_eq!(parse_mode("s"), Some(Mode::Server));
    assert_eq!(parse_mode("C"), None);
    assert_eq!(parse_mode(""), None);
    assert_eq!(parse_mode("cs"), None);
    assert_eq!(parse_mode("server"), None);
    assert_eq!(parse_mode(" c"), None);
}
