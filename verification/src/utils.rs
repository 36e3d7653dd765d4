//! Errors, the key file, and the questions that the program asks its user.

use vstd::prelude::*;

use crate::crypt::dh::{gen_key_pair, KeyPair};
use crate::text::{
    chars_of, decimal_digits, lemma_decimal_round_trip, lemma_digits_hold_no_line_feed,
    lemma_lines_split, line_bounds, lines, parse_decimal, parsed_number, push_decimal, text_of,
    trim_bounds, trimmed,
};

verus! {

/// Why an operation of the session failed.
#[derive(Debug, Clone, Copy, PartialEq, Eq, Structural)]
pub enum AppError {
    /// The transport or a file failed.
    Io,
    /// A piece of text that should be a decimal integer is not one.
    Parse,
    /// The peer left out a handshake line or sent a frame that cannot be read.
    Protocol,
}

/// Reads a line of text as a decimal integer of 64 bits.
pub fn parse_u64(text: &str) -> (value: Result<u64, AppError>)
    ensures
        match parsed_number(text@, u64::MAX as nat) {
            Some(v) => value == Ok::<u64, AppError>(v as u64),
            None => value == Err::<u64, AppError>(AppError::Parse),
        },
{
    let chars = chars_of(text);
    assert(chars@.subrange(0, chars@.len() as int) =~= chars@);
    let (start, end) = trim_bounds(&chars, 0, chars.len());
    match parse_decimal(&chars, start, end, u64::MAX) {
        Some(v) => Ok(v),
        None => Err(AppError::Parse),
    }
}

/// The content of a key file: the private exponent, the public value, the
/// modulus and the generator, one decimal numeral per line.
pub open spec fn key_file_text(key: KeyPair) -> Seq<char> {
    decimal_digits(key.private as nat) + seq!['\n'] + decimal_digits(key.public as nat) + seq![
        '\n',
    ] + decimal_digits(key.modulus as nat) + seq!['\n'] + decimal_digits(key.gen as nat)
}

/// Writes a key pair as the content of a key file.
pub fn format_key(key: &KeyPair) -> (text: String)
    ensures
        text@ == key_file_text(*key),
{
    let mut text = String::new();
    push_decimal(&mut text, key.private);
    text.push('\n');
    push_decimal(&mut text, key.public);
    text.push('\n');
    push_decimal(&mut text, key.modulus);
    text.push('\n');
    push_decimal(&mut text, key.gen);
    assert(text@ =~= key_file_text(*key));
    text
}

/// The key pair that the content of a key file holds. The first four lines
/// count; each must hold a decimal integer of 64 bits.
pub open spec fn parsed_key(text: Seq<char>) -> Result<KeyPair, AppError> {
    let rows = lines(text);
    if rows.len() < 4 {
        Err(AppError::Parse)
    } else {
        match (
            parsed_number(rows[0], u64::MAX as nat),
            parsed_number(rows[1], u64::MAX as nat),
            parsed_number(rows[2], u64::MAX as nat),
            parsed_number(rows[3], u64::MAX as nat),
        ) {
            (Some(private), Some(public), Some(modulus), Some(gen)) => Ok(
                KeyPair {
                    private: private as u64,
                    public: public as u64,
                    modulus: modulus as u64,
                    gen: gen as u64,
                },
            ),
            _ => Err(AppError::Parse),
        }
    }
}

/// Reads the number on one line of a text.
fn parse_row(chars: &Vec<char>, row: (usize, usize)) -> (value: Option<u64>)
    requires
        row.0 <= row.1 <= chars@.len(),
    ensures
        match parsed_number(chars@.subrange(row.0 as int, row.1 as int), u64::MAX as nat) {
            Some(v) => value == Some(v as u64),
            None => value is None,
        },
{
    let (start, end) = trim_bounds(chars, row.0, row.1);
    parse_decimal(chars, start, end, u64::MAX)
}

/// Reads a key pair from the content of a key file.
pub fn parse_key(content: &str) -> (key: Result<KeyPair, AppError>)
    ensures
        key == parsed_key(content@),
{
    let chars = chars_of(content);
    let rows = line_bounds(&chars);
    if rows.len() < 4 {
        return Err(AppError::Parse);
    }
    let private = parse_row(&chars, rows[0]);
    let public = parse_row(&chars, rows[1]);
    let modulus = parse_row(&chars, rows[2]);
    let gen = parse_row(&chars, rows[3]);
    match (private, public, modulus, gen) {
        (Some(private), Some(public), Some(modulus), Some(gen)) => Ok(
            KeyPair { private, public, modulus, gen },
        ),
        _ => Err(AppError::Parse),
    }
}

/// The role that the program takes.
#[derive(Debug, Clone, Copy, PartialEq, Eq, Structural)]
pub enum Mode {
    /// It connects to a peer.
    Client,
    /// It waits for peers to connect.
    Server,
}

/// The role that an answer names: `c` the connecting one, `s` the accepting
/// one, anything else none.
pub open spec fn mode_of(answer: Seq<char>) -> Option<Mode> {
    if answer == seq!['c'] {
        Some(Mode::Client)
    } else if answer == seq!['s'] {
        Some(Mode::Server)
    } else {
        None
    }
}

/// Reads the role that the user chose.
pub fn parse_mode(answer: &str) -> (mode: Option<Mode>)
    ensures
        mode == mode_of(answer@),
{
    let chars = chars_of(answer);
    if chars.len() == 1 && chars[0] == 'c' {
        assert(answer@ =~= seq!['c']);
        Some(Mode::Client)
    } else if chars.len() == 1 && chars[0] == 's' {
        assert(answer@ =~= seq!['s']);
        Some(Mode::Server)
    } else {
        assert(answer@ != seq!['c'] && answer@ != seq!['s']) by {
            if answer@ == seq!['c'] || answer@ == seq!['s'] {
                assert(answer@.len() == 1);
                assert(seq!['c'][0] == 'c' && seq!['s'][0] == 's');
            }
        }
        None
    }
}

/// The answer to a question that takes yes or no.
#[derive(Debug, Clone, Copy, PartialEq, Eq, Structural)]
pub enum Confirmation {
    Yes,
    No,
    Unclear,
}

/// `c` is the letter given in its two cases.
pub open spec fn is_letter(c: char, lower: char, upper: char) -> bool {
    c == lower || c == upper
}

/// What an answer says: `y` and `yes` accept, `n` and `no` decline, in
/// capitals or not, and everything else is unclear.
pub open spec fn confirmation_of(answer: Seq<char>) -> Confirmation {
    if answer.len() == 1 && is_letter(answer[0], 'y', 'Y') {
        Confirmation::Yes
    } else if answer.len() == 3 && is_letter(answer[0], 'y', 'Y') && is_letter(answer[1], 'e', 'E')
        && is_letter(answer[2], 's', 'S') {
        Confirmation::Yes
    } else if answer.len() == 1 && is_letter(answer[0], 'n', 'N') {
        Confirmation::No
    } else if answer.len() == 2 && is_letter(answer[0], 'n', 'N') && is_letter(
        answer[1],
        'o',
        'O',
    ) {
        Confirmation::No
    } else {
        Confirmation::Unclear
    }
}

/// Reads the answer to a question that takes yes or no.
pub fn parse_confirmation(answer: &str) -> (said: Confirmation)
    ensures
        said == confirmation_of(answer@),
{
    let chars = chars_of(answer);
    let len = chars.len();
    if len == 1 && (chars[0] == 'y' || chars[0] == 'Y') {
        Confirmation::Yes
    } else if len == 3 && (chars[0] == 'y' || chars[0] == 'Y') && (chars[1] == 'e' || chars[1]
        == 'E') && (chars[2] == 's' || chars[2] == 'S') {
        Confirmation::Yes
    } else if len == 1 && (chars[0] == 'n' || chars[0] == 'N') {
        Confirmation::No
    } else if len == 2 && (chars[0] == 'n' || chars[0] == 'N') && (chars[1] == 'o' || chars[1]
        == 'O') {
        Confirmation::No
    } else {
        Confirmation::Unclear
    }
}

/// The modulus of a new key where the user names none.
pub const DEFAULT_MODULUS: u64 = 2315981;

/// The generator of a new key where the user names none.
pub const DEFAULT_GENERATOR: u64 = 772197;

/// The parameter that the user chose: the default where the answer is
/// empty, else the number in the answer.
pub open spec fn chosen_parameter(answer: Seq<char>, default: u64) -> Result<u64, AppError> {
    if answer.len() == 0 {
        Ok(default)
    } else {
        match parsed_number(answer, u64::MAX as nat) {
            Some(v) => Ok(v as u64),
            None => Err(AppError::Parse),
        }
    }
}

/// Reads a parameter of a new key from the user's answer.
pub fn parameter_or_default(answer: &str, default: u64) -> (value: Result<u64, AppError>)
    ensures
        value == chosen_parameter(answer@, default),
{
    if answer.is_empty() {
        Ok(default)
    } else {
        parse_u64(answer)
    }
}

/// Where the setup of the accepting side's key stands.
#[derive(Debug, Clone, Copy, PartialEq, Eq, Structural)]
pub enum KeySetup {
    /// The key file is being read.
    Loading,
    /// There is no key file; the user is asked whether to make a key.
    Confirming,
    /// The user is asked for a modulus.
    AskingModulus,
    /// The user is asked for a generator.
    AskingGenerator { modulus: u64 },
    /// The key is there.
    Ready,
    /// The user declined to make a key.
    Declined,
    /// The setup was given up.
    Failed,
}

/// What happened to the setup.
#[derive(Debug, PartialEq, Eq)]
pub enum KeySetupEvent {
    /// The key file holds this key.
    Loaded(KeyPair),
    /// The key file could not be read, or does not hold a key.
    LoadFailed(AppError),
    /// The user answered.
    Answer(String),
}

/// What the setup asks of its driver next.
#[derive(Debug, Clone, Copy, PartialEq, Eq, Structural)]
pub enum KeySetupAction {
    /// Read the key file.
    Load,
    /// Ask the user whether to make a key.
    AskConfirm,
    /// Tell the user that the answer is unclear, and ask again.
    RejectAnswer,
    /// Ask the user for a modulus.
    AskModulus,
    /// Ask the user for a generator.
    AskGenerator,
    /// Go on with the key that was read.
    Use(KeyPair),
    /// Write the new key to the key file and go on with it.
    SaveAndUse(KeyPair),
    /// End the program; nothing went wrong.
    Exit,
    /// End the program with a failure.
    Abort,
}

/// The state that follows `state` on `event`. A key file that is there is
/// used; one that cannot be read leads to the questions for a new key; one
/// that is malformed, a parameter that is no number and a modulus of zero
/// end the setup.
pub open spec fn key_setup_next(state: KeySetup, event: KeySetupEvent) -> KeySetup {
    match (state, event) {
        (KeySetup::Loading, KeySetupEvent::Loaded(_)) => KeySetup::Ready,
        (KeySetup::Loading, KeySetupEvent::LoadFailed(AppError::Io)) => KeySetup::Confirming,
        (KeySetup::Confirming, KeySetupEvent::Answer(text)) => match confirmation_of(text@) {
            Confirmation::Yes => KeySetup::AskingModulus,
            Confirmation::No => KeySetup::Declined,
            Confirmation::Unclear => KeySetup::Confirming,
        },
        (KeySetup::AskingModulus, KeySetupEvent::Answer(text)) => match chosen_parameter(
            text@,
            DEFAULT_MODULUS,
        ) {
            Ok(modulus) => KeySetup::AskingGenerator { modulus },
            Err(_) => KeySetup::Failed,
        },
        (KeySetup::AskingGenerator { modulus }, KeySetupEvent::Answer(text)) => {
            if modulus > 0 && chosen_parameter(text@, DEFAULT_GENERATOR) is Ok {
                KeySetup::Ready
            } else {
                KeySetup::Failed
            }
        },
        _ => KeySetup::Failed,
    }
}

/// The state in which the setup starts, and what it asks first: to read
/// the key file.
pub fn key_setup_begin() -> (start: (KeySetup, KeySetupAction))
    ensures
        start == (KeySetup::Loading, KeySetupAction::Load),
{
    (KeySetup::Loading, KeySetupAction::Load)
}

/// One step of the setup of the accepting side's key. Where the user has
/// given both parameters, it draws the key.
pub fn key_setup_step(state: KeySetup, event: &KeySetupEvent) -> (next: (KeySetup, KeySetupAction))
    ensures
        next.0 == key_setup_next(state, *event),
        match next.0 {
            KeySetup::Loading => false,
            KeySetup::Confirming => if state == KeySetup::Loading {
                next.1 == KeySetupAction::AskConfirm
            } else {
                next.1 == KeySetupAction::RejectAnswer
            },
            KeySetup::AskingModulus => next.1 == KeySetupAction::AskModulus,
            KeySetup::AskingGenerator { .. } => next.1 == KeySetupAction::AskGenerator,
            KeySetup::Ready => match (state, *event) {
                (KeySetup::Loading, KeySetupEvent::Loaded(key)) => next.1 == KeySetupAction::Use(
                    key,
                ),
                (KeySetup::AskingGenerator { modulus }, KeySetupEvent::Answer(text)) => next.1
                    matches KeySetupAction::SaveAndUse(key) && key.wf() && key.modulus == modulus
                    && Ok::<u64, AppError>(key.gen) == chosen_parameter(text@, DEFAULT_GENERATOR),
                _ => false,
            },
            KeySetup::Declined => next.1 == KeySetupAction::Exit,
            KeySetup::Failed => next.1 == KeySetupAction::Abort,
        },
{
    match (state, event) {
        (KeySetup::Loading, KeySetupEvent::Loaded(key)) => (
            KeySetup::Ready,
            KeySetupAction::Use(*key),
        ),
        (KeySetup::Loading, KeySetupEvent::LoadFailed(AppError::Io)) => (
            KeySetup::Confirming,
            KeySetupAction::AskConfirm,
        ),
        (KeySetup::Confirming, KeySetupEvent::Answer(text)) => match parse_confirmation(
            text.as_str(),
        ) {
            Confirmation::Yes => (KeySetup::AskingModulus, KeySetupAction::AskModulus),
            Confirmation::No => (KeySetup::Declined, KeySetupAction::Exit),
            Confirmation::Unclear => (KeySetup::Confirming, KeySetupAction::RejectAnswer),
        },
        (KeySetup::AskingModulus, KeySetupEvent::Answer(text)) => match parameter_or_default(
            text.as_str(),
            DEFAULT_MODULUS,
        ) {
            Ok(modulus) => (KeySetup::AskingGenerator { modulus }, KeySetupAction::AskGenerator),
            Err(_) => (KeySetup::Failed, KeySetupAction::Abort),
        },
        (KeySetup::AskingGenerator { modulus }, KeySetupEvent::Answer(text)) => {
            match parameter_or_default(text.as_str(), DEFAULT_GENERATOR) {
                Ok(generator) => if modulus > 0 {
                    (KeySetup::Ready, KeySetupAction::SaveAndUse(gen_key_pair(modulus, generator)))
                } else {
                    (KeySetup::Failed, KeySetupAction::Abort)
                },
                Err(_) => (KeySetup::Failed, KeySetupAction::Abort),
            }
        },
        _ => (KeySetup::Failed, KeySetupAction::Abort),
    }
}

/// The one source of input lines of the program. A line that was read but
/// whose reader went away is held for the next reader.
pub struct InputBroker {
    /// The line that waits for a reader.
    pub held: Option<String>,
}

/// What the broker asks of its driver when a reader wants a line.
#[derive(Debug, PartialEq, Eq)]
pub enum BrokerAction {
    /// Read a line of input and hand it in.
    ReadLine,
    /// Hand this line to the reader.
    Deliver(String),
}

impl InputBroker {
    /// A broker that holds no line.
    pub fn new() -> (broker: Self)
        ensures
            broker.held is None,
    {
        InputBroker { held: None }
    }

    /// A reader asks for a line: it gets the line that is held, or a new
    /// one has to be read.
    pub fn on_request(&self) -> (action: BrokerAction)
        ensures
            match self.held {
                Some(line) => action matches BrokerAction::Deliver(text) && text@ == line@,
                None => action is ReadLine,
            },
    {
        match &self.held {
            Some(line) => BrokerAction::Deliver(line.clone()),
            None => BrokerAction::ReadLine,
        }
    }

    /// A line was read: the broker holds it, without the white space at its
    /// ends, and hands it out.
    pub fn on_line(&mut self, raw: &str) -> (line: String)
        ensures
            line@ == trimmed(raw@),
            final(self).held matches Some(kept) && kept@ == trimmed(raw@),
    {
        let chars = chars_of(raw);
        assert(chars@.subrange(0, chars@.len() as int) =~= chars@);
        let (start, end) = trim_bounds(&chars, 0, chars.len());
        let line = text_of(&chars, start, end);
        self.held = Some(line.clone());
        line
    }

    /// The reader took the line, or was gone: a line that was taken is held
    /// no longer.
    pub fn on_delivery(&mut self, taken: bool)
        ensures
            taken ==> final(self).held is None,
            !taken ==> final(self).held == old(self).held,
    {
        if taken {
            self.held = None;
        }
    }
}

/// A key file that was written reads back as the key that was written.
pub proof fn lemma_key_file_round_trip(key: KeyPair)
    ensures
        parsed_key(key_file_text(key)) == Ok::<KeyPair, AppError>(key),
{
    let a = decimal_digits(key.private as nat);
    let b = decimal_digits(key.public as nat);
    let c = decimal_digits(key.modulus as nat);
    let d = decimal_digits(key.gen as nat);
    let feed = seq!['\n'];
    lemma_digits_hold_no_line_feed(key.private as nat);
    lemma_digits_hold_no_line_feed(key.public as nat);
    lemma_digits_hold_no_line_feed(key.modulus as nat);
    lemma_digits_hold_no_line_feed(key.gen as nat);
    lemma_lines_split(d, Seq::empty());
    lemma_lines_split(c, d);
    lemma_lines_split(b, c + feed + d);
    lemma_lines_split(a, b + feed + (c + feed + d));
    assert(key_file_text(key) =~= a + feed + (b + feed + (c + feed + d)));
    assert(b + feed + c + feed + d =~= b + feed + (c + feed + d));
    let rows = lines(key_file_text(key));
    assert(rows =~= seq![a, b, c, d]);
    lemma_decimal_round_trip(key.private as nat, u64::MAX as nat);
    lemma_decimal_round_trip(key.public as nat, u64::MAX as nat);
    lemma_decimal_round_trip(key.modulus as nat, u64::MAX as nat);
    lemma_decimal_round_trip(key.gen as nat, u64::MAX as nat);
}

} // verus!
