//! The model behind the chat screen: the messages, the input line, and what
//! fits on a terminal of a given size.

use vstd::arithmetic::div_mod::{lemma_div_is_ordered_by_denominator, lemma_div_pos_is_pos};
use vstd::prelude::*;
use vstd::utf8::encode_utf8;

use crate::text::{chars_of, line_bounds, lines, text_of, trim_bounds, trimmed};

verus! {

/// One message on the screen.
#[derive(Debug, PartialEq, Eq)]
pub struct Msg {
    /// Who wrote it: 0 for the local side.
    pub from: u8,
    /// Its text.
    pub content: String,
}

impl Msg {
    /// A message of `from` with the text `content`.
    pub fn new(from: u8, content: String) -> (msg: Self)
        ensures
            msg.from == from,
            msg.content == content,
    {
        Msg { from, content }
    }

    /// The number of bytes that the text takes.
    pub open spec fn size(&self) -> nat {
        encode_utf8(self.content@).len()
    }
}

/// What a key press asks of the screen.
#[derive(Debug, Clone, Copy, PartialEq, Eq, Structural)]
pub enum UiAction {
    Nothing,
    Exit,
    NewChar(char),
    DelChar,
    Send,
    Redraw,
}

/// A key of the keyboard, as far as the screen tells keys apart.
#[derive(Debug, Clone, Copy, PartialEq, Eq, Structural)]
pub enum Key {
    Esc,
    Enter,
    Backspace,
    Char(char),
    Other,
}

/// What a key stands for.
pub open spec fn action_of(key: Key) -> UiAction {
    match key {
        Key::Esc => UiAction::Exit,
        Key::Enter => UiAction::Send,
        Key::Backspace => UiAction::DelChar,
        Key::Char(c) => UiAction::NewChar(c),
        Key::Other => UiAction::Nothing,
    }
}

/// Turns a key press into the action that it asks for.
pub fn key_handle(key: Key) -> (action: UiAction)
    ensures
        action == action_of(key),
{
    match key {
        Key::Esc => UiAction::Exit,
        Key::Enter => UiAction::Send,
        Key::Backspace => UiAction::DelChar,
        Key::Char(c) => UiAction::NewChar(c),
        Key::Other => UiAction::Nothing,
    }
}

/// The largest text, in bytes, that the screen lays out.
pub const MAX_MESSAGE_SIZE: usize = 0x7fff_fffe;

/// None of the messages is larger than the screen lays out.
pub open spec fn all_fit(messages: Seq<Msg>) -> bool {
    forall|i: int| 0 <= i < messages.len() ==> (#[trigger] messages[i]).size() <= MAX_MESSAGE_SIZE
}

/// The rows that the input line takes, as the screen counts them: the
/// number of its lines, in 16 bits.
pub open spec fn input_rows(input: Seq<char>) -> int {
    (lines(input).len() % 0x1_0000) as int
}

/// The rows that a message takes on a screen of the given width: one, and
/// one more for every full width of bytes.
pub open spec fn message_rows(msg: Msg, width: u16) -> int {
    msg.size() as int / width as int + 1
}

/// How many of the messages are shown when `budget` rows are free: counted
/// from the newest, as many as it takes to use the rows up, and one at
/// least.
pub open spec fn visible_count(messages: Seq<Msg>, budget: int, width: u16) -> nat
    decreases messages.len(),
{
    if messages.len() == 0 {
        0
    } else {
        let left = budget - message_rows(messages.last(), width);
        if left <= 0 {
            1
        } else {
            1 + visible_count(messages.drop_last(), left, width)
        }
    }
}

/// By how many rows the messages shown go beyond the `budget`; negative
/// while rows are left over.
pub open spec fn overflow_rows(messages: Seq<Msg>, budget: int, width: u16) -> int
    decreases messages.len(),
{
    if messages.len() == 0 {
        -budget
    } else {
        let left = budget - message_rows(messages.last(), width);
        if left <= 0 {
            -left
        } else {
            overflow_rows(messages.drop_last(), left, width)
        }
    }
}

/// Picks the messages that a terminal of `term_size` columns and rows shows
/// above an input line: the newest first, until the rows that the input
/// line leaves are used up. Gives with them the number of rows by which
/// they go beyond the screen.
pub fn get_visible_messages<'a>(
    term_size: (u16, u16),
    msg_inp_buf: &str,
    messages: &'a [Msg],
) -> (shown: (Vec<&'a Msg>, i32))
    requires
        term_size.0 > 0,
        input_rows(msg_inp_buf@) <= term_size.1,
        all_fit(messages@),
    ensures
        shown.0@.len() == visible_count(
            messages@,
            term_size.1 - input_rows(msg_inp_buf@),
            term_size.0,
        ),
        forall|i: int|
            0 <= i < shown.0@.len() ==> *(#[trigger] shown.0@[i]) == messages@[messages@.len() - 1
                - i],
        shown.1 == overflow_rows(
            messages@,
            term_size.1 - input_rows(msg_inp_buf@),
            term_size.0,
        ),
{
    let chars = chars_of(msg_inp_buf);
    let rows = line_bounds(&chars);
    let inp_buf_line_no: u16 = (rows.len() % 0x1_0000) as u16;
    let width = term_size.0;
    let ghost budget = term_size.1 - input_rows(msg_inp_buf@);
    let mut lines_left: i32 = (term_size.1 - inp_buf_line_no) as i32;
    let mut printable_messages: Vec<&Msg> = Vec::new();
    let mut taken: usize = 0;
    let total = messages.len();
    assert(messages@.take(total as int) =~= messages@);
    while taken < total
        invariant
            width == term_size.0,
            width > 0,
            budget == term_size.1 - input_rows(msg_inp_buf@),
            total == messages@.len(),
            0 <= taken <= total,
            printable_messages@.len() == taken,
            forall|i: int|
                0 <= i < taken ==> *(#[trigger] printable_messages@[i]) == messages@[total - 1 - i],
            all_fit(messages@),
            taken > 0 ==> 0 < lines_left,
            0 <= lines_left <= 0xffff,
            visible_count(messages@, budget, width) == taken + visible_count(
                messages@.take(total - taken),
                lines_left as int,
                width,
            ),
            overflow_rows(messages@, budget, width) == overflow_rows(
                messages@.take(total - taken),
                lines_left as int,
                width,
            ),
        decreases total - taken,
    {
        let m = &messages[total - 1 - taken];
        let ghost rest = messages@.take(total - taken);
        assert(rest.last() == *m);
        assert(rest.drop_last() =~= messages@.take(total - taken - 1));
        assert(m.size() <= MAX_MESSAGE_SIZE);
        printable_messages.push(m);
        let size = m.content.as_str().len();
        proof {
            assert(size == m.size());
            lemma_div_is_ordered_by_denominator(size as int, 1, width as int);
            lemma_div_pos_is_pos(size as int, width as int);
        }
        let used = (size / width as usize) as i32 + 1;
        assert(used == message_rows(*m, width));
        lines_left = lines_left - used;
        taken = taken + 1;
        if lines_left <= 0 {
            return (printable_messages, -lines_left);
        }
    }
    assert(messages@.take(0) =~= Seq::<Msg>::empty());
    (printable_messages, -lines_left)
}

/// What the screen holds: the messages so far and the line being typed.
pub struct UiState {
    pub messages: Vec<Msg>,
    pub inp_buf: String,
}

/// What the screen's driver does after an action.
#[derive(Debug, Clone, Copy, PartialEq, Eq, Structural)]
pub enum UiEffect {
    /// Nothing to do.
    Nothing,
    /// Draw the screen again.
    Redraw,
    /// Leave the screen.
    Quit,
}

/// The effect that an action has on the driver.
pub open spec fn effect_of(action: UiAction) -> UiEffect {
    match action {
        UiAction::NewChar(_) | UiAction::DelChar | UiAction::Redraw => UiEffect::Redraw,
        UiAction::Exit => UiEffect::Quit,
        UiAction::Nothing | UiAction::Send => UiEffect::Nothing,
    }
}

/// The input line after an action: a character typed goes to its end, a
/// deletion takes its last character off.
pub open spec fn input_after(input: Seq<char>, action: UiAction) -> Seq<char> {
    match action {
        UiAction::NewChar(c) => input.push(c),
        UiAction::DelChar => if input.len() > 0 {
            input.drop_last()
        } else {
            input
        },
        _ => input,
    }
}

impl UiState {
    /// A screen without messages and with an empty input line.
    pub fn new() -> (state: Self)
        ensures
            state.messages@.len() == 0,
            state.inp_buf@.len() == 0,
    {
        UiState { messages: Vec::new(), inp_buf: String::new() }
    }

    /// Applies an action to the screen and says what the driver does next.
    pub fn apply(&mut self, action: UiAction) -> (effect: UiEffect)
        ensures
            effect == effect_of(action),
            final(self).inp_buf@ == input_after(old(self).inp_buf@, action),
            final(self).messages == old(self).messages,
    {
        match action {
            UiAction::Nothing => UiEffect::Nothing,
            UiAction::Send => UiEffect::Nothing,
            UiAction::NewChar(c) => {
                self.inp_buf.push(c);
                UiEffect::Redraw
            },
            UiAction::DelChar => {
                self.inp_buf.pop();
                UiEffect::Redraw
            },
            UiAction::Redraw => UiEffect::Redraw,
            UiAction::Exit => UiEffect::Quit,
        }
    }
}

/// A colour of the text on the screen.
#[derive(Debug, Clone, Copy, PartialEq, Eq, Structural)]
pub enum Color {
    Yellow,
    Green,
    Reset,
}

/// One instruction to the terminal.
#[derive(Debug, PartialEq, Eq)]
pub enum DrawOp {
    /// Clear the whole screen.
    Clear,
    /// Put the cursor at this column and row.
    MoveTo(u16, u16),
    /// Write what follows in this colour.
    SetColor(Color),
    /// Write this text.
    Print(String),
}

/// An instruction to the terminal, with its text as a sequence.
pub enum DrawSpec {
    Clear,
    MoveTo(u16, u16),
    SetColor(Color),
    Print(Seq<char>),
}

impl View for DrawOp {
    type V = DrawSpec;

    open spec fn view(&self) -> DrawSpec {
        match self {
            DrawOp::Clear => DrawSpec::Clear,
            DrawOp::MoveTo(column, row) => DrawSpec::MoveTo(*column, *row),
            DrawOp::SetColor(color) => DrawSpec::SetColor(*color),
            DrawOp::Print(text) => DrawSpec::Print(text@),
        }
    }
}

/// The instructions of a plan, each by its view.
pub open spec fn plan_view(ops: Seq<DrawOp>) -> Seq<DrawSpec> {
    Seq::new(ops.len(), |i: int| ops[i]@)
}

/// The colour of the local side's messages.
pub const USER_COLOR: Color = Color::Green;

/// The colour of the peer's messages.
pub const RECIPIENT_COLOR: Color = Color::Yellow;

/// The columns of the narrowest terminal that the screen is drawn on.
pub const MIN_COLUMNS: u16 = 10;

/// The rows of the lowest terminal that the screen is drawn on.
pub const MIN_ROWS: u16 = 3;

/// How a message is drawn in full: in the colour of its side, then the end
/// of the line.
pub open spec fn message_ops(msg: Msg) -> Seq<DrawSpec> {
    seq![
        DrawSpec::SetColor(
            if msg.from == 0 {
                USER_COLOR
            } else {
                RECIPIENT_COLOR
            },
        ),
        DrawSpec::Print(msg.content@),
        DrawSpec::SetColor(Color::Reset),
        DrawSpec::Print("\n\r"@),
    ]
}

/// How the topmost message is drawn where it does not fit: its last
/// characters, as many as the screen is wide, the last one first, in the
/// colour of the other side.
pub open spec fn clipped_ops(msg: Msg, width: u16) -> Seq<DrawSpec> {
    let shown = if msg.content@.len() <= width {
        msg.content@.reverse()
    } else {
        msg.content@.reverse().take(width as int)
    };
    seq![
        DrawSpec::SetColor(
            if msg.from == 0 {
                RECIPIENT_COLOR
            } else {
                USER_COLOR
            },
        ),
        DrawSpec::Print(shown),
        DrawSpec::SetColor(Color::Reset),
        DrawSpec::Print("\n\r"@),
    ]
}

/// How a run of messages is drawn: `shown` holds the newest first, and the
/// oldest is drawn first.
pub open spec fn messages_ops(shown: Seq<Msg>) -> Seq<DrawSpec>
    decreases shown.len(),
{
    if shown.len() == 0 {
        Seq::empty()
    } else {
        message_ops(shown.last()) + messages_ops(shown.drop_last())
    }
}

/// How the input line is drawn: on the last row, in green, without the
/// white space at its ends.
pub open spec fn input_ops(input: Seq<char>, height: u16) -> Seq<DrawSpec> {
    seq![
        DrawSpec::MoveTo(0, (height - 1) as u16),
        DrawSpec::SetColor(Color::Green),
        DrawSpec::Print(trimmed(input)),
        DrawSpec::SetColor(Color::Reset),
    ]
}

/// How the messages and the input line are drawn. Where the messages go
/// beyond the screen, the topmost one is clipped.
pub open spec fn draw_plan(
    shown: Seq<Msg>,
    input: Seq<char>,
    overflow: int,
    term_size: (u16, u16),
) -> Seq<DrawSpec> {
    let body = if overflow > 0 && shown.len() > 0 {
        clipped_ops(shown.last(), term_size.0) + messages_ops(shown.drop_last())
    } else {
        messages_ops(shown)
    };
    body + input_ops(input, term_size.1)
}

/// The text of a literal.
fn literal(text: &str) -> (owned: String)
    ensures
        owned@ == text@,
{
    text.to_owned()
}

/// Appends the drawing of one message in full.
fn push_message(ops: &mut Vec<DrawOp>, msg: &Msg)
    ensures
        plan_view(final(ops)@) == plan_view(old(ops)@) + message_ops(*msg),
{
    let color = if msg.from == 0 {
        USER_COLOR
    } else {
        RECIPIENT_COLOR
    };
    ops.push(DrawOp::SetColor(color));
    ops.push(DrawOp::Print(msg.content.clone()));
    ops.push(DrawOp::SetColor(Color::Reset));
    ops.push(DrawOp::Print(literal("\n\r")));
    assert(plan_view(ops@) =~= plan_view(old(ops)@) + message_ops(*msg));
}

/// Appends the drawing of a message that is clipped to the width.
fn push_clipped(ops: &mut Vec<DrawOp>, msg: &Msg, width: u16)
    ensures
        plan_view(final(ops)@) == plan_view(old(ops)@) + clipped_ops(*msg, width),
{
    let color = if msg.from == 0 {
        RECIPIENT_COLOR
    } else {
        USER_COLOR
    };
    let chars = chars_of(msg.content.as_str());
    let len = chars.len();
    let count = if len <= width as usize {
        len
    } else {
        width as usize
    };
    let mut shown = String::new();
    let mut k: usize = 0;
    while k < count
        invariant
            len == chars@.len(),
            0 <= k <= count <= len,
            shown@ == chars@.reverse().take(k as int),
        decreases count - k,
    {
        shown.push(chars[len - 1 - k]);
        assert(chars@.reverse().take(k + 1) =~= chars@.reverse().take(k as int).push(
            chars@[len - 1 - k],
        ));
        k = k + 1;
    }
    assert(chars@.reverse().take(len as int) =~= chars@.reverse());
    ops.push(DrawOp::SetColor(color));
    ops.push(DrawOp::Print(shown));
    ops.push(DrawOp::SetColor(Color::Reset));
    ops.push(DrawOp::Print(literal("\n\r")));
    assert(plan_view(ops@) =~= plan_view(old(ops)@) + clipped_ops(*msg, width));
}

/// Plans the drawing of the messages to show, newest first in `messages`,
/// and of the input line under them.
pub fn draw_messages(
    messages: &Vec<&Msg>,
    msg_inp_buf: &str,
    overflow_lines: i32,
    term_size: (u16, u16),
) -> (ops: Vec<DrawOp>)
    requires
        term_size.1 >= 1,
    ensures
        plan_view(ops@) == draw_plan(
            messages@.unref(),
            msg_inp_buf@,
            overflow_lines as int,
            term_size,
        ),
{
    let ghost shown = messages@.unref();
    let mut ops: Vec<DrawOp> = Vec::new();
    let mut left: usize = messages.len();
    assert(plan_view(ops@) =~= Seq::<DrawSpec>::empty());
    assert(shown.take(left as int) =~= shown);
    if overflow_lines > 0 && left > 0 {
        left = left - 1;
        push_clipped(&mut ops, messages[left], term_size.0);
        assert(shown.take(left as int) =~= shown.drop_last());
        assert(plan_view(ops@) =~= clipped_ops(shown.last(), term_size.0));
    }
    let ghost head = plan_view(ops@);
    let ghost rest = shown.take(left as int);
    assert(rest.take(left as int) =~= rest);
    while left > 0
        invariant
            shown == messages@.unref(),
            0 <= left <= rest.len(),
            rest.len() <= shown.len(),
            rest == shown.take(rest.len() as int),
            head + messages_ops(rest) == plan_view(ops@) + messages_ops(rest.take(left as int)),
        decreases left,
    {
        let ghost before = plan_view(ops@);
        let ghost part = rest.take(left as int);
        left = left - 1;
        push_message(&mut ops, messages[left]);
        proof {
            assert(part.last() == *messages@[left as int]);
            assert(part.drop_last() =~= rest.take(left as int));
            assert(before + (message_ops(part.last()) + messages_ops(part.drop_last())) =~= (before
                + message_ops(part.last())) + messages_ops(part.drop_last()));
        }
    }
    proof {
        assert(rest.take(0) =~= Seq::<Msg>::empty());
        assert(plan_view(ops@) + Seq::<DrawSpec>::empty() =~= plan_view(ops@));
    }
    let ghost body = plan_view(ops@);
    let chars = chars_of(msg_inp_buf);
    assert(chars@.subrange(0, chars@.len() as int) =~= chars@);
    let (start, end) = trim_bounds(&chars, 0, chars.len());
    ops.push(DrawOp::MoveTo(0, term_size.1 - 1));
    ops.push(DrawOp::SetColor(Color::Green));
    ops.push(DrawOp::Print(text_of(&chars, start, end)));
    ops.push(DrawOp::SetColor(Color::Reset));
    assert(plan_view(ops@) =~= body + input_ops(msg_inp_buf@, term_size.1));
    ops
}

/// What the screen shows for the given messages and input line: a notice
/// where the terminal is too small, else the messages that fit and the
/// input line.
pub open spec fn screen_plan(messages: Seq<Msg>, input: Seq<char>, size: (u16, u16)) -> Seq<
    DrawSpec,
> {
    if size.0 < MIN_COLUMNS || size.1 < MIN_ROWS {
        seq![DrawSpec::Clear, DrawSpec::MoveTo(0, 0), DrawSpec::Print("small terminal!"@)]
    } else {
        let budget = size.1 - input_rows(input);
        let count = visible_count(messages, budget, size.0);
        let shown = Seq::new(count, |i: int| messages[messages.len() - 1 - i]);
        seq![DrawSpec::Clear, DrawSpec::MoveTo(0, 0)] + draw_plan(
            shown,
            input,
            overflow_rows(messages, budget, size.0),
            size,
        )
    }
}

/// Plans the drawing of the whole screen on a terminal of the given size.
pub fn redraw(messages: &Vec<Msg>, msg_inp_buf: &str, size: (u16, u16)) -> (ops: Vec<DrawOp>)
    requires
        size.0 >= MIN_COLUMNS && size.1 >= MIN_ROWS ==> input_rows(msg_inp_buf@) <= size.1,
        all_fit(messages@),
    ensures
        plan_view(ops@) == screen_plan(messages@, msg_inp_buf@, size),
{
    let mut ops: Vec<DrawOp> = Vec::new();
    ops.push(DrawOp::Clear);
    ops.push(DrawOp::MoveTo(0, 0));
    if size.0 < MIN_COLUMNS || size.1 < MIN_ROWS {
        ops.push(DrawOp::Print(literal("small terminal!")));
        assert(plan_view(ops@) =~= screen_plan(messages@, msg_inp_buf@, size));
        return ops;
    }
    let (printable_messages, overflow_lines) = get_visible_messages(
        size,
        msg_inp_buf,
        messages.as_slice(),
    );
    let mut body = draw_messages(&printable_messages, msg_inp_buf, overflow_lines, size);
    let ghost head = plan_view(ops@);
    let ghost tail = plan_view(body@);
    ops.append(&mut body);
    proof {
        let budget = size.1 - input_rows(msg_inp_buf@);
        let count = visible_count(messages@, budget, size.0);
        let shown = Seq::new(count, |i: int| messages@[messages@.len() - 1 - i]);
        assert(printable_messages@.unref() =~= shown);
        assert(plan_view(ops@) =~= head + tail);
        assert(head =~= seq![DrawSpec::Clear, DrawSpec::MoveTo(0, 0)]);
    }
    ops
}

} // verus!
