//! Text as the program reads and writes it: white space, decimal numerals
//! and lines.

use vstd::prelude::*;

verus! {

/// `String::push` of std appends one character.
pub assume_specification[ String::push ](text: &mut String, c: char)
    ensures
        final(text)@ == old(text)@.push(c),
;

/// `String::pop` of std takes the last character off, if there is one.
pub assume_specification[ String::pop ](text: &mut String) -> (last: Option<char>)
    ensures
        old(text)@.len() == 0 ==> last is None && final(text)@ == old(text)@,
        old(text)@.len() > 0 ==> last == Some(old(text)@.last()) && final(text)@ == old(
            text,
        )@.drop_last(),
;

/// `c` is white space as Unicode defines it.
pub open spec fn is_space(c: char) -> bool {
    let u = c as u32;
    ||| 0x09 <= u <= 0x0d
    ||| u == 0x20
    ||| u == 0x85
    ||| u == 0xa0
    ||| u == 0x1680
    ||| 0x2000 <= u <= 0x200a
    ||| u == 0x2028
    ||| u == 0x2029
    ||| u == 0x202f
    ||| u == 0x205f
    ||| u == 0x3000
}

/// Tells whether a character is white space.
pub fn is_whitespace(c: char) -> (space: bool)
    ensures
        space == is_space(c),
{
    let u = c as u32;
    (0x09 <= u && u <= 0x0d) || u == 0x20 || u == 0x85 || u == 0xa0 || u == 0x1680 || (0x2000 <= u
        && u <= 0x200a) || u == 0x2028 || u == 0x2029 || u == 0x202f || u == 0x205f || u == 0x3000
}

/// `s` without the white space at its start.
pub open spec fn trim_start(s: Seq<char>) -> Seq<char>
    decreases s.len(),
{
    if s.len() > 0 && is_space(s[0]) {
        trim_start(s.skip(1))
    } else {
        s
    }
}

/// `s` without the white space at its end.
pub open spec fn trim_end(s: Seq<char>) -> Seq<char>
    decreases s.len(),
{
    if s.len() > 0 && is_space(s.last()) {
        trim_end(s.drop_last())
    } else {
        s
    }
}

/// `s` without the white space at either end.
pub open spec fn trimmed(s: Seq<char>) -> Seq<char> {
    trim_end(trim_start(s))
}

/// The characters of a text, one by one.
pub fn chars_of(text: &str) -> (chars: Vec<char>)
    ensures
        chars@ == text@,
{
    let mut chars: Vec<char> = Vec::new();
    for c in it: text.chars()
        invariant
            it.seq() == text@,
            chars@ == text@.take(it.index()),
    {
        assert(text@.take(it.index() + 1) =~= text@.take(it.index()).push(c));
        chars.push(c);
    }
    assert(text@.take(text@.len() as int) =~= text@);
    chars
}

/// The text that holds the given characters.
pub fn text_of(chars: &Vec<char>, start: usize, end: usize) -> (text: String)
    requires
        start <= end <= chars@.len(),
    ensures
        text@ == chars@.subrange(start as int, end as int),
{
    let mut text = String::new();
    let mut i: usize = start;
    while i < end
        invariant
            start <= i <= end <= chars@.len(),
            text@ == chars@.subrange(start as int, i as int),
        decreases end - i,
    {
        text.push(chars[i]);
        assert(chars@.subrange(start as int, i + 1) =~= chars@.subrange(
            start as int,
            i as int,
        ).push(chars@[i as int]));
        i = i + 1;
    }
    text
}

/// Where the part of `chars` between `from` and `to` starts and stops once
/// the white space at its ends is taken away.
pub fn trim_bounds(chars: &Vec<char>, from: usize, to: usize) -> (bounds: (usize, usize))
    requires
        from <= to <= chars@.len(),
    ensures
        from <= bounds.0 <= bounds.1 <= to,
        chars@.subrange(bounds.0 as int, bounds.1 as int) == trimmed(
            chars@.subrange(from as int, to as int),
        ),
        chars@.subrange(bounds.0 as int, to as int) == trim_start(
            chars@.subrange(from as int, to as int),
        ),
{
    let ghost whole = chars@.subrange(from as int, to as int);
    let mut start: usize = from;
    assert(whole.skip(0) =~= whole);
    while start < to && is_whitespace(chars[start])
        invariant
            from <= start <= to <= chars@.len(),
            whole == chars@.subrange(from as int, to as int),
            trim_start(whole) == trim_start(whole.skip(start - from)),
        decreases to - start,
    {
        assert(whole.skip(start - from).skip(1) =~= whole.skip(start - from + 1));
        start = start + 1;
    }
    let ghost body = whole.skip(start - from);
    assert(trim_start(whole) == body);
    let mut end: usize = to;
    assert(chars@.subrange(start as int, to as int) =~= body);
    while end > start && is_whitespace(chars[end - 1])
        invariant
            start <= end <= to <= chars@.len(),
            trim_end(body) == trim_end(chars@.subrange(start as int, end as int)),
        decreases end,
    {
        assert(chars@.subrange(start as int, end as int).drop_last() =~= chars@.subrange(
            start as int,
            end - 1,
        ));
        end = end - 1;
    }
    (start, end)
}

/// `c` is one of the ten decimal digits.
pub open spec fn is_digit(c: char) -> bool {
    '0' <= c <= '9'
}

/// The number that a digit stands for.
pub open spec fn digit_value(c: char) -> nat {
    (c as u32 - '0' as u32) as nat
}

/// Every character of `s` is a decimal digit.
pub open spec fn all_digits(s: Seq<char>) -> bool {
    forall|i: int| 0 <= i < s.len() ==> is_digit(#[trigger] s[i])
}

/// The number that a string of digits stands for.
pub open spec fn decimal_value(s: Seq<char>) -> nat
    decreases s.len(),
{
    if s.len() == 0 {
        0
    } else {
        decimal_value(s.drop_last()) * 10 + digit_value(s.last())
    }
}

/// `s` without the plus sign that may stand at its head.
pub open spec fn unsigned_part(s: Seq<char>) -> Seq<char> {
    if s.len() > 0 && s[0] == '+' {
        s.skip(1)
    } else {
        s
    }
}

/// The number written in `s`, if `s` is a decimal numeral of at most `max`:
/// one or more digits, with or without a plus sign before them.
pub open spec fn parsed_decimal(s: Seq<char>, max: nat) -> Option<nat> {
    let digits = unsigned_part(s);
    if digits.len() > 0 && all_digits(digits) && decimal_value(digits) <= max {
        Some(decimal_value(digits))
    } else {
        None
    }
}

/// A string of digits stands for at least as much as any of its prefixes.
proof fn lemma_decimal_value_prefix(s: Seq<char>, k: int)
    requires
        0 <= k <= s.len(),
    ensures
        decimal_value(s.take(k)) <= decimal_value(s),
    decreases s.len(),
{
    if k == s.len() {
        assert(s.take(k) =~= s);
    } else {
        lemma_decimal_value_prefix(s.drop_last(), k);
        assert(s.drop_last().take(k) =~= s.take(k));
    }
}

/// Reads the decimal numeral that `chars` holds between `start` and `end`.
pub fn parse_decimal(chars: &Vec<char>, start: usize, end: usize, max: u64) -> (value: Option<u64>)
    requires
        start <= end <= chars@.len(),
    ensures
        match parsed_decimal(chars@.subrange(start as int, end as int), max as nat) {
            Some(v) => value == Some(v as u64),
            None => value is None,
        },
{
    let ghost text = chars@.subrange(start as int, end as int);
    let mut i: usize = start;
    if start < end && chars[start] == '+' {
        i = start + 1;
    }
    let first = i;
    let ghost digits = chars@.subrange(first as int, end as int);
    assert(digits =~= unsigned_part(text));
    if first == end {
        return None;
    }
    let mut value: u64 = 0;
    assert(digits.take(0) =~= Seq::<char>::empty());
    while i < end
        invariant
            start <= first <= i <= end <= chars@.len(),
            text == chars@.subrange(start as int, end as int),
            digits == chars@.subrange(first as int, end as int),
            digits == unsigned_part(text),
            all_digits(digits.take(i - first)),
            value == decimal_value(digits.take(i - first)),
            value <= max,
        decreases end - i,
    {
        let c = chars[i];
        assert(digits[i - first] == c);
        if c < '0' || c > '9' {
            assert(!is_digit(digits[i - first]));
            return None;
        }
        let d = (c as u32 - '0' as u32) as u128;
        let next = (value as u128) * 10 + d;
        proof {
            let grown = digits.take(i - first + 1);
            assert(grown.drop_last() =~= digits.take(i - first));
            assert(grown.last() == c);
            assert(all_digits(grown)) by {
                assert forall|k: int| 0 <= k < grown.len() implies is_digit(
                    #[trigger] grown[k],
                ) by {
                    if k < i - first {
                        assert(digits.take(i - first)[k] == grown[k]);
                    }
                }
            }
            assert(next == decimal_value(grown));
            lemma_decimal_value_prefix(digits, i - first + 1);
        }
        if next > max as u128 {
            return None;
        }
        value = next as u64;
        i = i + 1;
    }
    assert(digits.take(end - first) =~= digits);
    Some(value)
}

/// The number that a text holds once the white space at its ends is taken
/// away, if what is left is a decimal numeral of at most `max`.
pub open spec fn parsed_number(text: Seq<char>, max: nat) -> Option<nat> {
    parsed_decimal(trimmed(text), max)
}

/// The character of a digit below ten.
pub open spec fn digit_char(d: nat) -> char {
    ('0' as u32 + d) as char
}

/// The decimal numeral of `x`, without leading zeros.
pub open spec fn decimal_digits(x: nat) -> Seq<char>
    decreases x,
{
    if x < 10 {
        seq![digit_char(x)]
    } else {
        decimal_digits(x / 10).push(digit_char(x % 10))
    }
}

/// Appends the decimal numeral of `x` to a text.
pub fn push_decimal(out: &mut String, x: u64)
    ensures
        final(out)@ == old(out)@ + decimal_digits(x as nat),
{
    let mut low: Vec<char> = Vec::new();
    let mut rest: u64 = x;
    assert(decimal_digits(x as nat) =~= decimal_digits(rest as nat) + low@.reverse());
    while rest >= 10
        invariant
            decimal_digits(x as nat) == decimal_digits(rest as nat) + low@.reverse(),
        decreases rest,
    {
        let d = (rest % 10) as u8;
        let c = (48u8 + d) as char;
        proof {
            assert(c == digit_char((rest % 10) as nat));
            let grown = low@.push(c);
            assert(grown.reverse() =~= seq![c] + low@.reverse());
            assert(decimal_digits((rest / 10) as nat).push(c) + low@.reverse() =~= decimal_digits(
                (rest / 10) as nat,
            ) + grown.reverse());
        }
        low.push(c);
        rest = rest / 10;
    }
    let c = (48u8 + rest as u8) as char;
    assert(c == digit_char(rest as nat));
    out.push(c);
    let mut i: usize = low.len();
    assert(low@.reverse().take(0) =~= Seq::<char>::empty());
    while i > 0
        invariant
            0 <= i <= low@.len(),
            out@ == old(out)@ + seq![c] + low@.reverse().take(low@.len() - i),
        decreases i,
    {
        i = i - 1;
        out.push(low[i]);
        proof {
            let rev = low@.reverse();
            let k = low@.len() - 1 - i;
            assert(rev[k] == low@[i as int]);
            assert(rev.take(k + 1) =~= rev.take(k).push(rev[k]));
        }
    }
    proof {
        let rev = low@.reverse();
        assert(rev.take(low@.len() as int) =~= rev);
        assert(old(out)@ + seq![c] + rev =~= old(out)@ + (decimal_digits(rest as nat) + rev));
    }
}

/// The decimal numeral of a number.
pub fn decimal_string(x: u64) -> (text: String)
    ensures
        text@ == decimal_digits(x as nat),
{
    let mut text = String::new();
    push_decimal(&mut text, x);
    assert(Seq::<char>::empty() + decimal_digits(x as nat) =~= decimal_digits(x as nat));
    text
}

/// The number of characters before the first line feed of `s`, or in all
/// of `s` where it has none.
pub open spec fn first_line_len(s: Seq<char>) -> nat
    decreases s.len(),
{
    if s.len() == 0 || s[0] == '\n' {
        0
    } else {
        1 + first_line_len(s.skip(1))
    }
}

/// The lines of a text: the pieces between its line feeds. A line feed at
/// the very end starts no further line, and the empty text has no line.
pub open spec fn lines(s: Seq<char>) -> Seq<Seq<char>>
    decreases s.len(),
{
    if s.len() == 0 {
        Seq::empty()
    } else {
        let n = first_line_len(s);
        if n >= s.len() {
            seq![s]
        } else {
            seq![s.take(n as int)] + lines(s.skip(n as int + 1))
        }
    }
}

/// Where the line that starts at `from` ends: at the next line feed, or at
/// the end of the text.
fn line_end(chars: &Vec<char>, from: usize) -> (end: usize)
    requires
        from <= chars@.len(),
    ensures
        from <= end <= chars@.len(),
        end == from + first_line_len(chars@.skip(from as int)),
{
    let mut i: usize = from;
    while i < chars.len() && chars[i] != '\n'
        invariant
            from <= i <= chars@.len(),
            first_line_len(chars@.skip(from as int)) == (i - from) + first_line_len(
                chars@.skip(i as int),
            ),
        decreases chars@.len() - i,
    {
        assert(chars@.skip(i as int).skip(1) =~= chars@.skip(i + 1));
        i = i + 1;
    }
    i
}

/// Where each line of a text starts and stops: the first line starts at
/// the head of the text, and each further one behind the line feed that
/// ends the line before it.
pub fn line_bounds(chars: &Vec<char>) -> (bounds: Vec<(usize, usize)>)
    ensures
        bounds@.len() == lines(chars@).len(),
        forall|k: int|
            0 <= k < bounds@.len() ==> {
                let (from, to) = #[trigger] bounds@[k];
                from <= to <= chars@.len() && chars@.subrange(from as int, to as int) == lines(
                    chars@,
                )[k]
            },
        bounds@.len() > 0 ==> bounds@[0].0 == 0,
        forall|j: int, k: int|
            #![trigger bounds@[j], bounds@[k]]
            0 <= j && k == j + 1 && k < bounds@.len() ==> bounds@[k].0 == bounds@[j].1 + 1,
{
    let len = chars.len();
    let mut bounds: Vec<(usize, usize)> = Vec::new();
    let mut pos: usize = 0;
    assert(chars@.skip(0) =~= chars@);
    assert(lines(chars@).skip(0) =~= lines(chars@));
    while pos < len
        invariant
            len == chars@.len(),
            0 <= pos <= len,
            bounds@.len() <= lines(chars@).len(),
            lines(chars@).skip(bounds@.len() as int) == lines(chars@.skip(pos as int)),
            bounds@.len() == 0 ==> pos == 0,
            bounds@.len() > 0 ==> pos == len || pos == bounds@[bounds@.len() - 1].1 + 1,
            bounds@.len() > 0 ==> bounds@[0].0 == 0,
            forall|j: int, k: int|
                #![trigger bounds@[j], bounds@[k]]
                0 <= j && k == j + 1 && k < bounds@.len() ==> bounds@[k].0 == bounds@[j].1 + 1,
            forall|k: int|
                0 <= k < bounds@.len() ==> {
                    let (from, to) = #[trigger] bounds@[k];
                    from <= to <= chars@.len() && chars@.subrange(from as int, to as int) == lines(
                        chars@,
                    )[k]
                },
        decreases len - pos,
    {
        let end = line_end(chars, pos);
        let ghost rest = chars@.skip(pos as int);
        let ghost done = bounds@.len() as int;
        let ghost all = lines(chars@);
        proof {
            assert(rest.len() > 0);
            assert(lines(rest).len() >= 1);
            assert(all.skip(done).len() >= 1);
            assert(all.skip(done)[0] == all[done]);
            if end < len {
                assert(rest.take(end - pos) =~= chars@.subrange(pos as int, end as int));
                assert(rest.skip(end - pos + 1) =~= chars@.skip(end + 1));
                assert(all.skip(done).skip(1) =~= all.skip(done + 1));
                assert(lines(rest).skip(1) =~= lines(chars@.skip(end + 1)));
            } else {
                assert(rest =~= chars@.subrange(pos as int, end as int));
                assert(all.skip(done + 1) =~= Seq::<Seq<char>>::empty());
                assert(chars@.skip(len as int) =~= Seq::<char>::empty());
            }
        }
        bounds.push((pos, end));
        if end < len {
            pos = end + 1;
        } else {
            pos = len;
        }
    }
    proof {
        assert(chars@.skip(len as int) =~= Seq::<char>::empty());
        assert(lines(chars@).skip(bounds@.len() as int).len() == 0);
    }
    bounds
}

/// The numeral of a number is made of digits, at least one, and stands for
/// the number.
pub proof fn lemma_decimal_digits(x: nat)
    ensures
        decimal_digits(x).len() >= 1,
        all_digits(decimal_digits(x)),
        decimal_value(decimal_digits(x)) == x,
    decreases x,
{
    let d = digit_char(x % 10);
    assert(is_digit(d) && digit_value(d) == x % 10);
    if x >= 10 {
        lemma_decimal_digits(x / 10);
        let head = decimal_digits(x / 10);
        let all = head.push(d);
        assert(all.drop_last() =~= head);
        assert forall|i: int| 0 <= i < all.len() implies is_digit(#[trigger] all[i]) by {
            if i < head.len() {
                assert(all[i] == head[i]);
            }
        }
    } else {
        let all = seq![d];
        assert(all.drop_last() =~= Seq::<char>::empty());
        assert(decimal_value(all.drop_last()) == 0);
    }
}

/// Reading what was written gives the number back: the numeral of a number
/// up to `max` parses as that number.
pub proof fn lemma_decimal_round_trip(x: nat, max: nat)
    requires
        x <= max,
    ensures
        parsed_number(decimal_digits(x), max) == Some(x),
{
    let s = decimal_digits(x);
    lemma_decimal_digits(x);
    assert(is_digit(s[0]));
    assert(is_digit(s.last()));
    assert(trim_start(s) == s);
    assert(trim_end(s) == s);
    assert(unsigned_part(s) == s);
}

/// A piece without a line feed that a line feed follows is the first line.
proof fn lemma_first_line(piece: Seq<char>, rest: Seq<char>)
    requires
        forall|i: int| 0 <= i < piece.len() ==> piece[i] != '\n',
    ensures
        first_line_len(piece + seq!['\n'] + rest) == piece.len(),
        first_line_len(piece) == piece.len(),
    decreases piece.len(),
{
    let all = piece + seq!['\n'] + rest;
    if piece.len() > 0 {
        lemma_first_line(piece.skip(1), rest);
        assert(all.skip(1) =~= piece.skip(1) + seq!['\n'] + rest);
        assert(all[0] == piece[0]);
    } else {
        assert(all[0] == '\n');
    }
}

/// The lines of a piece without a line feed, a line feed, and more text
/// are the piece and the lines of the rest.
pub proof fn lemma_lines_split(piece: Seq<char>, rest: Seq<char>)
    requires
        forall|i: int| 0 <= i < piece.len() ==> piece[i] != '\n',
    ensures
        lines(piece + seq!['\n'] + rest) == seq![piece] + lines(rest),
        piece.len() > 0 ==> lines(piece) == seq![piece],
{
    let all = piece + seq!['\n'] + rest;
    lemma_first_line(piece, rest);
    assert(all.take(piece.len() as int) =~= piece);
    assert(all.skip(piece.len() as int + 1) =~= rest);
}

/// A numeral holds no line feed.
pub proof fn lemma_digits_hold_no_line_feed(x: nat)
    ensures
        forall|i: int| 0 <= i < decimal_digits(x).len() ==> decimal_digits(x)[i] != '\n',
        decimal_digits(x).len() > 0,
{
    lemma_decimal_digits(x);
    let s = decimal_digits(x);
    assert forall|i: int| 0 <= i < s.len() implies s[i] != '\n' by {
        assert(is_digit(s[i]));
    }
}

} // verus!
