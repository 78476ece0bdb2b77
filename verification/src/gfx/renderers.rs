//! Text as it is laid out on the screen.

use vstd::prelude::*;
use vstd::arithmetic::div_mod::lemma_fundamental_div_mod;
use vstd::arithmetic::div_mod::lemma_fundamental_div_mod_converse;
use crate::irc::types::IrcMessage;
use crate::irc::types::MessageView;
use crate::text::chars_of;

verus! {

/// `text` broken into rows of `width` characters: counting from 0, every
/// character whose index leaves the remainder `width` when divided by
/// `width + 1` gives way to a line feed, and the others stay where they
/// are.
pub open spec fn wrapped(text: Seq<char>, width: int) -> Seq<char> {
    Seq::new(
        text.len(),
        |i: int|
            if i % (width + 1) == width {
                '\n'
            } else {
                text[i]
            },
    )
}

/// The remainder of `i + 1` from that of `i`.
proof fn lemma_next_remainder(i: int, m: int)
    requires
        0 <= i,
        0 < m,
    ensures
        (i + 1) % m == if i % m == m - 1 {
            0
        } else {
            i % m + 1
        },
{
    lemma_fundamental_div_mod(i, m);
    let q = i / m;
    let r = i % m;
    if r == m - 1 {
        assert(i + 1 == (q + 1) * m + 0) by (nonlinear_arith)
            requires
                i == m * q + r,
                r == m - 1,
        ;
        lemma_fundamental_div_mod_converse(i + 1, m, q + 1, 0);
    } else {
        assert(i + 1 == q * m + (r + 1)) by (nonlinear_arith)
            requires
                i == m * q + r,
        ;
        lemma_fundamental_div_mod_converse(i + 1, m, q, r + 1);
    }
}

/// Breaks `text` into rows of `width` characters. The character that
/// would be the next in a full row is dropped for the line feed.
pub fn wrap(text: &str, width: usize) -> (out: String)
    ensures
        out@ == wrapped(text@, width as int),
{
    let chars = chars_of(text);
    let mut out = String::new();
    let mut line_length: usize = 0;
    let mut i: usize = 0;
    assert(wrapped(text@, width as int).take(0) =~= Seq::<char>::empty());
    while i < chars.len()
        invariant
            i <= chars.len(),
            chars@ == text@,
            line_length <= width,
            line_length as int == (i as int) % (width + 1),
            out@ == wrapped(text@, width as int).take(i as int),
        decreases chars.len() - i,
    {
        proof {
            lemma_next_remainder(i as int, width + 1);
            assert(wrapped(text@, width as int).take(i + 1) =~= wrapped(
                text@,
                width as int,
            ).take(i as int).push(wrapped(text@, width as int)[i as int]));
        }
        if line_length >= width {
            out.push('\n');
            line_length = 0;
        } else {
            out.push(chars[i]);
            line_length += 1;
        }
        i += 1;
    }
    assert(wrapped(text@, width as int).take(chars.len() as int) =~= wrapped(text@, width as int));
    out
}

/// `text` with spaces after it to make `width` characters; a text that
/// long or longer stays as it is.
pub open spec fn padded(text: Seq<char>, width: int) -> Seq<char> {
    if text.len() >= width {
        text
    } else {
        text + Seq::new((width - text.len()) as nat, |i: int| ' ')
    }
}

/// The label before a chat line: the nick in a column of 12, and a colon.
pub open spec fn nick_label(nick: Seq<char>) -> Seq<char> {
    padded(nick, 12) + seq![':']
}

/// The text of a message as it is drawn: the content and a line feed, after
/// a space where a nick label stands before it, in rows of 50.
pub open spec fn message_rows(message: MessageView) -> Seq<char> {
    match message.nick {
        Some(nick) => wrapped(seq![' '] + message.content + seq!['\n'], 50),
        None => wrapped(message.content + seq!['\n'], 50),
    }
}

/// The decimal digit `d`.
pub open spec fn digit(d: int) -> char {
    seq!['0', '1', '2', '3', '4', '5', '6', '7', '8', '9'][d]
}

/// `n` in decimal, with a leading zero where it has one digit.
pub open spec fn two_digits(n: int) -> Seq<char> {
    if n < 100 {
        seq![digit(n / 10), digit(n % 10)]
    } else {
        seq![digit(n / 100), digit((n / 10) % 10), digit(n % 10)]
    }
}

/// The time of day as `hh:mm:ss`.
pub open spec fn clock(hour: int, minute: int, second: int) -> Seq<char> {
    two_digits(hour) + seq![':'] + two_digits(minute) + seq![':'] + two_digits(second)
}

/// The label before a chat line from `nick`.
pub fn nick_text(nick: &str) -> (label: String)
    ensures
        label@ == nick_label(nick@),
{
    let chars = chars_of(nick);
    let mut label = nick.to_owned();
    let mut length: usize = chars.len();
    while length < 12
        invariant
            chars@ == nick@,
            nick@.len() <= length,
            length > nick@.len() ==> length <= 12,
            label@ == nick@ + Seq::new((length - nick@.len()) as nat, |i: int| ' '),
        decreases 12 - length,
    {
        label.push(' ');
        length += 1;
        assert(label@ =~= nick@ + Seq::new((length - nick@.len()) as nat, |i: int| ' '));
    }
    assert(label@ =~= padded(nick@, 12));
    label.push(':');
    label
}

/// The text of `message` as it is drawn.
pub fn message_text(message: &IrcMessage) -> (text: String)
    ensures
        text@ == message_rows(message@),
{
    let mut line = String::new();
    if message.nick.is_some() {
        line.push(' ');
    }
    line.append(message.content.as_str());
    line.push('\n');
    proof {
        if message.nick is Some {
            assert(line@ =~= seq![' '] + message.content@ + seq!['\n']);
        } else {
            assert(line@ =~= message.content@ + seq!['\n']);
        }
    }
    wrap(line.as_str(), 50)
}

/// The character of the decimal digit `d`.
fn digit_char(d: u8) -> (c: char)
    requires
        d < 10,
    ensures
        c == digit(d as int),
{
    match d {
        0 => '0',
        1 => '1',
        2 => '2',
        3 => '3',
        4 => '4',
        5 => '5',
        6 => '6',
        7 => '7',
        8 => '8',
        _ => '9',
    }
}

/// Adds `n` to `text` in decimal, with a leading zero where it has one
/// digit.
fn push_two_digits(text: &mut String, n: u8)
    ensures
        final(text)@ == old(text)@ + two_digits(n as int),
{
    if n >= 100 {
        text.push(digit_char(n / 100));
    }
    text.push(digit_char((n / 10) % 10));
    text.push(digit_char(n % 10));
    assert(text@ =~= old(text)@ + two_digits(n as int));
}

/// The time of day as `hh:mm:ss`.
pub fn clock_text(hour: u8, minute: u8, second: u8) -> (text: String)
    ensures
        text@ == clock(hour as int, minute as int, second as int),
{
    let mut text = String::new();
    push_two_digits(&mut text, hour);
    text.push(':');
    push_two_digits(&mut text, minute);
    text.push(':');
    push_two_digits(&mut text, second);
    assert(text@ =~= clock(hour as int, minute as int, second as int));
    text
}

} // verus!
