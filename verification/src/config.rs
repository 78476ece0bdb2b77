//! What the client is told at start: who it is and where to connect.

use vstd::prelude::*;
use crate::text::chars_of;
use crate::text::end_of_line;
use crate::text::lemma_line_end;
use crate::text::line_end;
use crate::text::string_of;
use crate::text::texts;

verus! {

/// The client's settings.
#[derive(Clone, Debug, PartialEq, Eq)]
pub struct Config {
    /// The nickname to register with.
    pub nickname: String,
    pub server_hostname: String,
    pub server_port: u16,
    /// The channels joined right after registration, in order.
    pub autojoin_channels: Vec<String>,
}

/// The mathematical value of a [`Config`].
pub struct ConfigView {
    pub nickname: Seq<char>,
    pub server_hostname: Seq<char>,
    pub server_port: u16,
    pub autojoin_channels: Seq<Seq<char>>,
}

impl View for Config {
    type V = ConfigView;

    open spec fn view(&self) -> ConfigView {
        ConfigView {
            nickname: self.nickname@,
            server_hostname: self.server_hostname@,
            server_port: self.server_port,
            autojoin_channels: texts(self.autojoin_channels@),
        }
    }
}

/// The settings that stand in until real ones are known. They name no
/// server that could be reached.
pub open spec fn stand_in() -> ConfigView {
    ConfigView {
        nickname: "null"@,
        server_hostname: "null"@,
        server_port: 0,
        autojoin_channels: seq!["#null"@],
    }
}

impl Config {
    /// The stand-in settings.
    pub fn default() -> (config: Config)
        ensures
            config@ == stand_in(),
    {
        let mut autojoin_channels: Vec<String> = Vec::new();
        autojoin_channels.push("#null".to_owned());
        let config = Config {
            nickname: "null".to_owned(),
            server_hostname: "null".to_owned(),
            server_port: 0,
            autojoin_channels,
        };
        assert(config@.autojoin_channels =~= seq!["#null"@]);
        config
    }
}

/// Whether `c` is one of the digits `0` to `9`.
pub open spec fn is_digit(c: char) -> bool {
    0x30 <= c as u32 <= 0x39
}

/// The number that the digit `c` stands for.
pub open spec fn digit_value(c: char) -> int {
    c as u32 - 0x30
}

/// Every character of `s` is a digit.
pub open spec fn all_digits(s: Seq<char>) -> bool {
    forall|i: int| 0 <= i < s.len() ==> is_digit(#[trigger] s[i])
}

/// The number that the digits `s` write in decimal.
pub open spec fn decimal(s: Seq<char>) -> int
    decreases s.len(),
{
    if s.len() == 0 {
        0
    } else {
        decimal(s.drop_last()) * 10 + digit_value(s.last())
    }
}

/// `text` without the `+` that may stand at its start.
pub open spec fn unsigned(text: Seq<char>) -> Seq<char> {
    if text.len() > 0 && text[0] == '+' {
        text.skip(1)
    } else {
        text
    }
}

/// The port that `text` writes: decimal digits, at least one, with or
/// without a `+` before them, that give a number up to 65535. Any other
/// text writes no port.
pub open spec fn port_of(text: Seq<char>) -> Option<u16> {
    let digits = unsigned(text);
    if digits.len() > 0 && all_digits(digits) && decimal(digits) <= 65535 {
        Some(decimal(digits) as u16)
    } else {
        None
    }
}

/// A number in digits does not shrink as digits are added.
proof fn lemma_decimal_grows(s: Seq<char>, n: int)
    requires
        all_digits(s),
        0 <= n <= s.len(),
    ensures
        0 <= decimal(s.take(n)) <= decimal(s),
    decreases s.len() - n,
{
    if n == s.len() {
        assert(s.take(n) =~= s);
        lemma_decimal_not_negative(s);
    } else {
        lemma_decimal_grows(s, n + 1);
        assert(s.take(n + 1).drop_last() =~= s.take(n));
        assert(is_digit(s[n]));
        lemma_decimal_not_negative(s.take(n));
    }
}

proof fn lemma_decimal_not_negative(s: Seq<char>)
    requires
        all_digits(s),
    ensures
        0 <= decimal(s),
    decreases s.len(),
{
    if s.len() > 0 {
        assert(is_digit(s[s.len() - 1]));
        assert(all_digits(s.drop_last()));
        lemma_decimal_not_negative(s.drop_last());
    }
}

/// Where the line that begins at `from` stops: at its line feed, or one
/// before where a carriage return stands there, or at the end of `s`.
pub open spec fn row_stop(s: Seq<char>, from: int) -> int {
    let end = line_end(s, from);
    if from < end < s.len() && s[end - 1] == '\r' {
        end - 1
    } else {
        end
    }
}

/// The lines of `s` from index `from` on: the text is cut at each line
/// feed, and a line loses one carriage return before the line feed that
/// ends it. What stands after the last line feed is a line if it is not
/// empty.
pub open spec fn rows_from(s: Seq<char>, from: int) -> Seq<Seq<char>>
    decreases s.len() - from,
    via rows_from_decreases
{
    if from < 0 || from >= s.len() {
        Seq::empty()
    } else {
        seq![s.subrange(from, row_stop(s, from))] + if line_end(s, from) < s.len() {
            rows_from(s, line_end(s, from) + 1)
        } else {
            Seq::empty()
        }
    }
}

#[via_fn]
proof fn rows_from_decreases(s: Seq<char>, from: int) {
    if 0 <= from < s.len() {
        lemma_line_end(s, from);
    }
}

/// The lines of `s`.
pub open spec fn rows_of(s: Seq<char>) -> Seq<Seq<char>> {
    rows_from(s, 0)
}

/// The settings made of the answers to the four questions of the set-up,
/// where the answer for the port writes a port.
pub open spec fn answered(
    nickname: Seq<char>,
    server_hostname: Seq<char>,
    port: Seq<char>,
    channels: Seq<char>,
) -> Option<ConfigView> {
    match port_of(port) {
        Some(server_port) => Some(
            ConfigView {
                nickname,
                server_hostname,
                server_port,
                autojoin_channels: rows_of(channels),
            },
        ),
        None => None,
    }
}

/// The port that `text` writes, or `None` where it writes none.
pub fn parse_port(text: &str) -> (port: Option<u16>)
    ensures
        port == port_of(text@),
{
    let chars = chars_of(text);
    let begin: usize = if chars.len() > 0 && chars[0] == '+' {
        1
    } else {
        0
    };
    let ghost digits = chars@.skip(begin as int);
    proof {
        if begin == 0 {
            assert(digits =~= text@);
        }
    }
    if begin >= chars.len() {
        return None;
    }
    let mut value: u32 = 0;
    let mut i: usize = begin;
    assert(digits.take(0) =~= Seq::<char>::empty());
    while i < chars.len()
        invariant
            begin <= i <= chars.len(),
            digits == chars@.skip(begin as int),
            digits == unsigned(text@),
            digits.len() > 0,
            all_digits(digits.take(i - begin)),
            value == decimal(digits.take(i - begin)),
            value <= 65535,
        decreases chars.len() - i,
    {
        let c = chars[i];
        let code: u32 = c as u32;
        let ghost seen = digits.take(i - begin);
        let ghost next = digits.take(i + 1 - begin);
        proof {
            assert(next.drop_last() =~= seen);
            assert(next.last() == c);
        }
        if code < 0x30 || code > 0x39 {
            assert(!is_digit(digits[i - begin]));
            return None;
        }
        assert(all_digits(next)) by {
            assert forall|k: int| 0 <= k < next.len() implies is_digit(#[trigger] next[k]) by {
                if k < seen.len() {
                    assert(next[k] == seen[k]);
                }
            }
        }
        value = value * 10 + (code - 0x30);
        if value > 65535 {
            proof {
                if all_digits(digits) {
                    lemma_decimal_grows(digits, i + 1 - begin);
                }
            }
            return None;
        }
        i += 1;
    }
    assert(digits.take(chars.len() - begin) =~= digits);
    Some(value as u16)
}

/// The lines of `text`, each as a string.
pub fn text_rows(text: &str) -> (out: Vec<String>)
    ensures
        texts(out@) == rows_of(text@),
{
    let chars = chars_of(text);
    let mut out: Vec<String> = Vec::new();
    let mut from: usize = 0;
    assert(texts(out@) + rows_from(chars@, 0) =~= rows_of(chars@));
    while from < chars.len()
        invariant
            chars@ == text@,
            texts(out@) + rows_from(chars@, from as int) == rows_of(chars@),
        decreases chars.len() - from,
    {
        let end = end_of_line(&chars, from);
        let stop: usize = if from < end && end < chars.len() && chars[end - 1] == '\r' {
            end - 1
        } else {
            end
        };
        let row = string_of(&chars, from, stop);
        let ghost before = texts(out@);
        out.push(row);
        proof {
            lemma_line_end(chars@, from as int);
            assert(texts(out@) =~= before.push(chars@.subrange(from as int, stop as int)));
            assert(before.push(chars@.subrange(from as int, stop as int)) + rows_from(
                chars@,
                end + 1,
            ) =~= before + (seq![chars@.subrange(from as int, stop as int)] + rows_from(
                chars@,
                end + 1,
            )));
        }
        if end >= chars.len() {
            return out;
        }
        from = end + 1;
    }
    assert(texts(out@) + Seq::<Seq<char>>::empty() =~= texts(out@));
    out
}

impl Config {
    /// The settings made of the answers to the four questions of the
    /// set-up: the nickname, the host, the port as it was typed, and the
    /// channels to join, one to a line. `None` where the port is no port.
    pub fn from_answers(
        nickname: String,
        server_hostname: String,
        port: &str,
        channels: &str,
    ) -> (config: Option<Config>)
        ensures
            match config {
                Some(made) => answered(nickname@, server_hostname@, port@, channels@) == Some(
                    made@,
                ),
                None => answered(nickname@, server_hostname@, port@, channels@) is None,
            },
    {
        match parse_port(port) {
            Some(server_port) => Some(
                Config {
                    nickname,
                    server_hostname,
                    server_port,
                    autojoin_channels: text_rows(channels),
                },
            ),
            None => None,
        }
    }
}

} // verus!
