use grairc::irc::event::{classify, IrcEvent};
use regex::Regex;

fn text(s: &str) -> String {
    s.to_string()
}

/// The four forms that carry fields, written as regular expressions.
struct Expressions {
    chat: Regex,
    names: Regex,
    part: Regex,
    join: Regex,
}

fn expressions() -> Expressions {
    Expressions {
        chat: Regex::new(r":(.*)!(.*)@(.*) PRIVMSG (.*) :(.*)").unwrap(),
        names: Regex::new(r":(.*) 353 (.*) (.{1}) (.*) :(.*)").unwrap(),
        part: Regex::new(r":(.*)!(.*)@(.*) PART (.*) :(.*)").unwrap(),
        join: Regex::new(r":(.*)!(.*)@(.*) JOIN :?(.*)").unwrap(),
    }
}

/// What a line says, read with the regular expressions.
fn by_expression(forms: &Expressions, line: &str) -> IrcEvent {
    let Expressions { chat, names, part, join } = forms;
    if line.starts_with("PING") {
        return IrcEvent::Ping { reply: format!("PONG{}", &line[4..]) };
    }
    if let Some(found) = chat.captures(line) {
        return IrcEvent::Chat {
            nick: text(&found[1]),
            target: text(&found[4]),
            content: text(&found[5]),
        };
    }
    if let Some(found) = names.captures(line) {
        return IrcEvent::Names {
            target: text(&found[4]),
            names: found[5].split_whitespace().map(text).collect(),
        };
    }
    if let Some(found) = join.captures(line) {
        return IrcEvent::Join { nick: text(&found[1]), target: text(&found[4]) };
    }
    if let Some(found) = part.captures(line) {
        return IrcEvent::Part { nick: text(&found[1]), target: text(&found[4]) };
    }
    if line.starts_with(':') {
        return match line.split_once(" :") {
            Some((_, trailing)) => IrcEvent::Notice { text: text(trailing) },
            None => IrcEvent::Notice { text: text(line) },
        };
    }
    IrcEvent::Other
}

struct Dice(u64);

impl Dice {
    fn roll(&mut self, sides: usize) -> usize {
        self.0 = self.0.wrapping_mul(6364136223846793005).wrapping_add(1442695040888963407);
        ((self.0 >> 33) as usize) % sides
    }
}

const PIECES: [&str; 36] = [
    ":", "!", "@", " ", "#", "\n", "\r", "a", "bob", "=", "*", " :", " PRIVMSG ", " JOIN ",
    " PART ", " 353 ", "PING", "PRIVMSG", "JOIN", "353", "\u{e9}", "\u{3000}", "\t", "  ", "::",
    " = ", "#test", "u@h", "x!y", "\u{fffd}", " PRIVMSG", "PART ", " 353", "G ", " J", "\r\n",
];

fn random_line(dice: &mut Dice) -> String {
    let count: usize = dice.roll(14);
    let mut line = String::new();
    for _ in 0..count {
        line.push_str(PIECES[dice.roll(PIECES.len())]);
    }
    line
}

#[test]
fn classify_agrees_with_the_expressions_on_random_lines() {
    let forms = expressions();
    let mut dice = Dice(0x5eed);
    for _ in 0..40000 {
        let line = random_line(&mut dice);
        assert_eq!(classify(&line), by_expression(&forms, &line), "line {:?}", line);
    }
}

#[test]
fn classify_agrees_with_the_expressions_on_likely_lines() {
    let forms = expressions();
    let mut dice = Dice(0xfeed);
    let heads = [":bob!u@h", ":a!b!c@d@e", ":irc.example.com", "junk :n!u@h", ":!@", ""];
    let verbs = [" PRIVMSG ", " JOIN ", " PART ", " 353 me = ", " 353  = ", " NOTICE "];
    let tails = ["#test :hello", ":#test", "#test", "#a :b :c", " :", "#t :x\ny", "#t\n :x", ""];
    for head in heads.iter() {
        for verb in verbs.iter() {
            for tail in tails.iter() {
                let line = format!("{}{}{}", head, verb, tail);
                assert_eq!(classify(&line), by_expression(&forms, &line), "line {:?}", line);
                let noisy = format!("{}{}{}", line, random_line(&mut dice), line);
                assert_eq!(classify(&noisy), by_expression(&forms, &noisy), "line {:?}", noisy);
            }
        }
    }
}

#[test]
fn classify_agrees_with_the_expressions_on_short_lines() {
    let forms = expressions();
    let letters = [':', '!', '@', ' ', '\n', 'x'];
    let mut line: Vec<char> = Vec::new();
    let mut count: u32 = 0;
    for length in 0usize..8 {
        let mut digits = vec![0usize; length];
        loop {
            line.clear();
            for d in digits.iter() {
                line.push(letters[*d]);
            }
            let text: String = line.iter().collect();
            assert_eq!(classify(&text), by_expression(&forms, &text), "line {:?}", text);
            count += 1;
            let mut place: usize = 0;
            while place < length && digits[place] + 1 == letters.len() {
                digits[place] = 0;
                place += 1;
            }
            if place == length {
                break;
            }
            digits[place] += 1;
        }
    }
    assert_eq!(count, 1 + 6 + 36 + 216 + 1296 + 7776 + 46656 + 279936);
}

#[test]
fn ping_is_answered_with_pong() {
    assert_eq!(classify("PING :token"), IrcEvent::Ping { reply: text("PONG :token") });
}

#[test]
fn ping_changes_the_leading_token_alone() {
    assert_eq!(classify("PING :PINGSRV"), IrcEvent::Ping { reply: text("PONG :PINGSRV") });
    assert_eq!(
        classify("PING :PINGPING x PIN PING"),
        IrcEvent::Ping { reply: text("PONG :PINGPING x PIN PING") }
    );
    assert_eq!(classify("PINGPING"), IrcEvent::Ping { reply: text("PONGPING") });
    assert_eq!(classify("PING"), IrcEvent::Ping { reply: text("PONG") });
    assert_eq!(classify("PING\u{e9}"), IrcEvent::Ping { reply: text("PONG\u{e9}") });
}

#[test]
fn ping_must_stand_at_the_start() {
    assert_eq!(classify(" PING :token"), IrcEvent::Other);
    assert_eq!(classify("PIN"), IrcEvent::Other);
    assert_eq!(classify("ping :token"), IrcEvent::Other);
}

#[test]
fn chat_line_gives_nick_target_and_content() {
    assert_eq!(
        classify(":bob!u@h PRIVMSG #test :hello"),
        IrcEvent::Chat { nick: text("bob"), target: text("#test"), content: text("hello") }
    );
}

#[test]
fn chat_content_may_hold_colons_and_spaces() {
    assert_eq!(
        classify(":bob!u@h PRIVMSG #test :see you :at 10"),
        IrcEvent::Chat {
            nick: text("bob"),
            target: text("#test :see you"),
            content: text("at 10"),
        }
    );
}

#[test]
fn chat_wins_over_the_forms_after_it() {
    assert_eq!(
        classify(":a!b@c JOIN #x PRIVMSG #y :z"),
        IrcEvent::Chat { nick: text("a"), target: text("#y"), content: text("z") }
    );
}

#[test]
fn name_list_gives_target_and_names() {
    assert_eq!(
        classify(":irc.example.com 353 me = #test :alice bob carol"),
        IrcEvent::Names {
            target: text("#test"),
            names: vec![text("alice"), text("bob"), text("carol")],
        }
    );
}

#[test]
fn name_list_names_are_cut_at_any_white_space() {
    assert_eq!(
        classify(":s 353 me @ #t :  a\tb \u{3000}c  "),
        IrcEvent::Names { target: text("#t"), names: vec![text("a"), text("b"), text("c")] }
    );
    assert_eq!(
        classify(":s 353 me @ #t :"),
        IrcEvent::Names { target: text("#t"), names: vec![] }
    );
}

#[test]
fn name_list_symbol_is_one_character() {
    assert_eq!(
        classify(":s 353 me == #t :a"),
        IrcEvent::Notice { text: text("a") }
    );
    assert_eq!(
        classify(":s 353 me = x = #t :a"),
        IrcEvent::Names { target: text("#t"), names: vec![text("a")] }
    );
    assert_eq!(
        classify(":s 353 me = #t y z :a"),
        IrcEvent::Names { target: text("z"), names: vec![text("a")] }
    );
}

#[test]
fn join_takes_the_target_with_or_without_colon() {
    assert_eq!(
        classify(":alice!u@h JOIN :#test"),
        IrcEvent::Join { nick: text("alice"), target: text("#test") }
    );
    assert_eq!(
        classify(":alice!u@h JOIN #test"),
        IrcEvent::Join { nick: text("alice"), target: text("#test") }
    );
    assert_eq!(
        classify(":alice!u@h JOIN ::#test"),
        IrcEvent::Join { nick: text("alice"), target: text(":#test") }
    );
}

#[test]
fn part_gives_nick_and_target() {
    assert_eq!(
        classify(":alice!u@h PART #test :bye"),
        IrcEvent::Part { nick: text("alice"), target: text("#test") }
    );
}

#[test]
fn part_without_reason_is_server_text() {
    assert_eq!(
        classify(":alice!u@h PART #test"),
        IrcEvent::Notice { text: text(":alice!u@h PART #test") }
    );
}

#[test]
fn server_line_gives_the_text_after_the_first_colon() {
    assert_eq!(
        classify(":irc.example.com 001 me :Welcome to :IRC"),
        IrcEvent::Notice { text: text("Welcome to :IRC") }
    );
    assert_eq!(
        classify(":irc.example.com 004 me"),
        IrcEvent::Notice { text: text(":irc.example.com 004 me") }
    );
}

#[test]
fn other_lines_are_not_recognised() {
    assert_eq!(classify(""), IrcEvent::Other);
    assert_eq!(classify("NOTICE AUTH :hi"), IrcEvent::Other);
    assert_eq!(classify("ERROR :Closing link"), IrcEvent::Other);
}

#[test]
fn a_form_may_begin_after_other_text() {
    assert_eq!(
        classify("x :bob!u@h PRIVMSG #test :hello"),
        IrcEvent::Chat { nick: text("bob"), target: text("#test"), content: text("hello") }
    );
}

#[test]
fn fields_take_all_the_text_they_can() {
    assert_eq!(
        classify(":a!b!c@d@e PRIVMSG #x PRIVMSG #y :1 :2"),
        IrcEvent::Chat { nick: text("a!b"), target: text("#y :1"), content: text("2") }
    );
}

#[test]
fn a_form_does_not_reach_over_a_line_feed() {
    assert_eq!(
        classify(":bob!u@h PRIVMSG\n #test :hello"),
        IrcEvent::Notice { text: text("hello") }
    );
    assert_eq!(
        classify("a\n:bob!u@h PRIVMSG #test :hello\nrest"),
        IrcEvent::Chat { nick: text("bob"), target: text("#test"), content: text("hello") }
    );
}
