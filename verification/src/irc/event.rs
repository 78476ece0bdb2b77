//! What a line from the server says.
//!
//! A line is one of a handful of forms, tried in this order; the first that
//! fits decides:
//!
//! 1. a keep-alive: the line begins with `PING`, and is answered with
//!    `PONG` and what follows that `PING`;
//! 2. chat: `:<nick>!<user>@<host> PRIVMSG <target> :<content>`;
//! 3. a name list: `:<server> 353 <client> <symbol> <target> :<names>`,
//!    where `<symbol>` is a single character;
//! 4. a join: `:<nick>!<user>@<host> JOIN <target>`, with or without a
//!    colon before the target;
//! 5. a part: `:<nick>!<user>@<host> PART <target> :<reason>`;
//! 6. any other line that begins with `:`, taken as text from the server;
//! 7. anything else.
//!
//! Forms 2 to 5 may begin anywhere in the line.

use vstd::prelude::*;
use crate::irc::pattern::anchor_at;
use crate::irc::pattern::anchor_views;
use crate::irc::pattern::Atom;
use crate::irc::pattern::atom_accepts;
use crate::irc::pattern::chain_end;
use crate::irc::pattern::field;
use crate::irc::pattern::find_chain;
use crate::irc::pattern::fits;
use crate::irc::pattern::has_chain;
use crate::irc::pattern::is_chain;
use crate::irc::pattern::best_chain;
use crate::irc::pattern::lemma_chain_ordered;
use crate::irc::pattern::lemma_first_line_chain;
use crate::irc::pattern::lemma_literal_at;
use crate::irc::pattern::lemma_literal_fits;
use crate::irc::pattern::lemma_no_chain_without;
use crate::irc::pattern::lemma_the_chain;
use crate::irc::pattern::lemma_woven_chain;
use crate::irc::pattern::lemma_woven_feedless;
use crate::irc::pattern::lemma_woven_push;
use crate::irc::pattern::literal;
use crate::irc::pattern::literal_anchor;
use crate::irc::pattern::places;
use crate::irc::pattern::positions;
use crate::irc::pattern::tail;
use crate::irc::pattern::the_chain;
use crate::irc::pattern::well_woven;
use crate::irc::pattern::woven;
use crate::text::chars_of;
use crate::text::end_of_line;
use crate::text::find;
use crate::text::first_occurrence;
use crate::text::has_prefix;
use crate::text::lemma_first_occurrence;
use crate::text::lemma_line_end;
use crate::text::line_end;
use crate::text::occurs_at;
use crate::text::one_line;
use crate::text::slice_of;
use crate::text::split_words;
use crate::text::starts_with;
use crate::text::string_from;
use crate::text::string_of;
use crate::text::texts;
use crate::text::words;

verus! {

/// What a line says, with the parts of it that the client uses.
#[derive(PartialEq, Eq, Clone, Debug)]
pub enum IrcEvent {
    /// A keep-alive, with the line to answer it with.
    Ping { reply: String },
    /// `nick` said `content` to `target`.
    Chat { nick: String, target: String, content: String },
    /// The users of `target`.
    Names { target: String, names: Vec<String> },
    /// `nick` joined `target`.
    Join { nick: String, target: String },
    /// `nick` left `target`.
    Part { nick: String, target: String },
    /// Text from the server.
    Notice { text: String },
    /// A line of no known form.
    Other,
}

/// The mathematical value of an [`IrcEvent`].
pub enum EventView {
    Ping { reply: Seq<char> },
    Chat { nick: Seq<char>, target: Seq<char>, content: Seq<char> },
    Names { target: Seq<char>, names: Seq<Seq<char>> },
    Join { nick: Seq<char>, target: Seq<char> },
    Part { nick: Seq<char>, target: Seq<char> },
    Notice { text: Seq<char> },
    Other,
}

impl View for IrcEvent {
    type V = EventView;

    open spec fn view(&self) -> EventView {
        match self {
            IrcEvent::Ping { reply } => EventView::Ping { reply: reply@ },
            IrcEvent::Chat { nick, target, content } => EventView::Chat {
                nick: nick@,
                target: target@,
                content: content@,
            },
            IrcEvent::Names { target, names } => EventView::Names {
                target: target@,
                names: texts(names@),
            },
            IrcEvent::Join { nick, target } => EventView::Join { nick: nick@, target: target@ },
            IrcEvent::Part { nick, target } => EventView::Part { nick: nick@, target: target@ },
            IrcEvent::Notice { text } => EventView::Notice { text: text@ },
            IrcEvent::Other => EventView::Other,
        }
    }
}

/// The anchors of a line that a user caused:
/// `:<nick>!<user>@<host><verb><target>`, followed by ` :<rest>` where the
/// form has a trailing part. `verb` holds the spaces around the command.
pub open spec fn user_anchors(verb: Seq<char>, trailing: bool) -> Seq<Seq<Atom>> {
    let head = seq![literal(":"@), literal("!"@), literal("@"@), literal(verb)];
    if trailing {
        head.push(literal(" :"@))
    } else {
        head
    }
}

/// `:<nick>!<user>@<host> PRIVMSG <target> :<content>`
pub open spec fn chat_anchors() -> Seq<Seq<Atom>> {
    user_anchors(" PRIVMSG "@, true)
}

/// `:<nick>!<user>@<host> JOIN <target>`
pub open spec fn join_anchors() -> Seq<Seq<Atom>> {
    user_anchors(" JOIN "@, false)
}

/// `:<nick>!<user>@<host> PART <target> :<reason>`
pub open spec fn part_anchors() -> Seq<Seq<Atom>> {
    user_anchors(" PART "@, true)
}

/// A space, any one character, a space: the symbol of a name list.
pub open spec fn symbol_anchor() -> Seq<Atom> {
    seq![Some(' '), None, Some(' ')]
}

/// `:<server> 353 <client> <symbol> <target> :<names>`
pub open spec fn names_anchors() -> Seq<Seq<Atom>> {
    seq![literal(":"@), literal(" 353 "@), symbol_anchor(), literal(" :"@)]
}

/// The target of a join: what follows the command, less one leading colon.
pub open spec fn join_target(rest: Seq<char>) -> Seq<char> {
    if rest.len() > 0 && rest[0] == ':' {
        rest.skip(1)
    } else {
        rest
    }
}

/// The text of a server line: what follows the first ` :`, or the whole
/// line where it has none.
pub open spec fn notice_text(line: Seq<char>) -> Seq<char> {
    match first_occurrence(line, " :"@, 0) {
        Some(k) => line.skip(k + 2),
        None => line,
    }
}

/// The answer to a keep-alive: the line with `PONG` in place of the `PING`
/// it begins with, and the rest as it stands.
pub open spec fn pong(line: Seq<char>) -> Seq<char> {
    "PONG"@ + line.skip(4)
}

/// What `line` says.
pub open spec fn classified(line: Seq<char>) -> EventView {
    if starts_with(line, "PING"@) {
        EventView::Ping { reply: pong(line) }
    } else if has_chain(line, chat_anchors()) {
        let at = the_chain(line, chat_anchors());
        EventView::Chat {
            nick: field(line, chat_anchors(), at, 0),
            target: field(line, chat_anchors(), at, 3),
            content: tail(line, chat_anchors(), at),
        }
    } else if has_chain(line, names_anchors()) {
        let at = the_chain(line, names_anchors());
        EventView::Names {
            target: field(line, names_anchors(), at, 2),
            names: words(tail(line, names_anchors(), at)),
        }
    } else if has_chain(line, join_anchors()) {
        let at = the_chain(line, join_anchors());
        EventView::Join {
            nick: field(line, join_anchors(), at, 0),
            target: join_target(tail(line, join_anchors(), at)),
        }
    } else if has_chain(line, part_anchors()) {
        let at = the_chain(line, part_anchors());
        EventView::Part {
            nick: field(line, part_anchors(), at, 0),
            target: field(line, part_anchors(), at, 3),
        }
    } else if starts_with(line, ":"@) {
        EventView::Notice { text: notice_text(line) }
    } else {
        EventView::Other
    }
}

/// The anchors of a line that a user caused.
pub fn user_pattern(verb: &str, trailing: bool) -> (anchors: Vec<Vec<Atom>>)
    ensures
        anchor_views(anchors@) == user_anchors(verb@, trailing),
{
    let mut anchors: Vec<Vec<Atom>> = Vec::new();
    anchors.push(literal_anchor(":"));
    anchors.push(literal_anchor("!"));
    anchors.push(literal_anchor("@"));
    anchors.push(literal_anchor(verb));
    if trailing {
        anchors.push(literal_anchor(" :"));
    }
    assert(anchor_views(anchors@) =~= user_anchors(verb@, trailing));
    anchors
}

/// The anchors of a name list.
pub fn names_pattern() -> (anchors: Vec<Vec<Atom>>)
    ensures
        anchor_views(anchors@) == names_anchors(),
{
    let mut symbol: Vec<Atom> = Vec::new();
    symbol.push(Some(' '));
    symbol.push(None);
    symbol.push(Some(' '));
    assert(symbol@ =~= symbol_anchor());
    let mut anchors: Vec<Vec<Atom>> = Vec::new();
    anchors.push(literal_anchor(":"));
    anchors.push(literal_anchor(" 353 "));
    anchors.push(symbol);
    anchors.push(literal_anchor(" :"));
    assert(anchor_views(anchors@) =~= names_anchors());
    anchors
}

/// The field between anchor `i` of a chain and the next.
pub fn field_of(text: &Vec<char>, anchors: &Vec<Vec<Atom>>, at: &Vec<usize>, i: usize) -> (out:
    String)
    requires
        is_chain(text@, anchor_views(anchors@), positions(at@)),
        i + 1 < at.len(),
    ensures
        out@ == field(text@, anchor_views(anchors@), positions(at@), i as int),
{
    proof {
        let ats = positions(at@);
        assert(ats[i as int] + anchor_views(anchors@)[i as int].len() <= ats[i + 1]);
        lemma_chain_ordered(text@, anchor_views(anchors@), ats, i + 1);
    }
    string_of(text, at[i] + anchors[i].len(), at[i + 1])
}

/// The last field of a chain.
pub fn tail_of(text: &Vec<char>, anchors: &Vec<Vec<Atom>>, at: &Vec<usize>) -> (out: Vec<char>)
    requires
        is_chain(text@, anchor_views(anchors@), positions(at@)),
    ensures
        out@ == tail(text@, anchor_views(anchors@), positions(at@)),
{
    let last = at.len() - 1;
    let len = text.len();
    proof {
        let ats = positions(at@);
        lemma_chain_ordered(text@, anchor_views(anchors@), ats, last as int);
        assert(ats.last() == at@[last as int]);
        assert(anchor_views(anchors@).last() == anchors@[last as int]@);
        lemma_line_end(text@, chain_end(anchor_views(anchors@), ats));
        assert(at@[last as int] + anchors@[last as int]@.len() <= len);
    }
    let start = at[last] + anchors[last].len();
    let end = end_of_line(text, start);
    slice_of(text, start, end)
}

/// What `line` says.
pub fn classify(line: &str) -> (event: IrcEvent)
    ensures
        event@ == classified(line@),
{
    let text = chars_of(line);
    classify_chars(&text)
}

/// What the line with the characters `text` says.
pub fn classify_chars(text: &Vec<char>) -> (event: IrcEvent)
    ensures
        event@ == classified(text@),
{
    if has_prefix(text, &chars_of("PING")) {
        proof {
            reveal_strlit("PING");
        }
        let len = text.len();
        let mut reply = "PONG".to_owned();
        let rest = string_of(text, 4, len);
        reply.append(rest.as_str());
        assert(text@.subrange(4, len as int) =~= text@.skip(4));
        return IrcEvent::Ping { reply };
    }
    let chat = user_pattern(" PRIVMSG ", true);
    match find_chain(text, &chat) {
        Some(at) => {
            proof {
                lemma_the_chain(text@, chat_anchors(), positions(at@));
            }
            let content = tail_of(text, &chat, &at);
            return IrcEvent::Chat {
                nick: field_of(text, &chat, &at, 0),
                target: field_of(text, &chat, &at, 3),
                content: string_from(&content),
            };
        },
        None => {},
    }
    let names = names_pattern();
    match find_chain(text, &names) {
        Some(at) => {
            proof {
                lemma_the_chain(text@, names_anchors(), positions(at@));
            }
            let list = tail_of(text, &names, &at);
            return IrcEvent::Names {
                target: field_of(text, &names, &at, 2),
                names: split_words(&list),
            };
        },
        None => {},
    }
    let join = user_pattern(" JOIN ", false);
    match find_chain(text, &join) {
        Some(at) => {
            proof {
                lemma_the_chain(text@, join_anchors(), positions(at@));
            }
            let rest = tail_of(text, &join, &at);
            let begin: usize = if rest.len() > 0 && rest[0] == ':' {
                1
            } else {
                0
            };
            assert(rest@.subrange(begin as int, rest.len() as int) =~= join_target(rest@));
            return IrcEvent::Join {
                nick: field_of(text, &join, &at, 0),
                target: string_of(&rest, begin, rest.len()),
            };
        },
        None => {},
    }
    let part = user_pattern(" PART ", true);
    match find_chain(text, &part) {
        Some(at) => {
            proof {
                lemma_the_chain(text@, part_anchors(), positions(at@));
            }
            return IrcEvent::Part {
                nick: field_of(text, &part, &at, 0),
                target: field_of(text, &part, &at, 3),
            };
        },
        None => {},
    }
    if has_prefix(text, &chars_of(":")) {
        let len = text.len();
        proof {
            reveal_strlit(" :");
            lemma_first_occurrence(text@, " :"@, 0);
        }
        let from: usize = match find(text, &chars_of(" :"), 0) {
            Some(k) => {
                assert(k + 2 <= len);
                k + 2
            },
            None => 0,
        };
        assert(text@.subrange(from as int, len as int) =~= notice_text(text@));
        return IrcEvent::Notice { text: string_of(text, from, len) };
    }
    IrcEvent::Other
}

/// `s` holds no line feed.
pub open spec fn no_feed(s: Seq<char>) -> bool {
    one_line(s, 0, s.len() as int)
}

/// A command with the spaces around it: a space, one character or more
/// that are neither spaces nor line feeds, a space.
pub open spec fn is_verb(verb: Seq<char>) -> bool {
    &&& verb.len() >= 3
    &&& verb[0] == ' '
    &&& verb.last() == ' '
    &&& forall|k: int| 0 < k < verb.len() - 1 ==> #[trigger] verb[k] != ' '
    &&& no_feed(verb)
}

/// The parts of a line that a user caused are such that the line reads
/// back as them: none holds a line feed, the user name holds no `!`, the
/// host no `@`, the target no space, and the trailing part no ` :`.
pub open spec fn reads_back(
    nick: Seq<char>,
    user: Seq<char>,
    host: Seq<char>,
    target: Seq<char>,
    rest: Option<Seq<char>>,
) -> bool {
    &&& no_feed(nick)
    &&& no_feed(user)
    &&& no_feed(host)
    &&& no_feed(target)
    &&& !user.contains('!')
    &&& !host.contains('@')
    &&& !target.contains(' ')
    &&& match rest {
        Some(trailing) => no_feed(trailing) && forall|q: int| !occurs_at(trailing, " :"@, q),
        None => true,
    }
}

/// The pieces of a line that a user caused.
pub open spec fn user_pieces(verb: Seq<char>, trailing: bool) -> Seq<Seq<char>> {
    let head = seq![":"@, "!"@, "@"@, verb];
    if trailing {
        head.push(" :"@)
    } else {
        head
    }
}

/// The fields of a line that a user caused.
pub open spec fn user_fields(
    nick: Seq<char>,
    user: Seq<char>,
    host: Seq<char>,
    target: Seq<char>,
    rest: Option<Seq<char>>,
) -> Seq<Seq<char>> {
    let head = seq![nick, user, host, target];
    match rest {
        Some(trailing) => head.push(trailing),
        None => head,
    }
}

/// The line `:<nick>!<user>@<host><verb><target>`, with ` :<rest>` after
/// it where there is a trailing part.
pub open spec fn user_form(
    verb: Seq<char>,
    nick: Seq<char>,
    user: Seq<char>,
    host: Seq<char>,
    target: Seq<char>,
    rest: Option<Seq<char>>,
) -> Seq<char> {
    let head = ":"@ + nick + "!"@ + user + "@"@ + host + verb + target;
    match rest {
        Some(trailing) => head + " :"@ + trailing,
        None => head,
    }
}

/// The line of a user is its pieces and fields woven.
proof fn lemma_user_form_woven(
    verb: Seq<char>,
    nick: Seq<char>,
    user: Seq<char>,
    host: Seq<char>,
    target: Seq<char>,
    rest: Option<Seq<char>>,
)
    ensures
        user_form(verb, nick, user, host, target, rest) == woven(
            user_pieces(verb, rest is Some),
            user_fields(nick, user, host, target, rest),
        ),
{
    let none = Seq::<Seq<char>>::empty();
    lemma_woven_push(none, none, ":"@, nick);
    lemma_woven_push(seq![":"@], seq![nick], "!"@, user);
    lemma_woven_push(seq![":"@, "!"@], seq![nick, user], "@"@, host);
    lemma_woven_push(seq![":"@, "!"@, "@"@], seq![nick, user, host], verb, target);
    assert(none.push(":"@) =~= seq![":"@]);
    assert(none.push(nick) =~= seq![nick]);
    assert(seq![":"@].push("!"@) =~= seq![":"@, "!"@]);
    assert(seq![nick].push(user) =~= seq![nick, user]);
    assert(seq![":"@, "!"@].push("@"@) =~= seq![":"@, "!"@, "@"@]);
    assert(seq![nick, user].push(host) =~= seq![nick, user, host]);
    assert(seq![":"@, "!"@, "@"@].push(verb) =~= seq![":"@, "!"@, "@"@, verb]);
    assert(seq![nick, user, host].push(target) =~= seq![nick, user, host, target]);
    assert(woven(none, none) + ":"@ + nick =~= ":"@ + nick);
    match rest {
        Some(trailing) => {
            lemma_woven_push(
                seq![":"@, "!"@, "@"@, verb],
                seq![nick, user, host, target],
                " :"@,
                trailing,
            );
        },
        None => {},
    }
}

/// The parts of a line that reads back are well woven.
proof fn lemma_user_form_well_woven(
    verb: Seq<char>,
    nick: Seq<char>,
    user: Seq<char>,
    host: Seq<char>,
    target: Seq<char>,
    rest: Option<Seq<char>>,
)
    requires
        is_verb(verb),
        reads_back(nick, user, host, target, rest),
    ensures
        well_woven(
            user_pieces(verb, rest is Some),
            user_fields(nick, user, host, target, rest),
            user_anchors(verb, rest is Some),
        ),
{
    let pieces = user_pieces(verb, rest is Some);
    let fields = user_fields(nick, user, host, target, rest);
    let anchors = user_anchors(verb, rest is Some);
    reveal_strlit(":");
    reveal_strlit("!");
    reveal_strlit("@");
    reveal_strlit(" :");
    assert forall|i: int| 0 <= i < pieces.len() implies fits(#[trigger] pieces[i], anchors[i]) by {
        lemma_literal_fits(pieces[i]);
    }
    assert forall|i: int| 0 <= i < pieces.len() implies one_line(
        #[trigger] pieces[i],
        0,
        pieces[i].len() as int,
    ) by {}
    assert forall|i: int| 0 <= i < fields.len() implies one_line(
        #[trigger] fields[i],
        0,
        fields[i].len() as int,
    ) by {}
    assert forall|i: int, q: int| 1 <= i < pieces.len() implies !#[trigger] anchor_at(
        pieces[i].skip(1) + fields[i],
        anchors[i],
        q,
    ) by {
        let after = pieces[i].skip(1) + fields[i];
        lemma_literal_at(after, pieces[i], q);
        if occurs_at(after, pieces[i], q) {
            let found = after.subrange(q, q + pieces[i].len());
            assert(found[0] == pieces[i][0]);
            if i == 1 {
                assert(user[q] == '!');
            } else if i == 2 {
                assert(host[q] == '@');
            } else if i == 3 {
                assert(found[verb.len() - 1] == verb.last());
                assert(after[q] == ' ');
                assert(after[q + verb.len() - 1] == ' ');
                if q < verb.len() - 1 {
                    assert(after[q] == verb[q + 1]);
                } else {
                    assert(after[q] == target[q - (verb.len() - 1)]);
                }
                assert(after[q + verb.len() - 1] == target[q]);
            } else {
                assert(found[1] == " :"@[1]);
                if q == 0 {
                    assert(after[0] == ':');
                } else {
                    let trailing = rest->0;
                    assert(trailing.subrange(q - 1, q - 1 + 2) =~= found);
                    assert(occurs_at(trailing, " :"@, q - 1));
                }
            }
        }
    }
}

/// A line of a user begins with a colon.
proof fn lemma_user_form_head(
    verb: Seq<char>,
    nick: Seq<char>,
    user: Seq<char>,
    host: Seq<char>,
    target: Seq<char>,
    rest: Option<Seq<char>>,
)
    ensures
        user_form(verb, nick, user, host, target, rest).len() > 0,
        user_form(verb, nick, user, host, target, rest)[0] == ':',
{
    reveal_strlit(":");
    let start = ":"@ + nick;
    assert(start[0] == ':');
    let head = start + "!"@ + user + "@"@ + host + verb + target;
    assert(head[0] == start[0]);
    match rest {
        Some(trailing) => {
            assert((head + " :"@ + trailing)[0] == head[0]);
        },
        None => {},
    }
}

/// A line of a user that reads back has its pieces for the chain that
/// counts.
proof fn lemma_user_form_places(
    verb: Seq<char>,
    nick: Seq<char>,
    user: Seq<char>,
    host: Seq<char>,
    target: Seq<char>,
    rest: Option<Seq<char>>,
)
    requires
        is_verb(verb),
        reads_back(nick, user, host, target, rest),
    ensures
        ({
            let line = user_form(verb, nick, user, host, target, rest);
            let anchors = user_anchors(verb, rest is Some);
            let pieces = user_pieces(verb, rest is Some);
            let fields = user_fields(nick, user, host, target, rest);
            &&& line == woven(pieces, fields)
            &&& best_chain(line, anchors, places(pieces, fields))
            &&& has_chain(line, anchors)
            &&& the_chain(line, anchors) == places(pieces, fields)
            &&& no_feed(line)
            &&& forall|i: int|
                0 <= i < fields.len() - 1 ==> #[trigger] field(
                    line,
                    anchors,
                    places(pieces, fields),
                    i,
                ) == fields[i]
            &&& tail(line, anchors, places(pieces, fields)) == fields.last()
        }),
{
    let pieces = user_pieces(verb, rest is Some);
    let fields = user_fields(nick, user, host, target, rest);
    let anchors = user_anchors(verb, rest is Some);
    let line = user_form(verb, nick, user, host, target, rest);
    lemma_user_form_woven(verb, nick, user, host, target, rest);
    lemma_user_form_well_woven(verb, nick, user, host, target, rest);
    lemma_woven_chain(pieces, fields, anchors);
    lemma_the_chain(line, anchors, places(pieces, fields));
    lemma_woven_feedless(pieces, fields, anchors);
}

/// A line of a user that reads back has its parts for the fields of the
/// chain that counts.
pub proof fn lemma_user_form_chain(
    verb: Seq<char>,
    nick: Seq<char>,
    user: Seq<char>,
    host: Seq<char>,
    target: Seq<char>,
    rest: Option<Seq<char>>,
)
    requires
        is_verb(verb),
        reads_back(nick, user, host, target, rest),
    ensures
        ({
            let line = user_form(verb, nick, user, host, target, rest);
            let anchors = user_anchors(verb, rest is Some);
            let at = the_chain(line, anchors);
            &&& has_chain(line, anchors)
            &&& field(line, anchors, at, 0) == nick
            &&& match rest {
                Some(trailing) => field(line, anchors, at, 3) == target && tail(line, anchors, at)
                    == trailing,
                None => tail(line, anchors, at) == target,
            }
            &&& line.len() > 0
            &&& line[0] == ':'
            &&& no_feed(line)
        }),
{
    let pieces = user_pieces(verb, rest is Some);
    let fields = user_fields(nick, user, host, target, rest);
    let anchors = user_anchors(verb, rest is Some);
    let line = user_form(verb, nick, user, host, target, rest);
    let at = places(pieces, fields);
    lemma_user_form_places(verb, nick, user, host, target, rest);
    lemma_user_form_head(verb, nick, user, host, target, rest);
    assert(field(line, anchors, at, 0) == fields[0]);
    if rest is Some {
        assert(field(line, anchors, at, 3) == fields[3]);
    }
}

/// `what` stands nowhere in `line`.
pub open spec fn free_of(line: Seq<char>, what: Seq<char>) -> bool {
    forall|p: int| !occurs_at(line, what, p)
}

/// The commands of the forms are verbs.
proof fn lemma_verbs_hold()
    ensures
        is_verb(" PRIVMSG "@),
        is_verb(" JOIN "@),
        is_verb(" PART "@),
{
    reveal_strlit(" PRIVMSG ");
    reveal_strlit(" JOIN ");
    reveal_strlit(" PART ");
}

/// A line that begins with a colon is no keep-alive.
proof fn lemma_colon_is_no_ping(line: Seq<char>)
    requires
        line.len() > 0,
        line[0] == ':',
    ensures
        !starts_with(line, "PING"@),
{
    reveal_strlit("PING");
    if starts_with(line, "PING"@) {
        assert(line.take(4)[0] == 'P');
    }
}

/// The chat line `:<nick>!<user>@<host> PRIVMSG <target> :<content>` says
/// that `nick` said `content` to `target`, whenever its parts read back.
pub proof fn lemma_chat_line(
    nick: Seq<char>,
    user: Seq<char>,
    host: Seq<char>,
    target: Seq<char>,
    content: Seq<char>,
)
    requires
        reads_back(nick, user, host, target, Some(content)),
    ensures
        classified(user_form(" PRIVMSG "@, nick, user, host, target, Some(content)))
            == (EventView::Chat { nick, target, content }),
        no_feed(user_form(" PRIVMSG "@, nick, user, host, target, Some(content))),
        user_form(" PRIVMSG "@, nick, user, host, target, Some(content)).len() > 0,
{
    let line = user_form(" PRIVMSG "@, nick, user, host, target, Some(content));
    lemma_verbs_hold();
    lemma_user_form_chain(" PRIVMSG "@, nick, user, host, target, Some(content));
    lemma_colon_is_no_ping(line);
}

/// The join line `:<nick>!<user>@<host> JOIN <target>`, with or without a
/// colon before the target, says that `nick` joined `target`, whenever its
/// parts read back and the line holds neither ` PRIVMSG ` nor ` 353 `.
pub proof fn lemma_join_line(
    nick: Seq<char>,
    user: Seq<char>,
    host: Seq<char>,
    target: Seq<char>,
    colon: bool,
)
    requires
        reads_back(nick, user, host, target, None),
        target.len() > 0 ==> target[0] != ':',
        free_of(user_form(" JOIN "@, nick, user, host, joining(target, colon), None), " PRIVMSG "@),
        free_of(user_form(" JOIN "@, nick, user, host, joining(target, colon), None), " 353 "@),
    ensures
        classified(user_form(" JOIN "@, nick, user, host, joining(target, colon), None))
            == (EventView::Join { nick, target }),
        no_feed(user_form(" JOIN "@, nick, user, host, joining(target, colon), None)),
        user_form(" JOIN "@, nick, user, host, joining(target, colon), None).len() > 0,
{
    let rest = joining(target, colon);
    let line = user_form(" JOIN "@, nick, user, host, rest, None);
    reveal_strlit(":");
    assert(no_feed(rest) && !rest.contains(' ')) by {
        if colon {
            assert forall|k: int| 0 <= k < rest.len() implies #[trigger] rest[k] != '\n' && rest[k]
                != ' ' by {
                if k > 0 {
                    assert(rest[k] == target[k - 1]);
                    assert(target.contains(target[k - 1]));
                }
            }
        } else {
            assert forall|k: int| 0 <= k < rest.len() implies #[trigger] rest[k] != ' ' by {
                assert(target.contains(target[k]));
            }
        }
    }
    assert(join_target(rest) =~= target);
    lemma_verbs_hold();
    lemma_user_form_chain(" JOIN "@, nick, user, host, rest, None);
    lemma_colon_is_no_ping(line);
    lemma_no_chain_without(line, chat_anchors(), 3, " PRIVMSG "@);
    lemma_no_chain_without(line, names_anchors(), 1, " 353 "@);
}

/// The target of a join as it stands in the line: with a colon before it,
/// or bare.
pub open spec fn joining(target: Seq<char>, colon: bool) -> Seq<char> {
    if colon {
        ":"@ + target
    } else {
        target
    }
}

/// The first line of `s`: what stands before its first line feed.
pub open spec fn first_line(s: Seq<char>) -> Seq<char> {
    s.take(line_end(s, 0))
}

/// None of the forms that are tried before the part form fits `line`.
pub open spec fn part_comes_first(line: Seq<char>) -> bool {
    &&& !has_chain(line, chat_anchors())
    &&& !has_chain(line, names_anchors())
    &&& !has_chain(line, join_anchors())
}

/// The part line `:<nick>!<user>@<host> PART <target> :<reason>` says that
/// `nick` left `target`, whatever the reason is, with two exceptions: a
/// reason whose first line holds ` :`, since the target then takes in the
/// reason up to there, and a reason that makes an earlier form fit the
/// line. The other parts are to read back.
pub proof fn lemma_part_line(
    nick: Seq<char>,
    user: Seq<char>,
    host: Seq<char>,
    target: Seq<char>,
    reason: Seq<char>,
)
    requires
        reads_back(nick, user, host, target, None),
        free_of(first_line(reason), " :"@),
        part_comes_first(user_form(" PART "@, nick, user, host, target, Some(reason))),
    ensures
        classified(user_form(" PART "@, nick, user, host, target, Some(reason)))
            == (EventView::Part { nick, target }),
        user_form(" PART "@, nick, user, host, target, Some(reason)).len() > 0,
{
    let line = user_form(" PART "@, nick, user, host, target, Some(reason));
    let cut = line_end(reason, 0);
    let body = first_line(reason);
    let more = reason.skip(cut);
    let head = user_form(" PART "@, nick, user, host, target, Some(body));
    let anchors = part_anchors();
    let pieces = user_pieces(" PART "@, true);
    let fields = user_fields(nick, user, host, target, Some(body));
    let at = places(pieces, fields);
    lemma_line_end(reason, 0);
    assert(body + more =~= reason);
    assert(no_feed(body)) by {
        assert forall|k: int| 0 <= k < body.len() implies #[trigger] body[k] != '\n' by {
            assert(body[k] == reason[k]);
        }
    }
    if more.len() > 0 {
        assert(more[0] == reason[cut]);
    }
    assert(line =~= head + more);
    lemma_verbs_hold();
    lemma_user_form_places(" PART "@, nick, user, host, target, Some(body));
    lemma_user_form_head(" PART "@, nick, user, host, target, Some(reason));
    lemma_first_line_chain(head, more, anchors, at);
    lemma_the_chain(line, anchors, at);
    assert(field(head, anchors, at, 0) == fields[0]);
    assert(field(head, anchors, at, 3) == fields[3]);
    assert(field(line, anchors, at, 0) == nick);
    assert(field(line, anchors, at, 3) == target);
    lemma_colon_is_no_ping(line);
}

/// A line that holds none of ` PRIVMSG `, ` 353 ` and ` JOIN ` is fitted by
/// none of the forms that are tried before the part form.
pub proof fn lemma_part_comes_first(line: Seq<char>)
    requires
        free_of(line, " PRIVMSG "@),
        free_of(line, " 353 "@),
        free_of(line, " JOIN "@),
    ensures
        part_comes_first(line),
{
    lemma_no_chain_without(line, chat_anchors(), 3, " PRIVMSG "@);
    lemma_no_chain_without(line, names_anchors(), 1, " 353 "@);
    lemma_no_chain_without(line, join_anchors(), 3, " JOIN "@);
}

/// The name list `:<server> 353 <client> <symbol> <target> :<names>`.
pub open spec fn names_form(
    server: Seq<char>,
    client: Seq<char>,
    symbol: char,
    target: Seq<char>,
    names: Seq<char>,
) -> Seq<char> {
    ":"@ + server + " 353 "@ + client + seq![' ', symbol, ' '] + target + " :"@ + names
}

/// The parts of a name list are such that the line reads back as them:
/// none holds a line feed, the client and the target hold no space, and
/// the names no ` :`.
pub open spec fn names_read_back(
    server: Seq<char>,
    client: Seq<char>,
    symbol: char,
    target: Seq<char>,
    names: Seq<char>,
) -> bool {
    &&& no_feed(server)
    &&& no_feed(client)
    &&& no_feed(target)
    &&& no_feed(names)
    &&& symbol != '\n'
    &&& !client.contains(' ')
    &&& !target.contains(' ')
    &&& free_of(names, " :"@)
}

proof fn lemma_names_form_well_woven(
    server: Seq<char>,
    client: Seq<char>,
    symbol: char,
    target: Seq<char>,
    names: Seq<char>,
)
    requires
        names_read_back(server, client, symbol, target, names),
    ensures
        well_woven(
            seq![":"@, " 353 "@, seq![' ', symbol, ' '], " :"@],
            seq![server, client, target, names],
            names_anchors(),
        ),
{
    let pieces = seq![":"@, " 353 "@, seq![' ', symbol, ' '], " :"@];
    let fields = seq![server, client, target, names];
    let anchors = names_anchors();
    reveal_strlit(":");
    reveal_strlit(" 353 ");
    reveal_strlit(" :");
    assert forall|i: int| 0 <= i < pieces.len() implies fits(#[trigger] pieces[i], anchors[i]) by {
        if i != 2 {
            lemma_literal_fits(pieces[i]);
        }
    }
    assert forall|i: int| 0 <= i < pieces.len() implies one_line(
        #[trigger] pieces[i],
        0,
        pieces[i].len() as int,
    ) by {}
    assert forall|i: int| 0 <= i < fields.len() implies one_line(
        #[trigger] fields[i],
        0,
        fields[i].len() as int,
    ) by {}
    assert forall|i: int, q: int| 1 <= i < pieces.len() implies !#[trigger] anchor_at(
        pieces[i].skip(1) + fields[i],
        anchors[i],
        q,
    ) by {
        let after = pieces[i].skip(1) + fields[i];
        if anchor_at(after, anchors[i], q) {
            if i == 1 {
                lemma_literal_at(after, pieces[i], q);
                let found = after.subrange(q, q + 5);
                assert(found[0] == ' ');
                assert(found[4] == ' ');
                assert(after[q] == ' ');
                assert(after[q + 4] == ' ');
                if q >= 4 {
                    assert(after[q] == client[q - 4]);
                }
                assert(after[q + 4] == client[q]);
            } else if i == 2 {
                assert(atom_accepts(anchors[i][2], after[q + 2]));
                assert(after[q + 2] == target[q]);
            } else {
                lemma_literal_at(after, pieces[i], q);
                let found = after.subrange(q, q + 2);
                assert(found[0] == ' ');
                if q == 0 {
                    assert(after[0] == ':');
                } else {
                    assert(names.subrange(q - 1, q - 1 + 2) =~= found);
                    assert(occurs_at(names, " :"@, q - 1));
                }
            }
        }
    }
}

/// The name list `:<server> 353 <client> <symbol> <target> :<names>` gives
/// the words of `names` as the users of `target`, whenever its parts read
/// back and the line holds no ` PRIVMSG `.
pub proof fn lemma_names_line(
    server: Seq<char>,
    client: Seq<char>,
    symbol: char,
    target: Seq<char>,
    names: Seq<char>,
)
    requires
        names_read_back(server, client, symbol, target, names),
        free_of(names_form(server, client, symbol, target, names), " PRIVMSG "@),
    ensures
        classified(names_form(server, client, symbol, target, names)) == (EventView::Names {
            target,
            names: words(names),
        }),
        no_feed(names_form(server, client, symbol, target, names)),
        names_form(server, client, symbol, target, names).len() > 0,
{
    let pieces = seq![":"@, " 353 "@, seq![' ', symbol, ' '], " :"@];
    let fields = seq![server, client, target, names];
    let anchors = names_anchors();
    let line = names_form(server, client, symbol, target, names);
    let none = Seq::<Seq<char>>::empty();
    lemma_woven_push(none, none, ":"@, server);
    lemma_woven_push(seq![":"@], seq![server], " 353 "@, client);
    lemma_woven_push(seq![":"@, " 353 "@], seq![server, client], seq![' ', symbol, ' '], target);
    lemma_woven_push(
        seq![":"@, " 353 "@, seq![' ', symbol, ' ']],
        seq![server, client, target],
        " :"@,
        names,
    );
    assert(none.push(":"@) =~= seq![":"@]);
    assert(none.push(server) =~= seq![server]);
    assert(seq![":"@].push(" 353 "@) =~= seq![":"@, " 353 "@]);
    assert(seq![server].push(client) =~= seq![server, client]);
    assert(seq![":"@, " 353 "@].push(seq![' ', symbol, ' ']) =~= seq![
        ":"@,
        " 353 "@,
        seq![' ', symbol, ' '],
    ]);
    assert(seq![server, client].push(target) =~= seq![server, client, target]);
    assert(seq![":"@, " 353 "@, seq![' ', symbol, ' ']].push(" :"@) =~= pieces);
    assert(seq![server, client, target].push(names) =~= fields);
    assert(woven(none, none) + ":"@ + server =~= ":"@ + server);
    assert(line == woven(pieces, fields));
    lemma_names_form_well_woven(server, client, symbol, target, names);
    lemma_woven_chain(pieces, fields, anchors);
    lemma_woven_feedless(pieces, fields, anchors);
    let at = places(pieces, fields);
    lemma_the_chain(line, anchors, at);
    assert(field(line, anchors, at, 2) == fields[2]);
    reveal_strlit(":");
    assert((":"@ + server)[0] == ':');
    assert(line[0] == (":"@ + server)[0]);
    lemma_colon_is_no_ping(line);
    lemma_no_chain_without(line, chat_anchors(), 3, " PRIVMSG "@);
}

} // verus!
