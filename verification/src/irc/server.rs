//! The session, without the socket.
//!
//! What the server sent comes in as bytes, is cut into lines, and each line
//! changes the channel store or asks for an answer. What the user does
//! comes out as lines to write. Reading and writing are the caller's: the
//! functions here hand over the lines to write and say what to do after a
//! read.

use vstd::prelude::*;
use vstd::utf8::decode_utf8;
use vstd::utf8::valid_utf8;
use crate::irc::effect::applied;
use crate::irc::effect::carried_on;
use crate::irc::effect::lemma_applied_carries_on;
use crate::irc::effect::store_carried_on;
use crate::gfx::renderers::nick_label;
use crate::gfx::renderers::nick_text;
use crate::irc::effect::is_group;
use crate::irc::effect::is_group_name;
use crate::irc::effect::joined_notice;
use crate::irc::effect::left_notice;
use crate::irc::effect::lemma_applied_well_formed;
use crate::irc::effect::lemma_join_adds;
use crate::irc::effect::lemma_part_removes;
use crate::irc::effect::with_message;
use crate::irc::effect::without;
use crate::irc::event::classified;
use crate::irc::event::classify_chars;
use crate::irc::event::EventView;
use crate::irc::event::first_line;
use crate::irc::event::free_of;
use crate::irc::event::part_comes_first;
use crate::irc::event::IrcEvent;
use crate::irc::event::joining;
use crate::irc::event::lemma_chat_line;
use crate::irc::event::lemma_join_line;
use crate::irc::event::lemma_names_line;
use crate::irc::event::lemma_part_line;
use crate::irc::event::names_form;
use crate::irc::event::pong;
use crate::irc::event::names_read_back;
use crate::irc::event::no_feed;
use crate::irc::event::reads_back;
use crate::irc::event::user_form;
use crate::irc::types::ChannelView;
use crate::irc::types::chat_line;
use crate::irc::types::fresh_channel;
use crate::irc::types::status_line;
use crate::state::lemma_first_where;
use crate::state::position_named;
use crate::state::State;
use crate::state::well_formed;
use crate::text::chars_of;
use crate::text::crlf;
use crate::text::first_occurrence;
use crate::text::lemma_no_feed_no_terminator;
use crate::text::lemma_single_line;
use crate::text::occurs_at;
use crate::text::lines;
use crate::text::rows;
use crate::text::split_lines;
use crate::text::string_from;
use crate::text::starts_with;
use crate::text::texts;
use crate::text::words;

verus! {

/// The line to answer `event` with, where it asks for one.
pub open spec fn answer(event: EventView) -> Option<Seq<char>> {
    match event {
        EventView::Ping { reply } => Some(reply),
        _ => None,
    }
}

/// What the console shows for a line, given the store as the line finds
/// it: chat that is recorded, as the nick in a column of twelve, a colon, a
/// space and the content; a line of no known form, as it stands; nothing
/// for any other line.
pub open spec fn shown(channels: Seq<ChannelView>, line: Seq<char>) -> Option<Seq<char>> {
    match classified(line) {
        EventView::Chat { nick, target, content } => if is_group(target) && position_named(
            channels,
            target,
        ) is Some {
            Some(nick_label(nick) + seq![' '] + content)
        } else {
            None
        },
        EventView::Other => Some(line),
        _ => None,
    }
}

/// What the console shows for `event`, which is what `line` says.
fn show(event: &IrcEvent, line: &Vec<char>, state: &State) -> (text: Option<String>)
    requires
        event@ == classified(line@),
    ensures
        match text {
            Some(text) => shown(state@.channels, line@) == Some(text@),
            None => shown(state@.channels, line@) is None,
        },
{
    match event {
        IrcEvent::Chat { nick, target, content } => {
            if is_group_name(target.as_str()) && state.channel_index(target.as_str()).is_some() {
                let mut text = nick_text(nick.as_str());
                text.push(' ');
                text.append(content.as_str());
                Some(text)
            } else {
                None
            }
        },
        IrcEvent::Other => Some(string_from(line)),
        _ => None,
    }
}

/// What the console shows for the line `message`, with the store as it is
/// before the line is handled.
pub fn irc_shown(message: &str, state: &State) -> (text: Option<String>)
    ensures
        match text {
            Some(text) => shown(state@.channels, message@) == Some(text@),
            None => shown(state@.channels, message@) is None,
        },
{
    let line = chars_of(message);
    let event = classify_chars(&line);
    show(&event, &line, state)
}

/// Handles one line from the server: changes `state` as the line asks, and
/// returns the line to write back where it is a keep-alive.
pub fn irc_handler(message: &str, state: &mut State) -> (reply: Option<String>)
    ensures
        final(state)@.channels == applied(old(state)@.channels, classified(message@)),
        final(state)@.config == old(state)@.config,
        final(state)@.battery_state == old(state)@.battery_state,
        well_formed(old(state)@.channels) ==> well_formed(final(state)@.channels),
        match reply {
            Some(line) => answer(classified(message@)) == Some(line@),
            None => answer(classified(message@)) is None,
        },
{
    let text = chars_of(message);
    dispatch(&text, state)
}

/// Handles the line with the characters `line`.
pub fn dispatch(line: &Vec<char>, state: &mut State) -> (reply: Option<String>)
    ensures
        final(state)@.channels == applied(old(state)@.channels, classified(line@)),
        final(state)@.config == old(state)@.config,
        final(state)@.battery_state == old(state)@.battery_state,
        well_formed(old(state)@.channels) ==> well_formed(final(state)@.channels),
        match reply {
            Some(text) => answer(classified(line@)) == Some(text@),
            None => answer(classified(line@)) is None,
        },
{
    let (reply, _) = dispatch_shown(line, state);
    reply
}

/// Handles the line with the characters `line`, and says what the console
/// shows for it.
fn dispatch_shown(line: &Vec<char>, state: &mut State) -> (done: (Option<String>, Option<String>))
    ensures
        final(state)@.channels == applied(old(state)@.channels, classified(line@)),
        final(state)@.config == old(state)@.config,
        final(state)@.battery_state == old(state)@.battery_state,
        well_formed(old(state)@.channels) ==> well_formed(final(state)@.channels),
        match done.0 {
            Some(text) => answer(classified(line@)) == Some(text@),
            None => answer(classified(line@)) is None,
        },
        match done.1 {
            Some(text) => shown(old(state)@.channels, line@) == Some(text@),
            None => shown(old(state)@.channels, line@) is None,
        },
{
    proof {
        if well_formed(state@.channels) {
            lemma_applied_well_formed(state@.channels, classified(line@));
        }
    }
    let event = classify_chars(line);
    let text = show(&event, line, state);
    match event {
        IrcEvent::Ping { reply } => (Some(reply), text),
        event => {
            state.apply(event);
            (None, text)
        },
    }
}

/// The channels after each of `lines` has been handled, in order.
pub open spec fn after_lines(channels: Seq<ChannelView>, lines: Seq<Seq<char>>) -> Seq<
    ChannelView,
>
    decreases lines.len(),
{
    if lines.len() == 0 {
        channels
    } else {
        applied(after_lines(channels, lines.drop_last()), classified(lines.last()))
    }
}

/// The answers that `lines` ask for, in order.
pub open spec fn answers(lines: Seq<Seq<char>>) -> Seq<Seq<char>>
    decreases lines.len(),
{
    if lines.len() == 0 {
        Seq::empty()
    } else {
        match answer(classified(lines.last())) {
            Some(reply) => answers(lines.drop_last()).push(reply),
            None => answers(lines.drop_last()),
        }
    }
}

/// Lines keep a well-formed store well formed.
pub proof fn lemma_after_lines_well_formed(channels: Seq<ChannelView>, lines: Seq<Seq<char>>)
    requires
        well_formed(channels),
    ensures
        well_formed(after_lines(channels, lines)),
    decreases lines.len(),
{
    if lines.len() > 0 {
        lemma_after_lines_well_formed(channels, lines.drop_last());
        lemma_applied_well_formed(
            after_lines(channels, lines.drop_last()),
            classified(lines.last()),
        );
    }
}

/// Lines remove no channel, move none, rename none, change no selection,
/// and take no message away.
pub proof fn lemma_after_lines_carries_on(channels: Seq<ChannelView>, lines: Seq<Seq<char>>)
    ensures
        store_carried_on(channels, after_lines(channels, lines)),
    decreases lines.len(),
{
    if lines.len() > 0 {
        let earlier = after_lines(channels, lines.drop_last());
        let after = after_lines(channels, lines);
        lemma_after_lines_carries_on(channels, lines.drop_last());
        lemma_applied_carries_on(earlier, classified(lines.last()));
        assert forall|j: int| 0 <= j < channels.len() implies carried_on(
            channels[j],
            #[trigger] after[j],
        ) by {
            assert(carried_on(channels[j], earlier[j]));
            assert(carried_on(earlier[j], after[j]));
        }
    } else {
        assert forall|j: int| 0 <= j < channels.len() implies carried_on(
            channels[j],
            #[trigger] channels[j],
        ) by {}
    }
}

/// What the console shows for `lines`, in order, each with the store as
/// the earlier lines have left it.
pub open spec fn all_shown(channels: Seq<ChannelView>, lines: Seq<Seq<char>>) -> Seq<Seq<char>>
    decreases lines.len(),
{
    if lines.len() == 0 {
        Seq::empty()
    } else {
        match shown(after_lines(channels, lines.drop_last()), lines.last()) {
            Some(text) => all_shown(channels, lines.drop_last()).push(text),
            None => all_shown(channels, lines.drop_last()),
        }
    }
}

/// What handling received text leaves for the caller to do.
#[derive(Debug)]
pub struct Handled {
    /// The lines to write back, in order.
    pub replies: Vec<String>,
    /// The lines to show on the console, in order.
    pub shown: Vec<String>,
}

/// `handled` is what handling `lines` leaves to do, for a store that began
/// as `channels`.
pub open spec fn handled_as(
    handled: Handled,
    channels: Seq<ChannelView>,
    lines: Seq<Seq<char>>,
) -> bool {
    texts(handled.replies@) == answers(lines) && texts(handled.shown@) == all_shown(
        channels,
        lines,
    )
}

/// Handles received text: every complete line of it, in order. Returns the
/// lines to write back and the lines to show. Text after the last line
/// terminator is dropped.
pub fn handle_text(text: &str, state: &mut State) -> (handled: Handled)
    ensures
        final(state)@.channels == after_lines(old(state)@.channels, lines(text@)),
        final(state)@.config == old(state)@.config,
        final(state)@.battery_state == old(state)@.battery_state,
        handled_as(handled, old(state)@.channels, lines(text@)),
        well_formed(old(state)@.channels) ==> well_formed(final(state)@.channels),
{
    proof {
        if well_formed(state@.channels) {
            lemma_after_lines_well_formed(state@.channels, lines(text@));
        }
    }
    let chars = chars_of(text);
    let pieces = split_lines(&chars);
    let mut replies: Vec<String> = Vec::new();
    let mut notes: Vec<String> = Vec::new();
    let mut i: usize = 0;
    assert(rows(pieces@).take(0) =~= Seq::<Seq<char>>::empty());
    assert(texts(replies@) =~= Seq::<Seq<char>>::empty());
    assert(texts(notes@) =~= Seq::<Seq<char>>::empty());
    while i < pieces.len()
        invariant
            i <= pieces.len(),
            rows(pieces@) == lines(text@),
            state@.channels == after_lines(old(state)@.channels, rows(pieces@).take(i as int)),
            state@.config == old(state)@.config,
            state@.battery_state == old(state)@.battery_state,
            texts(replies@) == answers(rows(pieces@).take(i as int)),
            texts(notes@) == all_shown(old(state)@.channels, rows(pieces@).take(i as int)),
        decreases pieces.len() - i,
    {
        proof {
            let seen = rows(pieces@).take(i + 1);
            assert(seen.drop_last() =~= rows(pieces@).take(i as int));
            assert(seen.last() == pieces@[i as int]@);
        }
        let ghost replies_before = texts(replies@);
        let ghost notes_before = texts(notes@);
        let (reply, note) = dispatch_shown(&pieces[i], state);
        match reply {
            Some(reply) => {
                replies.push(reply);
                assert(texts(replies@) =~= replies_before.push(reply@));
            },
            None => {},
        }
        match note {
            Some(note) => {
                notes.push(note);
                assert(texts(notes@) =~= notes_before.push(note@));
            },
            None => {},
        }
        i += 1;
    }
    assert(rows(pieces@).take(pieces.len() as int) =~= rows(pieces@));
    Handled { replies, shown: notes }
}

/// The text that received bytes stand for, where what is not UTF-8 has been
/// replaced.
pub uninterp spec fn utf8_lossy(bytes: Seq<u8>) -> Seq<char>;

/// `String::from_utf8_lossy` of the standard library reads bytes as UTF-8
/// text and puts U+FFFD in place of what is not UTF-8. The result depends
/// on the bytes alone; bytes that are UTF-8 throughout read as themselves.
#[verifier::external_body]
fn decode_lossy(bytes: &[u8]) -> (text: String)
    ensures
        text@ == utf8_lossy(bytes@),
        valid_utf8(bytes@) ==> text@ == decode_utf8(bytes@),
{
    String::from_utf8_lossy(bytes).into_owned()
}

/// Handles received bytes: reads them as text and handles that text.
/// Returns the lines to write back and the lines to show.
pub fn handle_bytes(payload: &[u8], state: &mut State) -> (handled: Handled)
    ensures
        final(state)@.channels == after_lines(old(state)@.channels, lines(utf8_lossy(payload@))),
        handled_as(handled, old(state)@.channels, lines(utf8_lossy(payload@))),
        valid_utf8(payload@) ==> final(state)@.channels == after_lines(
            old(state)@.channels,
            lines(decode_utf8(payload@)),
        ) && handled_as(handled, old(state)@.channels, lines(decode_utf8(payload@))),
        final(state)@.config == old(state)@.config,
        final(state)@.battery_state == old(state)@.battery_state,
        well_formed(old(state)@.channels) ==> well_formed(final(state)@.channels),
{
    let text = decode_lossy(payload);
    handle_text(text.as_str(), state)
}

/// What one attempt to read from the socket gave.
#[derive(Debug)]
pub enum ReadOutcome {
    /// The bytes that were read, possibly none.
    Data(Vec<u8>),
    /// Nothing was there to read yet.
    WouldBlock,
    /// The network is down.
    NetworkDown,
    /// The read failed for another reason.
    Failed,
}

/// What the caller is to do once a read has been handled.
#[derive(Debug)]
pub enum Step {
    /// Write the replies and show what is to be shown, each in order, and
    /// go on.
    Continue(Handled),
    /// The link is lost for good: end the session.
    LinkLost,
    /// Report the failed read.
    Fail,
}

/// Handles the outcome of one read. Bytes are handled as `handle_bytes`
/// does; that nothing was there to read is no fault; a network that is down
/// ends the session; any other failure is the caller's to report. Only
/// bytes change the state.
pub fn handler(outcome: ReadOutcome, state: &mut State) -> (step: Step)
    ensures
        final(state)@.config == old(state)@.config,
        final(state)@.battery_state == old(state)@.battery_state,
        well_formed(old(state)@.channels) ==> well_formed(final(state)@.channels),
        match outcome {
            ReadOutcome::Data(payload) => {
                &&& step matches Step::Continue(handled)
                &&& handled_as(handled, old(state)@.channels, lines(read_text(payload@)))
                &&& final(state)@.channels == after_lines(
                    old(state)@.channels,
                    lines(read_text(payload@)),
                )
                &&& valid_utf8(payload@) ==> handled_as(
                    handled,
                    old(state)@.channels,
                    lines(decode_utf8(payload@)),
                ) && final(state)@.channels == after_lines(
                    old(state)@.channels,
                    lines(decode_utf8(payload@)),
                )
            },
            ReadOutcome::WouldBlock => {
                &&& step matches Step::Continue(handled)
                &&& handled.replies@.len() == 0
                &&& handled.shown@.len() == 0
                &&& final(state)@.channels == old(state)@.channels
            },
            ReadOutcome::NetworkDown => step is LinkLost && final(state)@.channels == old(
                state,
            )@.channels,
            ReadOutcome::Failed => step is Fail && final(state)@.channels == old(state)@.channels,
        },
{
    match outcome {
        ReadOutcome::Data(payload) => {
            if payload.len() == 0 {
                proof {
                    reveal_with_fuel(first_occurrence, 1);
                    assert(lines(Seq::<char>::empty()) =~= Seq::<Seq<char>>::empty());
                    assert(decode_utf8(payload@) =~= Seq::<char>::empty());
                }
                let handled = Handled { replies: Vec::new(), shown: Vec::new() };
                assert(texts(handled.replies@) =~= Seq::<Seq<char>>::empty());
                assert(texts(handled.shown@) =~= Seq::<Seq<char>>::empty());
                Step::Continue(handled)
            } else {
                Step::Continue(handle_bytes(payload.as_slice(), state))
            }
        },
        ReadOutcome::WouldBlock => Step::Continue(
            Handled { replies: Vec::new(), shown: Vec::new() },
        ),
        ReadOutcome::NetworkDown => Step::LinkLost,
        ReadOutcome::Failed => Step::Fail,
    }
}

/// The text of a payload: nothing for no bytes, else the bytes read as
/// text.
pub open spec fn read_text(payload: Seq<u8>) -> Seq<char> {
    if payload.len() == 0 {
        Seq::empty()
    } else {
        utf8_lossy(payload)
    }
}

/// The line that registers the user `nick`.
pub open spec fn user_line(nick: Seq<char>) -> Seq<char> {
    "USER "@ + nick + " 0 * :"@ + nick + "\r\n"@
}

/// The line that registers the nickname `nick`.
pub open spec fn nick_line(nick: Seq<char>) -> Seq<char> {
    "NICK "@ + nick + "\r\n"@
}

/// The line that joins `channel`.
pub open spec fn join_line(channel: Seq<char>) -> Seq<char> {
    "JOIN "@ + channel + "\r\n"@
}

/// The lines that open a session: the user, the nickname, then a join for
/// each channel in order.
pub open spec fn ident_lines(nick: Seq<char>, channels: Seq<Seq<char>>) -> Seq<Seq<char>> {
    seq![user_line(nick), nick_line(nick)] + channels.map_values(|c: Seq<char>| join_line(c))
}

/// The line that says `message` to `channel`.
pub open spec fn chat_command(message: Seq<char>, channel: Seq<char>) -> Seq<char> {
    "PRIVMSG "@ + channel + " :"@ + message + "\r\n"@
}

/// `message` as a line of its own.
pub open spec fn raw_command(message: Seq<char>) -> Seq<char> {
    message + "\r\n"@
}

/// The lines to write to open a session as `nick` and join `channels`.
pub fn irc_ident(nick: &str, channels: &[String]) -> (commands: Vec<String>)
    ensures
        texts(commands@) == ident_lines(nick@, texts(channels@)),
{
    let mut commands: Vec<String> = Vec::new();
    let mut user = "USER ".to_owned();
    user.append(nick);
    user.append(" 0 * :");
    user.append(nick);
    user.append("\r\n");
    commands.push(user);
    let mut name = "NICK ".to_owned();
    name.append(nick);
    name.append("\r\n");
    commands.push(name);
    let mut i: usize = 0;
    while i < channels.len()
        invariant
            i <= channels.len(),
            commands@.len() == 2 + i,
            commands@[0]@ == user_line(nick@),
            commands@[1]@ == nick_line(nick@),
            forall|j: int|
                0 <= j < i ==> (#[trigger] commands@[2 + j])@ == join_line(channels@[j]@),
        decreases channels.len() - i,
    {
        let mut join = "JOIN ".to_owned();
        join.append(channels[i].as_str());
        join.append("\r\n");
        commands.push(join);
        i += 1;
    }
    proof {
        let wanted = ident_lines(nick@, texts(channels@));
        assert(wanted.len() == commands@.len());
        assert forall|j: int| 0 <= j < wanted.len() implies texts(commands@)[j] == wanted[j] by {
            if j >= 2 {
                assert(commands@[2 + (j - 2)]@ == join_line(channels@[j - 2]@));
            }
        }
    }
    assert(texts(commands@) =~= ident_lines(nick@, texts(channels@)));
    commands
}

/// The line to write to say `message` to `channel`.
pub fn irc_send(message: &str, channel: &str) -> (command: String)
    ensures
        command@ == chat_command(message@, channel@),
{
    let mut command = "PRIVMSG ".to_owned();
    command.append(channel);
    command.append(" :");
    command.append(message);
    command.append("\r\n");
    command
}

/// The line to write to send `message` as it stands.
pub fn irc_raw_send(message: &str) -> (command: String)
    ensures
        command@ == raw_command(message@),
{
    let mut command = message.to_owned();
    command.append("\r\n");
    command
}

/// A line that begins with `PING` is a keep-alive: it asks for one answer,
/// the line with `PONG` in place of that `PING` and the rest as it stands,
/// and changes nothing.
pub proof fn lemma_keep_alive(channels: Seq<ChannelView>, line: Seq<char>)
    requires
        starts_with(line, "PING"@),
    ensures
        answer(classified(line)) == Some(pong(line)),
        applied(channels, classified(line)) == channels,
        after_lines(channels, seq![line]) == channels,
        answers(seq![line]) == seq![pong(line)],
{
    let only = seq![line];
    assert(only.drop_last() =~= Seq::<Seq<char>>::empty());
    assert(only.last() == line);
    reveal_with_fuel(after_lines, 2);
    reveal_with_fuel(answers, 2);
    assert(answers(only) =~= seq![pong(line)]);
}

/// One line and its terminator are handled as that line is.
pub proof fn lemma_one_line_handled(channels: Seq<ChannelView>, line: Seq<char>)
    requires
        line.len() > 0,
        free_of(line, crlf()),
    ensures
        after_lines(channels, lines(line + crlf())) == applied(channels, classified(line)),
        answers(lines(line + crlf())) == match answer(classified(line)) {
            Some(reply) => seq![reply],
            None => Seq::empty(),
        },
{
    lemma_single_line(line);
    let only = seq![line];
    assert(only.drop_last() =~= Seq::<Seq<char>>::empty());
    assert(only.last() == line);
    reveal_with_fuel(after_lines, 2);
    reveal_with_fuel(answers, 2);
    match answer(classified(line)) {
        Some(reply) => {
            assert(answers(only) =~= seq![reply]);
        },
        None => {},
    }
}

/// A chat line for a known group channel, received with its terminator,
/// adds one message to that channel, from the nick and with the content of
/// the line, and changes nothing else. It asks for no answer.
pub proof fn lemma_chat_delivered(
    channels: Seq<ChannelView>,
    nick: Seq<char>,
    user: Seq<char>,
    host: Seq<char>,
    target: Seq<char>,
    content: Seq<char>,
)
    requires
        reads_back(nick, user, host, target, Some(content)),
        is_group(target),
        position_named(channels, target) is Some,
    ensures
        ({
            let payload = user_form(" PRIVMSG "@, nick, user, host, target, Some(content)) + crlf();
            let i = position_named(channels, target)->0;
            &&& after_lines(channels, lines(payload)) == with_message(
                channels,
                i,
                chat_line(nick, content),
            )
            &&& answers(lines(payload)) == Seq::<Seq<char>>::empty()
        }),
{
    let line = user_form(" PRIVMSG "@, nick, user, host, target, Some(content));
    lemma_chat_line(nick, user, host, target, content);
    lemma_no_feed_no_terminator(line);
    lemma_one_line_handled(channels, line);
}

/// A name list for a group channel that is not known yet, received with
/// its terminator, adds that channel at the end of the store: a group
/// channel, not selected, without messages, whose users are the words of
/// the list in order.
pub proof fn lemma_names_delivered(
    channels: Seq<ChannelView>,
    server: Seq<char>,
    client: Seq<char>,
    symbol: char,
    target: Seq<char>,
    names: Seq<char>,
)
    requires
        names_read_back(server, client, symbol, target, names),
        free_of(names_form(server, client, symbol, target, names), " PRIVMSG "@),
        is_group(target),
        position_named(channels, target) is None,
    ensures
        after_lines(
            channels,
            lines(names_form(server, client, symbol, target, names) + crlf()),
        ) == channels.push(ChannelView { users: words(names), ..fresh_channel(target) }),
{
    let line = names_form(server, client, symbol, target, names);
    lemma_names_line(server, client, symbol, target, names);
    lemma_no_feed_no_terminator(line);
    lemma_one_line_handled(channels, line);
}

/// A join line for a known group channel, received with its terminator,
/// adds the nick at the end of the channel's users and the notice
/// `-> <nick> joined` at the end of its messages.
pub proof fn lemma_join_delivered(
    channels: Seq<ChannelView>,
    nick: Seq<char>,
    user: Seq<char>,
    host: Seq<char>,
    target: Seq<char>,
    colon: bool,
)
    requires
        reads_back(nick, user, host, target, None),
        free_of(user_form(" JOIN "@, nick, user, host, joining(target, colon), None), " PRIVMSG "@),
        free_of(user_form(" JOIN "@, nick, user, host, joining(target, colon), None), " 353 "@),
        is_group(target),
        position_named(channels, target) is Some,
    ensures
        ({
            let payload = user_form(" JOIN "@, nick, user, host, joining(target, colon), None)
                + crlf();
            let after = after_lines(channels, lines(payload));
            let i = position_named(channels, target)->0;
            &&& after == applied(channels, EventView::Join { nick, target })
            &&& after.len() == channels.len()
            &&& after[i].users == channels[i].users.push(nick)
            &&& after[i].messages == channels[i].messages.push(status_line(joined_notice(nick)))
        }),
{
    let rest = joining(target, colon);
    let line = user_form(" JOIN "@, nick, user, host, rest, None);
    lemma_join_line(nick, user, host, target, colon);
    lemma_no_feed_no_terminator(line);
    lemma_one_line_handled(channels, line);
    lemma_join_adds(channels, nick, target);
}

/// A part line for a known group channel removes every entry of the nick
/// from the channel's users, keeps the others in their order, adds the
/// notice `<- <nick> left` at the end of its messages, and leaves the
/// channel in the store and every other channel as it was. This holds
/// whatever the reason is, with two exceptions: a reason whose first line
/// holds ` :`, and a reason that makes an earlier form fit the line.
pub proof fn lemma_part_handled(
    channels: Seq<ChannelView>,
    nick: Seq<char>,
    user: Seq<char>,
    host: Seq<char>,
    target: Seq<char>,
    reason: Seq<char>,
)
    requires
        reads_back(nick, user, host, target, None),
        free_of(first_line(reason), " :"@),
        part_comes_first(user_form(" PART "@, nick, user, host, target, Some(reason))),
        is_group(target),
        position_named(channels, target) is Some,
    ensures
        ({
            let line = user_form(" PART "@, nick, user, host, target, Some(reason));
            let after = applied(channels, classified(line));
            let i = position_named(channels, target)->0;
            &&& answer(classified(line)) is None
            &&& after == applied(channels, EventView::Part { nick, target })
            &&& after.len() == channels.len()
            &&& 0 <= i < channels.len()
            &&& after[i].name == target
            &&& !after[i].users.contains(nick)
            &&& after[i].users == without(channels[i].users, nick)
            &&& after[i].messages == channels[i].messages.push(status_line(left_notice(nick)))
            &&& forall|j: int| 0 <= j < channels.len() && j != i ==> after[j] == channels[j]
        }),
{
    lemma_part_line(nick, user, host, target, reason);
    lemma_part_removes(channels, nick, target);
    lemma_first_where(channels, |c: ChannelView| c.name == target, 0);
}

/// The same for a part line received with its terminator, where the line
/// holds no terminator of its own.
pub proof fn lemma_part_delivered(
    channels: Seq<ChannelView>,
    nick: Seq<char>,
    user: Seq<char>,
    host: Seq<char>,
    target: Seq<char>,
    reason: Seq<char>,
)
    requires
        reads_back(nick, user, host, target, None),
        free_of(first_line(reason), " :"@),
        part_comes_first(user_form(" PART "@, nick, user, host, target, Some(reason))),
        free_of(user_form(" PART "@, nick, user, host, target, Some(reason)), crlf()),
        is_group(target),
        position_named(channels, target) is Some,
    ensures
        ({
            let payload = user_form(" PART "@, nick, user, host, target, Some(reason)) + crlf();
            let after = after_lines(channels, lines(payload));
            let i = position_named(channels, target)->0;
            &&& after == applied(channels, EventView::Part { nick, target })
            &&& after.len() == channels.len()
            &&& !after[i].users.contains(nick)
            &&& after[i].users == without(channels[i].users, nick)
            &&& after[i].messages == channels[i].messages.push(status_line(left_notice(nick)))
            &&& answers(lines(payload)) == Seq::<Seq<char>>::empty()
        }),
{
    let line = user_form(" PART "@, nick, user, host, target, Some(reason));
    lemma_part_handled(channels, nick, user, host, target, reason);
    lemma_one_line_handled(channels, line);
}

/// A keep-alive `PING<rest>`, received with its terminator, is answered
/// with `PONG<rest>` and nothing else, and changes nothing, whatever `rest`
/// is, so long as it holds no terminator of its own.
pub proof fn lemma_ping_delivered(channels: Seq<ChannelView>, rest: Seq<char>)
    requires
        free_of(rest, crlf()),
    ensures
        after_lines(channels, lines("PING"@ + rest + crlf())) == channels,
        answers(lines("PING"@ + rest + crlf())) == seq!["PONG"@ + rest],
{
    let line = "PING"@ + rest;
    reveal_strlit("PING");
    assert(line.take(4) =~= "PING"@);
    assert(line.skip(4) =~= rest);
    assert(free_of(line, crlf())) by {
        assert forall|p: int| !occurs_at(line, crlf(), p) by {
            if occurs_at(line, crlf(), p) {
                let here = line.subrange(p, p + 2);
                assert(here[0] == crlf()[0]);
                assert(line[p] == '\r');
                assert(rest.subrange(p - 4, p - 4 + 2) =~= here);
                assert(occurs_at(rest, crlf(), p - 4));
            }
        }
    }
    lemma_keep_alive(channels, line);
    lemma_one_line_handled(channels, line);
}

} // verus!
