//! What an event does to the channel store.

use vstd::prelude::*;
use crate::irc::event::EventView;
use crate::irc::event::IrcEvent;
use crate::irc::types::ChannelView;
use crate::irc::types::chat_line;
use crate::irc::types::fresh_channel;
use crate::irc::types::IrcChannel;
use crate::irc::types::IrcChannelType;
use crate::irc::types::IrcMessage;
use crate::irc::types::message_views;
use crate::irc::types::MessageView;
use crate::irc::types::status_line;
use crate::state::lemma_first_where;
use crate::state::names_distinct;
use crate::state::only_selected;
use crate::state::only_system;
use crate::state::position_named;
use crate::state::position_system;
use crate::state::State;
use crate::state::well_formed;
use crate::text::same_text;
use crate::text::texts;

verus! {

/// Whether `target` names a group channel: it begins with `#`.
pub open spec fn is_group(target: Seq<char>) -> bool {
    target.len() > 0 && target[0] == '#'
}

/// The test that a user is not `nick`.
pub open spec fn other_than(nick: Seq<char>) -> spec_fn(Seq<char>) -> bool {
    |user: Seq<char>| user != nick
}

/// `users` without any entry equal to `nick`, the rest in order.
pub open spec fn without(users: Seq<Seq<char>>, nick: Seq<char>) -> Seq<Seq<char>> {
    users.filter(other_than(nick))
}

/// The notice that `nick` joined.
pub open spec fn joined_notice(nick: Seq<char>) -> Seq<char> {
    "-> "@ + nick + " joined"@
}

/// The notice that `nick` left.
pub open spec fn left_notice(nick: Seq<char>) -> Seq<char> {
    "<- "@ + nick + " left"@
}

/// The channels with `message` added at the end of channel `i`.
pub open spec fn with_message(channels: Seq<ChannelView>, i: int, message: MessageView) -> Seq<
    ChannelView,
> {
    channels.update(
        i,
        ChannelView { messages: channels[i].messages.push(message), ..channels[i] },
    )
}

/// The channels after `event`.
///
/// Chat, joins and parts count only for a group channel that is known; a
/// name list makes its group channel known. A keep-alive and a line of no
/// known form change nothing, and neither does server text where there is
/// no system channel to hold it.
pub open spec fn applied(channels: Seq<ChannelView>, event: EventView) -> Seq<ChannelView> {
    match event {
        EventView::Ping { reply } => channels,
        EventView::Chat { nick, target, content } => match position_named(channels, target) {
            Some(i) => if is_group(target) {
                with_message(channels, i, chat_line(nick, content))
            } else {
                channels
            },
            None => channels,
        },
        EventView::Names { target, names } => if is_group(target) {
            match position_named(channels, target) {
                Some(i) => channels.update(i, ChannelView { users: names, ..channels[i] }),
                None => channels.push(ChannelView { users: names, ..fresh_channel(target) }),
            }
        } else {
            channels
        },
        EventView::Join { nick, target } => match position_named(channels, target) {
            Some(i) => if is_group(target) {
                channels.update(
                    i,
                    ChannelView {
                        users: channels[i].users.push(nick),
                        messages: channels[i].messages.push(status_line(joined_notice(nick))),
                        ..channels[i]
                    },
                )
            } else {
                channels
            },
            None => channels,
        },
        EventView::Part { nick, target } => match position_named(channels, target) {
            Some(i) => if is_group(target) {
                channels.update(
                    i,
                    ChannelView {
                        users: without(channels[i].users, nick),
                        messages: channels[i].messages.push(status_line(left_notice(nick))),
                        ..channels[i]
                    },
                )
            } else {
                channels
            },
            None => channels,
        },
        EventView::Notice { text } => match position_system(channels) {
            Some(i) => with_message(channels, i, status_line(text)),
            None => channels,
        },
        EventView::Other => channels,
    }
}

/// A change that leaves every channel its name, its kind and its place in
/// the selection keeps a well-formed store well formed.
proof fn lemma_same_frame_well_formed(channels: Seq<ChannelView>, after: Seq<ChannelView>)
    requires
        well_formed(channels),
        after.len() == channels.len(),
        forall|j: int|
            0 <= j < channels.len() ==> (#[trigger] after[j]).selected == channels[j].selected
                && after[j].name == channels[j].name && after[j].channel_type
                == channels[j].channel_type,
    ensures
        well_formed(after),
{
    let selected = choose|i: int| only_selected(channels, i);
    let system = choose|i: int| only_system(channels, i);
    assert(only_selected(after, selected)) by {
        assert forall|j: int| 0 <= j < after.len() implies ((#[trigger] after[j]).selected <==> j
            == selected) by {
            assert(after[j].selected == channels[j].selected);
        }
    }
    assert(only_system(after, system)) by {
        assert forall|j: int| 0 <= j < after.len() implies ((#[trigger] after[j]).channel_type
            == IrcChannelType::System <==> j == system) by {
            assert(after[j].channel_type == channels[j].channel_type);
        }
    }
    assert(names_distinct(after)) by {
        assert forall|i: int, j: int| 0 <= i < j < after.len() implies (#[trigger] after[i]).name
            != (#[trigger] after[j]).name by {
            assert(after[i].name == channels[i].name);
            assert(after[j].name == channels[j].name);
        }
    }
}

/// An event keeps a well-formed store well formed: one channel stays
/// selected, one stays the system channel, and no name comes to stand
/// twice.
pub proof fn lemma_applied_well_formed(channels: Seq<ChannelView>, event: EventView)
    requires
        well_formed(channels),
    ensures
        well_formed(applied(channels, event)),
{
    let after = applied(channels, event);
    match event {
        EventView::Names { target, names } => {
            if is_group(target) {
                lemma_first_where(channels, |c: ChannelView| c.name == target, 0);
                match position_named(channels, target) {
                    Some(i) => {
                        lemma_same_frame_well_formed(channels, after);
                    },
                    None => {
                        let selected = choose|i: int| only_selected(channels, i);
                        let system = choose|i: int| only_system(channels, i);
                        assert(only_selected(after, selected)) by {
                            assert forall|j: int| 0 <= j < after.len() implies ((
                            #[trigger] after[j]).selected <==> j == selected) by {
                                if j < channels.len() {
                                    assert(after[j].selected == channels[j].selected);
                                }
                            }
                        }
                        assert(only_system(after, system)) by {
                            assert forall|j: int| 0 <= j < after.len() implies ((
                            #[trigger] after[j]).channel_type == IrcChannelType::System <==> j
                                == system) by {
                                if j < channels.len() {
                                    assert(after[j].channel_type == channels[j].channel_type);
                                }
                            }
                        }
                        assert(names_distinct(after)) by {
                            assert forall|i: int, j: int| 0 <= i < j < after.len() implies (
                            #[trigger] after[i]).name != (#[trigger] after[j]).name by {
                                assert(after[i].name == channels[i].name);
                                if j < channels.len() {
                                    assert(after[j].name == channels[j].name);
                                } else {
                                    assert(channels[i].name != target);
                                }
                            }
                        }
                    },
                }
            }
        },
        EventView::Chat { nick, target, content } => {
            lemma_first_where(channels, |c: ChannelView| c.name == target, 0);
            lemma_same_frame_well_formed(channels, after);
        },
        EventView::Join { nick, target } => {
            lemma_first_where(channels, |c: ChannelView| c.name == target, 0);
            lemma_same_frame_well_formed(channels, after);
        },
        EventView::Part { nick, target } => {
            lemma_first_where(channels, |c: ChannelView| c.name == target, 0);
            lemma_same_frame_well_formed(channels, after);
        },
        EventView::Notice { text } => {
            lemma_first_where(
                channels,
                |c: ChannelView| c.channel_type == IrcChannelType::System,
                0,
            );
            lemma_same_frame_well_formed(channels, after);
        },
        EventView::Ping { reply } => {},
        EventView::Other => {},
    }
}

/// Channel `j` of `after` is channel `j` of `before` with, at most, other
/// users and more messages at the end.
pub open spec fn carried_on(before: ChannelView, after: ChannelView) -> bool {
    &&& after.name == before.name
    &&& after.channel_type == before.channel_type
    &&& after.selected == before.selected
    &&& before.messages.is_prefix_of(after.messages)
}

/// Every channel of `before` is carried on in `after`, at its place.
pub open spec fn store_carried_on(before: Seq<ChannelView>, after: Seq<ChannelView>) -> bool {
    &&& before.len() <= after.len()
    &&& forall|j: int| 0 <= j < before.len() ==> carried_on(before[j], #[trigger] after[j])
}

/// An event removes no channel, moves none, renames none, changes no
/// selection, and takes no message away: messages are only ever added at
/// the end.
pub proof fn lemma_applied_carries_on(channels: Seq<ChannelView>, event: EventView)
    ensures
        store_carried_on(channels, applied(channels, event)),
{
    let after = applied(channels, event);
    match event {
        EventView::Names { target, names } => {
            lemma_first_where(channels, |c: ChannelView| c.name == target, 0);
        },
        EventView::Chat { nick, target, content } => {
            lemma_first_where(channels, |c: ChannelView| c.name == target, 0);
        },
        EventView::Join { nick, target } => {
            lemma_first_where(channels, |c: ChannelView| c.name == target, 0);
        },
        EventView::Part { nick, target } => {
            lemma_first_where(channels, |c: ChannelView| c.name == target, 0);
        },
        EventView::Notice { text } => {
            lemma_first_where(
                channels,
                |c: ChannelView| c.channel_type == IrcChannelType::System,
                0,
            );
        },
        EventView::Ping { reply } => {},
        EventView::Other => {},
    }
    assert forall|j: int| 0 <= j < channels.len() implies carried_on(
        channels[j],
        #[trigger] after[j],
    ) by {
        assert(channels[j].messages.is_prefix_of(after[j].messages));
    }
}

/// Whether `target` names a group channel.
pub fn is_group_name(target: &str) -> (group: bool)
    ensures
        group == is_group(target@),
{
    !target.is_empty() && target.get_char(0) == '#'
}

/// The entries of `users` that differ from `nick`, in order.
pub fn users_without(users: &Vec<String>, nick: &str) -> (kept: Vec<String>)
    ensures
        texts(kept@) == without(texts(users@), nick@),
{
    let mut kept: Vec<String> = Vec::new();
    let mut i: usize = 0;
    assert(texts(users@).take(0) =~= Seq::<Seq<char>>::empty());
    assert(texts(kept@) =~= without(Seq::<Seq<char>>::empty(), nick@)) by {
        reveal(Seq::filter);
    }
    while i < users.len()
        invariant
            i <= users.len(),
            texts(kept@) == without(texts(users@).take(i as int), nick@),
        decreases users.len() - i,
    {
        let ghost before = texts(kept@);
        let ghost seen = texts(users@).take(i as int);
        proof {
            assert(texts(users@).take(i + 1) =~= seen.push(users@[i as int]@));
            seen.lemma_filter_push(users@[i as int]@, other_than(nick@));
        }
        if !same_text(users[i].as_str(), nick) {
            kept.push(users[i].clone());
            assert(texts(kept@) =~= before.push(users@[i as int]@));
        }
        i += 1;
    }
    assert(texts(users@).take(users.len() as int) =~= texts(users@));
    kept
}

impl State {
    /// Changes the store as `event` asks.
    pub fn apply(&mut self, event: IrcEvent)
        ensures
            final(self)@.channels == applied(old(self)@.channels, event@),
            final(self)@.config == old(self)@.config,
            final(self)@.battery_state == old(self)@.battery_state,
            well_formed(old(self)@.channels) ==> well_formed(final(self)@.channels),
    {
        proof {
            if well_formed(self@.channels) {
                lemma_applied_well_formed(self@.channels, event@);
            }
        }
        match event {
            IrcEvent::Ping { reply } => {},
            IrcEvent::Chat { nick, target, content } => {
                if !is_group_name(target.as_str()) {
                    return ;
                }
                match self.channel_index(target.as_str()) {
                    Some(i) => {
                        self.push_message(i, IrcMessage::chat(nick, content));
                    },
                    None => {},
                }
            },
            IrcEvent::Names { target, names } => {
                if !is_group_name(target.as_str()) {
                    return ;
                }
                match self.channel_index(target.as_str()) {
                    Some(i) => {
                        proof {
                            lemma_first_where(
                                self@.channels,
                                |c: ChannelView| c.name == target@,
                                0,
                            );
                        }
                        self.channels[i].users = names;
                        assert(self@.channels =~= applied(old(self)@.channels, event@));
                    },
                    None => {
                        let mut channel = IrcChannel::group(target);
                        channel.users = names;
                        self.channels.push(channel);
                        assert(self@.channels =~= applied(old(self)@.channels, event@));
                    },
                }
            },
            IrcEvent::Join { nick, target } => {
                if !is_group_name(target.as_str()) {
                    return ;
                }
                match self.channel_index(target.as_str()) {
                    Some(i) => {
                        proof {
                            lemma_first_where(
                                self@.channels,
                                |c: ChannelView| c.name == target@,
                                0,
                            );
                        }
                        let mut content = "-> ".to_owned();
                        content.append(nick.as_str());
                        content.append(" joined");
                        let ghost users = self.channels@[i as int].users@;
                        let ghost messages = self.channels@[i as int].messages@;
                        let notice = IrcMessage::status(content);
                        self.channels[i].users.push(nick);
                        self.channels[i].messages.push(notice);
                        assert(texts(users.push(nick)) =~= texts(users).push(nick@));
                        assert(message_views(messages.push(notice))
                            =~= message_views(messages).push(notice@));
                        assert(self@.channels =~= applied(old(self)@.channels, event@));
                    },
                    None => {},
                }
            },
            IrcEvent::Part { nick, target } => {
                if !is_group_name(target.as_str()) {
                    return ;
                }
                match self.channel_index(target.as_str()) {
                    Some(i) => {
                        proof {
                            lemma_first_where(
                                self@.channels,
                                |c: ChannelView| c.name == target@,
                                0,
                            );
                        }
                        let mut content = "<- ".to_owned();
                        content.append(nick.as_str());
                        content.append(" left");
                        let ghost messages = self.channels@[i as int].messages@;
                        let notice = IrcMessage::status(content);
                        let kept = users_without(&self.channels[i].users, nick.as_str());
                        self.channels[i].users = kept;
                        self.channels[i].messages.push(notice);
                        assert(message_views(messages.push(notice))
                            =~= message_views(messages).push(notice@));
                        assert(self@.channels =~= applied(old(self)@.channels, event@));
                    },
                    None => {},
                }
            },
            IrcEvent::Notice { text } => {
                match self.system_index() {
                    Some(i) => {
                        self.push_message(i, IrcMessage::status(text));
                    },
                    None => {},
                }
            },
            IrcEvent::Other => {},
        }
    }

    /// Adds `message` at the end of channel `i`.
    pub fn push_message(&mut self, i: usize, message: IrcMessage)
        requires
            i < old(self).channels.len(),
        ensures
            final(self)@.channels == with_message(old(self)@.channels, i as int, message@),
            final(self)@.config == old(self)@.config,
            final(self)@.battery_state == old(self)@.battery_state,
            well_formed(old(self)@.channels) ==> well_formed(final(self)@.channels),
    {
        let ghost messages = self.channels@[i as int].messages@;
        self.channels[i].messages.push(message);
        assert(message_views(messages.push(message))
            =~= message_views(messages).push(message@));
        assert(self@.channels =~= with_message(old(self)@.channels, i as int, message@));
        proof {
            if well_formed(old(self)@.channels) {
                lemma_same_frame_well_formed(old(self)@.channels, self@.channels);
            }
        }
    }
}

impl State {
    /// Records in `channel` that `nick` said `message` there: the echo of a
    /// message the user has just sent.
    pub fn echo(&mut self, message: &str, channel: &str, nick: &str)
        requires
            position_named(old(self)@.channels, channel@) is Some,
        ensures
            position_named(old(self)@.channels, channel@) matches Some(i) && final(self)@.channels
                == with_message(old(self)@.channels, i, chat_line(nick@, message@)),
            final(self)@.config == old(self)@.config,
            final(self)@.battery_state == old(self)@.battery_state,
            well_formed(old(self)@.channels) ==> well_formed(final(self)@.channels),
    {
        match self.channel_index(channel) {
            Some(i) => {
                self.push_message(i, IrcMessage::chat(nick.to_owned(), message.to_owned()));
            },
            None => {},
        }
    }
}

/// Two name lists for one group channel, one after the other, leave the
/// channel with the names of the second alone: the store is as if only the
/// second had come.
pub proof fn lemma_names_overwrite(
    channels: Seq<ChannelView>,
    target: Seq<char>,
    first: Seq<Seq<char>>,
    second: Seq<Seq<char>>,
)
    requires
        is_group(target),
    ensures
        ({
            let once = applied(channels, EventView::Names { target, names: first });
            let twice = applied(once, EventView::Names { target, names: second });
            &&& twice == applied(channels, EventView::Names { target, names: second })
            &&& position_named(twice, target) matches Some(i) && 0 <= i < twice.len()
                && twice[i].users == second
        }),
{
    let wanted = |c: ChannelView| c.name == target;
    let once = applied(channels, EventView::Names { target, names: first });
    let twice = applied(once, EventView::Names { target, names: second });
    let only = applied(channels, EventView::Names { target, names: second });
    lemma_first_where(channels, wanted, 0);
    lemma_first_where(once, wanted, 0);
    lemma_first_where(twice, wanted, 0);
    match position_named(channels, target) {
        Some(i) => {
            assert(once[i].name == target);
            assert(position_named(once, target) == Some(i)) by {
                assert forall|j: int| 0 <= j < i implies !wanted(#[trigger] once[j]) by {
                    assert(once[j] == channels[j]);
                }
            }
            assert(twice =~= only);
            assert(twice[i].name == target);
            assert(position_named(twice, target) == Some(i)) by {
                assert forall|j: int| 0 <= j < i implies !wanted(#[trigger] twice[j]) by {
                    assert(twice[j] == channels[j]);
                }
            }
        },
        None => {
            let n = channels.len() as int;
            assert(once[n].name == target);
            assert(position_named(once, target) == Some(n)) by {
                assert forall|j: int| 0 <= j < n implies !wanted(#[trigger] once[j]) by {
                    assert(once[j] == channels[j]);
                }
            }
            assert(twice =~= only);
            assert(twice[n].name == target);
            assert(position_named(twice, target) == Some(n)) by {
                assert forall|j: int| 0 <= j < n implies !wanted(#[trigger] twice[j]) by {
                    assert(twice[j] == channels[j]);
                }
            }
        },
    }
}

/// A join to a known group channel adds the nick at the end of its users
/// and a notice at the end of its messages, and touches no other channel.
/// Where the nick was not among the users before, it is there exactly once
/// afterwards.
pub proof fn lemma_join_adds(channels: Seq<ChannelView>, nick: Seq<char>, target: Seq<char>)
    requires
        is_group(target),
        position_named(channels, target) is Some,
    ensures
        ({
            let i = position_named(channels, target)->0;
            let after = applied(channels, EventView::Join { nick, target });
            &&& 0 <= i < channels.len()
            &&& after.len() == channels.len()
            &&& after[i].users == channels[i].users.push(nick)
            &&& after[i].messages == channels[i].messages.push(status_line(joined_notice(nick)))
            &&& forall|j: int| 0 <= j < channels.len() && j != i ==> after[j] == channels[j]
            &&& !channels[i].users.contains(nick) ==> forall|k: int|
                0 <= k < after[i].users.len() ==> (#[trigger] after[i].users[k] == nick <==> k
                    == channels[i].users.len())
        }),
{
    lemma_first_where(channels, |c: ChannelView| c.name == target, 0);
    let i = position_named(channels, target)->0;
    let after = applied(channels, EventView::Join { nick, target });
    if !channels[i].users.contains(nick) {
        assert forall|k: int| 0 <= k < after[i].users.len() implies (#[trigger] after[i].users[k]
            == nick <==> k == channels[i].users.len()) by {
            if k < channels[i].users.len() {
                assert(channels[i].users[k] != nick);
            }
        }
    }
}

/// A part from a known group channel removes every entry of the nick from
/// its users, keeps the others in order, adds a notice at the end of its
/// messages, and touches no other channel.
pub proof fn lemma_part_removes(channels: Seq<ChannelView>, nick: Seq<char>, target: Seq<char>)
    requires
        is_group(target),
        position_named(channels, target) is Some,
    ensures
        ({
            let i = position_named(channels, target)->0;
            let after = applied(channels, EventView::Part { nick, target });
            &&& 0 <= i < channels.len()
            &&& after.len() == channels.len()
            &&& !after[i].users.contains(nick)
            &&& after[i].users == without(channels[i].users, nick)
            &&& forall|user: Seq<char>|
                user != nick ==> (after[i].users.contains(user) <==> channels[i].users.contains(
                    user,
                ))
            &&& after[i].messages == channels[i].messages.push(status_line(left_notice(nick)))
            &&& forall|j: int| 0 <= j < channels.len() && j != i ==> after[j] == channels[j]
        }),
{
    lemma_first_where(channels, |c: ChannelView| c.name == target, 0);
    let i = position_named(channels, target)->0;
    let after = applied(channels, EventView::Part { nick, target });
    let keep = other_than(nick);
    if after[i].users.contains(nick) {
        let k = choose|k: int| 0 <= k < after[i].users.len() && after[i].users[k] == nick;
        channels[i].users.lemma_filter_pred(keep, k);
    }
    assert forall|user: Seq<char>| user != nick implies (after[i].users.contains(user)
        <==> channels[i].users.contains(user)) by {
        if after[i].users.contains(user) {
            channels[i].users.lemma_filter_contains_rev(keep, user);
        }
        if channels[i].users.contains(user) {
            let k = choose|k: int| 0 <= k < channels[i].users.len() && channels[i].users[k] == user;
            channels[i].users.lemma_filter_contains(keep, k);
        }
    }
}

} // verus!
