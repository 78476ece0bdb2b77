//! Channels and the messages they hold.

use vstd::prelude::*;
use crate::text::texts;

verus! {

/// What kind of conversation a channel is.
#[derive(PartialEq, Eq, Clone, Copy, Debug, Structural)]
pub enum IrcChannelType {
    /// The one status channel, which collects server text.
    System,
    /// A group channel, whose name begins with `#`.
    Channel,
    /// A conversation with one other user.
    PrivateMessage,
}

/// One line of scrollback.
#[derive(PartialEq, Eq, Clone, Debug)]
pub struct IrcMessage {
    /// The sender; `None` for a status line such as a join or part notice.
    pub nick: Option<String>,
    pub content: String,
}

/// A channel with its users and its scrollback.
#[derive(PartialEq, Eq, Clone, Debug)]
pub struct IrcChannel {
    pub selected: bool,
    pub name: String,
    pub users: Vec<String>,
    pub messages: Vec<IrcMessage>,
    pub channel_type: IrcChannelType,
}

/// The mathematical value of an [`IrcMessage`].
pub struct MessageView {
    pub nick: Option<Seq<char>>,
    pub content: Seq<char>,
}

/// The mathematical value of an [`IrcChannel`].
pub struct ChannelView {
    pub selected: bool,
    pub name: Seq<char>,
    pub users: Seq<Seq<char>>,
    pub messages: Seq<MessageView>,
    pub channel_type: IrcChannelType,
}

impl View for IrcMessage {
    type V = MessageView;

    open spec fn view(&self) -> MessageView {
        MessageView {
            nick: match self.nick {
                Some(nick) => Some(nick@),
                None => None,
            },
            content: self.content@,
        }
    }
}

/// The values of a sequence of messages, in order.
pub open spec fn message_views(messages: Seq<IrcMessage>) -> Seq<MessageView> {
    messages.map_values(|m: IrcMessage| m@)
}

impl View for IrcChannel {
    type V = ChannelView;

    open spec fn view(&self) -> ChannelView {
        ChannelView {
            selected: self.selected,
            name: self.name@,
            users: texts(self.users@),
            messages: message_views(self.messages@),
            channel_type: self.channel_type,
        }
    }
}

/// The values of a sequence of channels, in order.
pub open spec fn channel_views(channels: Seq<IrcChannel>) -> Seq<ChannelView> {
    channels.map_values(|c: IrcChannel| c@)
}

/// A status line: a message without a sender.
pub open spec fn status_line(content: Seq<char>) -> MessageView {
    MessageView { nick: None, content }
}

/// A chat line from `nick`.
pub open spec fn chat_line(nick: Seq<char>, content: Seq<char>) -> MessageView {
    MessageView { nick: Some(nick), content }
}

/// A group channel as it is when first heard of: nobody in it, nothing said,
/// not selected.
pub open spec fn fresh_channel(name: Seq<char>) -> ChannelView {
    ChannelView {
        selected: false,
        name,
        users: Seq::empty(),
        messages: Seq::empty(),
        channel_type: IrcChannelType::Channel,
    }
}

impl IrcMessage {
    /// A status line with the given content.
    pub fn status(content: String) -> (message: IrcMessage)
        ensures
            message@ == status_line(content@),
    {
        IrcMessage { nick: None, content }
    }

    /// A chat line from `nick`.
    pub fn chat(nick: String, content: String) -> (message: IrcMessage)
        ensures
            message@ == chat_line(nick@, content@),
    {
        IrcMessage { nick: Some(nick), content }
    }
}

impl IrcChannel {
    /// A group channel named `name` with no users and no messages.
    pub fn group(name: String) -> (channel: IrcChannel)
        ensures
            channel@ == fresh_channel(name@),
    {
        let channel = IrcChannel {
            selected: false,
            name,
            users: Vec::new(),
            messages: Vec::new(),
            channel_type: IrcChannelType::Channel,
        };
        assert(channel@.users =~= Seq::empty());
        assert(channel@.messages =~= Seq::empty());
        channel
    }
}

} // verus!
