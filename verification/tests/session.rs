use grairc::irc::server::{
    handle_bytes, handle_text, handler, irc_handler, irc_ident, irc_raw_send, irc_send, irc_shown,
    ReadOutcome, Step,
};
use grairc::irc::types::{IrcChannel, IrcChannelType, IrcMessage};
use grairc::state::{BatteryState, State};

fn text(s: &str) -> String {
    s.to_string()
}

fn group(name: &str) -> IrcChannel {
    IrcChannel {
        selected: false,
        name: text(name),
        users: vec![],
        messages: vec![],
        channel_type: IrcChannelType::Channel,
    }
}

fn store_with(names: &[&str]) -> State {
    let mut state = State::default();
    for name in names {
        state.channels.push(group(name));
    }
    state
}

fn status(content: &str) -> IrcMessage {
    IrcMessage { nick: None, content: text(content) }
}

fn chat(nick: &str, content: &str) -> IrcMessage {
    IrcMessage { nick: Some(text(nick)), content: text(content) }
}

#[test]
fn ping_is_answered_and_changes_nothing() {
    let mut state = store_with(&["#test"]);
    let before = state.channels.clone();
    let reply = irc_handler("PING :token", &mut state);
    assert_eq!(reply, Some(text("PONG :token")));
    assert_eq!(state.channels, before);
}

#[test]
fn ping_is_answered_with_the_rest_of_its_line_as_it_stands() {
    let mut state = State::default();
    let before = state.channels.clone();
    let step = handler(ReadOutcome::Data(b"PING :PINGSRV\r\n".to_vec()), &mut state);
    match step {
        Step::Continue(handled) => {
            assert_eq!(handled.replies, vec![text("PONG :PINGSRV")]);
            assert!(handled.shown.is_empty());
        }
        _ => panic!("data is handled"),
    }
    assert_eq!(state.channels, before);
    assert_eq!(irc_handler("PING :PINGSRV", &mut state), Some(text("PONG :PINGSRV")));
}

#[test]
fn only_a_ping_is_answered() {
    let mut state = store_with(&["#test"]);
    assert_eq!(irc_handler(":bob!u@h PRIVMSG #test :hello", &mut state), None);
    assert_eq!(irc_handler(":s 353 me = #test :a", &mut state), None);
    assert_eq!(irc_handler(":a!u@h JOIN #test", &mut state), None);
    assert_eq!(irc_handler(":a!u@h PART #test :bye", &mut state), None);
    assert_eq!(irc_handler(":s 001 me :hi", &mut state), None);
    assert_eq!(irc_handler("nothing", &mut state), None);
}

#[test]
fn chat_is_added_to_its_channel() {
    let mut state = store_with(&["#test"]);
    let handled = handle_bytes(b":bob!u@h PRIVMSG #test :hello\r\n", &mut state);
    assert!(handled.replies.is_empty());
    assert_eq!(handled.shown, vec![text("bob         : hello")]);
    assert_eq!(state.channels.len(), 2);
    assert_eq!(state.channels[1].messages, vec![chat("bob", "hello")]);
    assert!(state.channels[0].messages.is_empty());
    assert!(state.channels[1].users.is_empty());
}

#[test]
fn chat_to_an_unknown_channel_is_dropped() {
    let mut state = store_with(&["#test"]);
    let before = state.channels.clone();
    irc_handler(":bob!u@h PRIVMSG #other :hello", &mut state);
    assert_eq!(state.channels, before);
}

#[test]
fn chat_to_a_user_is_dropped() {
    let mut state = store_with(&["me"]);
    let before = state.channels.clone();
    irc_handler(":bob!u@h PRIVMSG me :hello", &mut state);
    assert_eq!(state.channels, before);
}

#[test]
fn name_list_makes_an_unknown_channel_known() {
    let mut state = State::default();
    let handled =
        handle_bytes(b":irc.example.com 353 me = #test :alice bob carol\r\n", &mut state);
    assert!(handled.replies.is_empty());
    assert!(handled.shown.is_empty());
    assert_eq!(state.channels.len(), 2);
    let made = &state.channels[1];
    assert_eq!(made.name, "#test");
    assert_eq!(made.channel_type, IrcChannelType::Channel);
    assert_eq!(made.users, vec![text("alice"), text("bob"), text("carol")]);
    assert!(made.messages.is_empty());
    assert!(!made.selected);
    assert!(state.channels[0].selected);
}

#[test]
fn name_list_replaces_the_users() {
    let mut state = store_with(&["#test"]);
    irc_handler(":s 353 me = #test :alice bob", &mut state);
    assert_eq!(state.channels[1].users, vec![text("alice"), text("bob")]);
    irc_handler(":s 353 me = #test :carol dave", &mut state);
    assert_eq!(state.channels[1].users, vec![text("carol"), text("dave")]);
    assert_eq!(state.channels.len(), 2);
}

#[test]
fn name_list_twice_is_as_once() {
    let mut state = State::default();
    irc_handler(":s 353 me = #test :alice bob", &mut state);
    let once = state.channels.clone();
    irc_handler(":s 353 me = #test :alice bob", &mut state);
    assert_eq!(state.channels, once);
}

#[test]
fn name_list_for_a_user_is_dropped() {
    let mut state = State::default();
    let before = state.channels.clone();
    irc_handler(":s 353 me = test :alice bob", &mut state);
    assert_eq!(state.channels, before);
}

#[test]
fn name_list_keeps_messages_and_selection() {
    let mut state = store_with(&["#test"]);
    state.channels[0].selected = false;
    state.channels[1].selected = true;
    state.channels[1].messages.push(chat("bob", "hi"));
    irc_handler(":s 353 me = #test :alice", &mut state);
    assert!(state.channels[1].selected);
    assert_eq!(state.channels[1].messages, vec![chat("bob", "hi")]);
    assert_eq!(state.channels[1].users, vec![text("alice")]);
}

#[test]
fn join_adds_the_nick_and_a_notice() {
    let mut state = store_with(&["#test"]);
    irc_handler(":alice!u@h JOIN #test", &mut state);
    let users = &state.channels[1].users;
    assert_eq!(users.iter().filter(|u| u.as_str() == "alice").count(), 1);
    assert_eq!(users, &vec![text("alice")]);
    assert_eq!(state.channels[1].messages, vec![status("-> alice joined")]);
}

#[test]
fn join_with_colon_is_the_same() {
    let mut state = store_with(&["#test"]);
    irc_handler(":alice!u@h JOIN :#test", &mut state);
    assert_eq!(state.channels[1].users, vec![text("alice")]);
    assert_eq!(state.channels[1].messages, vec![status("-> alice joined")]);
}

#[test]
fn join_of_a_listed_nick_lists_it_again() {
    let mut state = store_with(&["#test"]);
    state.channels[1].users.push(text("alice"));
    irc_handler(":alice!u@h JOIN #test", &mut state);
    assert_eq!(state.channels[1].users, vec![text("alice"), text("alice")]);
}

#[test]
fn join_to_an_unknown_channel_is_dropped() {
    let mut state = store_with(&["#test"]);
    let before = state.channels.clone();
    irc_handler(":alice!u@h JOIN #other", &mut state);
    irc_handler(":alice!u@h JOIN other", &mut state);
    assert_eq!(state.channels, before);
}

#[test]
fn part_removes_every_entry_of_the_nick() {
    let mut state = store_with(&["#test"]);
    state.channels[1].users =
        vec![text("alice"), text("bob"), text("alice"), text("carol"), text("alice")];
    irc_handler(":alice!u@h PART #test :bye", &mut state);
    assert_eq!(state.channels[1].users, vec![text("bob"), text("carol")]);
    assert_eq!(state.channels[1].messages, vec![status("<- alice left")]);
}

#[test]
fn part_of_an_unlisted_nick_adds_the_notice_alone() {
    let mut state = store_with(&["#test"]);
    state.channels[1].users = vec![text("bob")];
    irc_handler(":alice!u@h PART #test :bye", &mut state);
    assert_eq!(state.channels[1].users, vec![text("bob")]);
    assert_eq!(state.channels[1].messages, vec![status("<- alice left")]);
}

#[test]
fn part_from_an_unknown_channel_is_dropped() {
    let mut state = store_with(&["#test"]);
    let before = state.channels.clone();
    irc_handler(":alice!u@h PART #other :bye", &mut state);
    irc_handler(":alice!u@h PART other :bye", &mut state);
    assert_eq!(state.channels, before);
}

#[test]
fn server_text_goes_to_the_system_channel() {
    let mut state = store_with(&["#test"]);
    irc_handler(":irc.example.com 001 me :Welcome", &mut state);
    irc_handler(":irc.example.com 004 me", &mut state);
    assert_eq!(
        state.channels[0].messages,
        vec![status("Welcome"), status(":irc.example.com 004 me")]
    );
    assert!(state.channels[1].messages.is_empty());
}

#[test]
fn server_text_without_a_system_channel_is_dropped() {
    let mut state = store_with(&["#test"]);
    state.channels.remove(0);
    let before = state.channels.clone();
    irc_handler(":irc.example.com 001 me :Welcome", &mut state);
    assert_eq!(state.channels, before);
}

#[test]
fn unknown_lines_change_nothing() {
    let mut state = store_with(&["#test"]);
    let before = state.channels.clone();
    irc_handler("ERROR :Closing link", &mut state);
    irc_handler("", &mut state);
    assert_eq!(state.channels, before);
}

#[test]
fn handling_keeps_settings_and_battery() {
    let mut state = store_with(&["#test"]);
    state.battery_state = BatteryState::Medium;
    irc_handler(":alice!u@h JOIN #test", &mut state);
    assert_eq!(state.battery_state, BatteryState::Medium);
    assert!(state.config.is_none());
}

#[test]
fn a_payload_of_several_lines_is_handled_in_order() {
    let mut state = State::default();
    let payload = [
        "PING :a\r\n",
        ":s 353 me = #t :x y\r\n",
        ":z!u@h JOIN #t\r\n",
        "\r\n",
        "PING :b\r\n",
        ":z!u@h PRIVMSG #t :hi\r\n",
    ]
    .concat();
    let handled = handle_bytes(payload.as_bytes(), &mut state);
    assert_eq!(handled.replies, vec![text("PONG :a"), text("PONG :b")]);
    assert_eq!(handled.shown, vec![text("z           : hi")]);
    assert_eq!(state.channels[1].users, vec![text("x"), text("y"), text("z")]);
    assert_eq!(state.channels[1].messages, vec![status("-> z joined"), chat("z", "hi")]);
}

#[test]
fn text_after_the_last_terminator_is_dropped() {
    let mut state = store_with(&["#t"]);
    let handled = handle_text(":a!u@h JOIN #t\r\n:b!u@h JOIN #t", &mut state);
    assert!(handled.replies.is_empty());
    assert_eq!(state.channels[1].users, vec![text("a")]);
    let handled = handle_text("PING :x", &mut state);
    assert!(handled.replies.is_empty());
}

#[test]
fn a_lone_line_feed_does_not_end_a_line() {
    let mut state = store_with(&["#t"]);
    let handled = handle_text("PING :x\nPING :y\r\n", &mut state);
    assert_eq!(handled.replies, vec![text("PONG :x\nPING :y")]);
}

#[test]
fn bytes_that_are_not_text_are_replaced() {
    let mut state = store_with(&["#t"]);
    handle_bytes(b":a!u@h PRIVMSG #t :caf\xe9\r\n", &mut state);
    assert_eq!(state.channels[1].messages, vec![chat("a", "caf\u{fffd}")]);
    handle_bytes(":a!u@h PRIVMSG #t :caf\u{e9}\r\n".as_bytes(), &mut state);
    assert_eq!(state.channels[1].messages[1], chat("a", "caf\u{e9}"));
}

#[test]
fn read_data_is_handled() {
    let mut state = store_with(&["#t"]);
    let step = handler(ReadOutcome::Data(b"PING :1\r\n:a!u@h JOIN #t\r\n".to_vec()), &mut state);
    match step {
        Step::Continue(handled) => assert_eq!(handled.replies, vec![text("PONG :1")]),
        _ => panic!("data is handled"),
    }
    assert_eq!(state.channels[1].users, vec![text("a")]);
}

#[test]
fn read_of_no_bytes_is_no_fault() {
    let mut state = store_with(&["#t"]);
    let before = state.channels.clone();
    let step = handler(ReadOutcome::Data(vec![]), &mut state);
    assert!(matches!(
        step,
        Step::Continue(handled) if handled.replies.is_empty() && handled.shown.is_empty()
    ));
    assert_eq!(state.channels, before);
}

#[test]
fn read_that_would_block_is_no_fault() {
    let mut state = store_with(&["#t"]);
    let before = state.channels.clone();
    let step = handler(ReadOutcome::WouldBlock, &mut state);
    assert!(matches!(
        step,
        Step::Continue(handled) if handled.replies.is_empty() && handled.shown.is_empty()
    ));
    assert_eq!(state.channels, before);
}

#[test]
fn network_down_ends_the_session() {
    let mut state = store_with(&["#t"]);
    let before = state.channels.clone();
    assert!(matches!(handler(ReadOutcome::NetworkDown, &mut state), Step::LinkLost));
    assert_eq!(state.channels, before);
}

#[test]
fn other_read_failures_are_reported() {
    let mut state = store_with(&["#t"]);
    let before = state.channels.clone();
    assert!(matches!(handler(ReadOutcome::Failed, &mut state), Step::Fail));
    assert_eq!(state.channels, before);
}

#[test]
fn ident_registers_and_joins_in_order() {
    let channels = vec![text("#a"), text("#b")];
    assert_eq!(
        irc_ident("me", &channels),
        vec![
            text("USER me 0 * :me\r\n"),
            text("NICK me\r\n"),
            text("JOIN #a\r\n"),
            text("JOIN #b\r\n"),
        ]
    );
    assert_eq!(irc_ident("me", &[]), vec![text("USER me 0 * :me\r\n"), text("NICK me\r\n")]);
}

#[test]
fn send_writes_a_chat_command() {
    assert_eq!(irc_send("hi", "#test"), "PRIVMSG #test :hi\r\n");
    assert_eq!(irc_send("", ""), "PRIVMSG  :\r\n");
}

#[test]
fn raw_send_adds_the_terminator_alone() {
    assert_eq!(irc_raw_send("WHOIS bob"), "WHOIS bob\r\n");
    assert_eq!(irc_raw_send(""), "\r\n");
}

#[test]
fn sending_a_user_message_echoes_it() {
    let mut state = store_with(&["#test"]);
    let command = irc_send("hi", "#test");
    assert_eq!(command, "PRIVMSG #test :hi\r\n");
    state.echo("hi", "#test", "me");
    assert_eq!(state.channels[1].messages, vec![chat("me", "hi")]);
    state.echo("hi", "#test", "me");
    assert_eq!(state.channels[1].messages, vec![chat("me", "hi"), chat("me", "hi")]);
    assert!(state.channels[0].messages.is_empty());
}

#[test]
fn echo_and_server_copy_both_stay() {
    let mut state = store_with(&["#test"]);
    state.echo("hi", "#test", "me");
    irc_handler(":me!u@h PRIVMSG #test :hi", &mut state);
    assert_eq!(state.channels[1].messages, vec![chat("me", "hi"), chat("me", "hi")]);
}

#[test]
fn recorded_chat_is_shown_with_the_nick_in_a_column() {
    let state = store_with(&["#test"]);
    assert_eq!(
        irc_shown(":bob!u@h PRIVMSG #test :hello", &state),
        Some(format!("{:12}: {}", "bob", "hello"))
    );
    assert_eq!(
        irc_shown(":a_very_long_nick!u@h PRIVMSG #test :x", &state),
        Some(text("a_very_long_nick: x"))
    );
}

#[test]
fn chat_that_is_dropped_is_not_shown() {
    let state = store_with(&["#test", "me"]);
    assert_eq!(irc_shown(":bob!u@h PRIVMSG #other :hello", &state), None);
    assert_eq!(irc_shown(":bob!u@h PRIVMSG me :hello", &state), None);
}

#[test]
fn unknown_lines_are_shown_as_they_stand() {
    let state = store_with(&["#test"]);
    assert_eq!(irc_shown("ERROR :Closing link", &state), Some(text("ERROR :Closing link")));
    assert_eq!(irc_shown("PING :x", &state), None);
    assert_eq!(irc_shown(":s 001 me :hi", &state), None);
    assert_eq!(irc_shown(":a!u@h JOIN #test", &state), None);
}

#[test]
fn what_is_shown_goes_by_the_store_as_each_line_finds_it() {
    let mut state = State::default();
    let payload = [
        ":a!u@h PRIVMSG #t :early\r\n",
        ":s 353 me = #t :a\r\n",
        ":a!u@h PRIVMSG #t :late\r\n",
        "what\r\n",
    ]
    .concat();
    let handled = handle_text(&payload, &mut state);
    assert_eq!(handled.shown, vec![text("a           : late"), text("what")]);
    assert!(handled.replies.is_empty());
}

#[test]
fn part_holds_whatever_the_reason_is() {
    let reasons =
        ["", "bye", "see you later", "gone\nfor good", "a:b", "x!y@z", ":", "\u{e9}t\u{e9}"];
    for reason in reasons.iter() {
        let mut state = store_with(&["#test", "#other"]);
        state.channels[1].users = vec![text("alice"), text("bob"), text("alice")];
        state.channels[2].users = vec![text("alice")];
        let line = format!(":alice!u@h PART #test :{}", reason);
        assert_eq!(irc_handler(&line, &mut state), None);
        assert_eq!(state.channels.len(), 3);
        assert_eq!(state.channels[1].users, vec![text("bob")], "reason {:?}", reason);
        assert_eq!(state.channels[1].messages, vec![status("<- alice left")]);
        assert_eq!(state.channels[2].users, vec![text("alice")]);
        assert!(state.channels[2].messages.is_empty());
    }
}

#[test]
fn part_with_a_colon_after_a_space_in_the_reason_names_another_target() {
    let mut state = store_with(&["#test"]);
    state.channels[1].users = vec![text("alice")];
    let before = state.channels.clone();
    irc_handler(":alice!u@h PART #test :see :you", &mut state);
    assert_eq!(state.channels, before);
}

#[test]
fn part_whose_reason_fits_an_earlier_form_is_taken_as_that_form() {
    let mut state = store_with(&["#test"]);
    state.channels[1].users = vec![text("alice")];
    irc_handler(":alice!u@h PART #test :x PRIVMSG #test :y", &mut state);
    assert_eq!(state.channels[1].users, vec![text("alice")]);
    assert_eq!(state.channels[1].messages, vec![chat("alice", "y")]);
}
