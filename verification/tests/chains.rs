use grairc::irc::effect::{is_group_name, users_without};
use grairc::irc::event::{
    classify_chars, field_of, names_pattern, tail_of, user_pattern, IrcEvent,
};
use grairc::irc::pattern::{
    anchor_here, chain_between, find_chain, first_anchor, last_anchor, literal_anchor,
};
use grairc::irc::server::dispatch;
use grairc::irc::types::{IrcChannel, IrcChannelType, IrcMessage};
use grairc::state::State;
use grairc::text::end_of_line;

fn chars(s: &str) -> Vec<char> {
    s.chars().collect()
}

#[test]
fn a_literal_anchor_asks_for_each_character() {
    assert_eq!(literal_anchor(" :"), vec![Some(' '), Some(':')]);
    assert_eq!(literal_anchor(""), Vec::<Option<char>>::new());
}

#[test]
fn an_anchor_stands_where_its_characters_stand() {
    let text = chars("a = b");
    let symbol = vec![Some(' '), None, Some(' ')];
    assert!(anchor_here(&text, &symbol, 1));
    assert!(!anchor_here(&text, &symbol, 0));
    assert!(!anchor_here(&text, &symbol, 2));
    assert!(anchor_here(&text, &Vec::new(), 5));
}

#[test]
fn anchors_are_found_first_and_last() {
    let text = chars("a!b!c!");
    let bang = literal_anchor("!");
    assert_eq!(first_anchor(&text, &bang, 0, 6), Some(1));
    assert_eq!(last_anchor(&text, &bang, 0, 6), Some(5));
    assert_eq!(last_anchor(&text, &bang, 0, 5), Some(3));
    assert_eq!(first_anchor(&text, &bang, 2, 6), Some(3));
    assert_eq!(first_anchor(&text, &bang, 4, 5), None);
    assert_eq!(last_anchor(&text, &bang, 6, 6), None);
    assert_eq!(last_anchor(&text, &bang, 0, 0), None);
    assert_eq!(first_anchor(&text, &Vec::new(), 2, 6), Some(2));
    assert_eq!(last_anchor(&text, &Vec::new(), 2, 6), Some(6));
}

#[test]
fn a_line_ends_at_its_line_feed() {
    let text = chars("ab\ncd");
    assert_eq!(end_of_line(&text, 0), 2);
    assert_eq!(end_of_line(&text, 2), 2);
    assert_eq!(end_of_line(&text, 3), 5);
    assert_eq!(end_of_line(&text, 5), 5);
}

#[test]
fn the_chain_starts_first_and_reaches_furthest() {
    let text = chars("x:a!b!c@d@e PRIVMSG f PRIVMSG g :h :i");
    let chat = user_pattern(" PRIVMSG ", true);
    let at = find_chain(&text, &chat).unwrap();
    assert_eq!(at, vec![1, 5, 9, 21, 34]);
    assert_eq!(field_of(&text, &chat, &at, 0), "a!b");
    assert_eq!(field_of(&text, &chat, &at, 1), "c@d");
    assert_eq!(field_of(&text, &chat, &at, 2), "e PRIVMSG f");
    assert_eq!(field_of(&text, &chat, &at, 3), "g :h");
    assert_eq!(tail_of(&text, &chat, &at), chars("i"));
}

#[test]
fn a_chain_lies_on_one_line() {
    let chat = user_pattern(" PRIVMSG ", true);
    assert_eq!(find_chain(&chars(":a!b@c\n PRIVMSG d :e"), &chat), None);
    let text = chars(":a!b\n:c!d@e PRIVMSG f :g\nh");
    let at = find_chain(&text, &chat).unwrap();
    assert_eq!(at, vec![5, 7, 9, 11, 21]);
    assert_eq!(tail_of(&text, &chat, &at), chars("g"));
    assert_eq!(chain_between(&text, &chat, 0, 4), None);
    assert_eq!(chain_between(&text, &chat, 5, 24), Some(vec![5, 7, 9, 11, 21]));
}

#[test]
fn no_anchors_make_no_chain() {
    assert_eq!(find_chain(&chars("abc"), &Vec::new()), None);
    assert_eq!(find_chain(&chars(""), &vec![Vec::new()]), Some(vec![0]));
}

#[test]
fn the_name_list_pattern_has_a_symbol_of_one_character() {
    let names = names_pattern();
    assert_eq!(names.len(), 4);
    assert_eq!(names[2], vec![Some(' '), None, Some(' ')]);
    let text = chars(":s 353 me = #t :a b");
    let at = find_chain(&text, &names).unwrap();
    assert_eq!(at, vec![0, 2, 9, 14]);
    assert_eq!(field_of(&text, &names, &at, 2), "#t");
}

#[test]
fn classify_chars_is_classify_on_characters() {
    assert_eq!(
        classify_chars(&chars(":a!u@h JOIN #t")),
        IrcEvent::Join { nick: "a".to_string(), target: "#t".to_string() }
    );
}

#[test]
fn group_names_begin_with_the_sigil() {
    assert!(is_group_name("#test"));
    assert!(is_group_name("#"));
    assert!(!is_group_name(""));
    assert!(!is_group_name("test"));
    assert!(!is_group_name(" #test"));
    assert!(!is_group_name("<system>"));
}

#[test]
fn users_without_keeps_the_rest_in_order() {
    let users: Vec<String> =
        ["a", "b", "a", "c"].iter().map(|u| u.to_string()).collect();
    assert_eq!(users_without(&users, "a"), vec!["b".to_string(), "c".to_string()]);
    assert_eq!(users_without(&users, "d"), users);
    assert_eq!(users_without(&Vec::new(), "a"), Vec::<String>::new());
}

#[test]
fn events_are_applied_as_lines_are_handled() {
    let mut state = State::default();
    state.channels.push(IrcChannel {
        selected: false,
        name: "#t".to_string(),
        users: vec![],
        messages: vec![],
        channel_type: IrcChannelType::Channel,
    });
    state.apply(IrcEvent::Join { nick: "a".to_string(), target: "#t".to_string() });
    state.apply(IrcEvent::Chat {
        nick: "a".to_string(),
        target: "#t".to_string(),
        content: "hi".to_string(),
    });
    state.apply(IrcEvent::Ping { reply: "PONG".to_string() });
    state.apply(IrcEvent::Other);
    state.apply(IrcEvent::Notice { text: "motd".to_string() });
    state.push_message(1, IrcMessage::status("done".to_string()));
    assert_eq!(state.channels[1].users, vec!["a".to_string()]);
    assert_eq!(
        state.channels[1].messages,
        vec![
            IrcMessage::status("-> a joined".to_string()),
            IrcMessage::chat("a".to_string(), "hi".to_string()),
            IrcMessage::status("done".to_string()),
        ]
    );
    assert_eq!(state.channels[0].messages, vec![IrcMessage::status("motd".to_string())]);
    assert_eq!(dispatch(&chars("PING :1"), &mut state), Some("PONG :1".to_string()));
    assert_eq!(IrcChannel::group("#x".to_string()).name, "#x");
}
