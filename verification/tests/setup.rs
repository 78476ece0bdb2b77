use grairc::config::{parse_port, text_rows, Config};

#[test]
fn stand_in_settings_name_no_server() {
    let config = Config::default();
    assert_eq!(config.nickname, "null");
    assert_eq!(config.server_hostname, "null");
    assert_eq!(config.server_port, 0);
    assert_eq!(config.autojoin_channels, vec!["#null".to_string()]);
}

#[test]
fn port_is_read_as_the_standard_library_reads_it() {
    let cases = [
        "", "+", "-", "0", "6667", "+6667", "-1", "++1", "+-1", "65535", "65536", "065535",
        "0000000000000000000000000000080", "99999999999999999999999", " 80", "80 ", "8 0", "8a",
        "0x50", "\u{663}", "1\u{0}", "655350", "70000", "4294967296", "+0", "+00065535",
    ];
    for case in cases.iter() {
        assert_eq!(parse_port(case), case.parse::<u16>().ok(), "text {:?}", case);
    }
}

#[test]
fn every_port_is_read_back() {
    for port in 0u32..65536 {
        assert_eq!(parse_port(&port.to_string()), Some(port as u16));
    }
    for over in 65536u32..70000 {
        assert_eq!(parse_port(&over.to_string()), None);
    }
}

#[test]
fn rows_are_cut_as_the_standard_library_cuts_lines() {
    let cases = [
        "", "a", "a\n", "a\nb", "a\r\nb\r\n", "\n", "\n\n", "\r\n", "\r", "a\r", "a\r\r\n",
        "a\n\nb", "#general\n#rust\n", "\na", "a\rb\nc", "\r\n\r\n", "x\n\r",
    ];
    for case in cases.iter() {
        let expected: Vec<String> = case.lines().map(|l| l.to_string()).collect();
        assert_eq!(text_rows(case), expected, "text {:?}", case);
    }
}

#[test]
fn answers_make_settings() {
    let made = Config::from_answers(
        "me".to_string(),
        "irc.example.com".to_string(),
        "6667",
        "#general\n#rust",
    );
    assert_eq!(
        made,
        Some(Config {
            nickname: "me".to_string(),
            server_hostname: "irc.example.com".to_string(),
            server_port: 6667,
            autojoin_channels: vec!["#general".to_string(), "#rust".to_string()],
        })
    );
}

#[test]
fn answers_with_no_port_make_no_settings() {
    assert_eq!(Config::from_answers("me".to_string(), "h".to_string(), "port", "#a"), None);
    assert_eq!(Config::from_answers("me".to_string(), "h".to_string(), "65536", "#a"), None);
    assert_eq!(Config::from_answers("me".to_string(), "h".to_string(), "", "#a"), None);
}
