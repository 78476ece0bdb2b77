use grairc::gfx::eg::{pixel_offset, put_pixel};
use grairc::gfx::renderers::{clock_text, message_text, nick_text};
use grairc::irc::types::IrcMessage;

#[test]
fn pixels_are_stored_by_column_from_the_bottom() {
    assert_eq!(pixel_offset(0, 239, 400, 240), Some(0));
    assert_eq!(pixel_offset(0, 0, 400, 240), Some(3 * 239));
    assert_eq!(pixel_offset(1, 239, 400, 240), Some(3 * 240));
    assert_eq!(pixel_offset(399, 0, 400, 240), Some(3 * 400 * 240 - 3));
    assert_eq!(pixel_offset(7, 5, 320, 240), Some(3 * (7 * 240 + 234)));
}

#[test]
fn points_off_the_screen_have_no_place() {
    assert_eq!(pixel_offset(-1, 0, 400, 240), None);
    assert_eq!(pixel_offset(0, -1, 400, 240), None);
    assert_eq!(pixel_offset(400, 0, 400, 240), None);
    assert_eq!(pixel_offset(0, 240, 400, 240), None);
    assert_eq!(pixel_offset(i32::MAX, i32::MAX, 400, 240), None);
    assert_eq!(pixel_offset(i32::MIN, i32::MIN, 400, 240), None);
    assert_eq!(pixel_offset(0, 0, 0, 0), None);
}

#[test]
fn every_pixel_has_its_own_three_bytes() {
    let width: u32 = 7;
    let height: u32 = 5;
    let mut taken = vec![false; (3 * width * height) as usize];
    for x in 0..width as i32 {
        for y in 0..height as i32 {
            let at = pixel_offset(x, y, width, height).unwrap();
            for k in 0..3usize {
                assert!(!taken[at + k]);
                taken[at + k] = true;
            }
        }
    }
    assert!(taken.iter().all(|t| *t));
}

#[test]
fn a_pixel_is_written_blue_green_red() {
    let mut framebuffer = vec![0u8; 3 * 4 * 2];
    put_pixel(&mut framebuffer, 1, 0, 4, 2, 10, 20, 30);
    let mut expected = vec![0u8; 3 * 4 * 2];
    expected[9] = 30;
    expected[10] = 20;
    expected[11] = 10;
    assert_eq!(framebuffer, expected);
    put_pixel(&mut framebuffer, 4, 0, 4, 2, 1, 2, 3);
    put_pixel(&mut framebuffer, 0, 2, 4, 2, 1, 2, 3);
    put_pixel(&mut framebuffer, -1, -1, 4, 2, 1, 2, 3);
    assert_eq!(framebuffer, expected);
}

#[test]
fn nick_label_fills_a_column_of_twelve() {
    assert_eq!(nick_text("bob"), format!("{:12}:", "bob"));
    assert_eq!(nick_text("bob"), "bob         :");
    assert_eq!(nick_text(""), "            :");
    assert_eq!(nick_text("twelve_chars"), "twelve_chars:");
    assert_eq!(nick_text("thirteen_char"), "thirteen_char:");
    assert_eq!(nick_text("h\u{e9}l\u{e8}ne"), format!("{:12}:", "h\u{e9}l\u{e8}ne"));
}

#[test]
fn message_text_is_wrapped_at_fifty() {
    let said = IrcMessage { nick: Some("bob".to_string()), content: "hello".to_string() };
    assert_eq!(message_text(&said), " hello\n");
    let notice = IrcMessage { nick: None, content: "-> bob joined".to_string() };
    assert_eq!(message_text(&notice), "-> bob joined\n");
    let long = IrcMessage { nick: None, content: "x".repeat(60) };
    let mut expected = "x".repeat(50);
    expected.push('\n');
    expected.push_str(&"x".repeat(9));
    expected.push('\n');
    assert_eq!(message_text(&long), expected);
}

#[test]
fn clock_text_has_two_digits_for_each_part() {
    assert_eq!(clock_text(0, 0, 0), "00:00:00");
    assert_eq!(clock_text(9, 5, 7), "09:05:07");
    assert_eq!(clock_text(23, 59, 59), "23:59:59");
    for n in 0..=255u8 {
        assert_eq!(clock_text(n, n, n), format!("{:02}:{:02}:{:02}", n, n, n));
    }
}
