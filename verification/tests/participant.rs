use udp_chat::participant::{
    display_line, encode_wire, find_colon, local_echo, prepare_send, receive_event,
};

#[test]
fn send_is_tagged_and_echoed_at_once() {
    let (wire, echo) = prepare_send(7, "hello");
    assert_eq!(wire, "7:hello");
    assert_eq!(echo, "Me: hello");
}

#[test]
fn echo_never_depends_on_the_text_shape() {
    assert_eq!(local_echo("hello"), "Me: hello");
    assert_eq!(local_echo(""), "Me: ");
    assert_eq!(local_echo("1:looks like a tag"), "Me: 1:looks like a tag");
}

#[test]
fn wire_format_keeps_colons_in_the_text() {
    assert_eq!(encode_wire(12, "a:b:c"), "12:a:b:c");
    assert_eq!(encode_wire(0, ""), "0:");
}

#[test]
fn malformed_prefix_shows_raw() {
    assert_eq!(display_line(1, "abc:hello"), Some("abc:hello".to_string()));
}

#[test]
fn own_messages_are_suppressed() {
    assert_eq!(display_line(7, "7:hello"), None);
    assert_eq!(display_line(7, &encode_wire(7, "a:b:c")), None);
    assert_eq!(display_line(7, "7:"), None);
}

#[test]
fn own_id_written_with_leading_zeros_is_still_suppressed() {
    assert_eq!(display_line(7, "007:x"), None);
    assert_eq!(display_line(1, "007:x"), Some("User 7: x".to_string()));
}

#[test]
fn remote_messages_are_attributed() {
    assert_eq!(display_line(7, "2:yo"), Some("User 2: yo".to_string()));
    assert_eq!(display_line(7, "2:a:b"), Some("User 2: a:b".to_string()));
    assert_eq!(display_line(7, "2:"), Some("User 2: ".to_string()));
}

#[test]
fn payload_without_colon_shows_raw() {
    assert_eq!(display_line(7, "hello"), Some("hello".to_string()));
    assert_eq!(display_line(7, ""), Some("".to_string()));
}

#[test]
fn unparsable_tags_show_raw() {
    assert_eq!(display_line(7, ":hello"), Some(":hello".to_string()));
    assert_eq!(
        display_line(7, "4294967296:x"),
        Some("4294967296:x".to_string())
    );
    assert_eq!(display_line(7, "+7:x"), Some("+7:x".to_string()));
    assert_eq!(display_line(7, " 7:x"), Some(" 7:x".to_string()));
}

#[test]
fn find_colon_reports_the_first_one() {
    assert_eq!(find_colon("a:b:c"), Some(1));
    assert_eq!(find_colon(":x"), Some(0));
    assert_eq!(find_colon("abc"), None);
    assert_eq!(find_colon(""), None);
}

#[test]
fn receive_decodes_and_attributes() {
    assert_eq!(
        receive_event(7, &b"2:yo".to_vec()),
        Some("User 2: yo".to_string())
    );
    assert_eq!(receive_event(7, &b"7:hi".to_vec()), None);
    assert_eq!(
        receive_event(7, &b"abc:hello".to_vec()),
        Some("abc:hello".to_string())
    );
}

#[test]
fn receive_handles_multibyte_text() {
    let payload = "2:h\u{e9}llo".as_bytes().to_vec();
    assert_eq!(
        receive_event(7, &payload),
        Some("User 2: h\u{e9}llo".to_string())
    );
}

#[test]
fn receive_substitutes_invalid_bytes() {
    assert_eq!(
        receive_event(7, &vec![0xff, 0xfe]),
        Some("\u{fffd}\u{fffd}".to_string())
    );
    let mut payload = b"2:a".to_vec();
    payload.push(0xff);
    assert_eq!(
        receive_event(7, &payload),
        Some("User 2: a\u{fffd}".to_string())
    );
}
