use zatlas::lsp::protocol::{classify, header_line, HeaderLine, MessageKind};
use zatlas::lsp::uri::{path_to_uri, splits_cleanly};

#[test]
fn a_content_length_header_gives_the_size() {
    assert_eq!(header_line("Content-Length: 12\r\n"), HeaderLine::Length(12));
    assert_eq!(header_line("content-length:  +7 \n"), HeaderLine::Length(7));
    assert_eq!(header_line("CONTENT-LENGTH:0"), HeaderLine::Length(0));
}

#[test]
fn the_blank_line_ends_the_headers() {
    assert_eq!(header_line("\r\n"), HeaderLine::End);
    assert_eq!(header_line("\n"), HeaderLine::End);
}

#[test]
fn other_headers_and_unreadable_lengths_are_passed_over() {
    assert_eq!(header_line("Content-Type: application/json\r\n"), HeaderLine::Other);
    assert_eq!(header_line("Content-Length: abc\r\n"), HeaderLine::Other);
    assert_eq!(header_line("Content-Length: -3\r\n"), HeaderLine::Other);
    assert_eq!(header_line("Content-Length: 99999999999999999999999\r\n"), HeaderLine::Other);
}

#[test]
fn messages_are_told_apart_by_id_and_method() {
    assert_eq!(classify(true, true), MessageKind::ServerRequest);
    assert_eq!(classify(true, false), MessageKind::Response);
    assert_eq!(classify(false, true), MessageKind::Notification);
    assert_eq!(classify(false, false), MessageKind::Notification);
}

#[test]
fn escapes_that_end_inside_a_character_are_caught() {
    assert!(splits_cleanly("file:///a%20b"));
    assert!(splits_cleanly("file:///a%2"));
    assert!(splits_cleanly("%41é"));
    assert!(!splits_cleanly("%4éx"));
    assert!(splits_cleanly(&path_to_uri("/tmp/dir with spaces/é.ts")));
}
