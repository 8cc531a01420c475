use lib::transport::{read_message, write_message};

#[test]
fn the_last_content_length_header_counts() {
    let headers = vec!["Content-Length: 12\r\n".to_string(), "Content-Type: x\r\n".to_string()];
    assert_eq!(read_message(&headers), Some(12));
    let headers = vec!["Content-Length: 12".to_string(), "Content-Length: nope".to_string()];
    assert_eq!(read_message(&headers), None);
    assert_eq!(read_message(&["Content-Length:+7 ".to_string()]), Some(7));
    assert_eq!(read_message(&[]), None);
}

#[test]
fn write_message_frames_by_byte_length() {
    assert_eq!(write_message("{\"é\":1}"), "Content-Length: 8\r\n\r\n{\"é\":1}");
}

#[test]
fn a_written_frame_declares_its_body_length() {
    for json in ["{}", "{\"é\":\"ї\"}", ""] {
        let frame = write_message(json);
        let (header, rest) = frame.split_once("\r\n").unwrap();
        let header_line = format!("{header}\r\n");
        assert_eq!(read_message(&[header_line]), Some(json.len()));
        assert_eq!(rest, format!("\r\n{json}"));
    }
}

#[test]
fn blank_lines_end_the_headers() {
    assert!(lib::transport::is_blank_line("\r\n"));
    assert!(lib::transport::is_blank_line(""));
    assert!(lib::transport::is_blank_line(" \t\n"));
    assert!(!lib::transport::is_blank_line("Content-Length: 2\r\n"));
}
