use lucy::mcp::{finish_line, line_step, LineStep, MCP_MAX_LINE_BYTES};

/// Reads one line from `data` the way the session reader does: buffers of
/// at most `buf_cap` bytes, stepping until a newline, the end, or the cap.
fn read_line_capped_with(data: &mut &[u8], buf: &mut String, max_bytes: usize, buf_cap: usize) -> Result<usize, ()> {
    let mut raw: Vec<u8> = Vec::new();
    loop {
        let available = &data[..data.len().min(buf_cap)];
        if available.is_empty() {
            break;
        }
        match line_step(&mut raw, available, max_bytes) {
            LineStep::Done { consumed } => {
                *data = &data[consumed..];
                break;
            }
            LineStep::More { consumed } => {
                *data = &data[consumed..];
            }
            LineStep::TooLong => return Err(()),
        }
    }
    Ok(finish_line(buf, &raw))
}

fn read_line_capped(data: &mut &[u8], buf: &mut String) -> Result<usize, ()> {
    read_line_capped_with(data, buf, MCP_MAX_LINE_BYTES, 8192)
}

#[test]
fn capped_reads_one_line_including_newline() {
    let mut reader: &[u8] = b"hello\nworld\n";
    let mut buf = String::new();
    let n = read_line_capped(&mut reader, &mut buf).unwrap();
    assert_eq!(n, 6);
    assert_eq!(buf, "hello\n");
    buf.clear();
    let n2 = read_line_capped(&mut reader, &mut buf).unwrap();
    assert_eq!(n2, 6);
    assert_eq!(buf, "world\n");
}

#[test]
fn capped_eof_returns_zero() {
    let mut reader: &[u8] = b"";
    let mut buf = String::new();
    let n = read_line_capped(&mut reader, &mut buf).unwrap();
    assert_eq!(n, 0);
    assert!(buf.is_empty());
}

#[test]
fn capped_unterminated_final_line_then_eof() {
    let mut reader: &[u8] = b"partial";
    let mut buf = String::new();
    let n = read_line_capped(&mut reader, &mut buf).unwrap();
    assert_eq!(n, 7);
    assert_eq!(buf, "partial");
    buf.clear();
    let n2 = read_line_capped(&mut reader, &mut buf).unwrap();
    assert_eq!(n2, 0);
}

#[test]
fn capped_rejects_line_over_limit() {
    let mut reader: &[u8] = b"abcdefghij";
    let mut buf = String::new();
    assert!(read_line_capped_with(&mut reader, &mut buf, 4, 8192).is_err());
}

#[test]
fn capped_allows_exact_fit_terminated_line() {
    let mut reader: &[u8] = b"abc\n";
    let mut buf = String::new();
    let n = read_line_capped_with(&mut reader, &mut buf, 4, 8192).unwrap();
    assert_eq!(n, 4);
    assert_eq!(buf, "abc\n");
}

#[test]
fn split_multibyte_character_survives_small_buffers() {
    let mut reader: &[u8] = "año\n".as_bytes();
    let mut buf = String::new();
    let n = read_line_capped_with(&mut reader, &mut buf, 100, 2).unwrap();
    assert_eq!(n, 5);
    assert_eq!(buf, "año\n");
}

#[test]
fn terminated_line_longer_than_cap_is_accepted() {
    let mut raw = Vec::new();
    assert_eq!(line_step(&mut raw, b"abcdefgh\nrest", 2), LineStep::Done { consumed: 9 });
    assert_eq!(raw, b"abcdefgh\n".to_vec());
}

#[test]
fn invalid_utf8_is_replaced() {
    let mut buf = String::from("x");
    let n = finish_line(&mut buf, &vec![0x61, 0xff, 0x0a]);
    assert_eq!(n, 3);
    assert_eq!(buf, "xa\u{fffd}\n");
}
