use blocksy3::frame::{body_length, read_body, read_header, FrameError};

#[test]
fn frame_write_lays_out_header_and_body() {
    assert_eq!(
        blocksy3::frame::write(b"length = 7\n", b"a = 1"),
        b"# HEADER\n\nlength = 7\n\n# BODY\n\na = 1\n".to_vec()
    );
    assert_eq!(blocksy3::frame::write(b"", b""), b"# HEADER\n\n\n# BODY\n\n\n".to_vec());
}

#[test]
fn frame_body_length_counts_two_line_ends() {
    assert_eq!(body_length(b""), Some(2));
    assert_eq!(body_length(b"a = 1"), Some(7));
}

#[test]
fn frame_round_trip() {
    let header = b"length = 7\n";
    let body = b"a = 1";
    let mut bytes = blocksy3::frame::write(header, body);
    let length = body_length(body).unwrap();
    bytes.extend_from_slice(&blocksy3::frame::write(b"length = 2\n", b""));
    let (read, start) = read_header(&bytes).unwrap();
    assert_eq!(read, b"\nlength = 7\n\n".to_vec());
    assert_eq!(start, header.len() + 18);
    assert_eq!(read_body(&bytes, start, length), Ok(b"\na = 1\n".to_vec()));
    let next = start + length as usize;
    let (read, start) = read_header(&bytes[next..]).unwrap();
    assert_eq!(read, b"\nlength = 2\n\n".to_vec());
    assert_eq!(read_body(&bytes[next..], start, 2), Ok(b"\n\n".to_vec()));
    assert_eq!(next + start + 2, bytes.len());
}

#[test]
fn frame_read_header_errors() {
    assert_eq!(read_header(b""), Err(FrameError::MissingHeader));
    assert_eq!(read_header(b"# BODY\n"), Err(FrameError::IncorrectHeader));
    assert_eq!(read_header(b"# HEADER"), Err(FrameError::IncorrectHeader));
    assert_eq!(read_header(b"\n# HEADER\n"), Err(FrameError::IncorrectHeader));
    assert_eq!(read_header(b"# HEADER\n"), Err(FrameError::BrokenHeader));
    assert_eq!(read_header(b"# HEADER\nlength = 1\n"), Err(FrameError::BrokenHeader));
    assert_eq!(read_header(b"# HEADER\nlength = 1\n# BODY"), Err(FrameError::BrokenHeader));
    assert_eq!(read_header(b"# HEADER\n# BODY\n"), Ok((vec![], 16)));
    assert_eq!(read_header(b"# HEADER\nx\n# BODY\nrest"), Ok((b"x\n".to_vec(), 18)));
}

#[test]
fn frame_read_body_needs_all_its_bytes() {
    let bytes = b"0123456789";
    assert_eq!(read_body(bytes, 2, 3), Ok(b"234".to_vec()));
    assert_eq!(read_body(bytes, 10, 0), Ok(vec![]));
    assert_eq!(read_body(bytes, 0, 10), Ok(bytes.to_vec()));
    assert_eq!(read_body(bytes, 8, 3), Err(FrameError::ShortBody));
    assert_eq!(read_body(bytes, 0, u64::MAX), Err(FrameError::ShortBody));
}
