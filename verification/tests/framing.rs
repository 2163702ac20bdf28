use chat_relay::framing::drain_frames;

#[test]
fn one_line_in_one_chunk() {
    let mut buf: Vec<u8> = Vec::new();
    let lines = drain_frames(&mut buf, b"hello\n");
    assert_eq!(lines, vec![b"hello".to_vec()]);
    assert!(buf.is_empty());
}

#[test]
fn no_delimiter_stays_buffered() {
    let mut buf: Vec<u8> = Vec::new();
    let lines = drain_frames(&mut buf, b"partial");
    assert!(lines.is_empty());
    assert_eq!(buf, b"partial".to_vec());
}

#[test]
fn many_lines_and_trailing_fragment() {
    let mut buf: Vec<u8> = Vec::new();
    let lines = drain_frames(&mut buf, b"a\nbb\nccc");
    assert_eq!(lines, vec![b"a".to_vec(), b"bb".to_vec()]);
    assert_eq!(buf, b"ccc".to_vec());
    let more = drain_frames(&mut buf, b"\n");
    assert_eq!(more, vec![b"ccc".to_vec()]);
    assert!(buf.is_empty());
}

#[test]
fn empty_lines_are_lines() {
    let mut buf: Vec<u8> = Vec::new();
    let lines = drain_frames(&mut buf, b"\n\n");
    assert_eq!(lines, vec![Vec::<u8>::new(), Vec::<u8>::new()]);
    assert!(buf.is_empty());
}

#[test]
fn line_split_byte_by_byte() {
    let msg = b"hi there\n";
    let mut buf: Vec<u8> = Vec::new();
    let mut all: Vec<Vec<u8>> = Vec::new();
    for i in 0..msg.len() {
        let lines = drain_frames(&mut buf, &msg[i..i + 1]);
        all.extend(lines);
    }
    assert_eq!(all, vec![b"hi there".to_vec()]);
    assert!(buf.is_empty());
}

#[test]
fn lines_split_across_uneven_chunks() {
    let mut buf: Vec<u8> = Vec::new();
    let mut all: Vec<Vec<u8>> = Vec::new();
    all.extend(drain_frames(&mut buf, b"ab"));
    all.extend(drain_frames(&mut buf, b"c\nde"));
    all.extend(drain_frames(&mut buf, b"f\n"));
    assert_eq!(all, vec![b"abc".to_vec(), b"def".to_vec()]);
    assert!(buf.is_empty());
}
