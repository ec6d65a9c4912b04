use juggl::build_chunk_index;
use juggl::count_chunks_parallel;
use juggl::parse_delimiter;

#[test]
fn test_parse_delimiter_simple() {
    assert_eq!(parse_delimiter("abc"), vec![b'a', b'b', b'c']);
    assert_eq!(parse_delimiter(","), vec![b',']);
    assert_eq!(parse_delimiter("|"), vec![b'|']);
}

#[test]
fn test_parse_delimiter_escape_sequences() {
    assert_eq!(parse_delimiter("\\n"), vec![b'\n']);
    assert_eq!(parse_delimiter("\\r"), vec![b'\r']);
    assert_eq!(parse_delimiter("\\t"), vec![b'\t']);
    assert_eq!(parse_delimiter("\\0"), vec![b'\0']);
}

#[test]
fn test_parse_delimiter_hex() {
    assert_eq!(parse_delimiter("\\x00"), vec![0x00]);
    assert_eq!(parse_delimiter("\\x0a"), vec![0x0a]);
    assert_eq!(parse_delimiter("\\x41"), vec![0x41]);
    assert_eq!(parse_delimiter("\\xff"), vec![0xff]);
}

#[test]
fn test_parse_delimiter_mixed() {
    assert_eq!(parse_delimiter("a\\nb"), vec![b'a', b'\n', b'b']);
    assert_eq!(parse_delimiter("\\x00,\\x01"), vec![0x00, b',', 0x01]);
}

#[test]
fn test_parse_delimiter_invalid_hex() {
    assert_eq!(parse_delimiter("\\xgg"), vec![b'\\', b'x', b'g', b'g']);
    assert_eq!(parse_delimiter("\\x1"), vec![b'\\', b'x', b'1']);
}

#[test]
fn test_parse_delimiter_escaped_backslash() {
    assert_eq!(parse_delimiter("\\\\"), vec![b'\\']);
    assert_eq!(parse_delimiter("\\a"), vec![b'a']);
}

#[test]
fn test_count_chunks() {
    let data = b"a,b,c,d";
    let delimiter = b",";
    assert_eq!(count_chunks_parallel(data, delimiter), 4);
}

#[test]
fn test_count_chunks_empty() {
    let data = b"";
    let delimiter = b",";
    assert_eq!(count_chunks_parallel(data, delimiter), 1);
}

#[test]
fn test_count_chunks_no_delimiter() {
    let data = b"abcd";
    let delimiter = b",";
    assert_eq!(count_chunks_parallel(data, delimiter), 1);
}

#[test]
fn test_build_chunk_index() {
    let data = b"a,b,c,d";
    let delimiter = b",";
    let index = build_chunk_index(data, delimiter);

    assert_eq!(index, vec![(0, 1), (2, 3), (4, 5), (6, 7)]);
}

#[test]
fn test_build_chunk_index_with_consecutive_delimiters() {
    let data = b"a,,b";
    let delimiter = b",";
    let index = build_chunk_index(data, delimiter);

    assert_eq!(index, vec![(0, 1), (2, 2), (3, 4)]);
}
