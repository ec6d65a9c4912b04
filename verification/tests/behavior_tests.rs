use juggl::build_chunk_index;
use juggl::count_chunks_parallel;
use juggl::matches_at;
use juggl::materialized_permutation;
use juggl::parse_delimiter;
use juggl::scan_offsets;
use juggl::shuffle;
use juggl::shuffle_with_seed;
use juggl::KeyedPermutation;
use juggl::ShuffleError;

/// Splits a byte stream on non-overlapping delimiter occurrences, the same
/// resumption policy the scanner uses.
fn split_records(out: &[u8], delim: &[u8]) -> Vec<Vec<u8>> {
    let mut records = Vec::new();
    let mut start = 0;
    let mut i = 0;
    if delim.is_empty() {
        return vec![out.to_vec()];
    }
    while i + delim.len() <= out.len() {
        if &out[i..i + delim.len()] == delim {
            records.push(out[start..i].to_vec());
            i += delim.len();
            start = i;
        } else {
            i += 1;
        }
    }
    records.push(out[start..].to_vec());
    records
}

fn sorted_records(out: &[u8], delim: &[u8]) -> Vec<Vec<u8>> {
    let mut r = split_records(out, delim);
    r.sort();
    r
}

fn rebuild(data: &[u8], delim: &[u8]) -> Vec<u8> {
    let index = build_chunk_index(data, delim);
    let mut joined = Vec::new();
    for (i, &(s, e)) in index.iter().enumerate() {
        joined.extend_from_slice(&data[s..e]);
        if i + 1 < index.len() {
            joined.extend_from_slice(delim);
        }
    }
    joined
}

fn contains_adjacent_delims(out: &[u8], delim: &[u8]) -> bool {
    let doubled: Vec<u8> = delim.iter().chain(delim.iter()).copied().collect();
    out.windows(doubled.len()).any(|w| w == &doubled[..])
}

#[test]
fn test_matches_at_basics() {
    assert!(matches_at(b"abcdef", b"cd", 2));
    assert!(!matches_at(b"abcdef", b"cd", 3));
    assert!(!matches_at(b"abcdef", b"ef", 5));
    assert!(matches_at(b"abcdef", b"ef", 4));
    assert!(!matches_at(b"ab", b"", 1));
}

#[test]
fn test_round_trip_rebuild() {
    let cases: Vec<(&[u8], &[u8])> = vec![
        (b"a,b,c,d", b","),
        (b",a,b,c,", b","),
        (b"aaa", b"aa"),
        (b"aaaa", b"aa"),
        (b"a,,b", b","),
        (b"", b","),
        (b"abcd", b","),
        (b"xy", b"xyz"),
        (b"::a::::b", b"::"),
        (b"a,b,c,d", b""),
    ];
    for (data, delim) in cases {
        assert_eq!(rebuild(data, delim), data.to_vec());
    }
}

#[test]
fn test_scan_offsets_partition_independent() {
    let data = b"alpha::beta::gamma::delta::epsilon";
    let delim = b"::";
    let reference = scan_offsets(data, delim, 1);
    for range_size in [2, 3, 5, 7, 1000, usize::MAX] {
        assert_eq!(scan_offsets(data, delim, range_size), reference);
    }
}

#[test]
fn test_offset_set_scenario() {
    let offs = scan_offsets(b"a,b,c,d", b",", 1000000);
    assert_eq!(offs, vec![0, 2, 4, 6]);
}

#[test]
fn test_basic_shuffle() {
    let data = b"apple,banana,cherry,date";
    let out = shuffle(data, b",", None, 1024).unwrap();
    assert_eq!(
        sorted_records(&out, b","),
        vec![
            b"apple".to_vec(),
            b"banana".to_vec(),
            b"cherry".to_vec(),
            b"date".to_vec()
        ]
    );
    assert_eq!(out.iter().filter(|&&b| b == b',').count(), 3);
}

#[test]
fn test_newline_delimiter() {
    let data = b"line1\nline2\nline3\nline4";
    let delim = parse_delimiter("\\n");
    assert_eq!(delim, vec![b'\n']);
    let out = shuffle(data, &delim, Some(9), 1024).unwrap();
    assert_eq!(
        sorted_records(&out, &delim),
        vec![
            b"line1".to_vec(),
            b"line2".to_vec(),
            b"line3".to_vec(),
            b"line4".to_vec()
        ]
    );
}

#[test]
fn test_hex_delimiter() {
    let data = b"part1\x00part2\x00part3";
    let delim = parse_delimiter("\\x00");
    let out = shuffle(data, &delim, Some(3), 1024).unwrap();
    assert_eq!(
        sorted_records(&out, &delim),
        vec![b"part1".to_vec(), b"part2".to_vec(), b"part3".to_vec()]
    );
}

#[test]
fn test_multi_char_delimiter() {
    let data = b"foo::bar::baz::qux";
    let out = shuffle(data, b"::", Some(11), 4).unwrap();
    assert_eq!(
        sorted_records(&out, b"::"),
        vec![
            b"bar".to_vec(),
            b"baz".to_vec(),
            b"foo".to_vec(),
            b"qux".to_vec()
        ]
    );
}

#[test]
fn test_empty_file() {
    let out = shuffle(b"", b",", Some(1), 1024).unwrap();
    assert!(out.is_empty());
}

#[test]
fn test_delimiter_longer_than_buffer() {
    assert_eq!(count_chunks_parallel(b"ab", b"abc"), 1);
    let out = shuffle(b"ab", b"abc", Some(5), 1024).unwrap();
    assert_eq!(out, b"ab".to_vec());
}

#[test]
fn test_empty_delimiter_whole_buffer() {
    assert_eq!(count_chunks_parallel(b"a,b", b""), 1);
    assert_eq!(build_chunk_index(b"a,b", b""), vec![(0, 3)]);
    let out = shuffle(b"a,b", b"", Some(5), 1024).unwrap();
    assert_eq!(out, b"a,b".to_vec());
}

#[test]
fn test_delimiter_at_start_and_end() {
    let data = b",a,b,c,";
    assert_eq!(count_chunks_parallel(data, b","), 5);
    assert_eq!(
        build_chunk_index(data, b","),
        vec![(0, 0), (1, 2), (3, 4), (5, 6), (7, 7)]
    );
    for seed in 0..8u64 {
        let out = shuffle_with_seed(data, b",", seed, 1024).unwrap();
        assert!(!contains_adjacent_delims(&out, b","));
        let mut nonempty: Vec<Vec<u8>> = split_records(&out, b",")
            .into_iter()
            .filter(|r| !r.is_empty())
            .collect();
        nonempty.sort();
        assert_eq!(
            nonempty,
            vec![b"a".to_vec(), b"b".to_vec(), b"c".to_vec()]
        );
    }
}

#[test]
fn test_consecutive_delimiters() {
    let data = b"a,,b,,c";
    assert_eq!(count_chunks_parallel(data, b","), 5);
    for seed in 0..8u64 {
        let out = shuffle_with_seed(data, b",", seed, 1024).unwrap();
        assert!(!contains_adjacent_delims(&out, b","));
        let mut nonempty: Vec<Vec<u8>> = split_records(&out, b",")
            .into_iter()
            .filter(|r| !r.is_empty())
            .collect();
        nonempty.sort();
        assert_eq!(
            nonempty,
            vec![b"a".to_vec(), b"b".to_vec(), b"c".to_vec()]
        );
    }
}

#[test]
fn test_overlapping_candidates() {
    // "aaa" under "aa": one match at 0, records "" and "a".
    assert_eq!(count_chunks_parallel(b"aaa", b"aa"), 2);
    assert_eq!(build_chunk_index(b"aaa", b"aa"), vec![(0, 0), (2, 3)]);
    let out = shuffle(b"aaa", b"aa", Some(4), 1024).unwrap();
    assert_eq!(out, b"aaa".to_vec());
}

#[test]
fn test_large_file() {
    let mut parts: Vec<String> = Vec::new();
    for i in 0..1000 {
        parts.push(format!("chunk{}", i));
    }
    let data = parts.join(",").into_bytes();
    let out1 = shuffle_with_seed(&data, b",", 99, 4096).unwrap();
    let out2 = shuffle_with_seed(&data, b",", 99, 64).unwrap();
    assert_eq!(out1, out2);
    let mut expected: Vec<Vec<u8>> = parts.iter().map(|p| p.clone().into_bytes()).collect();
    expected.sort();
    assert_eq!(sorted_records(&out1, b","), expected);
}

#[test]
fn test_special_characters_in_content() {
    let data = b"hello\nworld|test\ttab|end";
    let out = shuffle(data, b"|", Some(2), 1024).unwrap();
    assert_eq!(
        sorted_records(&out, b"|"),
        vec![
            b"end".to_vec(),
            b"hello\nworld".to_vec(),
            b"test\ttab".to_vec()
        ]
    );
}

#[test]
fn test_seeded_shuffle_reproducible() {
    let data = b"1,2,3,4,5,6,7,8,9,10";
    let out1 = shuffle_with_seed(data, b",", 12345, 1024).unwrap();
    let out2 = shuffle_with_seed(data, b",", 12345, 1024).unwrap();
    let out3 = shuffle_with_seed(data, b",", 12345, 3).unwrap();
    assert_eq!(out1, out2);
    assert_eq!(out1, out3);
}

#[test]
fn test_different_seeds_produce_different_outputs() {
    let data = b"a,b,c,d,e,f,g,h,i,j,k,l,m,n,o,p";
    let out1 = shuffle_with_seed(data, b",", 123, 1024).unwrap();
    let out2 = shuffle_with_seed(data, b",", 200, 1024).unwrap();
    assert_ne!(out1, out2);
    assert_eq!(sorted_records(&out1, b","), sorted_records(&out2, b","));
}

#[test]
fn test_seed_uses_low_32_bits() {
    let data = b"a,b,c,d,e";
    let out1 = shuffle_with_seed(data, b",", 2, 1024).unwrap();
    let out2 = shuffle_with_seed(data, b",", 0x1_0000_0002, 1024).unwrap();
    assert_eq!(out1, out2);
}

#[test]
fn test_scenario_fixed_seed() {
    let data = b"a,b,c,d";
    let out1 = shuffle_with_seed(data, b",", 42, 1024).unwrap();
    let out2 = shuffle_with_seed(data, b",", 42, 1024).unwrap();
    assert_eq!(out1, out2);
    assert_eq!(out1.iter().filter(|&&b| b == b',').count(), 3);
    assert_eq!(
        sorted_records(&out1, b","),
        vec![b"a".to_vec(), b"b".to_vec(), b"c".to_vec(), b"d".to_vec()]
    );
}

#[test]
fn test_zero_chunks_rejected() {
    let r = KeyedPermutation::new(5, 0);
    assert!(r.is_err());
    assert_eq!(r.err().unwrap(), ShuffleError::ZeroChunks);
    assert!(KeyedPermutation::new(5, 1).is_ok());
}

#[test]
fn test_keyed_permutation_bijection() {
    for &(seed, n) in &[(0u64, 1u32), (7, 5), (13, 13), (99, 128), (5_000_000_000, 249)] {
        let engine = KeyedPermutation::new(seed, n).unwrap();
        let mut seen: Vec<u32> = (0..n).map(|k| engine.pi(k)).collect();
        seen.sort();
        let identity: Vec<u32> = (0..n).collect();
        assert_eq!(seen, identity);
    }
}

#[test]
fn test_keyed_permutation_moves_positions() {
    // Seed 1 over 4 chunks draws sources 1, 2, 3, 0: the key really reorders.
    let engine = KeyedPermutation::new(1, 4).unwrap();
    let drawn: Vec<u32> = (0..4).map(|k| engine.pi(k)).collect();
    assert_eq!(drawn, vec![1, 2, 3, 0]);
}

#[test]
fn test_materialized_permutation_bijection() {
    for &n in &[0usize, 1, 2, 17, 100] {
        let p = materialized_permutation(31, n);
        assert_eq!(p.len(), n);
        let mut seen = p.clone();
        seen.sort();
        let identity: Vec<usize> = (0..n).collect();
        assert_eq!(seen, identity);
    }
    assert_eq!(materialized_permutation(8, 64), materialized_permutation(8, 64));
    assert_ne!(materialized_permutation(1, 100), materialized_permutation(2, 100));
}

#[test]
fn test_too_many_chunks_is_the_only_error() {
    // Every in-memory buffer here has far fewer records than the 32-bit
    // domain, so the pipeline must succeed.
    assert!(shuffle(b"a,b", b",", None, 1024).is_ok());
    assert!(shuffle(b"", b"", Some(0), 1).is_ok());
}
