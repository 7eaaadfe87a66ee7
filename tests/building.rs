use hypher::encode::{how_many_bytes, to_be_bytes, EncodeError};
use hypher::hyphenate::{hyphenate, match_levels, Lang};
use hypher::state::{from_be_bytes, State};
use hypher::tex::{parse, ParseError};
use hypher::text::{char_to_byte_bounds, lowercase_and_dot};
use hypher::trie::TrieBuilder;

fn build(patterns: &[&str]) -> TrieBuilder {
    let mut builder = TrieBuilder::new();
    for p in patterns {
        builder.insert(p);
    }
    builder
}

#[test]
fn parse_ignores_text_outside_blocks_and_comments() {
    let tex = "Some text a1b\n% c1d\n\\patterns{ % e1f\n .ab1c\tx2y\n\nq1r}\nafter}";
    assert_eq!(parse(tex), Ok(vec![".ab1c", "x2y", "q1r"]));
}

#[test]
fn parse_several_blocks() {
    let tex = "\\patterns{a1b}\\patterns{ c1d }";
    assert_eq!(parse(tex), Ok(vec!["a1b", "c1d"]));
}

#[test]
fn parse_empty_and_without_block() {
    assert_eq!(parse(""), Ok(vec![]));
    assert_eq!(parse("no patterns here"), Ok(vec![]));
    assert_eq!(parse("\\patterns{}"), Ok(vec![]));
}

#[test]
fn parse_unclosed_block_is_malformed() {
    assert_eq!(parse("\\patterns{ a1b c1d"), Err(ParseError::MalformedInput));
    assert_eq!(parse("\\patterns{"), Err(ParseError::MalformedInput));
    assert_eq!(parse("\\patterns{ a1b % }"), Err(ParseError::MalformedInput));
}

#[test]
fn parse_keeps_multibyte_patterns() {
    assert_eq!(parse("\\patterns{ α1μ\nü1b }"), Ok(vec!["α1μ", "ü1b"]));
}

#[test]
fn insert_shares_prefixes_and_levels() {
    let builder = build(&["a1b", "a1c"]);
    // Root, `a`, `b`, `c`.
    assert_eq!(builder.nodes.len(), 4);
    assert_eq!(builder.nodes[0].trans, vec![b'a']);
    assert_eq!(builder.nodes[1].trans, vec![b'b', b'c']);
    // Both patterns have the vector [(1, 1)], stored once.
    assert_eq!(builder.levels, vec![(1, 1)]);
    assert_eq!(builder.nodes[2].levels, Some((0, 1)));
    assert_eq!(builder.nodes[3].levels, Some((0, 1)));
}

#[test]
fn insert_same_pattern_twice_is_idempotent() {
    let once = build(&["ab1c"]);
    let twice = build(&["ab1c", "ab1c"]);
    assert_eq!(once.nodes, twice.nodes);
    assert_eq!(once.levels, twice.levels);
}

#[test]
fn insert_level_vector_distances() {
    let builder = build(&[".a1bc2d"]);
    assert_eq!(builder.levels, vec![(2, 1), (2, 2)]);
    let last = builder.nodes.len() - 1;
    assert_eq!(builder.nodes[last].levels, Some((0, 2)));
}

#[test]
fn insert_reuses_occurring_vector() {
    let builder = build(&["a1b2c", "x2y"]);
    assert_eq!(builder.levels, vec![(1, 1), (1, 2)]);
    let last = builder.nodes.len() - 1;
    assert_eq!(builder.nodes[last].levels, Some((1, 1)));
}

#[test]
fn compress_merges_equal_subtries() {
    let mut builder = build(&["ab1", "cb1"]);
    assert_eq!(builder.nodes.len(), 5);
    builder.compress();
    // The two `b` leaves are one node; `a` and `c` both lead to it.
    assert_eq!(builder.nodes.len(), 3);
    let root = &builder.nodes[builder.root];
    assert_eq!(root.trans, vec![b'a', b'c']);
    assert_eq!(root.targets[0], root.targets[1]);
    for (i, a) in builder.nodes.iter().enumerate() {
        for b in &builder.nodes[i + 1..] {
            assert_ne!(a, b);
        }
    }
}

#[test]
fn encode_layout_of_small_trie() {
    let mut builder = build(&["a1"]);
    builder.compress();
    let blob = builder.encode().unwrap();
    // Root address, one level entry (1 * 10 + 1), the leaf, then the root.
    assert_eq!(
        blob,
        vec![0, 0, 0, 8, 11, 0xa0, 0x00, 0x41, 0x21, b'a', 0xfd]
    );
    let root = State::root(&blob);
    assert!(root.transition(b'b').is_none());
    let leaf = root.transition(b'a').unwrap();
    assert_eq!(leaf.levels(), vec![(1, 1)]);
    assert!(leaf.transition(b'a').is_none());
}

#[test]
fn encode_is_deterministic() {
    let make = || {
        let mut builder = build(&["ex1t", "n1s", ".a2b", "xy3z"]);
        builder.compress();
        builder.encode().unwrap()
    };
    assert_eq!(make(), make());
}

#[test]
fn encode_rejects_large_level_distance() {
    let long = format!("{}1", "a".repeat(25));
    let builder = build(&[&long]);
    assert_eq!(builder.encode(), Err(EncodeError::LimitExceeded));
    let ok = format!("{}1", "a".repeat(24));
    assert!(build(&[&ok]).encode().is_ok());
}

#[test]
fn encode_rejects_long_vector() {
    let builder = build(&["a1a1a1a1a1a1a1a1a1a1a1a1a1a1a1a1"]);
    assert_eq!(builder.levels.len(), 16);
    assert_eq!(builder.encode(), Err(EncodeError::LimitExceeded));
}

/// Patterns of one character each, with `n` distinct first bytes.
fn fan_out(n: usize) -> TrieBuilder {
    let mut firsts: Vec<String> = (0u8..128)
        .filter(|b| !b.is_ascii_digit())
        .map(|b| (b as char).to_string())
        .collect();
    for k in 0..30u32 {
        firsts.push(char::from_u32(0x80 + 0x40 * k).unwrap().to_string());
    }
    let mut builder = TrieBuilder::new();
    for p in firsts.iter().take(n) {
        builder.insert(p);
    }
    builder
}

#[test]
fn encode_rejects_too_many_transitions() {
    let builder = fan_out(128);
    assert_eq!(builder.nodes[0].trans.len(), 128);
    assert_eq!(builder.encode(), Err(EncodeError::LimitExceeded));
    let builder = fan_out(127);
    assert_eq!(builder.nodes[0].trans.len(), 127);
    let blob = builder.encode().unwrap();
    // The count escape: 31 in the header, the count in the next byte.
    let root = 4;
    assert_eq!(blob[root] & 31, 31);
    assert_eq!(blob[root + 1], 127);
}

#[test]
fn lang_from_trie_hyphenates() {
    let mut builder = build(&["x1t", "n1s"]);
    builder.compress();
    let lang = Lang::from_trie(&builder, 2, 3).unwrap();
    assert_eq!(lang.bounds(), (2, 3));
    assert_eq!(hyphenate("extensive", &lang).join("-"), "ex-ten-sive");
}

#[test]
fn from_be_bytes_widths() {
    assert_eq!(from_be_bytes(&[0x7f]), 127);
    assert_eq!(from_be_bytes(&[0x80]), -128);
    assert_eq!(from_be_bytes(&[0xff]), -1);
    assert_eq!(from_be_bytes(&[0x01, 0x00]), 256);
    assert_eq!(from_be_bytes(&[0xff, 0x00]), -256);
    assert_eq!(from_be_bytes(&[0x80, 0x00, 0x00]), 0);
    assert_eq!(from_be_bytes(&[0x00, 0x00, 0x00]), -(1 << 23));
    assert_eq!(from_be_bytes(&[0xff, 0xff, 0xff]), (1 << 23) - 1);
}

#[test]
fn how_many_bytes_ranges() {
    assert_eq!(how_many_bytes(0), Some(1));
    assert_eq!(how_many_bytes(-128), Some(1));
    assert_eq!(how_many_bytes(128), Some(2));
    assert_eq!(how_many_bytes(-32769), Some(3));
    assert_eq!(how_many_bytes((1 << 23) - 1), Some(3));
    assert_eq!(how_many_bytes(1 << 23), None);
    assert_eq!(how_many_bytes(-(1 << 23) - 1), None);
}

#[test]
fn to_be_bytes_round_trips() {
    for (num, stride) in [(5i64, 1u64), (-3, 1), (300, 2), (-300, 2), (70000, 3), (-70000, 3)] {
        let mut buf = Vec::new();
        to_be_bytes(&mut buf, num, stride);
        assert_eq!(buf.len(), stride as usize);
        assert_eq!(from_be_bytes(&buf) as i64, num);
    }
    let mut buf = vec![9];
    to_be_bytes(&mut buf, -2, 2);
    assert_eq!(buf, vec![9, 0xff, 0xfe]);
}

#[test]
fn lowercase_keeps_byte_length() {
    assert_eq!(lowercase_and_dot("HeLLo"), b".hello.".to_vec());
    assert_eq!(lowercase_and_dot(""), b"..".to_vec());
    // `İ` lowercases to two characters: it stays as it is.
    assert_eq!(lowercase_and_dot("İa"), ".İa.".as_bytes().to_vec());
    assert_eq!(lowercase_and_dot("ÄÖ"), ".äö.".as_bytes().to_vec());
}

#[test]
fn char_bounds_to_byte_bounds() {
    assert_eq!(char_to_byte_bounds("extensive", 2, 3), (3, 7));
    assert_eq!(char_to_byte_bounds("äbc", 1, 1), (3, 4));
    assert_eq!(char_to_byte_bounds("ab", 0, 0), (2, 2));
    assert_eq!(char_to_byte_bounds("", 2, 3), (1, 1));
    assert_eq!(char_to_byte_bounds("ab", 5, 5), (3, 1));
}

#[test]
fn match_levels_maxes_levels() {
    let mut builder = build(&["x1t", "n1s", "en2s"]);
    builder.compress();
    let blob = builder.encode().unwrap();
    let dotted = lowercase_and_dot("extensive");
    assert_eq!(match_levels(&blob, &dotted, 3, 7), vec![0, 1, 0, 0, 2, 0, 0, 0]);
    assert_eq!(match_levels(&blob, &dotted, 4, 7), vec![0, 0, 0, 0, 2, 0, 0, 0]);
}
