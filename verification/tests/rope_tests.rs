use crop::Rope;

#[test]
fn empty_rope() {
    let r = Rope::from_str("");
    assert_eq!(r.byte_len(), 0);
    assert_eq!(r.line_len(), 1);
    assert!(r.is_empty());
    let slice = r.byte_slice(0, 0);
    assert_eq!(slice.byte_len(), 0);
    let again = slice.to_rope();
    assert_eq!(again.byte_len(), 0);
    assert_eq!(again.bytes(), r.bytes());
}

#[test]
fn small_rope_round_trip() {
    let text = "hello\nworld";
    let r = Rope::from_str(text);
    assert_eq!(r.byte_len(), 11);
    assert_eq!(r.line_len(), 2);
    assert!(!r.is_empty());
    assert_eq!(r.bytes(), text.as_bytes().to_vec());
    for (i, b) in text.bytes().enumerate() {
        assert_eq!(r.byte(i), b);
    }
}

#[test]
fn chunks_concatenate_to_text() {
    let mut text = String::new();
    for i in 0..500 {
        text.push_str(&format!("line {}\n", i));
    }
    let r = Rope::from_str(&text);
    assert_eq!(r.byte_len(), text.len());
    let mut joined = String::new();
    for c in r.chunks() {
        joined.push_str(&c);
    }
    assert_eq!(joined, text);
    assert_eq!(r.bytes(), text.as_bytes().to_vec());
}

#[test]
fn byte_slice_matches_str_slice() {
    let text = "The quick brown fox jumps over the lazy dog";
    let r = Rope::from_str(text);
    let s = r.byte_slice(4, 19);
    assert_eq!(s.byte_len(), 15);
    let piece = s.to_rope();
    assert_eq!(piece.bytes(), text[4..19].as_bytes().to_vec());
}

#[test]
fn line_slice_keeps_line_breaks() {
    let text = "a\nb\nc\n";
    let r = Rope::from_str(text);
    assert_eq!(r.line_len(), 3);
    let s0 = r.line_slice(0, 1).to_rope();
    assert_eq!(s0.bytes(), b"a\n".to_vec());
    let s1 = r.line_slice(1, 2).to_rope();
    assert_eq!(s1.bytes(), b"b\n".to_vec());
    let s02 = r.line_slice(0, 2).to_rope();
    assert_eq!(s02.bytes(), b"a\nb\n".to_vec());
}

#[test]
fn trailing_newline_counts() {
    let r1 = Rope::from_str("a\nb\nc\n");
    assert_eq!(r1.line_len(), 3);
    let r2 = Rope::from_str("a\nb\nc");
    assert_eq!(r2.line_len(), 3);
    let r3 = Rope::from_str("\n");
    assert_eq!(r3.line_len(), 1);
}

#[test]
fn large_rope_slicing() {
    let mut text = String::new();
    for i in 0..2000 {
        text.push_str(&format!("{} ", i));
    }
    let r = Rope::from_str(&text);
    assert_eq!(r.byte_len(), text.len());
    let s = r.byte_slice(100, 4000);
    let piece = s.to_rope();
    assert_eq!(piece.bytes(), text.as_bytes()[100..4000].to_vec());
}

#[test]
fn slicing_then_remeasuring_lines_gives_the_line_count_back() {
    let r = Rope::from_str("a\nbb\nccc\ndddd\n");
    for k in 0..=4 {
        let piece = r.line_slice(0, k).to_rope();
        let breaks = piece
            .bytes()
            .iter()
            .filter(|b| **b == b'\n')
            .count();
        assert_eq!(breaks, k);
    }
}
