use crop::DoubleEndedUnitMetric;
use crop::GapBuffer;
use crop::Leaf;
use crop::LineMetric;
use crop::RawLineMetric;
use crop::Rope;
use crop::UnitMetric;

#[test]
fn gap_buffer_summary() {
    let g = GapBuffer::<8>::from_str("ab\ncd\n");
    assert_eq!(g.len(), 6);
    let s = g.summarize();
    assert_eq!(s.bytes, 6);
    assert_eq!(s.line_breaks, 2);
    assert!(g.has_trailing_newline());
}

#[test]
fn gap_buffer_splits() {
    let g = GapBuffer::<8>::from_str("ab\ncd");
    let (l, r) = g.split_at_byte(3);
    assert_eq!(l.to_bytes(), b"ab\n".to_vec());
    assert_eq!(r.to_bytes(), b"cd".to_vec());
    let (l2, r2) = g.split_at_line(1);
    assert_eq!(l2.to_bytes(), b"ab\n".to_vec());
    assert_eq!(r2.to_bytes(), b"cd".to_vec());
}

#[test]
fn gap_buffer_truncates_trailing_line_break() {
    let mut g = GapBuffer::<8>::from_str("ab\n");
    assert_eq!(g.truncate_trailing_line_break(), 1);
    assert_eq!(g.to_bytes(), b"ab".to_vec());
    assert_eq!(g.truncate_trailing_line_break(), 0);
    assert_eq!(g.to_bytes(), b"ab".to_vec());
}

#[test]
fn gap_buffer_balance_merges_or_redistributes() {
    let a = GapBuffer::<8>::from_str("ab");
    let b = GapBuffer::<8>::from_str("cd");
    let (one, two) = GapBuffer::balance(a, b);
    assert!(two.is_none());
    assert_eq!(one.to_bytes(), b"abcd".to_vec());

    let a = GapBuffer::<8>::from_str("abcdefg");
    let b = GapBuffer::<8>::from_str("hij");
    let (one, two) = GapBuffer::balance(a, b);
    let two = two.expect("a joint content wider than the capacity splits");
    let mut joined = one.to_bytes();
    joined.extend_from_slice(&two.to_bytes());
    assert_eq!(joined, b"abcdefghij".to_vec());
    assert!(one.len() >= 1 && two.len() >= 1);
}

#[test]
fn raw_line_units_keep_newlines() {
    let g = GapBuffer::<16>::from_str("a\nb\nc\n");
    let s = g.summarize();
    let (first, adv, rest) = <RawLineMetric as UnitMetric<GapBuffer<16>>>::first_unit(&g, &s);
    assert_eq!(first.to_bytes(), b"a\n".to_vec());
    assert_eq!(adv.bytes, 2);
    assert_eq!(adv.line_breaks, 1);
    assert_eq!(rest.to_bytes(), b"b\nc\n".to_vec());

    let (rest, last, adv) =
        <RawLineMetric as DoubleEndedUnitMetric<GapBuffer<16>>>::last_unit(&g, &s);
    assert_eq!(rest.to_bytes(), b"a\nb\n".to_vec());
    assert_eq!(last.to_bytes(), b"c\n".to_vec());
    assert_eq!(adv.bytes, 2);

    let unterminated = GapBuffer::<16>::from_str("a\nbc");
    let su = unterminated.summarize();
    let (rest, tail) =
        <RawLineMetric as DoubleEndedUnitMetric<GapBuffer<16>>>::remainder(&unterminated, &su);
    assert_eq!(rest.to_bytes(), b"a\n".to_vec());
    assert_eq!(tail.to_bytes(), b"bc".to_vec());
}

#[test]
fn line_units_strip_newlines() {
    let g = GapBuffer::<16>::from_str("a\nb\nc\n");
    let s = g.summarize();
    let (first, adv, rest) = <LineMetric as UnitMetric<GapBuffer<16>>>::first_unit(&g, &s);
    assert_eq!(first.to_bytes(), b"a".to_vec());
    assert_eq!(adv.bytes, 2);
    assert_eq!(rest.to_bytes(), b"b\nc\n".to_vec());

    let (rest, last, adv) = <LineMetric as DoubleEndedUnitMetric<GapBuffer<16>>>::last_unit(&g, &s);
    assert_eq!(rest.to_bytes(), b"a\nb\n".to_vec());
    assert_eq!(last.to_bytes(), b"c".to_vec());
    assert_eq!(adv.bytes, 2);

    let unterminated = GapBuffer::<16>::from_str("a\nbc");
    let su = unterminated.summarize();
    let (rest, last, _adv) =
        <LineMetric as DoubleEndedUnitMetric<GapBuffer<16>>>::last_unit(&unterminated, &su);
    assert_eq!(rest.to_bytes(), b"a\n".to_vec());
    assert_eq!(last.to_bytes(), b"bc".to_vec());
}

#[test]
fn multi_leaf_line_iteration() {
    let r = Rope::from_str("a\nb\nc\n");
    let lines = r.lines();
    assert_eq!(lines, vec!["a".to_string(), "b".to_string(), "c".to_string()]);
    let raw0 = r.line_slice(0, 1).to_rope();
    assert_eq!(raw0.bytes(), b"a\n".to_vec());
    let raw1 = r.line_slice(1, 2).to_rope();
    assert_eq!(raw1.bytes(), b"b\n".to_vec());
    let raw2 = r.line_slice(2, 3).to_rope();
    assert_eq!(raw2.bytes(), b"c\n".to_vec());
}

#[test]
fn line_count_identity() {
    for text in ["x", "x\n", "x\ny", "x\ny\n", "\n\n\n", "one line"] {
        let r = Rope::from_str(text);
        let breaks = text.bytes().filter(|b| *b == b'\n').count();
        let expect = breaks + if text.ends_with('\n') { 0 } else { 1 };
        assert_eq!(r.line_len(), expect);
        assert_eq!(r.lines().len(), expect);
    }
}

#[test]
fn multibyte_text_round_trip() {
    let text = "héllo wörld\nsecond ligne\u{301}\nünd mehr\n";
    let r = Rope::from_str(text);
    assert_eq!(r.byte_len(), text.len());
    assert_eq!(r.bytes(), text.as_bytes().to_vec());
    assert_eq!(r.lines().len(), 3);
}
