use ropetrace::pattern::Pattern;
use ropetrace::rope::Rope;
use ropetrace::transforms::{filter, header, reverse};

#[test]
fn empty_rope() {
    let r = Rope::new();
    assert_eq!(r.len(), 0);
    assert!(r.is_empty());
    assert_eq!(r.flatten(), Vec::<u8>::new());
    assert_eq!(r.addrs(), Vec::<usize>::new());
}

#[test]
fn from_str_assigns_consecutive_identities() {
    let r = Rope::from_str("abc", 7);
    assert_eq!(r.len(), 3);
    assert_eq!(r.flatten(), b"abc".to_vec());
    assert_eq!(r.addrs(), vec![7, 8, 9]);
}

#[test]
fn append_keeps_identities() {
    let mut r = Rope::from_str("ab", 0);
    r.append(Rope::from_str("cd", 10));
    assert_eq!(r.flatten(), b"abcd".to_vec());
    assert_eq!(r.addrs(), vec![0, 1, 10, 11]);
}

#[test]
fn slice_whole_range_is_identity() {
    let r = Rope::from_str("hello world", 0);
    let s = r.slice(0, r.len());
    assert_eq!(s.flatten(), r.flatten());
    assert_eq!(s.addrs(), r.addrs());
}

#[test]
fn slice_concatenation_recomposes() {
    let r = Rope::from_str("provenance", 0);
    for j in 0..=r.len() {
        let mut left = r.slice(0, j);
        left.append(r.slice(j, r.len()));
        assert_eq!(left.flatten(), r.flatten());
        assert_eq!(left.addrs(), r.addrs());
    }
}

#[test]
fn slice_middle_keeps_identities() {
    let mut r = Rope::from_str("ab", 0);
    r.append(Rope::from_str("cdef", 50));
    let s = r.slice(1, 4);
    assert_eq!(s.flatten(), b"bcd".to_vec());
    assert_eq!(s.addrs(), vec![1, 50, 51]);
}

#[test]
fn slice_clamps_out_of_range() {
    let r = Rope::from_str("hello", 0);
    assert_eq!(r.slice(3, 100).flatten(), b"lo".to_vec());
    assert_eq!(r.slice(7, 9).flatten(), Vec::<u8>::new());
    assert_eq!(r.slice(2, 2).flatten(), Vec::<u8>::new());
}

#[test]
fn character_identities_count_multibyte() {
    // one-byte 'a', two-byte e-acute, three-byte snowman: 3 characters, 6 bytes
    let r = Rope::from_str("a\u{e9}\u{2603}", 0);
    assert_eq!(r.len(), 6);
    let ids = r.addrs();
    assert_eq!(ids.len(), 3);
    assert_eq!(ids, vec![0, 1, 3]);
}

#[test]
fn re_range_finds_leftmost() {
    let r = Rope::from_str("ab.cd", 0);
    let p = Pattern::new("\\.").unwrap();
    assert_eq!(r.re_range(&p), Some((2, 3)));
}

#[test]
fn re_range_none_when_absent() {
    let r = Rope::from_str("abcd", 0);
    let p = Pattern::new("z").unwrap();
    assert_eq!(r.re_range(&p), None);
}

#[test]
fn re_ranges_scans_left_to_right() {
    let r = Rope::from_str("a.b.c", 0);
    let p = Pattern::new("\\.").unwrap();
    assert_eq!(r.re_ranges(&p), vec![(1, 2), (3, 4)]);
}

#[test]
fn re_slice_keeps_identities() {
    let r = Rope::from_str("ab.cd", 0);
    let p = Pattern::new("\\.").unwrap();
    let s = r.re_slice(&p).unwrap();
    assert_eq!(s.flatten(), b".".to_vec());
    assert_eq!(s.addrs(), vec![2]);
    let q = Pattern::new("z").unwrap();
    assert!(r.re_slice(&q).is_none());
}

#[test]
fn re_slices_collects_all_matches() {
    let r = Rope::from_str("a.b.c", 0);
    let p = Pattern::new("\\.").unwrap();
    let slices = r.re_slices(&p);
    assert_eq!(slices.len(), 2);
    assert_eq!(slices[0].flatten(), b".".to_vec());
    assert_eq!(slices[0].addrs(), vec![1]);
    assert_eq!(slices[1].addrs(), vec![3]);
}

#[test]
fn replace_first_period() {
    let r = Rope::from_str("ab.cd", 0);
    let p = Pattern::new("\\.").unwrap();
    let rep = Rope::from_str("??", 100);
    let out = r.re_replace(&p, &rep);
    assert_eq!(out.flatten(), b"ab??cd".to_vec());
    assert_eq!(out.addrs(), vec![0, 1, 100, 101, 3, 4]);
}

#[test]
fn replace_first_without_match_keeps_text_and_identities() {
    let r = Rope::from_str("abc", 5);
    let p = Pattern::new("z").unwrap();
    let rep = Rope::from_str("??", 100);
    let out = r.re_replace(&p, &rep);
    assert_eq!(out.flatten(), b"abc".to_vec());
    assert_eq!(out.addrs(), vec![5, 6, 7]);
}

#[test]
fn replace_all_periods() {
    let r = Rope::from_str("a.b.c", 0);
    let p = Pattern::new("\\.").unwrap();
    let rep = Rope::from_str("??", 100);
    let out = r.re_replaces(&p, &rep);
    assert_eq!(out.flatten(), b"a??b??c".to_vec());
    assert_eq!(out.addrs(), vec![0, 100, 101, 2, 100, 101, 4]);
}

#[test]
fn replace_all_without_match_keeps_text() {
    let r = Rope::from_str("abc", 0);
    let p = Pattern::new("z").unwrap();
    let rep = Rope::from_str("??", 100);
    let out = r.re_replaces(&p, &rep);
    assert_eq!(out.flatten(), b"abc".to_vec());
    assert_eq!(out.addrs(), vec![0, 1, 2]);
}

#[test]
fn indent_prepends_and_follows_newlines() {
    let r = Rope::from_str("x\ny", 0);
    let ind = Rope::from_str("  ", 100);
    let out = r.indent(&ind, 200);
    assert_eq!(out.flatten(), b"  x\n  y".to_vec());
    // the two indent copies share identities; the newline was substituted,
    // so it carries the fresh newline identity, not the original byte's
    assert_eq!(out.addrs(), vec![100, 101, 0, 200, 100, 101, 2]);
}

#[test]
fn pattern_rejects_bad_syntax() {
    assert!(Pattern::new("[").is_none());
    assert!(Pattern::new("\\.").is_some());
}

#[test]
fn header_wraps_title() {
    let h = header(" IN ", 0);
    assert_eq!(h.flatten(), b"\n\n### IN ###\n\n".to_vec());
    let ids = h.addrs();
    assert_eq!(ids, (0..14).collect::<Vec<usize>>());
}

#[test]
fn reverse_reverses_characters() {
    assert_eq!(reverse("abc"), "cba".to_string());
    assert_eq!(reverse(""), "".to_string());
    assert_eq!(reverse("a\u{e9}"), "\u{e9}a".to_string());
}

#[test]
fn filter_strips_vowels() {
    assert_eq!(filter("hello world"), "hll wrld".to_string());
    assert_eq!(filter("aeiouyAEIOUY"), "".to_string());
    assert_eq!(filter("xyz"), "xz".to_string());
}

#[test]
fn unescaped_dot_matches_any_character() {
    let r = Rope::from_str("ab.cd", 0);
    let p = Pattern::new(".").unwrap();
    assert_eq!(r.re_range(&p), Some((0, 1)));
    let rep = Rope::from_str("??", 100);
    assert_eq!(r.re_replace(&p, &rep).flatten(), b"??b.cd".to_vec());
}

#[test]
fn replace_all_with_empty_matches() {
    let r = Rope::from_str("ab", 0);
    let p = Pattern::new("x*").unwrap();
    let rep = Rope::from_str("-", 100);
    let out = r.re_replaces(&p, &rep);
    assert_eq!(out.flatten(), b"-a-b-".to_vec());
    assert_eq!(out.addrs(), vec![100, 0, 100, 1, 100]);
}

#[test]
fn duplicate_keeps_model() {
    let r = Rope::from_str("ab.cd", 3);
    let d = r.duplicate();
    assert_eq!(d.flatten(), r.flatten());
    assert_eq!(d.addrs(), r.addrs());
}
