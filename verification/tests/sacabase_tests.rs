use divsufsort::sacabase::{
    bytes_less, common_prefix_len, longest_substring_match, verify, LongestCommonSubstring,
    SuffixArray,
};
use divsufsort::sort;

#[test]
fn lib_it_works() {
    assert_eq!(2 + 2, 4);
}

#[test]
fn common_prefix_examples() {
    assert_eq!(common_prefix_len(b"banana", b"banter"), 3);
    assert_eq!(common_prefix_len(b"", b"banter"), 0);
    assert_eq!(common_prefix_len(b"ban", b"banter"), 3);
    assert_eq!(common_prefix_len(b"banter", b"ban"), 3);
    assert_eq!(common_prefix_len(b"xyz", b"abc"), 0);
    assert_eq!(common_prefix_len(b"same", b"same"), 4);
}

#[test]
fn byte_order() {
    assert!(bytes_less(b"ab", b"abc"));
    assert!(!bytes_less(b"abc", b"ab"));
    assert!(bytes_less(b"abc", b"abd"));
    assert!(!bytes_less(b"abc", b"abc"));
    assert!(bytes_less(b"", b"a"));
    assert!(!bytes_less(b"b", b"abc"));
}

#[test]
fn common_prefix_sandwich() {
    // a <= b <= c: a and c share no more than a and b, nor than b and c
    let (a, b, c) = (&b"abcde"[..], &b"abcxy"[..], &b"abd"[..]);
    assert!(bytes_less(a, b) && bytes_less(b, c));
    let ac = common_prefix_len(a, c);
    assert!(ac <= common_prefix_len(a, b));
    assert!(ac <= common_prefix_len(b, c));
    assert_eq!(ac, 2);
}

#[test]
fn verify_names_first_unsorted_pair() {
    let t = b"banana";
    assert!(verify(t, &[5, 3, 1, 0, 4, 2]).is_ok());
    let e = verify(t, &[5, 3, 0, 1, 4, 2]).unwrap_err();
    assert_eq!((e.i(), e.j()), (2, 3));
    let e = verify(t, &[3, 5, 1, 0, 4, 2]).unwrap_err();
    assert_eq!((e.i(), e.j()), (0, 1));
    let e = verify(t, &[5, 3, 1, 0, 4, 4]).unwrap_err();
    assert_eq!((e.i(), e.j()), (4, 5));
}

#[test]
fn search_finds_longest_match() {
    let text = b"totor";
    let sa = sort(text);
    let m = sa.longest_substring_match(b"tor");
    assert_eq!(m.as_bytes(), b"tor");
    assert_eq!((m.start(), m.len()), (2, 3));
    assert_eq!(m.text(), text);

    let m = sa.longest_substring_match(b"ox");
    assert_eq!(m.as_bytes(), b"o");
    let m = sa.longest_substring_match(b"zzz");
    assert_eq!(m.len(), 0);
    let m = longest_substring_match(text, sa.sa(), b"totorr");
    assert_eq!((m.start(), m.len()), (0, 5));
}

#[test]
fn search_is_maximal_over_all_positions() {
    let text = b"she sells sea shells by the sea shore";
    let sa = sort(text);
    for needle in [&b"sea s"[..], b"shell", b"the sea", b"ells", b"xyz", b"s"].iter() {
        let m = sa.longest_substring_match(needle);
        let best = (0..text.len())
            .map(|p| common_prefix_len(&text[p..], needle))
            .max()
            .unwrap();
        assert_eq!(m.len(), best);
        assert_eq!(common_prefix_len(&text[m.start()..], needle), m.len());
    }
}

#[test]
fn suffix_array_parts() {
    let text = b"abab";
    let sa = SuffixArray::new(text, vec![2, 0, 3, 1]);
    assert_eq!(sa.text(), text);
    assert!(sa.verify().is_ok());
    let (t, v) = sa.into_parts();
    assert_eq!(t, text);
    assert_eq!(v, vec![2, 0, 3, 1]);
    let bad = SuffixArray::new(text, vec![0, 2, 3, 1]);
    assert!(bad.verify().is_err());
}

#[test]
fn match_value() {
    let m = LongestCommonSubstring::new(b"hello world", 6, 5);
    assert_eq!(m.as_bytes(), b"world");
    assert_eq!(m.start(), 6);
    assert_eq!(m.len(), 5);
}

#[test]
fn verify_refuses_arrays_that_are_not_suffix_arrays() {
    // an entry too many
    let e = verify(b"ab", &[0, 1, 1]).unwrap_err();
    assert_eq!((e.i(), e.j()), (2, 2));
    // an entry too few
    let e = verify(b"ab", &[0]).unwrap_err();
    assert_eq!((e.i(), e.j()), (1, 1));
    // an entry that names the empty suffix
    let e = verify(b"banana", &[6, 5, 3, 1, 0, 4]).unwrap_err();
    assert_eq!((e.i(), e.j()), (0, 0));
    // a negative entry
    let e = verify(b"ab", &[0, -1]).unwrap_err();
    assert_eq!((e.i(), e.j()), (1, 1));
    // the empty text has the empty suffix array
    assert!(verify(b"", &[]).is_ok());
    assert!(verify(b"a", &[0]).is_ok());
}
