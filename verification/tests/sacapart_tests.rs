use divsufsort::sacabase::common_prefix_len;
use divsufsort::sacabase::SuffixArray;
use divsufsort::sacapart::PartitionedSuffixArray;

#[test]
fn worse_test() {
    let input = "totor";
    let sa_full = divsufsort::sort(input.as_bytes());
    let sa_part = PartitionedSuffixArray::new(input.as_bytes(), 2, divsufsort::sort);

    let needle = "tor";

    let full_match = sa_full.longest_substring_match(needle.as_bytes());
    assert_eq!(needle.as_bytes(), full_match.as_bytes());

    let part_match = sa_part.longest_substring_match(needle.as_bytes());
    assert_eq!(needle[..2].as_bytes(), part_match.as_bytes());

    let needle = "otor";

    let full_match = sa_full.longest_substring_match(needle.as_bytes());
    assert_eq!(needle.as_bytes(), full_match.as_bytes());

    let part_match = sa_part.longest_substring_match(needle.as_bytes());
    assert_eq!(needle.as_bytes(), part_match.as_bytes());
}

#[test]
fn equivalent_test() {
    let input = "This is a rather long text. We can probably find matches that span two partitions. Oh yes.";
    let sa_full = divsufsort::sort(input.as_bytes());

    for &partitions in &[1, 2, 3] {
        println!("{} partitions", partitions);
        for needle in &[
            "rather long",
            "text. We can",
            "We can probably find matches that span",
        ] {
            println!("needle: {:?}", needle);
            let sa_part =
                PartitionedSuffixArray::new(input.as_bytes(), partitions, divsufsort::sort);

            let full_match = sa_full.longest_substring_match(needle.as_bytes());
            let part_match = sa_part.longest_substring_match(needle.as_bytes());

            assert_eq!(
                full_match.as_bytes(),
                part_match.as_bytes(),
                "should find same match bytes for {:?}",
                needle
            );
            assert_eq!(
                full_match.start(),
                part_match.start(),
                "should find same match start for {:?}",
                needle
            );
            assert_eq!(
                full_match.len(),
                part_match.len(),
                "should find same match len for {:?}",
                needle
            );
        }
    }
}

#[test]
fn partition_counts() {
    let text = b"abcdefghij";
    assert_eq!(PartitionedSuffixArray::new(text, 1, divsufsort::sort).num_partitions(), 1);
    // parts of 10 / 2 + 1 = 6 bytes
    assert_eq!(PartitionedSuffixArray::new(text, 2, divsufsort::sort).num_partitions(), 2);
    // parts of 10 / 3 + 1 = 4 bytes
    assert_eq!(PartitionedSuffixArray::new(text, 3, divsufsort::sort).num_partitions(), 3);
    // parts of 10 / 10 + 1 = 2 bytes
    assert_eq!(PartitionedSuffixArray::new(text, 10, divsufsort::sort).num_partitions(), 5);
    assert_eq!(PartitionedSuffixArray::new(b"", 3, divsufsort::sort).num_partitions(), 0);
}

#[test]
fn partitioned_match_is_a_match_and_not_longer() {
    let text = b"abracadabra abracadabra cadabra bra abra cad";
    let full = divsufsort::sort(text);
    for parts in 1..8 {
        let part = PartitionedSuffixArray::new(text, parts, divsufsort::sort);
        for needle in [&b"abracad"[..], b"cadabra bra", b"bra abra", b"dab", b"zz", b"a"].iter() {
            let f = full.longest_substring_match(needle);
            let p = part.longest_substring_match(needle);
            assert!(p.len() <= f.len());
            assert_eq!(common_prefix_len(&text[p.start()..], needle), p.len());
            if parts == 1 {
                assert_eq!(p.len(), f.len());
            }
        }
    }
}

#[test]
fn parts_are_built_by_the_given_function() {
    // any function from a part to an array over that part is accepted
    let text = b"totor";
    let p = PartitionedSuffixArray::new(text, 2, |t: &[u8]| SuffixArray::new(t, vec![0; t.len()]));
    assert_eq!(p.num_partitions(), 2);
    let m = p.longest_substring_match(b"to");
    assert_eq!(m.as_bytes(), b"to");
}

#[test]
fn from_parts_matches_new() {
    let text = b"totor";
    let parts: Vec<_> = text.chunks(text.len() / 2 + 1).map(|c| divsufsort::sort(c)).collect();
    let built = PartitionedSuffixArray::from_parts(text, 2, parts).expect("parts fit");
    let made = PartitionedSuffixArray::new(text, 2, divsufsort::sort);
    assert_eq!(built.num_partitions(), made.num_partitions());
    let a = built.longest_substring_match(b"tor");
    let b = made.longest_substring_match(b"tor");
    assert_eq!(a.as_bytes(), b.as_bytes());
    assert_eq!(a.start(), b.start());
}

#[test]
fn from_parts_refuses_wrong_parts() {
    let text = b"totor";
    // one array too few
    let parts = vec![divsufsort::sort(&text[..3])];
    assert!(PartitionedSuffixArray::from_parts(text, 2, parts).is_none());
    // one array too many
    let parts = vec![
        divsufsort::sort(&text[..3]),
        divsufsort::sort(&text[3..]),
        divsufsort::sort(&text[3..]),
    ];
    assert!(PartitionedSuffixArray::from_parts(text, 2, parts).is_none());
    // parts swapped
    let parts = vec![divsufsort::sort(&text[3..]), divsufsort::sort(&text[..3])];
    assert!(PartitionedSuffixArray::from_parts(text, 2, parts).is_none());
    // the empty text has no parts
    assert!(PartitionedSuffixArray::from_parts(b"", 3, Vec::new()).is_some());
}
