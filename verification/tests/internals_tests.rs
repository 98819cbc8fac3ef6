use divsufsort::common::{BMixBucket, Text};
use divsufsort::sssort::{ss_blockswap, ss_compare, ss_heapsort, ss_insertionsort, ss_partition, ss_median3, ss_median5, ss_rotate};
use divsufsort::trsort::{tr_heapsort, tr_insertionsort, tr_partition, tr_median3, tr_median5, tr_pivot};

#[test]
fn block_swap_exchanges_blocks() {
    let mut sa = vec![0, 1, 2, 3, 4, 5, 6, 7];
    ss_blockswap(&mut sa, 1, 5, 3);
    assert_eq!(sa, vec![0, 5, 6, 7, 4, 1, 2, 3]);
}

#[test]
fn rotate_moves_the_second_part_first() {
    for len in 0..12 {
        for middle in 0..=len {
            let mut sa: Vec<i32> = (100..100 + len as i32 + 4).collect();
            let first = 2usize;
            let m = first + middle;
            let last = first + len;
            let mut expected = sa.clone();
            expected[first..last].rotate_left(middle);
            ss_rotate(&mut sa, first as i32, m as i32, last as i32);
            assert_eq!(sa, expected, "len {} middle {}", len, middle);
        }
    }
}

#[test]
fn compare_substrings() {
    let t = Text(b"abcabd");
    // entries 0, 2, 3, 4: the substring for entry p runs from its suffix
    // start (plus depth) to two past the next entry's start
    let sa = [0, 2, 3, 4];
    // "abca" against "abd"
    assert!(ss_compare(&t, &sa, 0, &sa, 2, 0) < 0);
    assert!(ss_compare(&t, &sa, 2, &sa, 0, 0) > 0);
    assert_eq!(ss_compare(&t, &sa, 0, &sa, 0, 0), 0);
    // with depth 1: "bca" against "bd"
    assert!(ss_compare(&t, &sa, 0, &sa, 2, 1) < 0);
}

#[test]
fn medians_by_character() {
    // entries hold positions into a PA area that holds suffix starts
    let t = Text(b"dacbe");
    // SA: [v0..v4] = 0..5 point to PA + v, PA = 5 holds the starts 0..5
    let sa = [0, 1, 2, 3, 4, 0, 1, 2, 3, 4];
    // characters d a c b e for entries 0..5
    assert_eq!(ss_median3(&t, 0, &sa, 5, 0, 1, 2), 2); // d a c -> c
    assert_eq!(ss_median3(&t, 0, &sa, 5, 1, 3, 4), 3); // a b e -> b
    let m = ss_median5(&t, 0, &sa, 5, 0, 1, 2, 3, 4);
    assert_eq!(m, 2); // a b c d e -> c
}

#[test]
fn medians_by_rank() {
    // ranks stored at ISAd + entry; ISAd = 5
    let sa = [0, 1, 2, 3, 4, 40, 10, 30, 20, 50];
    assert_eq!(tr_median3(&sa, 5, 0, 1, 2), 2); // 40 10 30 -> 30
    assert_eq!(tr_median5(&sa, 5, 0, 1, 2, 3, 4), 2); // median rank 30
    let p = tr_pivot(&sa, 5, 0, 5);
    // a range of 5: median of the first, middle and last entries (40 30 50)
    assert_eq!(p, 0);
}

#[test]
fn insertion_sort_by_rank_marks_ties() {
    // entries 0, 1, 2 with ranks 5, 3, 5 stored from ISAd = 3 on
    let mut sa = vec![0, 1, 2, 5, 3, 5];
    tr_insertionsort(&mut sa, 3, 0, 3);
    assert_eq!(sa, vec![1, -1, 2, 5, 3, 5]);
    // the ranks may as well be stored before the group
    let mut sa = vec![5, 3, 5, 0, 1, 2];
    tr_insertionsort(&mut sa, 0, 3, 6);
    assert_eq!(sa, vec![5, 3, 5, 1, -1, 2]);
}

#[test]
fn insertion_sort_by_substring_marks_ties() {
    // entries 0, 1, 2 read "bbab", "abbb" and "bbab" through the starts at 3..7
    let text = b"bbabbbab";
    let mut sa = vec![0, 1, 2, 0, 2, 4, 6];
    ss_insertionsort(&Text(text), &mut sa, 3, 0, 3, 0);
    assert_eq!(sa, vec![1, 0, -3, 0, 2, 4, 6]);
}

#[test]
fn heapsort_orders_by_rank() {
    // odd count: entries 2, 0, 1 with ranks 1, 9, 5 stored from ISAd = 3 on
    let mut sa = vec![2, 0, 1, 9, 5, 1];
    tr_heapsort(3, &mut sa, 0, 3);
    assert_eq!(sa, vec![2, 1, 0, 9, 5, 1]);
    // even count: entries 3, 0, 2, 1 with ranks 20, 40, 30, 10
    let mut sa = vec![3, 0, 2, 1, 40, 10, 30, 20];
    tr_heapsort(4, &mut sa, 0, 4);
    assert_eq!(sa, vec![1, 3, 2, 0, 40, 10, 30, 20]);
}

#[test]
fn heapsort_orders_by_character() {
    // odd count: entries 0, 1, 2 read 'c', 'b', 'a' through the starts at 3..6
    let text = b"bxca";
    let mut sa = vec![0, 1, 2, 2, 0, 3];
    ss_heapsort(&Text(text), 0, &mut sa, 3, 0, 3);
    assert_eq!(sa, vec![2, 1, 0, 2, 0, 3]);
    // even count: entries 0, 1, 2, 3 read 'a', 'b', 'd', 'c'
    let text = b"dbca";
    let mut sa = vec![2, 3, 0, 1, 3, 1, 0, 2];
    ss_heapsort(&Text(text), 0, &mut sa, 4, 0, 4);
    assert_eq!(sa, vec![0, 1, 3, 2, 3, 1, 0, 2]);
}

#[test]
fn partition_groups_by_rank() {
    // entries 0, 1, 2, 3 with ranks 5, 3, 5, 7 stored from ISAd = 4 on
    let mut sa = vec![0, 1, 2, 3, 5, 3, 5, 7];
    let mut pa = 0;
    let mut pb = 0;
    tr_partition(&mut sa, 4, 0, 1, 4, &mut pa, &mut pb, 5);
    assert_eq!(&sa[..4], &[1, 2, 0, 3]);
    assert_eq!((pa, pb), (1, 3));
    // every entry ranks the pivot
    let mut sa = vec![0, 1, 2, 5, 5, 5];
    tr_partition(&mut sa, 3, 0, 1, 3, &mut pa, &mut pb, 5);
    assert_eq!(&sa[..3], &[0, 1, 2]);
    assert_eq!((pa, pb), (0, 3));
}

#[test]
fn partition_moves_ended_substrings_first() {
    // entries 0, 1, 2 with starts 0, 5, 6 and next starts 5, 6, 8 from PA = 3 on;
    // at depth 2 only the substring of entry 1 has ended
    let mut sa = vec![0, 1, 2, 0, 5, 6, 8];
    let r = ss_partition(&mut sa, 3, 0, 3, 2);
    assert_eq!(r, 1);
    assert_eq!(&sa[..3], &[1, 0, 2]);
    // all ended: the first stays unmarked, the others are marked
    let mut sa = vec![0, 1, 2, 0, 1, 2, 3];
    let r = ss_partition(&mut sa, 3, 0, 3, 5);
    assert_eq!(r, 3);
    assert_eq!(&sa[..3], &[0, -2, -3]);
}

#[test]
fn bucket_views_write_through_to_the_table() {
    let mut bm = BMixBucket(vec![0; 65536]);
    {
        let mut b = bm.b();
        b.set(3, 5, 7);
        assert_eq!(b.get(3, 5), 7);
    }
    assert_eq!(bm.get_b(3, 5), 7);
    assert_eq!(bm.0[5 * 256 + 3], 7);
    {
        let mut bs = bm.bstar();
        bs.set(3, 5, 9);
        assert_eq!(bs.get(3, 5), 9);
    }
    assert_eq!(bm.get_bstar(3, 5), 9);
    assert_eq!(bm.0[3 * 256 + 5], 9);
    assert_eq!(bm.get_b(3, 5), 7);
}
