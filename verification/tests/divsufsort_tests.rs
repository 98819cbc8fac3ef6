use divsufsort::common::{SAPtr, Text, MAX_INPUT_SIZE};
use divsufsort::crosscheck;
use divsufsort::divsufsort::{divsufsort, divsufsort_passes, is_suffix_array_of, sort_typeBstar};
use divsufsort::sssort::{ss_ilg, ss_isqrt};
use divsufsort::trsort::{tr_ilg, Budget};
use divsufsort::{sort, sort_in_place};

fn naive_suffix_array(t: &[u8]) -> Vec<i32> {
    let mut v: Vec<i32> = (0..t.len() as i32).collect();
    v.sort_by(|&a, &b| t[a as usize..].cmp(&t[b as usize..]));
    v
}

struct Lcg(u64);

impl Lcg {
    fn next(&mut self) -> u64 {
        self.0 = self.0.wrapping_mul(6364136223846793005).wrapping_add(1442695040888963407);
        self.0 >> 33
    }
}

fn random_text(rng: &mut Lcg, len: usize, alphabet: u64) -> Vec<u8> {
    (0..len).map(|_| (rng.next() % alphabet) as u8 + b'a').collect()
}

#[test]
fn shruggy() {
    let s = r#"¯\_(ツ)_/¯"#.as_bytes();
    let sa = sort(s);
    sa.verify().unwrap();
}

#[test]
fn test_divsufsort() {
    let inputs = ["Fool", "Love fool", "You are a love fool"];
    for input in inputs.iter() {
        let sa = sort(input.as_bytes());
        assert_eq!(sa.sa(), &naive_suffix_array(input.as_bytes())[..]);
    }
}

fn exact_isqrt(x: i32) -> i32 {
    if x >= 1024 * 1024 {
        return 1024;
    }
    let mut r = (x as f64).sqrt() as i32;
    while r * r > x {
        r -= 1;
    }
    while (r + 1) * (r + 1) <= x {
        r += 1;
    }
    r
}

#[test]
fn test_isqrt() {
    for i in 0..(i16::max_value() as i32) {
        let ours = ss_isqrt(i) as i32;
        let theirs = exact_isqrt(i);
        assert_eq!(ours, theirs, "for i = {}", i);
    }

    for i in (0..i32::max_value()).step_by(111) {
        let ours = ss_isqrt(i) as i32;
        let theirs = exact_isqrt(i);
        assert_eq!(ours, theirs, "for i = {}", i);
    }

    for i in (0..i32::max_value()).step_by(317) {
        let ours = ss_isqrt(i) as i32;
        let theirs = exact_isqrt(i);
        assert_eq!(ours, theirs, "for i = {}", i);
    }
}

#[test]
fn isqrt_whole_table_range() {
    for i in 0..(1 << 20) {
        assert_eq!(ss_isqrt(i), exact_isqrt(i), "for i = {}", i);
    }
    assert_eq!(ss_isqrt(1 << 20), 1024);
    assert_eq!(ss_isqrt(i32::MAX), 1024);
}

#[test]
fn short_texts() {
    let mut sa: Vec<i32> = vec![];
    sort_in_place(b"", &mut sa);
    assert!(sa.is_empty());

    let mut sa = vec![7];
    sort_in_place(b"x", &mut sa);
    assert_eq!(sa, vec![0]);

    let mut sa = vec![0, 0];
    sort_in_place(b"ab", &mut sa);
    assert_eq!(sa, vec![0, 1]);

    let mut sa = vec![0, 0];
    sort_in_place(b"ba", &mut sa);
    assert_eq!(sa, vec![1, 0]);

    let mut sa = vec![0, 0];
    sort_in_place(b"aa", &mut sa);
    assert_eq!(sa, vec![1, 0]);
}

#[test]
fn banana() {
    let sa = sort(b"banana");
    assert_eq!(sa.sa(), &[5, 3, 1, 0, 4, 2]);
    assert!(sa.verify().is_ok());
}

#[test]
fn sort_matches_naive_on_random_texts() {
    let mut rng = Lcg(42);
    for round in 0..300 {
        let len = (rng.next() % 300) as usize;
        let alphabet = 1 + rng.next() % (if round % 2 == 0 { 4 } else { 26 });
        let t = random_text(&mut rng, len, alphabet);
        let sa = sort(&t);
        assert_eq!(sa.sa(), &naive_suffix_array(&t)[..], "text {:?}", t);
    }
}

#[test]
fn passes_alone_build_the_suffix_array() {
    // texts whose type B* suffixes hold no tandem repeats: the two passes
    // finish and need no second attempt
    let mut rng = Lcg(7);
    let mut texts: Vec<Vec<u8>> = vec![
        b"mississippi".to_vec(),
        b"abracadabra".to_vec(),
        vec![b'a'; 1000],
        (0..=255u8).collect(),
        (0..=255u8).rev().collect(),
        r#"¯\_(ツ)_/¯"#.as_bytes().to_vec(),
    ];
    for _ in 0..100 {
        let len = 3 + (rng.next() % 2000) as usize;
        let alphabet = 10 + rng.next() % 20;
        texts.push(random_text(&mut rng, len, alphabet));
    }
    for _ in 0..20 {
        let len = 3 + (rng.next() % 5000) as usize;
        let t: Vec<u8> = (0..len).map(|_| rng.next() as u8).collect();
        texts.push(t);
    }
    for t in texts.iter() {
        let mut sa = vec![0; t.len()];
        assert!(divsufsort_passes(t, &mut sa), "text {:?}", t);
        assert!(is_suffix_array_of(t, &sa), "text {:?}", t);
        assert_eq!(sa, naive_suffix_array(t));
    }
}

#[test]
fn passes_on_all_short_binary_texts() {
    // every binary text of 3 to 12 bytes: where the passes finish, their
    // result is the suffix array; where they stop (tandem repeats), the
    // sort still gives it
    for n in 3..=12u32 {
        for code in 0..(1u32 << n) {
            let t: Vec<u8> = (0..n).map(|k| b'a' + ((code >> k) & 1) as u8).collect();
            let mut sa = vec![0; t.len()];
            if divsufsort_passes(&t, &mut sa) {
                assert_eq!(sa, naive_suffix_array(&t), "text {:?}", t);
            }
            let mut sa = vec![0; t.len()];
            divsufsort(&t, &mut sa);
            assert_eq!(sa, naive_suffix_array(&t), "text {:?}", t);
        }
    }
}

#[test]
fn tandem_repeats_are_still_sorted() {
    let t = b"ababababab";
    let mut sa = vec![0; t.len()];
    // the passes sort the run of tandem repeats themselves
    assert!(divsufsort_passes(t, &mut sa));
    assert_eq!(sa, vec![8, 6, 4, 2, 0, 9, 7, 5, 3, 1]);
    let sa = sort(t);
    assert_eq!(sa.sa(), &[8, 6, 4, 2, 0, 9, 7, 5, 3, 1]);
    let t = b"ab".repeat(700);
    let sa = sort(&t);
    assert_eq!(sa.sa(), &naive_suffix_array(&t)[..]);
}

#[test]
fn divsufsort_on_periodic_texts() {
    for period in 1..12usize {
        let unit: Vec<u8> = (0..period).map(|i| b'a' + (i % 3) as u8).collect();
        let t = unit.repeat(4096 / period + 1);
        let mut sa = vec![0; t.len()];
        divsufsort(&t, &mut sa);
        assert!(is_suffix_array_of(&t, &sa));
    }
}

#[test]
fn checker_refuses_wrong_arrays() {
    let t = b"banana";
    assert!(is_suffix_array_of(t, &[5, 3, 1, 0, 4, 2]));
    assert!(!is_suffix_array_of(t, &[5, 3, 1, 0, 2, 4]));
    assert!(!is_suffix_array_of(t, &[5, 3, 1, 0, 4]));
    assert!(!is_suffix_array_of(t, &[5, 3, 1, 0, 4, 6]));
    assert!(!is_suffix_array_of(t, &[5, 3, 1, 0, 4, -1]));
    assert!(!is_suffix_array_of(t, &[5, 5, 1, 0, 4, 2]));
}

#[test]
fn suffix_array_is_unique() {
    // two ways of building it give the same array
    let t = b"the quick brown fox jumps over the lazy dog, the end";
    let a = sort(t);
    let mut b = vec![0; t.len()];
    sort_in_place(t, &mut b);
    assert_eq!(a.sa(), &b[..]);
    assert_eq!(b, naive_suffix_array(t));
}

#[test]
fn logarithms() {
    assert_eq!(ss_ilg(0), -1);
    assert_eq!(ss_ilg(1), 0);
    assert_eq!(ss_ilg(255), 7);
    assert_eq!(ss_ilg(256), 8);
    assert_eq!(ss_ilg(65535), 15);
    assert_eq!(tr_ilg(0), -1);
    assert_eq!(tr_ilg(1), 0);
    assert_eq!(tr_ilg(65536), 16);
    assert_eq!(tr_ilg(16777215), 23);
    assert_eq!(tr_ilg(16777216), 24);
    assert_eq!(tr_ilg(i32::MAX), 30);
    for n in 1..100000 {
        assert_eq!(tr_ilg(n), 31 - n.leading_zeros() as i32);
    }
}

#[test]
fn budget() {
    let mut b = Budget::new(1, 10);
    assert_eq!((b.chance, b.remain, b.incval, b.count), (1, 10, 10, 0));
    assert!(b.check(4));
    assert_eq!(b.remain, 6);
    assert!(b.check(8));
    assert_eq!((b.chance, b.remain), (0, 8));
    assert!(!b.check(9));
    assert_eq!((b.chance, b.remain, b.count), (0, 8, 9));
    assert!(b.check(8));
    assert_eq!(b.remain, 0);
}

#[test]
fn text_and_pointers() {
    let t = Text(b"hello");
    assert_eq!(t.len(), 5);
    assert_eq!(t.get(1), b'e' as i32);
    let p = SAPtr(10);
    assert_eq!(p.add(5).0, 15);
    assert_eq!(p.sub(3).0, 7);
    assert_eq!(p.diff(SAPtr(4)), 6);
    assert_eq!(MAX_INPUT_SIZE, 2147483647);
}

#[test]
fn trace_points_do_nothing() {
    crosscheck::flush();
    crosscheck::SA_dump(&[1, 2, 3], "SA");
}

#[test]
fn counts_type_bstar_suffixes() {
    for (t, m) in [
        (&b"mississippi"[..], 3),
        (&b"banana"[..], 2),
        (&b"abracadabra"[..], 4),
        (&b"aaaa"[..], 0),
        (&b"abababababab"[..], 6),
    ]
    .iter()
    {
        let mut sa = vec![0; t.len()];
        let res = sort_typeBstar(&Text(t), &mut sa);
        assert_eq!(res.m, *m, "text {:?}", t);
    }
}

#[test]
fn type_a_buckets_start_after_smaller_bytes() {
    let t = b"banana";
    let mut sa = vec![0; t.len()];
    let res = sort_typeBstar(&Text(t), &mut sa);
    assert_eq!(res.m, 2);
    assert_eq!(res.A.0[97], 0);
    assert_eq!(res.A.0[98], 3);
    assert_eq!(res.A.0[110], 4);
    assert_eq!(res.A.0[111], 6);
    assert_eq!(res.A.0[0], 0);
    assert_eq!(res.A.0[255], 6);
    for text in [&b"mississippi"[..], &b"abracadabra"[..], &b"aaaa"[..], &b"zyx\x00\xffq"[..]] {
        let mut sa = vec![0; text.len()];
        let res = sort_typeBstar(&Text(text), &mut sa);
        for c in 0..256usize {
            let below = text.iter().filter(|&&b| (b as usize) < c).count() as i32;
            assert_eq!(res.A.0[c], below, "text {:?}, byte {}", text, c);
        }
    }
}

#[test]
fn budget_outside_its_usual_range() {
    // more remaining than the refill and a negative count of chances
    let mut b = Budget { chance: -1, remain: 10, incval: 5, count: 0 };
    assert!(b.check(20));
    assert_eq!((b.chance, b.remain, b.incval, b.count), (-2, -5, 5, 0));
    assert!(b.check(-10));
    assert_eq!((b.chance, b.remain, b.count), (-2, 5, 0));
    let mut b = Budget { chance: 0, remain: 1, incval: 5, count: 7 };
    assert!(!b.check(4));
    assert_eq!((b.chance, b.remain, b.count), (0, 1, 11));
}

#[test]
fn passes_sort_tandem_repeats_on_their_own() {
    let texts: [&[u8]; 6] = [
        b"abababababababababab",
        b"aaaaaaaaaaaaaaaaaaaaaaaaaaaaaaaa",
        b"abcabcabcabcabcabcabcabcabcabcabcx",
        b"mississippimississippimississippi",
        b"xyxyxyxyzxyxyxyxyzxyxyxyxyz",
        b"abaababaabaababaababaabaababaabaab",
    ];
    for t in texts.iter() {
        let mut sa = vec![0; t.len()];
        let done = divsufsort_passes(t, &mut sa);
        let mut expected = vec![0; t.len()];
        divsufsort(t, &mut expected);
        assert!(done, "passes gave up on {:?}", t);
        assert_eq!(sa, expected, "for {:?}", t);
    }
}

#[test]
fn passes_sort_every_short_binary_and_ternary_text() {
    for (alphabet, max_len) in [(2u32, 12usize), (3u32, 8usize)] {
        for len in 3..=max_len {
            let count = alphabet.pow(len as u32);
            for code in 0..count {
                let mut c = code;
                let t: Vec<u8> = (0..len)
                    .map(|_| {
                        let ch = b'a' + (c % alphabet) as u8;
                        c /= alphabet;
                        ch
                    })
                    .collect();
                let mut sa = vec![0; len];
                let done = divsufsort_passes(&t, &mut sa);
                assert!(done, "passes gave up on {:?}", t);
                assert_eq!(sa, naive_suffix_array(&t), "text {:?}", t);
            }
        }
    }
}

#[test]
fn passes_sort_long_random_and_periodic_texts() {
    let mut rng = Lcg(7);
    for round in 0..200u64 {
        let len = 3 + (rng.next() % 3000) as usize;
        let alphabet = 1 + (rng.next() % 4) as u8;
        let t: Vec<u8> = if round % 2 == 0 {
            (0..len).map(|_| b'a' + (rng.next() % alphabet as u64) as u8).collect()
        } else {
            let period = 1 + (rng.next() % 7) as usize;
            let unit: Vec<u8> = (0..period).map(|_| b'a' + (rng.next() % alphabet as u64) as u8).collect();
            (0..len).map(|i| unit[i % period]).collect()
        };
        let mut sa = vec![0; len];
        let done = divsufsort_passes(&t, &mut sa);
        let right = sa == naive_suffix_array(&t);
        assert!(done && right, "round {} length {} alphabet {} done {} right {}", round, len, alphabet, done, right);
    }
}
