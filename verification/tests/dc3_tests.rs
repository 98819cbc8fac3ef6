#![allow(non_snake_case)]
use divsufsort::dc3::{leq2, leq3, radix_pass, suffix_array};

#[test]
fn it_works() {
    let s = "Once upon a time, in a land most dreary";
    let mut T = vec![0usize; s.len() + 3];
    for (i, &b) in s.as_bytes().iter().enumerate() {
        T[i] = b as usize;
    }

    let n = s.len();
    let mut SA = vec![0; n];
    let K = *T.iter().max().unwrap();

    suffix_array(&T[..], &mut SA[..], n, K);
    for i in 0..(n - 1) {
        println!("===============");
        println!("suf(SA[{}]) = {:?}", i, &s[SA[i]..]);
        println!("suf(SA[{}]) = {:?}", i + 1, &s[SA[i + 1]..]);
    }
}

fn naive(t: &[usize]) -> Vec<usize> {
    let mut v: Vec<usize> = (0..t.len()).collect();
    v.sort_by(|&a, &b| t[a..].cmp(&t[b..]));
    v
}

#[test]
fn dc3_sorts_the_sentence() {
    let s = "Once upon a time, in a land most dreary";
    let mut T = vec![0usize; s.len() + 3];
    for (i, &b) in s.as_bytes().iter().enumerate() {
        T[i] = b as usize;
    }
    let n = s.len();
    let mut SA = vec![0; n];
    let K = *T.iter().max().unwrap();
    suffix_array(&T[..], &mut SA[..], n, K);
    for i in 0..(n - 1) {
        assert!(s[SA[i]..] < s[SA[i + 1]..]);
    }
}

#[test]
fn dc3_matches_naive_sort() {
    let mut state: u64 = 12345;
    for round in 0..400 {
        state = state.wrapping_mul(6364136223846793005).wrapping_add(1442695040888963407);
        let n = 2 + (state >> 40) as usize % 200;
        let k = 1 + (round % 7) as usize;
        let mut t = Vec::with_capacity(n + 3);
        for _ in 0..n {
            state = state.wrapping_mul(6364136223846793005).wrapping_add(1442695040888963407);
            t.push(1 + (state >> 40) as usize % k);
        }
        t.extend_from_slice(&[0, 0, 0]);
        let mut sa = vec![usize::MAX; n + 2];
        suffix_array(&t, &mut sa, n, k);
        assert_eq!(&sa[..n], &naive(&t[..n])[..], "text {:?}", &t[..n]);
        assert_eq!(&sa[n..], &[usize::MAX, usize::MAX]);
    }
}

#[test]
fn pair_and_triple_order() {
    assert!(leq2(1, 5, 2, 0));
    assert!(leq2(1, 5, 1, 5));
    assert!(!leq2(1, 6, 1, 5));
    assert!(!leq2(2, 0, 1, 9));
    // (a1, a2, a3) <= (b1, b2, b3), the arguments given as a1, a2, b1, b2, a3, b3
    assert!(leq3(1, 2, 1, 2, 3, 3));
    assert!(!leq3(1, 2, 1, 2, 4, 3));
    assert!(leq3(1, 2, 1, 3, 9, 0));
    assert!(!leq3(2, 0, 1, 9, 0, 9));
}

#[test]
fn radix_pass_is_stable() {
    let a = [0usize, 1, 2, 3, 4];
    let r = [2usize, 1, 2, 0, 1];
    let mut b = [9usize; 7];
    radix_pass(&a, &mut b, &r, 5, 2);
    // keys 2, 1, 2, 0, 1: key 0 first, then the key-1 entries, then key 2,
    // each group in the order it had in `a`
    assert_eq!(b, [3, 1, 4, 0, 2, 9, 9]);
}

#[test]
fn dc3_agrees_with_divsufsort() {
    let texts: [&[u8]; 4] = [b"mississippi", b"banana", b"abababababab", b"the cat sat on the mat"];
    for t in texts.iter() {
        let n = t.len();
        let mut T: Vec<usize> = t.iter().map(|&b| b as usize + 1).collect();
        T.extend_from_slice(&[0, 0, 0]);
        let mut sa = vec![0; n];
        suffix_array(&T, &mut sa, n, 256);
        let bytes = divsufsort::sort(t);
        let as_usize: Vec<usize> = bytes.sa().iter().map(|&x| x as usize).collect();
        assert_eq!(sa, as_usize);
    }
}
