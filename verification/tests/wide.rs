use color_growth::wide::at_most;
use color_growth::wide::one;
use color_growth::wide::times;

fn number(limbs: &[u32]) -> u128 {
    let mut n = 0u128;
    for (i, &limb) in limbs.iter().enumerate() {
        if limb != 0 {
            n += (limb as u128) << (32 * i);
        }
    }
    n
}

#[test]
fn one_is_one() {
    assert_eq!(number(&one()), 1);
}

#[test]
fn times_multiplies() {
    assert_eq!(number(&times(&one(), 7)), 7);
    assert_eq!(number(&times(&vec![], 7)), 0);
    assert_eq!(number(&times(&vec![5], 0)), 0);
    assert_eq!(number(&times(&vec![0xFFFF_FFFF], 0xFFFF_FFFF)), 0xFFFF_FFFFu128 * 0xFFFF_FFFF);
    assert_eq!(number(&times(&vec![0, 1], 2)), 2u128 << 32);
    let mut n = one();
    let mut expected = 1u128;
    for _ in 0..15 {
        n = times(&n, 255);
        expected *= 255;
        assert_eq!(number(&n), expected);
    }
}

#[test]
fn times_carries_across_limbs() {
    assert_eq!(times(&vec![0x8000_0000], 2), vec![0, 1]);
    assert_eq!(times(&vec![0xFFFF_FFFF, 0xFFFF_FFFF], 2), vec![0xFFFF_FFFE, 0xFFFF_FFFF, 1]);
    assert_eq!(times(&vec![1, 2, 3], 1), vec![1, 2, 3]);
}

#[test]
fn at_most_compares_numbers() {
    assert!(at_most(&vec![], &vec![]));
    assert!(at_most(&vec![], &vec![0, 0]));
    assert!(at_most(&vec![0, 0], &vec![]));
    assert!(at_most(&vec![5], &vec![5]));
    assert!(at_most(&vec![4], &vec![5]));
    assert!(!at_most(&vec![6], &vec![5]));
    assert!(at_most(&vec![0xFFFF_FFFF], &vec![0, 1]));
    assert!(!at_most(&vec![0, 1], &vec![0xFFFF_FFFF]));
    assert!(at_most(&vec![9, 1], &vec![3, 2]));
    assert!(!at_most(&vec![3, 2], &vec![9, 1]));
    assert!(at_most(&vec![3, 2, 0, 0], &vec![3, 2]));
    assert!(!at_most(&vec![3, 2, 0, 1], &vec![3, 2]));
}
