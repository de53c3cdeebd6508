use algorithms::prime::is_prime;

#[test]
fn test_is_prime() {
    vec![
        2usize,
        3,
        5,
        7,
        11,
        13,
        17,
        19,
        23,
        29,
        31,
        37,
        41,
        43,
        47,
        53,
        59,
        61,
        67,
        71,
        73,
        79,
        83,
        89,
        97,
        101,
        103,
        107,
        109,
        113,
        127,
        131,
        137,
        139,
        149,
        151,
        157,
        163,
        167,
        173,
        179,
        181,
        191,
        193,
        197,
        199,
        9901,
        9907,
        9923,
        9929,
        9931,
        9941,
        9949,
        9967,
        9973,
        693008464254389,
        717157641478073,
        104406121001953,
    ]
    .iter()
    .for_each(|&num| assert!(is_prime(num)))
}

#[test]
fn is_prime_rejects_small_and_composite() {
    for n in [0usize, 1, 4, 6, 8, 9, 15, 21, 25, 49, 91, 9999, 1_000_000] {
        assert!(!is_prime(n), "{} is not prime", n);
    }
}
