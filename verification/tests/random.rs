use typstuml::layout::elk::alg::random::JavaRandom;

#[test]
fn matches_java_util_random_seed_1() {
    let mut r = JavaRandom::new(1);
    let seq: Vec<i32> = (0..10).map(|_| r.next_int(10)).collect();
    assert_eq!(seq, [5, 8, 7, 3, 4, 4, 4, 6, 8, 8]);
}

#[test]
fn power_of_two_bound_matches_java() {
    let mut r = JavaRandom::new(1);
    let seq: Vec<i32> = (0..5).map(|_| r.next_int(16)).collect();
    assert_eq!(seq, [11, 1, 6, 6, 3]);
}

#[test]
fn small_bound_matches_java() {
    let mut r = JavaRandom::new(1);
    let seq: Vec<i32> = (0..6).map(|_| r.next_int(3)).collect();
    assert_eq!(seq, [0, 1, 1, 0, 2, 1]);
}

#[test]
fn next_long_matches_java() {
    let mut r = JavaRandom::new(1);
    let seq: Vec<i64> = (0..4).map(|_| r.next_long()).collect();
    assert_eq!(
        seq,
        [
            -4964420948893066024,
            7564655870752979346,
            3831662765844904176,
            6137546356583794141
        ]
    );
}

#[test]
fn next_boolean_matches_java() {
    let mut r = JavaRandom::new(1);
    let seq: Vec<bool> = (0..8).map(|_| r.next_boolean()).collect();
    assert_eq!(seq, [true, false, false, false, false, false, false, true]);
}

#[test]
fn set_seed_from_next_long_matches_java() {
    let mut r = JavaRandom::new(1);
    let s = r.next_long();
    assert_eq!(s, -4964420948893066024);
    r.set_seed(s);
    let seq: Vec<i32> = (0..5).map(|_| r.next_int(10)).collect();
    assert_eq!(seq, [9, 5, 4, 7, 5]);
}

#[test]
fn set_seed_restarts_the_stream() {
    let mut a = JavaRandom::new(42);
    let first: Vec<i32> = (0..5).map(|_| a.next_int(7)).collect();
    a.set_seed(42);
    let again: Vec<i32> = (0..5).map(|_| a.next_int(7)).collect();
    assert_eq!(first, again);
    let mut b = JavaRandom::new(42);
    let fresh: Vec<i32> = (0..5).map(|_| b.next_int(7)).collect();
    assert_eq!(first, fresh);
}

#[test]
fn draws_count_every_step() {
    let mut r = JavaRandom::new(1);
    assert_eq!(r.draws(), 0);
    r.next_boolean();
    assert_eq!(r.draws(), 1);
    r.next_long();
    assert_eq!(r.draws(), 3);
    r.next_int(16);
    assert_eq!(r.draws(), 4);
    r.set_seed(5);
    assert_eq!(r.draws(), 4);
}

#[test]
fn seed_halves_of_the_scrambled_state() {
    let r = JavaRandom::new(0);
    // 0 ^ 0x5DEECE66D, cut to 48 bits.
    assert_eq!(r.seed_hi_lo(), (0x5DE, 0xECE66D));
    let r = JavaRandom::new(1);
    assert_eq!(r.seed_hi_lo(), (0x5DE, 0xECE66C));
}

#[test]
fn bound_one_is_always_zero() {
    let mut r = JavaRandom::new(7);
    for _ in 0..20 {
        assert_eq!(r.next_int(1), 0);
    }
}
