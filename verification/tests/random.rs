use mazes::RandomSource;

#[test]
fn thread_picks_stay_below_the_bound() {
    let mut source = RandomSource::thread();
    for n in 1..40usize {
        for _ in 0..50 {
            assert!(source.pick(n) < n);
        }
    }
}

#[test]
fn thread_pick_from_one_is_zero() {
    let mut source = RandomSource::thread();
    for _ in 0..20 {
        assert_eq!(source.pick(1), 0);
    }
}

#[test]
fn thread_picks_reach_every_value() {
    let mut source = RandomSource::thread();
    let mut seen = [false; 4];
    for _ in 0..2000 {
        seen[source.pick(4)] = true;
    }
    assert_eq!(seen, [true; 4]);
}

#[test]
fn thread_coin_shows_both_faces() {
    let mut source = RandomSource::thread();
    let mut heads = 0;
    let mut tails = 0;
    for _ in 0..2000 {
        if source.flip() {
            heads += 1;
        } else {
            tails += 1;
        }
    }
    assert!(heads > 0);
    assert!(tails > 0);
}

#[test]
fn scripted_picks_follow_the_script_round_and_round() {
    let mut source = RandomSource::scripted(vec![5, 0, 7]);
    assert_eq!(source.pick(10), 5);
    assert_eq!(source.pick(10), 0);
    assert_eq!(source.pick(10), 7);
    assert_eq!(source.pick(10), 5);
    assert_eq!(source.pick(10), 0);
    assert_eq!(source.pick(10), 7);
}

#[test]
fn scripted_picks_are_reduced_below_the_bound() {
    let mut source = RandomSource::scripted(vec![5, 9, 4]);
    assert_eq!(source.pick(3), 2);
    assert_eq!(source.pick(3), 0);
    assert_eq!(source.pick(4), 0);
    assert_eq!(source.pick(1), 0);
}

#[test]
fn empty_script_picks_zero() {
    let mut source = RandomSource::scripted(Vec::new());
    assert_eq!(source.pick(7), 0);
    assert_eq!(source.pick(2), 0);
    assert!(source.flip());
}

#[test]
fn scripted_coin_is_heads_on_zero() {
    let mut source = RandomSource::scripted(vec![0, 1, 2, 3]);
    assert!(source.flip());
    assert!(!source.flip());
    assert!(source.flip());
    assert!(!source.flip());
}
