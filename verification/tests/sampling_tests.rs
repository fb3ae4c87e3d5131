use pathagon_engine::sampling::{sample_actions, Rng};
use pathagon_engine::{Action, GameState};

#[test]
fn xorshift_steps_and_never_starts_at_zero() {
    let mut zero = Rng::new(0);
    let mut one = Rng::new(1);
    assert_eq!(zero.next_u64(), one.next_u64());
    let mut rng = Rng::new(1);
    let first = rng.next_u64();
    let mut expected = 1_u64;
    expected ^= expected << 7;
    expected ^= expected >> 9;
    expected ^= expected << 8;
    assert_eq!(first, expected);
    let mut bounded = Rng::new(2_026_090_101);
    for _ in 0..100 {
        assert!(bounded.index(7) < 7);
    }
}

#[test]
fn sampled_actions_keep_the_played_one_in_action_order() {
    let legal = GameState::new().legal_actions();
    let chosen = legal[30];
    let mut rng = Rng::new(2_026_090_101);
    let sample = sample_actions(&legal, chosen, 8, &mut rng);
    assert_eq!(sample.len(), 8);
    assert!(sample.contains(&chosen));
    assert!(sample.iter().all(|action| legal.contains(action)));
    assert!(sample.windows(2).all(|pair| pair[0].order() < pair[1].order()));
    let short = [Action::Place { to: 3 }, Action::Place { to: 1 }];
    assert_eq!(sample_actions(&short, short[0], 4, &mut rng), short.to_vec());
}

#[test]
fn sampled_actions_are_the_generator_draws_from_the_rest() {
    let legal: Vec<Action> = (0..10_u8).map(|to| Action::Place { to }).collect();
    let chosen = legal[4];
    let mut rng = Rng::new(77);
    let sample = sample_actions(&legal, chosen, 4, &mut rng);
    let mut draws = Rng::new(77);
    let mut pool: Vec<Action> = legal.iter().copied().filter(|a| *a != chosen).collect();
    let mut expected = vec![chosen];
    for _ in 0..3 {
        let index = draws.index(pool.len());
        expected.push(pool.swap_remove(index));
    }
    expected.sort_by_key(|a| a.order());
    assert_eq!(sample, expected);
    assert_eq!(rng.next_u64(), draws.next_u64());
}
