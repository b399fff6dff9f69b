use gambit::messages::rtt_bucket;
use gambit::player::{PlayerRole, Side};

#[test]
fn side_opposite_involution() {
    assert_eq!(Side::White.opposite(), Side::Black);
    assert_eq!(Side::Black.opposite(), Side::White);
    assert_eq!(Side::White.opposite().opposite(), Side::White);
    assert_eq!(Side::Black.opposite().opposite(), Side::Black);
}

#[test]
fn player_role_color_some_for_players() {
    assert_eq!(PlayerRole::Player(Side::White).color(), Some(Side::White));
    assert_eq!(PlayerRole::Player(Side::Black).color(), Some(Side::Black));
}

#[test]
fn player_role_color_none_for_spectator() {
    assert_eq!(PlayerRole::Spectator.color(), None);
}

#[test]
fn rtt_bucket_boundaries() {
    assert_eq!(rtt_bucket(0), 0);
    assert_eq!(rtt_bucket(99), 0);
    assert_eq!(rtt_bucket(100), 1);
    assert_eq!(rtt_bucket(249), 1);
    assert_eq!(rtt_bucket(250), 2);
    assert_eq!(rtt_bucket(499), 2);
    assert_eq!(rtt_bucket(500), 3);
    assert_eq!(rtt_bucket(10_000), 3);
}

#[test]
fn rtt_bucket_never_improves_with_a_slower_round_trip() {
    let samples = [0u32, 50, 99, 100, 200, 249, 250, 499, 500, 4000, u32::MAX];
    for w in samples.windows(2) {
        assert!(rtt_bucket(w[0]) <= rtt_bucket(w[1]));
    }
}
