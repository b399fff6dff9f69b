use gambit::matchmaking::{Category, RatingMode, TimeControl, TimeMode};

fn tc(initial_time: i64, mode: TimeMode) -> TimeControl {
    TimeControl { initial_time, mode }
}

#[test]
fn category_bullet_under_120s() {
    assert!(matches!(tc(119_000, TimeMode::Increment(0)).category(), Category::Bullet));
}

#[test]
fn category_boundary_119999ms_is_bullet() {
    assert!(matches!(tc(119_999, TimeMode::Increment(0)).category(), Category::Bullet));
}

#[test]
fn category_boundary_120s_is_blitz() {
    assert!(matches!(tc(120_000, TimeMode::Increment(0)).category(), Category::Blitz));
}

#[test]
fn category_boundary_299s_is_blitz() {
    assert!(matches!(tc(299_000, TimeMode::Increment(0)).category(), Category::Blitz));
}

#[test]
fn category_boundary_300s_is_rapid() {
    assert!(matches!(tc(300_000, TimeMode::Increment(0)).category(), Category::Rapid));
}

#[test]
fn category_boundary_1499s_is_rapid() {
    assert!(matches!(tc(1_499_000, TimeMode::Increment(0)).category(), Category::Rapid));
}

#[test]
fn category_boundary_1500s_is_classical() {
    assert!(matches!(tc(1_500_000, TimeMode::Increment(0)).category(), Category::Classical));
}

#[test]
fn category_negative_initial_time_is_bullet() {
    assert!(matches!(tc(-5_000, TimeMode::Increment(0)).category(), Category::Bullet));
}

#[test]
fn bucket_increment_casual() {
    let t = tc(300_000, TimeMode::Increment(5_000));
    assert_eq!(t.bucket(RatingMode::Casual), "mm:300+5000:i:casual");
}

#[test]
fn bucket_increment_rated() {
    let t = tc(600_000, TimeMode::Increment(0));
    assert_eq!(t.bucket(RatingMode::Rated), "mm:600+0:i:rated");
}

#[test]
fn bucket_delay_casual() {
    let t = tc(180_000, TimeMode::Delay(2_000));
    assert_eq!(t.bucket(RatingMode::Casual), "mm:180+2000:d:casual");
}

#[test]
fn bucket_truncates_seconds_toward_zero() {
    let t = tc(-1_500, TimeMode::Delay(-3));
    assert_eq!(t.bucket(RatingMode::Rated), "mm:-1+-3:d:rated");
    let t = tc(59_999, TimeMode::Increment(1));
    assert_eq!(t.bucket(RatingMode::Casual), "mm:59+1:i:casual");
}

#[test]
fn rating_mode_is_rated() {
    assert!(RatingMode::Rated.is_rated());
    assert!(!RatingMode::Casual.is_rated());
}

#[test]
fn rating_mode_display() {
    assert_eq!(RatingMode::Rated.to_string(), "rated");
    assert_eq!(RatingMode::Casual.to_string(), "casual");
}

#[test]
fn category_display() {
    assert_eq!(Category::Bullet.to_string(), "bullet");
    assert_eq!(Category::Blitz.to_string(), "blitz");
    assert_eq!(Category::Rapid.to_string(), "rapid");
    assert_eq!(Category::Classical.to_string(), "classical");
}

#[test]
fn seeks_share_a_bucket_only_when_alike() {
    let inc = TimeControl { initial_time: 60_000, mode: TimeMode::Increment(0) };
    let inc_late = TimeControl { initial_time: 60_999, mode: TimeMode::Increment(0) };
    let delay = TimeControl { initial_time: 60_000, mode: TimeMode::Delay(0) };
    assert_eq!(inc.bucket(RatingMode::Rated), inc_late.bucket(RatingMode::Rated));
    assert_ne!(inc.bucket(RatingMode::Rated), delay.bucket(RatingMode::Rated));
    assert_ne!(inc.bucket(RatingMode::Rated), inc.bucket(RatingMode::Casual));
}

#[test]
fn categories_fastest_first() {
    assert_eq!(Category::all(), vec![Category::Bullet, Category::Blitz, Category::Rapid, Category::Classical]);
}
