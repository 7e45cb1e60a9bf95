use sockets::time::elapsed_at_least;
use sockets::Instant;

#[test]
fn instant_keeps_its_ticks() {
    let t = Instant::<1000>::from_ticks(234);
    assert_eq!(t.ticks(), 234);
    assert_eq!(t, Instant::<1000>::from_ticks(234));
    assert_ne!(t, Instant::<1000>::from_ticks(235));
}

#[test]
fn elapsed_at_the_tick_of_the_timeout() {
    let since = Instant::<1000>::from_ticks(500);
    // 15 s at 1 kHz are 15 000 ticks.
    assert!(!elapsed_at_least(Instant::<1000>::from_ticks(15_499), since, 15));
    assert!(elapsed_at_least(Instant::<1000>::from_ticks(15_500), since, 15));
    assert!(elapsed_at_least(Instant::<1000>::from_ticks(15_501), since, 15));
    assert!(elapsed_at_least(since, since, 0));
    assert!(!elapsed_at_least(since, since, 1));
}

#[test]
fn elapsed_scales_seconds_by_the_timer_rate() {
    assert!(!elapsed_at_least(Instant::<1>::from_ticks(14), Instant::<1>::from_ticks(0), 15));
    assert!(elapsed_at_least(Instant::<1>::from_ticks(15), Instant::<1>::from_ticks(0), 15));
    assert!(!elapsed_at_least(Instant::<32768>::from_ticks(65_535), Instant::<32768>::from_ticks(0), 2));
    assert!(elapsed_at_least(Instant::<32768>::from_ticks(65_536), Instant::<32768>::from_ticks(0), 2));
}

#[test]
fn elapsed_is_false_before_the_start() {
    let since = Instant::<1000>::from_ticks(10_000);
    assert!(!elapsed_at_least(Instant::<1000>::from_ticks(9_999), since, 0));
    assert!(!elapsed_at_least(Instant::<1000>::from_ticks(0), since, 0));
}

#[test]
fn elapsed_follows_the_counter_over_its_overflow() {
    let since = Instant::<1000>::from_ticks(u32::MAX - 999);
    // 2 000 ticks later the counter has started again at zero.
    assert!(!elapsed_at_least(Instant::<1000>::from_ticks(999), since, 2));
    assert!(elapsed_at_least(Instant::<1000>::from_ticks(1_000), since, 2));
}

#[test]
fn elapsed_takes_far_apart_instants_as_reversed() {
    let since = Instant::<1000>::from_ticks(0);
    // Exactly half the range apart still counts as later.
    assert!(elapsed_at_least(Instant::<1000>::from_ticks(0x7fff_ffff), since, 1));
    // More than half the range apart counts as earlier.
    assert!(!elapsed_at_least(Instant::<1000>::from_ticks(0x8000_0000), since, 0));
    assert!(!elapsed_at_least(Instant::<1000>::from_ticks(u32::MAX), since, 1));
}

#[test]
fn timeout_too_long_to_count_is_never_reached() {
    let since = Instant::<1000>::from_ticks(0);
    // 4 294 968 s at 1 kHz do not fit 32 bits of ticks.
    assert!(!elapsed_at_least(Instant::<1000>::from_ticks(0x7fff_ffff), since, 4_294_968));
    // 4 294 967 s do, but lie beyond half the range.
    assert!(!elapsed_at_least(Instant::<1000>::from_ticks(0x7fff_ffff), since, 4_294_967));
    assert!(elapsed_at_least(Instant::<1000>::from_ticks(0x7fff_ffff), since, 2_147_483));
    assert!(!elapsed_at_least(Instant::<1000>::from_ticks(0x7fff_ffff), since, 2_147_484));
}
