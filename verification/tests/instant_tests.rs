use embassy_time::Instant;
use raw_executor::instant::{instant_to_ticks, ticks_to_instant};

#[test]
fn instant_tick_round_trip() {
    let i = ticks_to_instant(42);
    assert_eq!(instant_to_ticks(&i), 42);
    assert_eq!(i.as_ticks(), 42);
}

#[test]
fn platform_instants_convert_to_the_core_tick_domain() {
    let i = Instant::from_ticks(7);
    assert_eq!(instant_to_ticks(&i), 7);
    assert_eq!(ticks_to_instant(u64::MAX), Instant::MAX);
}
