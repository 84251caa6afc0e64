use funkot_player::fade::TransportFade;

#[test]
fn a_new_stream_starts_silent_and_fades_in() {
    let mut f = TransportFade::new(48_000);
    assert!(f.is_silent());
    assert_eq!(f.full(), 479);
    assert_eq!(f.wanted(14, true), 0);
    assert_eq!(f.wanted(14, false), 14);
    let gains: Vec<usize> = (0..3).map(|_| f.step(false)).collect();
    assert_eq!(gains, vec![0, 1, 2]);
    assert!(!f.is_silent());
}

#[test]
fn pause_renders_at_most_the_fade_and_then_freezes() {
    let mut f = TransportFade::new(48_000);
    for _ in 0..600 {
        f.step(false);
    }
    assert_eq!(f.wanted(4096, true), 480);
    assert_eq!(f.wanted(17, true), 17);
    let mut n = 0;
    while !f.is_silent() {
        let g = f.step(true);
        n += 1;
        if f.is_silent() {
            assert_eq!(g, 0);
        }
    }
    assert_eq!(n, 480);
    for _ in 0..3 {
        assert_eq!(f.wanted(4096, true), 0);
    }
    assert_eq!(f.step(false), 0);
    assert_eq!(f.step(false), 1);
}

#[test]
fn reversing_a_partial_fade_never_jumps() {
    let mut f = TransportFade::new(44_100);
    assert_eq!(f.full(), 440);
    for _ in 0..500 {
        f.step(false);
    }
    let mut prev = f.step(true);
    assert_eq!(prev, 440);
    for (paused, frames) in [(true, 91), (false, 37), (true, 503), (false, 700)] {
        for _ in 0..frames {
            let g = f.step(paused);
            assert!(g.abs_diff(prev) <= 1);
            prev = g;
        }
    }
    assert_eq!(prev, 440);
}

#[test]
fn silence_drops_to_zero_at_once() {
    let mut f = TransportFade::new(48_000);
    for _ in 0..10 {
        f.step(false);
    }
    f.silence();
    assert!(f.is_silent());
    assert_eq!(f.wanted(64, true), 0);
    assert_eq!(f.step(false), 0);
}

#[test]
fn tiny_rates_still_fade_over_two_frames() {
    assert_eq!(TransportFade::new(0).full(), 1);
    assert_eq!(TransportFade::new(149).full(), 1);
    assert_eq!(TransportFade::new(250).full(), 2);
}
