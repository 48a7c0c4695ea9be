use sediment::ratio::Ratio;
use sediment::rate_meter::{Rate, RateMeter};

fn as_f32(rate: Option<Rate>) -> Option<f32> {
    rate.map(|r| (r.sum as f32) / (r.limit as f32))
}

#[test]
fn limit_samples() {
    let mut m = RateMeter::new(1);

    m.sample(1);
    assert_eq!(m.len(), 1);

    m.sample(1);
    assert_eq!(m.len(), 1);
}

#[test]
fn averages_correctly() {
    let mut m = RateMeter::new(3);

    m.sample(1);
    m.sample(2);
    m.sample(3);
    assert_eq!(as_f32(m.rate()), Some(2.0));

    m.sample(4);
    assert_eq!(as_f32(m.rate()), Some(3.0));

    m.sample(5);
    assert_eq!(as_f32(m.rate()), Some(4.0));
}

#[test]
fn only_reports_if_full() {
    let mut m = RateMeter::new(3);
    m.sample(1);
    assert_eq!(as_f32(m.rate()), None);

    m.sample(2);
    assert_eq!(as_f32(m.rate()), None);

    m.sample(3);
    assert_eq!(as_f32(m.rate()), Some(2.0));
}

#[test]
fn exact_sums_of_the_window() {
    let mut m = RateMeter::new(3);
    for v in [1usize, 2, 3, 4, 5] {
        m.sample(v);
    }
    assert_eq!(m.rate(), Some(Rate { sum: 12, limit: 3 }));
}

#[test]
fn limit_one_reports_on_first_sample() {
    let mut m = RateMeter::new(1);
    assert_eq!(m.rate(), None);
    m.sample(1);
    assert_eq!(m.rate(), Some(Rate { sum: 1, limit: 1 }));
    m.sample(0);
    assert_eq!(m.rate(), Some(Rate { sum: 0, limit: 1 }));
}

#[test]
fn young_meter_is_below_nothing() {
    let mut m = RateMeter::new(3);
    let one = Ratio { numerator: 1, denominator: 1 };
    m.sample(0);
    m.sample(0);
    assert!(!m.is_below(one));
    m.sample(0);
    assert!(m.is_below(one));
}

#[test]
fn is_below_is_strict() {
    let mut m = RateMeter::new(4);
    for v in [1usize, 0, 0, 0] {
        m.sample(v);
    }
    // The rate is exactly one quarter.
    assert!(!m.is_below(Ratio { numerator: 1, denominator: 4 }));
    assert!(!m.is_below(Ratio { numerator: 2, denominator: 10 }));
    assert!(m.is_below(Ratio { numerator: 26, denominator: 100 }));
    assert!(!m.is_below(Ratio { numerator: 0, denominator: 1 }));
}

#[test]
fn reset_empties_the_window() {
    let mut m = RateMeter::new(2);
    m.sample(1);
    m.sample(1);
    assert!(m.rate().is_some());
    m.reset();
    assert_eq!(m.len(), 0);
    assert_eq!(m.rate(), None);
    assert_eq!(m.limit(), 2);
}

#[test]
fn window_without_room_has_no_reading() {
    let mut m = RateMeter::new(0);
    m.sample(1);
    assert_eq!(m.len(), 0);
    assert_eq!(m.rate(), None);
    assert!(!m.is_below(Ratio { numerator: 1, denominator: 1 }));
}
