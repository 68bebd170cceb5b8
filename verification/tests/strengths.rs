use rdt::strength::{SimpleStrength, Strength, STEP_DIVISOR, UNIT};

#[test]
fn new_strength_is_zero_or_one_step() {
    assert_eq!(SimpleStrength::new(false).value(), 0);
    assert_eq!(SimpleStrength::new(true).value(), 50_000_000);
    assert_eq!(SimpleStrength::default().value(), 0);
    assert_eq!(UNIT, 1_000_000_000);
    assert_eq!(STEP_DIVISOR, 20);
}

#[test]
fn increase_moves_a_twentieth_of_the_way_to_one() {
    let mut s = SimpleStrength::new(true);
    s.increase();
    assert_eq!(s.value(), 97_500_000);
    s.increase();
    assert_eq!(s.value(), 142_625_000);
    assert_eq!(SimpleStrength::new(true).incremented().value(), 97_500_000);
}

#[test]
fn decrease_takes_a_twentieth_away() {
    let mut s = SimpleStrength::new(true);
    s.decrease();
    assert_eq!(s.value(), 47_500_000);
    s.decrease();
    assert_eq!(s.value(), 45_125_000);
    assert_eq!(SimpleStrength::new(true).decremented().value(), 47_500_000);
    let mut zero = SimpleStrength::new(false);
    zero.decrease();
    assert_eq!(zero.value(), 0);
}

#[test]
fn increase_never_lowers_and_reaches_one() {
    let mut s = SimpleStrength::new(false);
    let mut steps = 0;
    while s.value() < UNIT {
        let before = s.value();
        s.increase();
        assert!(s.value() > before);
        assert!(s.value() <= UNIT);
        steps += 1;
        assert!(steps < 1000);
    }
    s.increase();
    assert_eq!(s.value(), UNIT);
}

#[test]
fn decrease_never_raises_and_reaches_zero() {
    let mut s = SimpleStrength::new(false);
    for _ in 0..1000 {
        s.increase();
    }
    assert_eq!(s.value(), UNIT);
    let mut steps = 0;
    while s.value() > 0 {
        let before = s.value();
        s.decrease();
        assert!(s.value() < before);
        steps += 1;
        assert!(steps < 1000);
    }
    s.decrease();
    assert_eq!(s.value(), 0);
}

#[test]
fn copies_leave_the_strength_as_it_was() {
    let s = SimpleStrength::new(true);
    let grown = s.incremented();
    let shrunk = s.decremented();
    assert_eq!(s.value(), 50_000_000);
    assert!(grown.value() > s.value());
    assert!(shrunk.value() < s.value());
}
