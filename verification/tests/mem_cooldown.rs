use silk_engine::util::cooldown::Cooldown;
use silk_engine::util::mem::Mem;

#[test]
fn mem_units() {
    assert_eq!(Mem::kb(2).as_bytes(), 2048);
    assert_eq!(Mem::mb(3).as_kb(), 3072);
    assert_eq!(Mem::gb(1).as_mb(), 1024);
    assert_eq!(Mem::b(5000).as_kb(), 4);
    assert_eq!(Mem::b(7).as_b(), 7);
    assert_eq!(Mem::gb(5).as_gb(), 5);
}

#[test]
fn mem_parses_decimal() {
    assert_eq!(Mem::str("1024").as_kb(), 1);
    assert_eq!(Mem::str("+5").as_bytes(), 5);
    assert_eq!(Mem::str("0007").as_bytes(), 7);
}

#[test]
fn cooldown_ready_after_delay() {
    let mut c = Cooldown::ms(5);
    assert_eq!(c.delay, 5_000_000);
    assert!(!c.ready_at(4_999_999));
    assert!(c.ready_at(5_000_000));
    assert_eq!(c.dt_at(10), 10);
    c.next();
    assert_eq!(c.dt_at(7_000_000), 2_000_000);
    assert_eq!(c.dt_at(1), 0);
    assert_eq!(Cooldown::us(3).delay, 3_000);
    assert_eq!(Cooldown::ns(9).delay, 9);
    let c = Cooldown::new(u128::MAX);
    assert!(!c.ready());
    let _ = c.dt();
}

#[test]
fn cooldown_reset_at_moves_the_mark() {
    let mut c = Cooldown::ms(5);
    c.reset_at(7_000_000);
    assert!(!c.ready_at(11_999_999));
    assert!(c.ready_at(12_000_000));
    assert_eq!(c.dt_at(8_000_000), 1_000_000);
    assert_eq!(c.dt_at(1), 0);
}
