use reinforcement_learning_chess::value::{blend, discount_power, material_value, scale, ONE};

#[test]
fn discount_power_multiplies_per_ply() {
    assert_eq!(discount_power(900_000, 0), ONE);
    assert_eq!(discount_power(900_000, 1), 900_000);
    assert_eq!(discount_power(900_000, 2), 810_000);
    assert_eq!(discount_power(900_000, 3), 729_000);
    assert_eq!(discount_power(333_333, 2), 111_110);
}

#[test]
fn scale_rounds_toward_zero() {
    assert_eq!(scale(ONE, 810_000), 810_000);
    assert_eq!(scale(-ONE, 810_000), -810_000);
    assert_eq!(scale(0, 810_000), 0);
    assert_eq!(scale(-7, 500_000), -3);
    assert_eq!(scale(7, 500_000), 3);
    assert_eq!(scale(i64::MIN, ONE), i64::MIN);
}

#[test]
fn material_heuristic_values() {
    assert_eq!(material_value(39, 39), 0);
    assert_eq!(material_value(39, 30), 230_769);
    assert_eq!(material_value(30, 39), -230_769);
    assert_eq!(material_value(10, 0), ONE);
    assert_eq!(material_value(0, 10), -ONE);
    assert_eq!(material_value(0, 0), 0);
}

#[test]
fn material_heuristic_stays_in_unit_range() {
    for w in 0u32..60 {
        for b in 0u32..60 {
            let v = material_value(w, b);
            assert!(-ONE <= v && v <= ONE);
        }
    }
    let v = material_value(u32::MAX, 1);
    assert!(v <= ONE && v > 0);
}

#[test]
fn blend_is_the_mean_rounded_toward_zero() {
    assert_eq!(blend(3, 4), 3);
    assert_eq!(blend(-3, -4), -3);
    assert_eq!(blend(810_000, 0), 405_000);
    assert_eq!(blend(i64::MAX, i64::MAX), i64::MAX);
}
