use keystats::record::Record;

fn folded(values: &[i16]) -> Record {
    let mut record = Record::new(values[0]);
    for v in &values[1..] {
        record.add(*v);
    }
    record
}

fn combined(a: &Record, b: &Record) -> Record {
    let mut r = *a;
    r.combine(b);
    r
}

#[test]
fn new_record_holds_the_value_in_every_field() {
    let r = Record::new(231);
    assert_eq!(r.min(), 231);
    assert_eq!(r.max(), 231);
    assert_eq!(r.total(), 231);
    assert_eq!(r.count(), 1);
    assert_eq!(r.mean(), 231);
}

#[test]
fn add_updates_min_max_sum_and_count() {
    let r = folded(&[120, 342]);
    assert_eq!(r.min(), 120);
    assert_eq!(r.max(), 342);
    assert_eq!(r.total(), 462);
    assert_eq!(r.count(), 2);
    assert_eq!(r.mean(), 231);
}

#[test]
fn add_keeps_the_extremes_when_the_value_lies_between() {
    let r = folded(&[-50, 30, 0, 10]);
    assert_eq!(r.min(), -50);
    assert_eq!(r.max(), 30);
    assert_eq!(r.total(), -10);
    assert_eq!(r.count(), 4);
}

#[test]
fn combine_adds_sums_and_counts_and_takes_the_extremes() {
    let a = folded(&[89, 221]);
    let b = folded(&[352]);
    let c = combined(&a, &b);
    assert_eq!(c.min(), 89);
    assert_eq!(c.max(), 352);
    assert_eq!(c.total(), 662);
    assert_eq!(c.count(), 3);
    assert_eq!(c.mean(), 221);
}

#[test]
fn combine_is_commutative() {
    let a = folded(&[-999, 5, 17]);
    let b = folded(&[999, -3]);
    assert_eq!(combined(&a, &b), combined(&b, &a));
}

#[test]
fn combine_is_associative() {
    let a = folded(&[-999, 5, 17]);
    let b = folded(&[999, -3]);
    let c = folded(&[0, 0, 1, -1, 400]);
    assert_eq!(combined(&combined(&a, &b), &c), combined(&a, &combined(&b, &c)));
}

#[test]
fn combine_equals_adding_one_by_one() {
    let a = folded(&[10, 20]);
    let b = folded(&[-30, 40, 5]);
    assert_eq!(combined(&a, &b), folded(&[10, 20, -30, 40, 5]));
}

#[test]
fn mean_of_a_single_value_is_that_value() {
    for v in [-32768i16, -999, -1, 0, 1, 7, 999, 32767] {
        let r = Record::new(v);
        assert_eq!(r.mean(), v);
        assert_eq!(r.min(), v);
        assert_eq!(r.max(), v);
    }
}

#[test]
fn mean_of_negative_and_positive_values() {
    let r = folded(&[-50, 30]);
    assert_eq!(r.min(), -50);
    assert_eq!(r.max(), 30);
    assert_eq!(r.mean(), -10);
}

#[test]
fn mean_rounds_a_half_away_from_zero() {
    assert_eq!(folded(&[1, 2]).mean(), 2);
    assert_eq!(folded(&[-1, -2]).mean(), -2);
    assert_eq!(folded(&[0, 1]).mean(), 1);
    assert_eq!(folded(&[0, -1]).mean(), -1);
}

#[test]
fn mean_rounds_to_the_nearest_tenth() {
    assert_eq!(folded(&[1, 1, 2]).mean(), 1);
    assert_eq!(folded(&[1, 2, 2]).mean(), 2);
    assert_eq!(folded(&[-1, -1, -2]).mean(), -1);
    assert_eq!(folded(&[-1, -2, -2]).mean(), -2);
    assert_eq!(folded(&[388, 410, 399]).mean(), 399);
}

#[test]
fn mean_lies_between_the_extremes() {
    let r = folded(&[32767, 32767, 32766]);
    assert!(r.min() <= r.mean() && r.mean() <= r.max());
    assert_eq!(r.mean(), 32767);
    let r = folded(&[-32768, -32768, -32767]);
    assert_eq!(r.mean(), -32768);
}

#[test]
fn sum_is_exact_over_many_observations() {
    let mut r = Record::new(999);
    for _ in 0..99_999 {
        r.add(999);
    }
    assert_eq!(r.count(), 100_000);
    assert_eq!(r.total(), 99_900_000);
    assert_eq!(r.mean(), 999);
}
