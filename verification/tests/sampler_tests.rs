use rusttracing::sampler::Sampler;
use rusttracing::scalar::{Scalar, SCALE};

fn s(raw: i64) -> Scalar {
    Scalar::new(raw)
}

#[test]
fn from_draws_rejects_an_empty_table() {
    assert!(Sampler::from_draws(vec![]).is_none());
}

#[test]
fn from_draws_rejects_values_outside_the_unit_interval() {
    assert!(Sampler::from_draws(vec![s(0), s(1_000_000)]).is_none());
    assert!(Sampler::from_draws(vec![s(-1)]).is_none());
    assert!(Sampler::from_draws(vec![s(0), s(999_999)]).is_some());
}

#[test]
fn draws_come_in_order_and_wrap_around() {
    let mut sampler = Sampler::from_draws(vec![s(10), s(20), s(30)]).unwrap();
    assert_eq!(sampler.len(), 3);
    assert_eq!(sampler.next_unit(), s(10));
    assert_eq!(sampler.next_unit(), s(20));
    assert_eq!(sampler.next_unit(), s(30));
    assert_eq!(sampler.next_unit(), s(10));
}

#[test]
fn seek_counts_cyclically() {
    let mut sampler = Sampler::from_draws(vec![s(10), s(20), s(30)]).unwrap();
    sampler.seek(2);
    assert_eq!(sampler.next_unit(), s(30));
    sampler.seek(7);
    assert_eq!(sampler.next_unit(), s(20));
    sampler.seek(u64::MAX);
    assert_eq!(sampler.next_unit(), s(10));
}

#[test]
fn duplicate_starts_where_the_first_stands() {
    let mut sampler = Sampler::from_draws(vec![s(10), s(20), s(30)]).unwrap();
    assert_eq!(sampler.next_unit(), s(10));
    let mut copy = sampler.duplicate();
    assert_eq!(copy.len(), 3);
    assert_eq!(copy.next_unit(), s(20));
    assert_eq!(sampler.next_unit(), s(20));
    assert_eq!(copy.next_unit(), s(30));
}

#[test]
fn random_needs_a_positive_length() {
    assert!(Sampler::random(0).is_none());
    assert_eq!(Sampler::random(5).unwrap().len(), 5);
}

#[test]
fn random_draws_lie_in_the_unit_interval() {
    let mut sampler = Sampler::random(10_000).unwrap();
    let mut distinct = false;
    let first = sampler.next_unit();
    assert!(0 <= first.raw && first.raw < SCALE);
    for _ in 1..10_000 {
        let d = sampler.next_unit();
        assert!(0 <= d.raw && d.raw < SCALE);
        if d != first {
            distinct = true;
        }
    }
    assert!(distinct);
}
