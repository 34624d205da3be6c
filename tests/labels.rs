use quantum_tensors::{Dims, Inserter, Joiner, Label};

fn a() -> Label {
    Label::Position(100)
}
fn b() -> Label {
    Label::Position(101)
}
fn c() -> Label {
    Label::Position(102)
}
fn d() -> Label {
    Label::Position(103)
}
fn x(n: u32) -> Label {
    Label::Position(n)
}
fn y(n: u32) -> Label {
    Label::Spin(if n % 2 == 0 { quantum_tensors::Spin::U } else { quantum_tensors::Spin::D })
}
fn z(n: u32) -> Label {
    Label::Coord(quantum_tensors::Coord::new(n as u16, 0))
}

fn inserter_cases() {
    let h = vec![a(), b(), c()];
    assert_eq!(Inserter::insert(h.clone(), 0, d()), vec![d(), a(), b(), c()]);
    assert_eq!(Inserter::insert(h.clone(), 1, d()), vec![a(), d(), b(), c()]);
    assert_eq!(Inserter::insert(h.clone(), 2, d()), vec![a(), b(), d(), c()]);
    assert_eq!(Inserter::insert(h, 3, d()), vec![a(), b(), c(), d()]);
}

fn joiner_cases() {
    assert_eq!(
        Joiner::join(vec![a(), b()], &vec![c(), d()], &vec![true, true, false, false]),
        vec![c(), d(), a(), b()]
    );
    assert_eq!(
        Joiner::join(Vec::<Label>::new(), &vec![c(), d()], &vec![true, true]),
        vec![c(), d()]
    );
}

fn replace_some(key: Vec<Label>, values: Vec<Label>, mask: Vec<bool>) -> Vec<Label> {
    let (_old, rest) = key.select(&mask);
    Joiner::join(rest, &values, &mask)
}

fn joiner_roundtrip_cases() {
    let mask = vec![true, false, true, false, false, true, false];
    assert_eq!(
        replace_some(vec![a(), b(), x(10), c(), y(15), z(5), d()], vec![a(), x(3), z(3)], mask),
        vec![a(), b(), x(3), c(), y(15), z(3), d()]
    );
}

#[test]
fn util_test_inserter() {
    inserter_cases();
}

#[test]
fn inserter_test_inserter() {
    inserter_cases();
}

#[test]
fn util_test_joiner() {
    joiner_cases();
}

#[test]
fn joiner_test_joiner() {
    joiner_cases();
}

#[test]
fn util_test_joiner_roundtrip() {
    joiner_roundtrip_cases();
}

#[test]
fn joiner_test_joiner_roundtrip() {
    joiner_roundtrip_cases();
}

#[test]
fn select_splits_by_mask() {
    let key = vec![a(), b(), c(), d()];
    let (chosen, rest) = key.select(&vec![false, true, false, true]);
    assert_eq!(chosen, vec![b(), d()]);
    assert_eq!(rest, vec![a(), c()]);
}

#[test]
fn join_inverts_select() {
    let key = vec![x(1), y(2), z(3), x(4), y(5)];
    let mask = vec![true, false, false, true, true];
    let (chosen, rest) = key.select(&mask);
    assert_eq!(Joiner::join(rest, &chosen, &mask), key);
}
