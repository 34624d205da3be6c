use quantum_tensors::{Complex, Label, Polarization, Spin, Tensor};

/// The residue of n/2.
fn halves(n: i64) -> i64 {
    n * 1073741824
}

fn cx(re: i64, im: i64) -> Complex {
    Complex::new(re, im)
}

fn s(v: Spin) -> Label {
    Label::Spin(v)
}
fn p(v: Polarization) -> Label {
    Label::Polarization(v)
}
fn pos(n: u32) -> Label {
    Label::Position(n)
}

fn vector() -> Tensor {
    Tensor::from_values(
        2,
        &vec![
            (vec![s(Spin::U), pos(0)], cx(1, -1)),
            (vec![s(Spin::D), pos(0)], cx(2, -2)),
            (vec![s(Spin::U), pos(1)], cx(3, -3)),
            (vec![s(Spin::D), pos(1)], cx(0, 0)),
        ],
    )
}

fn vector2() -> Tensor {
    Tensor::from_values(
        2,
        &vec![
            (vec![s(Spin::U), pos(0)], cx(0, 0)),
            (vec![s(Spin::D), pos(0)], cx(-2, 1)),
            (vec![s(Spin::U), pos(1)], cx(0, halves(1))),
            (vec![s(Spin::D), pos(1)], cx(0, 0)),
        ],
    )
}

#[test]
fn should_compute_the_dot_product_of_two_tensors() {
    let t = vector();
    let t2 = vector2();
    assert_eq!(t.dot(&t), cx(0, -28));
    assert_eq!(t.dot(&t2), cx(halves(-1), halves(15)));
}

#[test]
fn tensor_should_substract_a_vector_from_another_one() {
    let t = vector();
    let t2 = vector2();
    let sub = Tensor::from_values(
        2,
        &vec![
            (vec![s(Spin::U), pos(0)], cx(1, -1)),
            (vec![s(Spin::D), pos(0)], cx(4, -3)),
            (vec![s(Spin::U), pos(1)], cx(3, halves(-7))),
            (vec![s(Spin::D), pos(1)], cx(0, 0)),
        ],
    );
    assert!(t.sub(&t).equals(&Tensor::zeros(2)));
    assert!(t.sub(&t2).equals(&sub));
}

#[test]
fn tensor_should_permute_a_vector() {
    let reverse = vector().permute(&vec![1, 0]);
    let expected = Tensor::from_values(
        2,
        &vec![
            (vec![pos(0), s(Spin::U)], cx(1, -1)),
            (vec![pos(0), s(Spin::D)], cx(2, -2)),
            (vec![pos(1), s(Spin::U)], cx(3, -3)),
            (vec![pos(1), s(Spin::D)], cx(0, 0)),
        ],
    );
    assert!(reverse.equals(&expected));
}

#[test]
fn tensor_should_compute_the_outer_product_of_two_vectors() {
    let (u, d) = (s(Spin::U), s(Spin::D));
    let v1 = Tensor::from_values(
        2,
        &vec![
            (vec![u, pos(0)], cx(0, 0)),
            (vec![d, pos(0)], cx(1, 0)),
            (vec![u, pos(1)], cx(2, 0)),
            (vec![d, pos(1)], cx(3, 0)),
        ],
    );
    let v2 = Tensor::from_values(
        2,
        &vec![
            (vec![u, pos(0)], cx(1, 0)),
            (vec![d, pos(0)], cx(0, 1)),
            (vec![u, pos(1)], cx(-1, 0)),
            (vec![d, pos(1)], cx(0, -1)),
        ],
    );
    let outer = Tensor::from_values(
        4,
        &vec![
            (vec![u, pos(0), u, pos(0)], cx(0, 0)),
            (vec![u, pos(0), d, pos(0)], cx(0, 0)),
            (vec![u, pos(0), u, pos(1)], cx(0, 0)),
            (vec![u, pos(0), d, pos(1)], cx(0, 0)),
            (vec![d, pos(0), u, pos(0)], cx(1, 0)),
            (vec![d, pos(0), d, pos(0)], cx(0, 1)),
            (vec![d, pos(0), u, pos(1)], cx(-1, 0)),
            (vec![d, pos(0), d, pos(1)], cx(0, -1)),
            (vec![u, pos(1), u, pos(0)], cx(2, 0)),
            (vec![u, pos(1), d, pos(0)], cx(0, 2)),
            (vec![u, pos(1), u, pos(1)], cx(-2, 0)),
            (vec![u, pos(1), d, pos(1)], cx(0, -2)),
            (vec![d, pos(1), u, pos(0)], cx(3, 0)),
            (vec![d, pos(1), d, pos(0)], cx(0, 3)),
            (vec![d, pos(1), u, pos(1)], cx(-3, 0)),
            (vec![d, pos(1), d, pos(1)], cx(0, -3)),
        ],
    );
    assert!(v1.outer(&v2).equals(&outer));
}

fn main_tensor() -> Tensor {
    Tensor::from_values(
        3,
        &vec![
            (vec![s(Spin::D), p(Polarization::H), pos(0)], cx(1, 0)),
            (vec![s(Spin::D), p(Polarization::V), pos(1)], cx(-1, 0)),
            (vec![s(Spin::D), p(Polarization::V), pos(2)], cx(0, 1)),
        ],
    )
}

#[test]
fn tensor_should_compute_partial_dot_and_inner() {
    let main = main_tensor();
    let small = Tensor::from_values(1, &vec![(vec![pos(0)], cx(10, 0)), (vec![pos(2)], cx(0, 3))]);
    let res1 = Tensor::from_values(
        2,
        &vec![
            (vec![s(Spin::D), p(Polarization::H)], cx(10, 0)),
            (vec![s(Spin::D), p(Polarization::V)], cx(-3, 0)),
        ],
    );
    assert!(small.dot_partial(&main, &vec![false, false, true]).equals(&res1));

    let small2 = Tensor::from_values(1, &vec![(vec![p(Polarization::H)], cx(0, 1))]);
    let res2inner = Tensor::from_values(2, &vec![(vec![s(Spin::D), pos(0)], cx(0, -1))]);
    assert!(small2.inner_partial(&main, &vec![false, true, false]).equals(&res2inner));

    let small3 = Tensor::from_values(1, &vec![(vec![s(Spin::U)], cx(0, 1))]);
    assert_eq!(small3.inner_partial(&main, &vec![true, false, false]).norm_squared(), 0);

    let small4 = Tensor::from_values(
        2,
        &vec![(vec![s(Spin::D), pos(1)], cx(0, 1)), (vec![s(Spin::D), pos(2)], cx(0, 1))],
    );
    let res4inner = Tensor::from_values(1, &vec![(vec![p(Polarization::V)], cx(1, 1))]);
    assert!(small4.inner_partial(&main, &vec![true, false, true]).equals(&res4inner));
}

#[test]
fn tensor_should_map_values() {
    let t = Tensor::from_values(
        2,
        &vec![
            (vec![s(Spin::D), p(Polarization::H)], cx(0, 2)),
            (vec![s(Spin::U), p(Polarization::H)], cx(-1, -1)),
            (vec![s(Spin::D), p(Polarization::V)], cx(halves(1), halves(5))),
        ],
    );
    let t2 = Tensor::from_values(
        2,
        &vec![
            (vec![s(Spin::D), p(Polarization::H)], cx(4, 0)),
            (vec![s(Spin::U), p(Polarization::H)], cx(2, 0)),
            (vec![s(Spin::D), p(Polarization::V)], cx(halves(13), 0)),
        ],
    );
    assert!(t.map_values(|z: Complex| z.mul(&z.conj())).equals(&t2));
}

#[test]
fn subtracting_a_tensor_from_itself_leaves_nothing() {
    let t = vector();
    assert!(t.sub(&t).is_empty());
    assert_eq!(t.sub(&t).len(), 0);
}

#[test]
fn adding_then_subtracting_gives_back_the_tensor() {
    let t = vector();
    let t2 = vector2();
    assert!(t.add(&t2).sub(&t2).equals(&t));
    assert!(t2.add(&t).sub(&t).equals(&t2));
}

#[test]
fn outer_product_is_associative() {
    let a = vector();
    let b = Tensor::from_values(1, &vec![(vec![p(Polarization::H)], cx(2, 1)), (vec![p(Polarization::V)], cx(0, -1))]);
    let c = vector2();
    let left = a.outer(&b).outer(&c);
    let right = a.outer(&b.outer(&c));
    assert!(left.equals(&right));
    assert_eq!(left.len(), 3 * 2 * 2);
}

#[test]
fn insert_skips_zero_and_replaces() {
    let mut t = Tensor::zeros(1);
    t.insert(&vec![pos(1)], cx(5, 0));
    t.insert(&vec![pos(1)], cx(0, 0));
    assert_eq!(t.get(&vec![pos(1)]), cx(5, 0));
    t.insert(&vec![pos(1)], cx(0, 7));
    assert_eq!(t.get(&vec![pos(1)]), cx(0, 7));
    assert_eq!(t.len(), 1);
}

#[test]
fn from_values_keeps_the_last_nonzero_value() {
    let t = Tensor::from_values(1, &vec![(vec![pos(1)], cx(1, 0)), (vec![pos(1)], cx(2, 0)), (vec![pos(1)], cx(0, 0))]);
    assert_eq!(t.get(&vec![pos(1)]), cx(2, 0));
}

#[test]
fn conj_and_scale_act_entrywise() {
    let t = vector();
    let c = t.conj();
    assert_eq!(c.get(&vec![s(Spin::U), pos(0)]), cx(1, 1));
    let scaled = t.scale(cx(0, 1));
    assert_eq!(scaled.get(&vec![s(Spin::D), pos(0)]), cx(2, 2));
    assert_eq!(t.scale(cx(0, 0)).len(), 0);
}

#[test]
fn norm_squared_sums_squared_magnitudes() {
    let t = vector();
    assert_eq!(t.norm_squared(), 2 + 8 + 18);
    assert_eq!(Tensor::scalar(cx(3, 4)).norm_squared(), 25);
}

#[test]
fn accumulate_drops_entries_that_cancel() {
    let mut t = Tensor::zeros(1);
    t.accumulate(&vec![pos(3)], cx(2, -1));
    t.accumulate(&vec![pos(3)], cx(-2, 1));
    assert!(t.is_empty());
}

fn group<'a>(groups: &'a [(Vec<Label>, Tensor)], rest: &[Label]) -> Option<&'a Tensor> {
    groups.iter().find(|(r, _)| r.as_slice() == rest).map(|(_, t)| t)
}

#[test]
fn tensor_should_group_by_dims() {
    let t = main_tensor();
    let group_pos = t.group_by_dims(&vec![false, false, true]);
    assert_eq!(group_pos.len(), 2);
    let dh = group(&group_pos, &[s(Spin::D), p(Polarization::H)]).expect("group");
    assert!(dh.equals(&Tensor::from_values(1, &vec![(vec![pos(0)], cx(1, 0))])));
    let dv = group(&group_pos, &[s(Spin::D), p(Polarization::V)]).expect("group");
    assert!(dv.equals(&Tensor::from_values(1, &vec![(vec![pos(1)], cx(-1, 0)), (vec![pos(2)], cx(0, 1))])));

    let group_other = t.group_by_dims(&vec![true, true, false]);
    assert_eq!(group_other.len(), 3);
    let g0 = group(&group_other, &[pos(0)]).expect("group");
    assert!(g0.equals(&Tensor::from_values(2, &vec![(vec![s(Spin::D), p(Polarization::H)], cx(1, 0))])));
    let g1 = group(&group_other, &[pos(1)]).expect("group");
    assert!(g1.equals(&Tensor::from_values(2, &vec![(vec![s(Spin::D), p(Polarization::V)], cx(-1, 0))])));
    let g2 = group(&group_other, &[pos(2)]).expect("group");
    assert!(g2.equals(&Tensor::from_values(2, &vec![(vec![s(Spin::D), p(Polarization::V)], cx(0, 1))])));
}
