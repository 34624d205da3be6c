use quantum_tensors::Polarization::{H, V};
use quantum_tensors::Spin::{D, U};
use quantum_tensors::{Axis, Complex, Label, Operator, Polarization, Spin, Tensor};

fn halves(n: i64) -> i64 {
    n * 1073741824
}

fn cx(re: i64, im: i64) -> Complex {
    Complex::new(re, im)
}

fn key(sp: Spin, po: Polarization) -> Vec<Label> {
    vec![Label::Spin(sp), Label::Polarization(po)]
}

fn d_h() -> Vec<Label> {
    key(Spin::D, Polarization::H)
}
fn u_h() -> Vec<Label> {
    key(Spin::U, Polarization::H)
}
fn d_v() -> Vec<Label> {
    key(Spin::D, Polarization::V)
}
fn u_v() -> Vec<Label> {
    key(Spin::U, Polarization::V)
}

fn operator(n_in: usize, n_out: usize, entries: Vec<(Vec<Label>, Vec<Label>, Complex)>) -> Operator {
    let mut op = Operator::new(n_in, n_out);
    for (i, o, v) in entries {
        op.insert(&i, &o, v);
    }
    op
}

fn tensor(arity: usize, entries: Vec<(Vec<Label>, Complex)>) -> Tensor {
    Tensor::from_values(arity, &entries)
}

fn spin_pol_identity() -> Operator {
    operator(
        2,
        2,
        vec![
            (d_h(), d_h(), cx(1, 0)),
            (d_v(), d_v(), cx(1, 0)),
            (u_h(), u_h(), cx(1, 0)),
            (u_v(), u_v(), cx(1, 0)),
        ],
    )
}

fn sample() -> Operator {
    operator(
        2,
        2,
        vec![
            (d_h(), d_h(), cx(0, 2)),
            (u_h(), d_h(), cx(-1, -1)),
            (u_h(), d_v(), cx(halves(1), halves(5))),
        ],
    )
}

#[test]
fn operator_should_create_identity() {
    let id = Operator::identity(&vec![Axis::Spin, Axis::Polarization]);
    assert!(id.equals(&spin_pol_identity()));
}

#[test]
fn operator_should_compute_complex_and_hermitian_conjugation() {
    let op = operator(
        2,
        2,
        vec![
            (d_h(), d_h(), cx(0, 2)),
            (d_h(), u_h(), cx(-1, -1)),
            (d_v(), u_h(), cx(halves(1), halves(5))),
        ],
    );
    let op_conj = operator(
        2,
        2,
        vec![
            (d_h(), d_h(), cx(0, -2)),
            (d_h(), u_h(), cx(-1, 1)),
            (d_v(), u_h(), cx(halves(1), halves(-5))),
        ],
    );
    let op_dag = operator(
        2,
        2,
        vec![
            (d_h(), d_h(), cx(0, -2)),
            (u_h(), d_h(), cx(-1, 1)),
            (u_h(), d_v(), cx(halves(1), halves(-5))),
        ],
    );
    assert!(op.conj().equals(&op_conj));
    assert!(op.dag().equals(&op_dag));
}

#[test]
fn operator_should_operate_on_vectors() {
    let id = Operator::identity(&vec![Axis::Spin, Axis::Polarization]);
    let op = sample();
    let t1 = tensor(2, vec![(d_h(), cx(0, 1)), (u_h(), cx(2, 0)), (d_v(), cx(0, 1))]);
    let t2 = tensor(2, vec![(d_h(), cx(-4, -2)), (d_v(), cx(1, 5))]);
    assert!(id.mul_vec(&t1).equals(&t1));
    assert!(op.mul_vec(&t1).equals(&t2));
}

#[test]
fn operator_should_multiply_operators() {
    let id = spin_pol_identity();
    let op = sample();
    let op2 = operator(
        2,
        2,
        vec![(d_h(), u_h(), cx(1, 0)), (u_h(), d_h(), cx(1, 0)), (d_v(), d_v(), cx(0, 1))],
    );
    let op2_right = operator(
        2,
        2,
        vec![
            (u_h(), d_h(), cx(0, 2)),
            (d_h(), d_h(), cx(-1, -1)),
            (d_h(), d_v(), cx(halves(1), halves(5))),
        ],
    );
    let op2_left = operator(
        2,
        2,
        vec![
            (d_h(), u_h(), cx(0, 2)),
            (u_h(), u_h(), cx(-1, -1)),
            (u_h(), d_v(), cx(halves(-5), halves(1))),
        ],
    );
    assert!(op.mul_op(&id).equals(&op));
    assert!(id.mul_op(&op).equals(&op));
    assert!(op.mul_op(&op2).equals(&op2_right));
    assert!(op2.mul_op(&op).equals(&op2_left));
}

fn px(n: u32) -> Label {
    Label::Position(n)
}
fn py(n: u32) -> Label {
    Label::Position(1000 + n)
}
fn sp(v: Spin) -> Label {
    Label::Spin(v)
}
fn po(v: Polarization) -> Label {
    Label::Polarization(v)
}

#[test]
fn operator_should_compute_partial_multiply() {
    let vec = tensor(
        4,
        vec![
            (vec![px(0), sp(D), po(H), py(0)], cx(0, 1)),
            (vec![px(1), sp(U), po(H), py(0)], cx(2, 0)),
            (vec![px(2), sp(D), po(V), py(1)], cx(0, 1)),
            (vec![px(3), sp(D), po(H), py(1)], cx(0, 1)),
            (vec![px(4), sp(U), po(H), py(2)], cx(2, 0)),
            (vec![px(5), sp(D), po(V), py(2)], cx(0, 1)),
            (vec![px(6), sp(D), po(V), py(3)], cx(0, 1)),
        ],
    );
    let spin_identity = operator(
        1,
        1,
        vec![(vec![sp(U)], vec![sp(U)], cx(1, 0)), (vec![sp(D)], vec![sp(D)], cx(1, 0))],
    );
    let op1 = sample();
    let res1 = tensor(
        4,
        vec![
            (vec![px(0), sp(D), po(H), py(0)], cx(-2, 0)),
            (vec![px(1), sp(D), po(H), py(0)], cx(-2, -2)),
            (vec![px(1), sp(D), po(V), py(0)], cx(1, 5)),
            (vec![px(3), sp(D), po(H), py(1)], cx(-2, 0)),
            (vec![px(4), sp(D), po(H), py(2)], cx(-2, -2)),
            (vec![px(4), sp(D), po(V), py(2)], cx(1, 5)),
        ],
    );
    let op2a = operator(
        1,
        1,
        vec![
            (vec![px(2)], vec![px(4)], cx(1, 0)),
            (vec![px(5)], vec![px(4)], cx(1, 0)),
            (vec![px(6)], vec![px(4)], cx(1, 0)),
        ],
    );
    let op2b = operator(
        1,
        1,
        vec![
            (vec![py(0)], vec![py(1)], cx(0, 0)),
            (vec![py(1)], vec![py(1)], cx(1, 0)),
            (vec![py(2)], vec![py(1)], cx(2, 0)),
            (vec![py(3)], vec![py(1)], cx(3, 0)),
        ],
    );
    let res2 = tensor(4, vec![(vec![px(4), sp(D), po(V), py(1)], cx(0, 6))]);
    let spin_mask = vec![false, true, false, false];
    let sp_pol_mask = vec![false, true, true, false];
    let x_mask = vec![true, false, false, false];
    let y_mask = vec![false, false, false, true];
    assert!(spin_identity.mul_vec_partial(&vec, &spin_mask, &spin_mask).equals(&vec));
    assert!(op1.mul_vec_partial(&vec, &sp_pol_mask, &sp_pol_mask).equals(&res1));
    let moved = op2a.mul_vec_partial(&vec, &x_mask, &x_mask);
    assert!(op2b.mul_vec_partial(&moved, &y_mask, &y_mask).equals(&res2));
}

#[test]
fn operator_should_compute_outer_product() {
    let op_x = operator(
        1,
        1,
        vec![(vec![po(H)], vec![po(V)], cx(1, 0)), (vec![po(V)], vec![po(H)], cx(1, 0))],
    );
    let op_y = operator(
        1,
        1,
        vec![(vec![sp(Spin::U)], vec![sp(Spin::D)], cx(0, 1)), (vec![sp(Spin::D)], vec![sp(Spin::U)], cx(0, -1))],
    );
    let op_z = operator(
        1,
        1,
        vec![(vec![px(0)], vec![px(0)], cx(1, 0)), (vec![px(1)], vec![px(1)], cx(-1, 0))],
    );
    let op_res = operator(
        2,
        2,
        vec![
            (vec![po(H), px(0)], vec![po(V), px(0)], cx(1, 0)),
            (vec![po(H), px(1)], vec![po(V), px(1)], cx(-1, 0)),
            (vec![po(V), px(0)], vec![po(H), px(0)], cx(1, 0)),
            (vec![po(V), px(1)], vec![po(H), px(1)], cx(-1, 0)),
        ],
    );
    assert!(op_x.outer(&op_z).equals(&op_res));
    assert!(op_x.outer(&op_z).outer(&op_y).equals(&op_res.outer(&op_y)));
    assert!(op_y.outer(&op_x).outer(&op_z).equals(&op_y.outer(&op_res)));
}

#[test]
fn identity_leaves_states_unchanged() {
    let id = Operator::identity(&vec![Axis::Spin, Axis::Polarization]);
    let t = tensor(2, vec![(d_h(), cx(3, -1)), (u_v(), cx(0, 9))]);
    assert!(id.mul_vec(&t).equals(&t));
    assert_eq!(id.t.len(), 4);
}

#[test]
fn partial_identity_leaves_multi_photon_states_unchanged() {
    let id = Operator::identity(&vec![Axis::Polarization]);
    let state = tensor(
        4,
        vec![
            (vec![px(0), po(Polarization::H), px(7), po(Polarization::V)], cx(1, 2)),
            (vec![px(1), po(Polarization::V), px(8), po(Polarization::V)], cx(0, -1)),
        ],
    );
    let first = vec![false, true, false, false];
    let second = vec![false, false, false, true];
    assert!(id.mul_vec_partial(&state, &first, &first).equals(&state));
    assert!(id.mul_vec_partial(&state, &second, &second).equals(&state));
}

#[test]
fn dagger_and_conjugate_are_involutions() {
    let op = sample();
    assert!(op.dag().dag().equals(&op));
    assert!(op.conj().conj().equals(&op));
    assert!(!op.dag().equals(&op));
}

#[test]
fn dagger_reverses_products() {
    let op = sample();
    let op2 = operator(
        2,
        2,
        vec![(d_h(), u_h(), cx(1, 0)), (u_h(), d_h(), cx(1, 3)), (d_v(), d_v(), cx(0, 1))],
    );
    assert!(op.mul_op(&op2).dag().equals(&op2.dag().mul_op(&op.dag())));
}

#[test]
fn indicator_and_uniform_scale() {
    let ind = Operator::indicator(&vec![Label::Spin(Spin::U)]);
    let t = tensor(1, vec![(vec![sp(Spin::U)], cx(4, 0)), (vec![sp(Spin::D)], cx(5, 0))]);
    assert!(ind.mul_vec(&t).equals(&tensor(1, vec![(vec![sp(Spin::U)], cx(4, 0))])));
    let scaled = Operator::uniform_scale(&vec![Axis::Spin], cx(0, 2));
    assert!(scaled.mul_vec(&t).equals(&tensor(1, vec![(vec![sp(Spin::U)], cx(0, 8)), (vec![sp(Spin::D)], cx(0, 10))])));
}

#[test]
fn transpose_swaps_inputs_and_outputs() {
    let op = sample();
    let tr = op.transpose();
    assert_eq!(tr.t.get(&[d_v(), u_h()].concat()), cx(halves(1), halves(5)));
    assert!(tr.transpose().equals(&op));
}

#[test]
fn add_sub_and_scale_operators() {
    let op = sample();
    let id = spin_pol_identity();
    assert!(op.add(&id).sub(&id).equals(&op));
    assert!(op.sub(&op).t.is_empty());
    assert!(op.scale(cx(2, 0)).equals(&op.add(&op)));
}

fn find<'a>(groups: &'a [(Vec<Label>, Tensor)], key: &[Label]) -> Option<&'a Tensor> {
    groups.iter().find(|(k, _)| k.as_slice() == key).map(|(_, t)| t)
}

#[test]
fn operator_should_have_same_rows_and_columns_for_identity() {
    let id = spin_pol_identity();
    for groups in [id.tensor_per_output(), id.tensor_per_input()] {
        assert_eq!(groups.len(), 4);
        for k in [d_h(), d_v(), u_h(), u_v()] {
            let g = find(&groups, &k).expect("group");
            assert!(g.equals(&tensor(2, vec![(k.clone(), cx(1, 0))])));
        }
    }
}

#[test]
fn operator_should_split_by_inputs_and_outputs() {
    let op = sample();
    let by_output = op.tensor_per_output();
    assert_eq!(by_output.len(), 2);
    assert!(find(&by_output, &d_h()).expect("group").equals(&tensor(2, vec![(d_h(), cx(0, 2)), (u_h(), cx(-1, -1))])));
    assert!(find(&by_output, &d_v()).expect("group").equals(&tensor(2, vec![(u_h(), cx(halves(1), halves(5)))])));
    let by_input = op.tensor_per_input();
    assert_eq!(by_input.len(), 2);
    assert!(find(&by_input, &d_h()).expect("group").equals(&tensor(2, vec![(d_h(), cx(0, 2))])));
    assert!(find(&by_input, &u_h()).expect("group").equals(&tensor(2, vec![(d_h(), cx(-1, -1)), (d_v(), cx(halves(1), halves(5)))])));
}

#[test]
fn operator_should_map_values() {
    let op = sample();
    let op_abs2 = operator(
        2,
        2,
        vec![(d_h(), d_h(), cx(4, 0)), (u_h(), d_h(), cx(2, 0)), (u_h(), d_v(), cx(halves(13), 0))],
    );
    assert!(op.map_values(|z: Complex| z.mul(&z.conj())).equals(&op_abs2));
}

#[test]
fn from_values_builds_the_same_operator_as_inserts() {
    let values = vec![
        (d_h(), d_h(), cx(0, 2)),
        (u_h(), d_h(), cx(-1, -1)),
        (u_h(), d_v(), cx(halves(1), halves(5))),
        (u_v(), u_v(), cx(0, 0)),
    ];
    assert!(Operator::from_values(2, 2, &values).equals(&sample()));
}

#[test]
fn coord_indicator_keeps_one_cell() {
    let ind = quantum_tensors::Coord::new(2, 3).as_indicator();
    let cell = |x: u16, y: u16| Label::Coord(quantum_tensors::Coord::new(x, y));
    let t = tensor(1, vec![(vec![cell(2, 3)], cx(4, 0)), (vec![cell(1, 1)], cx(5, 0))]);
    assert!(ind.mul_vec(&t).equals(&tensor(1, vec![(vec![cell(2, 3)], cx(4, 0))])));
}
