//! Sparse linear operators between composite keys.
//!
//! An operator from inputs of arity `n_in` to outputs of arity `n_out`
//! stores the amplitude ⟨o|A|i⟩ in a tensor at the key `i ++ o`.
use crate::complex::{lemma_add_zero, lemma_mul_zero, Complex};
use crate::dimensions::{axis_values, enumerable_axis, fits, lemma_fits_push, Axis, Label};
use crate::labels::{
    count, interleave, lemma_join_select, lemma_pick_len, lemma_select_join, lemma_split_mask,
    pick, split_mask, split_mask_vec, Dims, Joiner,
};
use crate::tensor::{
    concat_keys, copy_key, lemma_concat_injective, lemma_lookup_at, lemma_lookup_cases,
    lemma_swap_middle, lookup, swap_middle_perm, Tensor,
};
use vstd::prelude::*;

verus! {

/// Σ over the stored entries `(i ++ o', a)` of `s` with `o' == o` of
/// `a · f(i)`: the output at `o` of the operator stored in `s` applied to
/// the input amplitudes `f`.
pub open spec fn row_sum(
    s: Seq<(Vec<Label>, Complex)>,
    n_in: nat,
    o: Seq<Label>,
    f: spec_fn(Seq<Label>) -> Complex,
) -> Complex
    decreases s.len(),
{
    if s.len() == 0 {
        Complex::zero_spec()
    } else {
        let before = row_sum(s.drop_last(), n_in, o, f);
        let k = s.last().0@;
        if k.skip(n_in as int) == o {
            before.add_spec(s.last().1.mul_spec(f(k.take(n_in as int))))
        } else {
            before
        }
    }
}

/// A key of `n` labels, for facts that depend on lengths alone.
pub open spec fn some_key(n: nat) -> Seq<Label> {
    Seq::new(n, |j: int| Label::Position(0))
}

/// A sum whose every term has a zero factor is zero.
pub proof fn lemma_row_sum_zero(
    s: Seq<(Vec<Label>, Complex)>,
    n_in: nat,
    o: Seq<Label>,
    f: spec_fn(Seq<Label>) -> Complex,
)
    requires
        forall|j: int| 0 <= j < s.len() ==> f((#[trigger] s[j]).0@.take(n_in as int)) == Complex::zero_spec(),
    ensures
        row_sum(s, n_in, o, f) == Complex::zero_spec(),
    decreases s.len(),
{
    if s.len() > 0 {
        let d = s.drop_last();
        assert forall|j: int| 0 <= j < d.len() implies f((#[trigger] d[j]).0@.take(n_in as int)) == Complex::zero_spec() by {
            assert(d[j] == s[j]);
        }
        lemma_row_sum_zero(d, n_in, o, f);
        assert(s.last() == s[s.len() - 1]);
        lemma_mul_zero(s.last().1);
        lemma_add_zero(Complex::zero_spec());
    }
}

/// The sum of a prefix extended by the next entry.
pub proof fn lemma_row_sum_step(
    s: Seq<(Vec<Label>, Complex)>,
    j: int,
    n_in: nat,
    o: Seq<Label>,
    f: spec_fn(Seq<Label>) -> Complex,
)
    requires
        0 <= j < s.len(),
    ensures
        row_sum(s.take(j + 1), n_in, o, f) == if s[j].0@.skip(n_in as int) == o {
            row_sum(s.take(j), n_in, o, f).add_spec(s[j].1.mul_spec(f(s[j].0@.take(n_in as int))))
        } else {
            row_sum(s.take(j), n_in, o, f)
        },
{
    assert(s.take(j + 1).drop_last() =~= s.take(j));
}

/// A sparse linear map from keys of arity `n_in` to keys of arity `n_out`.
pub struct Operator {
    pub n_in: usize,
    pub n_out: usize,
    /// ⟨o|A|i⟩ stored at the key `i ++ o`.
    pub t: Tensor,
}

/// The first `n` labels of `k`, and the rest.
pub fn split_key(k: &Vec<Label>, n: usize) -> (r: (Vec<Label>, Vec<Label>))
    requires
        n <= k@.len(),
    ensures
        r.0@ == k@.take(n as int),
        r.1@ == k@.skip(n as int),
{
    let mut a: Vec<Label> = Vec::new();
    let mut b: Vec<Label> = Vec::new();
    let mut j: usize = 0;
    while j < k.len()
        invariant
            n <= k@.len(),
            j <= k@.len(),
            a@ == k@.take(if j < n { j as int } else { n as int }),
            b@ == if j < n { Seq::<Label>::empty() } else { k@.subrange(n as int, j as int) },
        decreases k.len() - j,
    {
        if j < n {
            a.push(k[j]);
        } else {
            b.push(k[j]);
        }
        j = j + 1;
        assert(a@ =~= k@.take(if j < n { j as int } else { n as int }));
        assert(b@ =~= if j < n { Seq::<Label>::empty() } else { k@.subrange(n as int, j as int) });
    }
    assert(b@ =~= k@.skip(n as int));
    (a, b)
}

/// Whether one of `rs` is the key `r`.
pub open spec fn holds_rest(rs: Seq<Vec<Label>>, r: Seq<Label>) -> bool {
    exists|a: int| 0 <= a < rs.len() && (#[trigger] rs[a])@ == r
}

/// Whether `rs` holds `r`.
fn holds_key(rs: &Vec<Vec<Label>>, r: &Vec<Label>) -> (b: bool)
    ensures
        b == holds_rest(rs@, r@),
{
    let mut t: usize = 0;
    while t < rs.len()
        invariant
            t <= rs@.len(),
            forall|u: int| 0 <= u < t ==> (#[trigger] rs@[u])@ != r@,
        decreases rs.len() - t,
    {
        if crate::dimensions::keys_equal(&rs[t], r) {
            return true;
        }
        t = t + 1;
    }
    false
}

impl Operator {
    pub open spec fn wf(&self) -> bool {
        &&& self.t.wf()
        &&& self.t.arity == self.n_in + self.n_out
    }

    /// ⟨o|A|i⟩.
    pub open spec fn amp(&self, i: Seq<Label>, o: Seq<Label>) -> Complex {
        self.t.amp(i + o)
    }

    /// The output at `o` for input amplitudes `f`.
    pub open spec fn apply_at(&self, o: Seq<Label>, f: spec_fn(Seq<Label>) -> Complex) -> Complex {
        row_sum(self.t.entries@, self.n_in as nat, o, f)
    }

    /// The operator with no entries.
    pub fn new(n_in: usize, n_out: usize) -> (r: Operator)
        requires
            n_in + n_out <= usize::MAX,
        ensures
            r.wf(),
            r.n_in == n_in,
            r.n_out == n_out,
            forall|k: Seq<Label>| #[trigger] r.t.amp(k) == Complex::zero_spec(),
    {
        Operator { n_in, n_out, t: Tensor::zeros(n_in + n_out) }
    }

    /// Sets ⟨o|A|i⟩ to `value`, unless `value` is zero.
    pub fn insert(&mut self, i: &Vec<Label>, o: &Vec<Label>, value: Complex)
        requires
            old(self).wf(),
            i@.len() == old(self).n_in,
            o@.len() == old(self).n_out,
            value.wf(),
        ensures
            final(self).wf(),
            final(self).n_in == old(self).n_in,
            final(self).n_out == old(self).n_out,
            final(self).amp(i@, o@) == if value.is_zero_spec() {
                old(self).amp(i@, o@)
            } else {
                value
            },
            forall|k: Seq<Label>| k != i@ + o@ ==> #[trigger] final(self).t.amp(k) == old(self).t.amp(k),
    {
        let k = crate::tensor::concat_keys(i, o);
        self.t.insert(&k, value);
    }

    /// Applies the operator to the slots of `v` that `in_mask` marks, and
    /// writes its outputs to the slots that `out_mask` marks, keeping the
    /// other slots of each key as they are. The amplitude at an output key
    /// `k` is the operator's output at `pick(k, out_mask, true)` for the
    /// inputs read from `v` at the keys that share `k`'s other slots.
    pub fn mul_vec_partial(&self, v: &Tensor, in_mask: &Vec<bool>, out_mask: &Vec<bool>) -> (r: Tensor)
        requires
            self.wf(),
            v.wf(),
            in_mask@.len() == v.arity,
            count(in_mask@, true) == self.n_in,
            count(out_mask@, true) == self.n_out,
            count(in_mask@, false) == count(out_mask@, false),
        ensures
            r.wf(),
            r.arity == out_mask@.len(),
            forall|k: Seq<Label>|
                k.len() == out_mask@.len() ==> #[trigger] r.amp(k) == self.apply_at(
                    pick(k, out_mask@, true),
                    |i: Seq<Label>| v.amp(interleave(in_mask@, i, pick(k, out_mask@, false))),
                ),
    {
        apply_partial(&self.t, self.n_in, self.n_out, v, in_mask, out_mask)
    }
}

/// The remainders under `mask` of the keys of `v`, each once.
pub fn distinct_remainders(v: &Tensor, mask: &Vec<bool>) -> (rests: Vec<Vec<Label>>)
    requires
        v.wf(),
        mask@.len() == v.arity,
    ensures
        forall|a: int, b: int|
            0 <= a < rests@.len() && 0 <= b < rests@.len() && a != b ==> (#[trigger] rests@[a])@
                != (#[trigger] rests@[b])@,
        forall|a: int| 0 <= a < rests@.len() ==> (#[trigger] rests@[a])@.len() == count(mask@, false),
        forall|t: int|
            0 <= t < v.entries@.len() ==> holds_rest(rests@, pick((#[trigger] v.entries@[t]).0@, mask@, false)),
        forall|a: int| 0 <= a < rests@.len() ==> rest_of_entry(v.entries@, v.entries@.len() as int, mask@, #[trigger] rests@[a]@),
{
    let ghost vs = v.entries@;
    let ghost im = mask@;
    let in_mask = mask;
    let mut rests: Vec<Vec<Label>> = Vec::new();
    let mut j: usize = 0;
    while j < v.entries.len()
        invariant
            v.wf(),
            vs == v.entries@,
            im == in_mask@,
            in_mask@.len() == v.arity,
            j <= vs.len(),
            forall|a: int, b: int|
                0 <= a < rests@.len() && 0 <= b < rests@.len() && a != b ==> (#[trigger] rests@[a])@
                    != (#[trigger] rests@[b])@,
            forall|a: int| 0 <= a < rests@.len() ==> (#[trigger] rests@[a])@.len() == count(im, false),
            forall|t: int| 0 <= t < j ==> holds_rest(rests@, pick((#[trigger] vs[t]).0@, im, false)),
            forall|a: int| 0 <= a < rests@.len() ==> rest_of_entry(vs, j as int, im, #[trigger] rests@[a]@),
        decreases v.entries.len() - j,
    {
        let (_, rest) = v.entries[j].0.select(in_mask);
        proof {
            assert(v.entries@[j as int].0@.len() == v.arity);
            lemma_pick_len(vs[j as int].0@, im, false);
        }
        let ghost before = rests@;
        if !holds_key(&rests, &rest) {
            rests.push(rest);
            proof {
                assert forall|t: int| 0 <= t < j implies holds_rest(rests@, pick((#[trigger] vs[t]).0@, im, false)) by {
                    let a = choose|a: int|
                        0 <= a < before.len() && (#[trigger] before[a])@ == pick(vs[t].0@, im, false);
                    assert(rests@[a] == before[a]);
                }
                let last = rests@.len() - 1;
                assert(rests@[last]@ == pick(vs[j as int].0@, im, false));
            }
        }
        proof {
            assert forall|a: int| 0 <= a < rests@.len() implies rest_of_entry(vs, j + 1, im, #[trigger] rests@[a]@) by {
                if a < before.len() {
                    assert(rests@[a] == before[a]);
                    let t = choose|t: int| 0 <= t < j && #[trigger] pick(vs[t].0@, im, false) == before[a]@;
                    assert(pick(vs[t].0@, im, false) == rests@[a]@);
                } else {
                    assert(pick(vs[j as int].0@, im, false) == rests@[a]@);
                }
            }
        }
        j = j + 1;
    }
    rests
}

/// Whether `r` is the remainder under `mask` of one of the first `upto`
/// keys of `vs`.
pub open spec fn rest_of_entry(vs: Seq<(Vec<Label>, Complex)>, upto: int, mask: Seq<bool>, r: Seq<Label>) -> bool {
    exists|t: int| 0 <= t < upto && #[trigger] pick(vs[t].0@, mask, false) == r
}

/// The operator stored in `ot` (inputs of arity `arity_in` first in each
/// key) applied to the slots of `v` that `in_mask` marks, its outputs
/// written to the slots that `out_mask` marks.
pub fn apply_partial(ot: &Tensor, arity_in: usize, arity_out: usize, v: &Tensor, in_mask: &Vec<bool>, out_mask: &Vec<bool>) -> (r: Tensor)
    requires
        ot.wf(),
        ot.arity == arity_in + arity_out,
        v.wf(),
        in_mask@.len() == v.arity,
        count(in_mask@, true) == arity_in,
        count(out_mask@, true) == arity_out,
        count(in_mask@, false) == count(out_mask@, false),
    ensures
        r.wf(),
        r.arity == out_mask@.len(),
        forall|k: Seq<Label>|
            k.len() == out_mask@.len() ==> #[trigger] r.amp(k) == row_sum(ot.entries@, arity_in as nat, 
                pick(k, out_mask@, true),
                |i: Seq<Label>| v.amp(interleave(in_mask@, i, pick(k, out_mask@, false))),
            ),
{
    let ghost vs = v.entries@;
    let ghost ops = ot.entries@;
    let ghost n_in = arity_in as nat;
    let ghost om = out_mask@;
    let ghost im = in_mask@;
    let rests = distinct_remainders(v, in_mask);
    let ghost rs = rests@;
    let mut r = Tensor::zeros(out_mask.len());
    let mut t: usize = 0;
    while t < rests.len()
        invariant
            ot.wf(),
        ot.arity == arity_in + arity_out,
            v.wf(),
            r.wf(),
            rs == rests@,
            ops == ot.entries@,
            vs == v.entries@,
            n_in == arity_in,
            om == out_mask@,
            im == in_mask@,
            r.arity == om.len(),
            in_mask@.len() == v.arity,
            count(im, true) == arity_in,
            count(om, true) == arity_out,
            count(im, false) == count(om, false),
            t <= rs.len(),
            forall|a: int, b: int|
                0 <= a < rs.len() && 0 <= b < rs.len() && a != b ==> (#[trigger] rs[a])@
                    != (#[trigger] rs[b])@,
            forall|a: int| 0 <= a < rs.len() ==> (#[trigger] rs[a])@.len() == count(im, false),
            forall|u: int| 0 <= u < vs.len() ==> holds_rest(rs, pick((#[trigger] vs[u]).0@, im, false)),
            forall|k: Seq<Label>|
                k.len() == om.len() ==> #[trigger] r.amp(k) == if holds_rest(rs.take(t as int), pick(k, om, false)) {
                    row_sum(ot.entries@, arity_in as nat, 
                        pick(k, om, true),
                        |i: Seq<Label>| v.amp(interleave(im, i, pick(k, om, false))),
                    )
                } else {
                    Complex::zero_spec()
                },
        decreases rests.len() - t,
    {
        let ghost cur = rs[t as int]@;
        let mut j: usize = 0;
        proof {
            assert forall|k: Seq<Label>|
                k.len() == om.len() implies #[trigger] r.amp(k) == if pick(k, om, false) == cur {
                    row_sum(ops.take(0), n_in, pick(k, om, true),
                        |i: Seq<Label>| v.amp(interleave(im, i, pick(k, om, false))))
                } else if holds_rest(rs.take(t as int), pick(k, om, false)) {
                    row_sum(ot.entries@, arity_in as nat, 
                        pick(k, om, true),
                        |i: Seq<Label>| v.amp(interleave(im, i, pick(k, om, false))),
                    )
                } else {
                    Complex::zero_spec()
                } by {
                if pick(k, om, false) == cur {
                    if holds_rest(rs.take(t as int), pick(k, om, false)) {
                        let a = choose|a: int| 0 <= a < t && (#[trigger] rs.take(t as int)[a])@ == pick(k, om, false);
                        assert(rs.take(t as int)[a] == rs[a]);
                    }
                }
            }
        }
        while j < ot.entries.len()
            invariant
                ot.wf(),
        ot.arity == arity_in + arity_out,
                v.wf(),
                r.wf(),
                rs == rests@,
                ops == ot.entries@,
                vs == v.entries@,
                n_in == arity_in,
                om == out_mask@,
                im == in_mask@,
                r.arity == om.len(),
                in_mask@.len() == v.arity,
                count(im, true) == arity_in,
                count(om, true) == arity_out,
                count(im, false) == count(om, false),
                t < rs.len(),
                cur == rs[t as int]@,
                cur.len() == count(im, false),
                j <= ops.len(),
                forall|k: Seq<Label>|
                    k.len() == om.len() ==> #[trigger] r.amp(k) == if pick(k, om, false) == cur {
                        row_sum(ops.take(j as int), n_in, pick(k, om, true),
                            |i: Seq<Label>| v.amp(interleave(im, i, pick(k, om, false))))
                    } else if holds_rest(rs.take(t as int), pick(k, om, false)) {
                        row_sum(ot.entries@, arity_in as nat, 
                            pick(k, om, true),
                            |i: Seq<Label>| v.amp(interleave(im, i, pick(k, om, false))),
                        )
                    } else {
                        Complex::zero_spec()
                    },
            decreases ot.entries.len() - j,
        {
            let (i, o) = split_key(&ot.entries[j].0, arity_in);
            let a = ot.entries[j].1;
            let src = copy_key(&rests[t]).join(&i, in_mask);
            let x = v.get(&src);
            let dst = copy_key(&rests[t]).join(&o, out_mask);
            let term = a.mul(&x);
            proof {
                lemma_select_join(om, o@, cur);
            }
            r.accumulate(&dst, term);
            proof {
                assert forall|k: Seq<Label>|
                    k.len() == om.len() implies #[trigger] r.amp(k) == if pick(k, om, false) == cur {
                        row_sum(ops.take(j + 1), n_in, pick(k, om, true),
                            |i: Seq<Label>| v.amp(interleave(im, i, pick(k, om, false))))
                    } else if holds_rest(rs.take(t as int), pick(k, om, false)) {
                        row_sum(ot.entries@, arity_in as nat, 
                            pick(k, om, true),
                            |i: Seq<Label>| v.amp(interleave(im, i, pick(k, om, false))),
                        )
                    } else {
                        Complex::zero_spec()
                    } by {
                    let f = |i: Seq<Label>| v.amp(interleave(im, i, pick(k, om, false)));
                    lemma_row_sum_step(ops, j as int, n_in, pick(k, om, true), f);
                    if pick(k, om, false) == cur {
                        lemma_join_select(k, om);
                        if k == dst@ {
                            assert(pick(k, om, true) == o@);
                        } else {
                            assert(pick(k, om, true) != o@);
                        }
                    }
                }
            }
            j = j + 1;
        }
        proof {
            assert(ops.take(j as int) =~= ops);
            assert forall|k: Seq<Label>|
                k.len() == om.len() implies #[trigger] r.amp(k) == if holds_rest(rs.take(t + 1), pick(k, om, false)) {
                    row_sum(ot.entries@, arity_in as nat, 
                        pick(k, om, true),
                        |i: Seq<Label>| v.amp(interleave(im, i, pick(k, om, false))),
                    )
                } else {
                    Complex::zero_spec()
                } by {
                if pick(k, om, false) == cur {
                    assert(rs.take(t + 1)[t as int] == rs[t as int]);
                } else if holds_rest(rs.take(t + 1), pick(k, om, false)) {
                    let a = choose|a: int| 0 <= a < t + 1 && (#[trigger] rs.take(t + 1)[a])@ == pick(k, om, false);
                    assert(rs.take(t + 1)[a] == rs[a]);
                    assert(rs.take(t as int)[a] == rs[a]);
                } else if holds_rest(rs.take(t as int), pick(k, om, false)) {
                    let a = choose|a: int| 0 <= a < t && (#[trigger] rs.take(t as int)[a])@ == pick(k, om, false);
                    assert(rs.take(t + 1)[a] == rs[a]);
                    assert(rs.take(t as int)[a] == rs[a]);
                }
            }
        }
        t = t + 1;
    }
    proof {
        assert forall|k: Seq<Label>|
            k.len() == om.len() implies #[trigger] r.amp(k) == row_sum(ot.entries@, arity_in as nat, 
                pick(k, om, true),
                |i: Seq<Label>| v.amp(interleave(im, i, pick(k, om, false))),
            ) by {
            assert(rs.take(t as int) =~= rs);
            if !holds_rest(rs, pick(k, om, false)) {
                let f = |i: Seq<Label>| v.amp(interleave(im, i, pick(k, om, false)));
                assert forall|u: int| 0 <= u < ops.len() implies f((#[trigger] ops[u]).0@.take(n_in as int))
                    == Complex::zero_spec() by {
                    assert(ot.entries@[u].0@.len() == ot.arity);
                    let i = ops[u].0@.take(n_in as int);
                    assert(i.len() == n_in);
                    let key = interleave(im, i, pick(k, om, false));
                    lemma_pick_len(k, om, false);
                    lemma_select_join(im, i, pick(k, om, false));
                    if v.amp(key) != Complex::zero_spec() {
                        crate::tensor::lemma_lookup_cases(vs, key);
                        let w = choose|w: int| 0 <= w < vs.len() && #[trigger] vs[w].0@ == key && lookup(vs, key) == vs[w].1;
                        assert(holds_rest(rs, pick(vs[w].0@, im, false)));
                        assert(pick(vs[w].0@, im, false) == pick(k, om, false));
                    }
                }
                lemma_row_sum_zero(ops, n_in, pick(k, om, true), f);
            }
        }
    }
    r
}

/// Sums agree when their input functions agree on the inputs they read.
pub proof fn lemma_row_sum_congruent(
    s: Seq<(Vec<Label>, Complex)>,
    n_in: nat,
    o: Seq<Label>,
    f: spec_fn(Seq<Label>) -> Complex,
    g: spec_fn(Seq<Label>) -> Complex,
)
    requires
        forall|j: int|
            0 <= j < s.len() ==> f((#[trigger] s[j]).0@.take(n_in as int)) == g(
                s[j].0@.take(n_in as int),
            ),
    ensures
        row_sum(s, n_in, o, f) == row_sum(s, n_in, o, g),
    decreases s.len(),
{
    if s.len() > 0 {
        let d = s.drop_last();
        assert forall|j: int|
            0 <= j < d.len() implies f((#[trigger] d[j]).0@.take(n_in as int)) == g(
                d[j].0@.take(n_in as int),
            ) by {
            assert(d[j] == s[j]);
        }
        lemma_row_sum_congruent(d, n_in, o, f, g);
        assert(s.last() == s[s.len() - 1]);
    }
}

/// Over the entries of a diagonal of ones, the output at `o` is the input
/// at `o` when the diagonal holds `o`, and zero otherwise.
pub proof fn lemma_row_sum_diagonal(
    s: Seq<(Vec<Label>, Complex)>,
    n: nat,
    o: Seq<Label>,
    f: spec_fn(Seq<Label>) -> Complex,
)
    requires
        crate::tensor::distinct_keys(s),
        o.len() == n,
        f(o).wf(),
        forall|j: int| 0 <= j < s.len() ==> (#[trigger] s[j]).0@.len() == 2 * n,
        forall|j: int|
            0 <= j < s.len() && (#[trigger] s[j]).0@.skip(n as int) == o ==> s[j].0@.take(n as int)
                == o && s[j].1 == Complex::one_spec(),
    ensures
        row_sum(s, n, o, f) == if exists|j: int| 0 <= j < s.len() && (#[trigger] s[j]).0@ == o + o {
            f(o)
        } else {
            Complex::zero_spec()
        },
    decreases s.len(),
{
    if s.len() > 0 {
        let d = s.drop_last();
        assert forall|a: int, b: int|
            0 <= a < d.len() && 0 <= b < d.len() && a != b implies #[trigger] d[a].0@ != #[trigger] d[b].0@ by {
            assert(d[a] == s[a] && d[b] == s[b]);
        }
        assert forall|j: int| 0 <= j < d.len() implies (#[trigger] d[j]).0@.len() == 2 * n by {
            assert(d[j] == s[j]);
        }
        assert forall|j: int|
            0 <= j < d.len() && (#[trigger] d[j]).0@.skip(n as int) == o implies d[j].0@.take(n as int)
                == o && d[j].1 == Complex::one_spec() by {
            assert(d[j] == s[j]);
        }
        lemma_row_sum_diagonal(d, n, o, f);
        let last = s.len() - 1;
        assert(s.last() == s[last]);
        let k = s[last].0@;
        assert(k =~= k.take(n as int) + k.skip(n as int));
        if k.skip(n as int) == o {
            assert(k == o + o);
            if exists|j: int| 0 <= j < d.len() && (#[trigger] d[j]).0@ == o + o {
                let j = choose|j: int| 0 <= j < d.len() && (#[trigger] d[j]).0@ == o + o;
                assert(d[j] == s[j]);
            }
            crate::complex::lemma_mul_one(f(o));
            lemma_add_zero(f(o));
        } else {
            if exists|j: int| 0 <= j < s.len() && (#[trigger] s[j]).0@ == o + o {
                let j = choose|j: int| 0 <= j < s.len() && (#[trigger] s[j]).0@ == o + o;
                lemma_concat_injective(o, o, k.take(n as int), k.skip(n as int));
                assert(j != last);
                assert(d[j] == s[j]);
            }
        }
    }
}

impl Operator {
    /// The operator of arity zero mapping the empty key to itself with
    /// amplitude one: the unit of `outer`.
    pub fn unit() -> (r: Operator)
        ensures
            r.wf(),
            r.n_in == 0,
            r.n_out == 0,
            r.amp(seq![], seq![]) == Complex::one_spec(),
    {
        let t = Tensor::scalar(Complex::one());
        proof {
            assert(Seq::<Label>::empty() + Seq::<Label>::empty() =~= Seq::<Label>::empty());
        }
        Operator { n_in: 0, n_out: 0, t }
    }

    /// The operator with amplitude `c` at ⟨k|A|k⟩ for each key `k` of
    /// `keys`, and zero elsewhere.
    pub fn diagonal(n: usize, keys: &Vec<Vec<Label>>, c: Complex) -> (r: Operator)
        requires
            n + n <= usize::MAX,
            c.wf(),
            forall|j: int| 0 <= j < keys@.len() ==> (#[trigger] keys@[j])@.len() == n,
        ensures
            r.wf(),
            r.n_in == n,
            r.n_out == n,
            forall|i: Seq<Label>, o: Seq<Label>|
                i.len() == n && o.len() == n ==> #[trigger] r.amp(i, o) == if i == o && exists|j: int|
                    0 <= j < keys@.len() && (#[trigger] keys@[j])@ == i {
                    c
                } else {
                    Complex::zero_spec()
                },
    {
        let mut r = Operator::new(n, n);
        let mut j: usize = 0;
        while j < keys.len()
            invariant
                r.wf(),
                r.n_in == n,
                r.n_out == n,
                c.wf(),
                j <= keys@.len(),
                forall|t: int| 0 <= t < keys@.len() ==> (#[trigger] keys@[t])@.len() == n,
                forall|i: Seq<Label>, o: Seq<Label>|
                    i.len() == n && o.len() == n ==> #[trigger] r.amp(i, o) == if i == o && exists|t: int|
                        0 <= t < j && (#[trigger] keys@[t])@ == i {
                        c
                    } else {
                        Complex::zero_spec()
                    },
            decreases keys.len() - j,
        {
            let ghost kj = keys@[j as int]@;
            let ghost before = r;
            r.insert(&keys[j], &keys[j], c);
            proof {
                assert forall|i: Seq<Label>, o: Seq<Label>|
                    i.len() == n && o.len() == n implies #[trigger] r.amp(i, o) == if i == o && exists|t: int|
                        0 <= t < j + 1 && (#[trigger] keys@[t])@ == i {
                        c
                    } else {
                        Complex::zero_spec()
                    } by {
                    lemma_concat_injective(i, o, kj, kj);
                    assert(before.amp(i, o) == if i == o && exists|t: int|
                        0 <= t < j && (#[trigger] keys@[t])@ == i {
                        c
                    } else {
                        Complex::zero_spec()
                    });
                    if exists|t: int| 0 <= t < j && (#[trigger] keys@[t])@ == i {
                        let t = choose|t: int| 0 <= t < j && (#[trigger] keys@[t])@ == i;
                        assert(0 <= t < j + 1 && keys@[t]@ == i);
                    }
                    if exists|t: int| 0 <= t < j + 1 && (#[trigger] keys@[t])@ == i {
                        let t = choose|t: int| 0 <= t < j + 1 && (#[trigger] keys@[t])@ == i;
                        if t < j {
                            assert(exists|t: int| 0 <= t < j && (#[trigger] keys@[t])@ == i);
                        }
                    }
                    if i == kj {
                        assert(keys@[j as int]@ == i);
                    }
                    if i == kj && o == kj {
                        assert(r.amp(i, o) == if c.is_zero_spec() { before.amp(i, o) } else { c });
                    } else {
                        assert(i + o != kj + kj);
                        assert(r.t.amp(i + o) == before.t.amp(i + o));
                    }
                }
            }
            j = j + 1;
        }
        r
    }

    /// The transpose: ⟨i|Aᵀ|o⟩ = ⟨o|A|i⟩.
    pub fn transpose(&self) -> (r: Operator)
        requires
            self.wf(),
        ensures
            r.wf(),
            r.n_in == self.n_out,
            r.n_out == self.n_in,
            forall|i: Seq<Label>, o: Seq<Label>|
                i.len() == self.n_in && o.len() == self.n_out ==> #[trigger] r.amp(o, i) == self.amp(i, o),
    {
        let perm = swap_middle_perm(0, self.n_in, self.n_out, 0);
        proof {
            let e = Seq::<Label>::empty();
            lemma_swap_middle(e, some_key(self.n_in as nat), some_key(self.n_out as nat), e);
        }
        let t = self.t.permute(&perm);
        proof {
            let e = Seq::<Label>::empty();
            assert forall|i: Seq<Label>, o: Seq<Label>|
                i.len() == self.n_in && o.len() == self.n_out implies #[trigger] t.amp(o + i) == self.amp(i, o) by {
                lemma_swap_middle(e, i, o, e);
                assert(e + i + o + e =~= i + o);
                assert(e + o + i + e =~= o + i);
            }
        }
        Operator { n_in: self.n_out, n_out: self.n_in, t }
    }

    /// The entrywise complex conjugate, without transposing.
    pub fn conj(&self) -> (r: Operator)
        requires
            self.wf(),
        ensures
            r.wf(),
            r.n_in == self.n_in,
            r.n_out == self.n_out,
            forall|i: Seq<Label>, o: Seq<Label>| #[trigger] r.amp(i, o) == self.amp(i, o).conj_spec(),
    {
        Operator { n_in: self.n_in, n_out: self.n_out, t: self.t.conj() }
    }

    /// The Hermitian adjoint: ⟨i|A†|o⟩ = conj(⟨o|A|i⟩).
    pub fn dag(&self) -> (r: Operator)
        requires
            self.wf(),
        ensures
            r.wf(),
            r.n_in == self.n_out,
            r.n_out == self.n_in,
            forall|i: Seq<Label>, o: Seq<Label>|
                i.len() == self.n_in && o.len() == self.n_out ==> #[trigger] r.amp(o, i)
                    == self.amp(i, o).conj_spec(),
    {
        self.conj().transpose()
    }

    /// The tensor product: ⟨o1 ++ o2|A ⊗ B|i1 ++ i2⟩ = ⟨o1|A|i1⟩ · ⟨o2|B|i2⟩.
    pub fn outer(&self, o: &Operator) -> (r: Operator)
        requires
            self.wf(),
            o.wf(),
            self.n_in + self.n_out + o.n_in + o.n_out <= usize::MAX,
        ensures
            r.wf(),
            r.n_in == self.n_in + o.n_in,
            r.n_out == self.n_out + o.n_out,
            forall|i1: Seq<Label>, o1: Seq<Label>, i2: Seq<Label>, o2: Seq<Label>|
                i1.len() == self.n_in && o1.len() == self.n_out && i2.len() == o.n_in && o2.len()
                    == o.n_out ==> #[trigger] r.amp(i1 + i2, o1 + o2) == self.amp(i1, o1).mul_spec(
                    o.amp(i2, o2),
                ),
    {
        let joint = self.t.outer(&o.t);
        let perm = swap_middle_perm(self.n_in, self.n_out, o.n_in, o.n_out);
        proof {
            lemma_swap_middle(
                some_key(self.n_in as nat),
                some_key(self.n_out as nat),
                some_key(o.n_in as nat),
                some_key(o.n_out as nat),
            );
        }
        let t = joint.permute(&perm);
        proof {
            assert forall|i1: Seq<Label>, o1: Seq<Label>, i2: Seq<Label>, o2: Seq<Label>|
                i1.len() == self.n_in && o1.len() == self.n_out && i2.len() == o.n_in && o2.len()
                    == o.n_out implies #[trigger] t.amp((i1 + i2) + (o1 + o2)) == self.amp(i1, o1).mul_spec(
                    o.amp(i2, o2),
                ) by {
                lemma_swap_middle(i1, o1, i2, o2);
                assert((i1 + o1) + (i2 + o2) =~= i1 + o1 + i2 + o2);
                assert((i1 + i2) + (o1 + o2) =~= i1 + i2 + o1 + o2);
                assert(joint.amp((i1 + o1) + (i2 + o2)) == self.t.amp(i1 + o1).mul_spec(o.t.amp(i2 + o2)));
            }
        }
        Operator { n_in: self.n_in + o.n_in, n_out: self.n_out + o.n_out, t }
    }

    /// The full product with a tensor over the operator's inputs.
    pub fn mul_vec(&self, v: &Tensor) -> (r: Tensor)
        requires
            self.wf(),
            v.wf(),
            v.arity == self.n_in,
        ensures
            r.wf(),
            r.arity == self.n_out,
            forall|o: Seq<Label>|
                o.len() == self.n_out ==> #[trigger] r.amp(o) == self.apply_at(o, |i: Seq<Label>| v.amp(i)),
    {
        let in_mask = split_mask_vec(0, self.n_in);
        let out_mask = split_mask_vec(0, self.n_out);
        let e = Ghost(Seq::<Label>::empty());
        proof {
            lemma_split_mask(e@, some_key(self.n_in as nat));
            lemma_split_mask(e@, some_key(self.n_out as nat));
        }
        let r = self.mul_vec_partial(v, &in_mask, &out_mask);
        proof {
            assert forall|o: Seq<Label>|
                o.len() == self.n_out implies #[trigger] r.amp(o) == self.apply_at(o, |i: Seq<Label>| v.amp(i)) by {
                lemma_split_mask(e@, o);
                assert(e@ + o =~= o);
                let f = |i: Seq<Label>| v.amp(interleave(in_mask@, i, pick(o, out_mask@, false)));
                let g = |i: Seq<Label>| v.amp(i);
                let ops = self.t.entries@;
                assert forall|j: int|
                    0 <= j < ops.len() implies f((#[trigger] ops[j]).0@.take(self.n_in as int)) == g(
                        ops[j].0@.take(self.n_in as int),
                    ) by {
                    assert(self.t.entries@[j].0@.len() == self.t.arity);
                    let i = ops[j].0@.take(self.n_in as int);
                    lemma_split_mask(e@, i);
                    assert(e@ + i =~= i);
                }
                lemma_row_sum_congruent(ops, self.n_in as nat, o, f, g);
            }
        }
        r
    }

    /// The composition `self · rhs`: first `rhs`, then `self`.
    pub fn mul_op(&self, rhs: &Operator) -> (r: Operator)
        requires
            self.wf(),
            rhs.wf(),
            rhs.n_out == self.n_in,
            rhs.n_in + self.n_out <= usize::MAX,
        ensures
            r.wf(),
            r.n_in == rhs.n_in,
            r.n_out == self.n_out,
            forall|i: Seq<Label>, o: Seq<Label>|
                i.len() == rhs.n_in && o.len() == self.n_out ==> #[trigger] r.amp(i, o)
                    == self.apply_at(o, |m: Seq<Label>| rhs.amp(i, m)),
    {
        let in_mask = split_mask_vec(rhs.n_in, self.n_in);
        let out_mask = split_mask_vec(rhs.n_in, self.n_out);
        proof {
            lemma_split_mask(some_key(rhs.n_in as nat), some_key(self.n_in as nat));
            lemma_split_mask(some_key(rhs.n_in as nat), some_key(self.n_out as nat));
        }
        let t = self.mul_vec_partial(&rhs.t, &in_mask, &out_mask);
        proof {
            assert forall|i: Seq<Label>, o: Seq<Label>|
                i.len() == rhs.n_in && o.len() == self.n_out implies #[trigger] t.amp(i + o)
                    == self.apply_at(o, |m: Seq<Label>| rhs.amp(i, m)) by {
                lemma_split_mask(i, o);
                let f = |m: Seq<Label>| rhs.t.amp(interleave(in_mask@, m, pick(i + o, out_mask@, false)));
                let g = |m: Seq<Label>| rhs.amp(i, m);
                let ops = self.t.entries@;
                assert forall|j: int|
                    0 <= j < ops.len() implies f((#[trigger] ops[j]).0@.take(self.n_in as int)) == g(
                        ops[j].0@.take(self.n_in as int),
                    ) by {
                    assert(self.t.entries@[j].0@.len() == self.t.arity);
                    let m = ops[j].0@.take(self.n_in as int);
                    lemma_split_mask(i, m);
                }
                lemma_row_sum_congruent(ops, self.n_in as nat, o, f, g);
            }
        }
        Operator { n_in: rhs.n_in, n_out: self.n_out, t }
    }

    /// The entrywise sum.
    pub fn add(&self, o: &Operator) -> (r: Operator)
        requires
            self.wf(),
            o.wf(),
            self.n_in == o.n_in,
            self.n_out == o.n_out,
        ensures
            r.wf(),
            r.n_in == self.n_in,
            r.n_out == self.n_out,
            forall|i: Seq<Label>, x: Seq<Label>| #[trigger] r.amp(i, x) == self.amp(i, x).add_spec(o.amp(i, x)),
    {
        Operator { n_in: self.n_in, n_out: self.n_out, t: self.t.add(&o.t) }
    }

    /// The entrywise difference.
    pub fn sub(&self, o: &Operator) -> (r: Operator)
        requires
            self.wf(),
            o.wf(),
            self.n_in == o.n_in,
            self.n_out == o.n_out,
        ensures
            r.wf(),
            r.n_in == self.n_in,
            r.n_out == self.n_out,
            forall|i: Seq<Label>, x: Seq<Label>| #[trigger] r.amp(i, x) == self.amp(i, x).sub_spec(o.amp(i, x)),
    {
        Operator { n_in: self.n_in, n_out: self.n_out, t: self.t.sub(&o.t) }
    }

    /// Every amplitude multiplied by `c`.
    pub fn scale(&self, c: Complex) -> (r: Operator)
        requires
            self.wf(),
            c.wf(),
        ensures
            r.wf(),
            r.n_in == self.n_in,
            r.n_out == self.n_out,
            forall|i: Seq<Label>, x: Seq<Label>| #[trigger] r.amp(i, x) == c.mul_spec(self.amp(i, x)),
    {
        Operator { n_in: self.n_in, n_out: self.n_out, t: self.t.scale(c) }
    }

    /// Whether both operators have the same amplitude everywhere.
    pub fn equals(&self, o: &Operator) -> (r: bool)
        requires
            self.wf(),
            o.wf(),
        ensures
            r == (self.n_in == o.n_in && self.n_out == o.n_out && self.t.same(&o.t)),
    {
        self.n_in == o.n_in && self.n_out == o.n_out && self.t.equals(&o.t)
    }
}


impl Operator {
    /// The identity on keys of `schema`: amplitude one at ⟨k|A|k⟩ for every
    /// key `k` that fits the schema, zero elsewhere.
    pub fn identity(schema: &Vec<Axis>) -> (r: Operator)
        requires
            forall|j: int| 0 <= j < schema@.len() ==> enumerable_axis(#[trigger] schema@[j]),
            schema@.len() <= usize::MAX / 2,
        ensures
            r.wf(),
            r.n_in == schema@.len(),
            r.n_out == schema@.len(),
            forall|i: Seq<Label>, o: Seq<Label>|
                i.len() == schema@.len() && o.len() == schema@.len() ==> #[trigger] r.amp(i, o) == if i
                    == o && fits(schema@, i) {
                    Complex::one_spec()
                } else {
                    Complex::zero_spec()
                },
    {
        let mut r = Operator::unit();
        let mut t: usize = 0;
        proof {
            assert forall|i: Seq<Label>, o: Seq<Label>|
                i.len() == 0 && o.len() == 0 implies #[trigger] r.amp(i, o) == if i == o && fits(
                    schema@.take(0),
                    i,
                ) {
                    Complex::one_spec()
                } else {
                    Complex::zero_spec()
                } by {
                assert(i =~= Seq::<Label>::empty());
                assert(o =~= Seq::<Label>::empty());
            }
        }
        while t < schema.len()
            invariant
                r.wf(),
                t <= schema@.len(),
                schema@.len() <= usize::MAX / 2,
                forall|j: int| 0 <= j < schema@.len() ==> enumerable_axis(#[trigger] schema@[j]),
                r.n_in == t,
                r.n_out == t,
                forall|i: Seq<Label>, o: Seq<Label>|
                    i.len() == t && o.len() == t ==> #[trigger] r.amp(i, o) == if i == o && fits(
                        schema@.take(t as int),
                        i,
                    ) {
                        Complex::one_spec()
                    } else {
                        Complex::zero_spec()
                    },
            decreases schema.len() - t,
        {
            let a = schema[t];
            let vals = axis_values(a);
            let mut keys: Vec<Vec<Label>> = Vec::new();
            let mut j: usize = 0;
            while j < vals.len()
                invariant
                    j <= vals@.len(),
                    keys@.len() == j,
                    forall|u: int| 0 <= u < j ==> (#[trigger] keys@[u])@ == seq![vals@[u]],
                decreases vals.len() - j,
            {
                keys.push(vec![vals[j]]);
                j = j + 1;
            }
            let d = Operator::diagonal(1, &keys, Complex::one());
            let ghost prev = r;
            r = r.outer(&d);
            proof {
                assert forall|i: Seq<Label>, o: Seq<Label>|
                    i.len() == t + 1 && o.len() == t + 1 implies #[trigger] r.amp(i, o) == if i == o
                        && fits(schema@.take(t + 1), i) {
                        Complex::one_spec()
                    } else {
                        Complex::zero_spec()
                    } by {
                    let (i1, o1) = (i.drop_last(), o.drop_last());
                    let (ix, ox) = (seq![i.last()], seq![o.last()]);
                    assert(i1 + ix =~= i);
                    assert(o1 + ox =~= o);
                    assert(r.amp(i1 + ix, o1 + ox) == prev.amp(i1, o1).mul_spec(d.amp(ix, ox)));
                    assert(schema@.take(t + 1) =~= schema@.take(t as int).push(a));
                    lemma_fits_push(schema@.take(t as int), i1, a, i.last());
                    assert(i1.push(i.last()) =~= i);
                    lemma_concat_injective(i1, ix, o1, ox);
                    if ix == ox && exists|u: int| 0 <= u < keys@.len() && (#[trigger] keys@[u])@ == ix {
                        let u = choose|u: int| 0 <= u < keys@.len() && (#[trigger] keys@[u])@ == ix;
                        assert(seq![vals@[u]][0] == i.last());
                        assert(vals@.contains(i.last()));
                    }
                    if i.last().axis_spec() == a && ix == ox {
                        assert(vals@.contains(i.last()));
                        let u = choose|u: int| 0 <= u < vals@.len() && vals@[u] == i.last();
                        assert(keys@[u]@ == ix);
                    }
                    crate::complex::lemma_mul_one(Complex::one_spec());
                    lemma_mul_zero(prev.amp(i1, o1));
                    lemma_mul_zero(d.amp(ix, ox));
                }
            }
            t = t + 1;
        }
        proof {
            assert(schema@.take(t as int) =~= schema@);
        }
        r
    }

    /// The identity on `schema` times `c`.
    pub fn uniform_scale(schema: &Vec<Axis>, c: Complex) -> (r: Operator)
        requires
            forall|j: int| 0 <= j < schema@.len() ==> enumerable_axis(#[trigger] schema@[j]),
            schema@.len() <= usize::MAX / 2,
            c.wf(),
        ensures
            r.wf(),
            r.n_in == schema@.len(),
            r.n_out == schema@.len(),
            forall|i: Seq<Label>, o: Seq<Label>|
                i.len() == schema@.len() && o.len() == schema@.len() ==> #[trigger] r.amp(i, o) == if i
                    == o && fits(schema@, i) {
                    c
                } else {
                    Complex::zero_spec()
                },
    {
        let id = Operator::identity(schema);
        let r = id.scale(c);
        proof {
            assert forall|i: Seq<Label>, o: Seq<Label>|
                i.len() == schema@.len() && o.len() == schema@.len() implies #[trigger] r.amp(i, o) == if i
                    == o && fits(schema@, i) {
                    c
                } else {
                    Complex::zero_spec()
                } by {
                assert(id.amp(i, o) == if i == o && fits(schema@, i) {
                    Complex::one_spec()
                } else {
                    Complex::zero_spec()
                });
                crate::complex::lemma_mul_one(c);
                lemma_mul_zero(c);
            }
        }
        r
    }

    /// The diagonal operator with amplitude one at the single key `key`.
    pub fn indicator(key: &Vec<Label>) -> (r: Operator)
        requires
            key@.len() <= usize::MAX / 2,
        ensures
            r.wf(),
            r.n_in == key@.len(),
            r.n_out == key@.len(),
            forall|i: Seq<Label>, o: Seq<Label>|
                i.len() == key@.len() && o.len() == key@.len() ==> #[trigger] r.amp(i, o) == if i == key@
                    && o == key@ {
                    Complex::one_spec()
                } else {
                    Complex::zero_spec()
                },
    {
        let keys = vec![copy_key(key)];
        let r = Operator::diagonal(key.len(), &keys, Complex::one());
        proof {
            assert forall|i: Seq<Label>, o: Seq<Label>|
                i.len() == key@.len() && o.len() == key@.len() implies #[trigger] r.amp(i, o) == if i
                    == key@ && o == key@ {
                    Complex::one_spec()
                } else {
                    Complex::zero_spec()
                } by {
                if i == key@ {
                    assert(keys@[0]@ == i);
                }
            }
        }
        r
    }
}

/// The identity leaves every tensor over its schema unchanged: for
/// `id = Operator::identity(schema)` and `r = id.mul_vec(t)`, `r` has the
/// amplitudes of `t`.
pub proof fn lemma_identity_mul_vec(schema: Seq<Axis>, id: Operator, t: Tensor, r: Tensor)
    requires
        id.wf(),
        t.wf(),
        r.wf(),
        id.n_in == schema.len(),
        id.n_out == schema.len(),
        t.arity == schema.len(),
        r.arity == schema.len(),
        forall|k: Seq<Label>| !fits(schema, k) ==> #[trigger] t.amp(k) == Complex::zero_spec(),
        forall|i: Seq<Label>, o: Seq<Label>|
            i.len() == schema.len() && o.len() == schema.len() ==> #[trigger] id.amp(i, o) == if i
                == o && fits(schema, i) {
                Complex::one_spec()
            } else {
                Complex::zero_spec()
            },
        forall|o: Seq<Label>|
            o.len() == schema.len() ==> #[trigger] r.amp(o) == id.apply_at(o, |i: Seq<Label>| t.amp(i)),
    ensures
        r.same(&t),
{
    assert forall|o: Seq<Label>| #[trigger] r.amp(o) == t.amp(o) by {
        r.lemma_amp(o);
        t.lemma_amp(o);
        if o.len() == schema.len() {
            lemma_diagonal_row(schema, id, o, |i: Seq<Label>| t.amp(i));
            if !fits(schema, o) {
                assert(t.amp(o) == Complex::zero_spec());
            }
        }
    }
}

/// The identity's output at `o` is the input at `o` for keys that fit the
/// schema, zero for others.
proof fn lemma_diagonal_row(schema: Seq<Axis>, id: Operator, o: Seq<Label>, f: spec_fn(Seq<Label>) -> Complex)
    requires
        id.wf(),
        id.n_in == schema.len(),
        id.n_out == schema.len(),
        o.len() == schema.len(),
        f(o).wf(),
        forall|i: Seq<Label>, o: Seq<Label>|
            i.len() == schema.len() && o.len() == schema.len() ==> #[trigger] id.amp(i, o) == if i
                == o && fits(schema, i) {
                Complex::one_spec()
            } else {
                Complex::zero_spec()
            },
    ensures
        id.apply_at(o, f) == if fits(schema, o) {
            f(o)
        } else {
            Complex::zero_spec()
        },
{
    let s = id.t.entries@;
    let n = schema.len();
    assert forall|j: int| 0 <= j < s.len() implies (#[trigger] s[j]).0@.len() == 2 * n by {
        assert(id.t.entries@[j].0@.len() == id.t.arity);
    }
    assert forall|j: int|
        0 <= j < s.len() && (#[trigger] s[j]).0@.skip(n as int) == o implies s[j].0@.take(n as int)
            == o && s[j].1 == Complex::one_spec() by {
        let k = s[j].0@;
        assert(id.t.entries@[j].0@.len() == id.t.arity);
        assert(k =~= k.take(n as int) + k.skip(n as int));
        lemma_lookup_at(s, j);
        assert(id.amp(k.take(n as int), k.skip(n as int)) == s[j].1);
    }
    lemma_row_sum_diagonal(s, n, o, f);
    if fits(schema, o) {
        assert(id.amp(o, o) == Complex::one_spec());
        lemma_lookup_cases(s, o + o);
    } else {
        if exists|j: int| 0 <= j < s.len() && (#[trigger] s[j]).0@ == o + o {
            let j = choose|j: int| 0 <= j < s.len() && (#[trigger] s[j]).0@ == o + o;
            lemma_lookup_at(s, j);
            assert(id.amp(o, o) == s[j].1);
        }
    }
}

/// Applying an identity to some slots of a state leaves the state
/// unchanged: for `id = Operator::identity(sub)`, a state `v` over `schema`
/// whose slots marked in `mask` form `sub`, and
/// `r = id.mul_vec_partial(v, mask, mask)`, `r` has the amplitudes of `v`.
pub proof fn lemma_partial_identity(
    schema: Seq<Axis>,
    sub: Seq<Axis>,
    mask: Seq<bool>,
    id: Operator,
    v: Tensor,
    r: Tensor,
)
    requires
        id.wf(),
        v.wf(),
        r.wf(),
        mask.len() == schema.len(),
        pick(schema, mask, true) == sub,
        id.n_in == sub.len(),
        id.n_out == sub.len(),
        v.arity == schema.len(),
        r.arity == schema.len(),
        forall|k: Seq<Label>| !fits(schema, k) ==> #[trigger] v.amp(k) == Complex::zero_spec(),
        forall|i: Seq<Label>, o: Seq<Label>|
            i.len() == sub.len() && o.len() == sub.len() ==> #[trigger] id.amp(i, o) == if i == o
                && fits(sub, i) {
                Complex::one_spec()
            } else {
                Complex::zero_spec()
            },
        forall|k: Seq<Label>|
            k.len() == mask.len() ==> #[trigger] r.amp(k) == id.apply_at(
                pick(k, mask, true),
                |i: Seq<Label>| v.amp(interleave(mask, i, pick(k, mask, false))),
            ),
    ensures
        r.same(&v),
{
    assert forall|k: Seq<Label>| #[trigger] r.amp(k) == v.amp(k) by {
        r.lemma_amp(k);
        v.lemma_amp(k);
        if k.len() == schema.len() {
            let f = |i: Seq<Label>| v.amp(interleave(mask, i, pick(k, mask, false)));
            lemma_pick_len(k, mask, true);
            lemma_pick_len(schema, mask, true);
            lemma_join_select(k, mask);
            v.lemma_amp(interleave(mask, pick(k, mask, true), pick(k, mask, false)));
            lemma_diagonal_row(sub, id, pick(k, mask, true), f);
            if fits(schema, k) {
                crate::labels::lemma_pick_fits(schema, k, mask, true);
            }
        }
    }
}

/// The adjoint of the adjoint is the operator itself: for `d = op.dag()`
/// and `dd = d.dag()`, `dd` equals `op`.
pub proof fn lemma_dag_dag(op: Operator, d: Operator, dd: Operator)
    requires
        op.wf(),
        d.wf(),
        dd.wf(),
        d.n_in == op.n_out,
        d.n_out == op.n_in,
        dd.n_in == op.n_in,
        dd.n_out == op.n_out,
        forall|i: Seq<Label>, o: Seq<Label>|
            i.len() == op.n_in && o.len() == op.n_out ==> #[trigger] d.amp(o, i) == op.amp(i, o).conj_spec(),
        forall|i: Seq<Label>, o: Seq<Label>|
            i.len() == d.n_in && o.len() == d.n_out ==> #[trigger] dd.amp(o, i) == d.amp(i, o).conj_spec(),
    ensures
        dd.t.same(&op.t),
{
    assert forall|k: Seq<Label>| #[trigger] dd.t.amp(k) == op.t.amp(k) by {
        dd.t.lemma_amp(k);
        op.t.lemma_amp(k);
        if k.len() == op.t.arity {
            let (i, o) = (k.take(op.n_in as int), k.skip(op.n_in as int));
            assert(k =~= i + o);
            assert(dd.amp(i, o) == d.amp(o, i).conj_spec());
            op.t.lemma_amp(i + o);
            crate::complex::lemma_conj_conj(op.amp(i, o));
        }
    }
}

/// Conjugating twice gives back the operator: for `c = op.conj()` and
/// `cc = c.conj()`, `cc` equals `op`.
pub proof fn lemma_conj_conj(op: Operator, c: Operator, cc: Operator)
    requires
        op.wf(),
        forall|i: Seq<Label>, o: Seq<Label>| #[trigger] c.amp(i, o) == op.amp(i, o).conj_spec(),
        forall|i: Seq<Label>, o: Seq<Label>| #[trigger] cc.amp(i, o) == c.amp(i, o).conj_spec(),
        c.n_in == op.n_in,
        cc.n_in == op.n_in,
        cc.t.arity == op.t.arity,
    ensures
        cc.t.same(&op.t),
{
    assert forall|k: Seq<Label>| #[trigger] cc.t.amp(k) == op.t.amp(k) by {
        let (i, o) = (k.take(op.n_in as int), k.skip(op.n_in as int));
        if k.len() >= op.n_in {
            assert(k =~= i + o);
            assert(cc.amp(i, o) == c.amp(i, o).conj_spec());
            op.t.lemma_amp(k);
            crate::complex::lemma_conj_conj(op.amp(i, o));
        } else {
            assert(cc.amp(seq![], k) == c.amp(seq![], k).conj_spec());
            assert(seq![] + k =~= k);
            op.t.lemma_amp(k);
            crate::complex::lemma_conj_conj(op.t.amp(k));
        }
    }
}


impl Tensor {
    /// Contracts `self` with the slots of `rhs` that `mask` marks: at a key
    /// `k` of the remaining slots, Σ over the keys `d` of `self` of
    /// `self(d) · rhs(k joined with d)`.
    pub fn dot_partial(&self, rhs: &Tensor, mask: &Vec<bool>) -> (r: Tensor)
        requires
            self.wf(),
            rhs.wf(),
            mask@.len() == rhs.arity,
            count(mask@, true) == self.arity,
        ensures
            r.wf(),
            r.arity == count(mask@, false),
            forall|k: Seq<Label>|
                k.len() == count(mask@, false) ==> #[trigger] r.amp(k) == row_sum(
                    self.entries@,
                    self.arity as nat,
                    seq![],
                    |d: Seq<Label>| rhs.amp(interleave(mask@, d, k)),
                ),
    {
        proof {
            crate::labels::lemma_count_split(mask@);
        }
        let rest = rhs.arity - self.arity;
        let out_mask = split_mask_vec(rest, 0);
        let e = Ghost(Seq::<Label>::empty());
        proof {
            lemma_split_mask(some_key(rest as nat), e@);
        }
        let r = apply_partial(self, self.arity, 0, rhs, mask, &out_mask);
        proof {
            assert forall|k: Seq<Label>|
                k.len() == count(mask@, false) implies #[trigger] r.amp(k) == row_sum(
                    self.entries@,
                    self.arity as nat,
                    seq![],
                    |d: Seq<Label>| rhs.amp(interleave(mask@, d, k)),
                ) by {
                lemma_split_mask(k, e@);
                assert(k + e@ =~= k);
                let f = |i: Seq<Label>| rhs.amp(interleave(mask@, i, pick(k, out_mask@, false)));
                let g = |d: Seq<Label>| rhs.amp(interleave(mask@, d, k));
                lemma_row_sum_congruent(self.entries@, self.arity as nat, pick(k, out_mask@, true), f, g);
                assert(pick(k, out_mask@, true) == e@);
            }
        }
        r
    }
}


impl Tensor {
    /// The conjugate-linear partial contraction: `self.conj()` contracted
    /// with the slots of `rhs` that `mask` marks.
    pub fn inner_partial(&self, rhs: &Tensor, mask: &Vec<bool>) -> (r: Tensor)
        requires
            self.wf(),
            rhs.wf(),
            mask@.len() == rhs.arity,
            count(mask@, true) == self.arity,
        ensures
            r.wf(),
            r.arity == count(mask@, false),
            exists|c: Tensor|
                {
                    &&& c.wf()
                    &&& c.arity == self.arity
                    &&& forall|d: Seq<Label>| #[trigger] c.amp(d) == self.amp(d).conj_spec()
                    &&& forall|k: Seq<Label>|
                        k.len() == count(mask@, false) ==> #[trigger] r.amp(k) == row_sum(
                            c.entries@,
                            c.arity as nat,
                            seq![],
                            |d: Seq<Label>| rhs.amp(interleave(mask@, d, k)),
                        )
                },
    {
        let c = self.conj();
        let r = c.dot_partial(rhs, mask);
        proof {
            assert(c.wf() && c.arity == self.arity);
        }
        r
    }
}

impl Tensor {
    /// Splits the tensor by the labels outside `mask`: one group per
    /// remainder that some key has, holding the amplitudes over the marked
    /// slots of the keys with that remainder.
    pub fn group_by_dims(&self, mask: &Vec<bool>) -> (r: Vec<(Vec<Label>, Tensor)>)
        requires
            self.wf(),
            mask@.len() == self.arity,
        ensures
            forall|a: int, b: int|
                0 <= a < r@.len() && 0 <= b < r@.len() && a != b ==> (#[trigger] r@[a]).0@
                    != (#[trigger] r@[b]).0@,
            forall|a: int|
                0 <= a < r@.len() ==> {
                    &&& (#[trigger] r@[a]).1.wf()
                    &&& r@[a].1.arity == count(mask@, true)
                    &&& r@[a].0@.len() == count(mask@, false)
                    &&& r@[a].1.entries@.len() > 0
                    &&& forall|e: Seq<Label>|
                        e.len() == count(mask@, true) ==> #[trigger] r@[a].1.amp(e) == self.amp(
                            interleave(mask@, e, r@[a].0@),
                        )
                },
            forall|k: Seq<Label>|
                k.len() == self.arity && self.amp(k) != Complex::zero_spec() ==> exists|a: int|
                    0 <= a < r@.len() && (#[trigger] r@[a]).0@ == pick(k, mask@, false),
    {
        let ghost s = self.entries@;
        let ghost m = mask@;
        let rests = distinct_remainders(self, mask);
        let ghost rs = rests@;
        let mut groups: Vec<(Vec<Label>, Tensor)> = Vec::new();
        proof {
            crate::labels::lemma_count_split(m);
        }
        let n_sel = self.arity - (self.arity - count_marked(mask));
        let mut t: usize = 0;
        while t < rests.len()
            invariant
                self.wf(),
                s == self.entries@,
                m == mask@,
                rs == rests@,
                mask@.len() == self.arity,
                n_sel == count(m, true),
                t <= rs.len(),
                groups@.len() == t,
                forall|a: int, b: int|
                    0 <= a < rs.len() && 0 <= b < rs.len() && a != b ==> (#[trigger] rs[a])@ != (#[trigger] rs[b])@,
                forall|a: int| 0 <= a < rs.len() ==> (#[trigger] rs[a])@.len() == count(m, false),
                forall|u: int| 0 <= u < s.len() ==> holds_rest(rs, pick((#[trigger] s[u]).0@, m, false)),
                forall|a: int| 0 <= a < rs.len() ==> rest_of_entry(s, s.len() as int, m, #[trigger] rs[a]@),
                forall|a: int|
                    0 <= a < t ==> {
                        &&& (#[trigger] groups@[a]).0@ == rs[a]@
                        &&& groups@[a].1.entries@.len() > 0
                        &&& groups@[a].1.wf()
                        &&& groups@[a].1.arity == count(m, true)
                        &&& forall|e: Seq<Label>|
                            e.len() == count(m, true) ==> #[trigger] groups@[a].1.amp(e) == self.amp(
                                interleave(m, e, groups@[a].0@),
                            )
                    },
            decreases rests.len() - t,
        {
            let ghost cur = rs[t as int]@;
            assert(cur.len() == count(m, false));
            let mut g = Tensor::zeros(n_sel);
            let mut j: usize = 0;
            while j < self.entries.len()
                invariant
                    self.wf(),
                    s == self.entries@,
                    m == mask@,
                    mask@.len() == self.arity,
                    g.wf(),
                    g.arity == count(m, true),
                    rs == rests@,
                    t < rs.len(),
                    cur == rs[t as int]@,
                    cur.len() == count(m, false),
                    j <= s.len(),
                    forall|e: Seq<Label>|
                        e.len() == count(m, true) ==> #[trigger] g.amp(e) == lookup(
                            s.take(j as int),
                            interleave(m, e, cur),
                        ),
                decreases self.entries.len() - j,
            {
                let (sel, rest) = self.entries[j].0.select(mask);
                let ghost kj = s[j as int].0@;
                proof {
                    assert(self.entries@[j as int].0@.len() == self.arity);
                    lemma_pick_len(kj, m, true);
                    lemma_pick_len(kj, m, false);
                    lemma_join_select(kj, m);
                }
                if crate::dimensions::keys_equal(&rest, &copy_key(&rests[t])) {
                    let ghost before = g;
                    g.accumulate(&sel, self.entries[j].1);
                    proof {
                        assert forall|e: Seq<Label>|
                            e.len() == count(m, true) implies #[trigger] g.amp(e) == lookup(
                                s.take(j + 1),
                                interleave(m, e, cur),
                            ) by {
                            crate::tensor::lemma_lookup_step(s, j as int, interleave(m, e, cur));
                            lemma_select_join(m, e, cur);
                            if e == sel@ {
                                crate::tensor::lemma_prefix_absent(s, j as int);
                                lemma_add_zero(s[j as int].1);
                                assert(before.amp(e) == lookup(s.take(j as int), interleave(m, e, cur)));
                            } else {
                                assert(before.amp(e) == lookup(s.take(j as int), interleave(m, e, cur)));
                            }
                        }
                    }
                } else {
                    proof {
                        assert forall|e: Seq<Label>|
                            e.len() == count(m, true) implies #[trigger] g.amp(e) == lookup(
                                s.take(j + 1),
                                interleave(m, e, cur),
                            ) by {
                            crate::tensor::lemma_lookup_step(s, j as int, interleave(m, e, cur));
                            lemma_select_join(m, e, cur);
                        }
                    }
                }
                j = j + 1;
            }
            proof {
                assert(s.take(j as int) =~= s);
                assert(rest_of_entry(s, s.len() as int, m, cur));
                let u = choose|u: int| 0 <= u < s.len() && #[trigger] pick(s[u].0@, m, false) == cur;
                let ku = s[u].0@;
                let e = pick(ku, m, true);
                assert(self.entries@[u].0@.len() == self.arity);
                lemma_pick_len(ku, m, true);
                lemma_join_select(ku, m);
                lemma_lookup_at(s, u);
                assert(g.amp(e) == self.amp(ku));
                if g.entries@.len() == 0 {
                    assert(g.amp(e) == Complex::zero_spec());
                }
            }
            let ghost before = groups@;
            groups.push((copy_key(&rests[t]), g));
            proof {
                assert forall|a: int|
                    0 <= a < t + 1 implies {
                        &&& (#[trigger] groups@[a]).0@ == rs[a]@
                        &&& groups@[a].1.entries@.len() > 0
                        &&& groups@[a].1.wf()
                        &&& groups@[a].1.arity == count(m, true)
                        &&& forall|e: Seq<Label>|
                            e.len() == count(m, true) ==> #[trigger] groups@[a].1.amp(e) == self.amp(
                                interleave(m, e, groups@[a].0@),
                            )
                    } by {
                    if a < t {
                        assert(groups@[a] == before[a]);
                    }
                }
            }
            t = t + 1;
        }
        proof {
            assert forall|k: Seq<Label>|
                k.len() == self.arity && self.amp(k) != Complex::zero_spec() implies exists|a: int|
                    0 <= a < groups@.len() && (#[trigger] groups@[a]).0@ == pick(k, m, false) by {
                lemma_lookup_cases(s, k);
                let u = choose|u: int| 0 <= u < s.len() && #[trigger] s[u].0@ == k && lookup(s, k) == s[u].1;
                assert(holds_rest(rs, pick(s[u].0@, m, false)));
                let a = choose|a: int| 0 <= a < rs.len() && (#[trigger] rs[a])@ == pick(s[u].0@, m, false);
                assert(groups@[a].0@ == pick(k, m, false));
            }
        }
        groups
    }
}

/// How many slots `mask` marks.
pub fn count_marked(mask: &Vec<bool>) -> (r: usize)
    ensures
        r == count(mask@, true),
{
    let mut r: usize = 0;
    let mut j: usize = 0;
    while j < mask.len()
        invariant
            j <= mask@.len(),
            r == count(mask@.take(j as int), true),
            r <= j,
        decreases mask.len() - j,
    {
        proof {
            assert(mask@.take(j + 1).drop_last() =~= mask@.take(j as int));
        }
        if mask[j] {
            r = r + 1;
        }
        j = j + 1;
    }
    assert(mask@.take(j as int) =~= mask@);
    r
}


/// Σ over the keys of `ks` of `g(k)`.
pub open spec fn key_sum(ks: Seq<Seq<Label>>, g: spec_fn(Seq<Label>) -> Complex) -> Complex
    decreases ks.len(),
{
    if ks.len() == 0 {
        Complex::zero_spec()
    } else {
        key_sum(ks.drop_last(), g).add_spec(g(ks.last()))
    }
}

/// The inputs `m` of the stored entries `(m ++ o, a)` of `s` with output `o`.
pub open spec fn row_keys(s: Seq<(Vec<Label>, Complex)>, n: nat, o: Seq<Label>) -> Seq<Seq<Label>>
    decreases s.len(),
{
    if s.len() == 0 {
        seq![]
    } else {
        let before = row_keys(s.drop_last(), n, o);
        if s.last().0@.skip(n as int) == o {
            before.push(s.last().0@.take(n as int))
        } else {
            before
        }
    }
}

proof fn lemma_key_sum_wf(ks: Seq<Seq<Label>>, g: spec_fn(Seq<Label>) -> Complex)
    ensures
        key_sum(ks, g).wf(),
    decreases ks.len(),
{
    if ks.len() > 0 {
        lemma_key_sum_wf(ks.drop_last(), g);
    }
}

/// A sum of zeros is zero.
proof fn lemma_key_sum_zero(ks: Seq<Seq<Label>>, g: spec_fn(Seq<Label>) -> Complex)
    requires
        forall|j: int| 0 <= j < ks.len() ==> g(#[trigger] ks[j]) == Complex::zero_spec(),
    ensures
        key_sum(ks, g) == Complex::zero_spec(),
    decreases ks.len(),
{
    if ks.len() > 0 {
        let d = ks.drop_last();
        assert forall|j: int| 0 <= j < d.len() implies g(#[trigger] d[j]) == Complex::zero_spec() by {
            assert(d[j] == ks[j]);
        }
        lemma_key_sum_zero(d, g);
        assert(g(ks.last()) == g(ks[ks.len() - 1]));
        lemma_add_zero(Complex::zero_spec());
    }
}

/// Sums of functions that agree on the keys agree.
proof fn lemma_key_sum_congruent(
    ks: Seq<Seq<Label>>,
    f: spec_fn(Seq<Label>) -> Complex,
    g: spec_fn(Seq<Label>) -> Complex,
)
    requires
        forall|j: int| 0 <= j < ks.len() ==> f(#[trigger] ks[j]) == g(ks[j]),
    ensures
        key_sum(ks, f) == key_sum(ks, g),
    decreases ks.len(),
{
    if ks.len() > 0 {
        let d = ks.drop_last();
        assert forall|j: int| 0 <= j < d.len() implies f(#[trigger] d[j]) == g(d[j]) by {
            assert(d[j] == ks[j]);
        }
        lemma_key_sum_congruent(d, f, g);
        assert(ks.last() == ks[ks.len() - 1]);
    }
}

/// The conjugate of a sum is the sum of the conjugates.
proof fn lemma_key_sum_conj(ks: Seq<Seq<Label>>, g: spec_fn(Seq<Label>) -> Complex)
    requires
        forall|k: Seq<Label>| (#[trigger] g(k)).wf(),
    ensures
        key_sum(ks, g).conj_spec() == key_sum(ks, |k: Seq<Label>| g(k).conj_spec()),
    decreases ks.len(),
{
    if ks.len() > 0 {
        lemma_key_sum_conj(ks.drop_last(), g);
        lemma_key_sum_wf(ks.drop_last(), g);
        crate::complex::lemma_conj_add(key_sum(ks.drop_last(), g), g(ks.last()));
    }
}

/// Taking one key out of a sum and adding its term back.
proof fn lemma_key_sum_remove(ks: Seq<Seq<Label>>, g: spec_fn(Seq<Label>) -> Complex, p: int)
    requires
        0 <= p < ks.len(),
        forall|k: Seq<Label>| (#[trigger] g(k)).wf(),
    ensures
        key_sum(ks, g) == key_sum(ks.remove(p), g).add_spec(g(ks[p])),
    decreases ks.len(),
{
    let d = ks.drop_last();
    if p == ks.len() - 1 {
        assert(ks.remove(p) =~= d);
    } else {
        lemma_key_sum_remove(d, g, p);
        assert(ks.remove(p) =~= d.remove(p).push(ks.last()));
        assert(ks.remove(p).drop_last() =~= d.remove(p));
        let x = key_sum(d.remove(p), g);
        lemma_key_sum_wf(d.remove(p), g);
        crate::complex::lemma_add_assoc(x, g(ks[p]), g(ks.last()));
        crate::complex::lemma_add_assoc(x, g(ks.last()), g(ks[p]));
        crate::complex::lemma_add_comm(g(ks[p]), g(ks.last()));
        assert(d[p] == ks[p]);
    }
}

/// Two lists of distinct keys give the same sum when the function
/// vanishes on every key that only one of them holds.
proof fn lemma_key_sum_reindex(s: Seq<Seq<Label>>, t: Seq<Seq<Label>>, g: spec_fn(Seq<Label>) -> Complex)
    requires
        s.no_duplicates(),
        t.no_duplicates(),
        forall|k: Seq<Label>| (#[trigger] g(k)).wf(),
        forall|k: Seq<Label>| s.contains(k) != t.contains(k) ==> #[trigger] g(k) == Complex::zero_spec(),
    ensures
        key_sum(s, g) == key_sum(t, g),
    decreases s.len(),
{
    if s.len() == 0 {
        assert forall|j: int| 0 <= j < t.len() implies g(#[trigger] t[j]) == Complex::zero_spec() by {
            assert(t.contains(t[j]));
        }
        lemma_key_sum_zero(t, g);
    } else {
        let k = s.last();
        let d = s.drop_last();
        assert(s.contains(k));
        assert forall|x: Seq<Label>| x != k implies d.contains(x) == s.contains(x) by {
            if s.contains(x) {
                let j = choose|j: int| 0 <= j < s.len() && s[j] == x;
                assert(j != s.len() - 1);
                assert(d[j] == x);
            }
            if d.contains(x) {
                let j = choose|j: int| 0 <= j < d.len() && d[j] == x;
                assert(s[j] == x);
            }
        }
        assert(!d.contains(k)) by {
            if d.contains(k) {
                let j = choose|j: int| 0 <= j < d.len() && d[j] == k;
                assert(s[j] == s[s.len() - 1]);
            }
        }
        assert(d.no_duplicates()) by {
            assert forall|a: int, b: int| 0 <= a < d.len() && 0 <= b < d.len() && a != b implies d[a] != d[b] by {
                assert(d[a] == s[a] && d[b] == s[b]);
            }
        }
        lemma_key_sum_wf(d, g);
        if t.contains(k) {
            let p = choose|p: int| 0 <= p < t.len() && t[p] == k;
            let r = t.remove(p);
            assert forall|x: Seq<Label>| r.contains(x) == (t.contains(x) && x != k) by {
                if r.contains(x) {
                    let j = choose|j: int| 0 <= j < r.len() && r[j] == x;
                    if j < p {
                        assert(r[j] == t[j]);
                    } else {
                        assert(r[j] == t[j + 1]);
                    }
                }
                if t.contains(x) && x != k {
                    let j = choose|j: int| 0 <= j < t.len() && t[j] == x;
                    if j < p {
                        assert(r[j] == x);
                    } else {
                        assert(j != p);
                        assert(r[j - 1] == x);
                    }
                }
            }
            assert(r.no_duplicates()) by {
                assert forall|a: int, b: int| 0 <= a < r.len() && 0 <= b < r.len() && a != b implies r[a] != r[b] by {
                    let ta = if a < p { a } else { a + 1 };
                    let tb = if b < p { b } else { b + 1 };
                    assert(r[a] == t[ta] && r[b] == t[tb]);
                }
            }
            lemma_key_sum_reindex(d, r, g);
            lemma_key_sum_remove(t, g, p);
        } else {
            assert(g(k) == Complex::zero_spec());
            lemma_key_sum_reindex(d, t, g);
            lemma_add_zero(key_sum(d, g));
        }
    }
}

/// A row sum is a key sum over the inputs of the row, weighted by the
/// stored amplitudes.
proof fn lemma_row_sum_as_key_sum(
    s: Seq<(Vec<Label>, Complex)>,
    n: nat,
    o: Seq<Label>,
    f: spec_fn(Seq<Label>) -> Complex,
    j: int,
)
    requires
        crate::tensor::distinct_keys(s),
        0 <= j <= s.len(),
        forall|t: int| 0 <= t < s.len() ==> (#[trigger] s[t]).0@.len() == n + o.len(),
    ensures
        row_sum(s.take(j), n, o, f) == key_sum(
            row_keys(s.take(j), n, o),
            |m: Seq<Label>| lookup(s, m + o).mul_spec(f(m)),
        ),
        forall|m: Seq<Label>|
            #[trigger] row_keys(s.take(j), n, o).contains(m) <==> (m.len() == n && exists|t: int|
                0 <= t < j && (#[trigger] s[t]).0@ == m + o),
        row_keys(s.take(j), n, o).no_duplicates(),
    decreases j,
{
    let g = |m: Seq<Label>| lookup(s, m + o).mul_spec(f(m));
    if j == 0 {
        assert(s.take(0).len() == 0);
    } else {
        lemma_row_sum_as_key_sum(s, n, o, f, j - 1);
        let p = s.take(j);
        assert(p.drop_last() =~= s.take(j - 1));
        assert(p.last() == s[j - 1]);
        let k = s[j - 1].0@;
        let before = row_keys(s.take(j - 1), n, o);
        assert(k =~= k.take(n as int) + k.skip(n as int));
        if k.skip(n as int) == o {
            lemma_lookup_at(s, j - 1);
            assert(row_keys(p, n, o) == before.push(k.take(n as int)));
            assert(row_keys(p, n, o).drop_last() =~= before);
            assert forall|m: Seq<Label>|
                #[trigger] row_keys(p, n, o).contains(m) <==> (m.len() == n && exists|t: int|
                    0 <= t < j && (#[trigger] s[t]).0@ == m + o) by {
                let r = row_keys(p, n, o);
                if r.contains(m) {
                    let q = choose|q: int| 0 <= q < r.len() && r[q] == m;
                    if q < before.len() {
                        assert(before[q] == m);
                        assert(before.contains(m));
                        let t = choose|t: int| 0 <= t < j - 1 && (#[trigger] s[t]).0@ == m + o;
                        assert(0 <= t < j && s[t].0@ == m + o);
                    } else {
                        assert(m == k.take(n as int));
                        assert(s[j - 1].0@ == m + o);
                    }
                }
                if m.len() == n && exists|t: int| 0 <= t < j && (#[trigger] s[t]).0@ == m + o {
                    let t = choose|t: int| 0 <= t < j && (#[trigger] s[t]).0@ == m + o;
                    if t < j - 1 {
                        assert(before.contains(m));
                        let q = choose|q: int| 0 <= q < before.len() && before[q] == m;
                        assert(r[q] == m);
                    } else {
                        crate::tensor::lemma_concat_injective(m, o, k.take(n as int), k.skip(n as int));
                        assert(r[before.len() as int] == m);
                    }
                }
            }
            assert(row_keys(p, n, o).no_duplicates()) by {
                let r = row_keys(p, n, o);
                assert(!before.contains(k.take(n as int))) by {
                    if before.contains(k.take(n as int)) {
                        let t = choose|t: int| 0 <= t < j - 1 && (#[trigger] s[t]).0@ == k.take(n as int) + o;
                        assert(s[t].0@ == s[j - 1].0@);
                    }
                }
                assert forall|a: int, b: int| 0 <= a < r.len() && 0 <= b < r.len() && a != b implies r[a] != r[b] by {
                    if a < before.len() && b < before.len() {
                        assert(r[a] == before[a] && r[b] == before[b]);
                    } else if a < before.len() {
                        assert(r[a] == before[a]);
                        assert(before.contains(before[a]));
                    } else {
                        assert(r[b] == before[b]);
                        assert(before.contains(before[b]));
                    }
                }
            }
            assert(g(k.take(n as int)) == s[j - 1].1.mul_spec(f(k.take(n as int))));
        } else {
            assert(row_keys(p, n, o) == before);
            assert forall|m: Seq<Label>|
                #[trigger] row_keys(p, n, o).contains(m) <==> (m.len() == n && exists|t: int|
                    0 <= t < j && (#[trigger] s[t]).0@ == m + o) by {
                if m.len() == n && exists|t: int| 0 <= t < j && (#[trigger] s[t]).0@ == m + o {
                    let t = choose|t: int| 0 <= t < j && (#[trigger] s[t]).0@ == m + o;
                    if t == j - 1 {
                        crate::tensor::lemma_concat_injective(m, o, k.take(n as int), k.skip(n as int));
                    }
                    assert(0 <= t < j - 1);
                }
            }
        }
    }
}

/// The adjoint of a product is the product of the adjoints in reverse
/// order: for `ab = a.mul_op(b)`, `d = ab.dag()`, and
/// `e = b.dag().mul_op(a.dag())`, `e` equals `d`.
pub proof fn lemma_dag_of_product(
    a: Operator,
    b: Operator,
    ab: Operator,
    d: Operator,
    ad: Operator,
    bd: Operator,
    e: Operator,
)
    requires
        a.wf(),
        b.wf(),
        ab.wf(),
        d.wf(),
        ad.wf(),
        bd.wf(),
        e.wf(),
        b.n_out == a.n_in,
        ab.n_in == b.n_in && ab.n_out == a.n_out,
        d.n_in == a.n_out && d.n_out == b.n_in,
        ad.n_in == a.n_out && ad.n_out == a.n_in,
        bd.n_in == b.n_out && bd.n_out == b.n_in,
        e.n_in == a.n_out && e.n_out == b.n_in,
        forall|i: Seq<Label>, o: Seq<Label>|
            i.len() == b.n_in && o.len() == a.n_out ==> #[trigger] ab.amp(i, o) == a.apply_at(
                o,
                |m: Seq<Label>| b.amp(i, m),
            ),
        forall|i: Seq<Label>, o: Seq<Label>|
            i.len() == ab.n_in && o.len() == ab.n_out ==> #[trigger] d.amp(o, i) == ab.amp(i, o).conj_spec(),
        forall|i: Seq<Label>, o: Seq<Label>|
            i.len() == a.n_in && o.len() == a.n_out ==> #[trigger] ad.amp(o, i) == a.amp(i, o).conj_spec(),
        forall|i: Seq<Label>, o: Seq<Label>|
            i.len() == b.n_in && o.len() == b.n_out ==> #[trigger] bd.amp(o, i) == b.amp(i, o).conj_spec(),
        forall|i: Seq<Label>, o: Seq<Label>|
            i.len() == a.n_out && o.len() == b.n_in ==> #[trigger] e.amp(i, o) == bd.apply_at(
                o,
                |m: Seq<Label>| ad.amp(i, m),
            ),
    ensures
        e.t.same(&d.t),
{
    let nm = a.n_in as nat;
    assert forall|k: Seq<Label>| #[trigger] e.t.amp(k) == d.t.amp(k) by {
        e.t.lemma_amp(k);
        d.t.lemma_amp(k);
        if k.len() == e.t.arity {
            let o = k.take(a.n_out as int);
            let i = k.skip(a.n_out as int);
            assert(k =~= o + i);
            let fb = |m: Seq<Label>| b.amp(i, m);
            let fa = |m: Seq<Label>| ad.amp(o, m);
            let sa = a.t.entries@;
            let sb = bd.t.entries@;
            assert forall|t: int| 0 <= t < sa.len() implies (#[trigger] sa[t]).0@.len() == nm + o.len() by {
                assert(a.t.entries@[t].0@.len() == a.t.arity);
            }
            assert forall|t: int| 0 <= t < sb.len() implies (#[trigger] sb[t]).0@.len() == nm + i.len() by {
                assert(bd.t.entries@[t].0@.len() == bd.t.arity);
            }
            lemma_row_sum_as_key_sum(sa, nm, o, fb, sa.len() as int);
            lemma_row_sum_as_key_sum(sb, nm, i, fa, sb.len() as int);
            assert(sa.take(sa.len() as int) =~= sa);
            assert(sb.take(sb.len() as int) =~= sb);
            let m1 = row_keys(sa, nm, o);
            let m2 = row_keys(sb, nm, i);
            let g = |m: Seq<Label>| a.amp(m, o).conj_spec().mul_spec(b.amp(i, m).conj_spec());
            // the product's side
            let h1 = |m: Seq<Label>| lookup(sa, m + o).mul_spec(fb(m));
            assert forall|m: Seq<Label>| (#[trigger] h1(m)).wf() by {
                crate::complex::lemma_mul_wf(lookup(sa, m + o), fb(m));
            }
            lemma_key_sum_conj(m1, h1);
            let h1c = |m: Seq<Label>| h1(m).conj_spec();
            assert forall|j: int| 0 <= j < m1.len() implies h1c(#[trigger] m1[j]) == g(m1[j]) by {
                let m = m1[j];
                a.t.lemma_amp(m + o);
                b.t.lemma_amp(i + m);
                crate::complex::lemma_conj_mul(a.amp(m, o), b.amp(i, m));
            }
            lemma_key_sum_congruent(m1, h1c, g);
            // the reversed product's side
            let h2 = |m: Seq<Label>| lookup(sb, m + i).mul_spec(fa(m));
            assert forall|j: int| 0 <= j < m2.len() implies h2(#[trigger] m2[j]) == g(m2[j]) by {
                let m = m2[j];
                assert(m2.contains(m));
                assert(m.len() == nm);
                assert(bd.amp(m, i) == b.amp(i, m).conj_spec());
                assert(ad.amp(o, m) == a.amp(m, o).conj_spec());
                crate::complex::lemma_mul_comm(bd.amp(m, i), ad.amp(o, m));
            }
            lemma_key_sum_congruent(m2, h2, g);
            // both sums run over the keys where g can be nonzero
            assert forall|m: Seq<Label>| (#[trigger] g(m)).wf() by {
                crate::complex::lemma_mul_wf(a.amp(m, o).conj_spec(), b.amp(i, m).conj_spec());
            }
            assert forall|m: Seq<Label>| m1.contains(m) != m2.contains(m) implies #[trigger] g(m) == Complex::zero_spec() by {
                if m.len() == nm {
                    if !m1.contains(m) {
                        assert forall|t: int| 0 <= t < sa.len() implies #[trigger] sa[t].0@ != m + o by {}
                        crate::tensor::lemma_lookup_absent(sa, m + o);
                        lemma_mul_zero(b.amp(i, m).conj_spec());
                    } else {
                        assert forall|t: int| 0 <= t < sb.len() implies #[trigger] sb[t].0@ != m + i by {}
                        crate::tensor::lemma_lookup_absent(sb, m + i);
                        assert(bd.amp(m, i) == b.amp(i, m).conj_spec());
                        b.t.lemma_amp(i + m);
                        crate::complex::lemma_conj_conj(b.amp(i, m));
                        lemma_mul_zero(a.amp(m, o).conj_spec());
                    }
                }
            }
            lemma_key_sum_reindex(m1, m2, g);
            assert(e.amp(o, i) == bd.apply_at(i, fa));
            assert(row_sum(sb, nm, i, fa) == key_sum(m2, h2));
            assert(key_sum(m2, h2) == key_sum(m1, g));
            assert(key_sum(m1, g) == key_sum(m1, h1).conj_spec());
            assert(row_sum(sa, nm, o, fb) == key_sum(m1, h1));
            assert(ab.amp(i, o) == a.apply_at(o, fb));
            assert(d.amp(o, i) == ab.amp(i, o).conj_spec());
        }
    }
}


/// The amplitude that inserting the triples `(i, o, a)` of `s` in turn
/// leaves at ⟨o|A|i⟩: the last nonzero one for that pair, or zero.
pub open spec fn last_nonzero_pair(s: Seq<(Vec<Label>, Vec<Label>, Complex)>, i: Seq<Label>, o: Seq<Label>) -> Complex
    decreases s.len(),
{
    if s.len() == 0 {
        Complex::zero_spec()
    } else if s.last().0@ == i && s.last().1@ == o && !s.last().2.is_zero_spec() {
        s.last().2
    } else {
        last_nonzero_pair(s.drop_last(), i, o)
    }
}

impl Operator {
    /// The operator that inserts each triple `(i, o, a)` of `values` in
    /// turn: a later triple replaces an earlier one for the same pair, and
    /// zero amplitudes are skipped.
    pub fn from_values(n_in: usize, n_out: usize, values: &Vec<(Vec<Label>, Vec<Label>, Complex)>) -> (r: Operator)
        requires
            n_in + n_out <= usize::MAX,
            forall|j: int|
                0 <= j < values@.len() ==> (#[trigger] values@[j]).0@.len() == n_in && values@[j].1@.len()
                    == n_out && values@[j].2.wf(),
        ensures
            r.wf(),
            r.n_in == n_in,
            r.n_out == n_out,
            forall|i: Seq<Label>, o: Seq<Label>|
                i.len() == n_in && o.len() == n_out ==> #[trigger] r.amp(i, o) == last_nonzero_pair(values@, i, o),
    {
        let mut r = Operator::new(n_in, n_out);
        let mut j: usize = 0;
        while j < values.len()
            invariant
                r.wf(),
                r.n_in == n_in,
                r.n_out == n_out,
                j <= values@.len(),
                forall|t: int|
                    0 <= t < values@.len() ==> (#[trigger] values@[t]).0@.len() == n_in && values@[t].1@.len()
                        == n_out && values@[t].2.wf(),
                forall|i: Seq<Label>, o: Seq<Label>|
                    i.len() == n_in && o.len() == n_out ==> #[trigger] r.amp(i, o) == last_nonzero_pair(
                        values@.take(j as int),
                        i,
                        o,
                    ),
            decreases values.len() - j,
        {
            let ghost before = r;
            r.insert(&values[j].0, &values[j].1, values[j].2);
            proof {
                assert(values@.take(j + 1).drop_last() =~= values@.take(j as int));
                assert forall|i: Seq<Label>, o: Seq<Label>|
                    i.len() == n_in && o.len() == n_out implies #[trigger] r.amp(i, o) == last_nonzero_pair(
                        values@.take(j + 1),
                        i,
                        o,
                    ) by {
                    lemma_concat_injective(i, o, values@[j as int].0@, values@[j as int].1@);
                    assert(before.amp(i, o) == last_nonzero_pair(values@.take(j as int), i, o));
                }
            }
            j = j + 1;
        }
        assert(values@.take(j as int) =~= values@);
        r
    }

    /// Applies `f` to every stored amplitude; an amplitude that `f` sends
    /// to zero is dropped.
    pub fn map_values<F: Fn(Complex) -> Complex>(&self, f: F) -> (r: Operator)
        requires
            self.wf(),
            forall|x: Complex| x.wf() ==> #[trigger] f.requires((x,)),
            forall|x: Complex, y: Complex| #[trigger] f.ensures((x,), y) ==> y.wf(),
        ensures
            r.wf(),
            r.n_in == self.n_in,
            r.n_out == self.n_out,
            forall|i: Seq<Label>, o: Seq<Label>|
                self.amp(i, o) == Complex::zero_spec() ==> #[trigger] r.amp(i, o) == Complex::zero_spec(),
            forall|i: Seq<Label>, o: Seq<Label>|
                self.amp(i, o) != Complex::zero_spec() ==> f.ensures((self.amp(i, o),), #[trigger] r.amp(i, o)),
    {
        Operator { n_in: self.n_in, n_out: self.n_out, t: self.t.map_values(f) }
    }

    /// The operator's rows: one group per input `i` that has an entry,
    /// holding the tensor of outputs `o ↦ ⟨o|A|i⟩`.
    pub fn tensor_per_input(&self) -> (r: Vec<(Vec<Label>, Tensor)>)
        requires
            self.wf(),
        ensures
            forall|a: int, b: int|
                0 <= a < r@.len() && 0 <= b < r@.len() && a != b ==> (#[trigger] r@[a]).0@
                    != (#[trigger] r@[b]).0@,
            forall|a: int|
                0 <= a < r@.len() ==> {
                    &&& (#[trigger] r@[a]).1.wf()
                    &&& r@[a].1.arity == self.n_out
                    &&& r@[a].0@.len() == self.n_in
                    &&& r@[a].1.entries@.len() > 0
                    &&& forall|o: Seq<Label>| o.len() == self.n_out ==> #[trigger] r@[a].1.amp(o) == self.amp(r@[a].0@, o)
                },
            forall|i: Seq<Label>, o: Seq<Label>|
                i.len() == self.n_in && o.len() == self.n_out && self.amp(i, o) != Complex::zero_spec() ==> exists|a: int|
                    0 <= a < r@.len() && (#[trigger] r@[a]).0@ == i,
    {
        let mask = split_mask_vec(self.n_in, self.n_out);
        proof {
            lemma_split_mask(some_key(self.n_in as nat), some_key(self.n_out as nat));
        }
        let r = self.t.group_by_dims(&mask);
        proof {
            assert forall|a: int|
                0 <= a < r@.len() implies {
                    &&& (#[trigger] r@[a]).1.wf()
                    &&& r@[a].1.arity == self.n_out
                    &&& r@[a].0@.len() == self.n_in
                    &&& r@[a].1.entries@.len() > 0
                    &&& forall|o: Seq<Label>| o.len() == self.n_out ==> #[trigger] r@[a].1.amp(o) == self.amp(r@[a].0@, o)
                } by {
                assert forall|o: Seq<Label>| o.len() == self.n_out implies #[trigger] r@[a].1.amp(o) == self.amp(r@[a].0@, o) by {
                    lemma_split_mask(r@[a].0@, o);
                }
            }
            assert forall|i: Seq<Label>, o: Seq<Label>|
                i.len() == self.n_in && o.len() == self.n_out && self.amp(i, o) != Complex::zero_spec() implies exists|a: int|
                    0 <= a < r@.len() && (#[trigger] r@[a]).0@ == i by {
                lemma_split_mask(i, o);
                assert(self.t.amp(i + o) != Complex::zero_spec());
                let a = choose|a: int| 0 <= a < r@.len() && (#[trigger] r@[a]).0@ == pick(i + o, mask@, false);
            }
        }
        r
    }

    /// The operator's columns: one group per output `o` that has an entry,
    /// holding the tensor of inputs `i ↦ ⟨o|A|i⟩`.
    pub fn tensor_per_output(&self) -> (r: Vec<(Vec<Label>, Tensor)>)
        requires
            self.wf(),
        ensures
            forall|a: int, b: int|
                0 <= a < r@.len() && 0 <= b < r@.len() && a != b ==> (#[trigger] r@[a]).0@
                    != (#[trigger] r@[b]).0@,
            forall|a: int|
                0 <= a < r@.len() ==> {
                    &&& (#[trigger] r@[a]).1.wf()
                    &&& r@[a].1.arity == self.n_in
                    &&& r@[a].0@.len() == self.n_out
                    &&& r@[a].1.entries@.len() > 0
                    &&& forall|i: Seq<Label>| i.len() == self.n_in ==> #[trigger] r@[a].1.amp(i) == self.amp(i, r@[a].0@)
                },
            forall|i: Seq<Label>, o: Seq<Label>|
                i.len() == self.n_in && o.len() == self.n_out && self.amp(i, o) != Complex::zero_spec() ==> exists|a: int|
                    0 <= a < r@.len() && (#[trigger] r@[a]).0@ == o,
    {
        let tr = self.transpose();
        let r = tr.tensor_per_input();
        proof {
            assert forall|a: int|
                0 <= a < r@.len() implies {
                    &&& (#[trigger] r@[a]).1.wf()
                    &&& r@[a].1.arity == self.n_in
                    &&& r@[a].0@.len() == self.n_out
                    &&& r@[a].1.entries@.len() > 0
                    &&& forall|i: Seq<Label>| i.len() == self.n_in ==> #[trigger] r@[a].1.amp(i) == self.amp(i, r@[a].0@)
                } by {
                assert forall|i: Seq<Label>| i.len() == self.n_in implies #[trigger] r@[a].1.amp(i) == self.amp(i, r@[a].0@) by {
                    assert(tr.amp(r@[a].0@, i) == self.amp(i, r@[a].0@));
                }
            }
            assert forall|i: Seq<Label>, o: Seq<Label>|
                i.len() == self.n_in && o.len() == self.n_out && self.amp(i, o) != Complex::zero_spec() implies exists|a: int|
                    0 <= a < r@.len() && (#[trigger] r@[a]).0@ == o by {
                assert(tr.amp(o, i) == self.amp(i, o));
            }
        }
        r
    }
}

impl crate::dimensions::Coord {
    /// The operator with amplitude one at ⟨c|A|c⟩ for this cell `c` only.
    pub fn as_indicator(&self) -> (r: Operator)
        ensures
            r.wf(),
            r.n_in == 1,
            r.n_out == 1,
            forall|i: Seq<Label>, o: Seq<Label>|
                i.len() == 1 && o.len() == 1 ==> #[trigger] r.amp(i, o) == if i == seq![Label::Coord(*self)] && o
                    == seq![Label::Coord(*self)] {
                    Complex::one_spec()
                } else {
                    Complex::zero_spec()
                },
    {
        let key = vec![Label::Coord(*self)];
        assert(key@ =~= seq![Label::Coord(*self)]);
        Operator::indicator(&key)
    }
}

} // verus!
