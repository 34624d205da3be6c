//! Composite keys and the algebra that splits a key into a selected part and
//! a remainder, and joins the two back together.
//!
//! A selection over a key of arity n is a mask of n booleans: the slots
//! marked `true` form the selected part, in schema order, and the others
//! form the remainder, in the order they have in the key.
use crate::dimensions::Label;
use vstd::prelude::*;

verus! {

/// The labels of `key` at the slots that `mask` marks `b`, in order.
pub open spec fn pick<A>(key: Seq<A>, mask: Seq<bool>, b: bool) -> Seq<A>
    decreases key.len(),
{
    if key.len() == 0 || mask.len() == 0 {
        seq![]
    } else {
        let before = pick(key.drop_last(), mask.drop_last(), b);
        if mask.last() == b {
            before.push(key.last())
        } else {
            before
        }
    }
}

/// How many slots `mask` marks `b`.
pub open spec fn count(mask: Seq<bool>, b: bool) -> nat
    decreases mask.len(),
{
    if mask.len() == 0 {
        0
    } else {
        count(mask.drop_last(), b) + if mask.last() == b {
            1nat
        } else {
            0nat
        }
    }
}

/// The key whose slots marked `true` hold `values` and whose other slots
/// hold `rest`, both in order.
pub open spec fn interleave<A>(mask: Seq<bool>, values: Seq<A>, rest: Seq<A>) -> Seq<A>
    decreases mask.len(),
{
    if mask.len() == 0 {
        seq![]
    } else if mask.last() {
        interleave(mask.drop_last(), values.drop_last(), rest).push(values.last())
    } else {
        interleave(mask.drop_last(), values, rest.drop_last()).push(rest.last())
    }
}

pub proof fn lemma_pick_len<A>(key: Seq<A>, mask: Seq<bool>, b: bool)
    requires
        key.len() == mask.len(),
    ensures
        pick(key, mask, b).len() == count(mask, b),
    decreases key.len(),
{
    if key.len() > 0 {
        lemma_pick_len(key.drop_last(), mask.drop_last(), b);
    }
}

pub proof fn lemma_count_split(mask: Seq<bool>)
    ensures
        count(mask, true) + count(mask, false) == mask.len(),
    decreases mask.len(),
{
    if mask.len() > 0 {
        lemma_count_split(mask.drop_last());
    }
}

/// Joining the two parts of a selection gives back the key.
pub proof fn lemma_join_select<A>(key: Seq<A>, mask: Seq<bool>)
    requires
        key.len() == mask.len(),
    ensures
        interleave(mask, pick(key, mask, true), pick(key, mask, false)) == key,
    decreases key.len(),
{
    if key.len() > 0 {
        let (kd, md) = (key.drop_last(), mask.drop_last());
        lemma_join_select(kd, md);
        assert(pick(kd, md, true).push(key.last()).drop_last() =~= pick(kd, md, true));
        assert(pick(kd, md, false).push(key.last()).drop_last() =~= pick(kd, md, false));
        assert(kd.push(key.last()) =~= key);
    }
}

/// Selecting from a joined key gives back the parts it was joined from.
pub proof fn lemma_select_join<A>(mask: Seq<bool>, values: Seq<A>, rest: Seq<A>)
    requires
        values.len() == count(mask, true),
        rest.len() == count(mask, false),
    ensures
        interleave(mask, values, rest).len() == mask.len(),
        pick(interleave(mask, values, rest), mask, true) == values,
        pick(interleave(mask, values, rest), mask, false) == rest,
    decreases mask.len(),
{
    if mask.len() > 0 {
        if mask.last() {
            lemma_select_join(mask.drop_last(), values.drop_last(), rest);
            assert(values.drop_last().push(values.last()) =~= values);
        } else {
            lemma_select_join(mask.drop_last(), values, rest.drop_last());
            assert(rest.drop_last().push(rest.last()) =~= rest);
        }
        let j = interleave(mask, values, rest);
        assert(j.drop_last() =~= interleave(mask.drop_last(), if mask.last() {
            values.drop_last()
        } else {
            values
        }, if mask.last() {
            rest
        } else {
            rest.drop_last()
        }));
    }
}

proof fn lemma_prefix_step<A>(s: Seq<A>, i: int)
    requires
        0 <= i < s.len(),
    ensures
        s.take(i + 1).drop_last() == s.take(i),
        s.take(i + 1).last() == s[i],
        s.take(i + 1).len() == i + 1,
{
    assert(s.take(i + 1).drop_last() =~= s.take(i));
}

/// A composite key: an ordered tuple of labels.
pub trait Dims: Sized {
    spec fn labels(&self) -> Seq<Label>;

    /// Splits the key into the labels at the slots that `mask` marks, in
    /// order, and the remainder.
    fn select(&self, mask: &Vec<bool>) -> (r: (Self, Self))
        requires
            self.labels().len() == mask@.len(),
        ensures
            r.0.labels() == pick(self.labels(), mask@, true),
            r.1.labels() == pick(self.labels(), mask@, false),
    ;
}

/// Inserting one label into a key.
pub trait Inserter: Dims {
    /// The key with `value` inserted before the slot `index`.
    fn insert(self, index: usize, value: Label) -> (r: Self)
        requires
            index <= self.labels().len(),
        ensures
            r.labels() == self.labels().insert(index as int, value),
    ;
}

/// Re-inserting selected labels into a remainder: the inverse of
/// `Dims::select`.
pub trait Joiner: Inserter {
    /// The key whose slots marked in `mask` hold `values` and whose other
    /// slots hold `self`, both in order.
    fn join(self, values: &Self, mask: &Vec<bool>) -> (r: Self)
        requires
            values.labels().len() == count(mask@, true),
            self.labels().len() == count(mask@, false),
        ensures
            r.labels() == interleave(mask@, values.labels(), self.labels()),
    ;
}

impl Dims for Vec<Label> {
    open spec fn labels(&self) -> Seq<Label> {
        self@
    }

    fn select(&self, mask: &Vec<bool>) -> (r: (Vec<Label>, Vec<Label>)) {
        let mut chosen: Vec<Label> = Vec::new();
        let mut rest: Vec<Label> = Vec::new();
        let mut i: usize = 0;
        while i < self.len()
            invariant
                self@.len() == mask@.len(),
                i <= self@.len(),
                chosen@ == pick(self@.take(i as int), mask@.take(i as int), true),
                rest@ == pick(self@.take(i as int), mask@.take(i as int), false),
            decreases self.len() - i,
        {
            proof {
                lemma_prefix_step(self@, i as int);
                lemma_prefix_step(mask@, i as int);
            }
            if mask[i] {
                chosen.push(self[i]);
            } else {
                rest.push(self[i]);
            }
            i = i + 1;
        }
        assert(self@.take(i as int) =~= self@);
        assert(mask@.take(i as int) =~= mask@);
        (chosen, rest)
    }
}

impl Inserter for Vec<Label> {
    fn insert(self, index: usize, value: Label) -> (r: Vec<Label>) {
        let mut v = self;
        Vec::insert(&mut v, index, value);
        v
    }
}

impl Joiner for Vec<Label> {
    fn join(self, values: &Vec<Label>, mask: &Vec<bool>) -> (r: Vec<Label>) {
        let ghost rest = self@;
        let mut out = self;
        let mut i: usize = 0;
        let mut c: usize = 0;
        let ghost mut f: int = 0;
        proof {
            lemma_count_split(mask@);
        }
        while i < mask.len()
            invariant
                values@.len() == count(mask@, true),
                rest.len() == count(mask@, false),
                i <= mask@.len(),
                c == count(mask@.take(i as int), true),
                f == count(mask@.take(i as int), false),
                c + f == i,
                c <= values@.len(),
                f <= rest.len(),
                out@ == interleave(mask@.take(i as int), values@.take(c as int), rest.take(f))
                    + rest.skip(f),
            decreases mask.len() - i,
        {
            proof {
                lemma_prefix_step(mask@, i as int);
                lemma_count_prefix(mask@, i as int);
                lemma_select_join(mask@.take(i as int), values@.take(c as int), rest.take(f));
            }
            let ghost before = interleave(mask@.take(i as int), values@.take(c as int), rest.take(f));
            if mask[i] {
                out = Inserter::insert(out, i, values[c]);
                proof {
                    lemma_prefix_step(values@, c as int);
                    assert(before.push(values@[c as int]) + rest.skip(f) =~= (before + rest.skip(f)).insert(i as int, values@[c as int]));
                }
                c = c + 1;
            } else {
                proof {
                    lemma_prefix_step(rest, f);
                    assert(before.push(rest[f]) + rest.skip(f + 1) =~= before + rest.skip(f));
                    f = f + 1;
                }
            }
            i = i + 1;
        }
        assert(mask@.take(i as int) =~= mask@);
        assert(values@.take(c as int) =~= values@);
        assert(rest.take(f) =~= rest);
        assert(rest.skip(f) =~= Seq::<Label>::empty());
        assert(out@ =~= interleave(mask@, values@, rest));
        out
    }
}

/// Counts never run past the total, and grow by one slot at a time.
proof fn lemma_count_prefix(mask: Seq<bool>, i: int)
    requires
        0 <= i < mask.len(),
    ensures
        count(mask.take(i), true) < count(mask, true) || !mask[i],
        count(mask.take(i), false) < count(mask, false) || mask[i],
    decreases mask.len(),
{
    if i < mask.len() - 1 {
        lemma_count_prefix(mask.drop_last(), i);
        assert(mask.drop_last().take(i) =~= mask.take(i));
    } else {
        assert(mask.drop_last() =~= mask.take(i));
    }
}

} // verus!

verus! {

/// The mask of `a` unmarked slots followed by `b` marked ones.
pub open spec fn split_mask(a: nat, b: nat) -> Seq<bool> {
    Seq::new(a + b, |j: int| j >= a)
}

/// Under `split_mask(a, b)` a key `i ++ o` splits into its parts `o`
/// (selected) and `i` (remainder), and joining puts them back.
pub proof fn lemma_split_mask<A>(i: Seq<A>, o: Seq<A>)
    ensures
        count(split_mask(i.len(), o.len()), true) == o.len(),
        count(split_mask(i.len(), o.len()), false) == i.len(),
        pick(i + o, split_mask(i.len(), o.len()), true) == o,
        pick(i + o, split_mask(i.len(), o.len()), false) == i,
        interleave(split_mask(i.len(), o.len()), o, i) == i + o,
    decreases i.len() + o.len(),
{
    let m = split_mask(i.len(), o.len());
    if o.len() > 0 {
        let od = o.drop_last();
        lemma_split_mask(i, od);
        assert(m.drop_last() =~= split_mask(i.len(), od.len()));
        assert((i + o).drop_last() =~= i + od);
        assert((i + od).push(o.last()) =~= i + o);
        assert(od.push(o.last()) =~= o);
        assert(pick(i + od, m.drop_last(), true).push(o.last()) =~= o);
    } else if i.len() > 0 {
        let id = i.drop_last();
        lemma_split_mask(id, o);
        assert(m.drop_last() =~= split_mask(id.len(), 0));
        assert(o =~= Seq::<A>::empty());
        assert(i + o =~= i);
        assert(id + o =~= id);
        assert((i + o).drop_last() =~= id + o);
        assert(id.push(i.last()) =~= i);
        assert(interleave(m, o, i) =~= interleave(m.drop_last(), o, id).push(i.last()));
    } else {
        assert(i + o =~= Seq::<A>::empty());
    }
}

/// Selecting slots of a key keeps each label's place in the schema.
pub proof fn lemma_pick_fits(schema: Seq<crate::dimensions::Axis>, k: Seq<Label>, mask: Seq<bool>, b: bool)
    requires
        crate::dimensions::fits(schema, k),
        mask.len() == k.len(),
    ensures
        crate::dimensions::fits(pick(schema, mask, b), pick(k, mask, b)),
    decreases k.len(),
{
    if k.len() > 0 {
        let (sd, kd, md) = (schema.drop_last(), k.drop_last(), mask.drop_last());
        assert forall|j: int| 0 <= j < kd.len() implies (#[trigger] kd[j]).axis_spec() == sd[j] by {
            assert(kd[j] == k[j]);
        }
        lemma_pick_fits(sd, kd, md, b);
        lemma_pick_len(sd, md, b);
        lemma_pick_len(kd, md, b);
        assert(k.last() == k[k.len() - 1]);
    }
}

/// The mask of `a` unmarked slots followed by `b` marked ones.
pub fn split_mask_vec(a: usize, b: usize) -> (r: Vec<bool>)
    requires
        a + b <= usize::MAX,
    ensures
        r@ == split_mask(a as nat, b as nat),
{
    let mut r: Vec<bool> = Vec::new();
    let mut j: usize = 0;
    while j < a + b
        invariant
            j <= a + b,
            a + b <= usize::MAX,
            r@ =~= split_mask(a as nat, b as nat).take(j as int),
        decreases a + b - j,
    {
        r.push(j >= a);
        j = j + 1;
        assert(r@ =~= split_mask(a as nat, b as nat).take(j as int));
    }
    r
}

} // verus!
