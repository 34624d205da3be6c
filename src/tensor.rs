//! Sparse tensors: amplitudes indexed by composite keys.
//!
//! A tensor denotes a total function from keys to amplitudes, zero almost
//! everywhere; `amp` is that function. Only nonzero amplitudes are stored,
//! at most one entry per key, so two tensors are equal exactly when their
//! `amp` functions are.
use crate::complex::{lemma_add_zero, Complex};
use crate::dimensions::{keys_equal, Label};
use vstd::prelude::*;

verus! {

/// The amplitude that `s` stores for `k`: the last entry with that key, or
/// zero if there is none.
pub open spec fn lookup(s: Seq<(Vec<Label>, Complex)>, k: Seq<Label>) -> Complex
    decreases s.len(),
{
    if s.len() == 0 {
        Complex::zero_spec()
    } else if s.last().0@ == k {
        s.last().1
    } else {
        lookup(s.drop_last(), k)
    }
}

/// No two entries of `s` share a key.
pub open spec fn distinct_keys(s: Seq<(Vec<Label>, Complex)>) -> bool {
    forall|i: int, j: int|
        0 <= i < s.len() && 0 <= j < s.len() && i != j ==> #[trigger] s[i].0@ != #[trigger] s[j].0@
}

/// A sparse vector over keys of one arity.
pub struct Tensor {
    /// How many labels each key holds.
    pub arity: usize,
    /// The nonzero amplitudes, one entry per key, in no particular order.
    pub entries: Vec<(Vec<Label>, Complex)>,
}

/// A copy of a key.
pub fn copy_key(k: &Vec<Label>) -> (r: Vec<Label>)
    ensures
        r@ == k@,
{
    let mut r: Vec<Label> = Vec::new();
    let mut j: usize = 0;
    while j < k.len()
        invariant
            j <= k@.len(),
            r@ == k@.take(j as int),
        decreases k.len() - j,
    {
        r.push(k[j]);
        j = j + 1;
        assert(r@ =~= k@.take(j as int));
    }
    assert(k@.take(j as int) =~= k@);
    r
}

/// The stored entry for a key gives its amplitude.
pub proof fn lemma_lookup_at(s: Seq<(Vec<Label>, Complex)>, i: int)
    requires
        distinct_keys(s),
        0 <= i < s.len(),
    ensures
        lookup(s, s[i].0@) == s[i].1,
    decreases s.len(),
{
    if i < s.len() - 1 {
        let d = s.drop_last();
        assert(s[i] == d[i]);
        assert(s.last() == s[s.len() - 1]);
        lemma_lookup_at(d, i);
    }
}

/// A key with no entry has amplitude zero.
pub proof fn lemma_lookup_absent(s: Seq<(Vec<Label>, Complex)>, k: Seq<Label>)
    requires
        forall|i: int| 0 <= i < s.len() ==> #[trigger] s[i].0@ != k,
    ensures
        lookup(s, k) == Complex::zero_spec(),
    decreases s.len(),
{
    if s.len() > 0 {
        let d = s.drop_last();
        assert forall|i: int| 0 <= i < d.len() implies #[trigger] d[i].0@ != k by {
            assert(d[i] == s[i]);
        }
        assert(s.last() == s[s.len() - 1]);
        lemma_lookup_absent(d, k);
    }
}

/// Either some entry holds `k`, or its amplitude is zero.
pub proof fn lemma_lookup_cases(s: Seq<(Vec<Label>, Complex)>, k: Seq<Label>)
    requires
        distinct_keys(s),
    ensures
        (exists|i: int| 0 <= i < s.len() && #[trigger] s[i].0@ == k && lookup(s, k) == s[i].1)
            || lookup(s, k) == Complex::zero_spec(),
{
    if exists|i: int| 0 <= i < s.len() && #[trigger] s[i].0@ == k {
        let i = choose|i: int| 0 <= i < s.len() && #[trigger] s[i].0@ == k;
        lemma_lookup_at(s, i);
    } else {
        lemma_lookup_absent(s, k);
    }
}

/// A prefix of `s` extended by the next entry.
pub proof fn lemma_lookup_step(s: Seq<(Vec<Label>, Complex)>, j: int, k: Seq<Label>)
    requires
        0 <= j < s.len(),
    ensures
        lookup(s.take(j + 1), k) == if s[j].0@ == k {
            s[j].1
        } else {
            lookup(s.take(j), k)
        },
{
    assert(s.take(j + 1).drop_last() =~= s.take(j));
}

impl Tensor {
    /// Keys have the tensor's arity, no key repeats, and every stored
    /// amplitude is reduced and nonzero.
    pub open spec fn wf(&self) -> bool {
        &&& distinct_keys(self.entries@)
        &&& forall|i: int|
            0 <= i < self.entries@.len() ==> {
                &&& (#[trigger] self.entries@[i]).0@.len() == self.arity
                &&& self.entries@[i].1.wf()
                &&& !self.entries@[i].1.is_zero_spec()
            }
    }

    /// The amplitude at key `k`.
    pub open spec fn amp(&self, k: Seq<Label>) -> Complex {
        lookup(self.entries@, k)
    }

    /// Whether every amplitude of `self` and `o` agrees.
    pub open spec fn same(&self, o: &Tensor) -> bool {
        self.arity == o.arity && forall|k: Seq<Label>| #[trigger] self.amp(k) == o.amp(k)
    }

    /// Every amplitude is reduced, and zero off keys of the right arity.
    pub proof fn lemma_amp(&self, k: Seq<Label>)
        requires
            self.wf(),
        ensures
            self.amp(k).wf(),
            k.len() != self.arity ==> self.amp(k) == Complex::zero_spec(),
    {
        lemma_lookup_cases(self.entries@, k);
    }

    /// The tensor with no entries.
    pub fn zeros(arity: usize) -> (r: Tensor)
        ensures
            r.wf(),
            r.arity == arity,
            r.entries@.len() == 0,
            forall|k: Seq<Label>| #[trigger] r.amp(k) == Complex::zero_spec(),
    {
        Tensor { arity, entries: Vec::new() }
    }

    /// The number of nonzero entries.
    pub fn len(&self) -> (r: usize)
        ensures
            r == self.entries@.len(),
    {
        self.entries.len()
    }

    /// Whether no amplitude is stored.
    pub fn is_empty(&self) -> (r: bool)
        requires
            self.wf(),
        ensures
            r == (self.entries@.len() == 0),
            r ==> forall|k: Seq<Label>| #[trigger] self.amp(k) == Complex::zero_spec(),
    {
        self.entries.len() == 0
    }

    /// The index of the entry for `key`, if there is one.
    pub fn find(&self, key: &Vec<Label>) -> (r: Option<usize>)
        requires
            self.wf(),
        ensures
            r matches Some(i) ==> i < self.entries@.len() && self.entries@[i as int].0@ == key@,
            r is None ==> forall|i: int|
                0 <= i < self.entries@.len() ==> #[trigger] self.entries@[i].0@ != key@,
    {
        let mut i: usize = 0;
        while i < self.entries.len()
            invariant
                i <= self.entries@.len(),
                forall|t: int| 0 <= t < i ==> #[trigger] self.entries@[t].0@ != key@,
            decreases self.entries.len() - i,
        {
            if keys_equal(&self.entries[i].0, key) {
                return Some(i);
            }
            i = i + 1;
        }
        None
    }

    /// The amplitude at `key`.
    pub fn get(&self, key: &Vec<Label>) -> (r: Complex)
        requires
            self.wf(),
        ensures
            r == self.amp(key@),
            r.wf(),
    {
        match self.find(key) {
            Some(i) => {
                proof {
                    lemma_lookup_at(self.entries@, i as int);
                }
                self.entries[i].1
            },
            None => {
                proof {
                    lemma_lookup_absent(self.entries@, key@);
                }
                Complex::zero()
            },
        }
    }

    /// Adds `delta` to the amplitude at `key`, dropping the entry when the
    /// sum is zero.
    pub fn accumulate(&mut self, key: &Vec<Label>, delta: Complex)
        requires
            old(self).wf(),
            key@.len() == old(self).arity,
            delta.wf(),
        ensures
            final(self).wf(),
            final(self).arity == old(self).arity,
            final(self).amp(key@) == old(self).amp(key@).add_spec(delta),
            forall|k: Seq<Label>| k != key@ ==> #[trigger] final(self).amp(k) == old(self).amp(k),
    {
        let ghost s = self.entries@;
        match self.find(key) {
            Some(i) => {
                proof {
                    lemma_lookup_at(s, i as int);
                }
                let sum = self.entries[i].1.add(&delta);
                if sum.is_zero() {
                    let last = self.entries.len() - 1;
                    let _ = self.entries.swap_remove(i);
                    proof {
                        let n = self.entries@;
                        assert forall|a: int, b: int|
                            0 <= a < n.len() && 0 <= b < n.len() && a != b
                            implies #[trigger] n[a].0@ != #[trigger] n[b].0@ by {
                            let sa = if a == i { last as int } else { a };
                            let sb = if b == i { last as int } else { b };
                            assert(n[a] == s[sa] && n[b] == s[sb]);
                        }
                        assert forall|t: int| 0 <= t < n.len() implies {
                            &&& (#[trigger] n[t]).0@.len() == self.arity
                            &&& n[t].1.wf()
                            &&& !n[t].1.is_zero_spec()
                        } by {
                            let st = if t == i { last as int } else { t };
                            assert(n[t] == s[st]);
                        }
                        assert forall|t: int| 0 <= t < n.len() implies #[trigger] n[t].0@ != key@ by {
                            let st = if t == i { last as int } else { t };
                            assert(n[t] == s[st]);
                        }
                        lemma_lookup_absent(n, key@);
                        assert forall|k: Seq<Label>| k != key@ implies #[trigger] lookup(n, k) == lookup(s, k) by {
                            if exists|j: int| 0 <= j < s.len() && #[trigger] s[j].0@ == k {
                                let j = choose|j: int| 0 <= j < s.len() && #[trigger] s[j].0@ == k;
                                lemma_lookup_at(s, j);
                                let nj = if j == last { i as int } else { j };
                                assert(n[nj] == s[j]);
                                lemma_lookup_at(n, nj);
                            } else {
                                assert forall|t: int| 0 <= t < n.len() implies #[trigger] n[t].0@ != k by {
                                    let st = if t == i { last as int } else { t };
                                    assert(n[t] == s[st]);
                                }
                                lemma_lookup_absent(s, k);
                                lemma_lookup_absent(n, k);
                            }
                        }
                    }
                } else {
                    let k = copy_key(key);
                    self.entries.set(i, (k, sum));
                    proof {
                        let n = self.entries@;
                        assert forall|a: int, b: int|
                            0 <= a < n.len() && 0 <= b < n.len() && a != b
                            implies #[trigger] n[a].0@ != #[trigger] n[b].0@ by {
                            assert(n[a].0@ == s[a].0@ && n[b].0@ == s[b].0@);
                        }
                        lemma_lookup_at(n, i as int);
                        assert forall|k: Seq<Label>| k != key@ implies #[trigger] lookup(n, k) == lookup(s, k) by {
                            if exists|j: int| 0 <= j < s.len() && #[trigger] s[j].0@ == k {
                                let j = choose|j: int| 0 <= j < s.len() && #[trigger] s[j].0@ == k;
                                lemma_lookup_at(s, j);
                                assert(n[j] == s[j]);
                                lemma_lookup_at(n, j);
                            } else {
                                assert forall|t: int| 0 <= t < n.len() implies #[trigger] n[t].0@ != k by {
                                    assert(n[t].0@ == s[t].0@);
                                }
                                lemma_lookup_absent(s, k);
                                lemma_lookup_absent(n, k);
                            }
                        }
                    }
                }
            },
            None => {
                proof {
                    lemma_lookup_absent(s, key@);
                    lemma_add_zero(delta);
                }
                if !delta.is_zero() {
                    let k = copy_key(key);
                    self.entries.push((k, delta));
                    proof {
                        let n = self.entries@;
                        assert(n.drop_last() =~= s);
                        assert forall|a: int, b: int|
                            0 <= a < n.len() && 0 <= b < n.len() && a != b
                            implies #[trigger] n[a].0@ != #[trigger] n[b].0@ by {
                            if a < s.len() {
                                assert(n[a] == s[a]);
                            }
                            if b < s.len() {
                                assert(n[b] == s[b]);
                            }
                        }
                        assert forall|t: int| 0 <= t < n.len() implies {
                            &&& (#[trigger] n[t]).0@.len() == self.arity
                            &&& n[t].1.wf()
                            &&& !n[t].1.is_zero_spec()
                        } by {
                            if t < s.len() {
                                assert(n[t] == s[t]);
                            }
                        }
                    }
                }
            },
        }
    }

    /// Stores `value` at `key`, replacing what was there, unless `value` is
    /// zero: then the tensor is left as it is.
    pub fn insert(&mut self, key: &Vec<Label>, value: Complex)
        requires
            old(self).wf(),
            key@.len() == old(self).arity,
            value.wf(),
        ensures
            final(self).wf(),
            final(self).arity == old(self).arity,
            final(self).amp(key@) == if value.is_zero_spec() {
                old(self).amp(key@)
            } else {
                value
            },
            forall|k: Seq<Label>| k != key@ ==> #[trigger] final(self).amp(k) == old(self).amp(k),
    {
        if value.is_zero() {
            return;
        }
        let current = self.get(key);
        let delta = value.sub(&current);
        proof {
            self.lemma_amp(key@);
            crate::complex::lemma_sub_add_cancel(value, current);
        }
        self.accumulate(key, delta);
    }
}


/// The entry at `j` has no earlier namesake, so the prefix before it has
/// amplitude zero there.
pub proof fn lemma_prefix_absent(s: Seq<(Vec<Label>, Complex)>, j: int)
    requires
        distinct_keys(s),
        0 <= j < s.len(),
    ensures
        lookup(s.take(j), s[j].0@) == Complex::zero_spec(),
{
    let p = s.take(j);
    assert forall|t: int| 0 <= t < p.len() implies #[trigger] p[t].0@ != s[j].0@ by {
        assert(p[t] == s[t]);
    }
    lemma_lookup_absent(p, s[j].0@);
}

impl Tensor {
    /// Adds `c` times `o` to `self`.
    fn add_scaled(&mut self, o: &Tensor, c: Complex)
        requires
            old(self).wf(),
            o.wf(),
            old(self).arity == o.arity,
            c.wf(),
        ensures
            final(self).wf(),
            final(self).arity == old(self).arity,
            forall|k: Seq<Label>|
                #[trigger] final(self).amp(k) == old(self).amp(k).add_spec(c.mul_spec(o.amp(k))),
    {
        let ghost start = *self;
        let ghost s = o.entries@;
        let mut j: usize = 0;
        proof {
            assert forall|k: Seq<Label>|
                #[trigger] self.amp(k) == start.amp(k).add_spec(c.mul_spec(lookup(s.take(0), k))) by {
                crate::complex::lemma_mul_zero(c);
                start.lemma_amp(k);
                lemma_add_zero(start.amp(k));
            }
        }
        while j < o.entries.len()
            invariant
                self.wf(),
                o.wf(),
                start.wf(),
                c.wf(),
                s == o.entries@,
                self.arity == start.arity,
                start.arity == o.arity,
                j <= s.len(),
                forall|k: Seq<Label>|
                    #[trigger] self.amp(k) == start.amp(k).add_spec(
                        c.mul_spec(lookup(s.take(j as int), k)),
                    ),
            decreases o.entries.len() - j,
        {
            let term = c.mul(&o.entries[j].1);
            let ghost before = *self;
            let ghost kj = s[j as int].0@;
            self.accumulate(&o.entries[j].0, term);
            proof {
                assert forall|k: Seq<Label>|
                    #[trigger] self.amp(k) == start.amp(k).add_spec(
                        c.mul_spec(lookup(s.take(j + 1), k)),
                    ) by {
                    lemma_lookup_step(s, j as int, k);
                    if k == kj {
                        lemma_prefix_absent(s, j as int);
                        crate::complex::lemma_mul_zero(c);
                        start.lemma_amp(k);
                        lemma_add_zero(start.amp(k));
                    }
                }
            }
            j = j + 1;
        }
        assert(s.take(j as int) =~= s);
    }

    /// A copy of the tensor.
    pub fn copy(&self) -> (r: Tensor)
        requires
            self.wf(),
        ensures
            r.wf(),
            r.same(self),
    {
        let mut r = Tensor::zeros(self.arity);
        r.add_scaled(self, Complex::one());
        proof {
            assert forall|k: Seq<Label>| #[trigger] r.amp(k) == self.amp(k) by {
                self.lemma_amp(k);
                crate::complex::lemma_mul_one(self.amp(k));
                lemma_add_zero(self.amp(k));
            }
        }
        r
    }

    /// The entrywise sum.
    pub fn add(&self, o: &Tensor) -> (r: Tensor)
        requires
            self.wf(),
            o.wf(),
            self.arity == o.arity,
        ensures
            r.wf(),
            r.arity == self.arity,
            forall|k: Seq<Label>| #[trigger] r.amp(k) == self.amp(k).add_spec(o.amp(k)),
    {
        let mut r = self.copy();
        r.add_scaled(o, Complex::one());
        proof {
            assert forall|k: Seq<Label>| #[trigger] r.amp(k) == self.amp(k).add_spec(o.amp(k)) by {
                o.lemma_amp(k);
                crate::complex::lemma_mul_one(o.amp(k));
            }
        }
        r
    }

    /// The entrywise difference.
    pub fn sub(&self, o: &Tensor) -> (r: Tensor)
        requires
            self.wf(),
            o.wf(),
            self.arity == o.arity,
        ensures
            r.wf(),
            r.arity == self.arity,
            forall|k: Seq<Label>| #[trigger] r.amp(k) == self.amp(k).sub_spec(o.amp(k)),
    {
        let mut r = self.copy();
        let minus_one = Complex::new(-1, 0);
        r.add_scaled(o, minus_one);
        proof {
            assert forall|k: Seq<Label>| #[trigger] r.amp(k) == self.amp(k).sub_spec(o.amp(k)) by {
                o.lemma_amp(k);
                self.lemma_amp(k);
                crate::complex::lemma_mul_minus_one(o.amp(k));
                crate::complex::lemma_sub_is_add_neg(self.amp(k), o.amp(k));
            }
        }
        r
    }

    /// Every amplitude multiplied by `c`.
    pub fn scale(&self, c: Complex) -> (r: Tensor)
        requires
            self.wf(),
            c.wf(),
        ensures
            r.wf(),
            r.arity == self.arity,
            forall|k: Seq<Label>| #[trigger] r.amp(k) == c.mul_spec(self.amp(k)),
    {
        let mut r = Tensor::zeros(self.arity);
        r.add_scaled(self, c);
        proof {
            assert forall|k: Seq<Label>| #[trigger] r.amp(k) == c.mul_spec(self.amp(k)) by {
                crate::complex::lemma_mul_wf(c, self.amp(k));
                self.lemma_amp(k);
                lemma_add_zero(c.mul_spec(self.amp(k)));
            }
        }
        r
    }

    /// Whether both tensors have the same amplitude at every key.
    pub fn equals(&self, o: &Tensor) -> (r: bool)
        requires
            self.wf(),
            o.wf(),
        ensures
            r == self.same(o),
    {
        if self.arity != o.arity {
            return false;
        }
        let mut j: usize = 0;
        while j < self.entries.len()
            invariant
                self.wf(),
                o.wf(),
                self.arity == o.arity,
                j <= self.entries@.len(),
                forall|t: int| 0 <= t < j ==> o.amp((#[trigger] self.entries@[t]).0@) == self.entries@[t].1,
            decreases self.entries.len() - j,
        {
            if o.get(&self.entries[j].0) != self.entries[j].1 {
                proof {
                    lemma_lookup_at(self.entries@, j as int);
                    let k = self.entries@[j as int].0@;
                    assert(self.amp(k) != o.amp(k));
                }
                return false;
            }
            j = j + 1;
        }
        let mut j: usize = 0;
        while j < o.entries.len()
            invariant
                self.wf(),
                o.wf(),
                self.arity == o.arity,
                j <= o.entries@.len(),
                forall|t: int| 0 <= t < self.entries@.len() ==> o.amp((#[trigger] self.entries@[t]).0@) == self.entries@[t].1,
                forall|t: int| 0 <= t < j ==> self.amp((#[trigger] o.entries@[t]).0@) == o.entries@[t].1,
            decreases o.entries.len() - j,
        {
            if self.get(&o.entries[j].0) != o.entries[j].1 {
                proof {
                    lemma_lookup_at(o.entries@, j as int);
                }
                return false;
            }
            j = j + 1;
        }
        proof {
            assert forall|k: Seq<Label>| #[trigger] self.amp(k) == o.amp(k) by {
                lemma_lookup_cases(self.entries@, k);
                lemma_lookup_cases(o.entries@, k);
            }
        }
        true
    }
}


/// Concatenation of keys splits back at the length of the first part.
pub proof fn lemma_concat_injective(a: Seq<Label>, b: Seq<Label>, c: Seq<Label>, d: Seq<Label>)
    requires
        a.len() == c.len(),
    ensures
        (a + b == c + d) <==> (a == c && b == d),
{
    if a + b == c + d {
        assert(a =~= (a + b).take(a.len() as int));
        assert(c =~= (c + d).take(c.len() as int));
        assert(b =~= (a + b).skip(a.len() as int));
        assert(d =~= (c + d).skip(c.len() as int));
    }
}

/// The key `a` followed by the key `b`.
pub fn concat_keys(a: &Vec<Label>, b: &Vec<Label>) -> (r: Vec<Label>)
    ensures
        r@ == a@ + b@,
{
    let mut r = copy_key(a);
    let mut j: usize = 0;
    while j < b.len()
        invariant
            j <= b@.len(),
            r@ == a@ + b@.take(j as int),
        decreases b.len() - j,
    {
        r.push(b[j]);
        j = j + 1;
        assert(r@ =~= a@ + b@.take(j as int));
    }
    assert(b@.take(j as int) =~= b@);
    r
}

/// `perm` lists each of the slots `0..n` once.
pub open spec fn is_permutation(perm: Seq<usize>, n: nat) -> bool {
    &&& perm.len() == n
    &&& forall|j: int| 0 <= j < perm.len() ==> #[trigger] perm[j] < n
    &&& forall|t: usize| t < n ==> #[trigger] perm.contains(t)
}

/// The key whose slot `j` holds slot `perm[j]` of `k`.
pub open spec fn permuted(k: Seq<Label>, perm: Seq<usize>) -> Seq<Label> {
    Seq::new(perm.len(), |j: int| k[perm[j] as int])
}

/// Reordering slots by a permutation loses nothing.
pub proof fn lemma_permuted_injective(a: Seq<Label>, b: Seq<Label>, perm: Seq<usize>)
    requires
        is_permutation(perm, a.len()),
        a.len() <= usize::MAX,
        b.len() == a.len(),
        permuted(a, perm) == permuted(b, perm),
    ensures
        a == b,
{
    assert forall|t: int| 0 <= t < a.len() implies a[t] == b[t] by {
        let tu = t as usize;
        assert(perm.contains(tu));
        let j = choose|j: int| 0 <= j < perm.len() && perm[j] == tu;
        assert(perm[j] as int == t);
        assert(permuted(a, perm)[j] == a[perm[j] as int]);
        assert(permuted(b, perm)[j] == b[perm[j] as int]);
    }
    assert(a =~= b);
}

/// Σ over the entries `(k, v)` of `s` of `v · amp(o, k)`.
pub open spec fn dot_sum(s: Seq<(Vec<Label>, Complex)>, o: Tensor) -> Complex
    decreases s.len(),
{
    if s.len() == 0 {
        Complex::zero_spec()
    } else {
        dot_sum(s.drop_last(), o).add_spec(s.last().1.mul_spec(o.amp(s.last().0@)))
    }
}

/// Σ over the entries `(k, v)` of `s` of |v|², modulo p.
pub open spec fn abs2_sum(s: Seq<(Vec<Label>, Complex)>) -> int
    decreases s.len(),
{
    if s.len() == 0 {
        0
    } else {
        crate::complex::md(abs2_sum(s.drop_last()) + s.last().1.abs2_spec())
    }
}

impl Tensor {
    /// The tensor of arity zero holding `z` at the empty key.
    pub fn scalar(z: Complex) -> (r: Tensor)
        requires
            z.wf(),
        ensures
            r.wf(),
            r.arity == 0,
            r.amp(seq![]) == z,
    {
        let mut r = Tensor::zeros(0);
        let k: Vec<Label> = Vec::new();
        r.accumulate(&k, z);
        proof {
            lemma_add_zero(z);
        }
        r
    }

    /// The tensor that inserts each pair of `values` in turn: a later pair
    /// replaces an earlier one with the same key, and zero amplitudes are
    /// skipped.
    pub fn from_values(arity: usize, values: &Vec<(Vec<Label>, Complex)>) -> (r: Tensor)
        requires
            forall|j: int|
                0 <= j < values@.len() ==> (#[trigger] values@[j]).0@.len() == arity
                    && values@[j].1.wf(),
        ensures
            r.wf(),
            r.arity == arity,
            forall|k: Seq<Label>| #[trigger] r.amp(k) == last_nonzero(values@, k),
    {
        let mut r = Tensor::zeros(arity);
        let mut j: usize = 0;
        while j < values.len()
            invariant
                r.wf(),
                r.arity == arity,
                j <= values@.len(),
                forall|t: int|
                    0 <= t < values@.len() ==> (#[trigger] values@[t]).0@.len() == arity
                        && values@[t].1.wf(),
                forall|k: Seq<Label>| #[trigger] r.amp(k) == last_nonzero(values@.take(j as int), k),
            decreases values.len() - j,
        {
            r.insert(&values[j].0, values[j].1);
            proof {
                assert(values@.take(j + 1).drop_last() =~= values@.take(j as int));
            }
            j = j + 1;
        }
        assert(values@.take(j as int) =~= values@);
        r
    }

    /// The entrywise complex conjugate.
    pub fn conj(&self) -> (r: Tensor)
        requires
            self.wf(),
        ensures
            r.wf(),
            r.arity == self.arity,
            forall|k: Seq<Label>| #[trigger] r.amp(k) == self.amp(k).conj_spec(),
    {
        let ghost s = self.entries@;
        let mut r = Tensor::zeros(self.arity);
        let mut j: usize = 0;
        while j < self.entries.len()
            invariant
                self.wf(),
                r.wf(),
                s == self.entries@,
                r.arity == self.arity,
                j <= s.len(),
                forall|k: Seq<Label>| #[trigger] r.amp(k) == lookup(s.take(j as int), k).conj_spec(),
            decreases self.entries.len() - j,
        {
            let v = self.entries[j].1.conj();
            let ghost kj = s[j as int].0@;
            r.accumulate(&self.entries[j].0, v);
            proof {
                assert forall|k: Seq<Label>| #[trigger] r.amp(k) == lookup(s.take(j + 1), k).conj_spec() by {
                    lemma_lookup_step(s, j as int, k);
                    if k == kj {
                        lemma_prefix_absent(s, j as int);
                        lemma_add_zero(v);
                    }
                }
            }
            j = j + 1;
        }
        assert(s.take(j as int) =~= s);
        r
    }

    /// Σ over keys of `self(k) · o(k)`, the bilinear product (no
    /// conjugation).
    pub fn dot(&self, o: &Tensor) -> (r: Complex)
        requires
            self.wf(),
            o.wf(),
        ensures
            r == dot_sum(self.entries@, *o),
            r.wf(),
    {
        let both = BothMapsIter::new(self, o);
        let ghost s = both.entries@;
        let mut acc = Complex::zero();
        let mut j: usize = 0;
        while j < both.entries.len()
            invariant
                s == both.entries@,
                forall|t: int| 0 <= t < s.len() ==> (#[trigger] s[t]).1.wf() && s[t].2.wf(),
                j <= s.len(),
                acc == pair_sum(s.take(j as int)),
                acc.wf(),
            decreases both.entries.len() - j,
        {
            let term = both.entries[j].1.mul(&both.entries[j].2);
            acc = acc.add(&term);
            proof {
                assert(s.take(j + 1).drop_last() =~= s.take(j as int));
            }
            j = j + 1;
        }
        assert(s.take(j as int) =~= s);
        acc
    }

    /// Σ over keys of |self(k)|², a residue modulo p.
    pub fn norm_squared(&self) -> (r: u32)
        requires
            self.wf(),
        ensures
            r as int == abs2_sum(self.entries@),
    {
        let ghost s = self.entries@;
        let mut acc: u32 = 0;
        let mut j: usize = 0;
        while j < self.entries.len()
            invariant
                self.wf(),
                s == self.entries@,
                j <= s.len(),
                acc as int == abs2_sum(s.take(j as int)),
                acc < crate::complex::MODULUS,
            decreases self.entries.len() - j,
        {
            let a = self.entries[j].1.abs2();
            acc = ((acc as u64 + a as u64) % crate::complex::MODULUS) as u32;
            proof {
                assert(s.take(j + 1).drop_last() =~= s.take(j as int));
            }
            j = j + 1;
        }
        assert(s.take(j as int) =~= s);
        acc
    }

    /// The outer product: amplitude `self(k1) · o(k2)` at key `k1 ++ k2`.
    pub fn outer(&self, o: &Tensor) -> (r: Tensor)
        requires
            self.wf(),
            o.wf(),
            self.arity + o.arity <= usize::MAX,
        ensures
            r.wf(),
            r.arity == self.arity + o.arity,
            forall|k1: Seq<Label>, k2: Seq<Label>|
                k1.len() == self.arity && k2.len() == o.arity ==> #[trigger] r.amp(k1 + k2)
                    == self.amp(k1).mul_spec(o.amp(k2)),
    {
        let ghost s = self.entries@;
        let ghost t = o.entries@;
        let mut r = Tensor::zeros(self.arity + o.arity);
        let mut i: usize = 0;
        proof {
            assert forall|k1: Seq<Label>, k2: Seq<Label>|
                k1.len() == self.arity && k2.len() == o.arity implies #[trigger] r.amp(k1 + k2)
                    == lookup(s.take(0), k1).mul_spec(o.amp(k2)) by {
                crate::complex::lemma_mul_zero(o.amp(k2));
            }
        }
        while i < self.entries.len()
            invariant
                self.wf(),
                o.wf(),
                r.wf(),
                s == self.entries@,
                t == o.entries@,
                r.arity == self.arity + o.arity,
                i <= s.len(),
                forall|k1: Seq<Label>, k2: Seq<Label>|
                    k1.len() == self.arity && k2.len() == o.arity ==> #[trigger] r.amp(k1 + k2)
                        == lookup(s.take(i as int), k1).mul_spec(o.amp(k2)),
            decreases self.entries.len() - i,
        {
            let ghost ki = s[i as int].0@;
            let ghost vi = s[i as int].1;
            proof {
                lemma_prefix_absent(s, i as int);
                assert forall|k1: Seq<Label>, k2: Seq<Label>|
                    k1.len() == self.arity && k2.len() == o.arity implies #[trigger] r.amp(k1 + k2)
                        == if k1 == ki {
                        vi.mul_spec(lookup(t.take(0), k2))
                    } else {
                        lookup(s.take(i as int), k1).mul_spec(o.amp(k2))
                    } by {
                    if k1 == ki {
                        crate::complex::lemma_mul_zero(o.amp(k2));
                        crate::complex::lemma_mul_zero(vi);
                    }
                }
            }
            let mut j: usize = 0;
            while j < o.entries.len()
                invariant
                    self.wf(),
                    o.wf(),
                    r.wf(),
                    s == self.entries@,
                    t == o.entries@,
                    r.arity == self.arity + o.arity,
                    i < s.len(),
                    j <= t.len(),
                    ki == s[i as int].0@,
                    vi == s[i as int].1,
                    forall|k1: Seq<Label>, k2: Seq<Label>|
                        k1.len() == self.arity && k2.len() == o.arity ==> #[trigger] r.amp(k1 + k2)
                            == if k1 == ki {
                            vi.mul_spec(lookup(t.take(j as int), k2))
                        } else {
                            lookup(s.take(i as int), k1).mul_spec(o.amp(k2))
                        },
                decreases o.entries.len() - j,
            {
                let key = concat_keys(&self.entries[i].0, &o.entries[j].0);
                let term = self.entries[i].1.mul(&o.entries[j].1);
                let ghost kj = t[j as int].0@;
                r.accumulate(&key, term);
                proof {
                    assert forall|k1: Seq<Label>, k2: Seq<Label>|
                        k1.len() == self.arity && k2.len() == o.arity implies #[trigger] r.amp(k1 + k2)
                            == if k1 == ki {
                            vi.mul_spec(lookup(t.take(j + 1), k2))
                        } else {
                            lookup(s.take(i as int), k1).mul_spec(o.amp(k2))
                        } by {
                        lemma_concat_injective(k1, k2, ki, kj);
                        lemma_lookup_step(t, j as int, k2);
                        if k1 == ki && k2 == kj {
                            lemma_prefix_absent(t, j as int);
                            crate::complex::lemma_mul_zero(vi);
                            crate::complex::lemma_mul_wf(vi, t[j as int].1);
                            lemma_add_zero(term);
                        }
                    }
                }
                j = j + 1;
            }
            proof {
                assert(t.take(j as int) =~= t);
                assert forall|k1: Seq<Label>, k2: Seq<Label>|
                    k1.len() == self.arity && k2.len() == o.arity implies #[trigger] r.amp(k1 + k2)
                        == lookup(s.take(i + 1), k1).mul_spec(o.amp(k2)) by {
                    lemma_lookup_step(s, i as int, k1);
                }
            }
            i = i + 1;
        }
        assert(s.take(i as int) =~= s);
        r
    }

    /// The tensor whose key `permuted(k, perm)` holds the amplitude of key
    /// `k`: slot `j` of the new key is slot `perm[j]` of the old one.
    pub fn permute(&self, perm: &Vec<usize>) -> (r: Tensor)
        requires
            self.wf(),
            is_permutation(perm@, self.arity as nat),
        ensures
            r.wf(),
            r.arity == self.arity,
            forall|k: Seq<Label>|
                k.len() == self.arity ==> #[trigger] r.amp(permuted(k, perm@)) == self.amp(k),
    {
        let ghost s = self.entries@;
        let mut r = Tensor::zeros(self.arity);
        let mut j: usize = 0;
        while j < self.entries.len()
            invariant
                self.wf(),
                r.wf(),
                s == self.entries@,
                r.arity == self.arity,
                is_permutation(perm@, self.arity as nat),
                j <= s.len(),
                forall|k: Seq<Label>|
                    k.len() == self.arity ==> #[trigger] r.amp(permuted(k, perm@)) == lookup(
                        s.take(j as int),
                        k,
                    ),
            decreases self.entries.len() - j,
        {
            let key = permute_key(&self.entries[j].0, perm);
            let ghost kj = s[j as int].0@;
            r.accumulate(&key, self.entries[j].1);
            proof {
                assert forall|k: Seq<Label>|
                    k.len() == self.arity implies #[trigger] r.amp(permuted(k, perm@)) == lookup(
                        s.take(j + 1),
                        k,
                    ) by {
                    lemma_lookup_step(s, j as int, k);
                    if permuted(k, perm@) == permuted(kj, perm@) {
                        lemma_permuted_injective(k, kj, perm@);
                        lemma_prefix_absent(s, j as int);
                        lemma_add_zero(s[j as int].1);
                    }
                }
            }
            j = j + 1;
        }
        assert(s.take(j as int) =~= s);
        r
    }
}

/// `k` with its slots reordered by `perm`.
pub fn permute_key(k: &Vec<Label>, perm: &Vec<usize>) -> (r: Vec<Label>)
    requires
        forall|j: int| 0 <= j < perm@.len() ==> #[trigger] perm@[j] < k@.len(),
    ensures
        r@ == permuted(k@, perm@),
{
    let mut r: Vec<Label> = Vec::new();
    let mut j: usize = 0;
    while j < perm.len()
        invariant
            forall|t: int| 0 <= t < perm@.len() ==> #[trigger] perm@[t] < k@.len(),
            j <= perm@.len(),
            r@ =~= permuted(k@, perm@.take(j as int)),
        decreases perm.len() - j,
    {
        r.push(k[perm[j]]);
        j = j + 1;
        assert(r@ =~= permuted(k@, perm@.take(j as int)));
    }
    assert(perm@.take(j as int) =~= perm@);
    r
}

/// The amplitude that inserting the pairs of `s` in turn leaves at `k`:
/// the last nonzero one paired with `k`, or zero.
pub open spec fn last_nonzero(s: Seq<(Vec<Label>, Complex)>, k: Seq<Label>) -> Complex
    decreases s.len(),
{
    if s.len() == 0 {
        Complex::zero_spec()
    } else if s.last().0@ == k && !s.last().1.is_zero_spec() {
        s.last().1
    } else {
        last_nonzero(s.drop_last(), k)
    }
}


/// A tensor minus itself has no entries: `t.sub(t)` is empty.
pub proof fn lemma_sub_self_is_empty(t: Tensor, d: Tensor)
    requires
        t.wf(),
        d.wf(),
        forall|k: Seq<Label>| #[trigger] d.amp(k) == t.amp(k).sub_spec(t.amp(k)),
    ensures
        d.entries@.len() == 0,
{
    if d.entries@.len() > 0 {
        lemma_lookup_at(d.entries@, 0);
        let k = d.entries@[0].0@;
        crate::complex::lemma_sub_self(t.amp(k));
        assert(d.amp(k) == t.amp(k).sub_spec(t.amp(k)));
    }
}

/// Adding `t2` and then subtracting it gives back `t`: for `s = t.add(t2)`
/// and `d = s.sub(t2)`, `d` has the amplitudes of `t`.
pub proof fn lemma_add_then_sub(t: Tensor, t2: Tensor, s: Tensor, d: Tensor)
    requires
        t.wf(),
        t2.wf(),
        t.arity == t2.arity,
        s.arity == t.arity,
        d.arity == t.arity,
        forall|k: Seq<Label>| #[trigger] s.amp(k) == t.amp(k).add_spec(t2.amp(k)),
        forall|k: Seq<Label>| #[trigger] d.amp(k) == s.amp(k).sub_spec(t2.amp(k)),
    ensures
        d.same(&t),
{
    assert forall|k: Seq<Label>| #[trigger] d.amp(k) == t.amp(k) by {
        t.lemma_amp(k);
        t2.lemma_amp(k);
        assert(s.amp(k) == t.amp(k).add_spec(t2.amp(k)));
        crate::complex::lemma_add_sub_cancel(t.amp(k), t2.amp(k));
    }
}

/// The outer product is associative: with `ab = a.outer(b)`,
/// `ab_c = ab.outer(c)`, `bc = b.outer(c)` and `a_bc = a.outer(bc)`, the two
/// results have the same amplitude at every key.
pub proof fn lemma_outer_assoc(
    a: Tensor,
    b: Tensor,
    c: Tensor,
    ab: Tensor,
    ab_c: Tensor,
    bc: Tensor,
    a_bc: Tensor,
)
    requires
        ab_c.wf(),
        a_bc.wf(),
        ab.arity == a.arity + b.arity,
        bc.arity == b.arity + c.arity,
        ab_c.arity == ab.arity + c.arity,
        a_bc.arity == a.arity + bc.arity,
        forall|k1: Seq<Label>, k2: Seq<Label>|
            k1.len() == a.arity && k2.len() == b.arity ==> #[trigger] ab.amp(k1 + k2) == a.amp(
                k1,
            ).mul_spec(b.amp(k2)),
        forall|k1: Seq<Label>, k2: Seq<Label>|
            k1.len() == b.arity && k2.len() == c.arity ==> #[trigger] bc.amp(k1 + k2) == b.amp(
                k1,
            ).mul_spec(c.amp(k2)),
        forall|k1: Seq<Label>, k2: Seq<Label>|
            k1.len() == ab.arity && k2.len() == c.arity ==> #[trigger] ab_c.amp(k1 + k2)
                == ab.amp(k1).mul_spec(c.amp(k2)),
        forall|k1: Seq<Label>, k2: Seq<Label>|
            k1.len() == a.arity && k2.len() == bc.arity ==> #[trigger] a_bc.amp(k1 + k2)
                == a.amp(k1).mul_spec(bc.amp(k2)),
    ensures
        ab_c.same(&a_bc),
{
    assert forall|k: Seq<Label>| #[trigger] ab_c.amp(k) == a_bc.amp(k) by {
        ab_c.lemma_amp(k);
        a_bc.lemma_amp(k);
        if k.len() == ab_c.arity {
            let k1 = k.take(a.arity as int);
            let k2 = k.subrange(a.arity as int, (a.arity + b.arity) as int);
            let k3 = k.skip((a.arity + b.arity) as int);
            assert((k1 + k2) + k3 =~= k);
            assert(k1 + (k2 + k3) =~= k);
            assert(ab_c.amp((k1 + k2) + k3) == ab.amp(k1 + k2).mul_spec(c.amp(k3)));
            assert(a_bc.amp(k1 + (k2 + k3)) == a.amp(k1).mul_spec(bc.amp(k2 + k3)));
            crate::complex::lemma_mul_assoc(a.amp(k1), b.amp(k2), c.amp(k3));
        }
    }
}

} // verus!

verus! {

/// The slot order that swaps the second and third of four consecutive
/// blocks of lengths `a`, `b`, `c` and `d`.
pub open spec fn swap_middle(a: nat, b: nat, c: nat, d: nat) -> Seq<usize> {
    Seq::new(
        a + b + c + d,
        |j: int|
            if j < a {
                j as usize
            } else if j < a + c {
                (j + b) as usize
            } else if j < a + c + b {
                (j - c) as usize
            } else {
                j as usize
            },
    )
}

/// Swapping the two middle blocks is a permutation, and moves them.
pub proof fn lemma_swap_middle(w: Seq<Label>, x: Seq<Label>, y: Seq<Label>, z: Seq<Label>)
    requires
        w.len() + x.len() + y.len() + z.len() <= usize::MAX,
    ensures
        is_permutation(
            swap_middle(w.len(), x.len(), y.len(), z.len()),
            w.len() + x.len() + y.len() + z.len(),
        ),
        permuted(w + x + y + z, swap_middle(w.len(), x.len(), y.len(), z.len())) == w + y + x + z,
{
    let (a, b, c, d) = (w.len(), x.len(), y.len(), z.len());
    let n = a + b + c + d;
    let perm = swap_middle(a, b, c, d);
    assert forall|t: usize| t < n implies #[trigger] perm.contains(t) by {
        let j: int = if t < a {
            t as int
        } else if t < a + b {
            t + c
        } else if t < a + b + c {
            t - b
        } else {
            t as int
        };
        assert(perm[j] == t);
    }
    let k = w + x + y + z;
    assert(permuted(k, perm) =~= w + y + x + z);
}

/// The slots of four consecutive blocks with the middle two swapped.
pub fn swap_middle_perm(a: usize, b: usize, c: usize, d: usize) -> (r: Vec<usize>)
    requires
        a + b + c + d <= usize::MAX,
    ensures
        r@ == swap_middle(a as nat, b as nat, c as nat, d as nat),
{
    let n = a + b + c + d;
    let mut r: Vec<usize> = Vec::new();
    let mut j: usize = 0;
    while j < n
        invariant
            n == a + b + c + d,
            j <= n,
            r@ =~= swap_middle(a as nat, b as nat, c as nat, d as nat).take(j as int),
        decreases n - j,
    {
        let v = if j < a {
            j
        } else if j < a + c {
            j + b
        } else if j < a + c + b {
            j - c
        } else {
            j
        };
        r.push(v);
        j = j + 1;
        assert(r@ =~= swap_middle(a as nat, b as nat, c as nat, d as nat).take(j as int));
    }
    r
}


/// Σ over the triples `(k, v, w)` of `s` of `v · w`.
pub open spec fn pair_sum(s: Seq<(Vec<Label>, Complex, Complex)>) -> Complex
    decreases s.len(),
{
    if s.len() == 0 {
        Complex::zero_spec()
    } else {
        pair_sum(s.drop_last()).add_spec(s.last().1.mul_spec(s.last().2))
    }
}

/// Whether `k` is the key of one of the first `upto` entries of `s`.
pub open spec fn key_among(s: Seq<(Vec<Label>, Complex)>, upto: int, k: Seq<Label>) -> bool {
    exists|u: int| 0 <= u < upto && #[trigger] s[u].0@ == k
}

/// The keys that two tensors both hold, with the amplitude of each.
pub struct BothMapsIter {
    /// `(k, a(k), b(k))`, in the order of the entries of `a`.
    pub entries: Vec<(Vec<Label>, Complex, Complex)>,
}

impl BothMapsIter {
    /// The keys held by both `a` and `b`.
    pub fn new(a: &Tensor, b: &Tensor) -> (r: BothMapsIter)
        requires
            a.wf(),
            b.wf(),
        ensures
            forall|j: int|
                0 <= j < r.entries@.len() ==> {
                    &&& (#[trigger] r.entries@[j]).1 == a.amp(r.entries@[j].0@)
                    &&& r.entries@[j].2 == b.amp(r.entries@[j].0@)
                    &&& r.entries@[j].1.wf()
                    &&& r.entries@[j].2.wf()
                    &&& !r.entries@[j].1.is_zero_spec()
                    &&& !r.entries@[j].2.is_zero_spec()
                },
            forall|k: Seq<Label>|
                !a.amp(k).is_zero_spec() && !b.amp(k).is_zero_spec() ==> exists|j: int|
                    0 <= j < r.entries@.len() && (#[trigger] r.entries@[j]).0@ == k,
            forall|x: int, y: int|
                0 <= x < r.entries@.len() && 0 <= y < r.entries@.len() && x != y ==> (#[trigger] r.entries@[x]).0@
                    != (#[trigger] r.entries@[y]).0@,
            pair_sum(r.entries@) == dot_sum(a.entries@, *b),
    {
        let ghost s = a.entries@;
        let mut entries: Vec<(Vec<Label>, Complex, Complex)> = Vec::new();
        let mut j: usize = 0;
        while j < a.entries.len()
            invariant
                a.wf(),
                b.wf(),
                s == a.entries@,
                j <= s.len(),
                forall|t: int|
                    0 <= t < entries@.len() ==> {
                        &&& (#[trigger] entries@[t]).1 == a.amp(entries@[t].0@)
                        &&& entries@[t].2 == b.amp(entries@[t].0@)
                        &&& entries@[t].1.wf()
                        &&& entries@[t].2.wf()
                        &&& !entries@[t].1.is_zero_spec()
                        &&& !entries@[t].2.is_zero_spec()
                    },
                forall|t: int|
                    0 <= t < j && !b.amp((#[trigger] s[t]).0@).is_zero_spec() ==> exists|u: int|
                        0 <= u < entries@.len() && (#[trigger] entries@[u]).0@ == s[t].0@,
                pair_sum(entries@) == dot_sum(s.take(j as int), *b),
                forall|x: int, y: int|
                    0 <= x < entries@.len() && 0 <= y < entries@.len() && x != y ==> (#[trigger] entries@[x]).0@
                        != (#[trigger] entries@[y]).0@,
                forall|x: int| 0 <= x < entries@.len() ==> key_among(s, j as int, (#[trigger] entries@[x]).0@),
            decreases a.entries.len() - j,
        {
            let w = b.get(&a.entries[j].0);
            let v = a.entries[j].1;
            proof {
                lemma_lookup_at(s, j as int);
                assert(s.take(j + 1).drop_last() =~= s.take(j as int));
                lemma_dot_sum_wf(s.take(j as int), *b);
            }
            let ghost before = entries@;
            if !w.is_zero() {
                entries.push((copy_key(&a.entries[j].0), v, w));
                proof {
                    assert(entries@.drop_last() =~= before);
                    assert forall|x: int| 0 <= x < entries@.len() implies key_among(s, j + 1, (#[trigger] entries@[x]).0@) by {
                        if x < before.len() {
                            assert(entries@[x] == before[x]);
                            let u = choose|u: int| 0 <= u < j && #[trigger] s[u].0@ == before[x].0@;
                            assert(s[u].0@ == entries@[x].0@);
                        } else {
                            assert(s[j as int].0@ == entries@[x].0@);
                        }
                    }
                    assert forall|x: int, y: int|
                        0 <= x < entries@.len() && 0 <= y < entries@.len() && x != y implies (#[trigger] entries@[x]).0@
                            != (#[trigger] entries@[y]).0@ by {
                        if x < before.len() && y < before.len() {
                            assert(entries@[x] == before[x] && entries@[y] == before[y]);
                        } else if x < before.len() {
                            assert(entries@[x] == before[x]);
                            let u = choose|u: int| 0 <= u < j && #[trigger] s[u].0@ == before[x].0@;
                            assert(s[u].0@ != s[j as int].0@);
                        } else {
                            assert(entries@[y] == before[y]);
                            let u = choose|u: int| 0 <= u < j && #[trigger] s[u].0@ == before[y].0@;
                            assert(s[u].0@ != s[j as int].0@);
                        }
                    }
                    assert forall|t: int|
                        0 <= t < j + 1 && !b.amp((#[trigger] s[t]).0@).is_zero_spec() implies exists|u: int|
                            0 <= u < entries@.len() && (#[trigger] entries@[u]).0@ == s[t].0@ by {
                        if t < j {
                            let u = choose|u: int| 0 <= u < before.len() && (#[trigger] before[u]).0@ == s[t].0@;
                            assert(entries@[u] == before[u]);
                        } else {
                            assert(entries@[before.len() as int].0@ == s[t].0@);
                        }
                    }
                }
            } else {
                proof {
                    assert forall|x: int| 0 <= x < entries@.len() implies key_among(s, j + 1, (#[trigger] entries@[x]).0@) by {
                        let u = choose|u: int| 0 <= u < j && #[trigger] s[u].0@ == entries@[x].0@;
                    }
                    crate::complex::lemma_mul_zero(v);
                    lemma_add_zero(dot_sum(s.take(j as int), *b));
                }
            }
            j = j + 1;
        }
        proof {
            assert(s.take(j as int) =~= s);
        }
        let r = BothMapsIter { entries };
        proof {
            assert forall|k: Seq<Label>|
                !a.amp(k).is_zero_spec() && !b.amp(k).is_zero_spec() implies exists|u: int|
                    0 <= u < r.entries@.len() && (#[trigger] r.entries@[u]).0@ == k by {
                lemma_lookup_cases(s, k);
                let t = choose|t: int| 0 <= t < s.len() && #[trigger] s[t].0@ == k && lookup(s, k) == s[t].1;
                assert(!b.amp(s[t].0@).is_zero_spec());
                let u = choose|u: int| 0 <= u < r.entries@.len() && (#[trigger] r.entries@[u]).0@ == s[t].0@;
                assert(r.entries@[u].0@ == k);
            }
        }
        r
    }
}

/// Partial sums are reduced.
proof fn lemma_dot_sum_wf(s: Seq<(Vec<Label>, Complex)>, o: Tensor)
    ensures
        dot_sum(s, o).wf(),
    decreases s.len(),
{
    if s.len() > 0 {
        lemma_dot_sum_wf(s.drop_last(), o);
        crate::complex::lemma_mul_wf(dot_sum(s.drop_last(), o), s.last().1.mul_spec(o.amp(s.last().0@)));
    }
}


impl Tensor {
    /// Applies `f` to every stored amplitude; an amplitude that `f` sends
    /// to zero is dropped, and keys without an amplitude stay empty.
    pub fn map_values<F: Fn(Complex) -> Complex>(&self, f: F) -> (r: Tensor)
        requires
            self.wf(),
            forall|x: Complex| x.wf() ==> #[trigger] f.requires((x,)),
            forall|x: Complex, y: Complex| #[trigger] f.ensures((x,), y) ==> y.wf(),
        ensures
            r.wf(),
            r.arity == self.arity,
            forall|k: Seq<Label>|
                self.amp(k) == Complex::zero_spec() ==> #[trigger] r.amp(k) == Complex::zero_spec(),
            forall|k: Seq<Label>|
                self.amp(k) != Complex::zero_spec() ==> f.ensures((self.amp(k),), #[trigger] r.amp(k)),
    {
        let ghost s = self.entries@;
        let mut r = Tensor::zeros(self.arity);
        let mut j: usize = 0;
        while j < self.entries.len()
            invariant
                self.wf(),
                r.wf(),
                s == self.entries@,
                r.arity == self.arity,
                j <= s.len(),
                forall|x: Complex| x.wf() ==> #[trigger] f.requires((x,)),
                forall|x: Complex, y: Complex| #[trigger] f.ensures((x,), y) ==> y.wf(),
                forall|k: Seq<Label>|
                    lookup(s.take(j as int), k) == Complex::zero_spec() ==> #[trigger] r.amp(k)
                        == Complex::zero_spec(),
                forall|k: Seq<Label>|
                    lookup(s.take(j as int), k) != Complex::zero_spec() ==> f.ensures(
                        (lookup(s.take(j as int), k),),
                        #[trigger] r.amp(k),
                    ),
            decreases self.entries.len() - j,
        {
            let y = f(self.entries[j].1);
            let ghost kj = s[j as int].0@;
            let ghost before = r;
            r.accumulate(&self.entries[j].0, y);
            proof {
                assert forall|k: Seq<Label>| lookup(s.take(j + 1), k) == Complex::zero_spec() implies #[trigger] r.amp(k)
                    == Complex::zero_spec() by {
                    lemma_lookup_step(s, j as int, k);
                    if k == kj {
                        assert(!s[j as int].1.is_zero_spec());
                    } else {
                        assert(lookup(s.take(j as int), k) == Complex::zero_spec());
                        assert(before.amp(k) == Complex::zero_spec());
                    }
                }
                assert forall|k: Seq<Label>|
                    lookup(s.take(j + 1), k) != Complex::zero_spec() implies f.ensures(
                        (lookup(s.take(j + 1), k),),
                        #[trigger] r.amp(k),
                    ) by {
                    lemma_lookup_step(s, j as int, k);
                    if k == kj {
                        lemma_prefix_absent(s, j as int);
                        assert(before.amp(k) == Complex::zero_spec());
                        lemma_add_zero(y);
                    } else {
                        assert(before.amp(k) == r.amp(k));
                    }
                }
            }
            j = j + 1;
        }
        assert(s.take(j as int) =~= s);
        r
    }
}

} // verus!
