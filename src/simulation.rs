//! The simulation engine: photons move one cell per step along their
//! direction, then every element acts on the photons in its cell.
//!
//! A state of `n` photons is a tensor over keys of `3n` slots: for each
//! photon its cell, its direction and its polarization.
use crate::complex::Complex;
use crate::dimensions::{fits, Axis, Coord, Direction, Label};
use crate::elements::{element_amp, is_local, uniform_amp, Element};
use crate::labels::{count, interleave, pick};
use crate::operator::Operator;
use crate::complex::{lemma_add_zero, lemma_mul_zero};
use crate::tensor::{lemma_lookup_at, lemma_lookup_cases, lemma_lookup_step, lemma_prefix_absent, lookup, Tensor};
use vstd::prelude::*;

verus! {

/// The axes of `n` photons: cell, direction and polarization for each.
pub open spec fn photon_schema(n: nat) -> Seq<Axis> {
    Seq::new(
        3 * n,
        |j: int|
            if j % 3 == 0 {
                Axis::Coord
            } else if j % 3 == 1 {
                Axis::Direction
            } else {
                Axis::Polarization
            },
    )
}

/// The mask of the three slots of photon `p` among `n`.
pub open spec fn photon_mask(n: nat, p: nat) -> Seq<bool> {
    Seq::new(3 * n, |j: int| 3 * p <= j < 3 * p + 3)
}

/// The cell one step from `c` in direction `d`.
pub open spec fn step_coord(c: Coord, d: Direction) -> Coord {
    match d {
        Direction::Right => Coord { x: (c.x + 1) as u16, y: c.y },
        Direction::Up => Coord { x: c.x, y: (c.y - 1) as u16 },
        Direction::Left => Coord { x: (c.x - 1) as u16, y: c.y },
        Direction::Down => Coord { x: c.x, y: (c.y + 1) as u16 },
    }
}

/// Whether that step stays on a grid of `width` × `height` cells.
pub open spec fn can_step(c: Coord, d: Direction, width: u16, height: u16) -> bool {
    match d {
        Direction::Right => c.x + 1 < width,
        Direction::Up => c.y >= 1,
        Direction::Left => c.x >= 1,
        Direction::Down => c.y + 1 < height,
    }
}

/// The label of slot `j` after every photon of `k` moved one step.
pub open spec fn moved_label(k: Seq<Label>, j: int) -> Label {
    if j % 3 == 0 && j + 1 < k.len() {
        match (k[j], k[j + 1]) {
            (Label::Coord(c), Label::Direction(d)) => Label::Coord(step_coord(c, d)),
            _ => k[j],
        }
    } else {
        k[j]
    }
}

/// The key after every photon moved one step.
pub open spec fn moved_key(k: Seq<Label>) -> Seq<Label> {
    Seq::new(k.len(), |j: int| moved_label(k, j))
}

/// Whether the photon whose cell is in slot `j` stays on the grid.
pub open spec fn photon_stays(k: Seq<Label>, j: int, width: u16, height: u16) -> bool {
    match (k[j], k[j + 1]) {
        (Label::Coord(c), Label::Direction(d)) => can_step(c, d, width, height),
        _ => false,
    }
}

/// Whether `k` is a key of `n` photons that all stay on the grid.
pub open spec fn stays(k: Seq<Label>, n: nat, width: u16, height: u16) -> bool {
    &&& fits(photon_schema(n), k)
    &&& forall|p: int| 0 <= p < n ==> #[trigger] photon_stays(k, 3 * p, width, height)
}

/// Moving keeps distinct keys distinct.
pub proof fn lemma_moved_injective(a: Seq<Label>, b: Seq<Label>, n: nat, width: u16, height: u16)
    requires
        stays(a, n, width, height),
        stays(b, n, width, height),
        moved_key(a) == moved_key(b),
    ensures
        a == b,
{
    assert forall|j: int| 0 <= j < a.len() implies a[j] == b[j] by {
        assert(moved_key(a)[j] == moved_key(b)[j]);
        if j % 3 != 0 {
            assert(moved_key(a)[j] == moved_label(a, j));
            assert(moved_key(b)[j] == moved_label(b, j));
        }
        if j % 3 == 0 {
            let p = j / 3;
            assert(3 * p == j);
            assert(j + 1 < a.len());
            assert(photon_schema(n)[j] == Axis::Coord);
            assert(photon_schema(n)[j + 1] == Axis::Direction);
            assert(a[j].axis_spec() == Axis::Coord && b[j].axis_spec() == Axis::Coord);
            assert(a[j + 1].axis_spec() == Axis::Direction && b[j + 1].axis_spec() == Axis::Direction);
            assert(photon_stays(a, 3 * p, width, height));
            assert(photon_stays(b, 3 * p, width, height));
            assert((j + 1) % 3 == 1);
            assert(moved_key(a)[j + 1] == moved_label(a, j + 1));
            assert(moved_key(b)[j + 1] == moved_label(b, j + 1));
            assert(moved_key(a)[j + 1] == moved_key(b)[j + 1]);
            assert(a[j + 1] == b[j + 1]);
            assert(moved_key(a)[j] == moved_label(a, j));
            assert(moved_key(b)[j] == moved_label(b, j));
            match (a[j], b[j], a[j + 1]) {
                (Label::Coord(ca), Label::Coord(cb), Label::Direction(d)) => {
                    assert(step_coord(ca, d) == step_coord(cb, d));
                    assert(ca == cb);
                },
                _ => {},
            }
        }
    }
    assert(a =~= b);
}

/// The cell in the first slot of a key, if that slot holds one.
pub open spec fn cell_of(k: Seq<Label>) -> Coord {
    match k[0] {
        Label::Coord(c) => c,
        _ => Coord { x: 0, y: 0 },
    }
}

/// Whether one of the first `upto` elements stands in cell `c`.
pub open spec fn occupied(elements: Seq<(Coord, Element)>, c: Coord, upto: int) -> bool {
    exists|t: int| 0 <= t < upto && (#[trigger] elements[t]).0 == c
}

/// A grid of cells, some holding an element.
pub struct Grid {
    pub width: u16,
    pub height: u16,
    /// Each cell at most once.
    pub elements: Vec<(Coord, Element)>,
}

impl Grid {
    /// No cell is listed twice and every element has a defined effect.
    pub open spec fn wf(&self) -> bool {
        &&& forall|a: int, b: int|
            0 <= a < self.elements@.len() && 0 <= b < self.elements@.len() && a != b
                ==> #[trigger] self.elements@[a].0 != #[trigger] self.elements@[b].0
        &&& forall|a: int| 0 <= a < self.elements@.len() ==> (#[trigger] self.elements@[a]).1.has_operator()
    }

    /// An empty grid of `width` × `height` cells.
    pub fn new(width: u16, height: u16) -> (r: Grid)
        ensures
            r.wf(),
            r.width == width,
            r.height == height,
            r.elements@.len() == 0,
    {
        Grid { width, height, elements: Vec::new() }
    }

    /// Puts `element` in cell `coord`, replacing what was there.
    pub fn insert(&mut self, coord: Coord, element: Element)
        requires
            old(self).wf(),
            element.has_operator(),
        ensures
            final(self).wf(),
            final(self).width == old(self).width,
            final(self).height == old(self).height,
            exists|a: int| 0 <= a < final(self).elements@.len() && #[trigger] final(self).elements@[a] == (coord, element),
            forall|a: int| 0 <= a < old(self).elements@.len() && (#[trigger] old(self).elements@[a]).0 != coord
                ==> final(self).elements@.contains(old(self).elements@[a]),
            forall|a: int| 0 <= a < final(self).elements@.len() && (#[trigger] final(self).elements@[a]).0 != coord
                ==> old(self).elements@.contains(final(self).elements@[a]),
    {
        let ghost before = self.elements@;
        let mut j: usize = 0;
        while j < self.elements.len()
            invariant
                self.elements@ == before,
                before == old(self).elements@,
                old(self).wf(),
                element.has_operator(),
                self.width == old(self).width,
                self.height == old(self).height,
                j <= before.len(),
                forall|t: int| 0 <= t < j ==> (#[trigger] before[t]).0 != coord,
            decreases self.elements.len() - j,
        {
            if self.elements[j].0 == coord {
                self.elements.set(j, (coord, element));
                proof {
                    let now = self.elements@;
                    assert(before[j as int].0 == coord);
                    assert(now[j as int] == (coord, element));
                    assert forall|a: int| 0 <= a < now.len() && a != j implies now[a] == before[a] by {}
                    assert forall|a: int| 0 <= a < before.len() && (#[trigger] before[a]).0 != coord
                        implies now.contains(before[a]) by {
                        assert(now[a] == before[a]);
                    }
                    assert forall|a: int| 0 <= a < now.len() && (#[trigger] now[a]).0 != coord
                        implies before.contains(now[a]) by {
                        assert(now[a] == before[a]);
                    }
                    assert forall|a: int, b: int|
                        0 <= a < now.len() && 0 <= b < now.len() && a != b
                            implies #[trigger] now[a].0 != #[trigger] now[b].0 by {
                        assert(now[a].0 == before[a].0 && now[b].0 == before[b].0);
                    }
                    assert forall|a: int| 0 <= a < now.len() implies (#[trigger] now[a]).1.has_operator() by {
                        if a != j {
                            assert(now[a] == before[a]);
                        }
                    }
                }
                return;
            }
            j = j + 1;
        }
        self.elements.push((coord, element));
        proof {
            let now = self.elements@;
            assert(now[before.len() as int] == (coord, element));
            assert forall|a: int| 0 <= a < before.len() && (#[trigger] before[a]).0 != coord
                implies now.contains(before[a]) by {
                assert(now[a] == before[a]);
            }
            assert forall|a: int| 0 <= a < now.len() && (#[trigger] now[a]).0 != coord
                implies before.contains(now[a]) by {
                assert(now[a] == before[a]);
            }
            assert forall|a: int, b: int|
                0 <= a < now.len() && 0 <= b < now.len() && a != b
                    implies #[trigger] now[a].0 != #[trigger] now[b].0 by {
                if a < before.len() {
                    assert(now[a] == before[a]);
                }
                if b < before.len() {
                    assert(now[b] == before[b]);
                }
            }
            assert forall|a: int| 0 <= a < now.len() implies (#[trigger] now[a]).1.has_operator() by {
                if a < before.len() {
                    assert(now[a] == before[a]);
                }
            }
        }
    }
}

/// The engine for one grid: its size, and the change that the elements
/// make to a photon in their cells.
pub struct Simulation {
    pub width: u16,
    pub height: u16,
    /// Σ over occupied cells `c` of `indicator(c) ⊗ (element − identity)`,
    /// over (cell, direction, polarization).
    pub localized_ops_diff: Operator,
}

impl Simulation {
    pub open spec fn wf(&self) -> bool {
        &&& self.localized_ops_diff.wf()
        &&& self.localized_ops_diff.n_in == 3
        &&& self.localized_ops_diff.n_out == 3
    }

    /// The engine for `grid`. Elements act only in their own cells: the
    /// change never moves a photon between cells, and is zero in empty
    /// cells.
    pub fn new(grid: &Grid) -> (r: Simulation)
        requires
            grid.wf(),
        ensures
            r.wf(),
            r.width == grid.width,
            r.height == grid.height,
            forall|c1: Coord, c2: Coord, i: Seq<Label>, o: Seq<Label>|
                i.len() == 2 && o.len() == 2 && (c1 != c2 || !occupied(grid.elements@, c1, grid.elements@.len() as int))
                    ==> #[trigger] r.localized_ops_diff.amp(seq![Label::Coord(c1)] + i, seq![Label::Coord(c2)] + o)
                    == Complex::zero_spec(),
            forall|a: int, i: Seq<Label>, o: Seq<Label>|
                0 <= a < grid.elements@.len() && i.len() == 2 && o.len() == 2 ==> #[trigger] r.localized_ops_diff.amp(
                    seq![Label::Coord(grid.elements@[a].0)] + i,
                    seq![Label::Coord(grid.elements@[a].0)] + o,
                ) == element_amp(grid.elements@[a].1, i, o).sub_spec(uniform_amp(Complex::one_spec(), i, o)),
            forall|i: Seq<Label>, o: Seq<Label>|
                i.len() == 3 && o.len() == 3 && #[trigger] r.localized_ops_diff.amp(i, o) != Complex::zero_spec()
                    ==> occupied(grid.elements@, cell_of(i), grid.elements@.len() as int) && i[0] == Label::Coord(
                    cell_of(i),
                ) && o[0] == i[0],
    {
        let schema = vec![Axis::Direction, Axis::Polarization];
        let identity = Operator::identity(&schema);
        proof {
            assert(schema@ =~= seq![Axis::Direction, Axis::Polarization]);
        }
        let mut diff = Operator::new(3, 3);
        let mut j: usize = 0;
        while j < grid.elements.len()
            invariant
                grid.wf(),
                diff.wf(),
                diff.n_in == 3,
                diff.n_out == 3,
                identity.wf(),
                identity.n_in == 2,
                identity.n_out == 2,
                j <= grid.elements@.len(),
                forall|c1: Coord, c2: Coord, i: Seq<Label>, o: Seq<Label>|
                    i.len() == 2 && o.len() == 2 && (c1 != c2 || !occupied(grid.elements@, c1, j as int))
                        ==> #[trigger] diff.amp(seq![Label::Coord(c1)] + i, seq![Label::Coord(c2)] + o)
                        == Complex::zero_spec(),
                forall|i: Seq<Label>, o: Seq<Label>|
                    i.len() == 2 && o.len() == 2 ==> #[trigger] identity.amp(i, o) == uniform_amp(Complex::one_spec(), i, o),
                forall|a: int, i: Seq<Label>, o: Seq<Label>|
                    0 <= a < j && i.len() == 2 && o.len() == 2 ==> #[trigger] diff.amp(
                        seq![Label::Coord(grid.elements@[a].0)] + i,
                        seq![Label::Coord(grid.elements@[a].0)] + o,
                    ) == element_amp(grid.elements@[a].1, i, o).sub_spec(uniform_amp(Complex::one_spec(), i, o)),
                forall|i: Seq<Label>, o: Seq<Label>|
                    i.len() == 3 && o.len() == 3 && #[trigger] diff.amp(i, o) != Complex::zero_spec()
                        ==> occupied(grid.elements@, cell_of(i), j as int) && i[0] == Label::Coord(cell_of(i))
                        && o[0] == i[0],
            decreases grid.elements.len() - j,
        {
            let (coord, element) = grid.elements[j];
            let local = element.operator().sub(&identity);
            let cell_key = vec![Label::Coord(coord)];
            assert(cell_key@ =~= seq![Label::Coord(coord)]);
            let cell = Operator::indicator(&cell_key);
            let term = cell.outer(&local);
            let ghost before = diff;
            diff = diff.add(&term);
            proof {
                assert forall|c1: Coord, c2: Coord, i: Seq<Label>, o: Seq<Label>|
                    i.len() == 2 && o.len() == 2 && (c1 != c2 || !occupied(grid.elements@, c1, j + 1))
                        implies #[trigger] diff.amp(seq![Label::Coord(c1)] + i, seq![Label::Coord(c2)] + o)
                        == Complex::zero_spec() by {
                    let (k1, k2) = (seq![Label::Coord(c1)], seq![Label::Coord(c2)]);
                    assert(term.amp(k1 + i, k2 + o) == cell.amp(k1, k2).mul_spec(local.amp(i, o)));
                    if k1 == seq![Label::Coord(coord)] && k2 == seq![Label::Coord(coord)] {
                        assert(k1[0] == Label::Coord(coord));
                        assert(k2[0] == Label::Coord(coord));
                        assert(grid.elements@[j as int].0 == coord);
                    }
                    assert(before.amp(k1 + i, k2 + o) == Complex::zero_spec());
                    lemma_mul_zero(local.amp(i, o));
                    lemma_add_zero(Complex::zero_spec());
                }
                assert forall|a: int, i: Seq<Label>, o: Seq<Label>|
                    0 <= a < j + 1 && i.len() == 2 && o.len() == 2 implies #[trigger] diff.amp(
                        seq![Label::Coord(grid.elements@[a].0)] + i,
                        seq![Label::Coord(grid.elements@[a].0)] + o,
                    ) == element_amp(grid.elements@[a].1, i, o).sub_spec(uniform_amp(Complex::one_spec(), i, o)) by {
                    let c = grid.elements@[a].0;
                    let k = seq![Label::Coord(c)];
                    assert(term.amp(k + i, k + o) == cell.amp(k, k).mul_spec(local.amp(i, o)));
                    assert(local.amp(i, o) == element_amp(element, i, o).sub_spec(identity.amp(i, o)));
                    crate::complex::lemma_mul_wf(element_amp(element, i, o), identity.amp(i, o));
                    before.t.lemma_amp(k + i + (k + o));
                    if a == j {
                        assert(!occupied(grid.elements@, c, j as int)) by {
                            if occupied(grid.elements@, c, j as int) {
                                let t = choose|t: int| 0 <= t < j && (#[trigger] grid.elements@[t]).0 == c;
                            }
                        }
                        assert(before.amp(k + i, k + o) == Complex::zero_spec());
                        assert(c == coord);
                        assert(cell.amp(k, k) == Complex::one_spec());
                        assert(element == grid.elements@[a].1);
                        assert(diff.amp(k + i, k + o) == before.amp(k + i, k + o).add_spec(term.amp(k + i, k + o)));
                        crate::complex::lemma_mul_one(local.amp(i, o));
                        lemma_add_zero(local.amp(i, o));
                    } else {
                        assert(grid.elements@[a].0 != coord);
                        assert(k[0] != Label::Coord(coord));
                        assert(before.amp(k + i, k + o) == element_amp(grid.elements@[a].1, i, o).sub_spec(uniform_amp(Complex::one_spec(), i, o)));
                        lemma_mul_zero(local.amp(i, o));
                        crate::complex::lemma_mul_wf(element_amp(grid.elements@[a].1, i, o), uniform_amp(Complex::one_spec(), i, o));
                        lemma_add_zero(before.amp(k + i, k + o));
                    }
                }
            }
            proof {
                assert forall|i: Seq<Label>, o: Seq<Label>|
                    i.len() == 3 && o.len() == 3 && #[trigger] diff.amp(i, o) != Complex::zero_spec()
                        implies occupied(grid.elements@, cell_of(i), j + 1) && i[0] == Label::Coord(cell_of(i))
                        && o[0] == i[0] by {
                    let (i1, i2, o1, o2) = (i.take(1), i.skip(1), o.take(1), o.skip(1));
                    assert(i =~= i1 + i2);
                    assert(o =~= o1 + o2);
                    assert(term.amp(i1 + i2, o1 + o2) == cell.amp(i1, o1).mul_spec(local.amp(i2, o2)));
                    before.t.lemma_amp(i + o);
                    term.t.lemma_amp(i + o);
                    if before.amp(i, o) != Complex::zero_spec() {
                        let t = choose|t: int| 0 <= t < j && (#[trigger] grid.elements@[t]).0 == cell_of(i);
                        assert(0 <= t < j + 1 && grid.elements@[t].0 == cell_of(i));
                    } else if term.amp(i, o) != Complex::zero_spec() {
                        if !(i1 == cell_key@ && o1 == cell_key@) {
                            lemma_mul_zero(local.amp(i2, o2));
                        }
                        assert(i1[0] == i[0] && o1[0] == o[0]);
                        assert(cell_key@[0] == Label::Coord(coord));
                        assert(cell_of(i) == coord);
                        assert(grid.elements@[j as int].0 == coord);
                    } else {
                        lemma_add_zero(Complex::zero_spec());
                    }
                }
            }
            j = j + 1;
        }
        Simulation { width: grid.width, height: grid.height, localized_ops_diff: diff }
    }
}


/// `k` with every photon moved one step, or `None` when `k` is not a key of
/// `n` photons or one of them would leave the grid.
pub fn move_key(k: &Vec<Label>, n: usize, width: u16, height: u16) -> (r: Option<Vec<Label>>)
    requires
        k@.len() == 3 * n,
    ensures
        r is Some <==> stays(k@, n as nat, width, height),
        r matches Some(m) ==> m@ == moved_key(k@),
{
    let ghost schema = photon_schema(n as nat);
    let mut out: Vec<Label> = Vec::new();
    let mut j: usize = 0;
    while j < k.len()
        invariant
            k@.len() == 3 * n,
            schema == photon_schema(n as nat),
            j <= k@.len(),
            j % 3 == 0,
            out@ == moved_key(k@).take(j as int),
            forall|t: int| 0 <= t < j ==> (#[trigger] k@[t]).axis_spec() == schema[t],
            forall|p: int| 0 <= p && 3 * p < j ==> #[trigger] photon_stays(k@, 3 * p, width, height),
        decreases k.len() - j,
    {
        assert(j + 2 < k@.len());
        assert(schema[j as int] == Axis::Coord);
        assert(schema[j + 1] == Axis::Direction);
        assert(schema[j + 2] == Axis::Polarization);
        let stepped = match (k[j], k[j + 1]) {
            (Label::Coord(c), Label::Direction(d)) => {
                match d {
                    Direction::Right => if c.x as u32 + 1 < width as u32 {
                        Some(Coord { x: c.x + 1, y: c.y })
                    } else {
                        None
                    },
                    Direction::Up => if c.y >= 1 {
                        Some(Coord { x: c.x, y: c.y - 1 })
                    } else {
                        None
                    },
                    Direction::Left => if c.x >= 1 {
                        Some(Coord { x: c.x - 1, y: c.y })
                    } else {
                        None
                    },
                    Direction::Down => if c.y as u32 + 1 < height as u32 {
                        Some(Coord { x: c.x, y: c.y + 1 })
                    } else {
                        None
                    },
                }
            },
            _ => None,
        };
        let pol_ok = match k[j + 2] {
            Label::Polarization(_) => true,
            _ => false,
        };
        proof {
            assert(j as int == 3 * (j as int / 3));
        }
        match stepped {
            Some(c) => {
                if !pol_ok {
                    proof {
                        assert(k@[j + 2].axis_spec() != schema[j + 2]);
                    }
                    return None;
                }
                out.push(Label::Coord(c));
                out.push(k[j + 1]);
                out.push(k[j + 2]);
                proof {
                    assert(moved_key(k@)[j as int] == moved_label(k@, j as int));
                    assert(moved_key(k@)[j + 1] == moved_label(k@, j + 1));
                    assert(moved_key(k@)[j + 2] == moved_label(k@, j + 2));
                    assert((j + 1) % 3 == 1 && (j + 2) % 3 == 2);
                    assert(out@ =~= moved_key(k@).take(j + 3));
                    assert(photon_stays(k@, 3 * (j as int / 3), width, height));
                    assert forall|p: int| 0 <= p && 3 * p < j + 3 implies #[trigger] photon_stays(k@, 3 * p, width, height) by {
                        if 3 * p == j {
                        }
                    }
                }
                j = j + 3;
            },
            None => {
                proof {
                    let p = j as int / 3;
                    if fits(schema, k@) {
                        assert(k@[j as int].axis_spec() == Axis::Coord);
                        assert(k@[j + 1].axis_spec() == Axis::Direction);
                        assert(!photon_stays(k@, 3 * p, width, height));
                    }
                }
                return None;
            },
        }
    }
    proof {
        assert(moved_key(k@).take(j as int) =~= moved_key(k@));
        assert(fits(schema, k@));
    }
    Some(out)
}

impl Simulation {
    /// Moves every photon one step along its direction; a basis state in
    /// which some photon would leave the grid is dropped.
    pub fn propagate(&self, v: &Tensor, n: usize) -> (r: Tensor)
        requires
            v.wf(),
            v.arity == 3 * n,
        ensures
            r.wf(),
            r.arity == v.arity,
            forall|k: Seq<Label>|
                stays(k, n as nat, self.width, self.height) ==> #[trigger] r.amp(moved_key(k))
                    == v.amp(k),
            forall|m: Seq<Label>|
                #[trigger] r.amp(m) != Complex::zero_spec() ==> exists|k: Seq<Label>|
                    stays(k, n as nat, self.width, self.height) && #[trigger] moved_key(k) == m,
    {
        let ghost s = v.entries@;
        let ghost (w, h) = (self.width, self.height);
        let mut r = Tensor::zeros(v.arity);
        let mut j: usize = 0;
        while j < v.entries.len()
            invariant
                v.wf(),
                r.wf(),
                s == v.entries@,
                w == self.width,
                h == self.height,
                r.arity == v.arity,
                v.arity == 3 * n,
                j <= s.len(),
                forall|k: Seq<Label>|
                    stays(k, n as nat, w, h) ==> #[trigger] r.amp(moved_key(k)) == lookup(s.take(j as int), k),
                forall|m: Seq<Label>|
                    #[trigger] r.amp(m) != Complex::zero_spec() ==> exists|k: Seq<Label>|
                        stays(k, n as nat, w, h) && #[trigger] moved_key(k) == m,
            decreases v.entries.len() - j,
        {
            let ghost kj = s[j as int].0@;
            assert(v.entries@[j as int].0@.len() == v.arity);
            match move_key(&v.entries[j].0, n, self.width, self.height) {
                Some(m) => {
                    let ghost before = r;
                    r.accumulate(&m, v.entries[j].1);
                    proof {
                        assert forall|k: Seq<Label>|
                            stays(k, n as nat, w, h) implies #[trigger] r.amp(moved_key(k)) == lookup(
                                s.take(j + 1),
                                k,
                            ) by {
                            lemma_lookup_step(s, j as int, k);
                            if moved_key(k) == m@ {
                                lemma_moved_injective(k, kj, n as nat, w, h);
                                lemma_prefix_absent(s, j as int);
                                crate::complex::lemma_add_zero(s[j as int].1);
                                assert(before.amp(moved_key(k)) == lookup(s.take(j as int), k));
                            } else {
                                assert(before.amp(moved_key(k)) == lookup(s.take(j as int), k));
                            }
                        }
                        assert forall|x: Seq<Label>|
                            #[trigger] r.amp(x) != Complex::zero_spec() implies exists|k: Seq<Label>|
                                stays(k, n as nat, w, h) && #[trigger] moved_key(k) == x by {
                            if x == m@ {
                                assert(stays(kj, n as nat, w, h) && moved_key(kj) == x);
                            } else {
                                assert(before.amp(x) != Complex::zero_spec());
                            }
                        }
                    }
                },
                None => {
                    proof {
                        assert forall|k: Seq<Label>|
                            stays(k, n as nat, w, h) implies #[trigger] r.amp(moved_key(k)) == lookup(
                                s.take(j + 1),
                                k,
                            ) by {
                            lemma_lookup_step(s, j as int, k);
                        }
                    }
                },
            }
            j = j + 1;
        }
        proof {
            assert(s.take(j as int) =~= s);
        }
        r
    }
}


/// The mask of the slots `lo..hi` among `len`.
pub open spec fn window(len: nat, lo: int, hi: int) -> Seq<bool> {
    Seq::new(len, |j: int| lo <= j < hi)
}

/// A window of slots marks `hi − lo` of them.
pub proof fn lemma_window_count(len: nat, lo: int, hi: int)
    requires
        0 <= lo <= hi <= len,
    ensures
        count(window(len, lo, hi), true) == hi - lo,
        count(window(len, lo, hi), false) == len - (hi - lo),
    decreases len,
{
    if len > 0 {
        let w = window(len, lo, hi);
        if hi == len {
            if lo == len {
                lemma_window_count((len - 1) as nat, lo - 1, hi - 1);
                assert(w.drop_last() =~= window((len - 1) as nat, lo, hi));
                lemma_window_count_none((len - 1) as nat, lo, hi);
            } else {
                lemma_window_count((len - 1) as nat, lo, hi - 1);
                assert(w.drop_last() =~= window((len - 1) as nat, lo, hi - 1));
            }
        } else {
            lemma_window_count((len - 1) as nat, lo, hi);
            assert(w.drop_last() =~= window((len - 1) as nat, lo, hi));
        }
    }
}

/// A window starting at the end marks nothing.
proof fn lemma_window_count_none(len: nat, lo: int, hi: int)
    requires
        lo >= len,
    ensures
        count(window(len, lo, hi), true) == 0,
        count(window(len, lo, hi), false) == len,
    decreases len,
{
    if len > 0 {
        lemma_window_count_none((len - 1) as nat, lo, hi);
        assert(window(len, lo, hi).drop_last() =~= window((len - 1) as nat, lo, hi));
    }
}

/// The mask of the slots of photon `p` among `n`.
pub fn photon_mask_vec(n: usize, p: usize) -> (r: Vec<bool>)
    requires
        3 * n <= usize::MAX,
        p < n,
    ensures
        r@ == photon_mask(n as nat, p as nat),
        count(r@, true) == 3,
        count(r@, false) == 3 * n - 3,
{
    let mut r: Vec<bool> = Vec::new();
    let mut j: usize = 0;
    while j < 3 * n
        invariant
            3 * n <= usize::MAX,
            p < n,
            j <= 3 * n,
            r@ =~= photon_mask(n as nat, p as nat).take(j as int),
        decreases 3 * n - j,
    {
        r.push(3 * p <= j && j < 3 * p + 3);
        j = j + 1;
        assert(r@ =~= photon_mask(n as nat, p as nat).take(j as int));
    }
    proof {
        assert(r@ =~= window(3 * n as nat, 3 * p as int, 3 * p + 3));
        lemma_window_count(3 * n as nat, 3 * p as int, 3 * p + 3);
    }
    r
}

/// The change that `op` makes to photon `p` of `n` in the state with
/// amplitudes `f`, at key `k`.
pub open spec fn photon_change(
    op: Operator,
    f: spec_fn(Seq<Label>) -> Complex,
    n: nat,
    p: nat,
    k: Seq<Label>,
) -> Complex {
    let m = photon_mask(n, p);
    op.apply_at(pick(k, m, true), |i: Seq<Label>| f(interleave(m, i, pick(k, m, false))))
}

/// The amplitudes of `v` after photons `0..upto` have each interacted in
/// turn, each with the state its predecessors left.
pub open spec fn sequential(op: Operator, v: Tensor, n: nat, upto: nat) -> spec_fn(Seq<Label>) -> Complex
    decreases upto,
{
    if upto == 0 {
        |k: Seq<Label>| v.amp(k)
    } else {
        let f = sequential(op, v, n, (upto - 1) as nat);
        |k: Seq<Label>| f(k).add_spec(photon_change(op, f, n, (upto - 1) as nat, k))
    }
}

impl Simulation {
    /// The elements act on each photon of the state `v` in turn: photon
    /// `p` meets the state that photons `0..p` left, so photons in
    /// different cells are updated independently. Returns the new state
    /// and its difference from `v`.
    pub fn interact(&self, v: &Tensor, n: usize) -> (r: (Tensor, Tensor))
        requires
            self.wf(),
            v.wf(),
            v.arity == 3 * n,
        ensures
            r.0.wf(),
            r.1.wf(),
            r.0.arity == v.arity,
            r.1.arity == v.arity,
            forall|k: Seq<Label>|
                k.len() == 3 * n ==> #[trigger] r.0.amp(k) == sequential(self.localized_ops_diff, *v, n as nat, n as nat)(k),
            forall|k: Seq<Label>| #[trigger] r.1.amp(k) == r.0.amp(k).sub_spec(v.amp(k)),
            forall|k: Seq<Label>| #[trigger] r.0.amp(k) == v.amp(k).add_spec(r.1.amp(k)),
    {
        let op = &self.localized_ops_diff;
        let mut w = v.copy();
        let mut p: usize = 0;
        while p < n
            invariant
                self.wf(),
                v.wf(),
                w.wf(),
                *op == self.localized_ops_diff,
                v.arity == 3 * n,
                w.arity == v.arity,
                p <= n,
                forall|k: Seq<Label>|
                    k.len() == 3 * n ==> #[trigger] w.amp(k) == sequential(*op, *v, n as nat, p as nat)(k),
            decreases n - p,
        {
            let mask = photon_mask_vec(n, p);
            let change = op.mul_vec_partial(&w, &mask, &mask);
            let ghost old_w = w;
            w = w.add(&change);
            proof {
                let f = sequential(*op, *v, n as nat, p as nat);
                assert forall|k: Seq<Label>|
                    k.len() == 3 * n implies #[trigger] w.amp(k) == sequential(*op, *v, n as nat, (p + 1) as nat)(k) by {
                    let m = photon_mask(n as nat, p as nat);
                    let rest = pick(k, m, false);
                    let fw = |i: Seq<Label>| old_w.amp(interleave(m, i, rest));
                    let ff = |i: Seq<Label>| f(interleave(m, i, rest));
                    let ops = op.t.entries@;
                    crate::labels::lemma_pick_len(k, m, false);
                    assert forall|j: int| 0 <= j < ops.len() implies fw((#[trigger] ops[j]).0@.take(3)) == ff(
                        ops[j].0@.take(3),
                    ) by {
                        assert(op.t.entries@[j].0@.len() == op.t.arity);
                        crate::labels::lemma_select_join(m, ops[j].0@.take(3), rest);
                    }
                    crate::operator::lemma_row_sum_congruent(ops, 3, pick(k, m, true), fw, ff);
                    assert(change.amp(k) == photon_change(*op, f, n as nat, p as nat, k));
                }
            }
            p = p + 1;
        }
        let delta = w.sub(v);
        proof {
            assert forall|k: Seq<Label>| #[trigger] w.amp(k) == v.amp(k).add_spec(delta.amp(k)) by {
                w.lemma_amp(k);
                v.lemma_amp(k);
                crate::complex::lemma_sub_add_cancel(w.amp(k), v.amp(k));
            }
        }
        (w, delta)
    }
}

/// Probability that photon `photon_id` lost at `coord` during one step, as
/// a residue modulo p. A probability gained there (a negative loss −x)
/// shows as the residue p − x.
#[derive(Clone, Copy, Debug, PartialEq, Eq, Structural)]
pub struct Absorption {
    pub coord: Coord,
    pub photon_id: u32,
    pub probability: u32,
}

/// The cell of photon `p` in key `k`, if slot `3p` holds one.
pub open spec fn coord_of(k: Seq<Label>, p: int) -> Option<Coord> {
    if 0 <= 3 * p < k.len() {
        match k[3 * p] {
            Label::Coord(c) => Some(c),
            _ => None,
        }
    } else {
        None
    }
}

/// |before(k)|² − |before(k) + d|², modulo p: the probability that the
/// change `d` at key `k` removes.
pub open spec fn loss(before: Tensor, k: Seq<Label>, d: Complex) -> int {
    crate::complex::md(before.amp(k).abs2_spec() - before.amp(k).add_spec(d).abs2_spec())
}

/// Σ of the losses of the entries of `s` whose photon `p` is at `c`.
pub open spec fn absorbed(s: Seq<(Vec<Label>, Complex)>, before: Tensor, c: Coord, p: int) -> int
    decreases s.len(),
{
    if s.len() == 0 {
        0
    } else {
        crate::complex::md(
            absorbed(s.drop_last(), before, c, p) + if coord_of(s.last().0@, p) == Some(c) {
                loss(before, s.last().0@, s.last().1)
            } else {
                0
            },
        )
    }
}

/// The partial sum while entry `i` is being added, photon by photon.
pub open spec fn absorbed_upto(
    s: Seq<(Vec<Label>, Complex)>,
    before: Tensor,
    i: int,
    upto: int,
    c: Coord,
    p: int,
) -> int {
    crate::complex::md(
        absorbed(s.take(i), before, c, p) + if p < upto && coord_of(s[i].0@, p) == Some(c) {
            loss(before, s[i].0@, s[i].1)
        } else {
            0
        },
    )
}

/// Whether `x` is one of the first `upto` records of `acc`.
pub open spec fn listed(acc: Seq<Absorption>, upto: int, x: Absorption) -> bool {
    exists|u: int| 0 <= u < upto && #[trigger] acc[u] == x
}

/// Whether `acc` holds a record for `c` and photon `p`.
pub open spec fn has_record(acc: Seq<Absorption>, c: Coord, p: int) -> bool {
    exists|q: int| 0 <= q < acc.len() && (#[trigger] acc[q]).coord == c && acc[q].photon_id == p
}

/// The cell of photon `p` in key `k`, if slot `3p` holds one.
fn coord_at(k: &Vec<Label>, p: usize) -> (r: Option<Coord>)
    ensures
        r == coord_of(k@, p as int),
{
    if k.len() > 0 && p <= (k.len() - 1) / 3 {
        assert(3 * p <= k.len() - 1) by (nonlinear_arith)
            requires p <= (k.len() - 1) / 3, k.len() > 0;
        match k[3 * p] {
            Label::Coord(c) => Some(c),
            _ => None,
        }
    } else {
        proof {
            if k@.len() > 0 {
                let l = k@.len() - 1;
                assert(3 * p > l) by (nonlinear_arith)
                    requires p > l / 3, l >= 0;
            }
        }
        None
    }
}

/// The index of the record for `c` and photon `p`, if there is one.
fn find_record(acc: &Vec<Absorption>, c: Coord, p: u32) -> (r: Option<usize>)
    ensures
        r matches Some(q) ==> q < acc@.len() && acc@[q as int].coord == c && acc@[q as int].photon_id == p,
        r is None ==> !has_record(acc@, c, p as int),
{
    let mut q: usize = 0;
    while q < acc.len()
        invariant
            q <= acc@.len(),
            forall|t: int| 0 <= t < q ==> !((#[trigger] acc@[t]).coord == c && acc@[t].photon_id == p),
        decreases acc.len() - q,
    {
        if acc[q].coord == c && acc[q].photon_id == p {
            return Some(q);
        }
        q = q + 1;
    }
    None
}

/// The probability that each photon lost at each cell between the state
/// `before` and `before + delta`: one record per cell and photon whose
/// total is nonzero.
pub fn absorptions(before: &Tensor, delta: &Tensor, n: u32) -> (r: Vec<Absorption>)
    requires
        before.wf(),
        delta.wf(),
    ensures
        forall|q: int|
            0 <= q < r@.len() ==> {
                &&& (#[trigger] r@[q]).photon_id < n
                &&& r@[q].probability == absorbed(delta.entries@, *before, r@[q].coord, r@[q].photon_id as int)
                &&& r@[q].probability != 0
            },
        forall|a: int, b: int|
            0 <= a < r@.len() && 0 <= b < r@.len() && a != b ==> !(#[trigger] r@[a].coord == #[trigger] r@[b].coord
                && r@[a].photon_id == r@[b].photon_id),
        forall|c: Coord, p: int|
            0 <= p < n && #[trigger] absorbed(delta.entries@, *before, c, p) != 0 ==> has_record(r@, c, p),
{
    let ghost s = delta.entries@;
    let modulus = crate::complex::MODULUS;
    let mut acc: Vec<Absorption> = Vec::new();
    let mut i: usize = 0;
    while i < delta.entries.len()
        invariant
            before.wf(),
            delta.wf(),
            s == delta.entries@,
            modulus == crate::complex::MODULUS,
            i <= s.len(),
            forall|q: int|
                0 <= q < acc@.len() ==> {
                    &&& (#[trigger] acc@[q]).photon_id < n
                    &&& acc@[q].probability == absorbed(s.take(i as int), *before, acc@[q].coord, acc@[q].photon_id as int)
                },
            forall|a: int, b: int|
                0 <= a < acc@.len() && 0 <= b < acc@.len() && a != b ==> !(#[trigger] acc@[a].coord
                    == #[trigger] acc@[b].coord && acc@[a].photon_id == acc@[b].photon_id),
            forall|c: Coord, p: int|
                0 <= p < n && #[trigger] absorbed(s.take(i as int), *before, c, p) != 0 ==> has_record(acc@, c, p),
        decreases delta.entries.len() - i,
    {
        let old_value = before.get(&delta.entries[i].0);
        let new_value = old_value.add(&delta.entries[i].1);
        let lost = ((old_value.abs2() as u64 + (modulus - new_value.abs2() as u64)) % modulus) as u32;
        proof {
            vstd::arithmetic::div_mod::lemma_mod_multiples_vanish(
                1,
                old_value.abs2_spec() - new_value.abs2_spec(),
                modulus as int,
            );
            assert(lost as int == loss(*before, s[i as int].0@, s[i as int].1));
            assert forall|c: Coord, p: int|
                #[trigger] absorbed_upto(s, *before, i as int, 0, c, p) == absorbed(s.take(i as int), *before, c, p) by {
                lemma_absorbed_range(s.take(i as int), *before, c, p);
                vstd::arithmetic::div_mod::lemma_small_mod(
                    absorbed(s.take(i as int), *before, c, p) as nat,
                    modulus as nat,
                );
            }
        }
        let mut p: u32 = 0;
        while p < n
            invariant
                before.wf(),
                delta.wf(),
                s == delta.entries@,
                modulus == crate::complex::MODULUS,
                i < s.len(),
                p <= n,
                lost as int == loss(*before, s[i as int].0@, s[i as int].1),
                forall|q: int|
                    0 <= q < acc@.len() ==> {
                        &&& (#[trigger] acc@[q]).photon_id < n
                        &&& acc@[q].probability == absorbed_upto(s, *before, i as int, p as int, acc@[q].coord, acc@[q].photon_id as int)
                    },
                forall|a: int, b: int|
                    0 <= a < acc@.len() && 0 <= b < acc@.len() && a != b ==> !(#[trigger] acc@[a].coord
                        == #[trigger] acc@[b].coord && acc@[a].photon_id == acc@[b].photon_id),
                forall|c: Coord, q: int|
                    0 <= q < n && #[trigger] absorbed_upto(s, *before, i as int, p as int, c, q) != 0 ==> has_record(acc@, c, q),
            decreases n - p,
        {
            let ghost acc0 = acc@;
            proof {
                lemma_absorbed_upto_step(s, *before, i as int, p as int, lost as int);
            }
            let here = coord_at(&delta.entries[i].0, p as usize);
            if here.is_some() && lost != 0 {
                let c = here.unwrap();
                match find_record(&acc, c, p) {
                    Some(q) => {
                        let total = ((acc[q].probability as u64 + lost as u64) % modulus) as u32;
                        acc.set(q, Absorption { coord: c, photon_id: p, probability: total });
                        proof {
                            assert forall|t: int| 0 <= t < acc@.len() implies {
                                &&& (#[trigger] acc@[t]).photon_id < n
                                &&& acc@[t].probability == absorbed_upto(s, *before, i as int, p + 1, acc@[t].coord, acc@[t].photon_id as int)
                            } by {
                                if t != q {
                                    assert(acc@[t] == acc0[t]);
                                    assert(!(acc0[t].coord == c && acc0[t].photon_id == p));
                                }
                            }
                            assert forall|a: int, b: int|
                                0 <= a < acc@.len() && 0 <= b < acc@.len() && a != b implies !(#[trigger] acc@[a].coord
                                    == #[trigger] acc@[b].coord && acc@[a].photon_id == acc@[b].photon_id) by {
                                assert(acc@[a].coord == acc0[a].coord && acc@[a].photon_id == acc0[a].photon_id);
                                assert(acc@[b].coord == acc0[b].coord && acc@[b].photon_id == acc0[b].photon_id);
                            }
                            assert forall|c2: Coord, q2: int|
                                0 <= q2 < n && #[trigger] absorbed_upto(s, *before, i as int, p + 1, c2, q2) != 0
                                implies has_record(acc@, c2, q2) by {
                                if c2 == c && q2 == p {
                                    assert(acc@[q as int].coord == c2 && acc@[q as int].photon_id == q2);
                                } else {
                                    assert(absorbed_upto(s, *before, i as int, p as int, c2, q2) != 0);
                                    let u = choose|u: int| 0 <= u < acc0.len() && (#[trigger] acc0[u]).coord == c2 && acc0[u].photon_id == q2;
                                    assert(acc@[u].coord == c2 && acc@[u].photon_id == q2);
                                }
                            }
                        }
                    },
                    None => {
                        acc.push(Absorption { coord: c, photon_id: p, probability: lost });
                        proof {
                            assert(absorbed_upto(s, *before, i as int, p as int, c, p as int) == 0);
                            vstd::arithmetic::div_mod::lemma_small_mod(lost as nat, modulus as nat);
                            assert forall|t: int| 0 <= t < acc@.len() implies {
                                &&& (#[trigger] acc@[t]).photon_id < n
                                &&& acc@[t].probability == absorbed_upto(s, *before, i as int, p + 1, acc@[t].coord, acc@[t].photon_id as int)
                            } by {
                                if t < acc0.len() {
                                    assert(acc@[t] == acc0[t]);
                                    if acc0[t].coord == c && acc0[t].photon_id == p {
                                        assert(has_record(acc0, c, p as int));
                                    }
                                }
                            }
                            assert forall|a: int, b: int|
                                0 <= a < acc@.len() && 0 <= b < acc@.len() && a != b implies !(#[trigger] acc@[a].coord
                                    == #[trigger] acc@[b].coord && acc@[a].photon_id == acc@[b].photon_id) by {
                                if a < acc0.len() {
                                    assert(acc@[a] == acc0[a]);
                                }
                                if b < acc0.len() {
                                    assert(acc@[b] == acc0[b]);
                                }
                                if a == acc0.len() && b < acc0.len() {
                                    if acc0[b].coord == c && acc0[b].photon_id == p {
                                        assert(has_record(acc0, c, p as int));
                                    }
                                }
                                if b == acc0.len() && a < acc0.len() {
                                    if acc0[a].coord == c && acc0[a].photon_id == p {
                                        assert(has_record(acc0, c, p as int));
                                    }
                                }
                            }
                            assert forall|c2: Coord, q2: int|
                                0 <= q2 < n && #[trigger] absorbed_upto(s, *before, i as int, p + 1, c2, q2) != 0
                                implies has_record(acc@, c2, q2) by {
                                if c2 == c && q2 == p {
                                    assert(acc@[acc0.len() as int].coord == c2 && acc@[acc0.len() as int].photon_id == q2);
                                } else {
                                    assert(absorbed_upto(s, *before, i as int, p as int, c2, q2) != 0);
                                    let u = choose|u: int| 0 <= u < acc0.len() && (#[trigger] acc0[u]).coord == c2 && acc0[u].photon_id == q2;
                                    assert(acc@[u] == acc0[u]);
                                }
                            }
                        }
                    },
                }
            } else {
                proof {
                    assert forall|c2: Coord, q2: int|
                        #[trigger] absorbed_upto(s, *before, i as int, p + 1, c2, q2) == absorbed_upto(s, *before, i as int, p as int, c2, q2) by {
                        if q2 == p && coord_of(s[i as int].0@, p as int) == Some(c2) {
                            vstd::arithmetic::div_mod::lemma_small_mod(
                                absorbed_upto(s, *before, i as int, p as int, c2, q2) as nat,
                                modulus as nat,
                            );
                        }
                    }
                }
            }
            p = p + 1;
        }
        proof {
            assert(s.take(i + 1).drop_last() =~= s.take(i as int));
            assert(s.take(i + 1).last() == s[i as int]);
            assert forall|c: Coord, q: int|
                0 <= q < n implies #[trigger] absorbed(s.take(i + 1), *before, c, q) == absorbed_upto(s, *before, i as int, n as int, c, q) by {
            }
        }
        i = i + 1;
    }
    proof {
        assert(s.take(i as int) =~= s);
    }
    let mut r: Vec<Absorption> = Vec::new();
    let mut q: usize = 0;
    while q < acc.len()
        invariant
            q <= acc@.len(),
            forall|t: int|
                0 <= t < acc@.len() ==> {
                    &&& (#[trigger] acc@[t]).photon_id < n
                    &&& acc@[t].probability == absorbed(s, *before, acc@[t].coord, acc@[t].photon_id as int)
                },
            forall|a: int, b: int|
                0 <= a < acc@.len() && 0 <= b < acc@.len() && a != b ==> !(#[trigger] acc@[a].coord
                    == #[trigger] acc@[b].coord && acc@[a].photon_id == acc@[b].photon_id),
            forall|t: int| 0 <= t < r@.len() ==> listed(acc@, q as int, #[trigger] r@[t]),
            forall|a: int, b: int|
                0 <= a < r@.len() && 0 <= b < r@.len() && a != b ==> !(#[trigger] r@[a].coord
                    == #[trigger] r@[b].coord && r@[a].photon_id == r@[b].photon_id),
            forall|t: int| 0 <= t < r@.len() ==> (#[trigger] r@[t]).probability != 0,
            forall|u: int| 0 <= u < q && (#[trigger] acc@[u]).probability != 0 ==> r@.contains(acc@[u]),
        decreases acc.len() - q,
    {
        if acc[q].probability != 0 {
            let ghost r0 = r@;
            r.push(acc[q]);
            proof {
                assert forall|a: int, b: int|
                    0 <= a < r@.len() && 0 <= b < r@.len() && a != b implies !(#[trigger] r@[a].coord
                        == #[trigger] r@[b].coord && r@[a].photon_id == r@[b].photon_id) by {
                    if a < r0.len() && b < r0.len() {
                        assert(r@[a] == r0[a] && r@[b] == r0[b]);
                    } else if a < r0.len() {
                        assert(r@[a] == r0[a]);
                        assert(listed(acc@, q as int, r0[a]));
                        let u = choose|u: int| 0 <= u < q && #[trigger] acc@[u] == r0[a];
                    } else {
                        assert(r@[b] == r0[b]);
                        assert(listed(acc@, q as int, r0[b]));
                        let u = choose|u: int| 0 <= u < q && #[trigger] acc@[u] == r0[b];
                    }
                }
                assert forall|t: int| 0 <= t < r@.len() implies listed(acc@, q + 1, #[trigger] r@[t]) by {
                    if t < r0.len() {
                        assert(r@[t] == r0[t]);
                        assert(listed(acc@, q as int, r0[t]));
                        let u = choose|u: int| 0 <= u < q && #[trigger] acc@[u] == r0[t];
                        assert(acc@[u] == r@[t]);
                    } else {
                        assert(acc@[q as int] == r@[t]);
                    }
                }
                assert forall|u: int| 0 <= u < q + 1 && (#[trigger] acc@[u]).probability != 0 implies r@.contains(acc@[u]) by {
                    if u < q {
                        assert(r0.contains(acc@[u]));
                        let t = choose|t: int| 0 <= t < r0.len() && r0[t] == acc@[u];
                        assert(r@[t] == r0[t]);
                    } else {
                        assert(r@[r0.len() as int] == acc@[u]);
                    }
                }
            }
        }
        q = q + 1;
    }
    proof {
        assert forall|t: int| 0 <= t < r@.len() implies {
            &&& (#[trigger] r@[t]).photon_id < n
            &&& r@[t].probability == absorbed(delta.entries@, *before, r@[t].coord, r@[t].photon_id as int)
            &&& r@[t].probability != 0
        } by {
            assert(listed(acc@, q as int, r@[t]));
            let u = choose|u: int| 0 <= u < q && #[trigger] acc@[u] == r@[t];
        }
        assert forall|c: Coord, p: int|
            0 <= p < n && #[trigger] absorbed(delta.entries@, *before, c, p) != 0 implies has_record(r@, c, p) by {
            let u = choose|u: int| 0 <= u < acc@.len() && (#[trigger] acc@[u]).coord == c && acc@[u].photon_id == p;
            assert(r@.contains(acc@[u]));
            let t = choose|t: int| 0 <= t < r@.len() && r@[t] == acc@[u];
            assert(r@[t].coord == c && r@[t].photon_id == p);
        }
    }
    r
}

/// Totals are residues.
proof fn lemma_absorbed_range(s: Seq<(Vec<Label>, Complex)>, before: Tensor, c: Coord, p: int)
    ensures
        0 <= absorbed(s, before, c, p) < crate::complex::MODULUS,
    decreases s.len(),
{
    if s.len() > 0 {
        lemma_absorbed_range(s.drop_last(), before, c, p);
    }
}

/// Moving from photon `p` to `p + 1` adds the loss to the pair of photon
/// `p` and its cell only.
proof fn lemma_absorbed_upto_step(s: Seq<(Vec<Label>, Complex)>, before: Tensor, i: int, p: int, lost: int)
    requires
        0 <= i < s.len(),
        0 <= p,
        lost == loss(before, s[i].0@, s[i].1),
    ensures
        forall|c: Coord, q: int|
            #[trigger] absorbed_upto(s, before, i, p + 1, c, q) == if q == p && coord_of(s[i].0@, p) == Some(c) {
                crate::complex::md(absorbed_upto(s, before, i, p, c, q) + lost)
            } else {
                absorbed_upto(s, before, i, p, c, q)
            },
        forall|c: Coord, q: int| 0 <= #[trigger] absorbed_upto(s, before, i, p, c, q) < crate::complex::MODULUS,
{
    assert forall|c: Coord, q: int|
        #[trigger] absorbed_upto(s, before, i, p + 1, c, q) == if q == p && coord_of(s[i].0@, p) == Some(c) {
            crate::complex::md(absorbed_upto(s, before, i, p, c, q) + lost)
        } else {
            absorbed_upto(s, before, i, p, c, q)
        } by {
        if q == p && coord_of(s[i].0@, p) == Some(c) {
            let a = absorbed(s.take(i), before, c, q);
            lemma_absorbed_range(s.take(i), before, c, q);
            vstd::arithmetic::div_mod::lemma_small_mod(a as nat, crate::complex::MODULUS as nat);
        }
    }
}


impl Simulation {
    /// `r` is `v` with every photon moved one step, as `propagate` returns.
    pub open spec fn is_propagation(&self, v: Tensor, n: nat, r: Tensor) -> bool {
        &&& r.wf()
        &&& r.arity == v.arity
        &&& forall|k: Seq<Label>|
            stays(k, n, self.width, self.height) ==> #[trigger] r.amp(moved_key(k)) == v.amp(k)
        &&& forall|m: Seq<Label>|
            #[trigger] r.amp(m) != Complex::zero_spec() ==> exists|k: Seq<Label>|
                stays(k, n, self.width, self.height) && #[trigger] moved_key(k) == m
    }

    /// `next` and `delta` are what `interact` returns for `v`.
    pub open spec fn is_interaction(&self, v: Tensor, n: nat, next: Tensor, delta: Tensor) -> bool {
        &&& next.wf()
        &&& delta.wf()
        &&& next.arity == v.arity
        &&& delta.arity == v.arity
        &&& forall|k: Seq<Label>|
            k.len() == 3 * n ==> #[trigger] next.amp(k) == sequential(self.localized_ops_diff, v, n, n)(k)
        &&& forall|k: Seq<Label>| #[trigger] delta.amp(k) == next.amp(k).sub_spec(v.amp(k))
        &&& forall|k: Seq<Label>| #[trigger] next.amp(k) == v.amp(k).add_spec(delta.amp(k))
    }

    /// One step from `v`: the next state `next` and the absorptions `abs`
    /// that arise on the way.
    pub open spec fn is_step(&self, v: Tensor, n: nat, next: Tensor, abs: Seq<Absorption>) -> bool {
        exists|moved: Tensor, delta: Tensor|
            {
                &&& #[trigger] self.is_propagation(v, n, moved)
                &&& #[trigger] self.is_interaction(moved, n, next, delta)
                &&& is_absorption_list(moved, delta, n, abs)
            }
    }

    /// Propagates, then lets the elements act on every photon, and
    /// measures the probability lost at each cell.
    pub fn propagate_and_interact(&self, v: &Tensor, n: usize) -> (r: (Tensor, Vec<Absorption>))
        requires
            self.wf(),
            v.wf(),
            v.arity == 3 * n,
            n <= u32::MAX,
        ensures
            r.0.wf(),
            r.0.arity == v.arity,
            self.is_step(*v, n as nat, r.0, r.1@),
    {
        let moved = self.propagate(v, n);
        let (next, delta) = self.interact(&moved, n);
        let abs = absorptions(&moved, &delta, n as u32);
        proof {
            assert(self.is_propagation(*v, n as nat, moved));
            assert(self.is_interaction(moved, n as nat, next, delta));
            assert(is_absorption_list(moved, delta, n as nat, abs@));
        }
        (next, abs)
    }

    /// The frame sequence from `initial`, a state of `n` photons: it ends
    /// at once when `initial` holds no amplitude.
    pub fn simulate_iter(&self, initial: &Tensor, n: usize) -> (r: SimulateIter)
        requires
            initial.wf(),
            initial.arity == 3 * n,
        ensures
            r.photons == n,
            r.wf(),
            initial.entries@.len() == 0 ==> r.state is Done,
            initial.entries@.len() != 0 ==> (r.state matches SimulateState::Generating(v, a) && v.same(initial)
                && a@.len() == 0),
    {
        let state = if initial.is_empty() {
            SimulateState::Done
        } else {
            SimulateState::Generating(initial.copy(), Vec::new())
        };
        SimulateIter { photons: n, state }
    }

    /// The next frame: the current state with the absorptions that led to
    /// it. The sequence ends after a step that leaves no amplitude and
    /// produces no absorption.
    pub fn next_frame(&self, it: &mut SimulateIter) -> (r: Option<(Tensor, Vec<Absorption>)>)
        requires
            self.wf(),
            old(it).wf(),
            old(it).photons <= u32::MAX,
        ensures
            final(it).wf(),
            final(it).photons == old(it).photons,
            old(it).state is Done ==> r is None && final(it).state is Done,
            old(it).state matches SimulateState::Generating(v, a) ==> {
                &&& r == Some((v, a))
                &&& final(it).state matches SimulateState::Generating(nv, na) ==> self.is_step(
                    v,
                    old(it).photons as nat,
                    nv,
                    na@,
                ) && !(nv.entries@.len() == 0 && na@.len() == 0)
                &&& final(it).state is Done ==> self.ends_after(v, old(it).photons as nat)
            },
    {
        let mut state = SimulateState::Done;
        std::mem::swap(&mut state, &mut it.state);
        match state {
            SimulateState::Done => None,
            SimulateState::Generating(v, a) => {
                let (next, abs) = self.propagate_and_interact(&v, it.photons);
                if next.is_empty() && abs.len() == 0 {
                    it.state = SimulateState::Done;
                } else {
                    it.state = SimulateState::Generating(next, abs);
                }
                Some((v, a))
            },
        }
    }

    /// At most `max_frames` frames of the sequence from `initial`.
    pub fn simulate(&self, initial: &Tensor, n: usize, max_frames: usize) -> (r: Vec<(Tensor, Vec<Absorption>)>)
        requires
            self.wf(),
            initial.wf(),
            initial.arity == 3 * n,
            n <= u32::MAX,
        ensures
            r@.len() <= max_frames,
            max_frames > 0 && initial.entries@.len() != 0 ==> r@.len() > 0 && r@[0].0.same(initial)
                && r@[0].1@.len() == 0,
            initial.entries@.len() == 0 ==> r@.len() == 0,
            forall|t: int|
                0 <= t < r@.len() - 1 ==> #[trigger] self.is_step(r@[t].0, n as nat, r@[t + 1].0, r@[t + 1].1@),
            0 < r@.len() < max_frames ==> self.ends_after(r@.last().0, n as nat),
    {
        let mut it = self.simulate_iter(initial, n);
        let mut frames: Vec<(Tensor, Vec<Absorption>)> = Vec::new();
        let mut done = false;
        while frames.len() < max_frames && !done
            invariant
                done ==> frames@.len() > 0 || initial.entries@.len() == 0,
                self.wf(),
                it.wf(),
                it.photons == n,
                n <= u32::MAX,
                frames@.len() <= max_frames,
                initial.entries@.len() == 0 ==> frames@.len() == 0 && it.state is Done,
                frames@.len() == 0 && initial.entries@.len() != 0 ==> (it.state matches SimulateState::Generating(v, a)
                    && v.same(initial) && a@.len() == 0),
                frames@.len() > 0 && initial.entries@.len() != 0 ==> frames@[0].0.same(initial) && frames@[0].1@.len() == 0,
                forall|t: int|
                    0 <= t < frames@.len() - 1 ==> #[trigger] self.is_step(frames@[t].0, n as nat, frames@[t + 1].0, frames@[t + 1].1@),
                frames@.len() > 0 ==> (it.state matches SimulateState::Generating(v, a) ==> self.is_step(
                    frames@.last().0,
                    n as nat,
                    v,
                    a@,
                )),
                frames@.len() > 0 && it.state is Done ==> self.ends_after(frames@.last().0, n as nat),
                done ==> it.state is Done,
            decreases max_frames - frames.len(), if done { 0nat } else { 1nat },
        {
            let ghost before = frames@;
            let ghost st = it.state;
            match self.next_frame(&mut it) {
                Some(frame) => {
                    frames.push(frame);
                    proof {
                        assert(frames@.last() == frame);
                        assert forall|t: int|
                            0 <= t < frames@.len() - 1 implies #[trigger] self.is_step(frames@[t].0, n as nat, frames@[t + 1].0, frames@[t + 1].1@) by {
                            if t < before.len() - 1 {
                                assert(frames@[t] == before[t] && frames@[t + 1] == before[t + 1]);
                            } else {
                                assert(frames@[t] == before.last());
                            }
                        }
                    }
                },
                None => {
                    done = true;
                },
            }
        }
        frames
    }
}

impl Simulation {
    /// Whether the step from `v` leaves no amplitude and produces no
    /// absorption, which ends the frame sequence.
    pub open spec fn ends_after(&self, v: Tensor, n: nat) -> bool {
        exists|nv: Tensor, na: Seq<Absorption>|
            self.is_step(v, n, nv, na) && nv.entries@.len() == 0 && na.len() == 0
    }
}

/// Where the frame sequence stands: the frame to hand out next, or the end.
pub enum SimulateState {
    Generating(Tensor, Vec<Absorption>),
    Done,
}

/// The frame sequence of one simulation from one initial state.
pub struct SimulateIter {
    pub photons: usize,
    pub state: SimulateState,
}

impl SimulateIter {
    pub open spec fn wf(&self) -> bool {
        &&& 3 * self.photons <= usize::MAX
        &&& self.state matches SimulateState::Generating(v, _) ==> v.wf() && v.arity == 3 * self.photons
    }
}

/// `r` is what `absorptions` returns for the change `delta` from `before`.
pub open spec fn is_absorption_list(before: Tensor, delta: Tensor, n: nat, r: Seq<Absorption>) -> bool {
    &&& forall|q: int|
        0 <= q < r.len() ==> {
            &&& (#[trigger] r[q]).photon_id < n
            &&& r[q].probability == absorbed(delta.entries@, before, r[q].coord, r[q].photon_id as int)
            &&& r[q].probability != 0
        }
    &&& forall|a: int, b: int|
        0 <= a < r.len() && 0 <= b < r.len() && a != b ==> !(#[trigger] r[a].coord == #[trigger] r[b].coord
            && r[a].photon_id == r[b].photon_id)
    &&& forall|c: Coord, p: int|
        0 <= p < n && #[trigger] absorbed(delta.entries@, before, c, p) != 0 ==> has_record(r, c, p)
}

} // verus!
