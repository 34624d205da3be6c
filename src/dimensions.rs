//! The physical axes that index amplitudes, and the labels that combine
//! them into composite keys.
use vstd::prelude::*;

verus! {

#[derive(Clone, Copy, Debug, PartialEq, Eq, Hash, Structural)]
pub enum Polarization {
    H,
    V,
}

#[derive(Clone, Copy, Debug, PartialEq, Eq, Hash, Structural)]
pub enum Spin {
    U,
    D,
}

/// Direction of propagation on the grid; `Up` decreases `y`.
#[derive(Clone, Copy, Debug, PartialEq, Eq, Hash, Structural)]
pub enum Direction {
    Right,
    Up,
    Left,
    Down,
}

/// A cell of the grid.
#[derive(Clone, Copy, Debug, PartialEq, Eq, Hash, Structural)]
pub struct Coord {
    pub x: u16,
    pub y: u16,
}

/// The kind of one slot of a composite key.
#[derive(Clone, Copy, Debug, PartialEq, Eq, Hash, Structural)]
pub enum Axis {
    Coord,
    Direction,
    Polarization,
    Spin,
    Position,
}

/// The value of one slot of a composite key.
#[derive(Clone, Copy, Debug, PartialEq, Eq, Hash, Structural)]
pub enum Label {
    Coord(Coord),
    Direction(Direction),
    Polarization(Polarization),
    Spin(Spin),
    Position(u32),
}

impl Direction {
    pub open spec fn opposite_spec(self) -> Direction {
        match self {
            Direction::Right => Direction::Left,
            Direction::Up => Direction::Down,
            Direction::Left => Direction::Right,
            Direction::Down => Direction::Up,
        }
    }

    /// The direction pointing the other way.
    pub fn opposite(self) -> (r: Direction)
        ensures
            r == self.opposite_spec(),
            r.opposite_spec() == self,
            r != self,
    {
        match self {
            Direction::Right => Direction::Left,
            Direction::Up => Direction::Down,
            Direction::Left => Direction::Right,
            Direction::Down => Direction::Up,
        }
    }
}

impl Coord {
    pub fn new(x: u16, y: u16) -> (r: Coord)
        ensures
            r.x == x,
            r.y == y,
    {
        Coord { x, y }
    }
}

impl Label {
    pub open spec fn axis_spec(self) -> Axis {
        match self {
            Label::Coord(_) => Axis::Coord,
            Label::Direction(_) => Axis::Direction,
            Label::Polarization(_) => Axis::Polarization,
            Label::Spin(_) => Axis::Spin,
            Label::Position(_) => Axis::Position,
        }
    }

    /// The axis this label belongs to.
    pub fn axis(&self) -> (r: Axis)
        ensures
            r == self.axis_spec(),
    {
        match self {
            Label::Coord(_) => Axis::Coord,
            Label::Direction(_) => Axis::Direction,
            Label::Polarization(_) => Axis::Polarization,
            Label::Spin(_) => Axis::Spin,
            Label::Position(_) => Axis::Position,
        }
    }
}

/// Whether `key` has one label of each axis of `schema`, slot by slot.
pub open spec fn fits(schema: Seq<Axis>, key: Seq<Label>) -> bool {
    &&& key.len() == schema.len()
    &&& forall|j: int| 0 <= j < key.len() ==> (#[trigger] key[j]).axis_spec() == schema[j]
}

/// Whether two keys hold the same labels.
pub fn keys_equal(a: &Vec<Label>, b: &Vec<Label>) -> (r: bool)
    ensures
        r == (a@ == b@),
{
    if a.len() != b.len() {
        return false;
    }
    let mut j: usize = 0;
    while j < a.len()
        invariant
            a.len() == b.len(),
            j <= a.len(),
            forall|t: int| 0 <= t < j ==> a@[t] == b@[t],
        decreases a.len() - j,
    {
        if a[j] != b[j] {
            return false;
        }
        j = j + 1;
    }
    assert(a@ =~= b@);
    true
}

/// Whether every value of the axis can be listed.
pub open spec fn enumerable_axis(a: Axis) -> bool {
    a == Axis::Direction || a == Axis::Polarization || a == Axis::Spin
}

/// Every label of an enumerable axis, each once.
pub fn axis_values(a: Axis) -> (r: Vec<Label>)
    requires
        enumerable_axis(a),
    ensures
        forall|l: Label| #[trigger] r@.contains(l) <==> l.axis_spec() == a,
{
    let r = match a {
        Axis::Direction => vec![
            Label::Direction(Direction::Right),
            Label::Direction(Direction::Up),
            Label::Direction(Direction::Left),
            Label::Direction(Direction::Down),
        ],
        Axis::Polarization => vec![
            Label::Polarization(Polarization::H),
            Label::Polarization(Polarization::V),
        ],
        _ => vec![Label::Spin(Spin::U), Label::Spin(Spin::D)],
    };
    assert forall|l: Label| #[trigger] r@.contains(l) <==> l.axis_spec() == a by {
        if l.axis_spec() == a {
            match l {
                Label::Direction(Direction::Right) => assert(r@[0] == l),
                Label::Direction(Direction::Up) => assert(r@[1] == l),
                Label::Direction(Direction::Left) => assert(r@[2] == l),
                Label::Direction(Direction::Down) => assert(r@[3] == l),
                Label::Polarization(Polarization::H) => assert(r@[0] == l),
                Label::Polarization(Polarization::V) => assert(r@[1] == l),
                Label::Spin(Spin::U) => assert(r@[0] == l),
                Label::Spin(Spin::D) => assert(r@[1] == l),
                _ => {},
            }
        }
    }
    r
}

/// A key fits a schema one slot longer exactly when its first part fits
/// the shorter schema and its last label fits the last axis.
pub proof fn lemma_fits_push(schema: Seq<Axis>, k: Seq<Label>, a: Axis, x: Label)
    ensures
        fits(schema.push(a), k.push(x)) <==> (fits(schema, k) && x.axis_spec() == a),
{
    if fits(schema.push(a), k.push(x)) {
        assert(k.push(x)[k.len() as int] == x);
        assert forall|j: int| 0 <= j < k.len() implies (#[trigger] k[j]).axis_spec() == schema[j] by {
            assert(k.push(x)[j] == k[j]);
            assert(schema.push(a)[j] == schema[j]);
        }
    }
    if fits(schema, k) && x.axis_spec() == a {
        assert forall|j: int| 0 <= j < k.push(x).len() implies (#[trigger] k.push(x)[j]).axis_spec()
            == schema.push(a)[j] by {
            if j < k.len() {
                assert(k.push(x)[j] == k[j]);
            }
        }
    }
}

} // verus!
