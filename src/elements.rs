//! Optical elements and the local operators they apply to a photon's
//! direction and polarization.
use crate::complex::{cx_spec, Complex, FRAC_1_SQRT_2};
use crate::dimensions::{fits, Axis, Direction, Label, Polarization};
use crate::enumerable::enumerate_two;
use crate::operator::Operator;
use crate::tensor::lemma_concat_injective;
use vstd::prelude::*;

verus! {

/// An orientation on the grid, in steps of 45° counterclockwise from
/// `Right`.
#[derive(Clone, Copy, Debug, PartialEq, Eq, Hash, Structural)]
pub enum Angle {
    Right,
    UpRight,
    Up,
    UpLeft,
    Left,
    DownLeft,
    Down,
    DownRight,
}

/// The angle `k` eighths of a turn counterclockwise from `Right`.
pub open spec fn angle_of(k: int) -> Angle {
    let m = k % 8;
    if m == 0 {
        Angle::Right
    } else if m == 1 {
        Angle::UpRight
    } else if m == 2 {
        Angle::Up
    } else if m == 3 {
        Angle::UpLeft
    } else if m == 4 {
        Angle::Left
    } else if m == 5 {
        Angle::DownLeft
    } else if m == 6 {
        Angle::Down
    } else {
        Angle::DownRight
    }
}

/// The angle `m` eighths of a turn from `Right` is `m % 8` eighths from it.
pub proof fn lemma_angle_of_eighths(m: int)
    ensures
        angle_of(m).eighths_spec() == m % 8,
{
}

impl Angle {
    /// The number of eighths of a turn counterclockwise from `Right`.
    pub open spec fn eighths_spec(self) -> int {
        match self {
            Angle::Right => 0,
            Angle::UpRight => 1,
            Angle::Up => 2,
            Angle::UpLeft => 3,
            Angle::Left => 4,
            Angle::DownLeft => 5,
            Angle::Down => 6,
            Angle::DownRight => 7,
        }
    }

    pub fn eighths(self) -> (r: usize)
        ensures
            r == self.eighths_spec(),
            r < 8,
    {
        match self {
            Angle::Right => 0,
            Angle::UpRight => 1,
            Angle::Up => 2,
            Angle::UpLeft => 3,
            Angle::Left => 4,
            Angle::DownLeft => 5,
            Angle::Down => 6,
            Angle::DownRight => 7,
        }
    }

    /// Turned by 45° counterclockwise.
    pub fn rot45(self) -> (r: Angle)
        ensures
            r == angle_of(self.eighths_spec() + 1),
    {
        match self {
            Angle::Right => Angle::UpRight,
            Angle::UpRight => Angle::Up,
            Angle::Up => Angle::UpLeft,
            Angle::UpLeft => Angle::Left,
            Angle::Left => Angle::DownLeft,
            Angle::DownLeft => Angle::Down,
            Angle::Down => Angle::DownRight,
            Angle::DownRight => Angle::Right,
        }
    }

    /// Turned by 90° counterclockwise.
    pub fn rot90(self) -> (r: Angle)
        ensures
            r == angle_of(self.eighths_spec() + 2),
    {
        match self {
            Angle::Up => Angle::Left,
            Angle::UpLeft => Angle::DownLeft,
            Angle::Left => Angle::Down,
            Angle::DownLeft => Angle::DownRight,
            Angle::Down => Angle::Right,
            Angle::DownRight => Angle::UpRight,
            Angle::Right => Angle::Up,
            Angle::UpRight => Angle::UpLeft,
        }
    }

    /// Turned by 180°.
    pub fn rot180(self) -> (r: Angle)
        ensures
            r == angle_of(self.eighths_spec() + 4),
    {
        match self {
            Angle::Left => Angle::Right,
            Angle::DownLeft => Angle::UpRight,
            Angle::Down => Angle::Up,
            Angle::DownRight => Angle::UpLeft,
            Angle::Right => Angle::Left,
            Angle::UpRight => Angle::DownLeft,
            Angle::Up => Angle::Down,
            Angle::UpLeft => Angle::DownRight,
        }
    }

    /// Turned by 45° clockwise, which is 315° counterclockwise: the
    /// orientation a polarizing beam splitter reflects its vertical
    /// component with.
    pub fn rot225(self) -> (r: Angle)
        ensures
            r == angle_of(self.eighths_spec() + 7),
    {
        match self {
            Angle::Right => Angle::DownRight,
            Angle::UpRight => Angle::Right,
            Angle::Up => Angle::UpRight,
            Angle::UpLeft => Angle::Up,
            Angle::Left => Angle::UpLeft,
            Angle::DownLeft => Angle::Left,
            Angle::Down => Angle::DownLeft,
            Angle::DownRight => Angle::Down,
        }
    }

    /// Turned by 270° counterclockwise.
    pub fn rot270(self) -> (r: Angle)
        ensures
            r == angle_of(self.eighths_spec() + 6),
    {
        match self {
            Angle::Down => Angle::Left,
            Angle::DownRight => Angle::DownLeft,
            Angle::Right => Angle::Down,
            Angle::UpRight => Angle::DownRight,
            Angle::Up => Angle::Right,
            Angle::UpLeft => Angle::UpRight,
            Angle::Left => Angle::Up,
            Angle::DownLeft => Angle::UpLeft,
        }
    }

    /// For an axis-aligned angle, the direction a photon travels when it
    /// enters a face turned that way; `None` for a diagonal angle.
    pub fn as_direction(self) -> (r: Option<Direction>)
        ensures
            r == match self {
                Angle::Left => Some(Direction::Right),
                Angle::Down => Some(Direction::Up),
                Angle::Right => Some(Direction::Left),
                Angle::Up => Some(Direction::Down),
                _ => None::<Direction>,
            },
    {
        match self {
            Angle::Left => Some(Direction::Right),
            Angle::Down => Some(Direction::Up),
            Angle::Right => Some(Direction::Left),
            Angle::Up => Some(Direction::Down),
            _ => None,
        }
    }
}

} // verus!

verus! {

/// What a grid cell holds.
#[derive(Clone, Copy, Debug, PartialEq, Eq, Hash, Structural)]
pub enum Element {
    Wall,
    Gate,
    Laser,
    NonLinearCrystal,
    Mirror(Angle),
    BeamSplitter(Angle),
    PolarizingBeamSplitter(Angle),
    CoatedBeamSplitter(Angle),
    CornerCube,
    Detector(Direction),
    Rock,
    Mine,
    Absorber,
    DetectorFour,
    Polarizer(Angle),
    QuarterWavePlate(Angle),
    HalfWavePlate(Angle),
    SugarSolution,
    FaradayRotator(Direction),
    Glass,
    VacuumJar,
}

/// An operator on one slot: one input label, one output label.
pub open spec fn is_single(op: Operator) -> bool {
    op.wf() && op.n_in == 1 && op.n_out == 1
}

/// An operator on a photon's direction and polarization.
pub open spec fn is_local(op: Operator) -> bool {
    op.wf() && op.n_in == 2 && op.n_out == 2
}

/// The direction of a key of one direction label.
pub open spec fn single_dir(k: Seq<Label>) -> Option<Direction> {
    if k.len() == 1 {
        match k[0] {
            Label::Direction(d) => Some(d),
            _ => None,
        }
    } else {
        None
    }
}

/// The polarization of a key of one polarization label.
pub open spec fn single_pol(k: Seq<Label>) -> Option<Polarization> {
    if k.len() == 1 {
        match k[0] {
            Label::Polarization(p) => Some(p),
            _ => None,
        }
    } else {
        None
    }
}

/// The direction operator with amplitude one from `a` to `b` for each pair
/// `(a, b)` of `pairs`, zero elsewhere.
pub open spec fn pairs_amp(pairs: Seq<(Direction, Direction)>, i: Seq<Label>, o: Seq<Label>) -> Complex {
    match (single_dir(i), single_dir(o)) {
        (Some(a), Some(b)) => if pairs.contains((a, b)) {
            Complex::one_spec()
        } else {
            Complex::zero_spec()
        },
        _ => Complex::zero_spec(),
    }
}

/// A 2×2 matrix on polarizations: ⟨H|A|H⟩, ⟨V|A|H⟩, ⟨H|A|V⟩, ⟨V|A|V⟩.
pub type PolMatrix = (Complex, Complex, Complex, Complex);

/// The polarization operator with matrix `m`, zero off polarization keys.
pub open spec fn pol_amp(m: PolMatrix, i: Seq<Label>, o: Seq<Label>) -> Complex {
    match (single_pol(i), single_pol(o)) {
        (Some(Polarization::H), Some(Polarization::H)) => m.0,
        (Some(Polarization::H), Some(Polarization::V)) => m.1,
        (Some(Polarization::V), Some(Polarization::H)) => m.2,
        (Some(Polarization::V), Some(Polarization::V)) => m.3,
        _ => Complex::zero_spec(),
    }
}

/// Every direction to itself.
pub open spec fn all_directions() -> Seq<(Direction, Direction)> {
    seq![
        (Direction::Right, Direction::Right),
        (Direction::Up, Direction::Up),
        (Direction::Left, Direction::Left),
        (Direction::Down, Direction::Down),
    ]
}

/// How a plane at `angle` reflects directions.
pub open spec fn reflect_pairs(angle: Angle) -> Seq<(Direction, Direction)> {
    match angle {
        Angle::Right | Angle::Left => seq![(Direction::Up, Direction::Down), (Direction::Down, Direction::Up)],
        Angle::Up | Angle::Down => seq![(Direction::Left, Direction::Right), (Direction::Right, Direction::Left)],
        Angle::UpRight | Angle::DownLeft => seq![
            (Direction::Right, Direction::Down),
            (Direction::Down, Direction::Right),
            (Direction::Left, Direction::Up),
            (Direction::Up, Direction::Left),
        ],
        Angle::UpLeft | Angle::DownRight => seq![
            (Direction::Right, Direction::Up),
            (Direction::Up, Direction::Right),
            (Direction::Left, Direction::Down),
            (Direction::Down, Direction::Left),
        ],
    }
}

/// The directions that pass a beam splitter at `angle` unchanged.
pub open spec fn transmit_pairs(angle: Angle) -> Seq<(Direction, Direction)> {
    match angle {
        Angle::Right | Angle::Left => seq![(Direction::Up, Direction::Up), (Direction::Down, Direction::Down)],
        Angle::Up | Angle::Down => seq![(Direction::Left, Direction::Left), (Direction::Right, Direction::Right)],
        _ => all_directions(),
    }
}

/// Each direction to the opposite one.
pub open spec fn corner_pairs() -> Seq<(Direction, Direction)> {
    seq![
        (Direction::Right, Direction::Left),
        (Direction::Left, Direction::Right),
        (Direction::Up, Direction::Down),
        (Direction::Down, Direction::Up),
    ]
}

pub open spec fn minus_one() -> Complex {
    cx_spec(-1, 0)
}

pub open spec fn i_unit() -> Complex {
    Complex { re: 0, im: 1 }
}

pub open spec fn frac_1_sqrt_2_spec() -> Complex {
    Complex { re: FRAC_1_SQRT_2, im: 0 }
}

/// cos of `k` eighths of a turn.
#[verifier::opaque]
pub open spec fn cos_spec(k: int) -> Complex {
    let m = k % 8;
    if m == 0 {
        Complex::one_spec()
    } else if m == 1 || m == 7 {
        frac_1_sqrt_2_spec()
    } else if m == 2 || m == 6 {
        Complex::zero_spec()
    } else if m == 4 {
        minus_one()
    } else {
        frac_1_sqrt_2_spec().neg_spec()
    }
}

/// sin of `k` eighths of a turn.
pub open spec fn sin_spec(k: int) -> Complex {
    cos_spec(k + 6)
}

/// Projection onto the polarization at `k` eighths of a turn.
pub open spec fn projection(k: int) -> PolMatrix {
    let (c, s) = (cos_spec(k), sin_spec(k));
    (c.mul_spec(c), c.mul_spec(s), c.mul_spec(s), s.mul_spec(s))
}

/// Rotation of the polarization by `k` eighths of a turn.
pub open spec fn rotation(k: int) -> PolMatrix {
    let (c, s) = (cos_spec(k), sin_spec(k));
    (c, s.neg_spec(), s, c)
}

pub open spec fn pol_identity() -> PolMatrix {
    (Complex::one_spec(), Complex::zero_spec(), Complex::zero_spec(), Complex::one_spec())
}

/// Reflection from a denser medium flips the phase of vertical
/// polarization.
pub open spec fn denser() -> PolMatrix {
    (Complex::one_spec(), Complex::zero_spec(), Complex::zero_spec(), minus_one())
}

pub open spec fn only_h() -> PolMatrix {
    (Complex::one_spec(), Complex::zero_spec(), Complex::zero_spec(), Complex::zero_spec())
}

pub open spec fn only_v() -> PolMatrix {
    (Complex::zero_spec(), Complex::zero_spec(), Complex::zero_spec(), Complex::one_spec())
}

/// The product of a direction operator and a polarization operator, at
/// keys (direction, polarization).
pub open spec fn dp(pairs: Seq<(Direction, Direction)>, m: PolMatrix, i: Seq<Label>, o: Seq<Label>) -> Complex {
    pairs_amp(pairs, i.take(1), o.take(1)).mul_spec(pol_amp(m, i.skip(1), o.skip(1)))
}

/// Keeps the polarization at `k` eighths of a turn and shifts the
/// orthogonal one by `phase`.
pub open spec fn shift_amp(k: int, phase: Complex, i: Seq<Label>, o: Seq<Label>) -> Complex {
    pol_amp(projection(k), i, o).add_spec(phase.mul_spec(pol_amp(projection(k % 8 + 2), i, o)))
}

/// `diode(d) ⊗ shift(k, phase)`.
pub open spec fn plate_part(d: Direction, k: int, phase: Complex, i: Seq<Label>, o: Seq<Label>) -> Complex {
    pairs_amp(seq![(d, d)], i.take(1), o.take(1)).mul_spec(shift_amp(k, phase, i.skip(1), o.skip(1)))
}

/// A wave plate for photons along `d` and its opposite, its axis at `k`
/// eighths of a turn.
pub open spec fn plate_direction_amp(d: Direction, k: int, phase: Complex, i: Seq<Label>, o: Seq<Label>) -> Complex {
    plate_part(d, k, phase, i, o).add_spec(plate_part(d.opposite_spec(), (8 - k) % 8, phase, i, o))
}

/// `c` on the diagonal of keys (direction, polarization), zero elsewhere.
pub open spec fn uniform_amp(c: Complex, i: Seq<Label>, o: Seq<Label>) -> Complex {
    if i == o && fits(seq![Axis::Direction, Axis::Polarization], i) {
        c
    } else {
        Complex::zero_spec()
    }
}

/// ⟨o|E|i⟩ for element `e`, at keys (direction, polarization).
pub open spec fn element_amp(e: Element, i: Seq<Label>, o: Seq<Label>) -> Complex {
    match e {
        Element::Mirror(a) => dp(reflect_pairs(a), denser(), i, o),
        Element::BeamSplitter(a) => i_unit().mul_spec(frac_1_sqrt_2_spec()).mul_spec(
            i_unit().mul_spec(dp(reflect_pairs(a), denser(), i, o)).add_spec(
                dp(transmit_pairs(a), pol_identity(), i, o),
            ),
        ),
        Element::PolarizingBeamSplitter(a) => dp(all_directions(), only_h(), i, o).add_spec(
            dp(reflect_pairs(angle_of(a.eighths_spec() + 7)), only_v(), i, o),
        ),
        Element::CornerCube => dp(corner_pairs(), pol_identity(), i, o),
        Element::Absorber => uniform_amp(frac_1_sqrt_2_spec(), i, o),
        Element::Polarizer(a) => {
            let k = a.eighths_spec();
            dp(seq![(Direction::Right, Direction::Right)], projection(k), i, o).add_spec(
                dp(seq![(Direction::Up, Direction::Up)], projection((k + 2) % 8), i, o),
            ).add_spec(dp(seq![(Direction::Left, Direction::Left)], projection((k + 4) % 8), i, o)).add_spec(
                dp(seq![(Direction::Down, Direction::Down)], projection((k + 6) % 8), i, o),
            )
        },
        Element::QuarterWavePlate(a) => plate_amp(a, i_unit(), i, o),
        Element::HalfWavePlate(a) => plate_amp(a, minus_one(), i, o),
        Element::SugarSolution => dp(all_directions(), rotation(1), i, o),
        Element::FaradayRotator(d) => dp(seq![(d, d)], rotation(1), i, o).add_spec(
            dp(seq![(d.opposite_spec(), d.opposite_spec())], rotation(7), i, o),
        ),
        Element::Glass => uniform_amp(i_unit(), i, o),
        Element::VacuumJar => uniform_amp(cx_spec(0, -1), i, o),
        _ => Complex::zero_spec(),
    }
}

/// A wave plate at `a` with phase `phase`.
pub open spec fn plate_amp(a: Angle, phase: Complex, i: Seq<Label>, o: Seq<Label>) -> Complex {
    let k = a.eighths_spec();
    plate_direction_amp(Direction::Right, k, phase, i, o).add_spec(
        plate_direction_amp(Direction::Up, (k + 2) % 8, phase, i, o),
    )
}

fn dir_key(d: Direction) -> (r: Vec<Label>)
    ensures
        r@ == seq![Label::Direction(d)],
{
    vec![Label::Direction(d)]
}

fn pol_key(p: Polarization) -> (r: Vec<Label>)
    ensures
        r@ == seq![Label::Polarization(p)],
{
    vec![Label::Polarization(p)]
}

/// The operator sending each direction `a` of `pairs` to its partner `b`
/// with amplitude one.
fn direction_map(pairs: &Vec<(Direction, Direction)>) -> (r: Operator)
    ensures
        is_single(r),
        forall|i: Seq<Label>, o: Seq<Label>|
            i.len() == 1 && o.len() == 1 ==> #[trigger] r.amp(i, o) == pairs_amp(pairs@, i, o),
{
    let mut r = Operator::new(1, 1);
    let mut j: usize = 0;
    while j < pairs.len()
        invariant
            is_single(r),
            j <= pairs@.len(),
            forall|i: Seq<Label>, o: Seq<Label>|
                i.len() == 1 && o.len() == 1 ==> #[trigger] r.amp(i, o) == pairs_amp(pairs@.take(j as int), i, o),
        decreases pairs.len() - j,
    {
        let (a, b) = pairs[j];
        let ghost before = r;
        r.insert(&dir_key(a), &dir_key(b), Complex::one());
        proof {
            assert forall|i: Seq<Label>, o: Seq<Label>|
                i.len() == 1 && o.len() == 1 implies #[trigger] r.amp(i, o) == pairs_amp(pairs@.take(j + 1), i, o) by {
                let (ka, kb) = (seq![Label::Direction(a)], seq![Label::Direction(b)]);
                lemma_concat_injective(i, o, ka, kb);
                assert(before.amp(i, o) == pairs_amp(pairs@.take(j as int), i, o));
                assert(pairs@.take(j + 1) =~= pairs@.take(j as int).push((a, b)));
                assert(i =~= seq![i[0]]);
                assert(o =~= seq![o[0]]);
                if let (Some(x), Some(y)) = (single_dir(i), single_dir(o)) {
                    if pairs@.take(j as int).contains((x, y)) {
                        let t = choose|t: int| 0 <= t < j && #[trigger] pairs@.take(j as int)[t] == (x, y);
                        assert(pairs@.take(j + 1)[t] == (x, y));
                    }
                    if pairs@.take(j + 1).contains((x, y)) && !pairs@.take(j as int).contains((x, y)) {
                        let t = choose|t: int| 0 <= t < j + 1 && #[trigger] pairs@.take(j + 1)[t] == (x, y);
                        if t < j {
                            assert(pairs@.take(j as int)[t] == (x, y));
                        }
                    }
                    if i == ka && o == kb {
                        assert(pairs@.take(j + 1)[j as int] == (x, y));
                    }
                }
            }
        }
        j = j + 1;
    }
    assert(pairs@.take(j as int) =~= pairs@);
    r
}

/// The 2×2 operator on polarizations with matrix `m`.
fn polarization_matrix(hh: Complex, vh: Complex, hv: Complex, vv: Complex) -> (r: Operator)
    requires
        hh.wf(),
        hv.wf(),
        vh.wf(),
        vv.wf(),
    ensures
        is_single(r),
        forall|i: Seq<Label>, o: Seq<Label>|
            i.len() == 1 && o.len() == 1 ==> #[trigger] r.amp(i, o) == pol_amp((hh, vh, hv, vv), i, o),
{
    let (a, b) = match enumerate_two::<Polarization>() {
        Some(pair) => pair,
        None => (Polarization::H, Polarization::V),
    };
    assert(a == Polarization::H && b == Polarization::V);
    let entries = vec![(a, a, hh), (a, b, vh), (b, a, hv), (b, b, vv)];
    let ghost m = (hh, vh, hv, vv);
    let mut r = Operator::new(1, 1);
    let mut j: usize = 0;
    while j < entries.len()
        invariant
            is_single(r),
            j <= 4,
            entries@.len() == 4,
            m == (hh, vh, hv, vv),
            entries@ == seq![(Polarization::H, Polarization::H, hh), (Polarization::H, Polarization::V, vh),
                (Polarization::V, Polarization::H, hv), (Polarization::V, Polarization::V, vv)],
            hh.wf() && hv.wf() && vh.wf() && vv.wf(),
            forall|i: Seq<Label>, o: Seq<Label>|
                i.len() == 1 && o.len() == 1 ==> #[trigger] r.amp(i, o) == match (single_pol(i), single_pol(o)) {
                    (Some(x), Some(y)) => if exists|t: int| 0 <= t < j && (#[trigger] entries@[t]).0 == x && entries@[t].1 == y {
                        pol_amp(m, i, o)
                    } else {
                        Complex::zero_spec()
                    },
                    _ => Complex::zero_spec(),
                },
        decreases 4 - j,
    {
        let (x, y, v) = entries[j];
        let ghost before = r;
        r.insert(&pol_key(x), &pol_key(y), v);
        proof {
            assert forall|i: Seq<Label>, o: Seq<Label>|
                i.len() == 1 && o.len() == 1 implies #[trigger] r.amp(i, o) == match (single_pol(i), single_pol(o)) {
                    (Some(x2), Some(y2)) => if exists|t: int| 0 <= t < j + 1 && (#[trigger] entries@[t]).0 == x2 && entries@[t].1 == y2 {
                        pol_amp(m, i, o)
                    } else {
                        Complex::zero_spec()
                    },
                    _ => Complex::zero_spec(),
                } by {
                let (kx, ky) = (seq![Label::Polarization(x)], seq![Label::Polarization(y)]);
                lemma_concat_injective(i, o, kx, ky);
                assert(i =~= seq![i[0]]);
                assert(o =~= seq![o[0]]);
                assert(before.amp(i, o) == match (single_pol(i), single_pol(o)) {
                    (Some(x2), Some(y2)) => if exists|t: int| 0 <= t < j && (#[trigger] entries@[t]).0 == x2 && entries@[t].1 == y2 {
                        pol_amp(m, i, o)
                    } else {
                        Complex::zero_spec()
                    },
                    _ => Complex::zero_spec(),
                });
                if let (Some(x2), Some(y2)) = (single_pol(i), single_pol(o)) {
                    if exists|t: int| 0 <= t < j && (#[trigger] entries@[t]).0 == x2 && entries@[t].1 == y2 {
                        let t = choose|t: int| 0 <= t < j && (#[trigger] entries@[t]).0 == x2 && entries@[t].1 == y2;
                        assert(0 <= t < j + 1 && entries@[t].0 == x2 && entries@[t].1 == y2);
                        assert(t != j);
                    }
                    if exists|t: int| 0 <= t < j + 1 && (#[trigger] entries@[t]).0 == x2 && entries@[t].1 == y2 {
                        let t = choose|t: int| 0 <= t < j + 1 && (#[trigger] entries@[t]).0 == x2 && entries@[t].1 == y2;
                        if t < j {
                            assert(exists|t: int| 0 <= t < j && (#[trigger] entries@[t]).0 == x2 && entries@[t].1 == y2);
                        }
                    }
                    if i == kx && o == ky {
                        assert(entries@[j as int].0 == x2 && entries@[j as int].1 == y2);
                        assert(forall|t: int| 0 <= t < j ==> !((#[trigger] entries@[t]).0 == x2 && entries@[t].1 == y2));
                    }
                }
            }
        }
        j = j + 1;
    }
    proof {
        assert forall|i: Seq<Label>, o: Seq<Label>|
            i.len() == 1 && o.len() == 1 implies #[trigger] r.amp(i, o) == pol_amp(m, i, o) by {
            if let (Some(x2), Some(y2)) = (single_pol(i), single_pol(o)) {
                let t: int = match (x2, y2) {
                    (Polarization::H, Polarization::H) => 0,
                    (Polarization::H, Polarization::V) => 1,
                    (Polarization::V, Polarization::H) => 2,
                    (Polarization::V, Polarization::V) => 3,
                };
                assert(entries@[t].0 == x2 && entries@[t].1 == y2);
            }
        }
    }
    r
}

/// cos and sin of `k` eighths of a turn.
fn cos_sin(k: usize) -> (r: (Complex, Complex))
    ensures
        r.0 == cos_spec(k as int),
        r.1 == sin_spec(k as int),
        r.0.wf(),
        r.1.wf(),
{
    reveal(cos_spec);
    let s = Complex::frac_1_sqrt_2();
    let ms = s.neg();
    let one = Complex::one();
    let zero = Complex::zero();
    let m1 = Complex::new(-1, 0);
    match k % 8 {
        0 => (one, zero),
        1 => (s, s),
        2 => (zero, one),
        3 => (ms, s),
        4 => (m1, zero),
        5 => (ms, ms),
        6 => (zero, m1),
        _ => (s, ms),
    }
}

/// Projection onto the polarization at `k` eighths of a turn.
fn projection_matrix(k: usize) -> (r: Operator)
    ensures
        is_single(r),
        forall|i: Seq<Label>, o: Seq<Label>|
            i.len() == 1 && o.len() == 1 ==> #[trigger] r.amp(i, o) == pol_amp(projection(k as int), i, o),
{
    let (c, s) = cos_sin(k);
    let cs = c.mul(&s);
    polarization_matrix(c.mul(&c), cs, cs, s.mul(&s))
}

/// Rotation of the polarization by `k` eighths of a turn.
fn rotation_matrix(k: usize) -> (r: Operator)
    ensures
        is_single(r),
        forall|i: Seq<Label>, o: Seq<Label>|
            i.len() == 1 && o.len() == 1 ==> #[trigger] r.amp(i, o) == pol_amp(rotation(k as int), i, o),
{
    let (c, s) = cos_sin(k);
    polarization_matrix(c, s.neg(), s, c)
}

/// Phase `phase` on the polarization orthogonal to the one at `k` eighths
/// of a turn, which itself keeps its phase.
fn phase_shift(k: usize, phase: Complex) -> (r: Operator)
    requires
        phase.wf(),
        k < 8,
    ensures
        is_single(r),
        forall|i: Seq<Label>, o: Seq<Label>|
            i.len() == 1 && o.len() == 1 ==> #[trigger] r.amp(i, o) == shift_amp(k as int, phase, i, o),
{
    let kept = projection_matrix(k);
    let shifted = projection_matrix(k + 2).scale(phase);
    assert(k as int % 8 == k as int);
    kept.add(&shifted)
}

/// `a ⊗ b` for operators on directions and polarizations.
fn local_outer(a: &Operator, b: &Operator) -> (r: Operator)
    requires
        is_single(*a),
        is_single(*b),
    ensures
        is_local(r),
        forall|i: Seq<Label>, o: Seq<Label>|
            i.len() == 2 && o.len() == 2 ==> #[trigger] r.amp(i, o) == a.amp(i.take(1), o.take(1)).mul_spec(
                b.amp(i.skip(1), o.skip(1)),
            ),
{
    let r = a.outer(b);
    proof {
        assert forall|i: Seq<Label>, o: Seq<Label>|
            i.len() == 2 && o.len() == 2 implies #[trigger] r.amp(i, o) == a.amp(i.take(1), o.take(1)).mul_spec(
                b.amp(i.skip(1), o.skip(1)),
            ) by {
            assert(i =~= i.take(1) + i.skip(1));
            assert(o =~= o.take(1) + o.skip(1));
            assert(r.amp(i.take(1) + i.skip(1), o.take(1) + o.skip(1)) == a.amp(i.take(1), o.take(1)).mul_spec(
                b.amp(i.skip(1), o.skip(1)),
            ));
        }
    }
    r
}

/// `pairs ⊗ m`.
fn dir_pol(pairs: &Vec<(Direction, Direction)>, m: &Operator, mm: Ghost<PolMatrix>) -> (r: Operator)
    requires
        is_single(*m),
        forall|i: Seq<Label>, o: Seq<Label>|
            i.len() == 1 && o.len() == 1 ==> #[trigger] m.amp(i, o) == pol_amp(mm@, i, o),
    ensures
        is_local(r),
        forall|i: Seq<Label>, o: Seq<Label>|
            i.len() == 2 && o.len() == 2 ==> #[trigger] r.amp(i, o) == dp(pairs@, mm@, i, o),
{
    let d = direction_map(pairs);
    let r = local_outer(&d, m);
    proof {
        assert forall|i: Seq<Label>, o: Seq<Label>|
            i.len() == 2 && o.len() == 2 implies #[trigger] r.amp(i, o) == dp(pairs@, mm@, i, o) by {
            assert(d.amp(i.take(1), o.take(1)) == pairs_amp(pairs@, i.take(1), o.take(1)));
            assert(m.amp(i.skip(1), o.skip(1)) == pol_amp(mm@, i.skip(1), o.skip(1)));
        }
    }
    r
}

/// The identity on direction and polarization times `c`.
fn amplitude_intensity(c: Complex) -> (r: Operator)
    requires
        c.wf(),
    ensures
        is_local(r),
        forall|i: Seq<Label>, o: Seq<Label>|
            i.len() == 2 && o.len() == 2 ==> #[trigger] r.amp(i, o) == uniform_amp(c, i, o),
{
    let schema = vec![Axis::Direction, Axis::Polarization];
    proof {
        assert(seq![Axis::Direction, Axis::Polarization] =~= schema@);
    }
    Operator::uniform_scale(&schema, c)
}

fn reflect_vec(angle: Angle) -> (r: Vec<(Direction, Direction)>)
    ensures
        r@ == reflect_pairs(angle),
{
    let r = match angle {
        Angle::Right | Angle::Left => vec![(Direction::Up, Direction::Down), (Direction::Down, Direction::Up)],
        Angle::Up | Angle::Down => vec![(Direction::Left, Direction::Right), (Direction::Right, Direction::Left)],
        Angle::UpRight | Angle::DownLeft => vec![
            (Direction::Right, Direction::Down),
            (Direction::Down, Direction::Right),
            (Direction::Left, Direction::Up),
            (Direction::Up, Direction::Left),
        ],
        Angle::UpLeft | Angle::DownRight => vec![
            (Direction::Right, Direction::Up),
            (Direction::Up, Direction::Right),
            (Direction::Left, Direction::Down),
            (Direction::Down, Direction::Left),
        ],
    };
    assert(r@ =~= reflect_pairs(angle));
    r
}

fn all_directions_vec() -> (r: Vec<(Direction, Direction)>)
    ensures
        r@ == all_directions(),
{
    let r = vec![
        (Direction::Right, Direction::Right),
        (Direction::Up, Direction::Up),
        (Direction::Left, Direction::Left),
        (Direction::Down, Direction::Down),
    ];
    assert(r@ =~= all_directions());
    r
}

fn transmit_vec(angle: Angle) -> (r: Vec<(Direction, Direction)>)
    ensures
        r@ == transmit_pairs(angle),
{
    match angle {
        Angle::Right | Angle::Left => {
            let r = vec![(Direction::Up, Direction::Up), (Direction::Down, Direction::Down)];
            assert(r@ =~= transmit_pairs(angle));
            r
        },
        Angle::Up | Angle::Down => {
            let r = vec![(Direction::Left, Direction::Left), (Direction::Right, Direction::Right)];
            assert(r@ =~= transmit_pairs(angle));
            r
        },
        _ => all_directions_vec(),
    }
}

fn single_pair(d: Direction) -> (r: Vec<(Direction, Direction)>)
    ensures
        r@ == seq![(d, d)],
{
    let r = vec![(d, d)];
    assert(r@ =~= seq![(d, d)]);
    r
}

fn pol_identity_matrix() -> (r: Operator)
    ensures
        is_single(r),
        forall|i: Seq<Label>, o: Seq<Label>|
            i.len() == 1 && o.len() == 1 ==> #[trigger] r.amp(i, o) == pol_amp(pol_identity(), i, o),
{
    polarization_matrix(Complex::one(), Complex::zero(), Complex::zero(), Complex::one())
}

fn mirror(angle: Angle) -> (r: Operator)
    ensures
        is_local(r),
        forall|i: Seq<Label>, o: Seq<Label>|
            i.len() == 2 && o.len() == 2 ==> #[trigger] r.amp(i, o) == element_amp(Element::Mirror(angle), i, o),
{
    let phase = polarization_matrix(Complex::one(), Complex::zero(), Complex::zero(), Complex::new(-1, 0));
    dir_pol(&reflect_vec(angle), &phase, Ghost(denser()))
}

/// Reflected with phase i or transmitted, the whole scaled by i/√2.
fn beamsplitter(angle: Angle) -> (r: Operator)
    ensures
        is_local(r),
        forall|i: Seq<Label>, o: Seq<Label>|
            i.len() == 2 && o.len() == 2 ==> #[trigger] r.amp(i, o) == element_amp(Element::BeamSplitter(angle), i, o),
{
    let phase = polarization_matrix(Complex::one(), Complex::zero(), Complex::zero(), Complex::new(-1, 0));
    let reflected = dir_pol(&reflect_vec(angle), &phase, Ghost(denser())).scale(Complex::i());
    let transmitted = dir_pol(&transmit_vec(angle), &pol_identity_matrix(), Ghost(pol_identity()));
    let factor = Complex::i().mul(&Complex::frac_1_sqrt_2());
    reflected.add(&transmitted).scale(factor)
}

fn polarizing_beamsplitter(angle: Angle) -> (r: Operator)
    ensures
        is_local(r),
        forall|i: Seq<Label>, o: Seq<Label>|
            i.len() == 2 && o.len() == 2 ==> #[trigger] r.amp(i, o) == element_amp(
                Element::PolarizingBeamSplitter(angle),
                i,
                o,
            ),
{
    let proj_h = polarization_matrix(Complex::one(), Complex::zero(), Complex::zero(), Complex::zero());
    let proj_v = polarization_matrix(Complex::zero(), Complex::zero(), Complex::zero(), Complex::one());
    let passed = dir_pol(&all_directions_vec(), &proj_h, Ghost(only_h()));
    let turned = angle.rot225();
    let reflected = dir_pol(&reflect_vec(turned), &proj_v, Ghost(only_v()));
    passed.add(&reflected)
}

/// `diode(d) ⊗ projection(k)`.
fn polarizer_part(d: Direction, k: usize) -> (r: Operator)
    ensures
        is_local(r),
        forall|i: Seq<Label>, o: Seq<Label>|
            i.len() == 2 && o.len() == 2 ==> #[trigger] r.amp(i, o) == dp(seq![(d, d)], projection(k as int), i, o),
{
    dir_pol(&single_pair(d), &projection_matrix(k), Ghost(projection(k as int)))
}

fn polarizer(angle: Angle) -> (r: Operator)
    ensures
        is_local(r),
        forall|i: Seq<Label>, o: Seq<Label>|
            i.len() == 2 && o.len() == 2 ==> #[trigger] r.amp(i, o) == element_amp(Element::Polarizer(angle), i, o),
{
    proof {
        lemma_angle_of_eighths(angle.eighths_spec() + 2);
        lemma_angle_of_eighths(angle.eighths_spec() + 4);
        lemma_angle_of_eighths(angle.eighths_spec() + 6);
    }
    let right = polarizer_part(Direction::Right, angle.eighths());
    let up = polarizer_part(Direction::Up, angle.rot90().eighths());
    let left = polarizer_part(Direction::Left, angle.rot180().eighths());
    let down = polarizer_part(Direction::Down, angle.rot270().eighths());
    right.add(&up).add(&left).add(&down)
}

fn corner_cube() -> (r: Operator)
    ensures
        is_local(r),
        forall|i: Seq<Label>, o: Seq<Label>|
            i.len() == 2 && o.len() == 2 ==> #[trigger] r.amp(i, o) == element_amp(Element::CornerCube, i, o),
{
    let pairs = vec![
        (Direction::Right, Direction::Left),
        (Direction::Left, Direction::Right),
        (Direction::Up, Direction::Down),
        (Direction::Down, Direction::Up),
    ];
    assert(pairs@ =~= corner_pairs());
    dir_pol(&pairs, &pol_identity_matrix(), Ghost(pol_identity()))
}

/// `diode(d) ⊗ shift(k, phase)`.
fn plate_part_op(d: Direction, k: usize, phase: Complex) -> (r: Operator)
    requires
        phase.wf(),
        k < 8,
    ensures
        is_local(r),
        forall|i: Seq<Label>, o: Seq<Label>|
            i.len() == 2 && o.len() == 2 ==> #[trigger] r.amp(i, o) == plate_part(d, k as int, phase, i, o),
{
    let diode = direction_map(&single_pair(d));
    let shift = phase_shift(k, phase);
    let r = local_outer(&diode, &shift);
    proof {
        assert forall|i: Seq<Label>, o: Seq<Label>|
            i.len() == 2 && o.len() == 2 implies #[trigger] r.amp(i, o) == plate_part(d, k as int, phase, i, o) by {
            assert(diode.amp(i.take(1), o.take(1)) == pairs_amp(seq![(d, d)], i.take(1), o.take(1)));
            assert(shift.amp(i.skip(1), o.skip(1)) == shift_amp(k as int, phase, i.skip(1), o.skip(1)));
        }
    }
    r
}

/// A wave plate for photons along `dir` and its opposite, with its axis at
/// `k` eighths of a turn.
fn phase_plate_direction(dir: Direction, k: usize, phase: Complex) -> (r: Operator)
    requires
        phase.wf(),
        k < 8,
    ensures
        is_local(r),
        forall|i: Seq<Label>, o: Seq<Label>|
            i.len() == 2 && o.len() == 2 ==> #[trigger] r.amp(i, o) == plate_direction_amp(dir, k as int, phase, i, o),
{
    let forward = plate_part_op(dir, k, phase);
    let backward = plate_part_op(dir.opposite(), (8 - k) % 8, phase);
    forward.add(&backward)
}

fn phase_plate(angle: Angle, phase: Complex) -> (r: Operator)
    requires
        phase.wf(),
    ensures
        is_local(r),
        forall|i: Seq<Label>, o: Seq<Label>|
            i.len() == 2 && o.len() == 2 ==> #[trigger] r.amp(i, o) == plate_amp(angle, phase, i, o),
{
    proof {
        lemma_angle_of_eighths(angle.eighths_spec() + 2);
    }
    let horizontal = phase_plate_direction(Direction::Right, angle.eighths(), phase);
    let vertical = phase_plate_direction(Direction::Up, angle.rot90().eighths(), phase);
    horizontal.add(&vertical)
}

/// Rotates polarization by 45° whichever way the photon travels.
fn sugar_solution() -> (r: Operator)
    ensures
        is_local(r),
        forall|i: Seq<Label>, o: Seq<Label>|
            i.len() == 2 && o.len() == 2 ==> #[trigger] r.amp(i, o) == element_amp(Element::SugarSolution, i, o),
{
    dir_pol(&all_directions_vec(), &rotation_matrix(1), Ghost(rotation(1)))
}

/// Rotates polarization by 45° one way for photons along `dir` and the
/// other way for photons against it.
fn faraday_rotator(dir: Direction) -> (r: Operator)
    ensures
        is_local(r),
        forall|i: Seq<Label>, o: Seq<Label>|
            i.len() == 2 && o.len() == 2 ==> #[trigger] r.amp(i, o) == element_amp(Element::FaradayRotator(dir), i, o),
{
    let forward = dir_pol(&single_pair(dir), &rotation_matrix(1), Ghost(rotation(1)));
    let backward = dir_pol(&single_pair(dir.opposite()), &rotation_matrix(7), Ghost(rotation(7)));
    forward.add(&backward)
}

impl Element {
    /// Whether the element has a defined effect on photons.
    pub open spec fn has_operator(self) -> bool {
        !(self is NonLinearCrystal || self is CoatedBeamSplitter)
    }

    /// Whether the element has a defined effect on photons.
    pub fn is_supported(&self) -> (r: bool)
        ensures
            r == self.has_operator(),
    {
        !matches!(self, Element::NonLinearCrystal | Element::CoatedBeamSplitter(_))
    }

    /// The element's effect on a photon in its cell: the operator from
    /// (direction, polarization) to (direction, polarization) whose
    /// amplitudes `element_amp` spells out.
    pub fn operator(&self) -> (r: Operator)
        requires
            self.has_operator(),
        ensures
            is_local(r),
            forall|i: Seq<Label>, o: Seq<Label>|
                i.len() == 2 && o.len() == 2 ==> #[trigger] r.amp(i, o) == element_amp(*self, i, o),
    {
        match *self {
            Element::Mirror(angle) => mirror(angle),
            Element::BeamSplitter(angle) => beamsplitter(angle),
            Element::PolarizingBeamSplitter(angle) => polarizing_beamsplitter(angle),
            Element::CornerCube => corner_cube(),
            Element::Absorber => amplitude_intensity(Complex::frac_1_sqrt_2()),
            Element::Polarizer(angle) => polarizer(angle),
            Element::QuarterWavePlate(angle) => phase_plate(angle, Complex::i()),
            Element::HalfWavePlate(angle) => phase_plate(angle, Complex::new(-1, 0)),
            Element::SugarSolution => sugar_solution(),
            Element::FaradayRotator(dir) => faraday_rotator(dir),
            Element::Glass => amplitude_intensity(Complex::i()),
            Element::VacuumJar => amplitude_intensity(Complex::new(0, -1)),
            _ => {
                let r = amplitude_intensity(Complex::zero());
                proof {
                    assert forall|i: Seq<Label>, o: Seq<Label>|
                        i.len() == 2 && o.len() == 2 implies #[trigger] r.amp(i, o) == element_amp(*self, i, o) by {
                        assert(uniform_amp(Complex::zero_spec(), i, o) == Complex::zero_spec());
                    }
                }
                r
            },
        }
    }
}

} // verus!
