//! Axes whose whole domain can be listed.
use crate::dimensions::{Direction, Polarization, Spin};
use vstd::prelude::*;

verus! {

/// A finite axis: `enumerate` lists every value once, in the order
/// `values` gives.
pub trait Enumerable: Sized {
    spec fn values() -> Seq<Self>;

    fn enumerate() -> (r: Vec<Self>)
        ensures
            r@ == Self::values(),
            forall|v: Self| r@.contains(v),
            r@.no_duplicates(),
    ;
}

impl Enumerable for Direction {
    open spec fn values() -> Seq<Direction> {
        seq![Direction::Right, Direction::Up, Direction::Left, Direction::Down]
    }

    fn enumerate() -> (r: Vec<Direction>) {
        let r = vec![Direction::Right, Direction::Up, Direction::Left, Direction::Down];
        assert(r@ =~= Self::values());
        assert forall|v: Direction| r@.contains(v) by {
            match v {
                Direction::Right => assert(r@[0] == v),
                Direction::Up => assert(r@[1] == v),
                Direction::Left => assert(r@[2] == v),
                Direction::Down => assert(r@[3] == v),
            }
        }
        r
    }
}

impl Enumerable for Polarization {
    open spec fn values() -> Seq<Polarization> {
        seq![Polarization::H, Polarization::V]
    }

    fn enumerate() -> (r: Vec<Polarization>) {
        let r = vec![Polarization::H, Polarization::V];
        assert(r@ =~= Self::values());
        assert forall|v: Polarization| r@.contains(v) by {
            match v {
                Polarization::H => assert(r@[0] == v),
                Polarization::V => assert(r@[1] == v),
            }
        }
        r
    }
}

impl Enumerable for Spin {
    open spec fn values() -> Seq<Spin> {
        seq![Spin::U, Spin::D]
    }

    fn enumerate() -> (r: Vec<Spin>) {
        let r = vec![Spin::U, Spin::D];
        assert(r@ =~= Self::values());
        assert forall|v: Spin| r@.contains(v) by {
            match v {
                Spin::U => assert(r@[0] == v),
                Spin::D => assert(r@[1] == v),
            }
        }
        r
    }
}

/// Whether `T` has exactly the two distinct values `a` and `b`.
pub open spec fn exactly_two<T>(a: T, b: T) -> bool {
    a != b && Set::<T>::full() == set![a, b]
}

/// The two values of an axis with exactly two values, in enumeration order;
/// `None` for an axis with fewer or more.
pub fn enumerate_two<T: Enumerable>() -> (r: Option<(T, T)>)
    ensures
        T::values().len() == 2 ==> r == Some((T::values()[0], T::values()[1])),
        T::values().len() != 2 ==> r is None,
        r matches Some((a, b)) ==> exactly_two(a, b),
        r is None ==> forall|a: T, b: T| !exactly_two(a, b),
{
    let mut all = T::enumerate();
    if all.len() != 2 {
        proof {
            assert forall|a: T, b: T| !exactly_two(a, b) by {
                if exactly_two(a, b) {
                    let ia = choose|i: int| 0 <= i < all@.len() && all@[i] == a;
                    let ib = choose|i: int| 0 <= i < all@.len() && all@[i] == b;
                    assert(all@.contains(a) && all@.contains(b));
                    assert(ia != ib);
                    assert(all@.len() >= 3);
                    assert(Set::<T>::full().contains(all@[0]));
                    assert(Set::<T>::full().contains(all@[1]));
                    assert(Set::<T>::full().contains(all@[2]));
                    let (x, y, z) = (all@[0], all@[1], all@[2]);
                    assert(x != y && y != z && x != z);
                }
            }
        }
        return None;
    }
    let ghost listed = all@;
    let b = all.pop().unwrap();
    let a = all.pop().unwrap();
    proof {
        assert(Set::<T>::full() =~= set![a, b]) by {
            assert forall|v: T| #[trigger] Set::<T>::full().contains(v) implies set![a, b].contains(v) by {
                assert(listed.contains(v));
                let k = choose|k: int| 0 <= k < listed.len() && listed[k] == v;
                assert(k == 0 || k == 1);
            }
        }
    }
    Some((a, b))
}

} // verus!
