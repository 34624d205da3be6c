use quantum_tensors::{enumerate_two, Angle, Axis, Operator, Complex, Coord, Direction, Element, Enumerable, Label, Polarization, Spin, Tensor};

const H: Polarization = Polarization::H;
const V: Polarization = Polarization::V;

fn frac_1_sqrt_2() -> Complex {
    Complex::new(32768, 0)
}

fn photon(dir: Direction, pol: Polarization, amp: Complex) -> Tensor {
    Tensor::from_values(
        3,
        &vec![(vec![Label::Coord(Coord::new(0, 0)), Label::Direction(dir), Label::Polarization(pol)], amp)],
    )
}

fn directed_photon(dir: Direction) -> Tensor {
    photon(dir, H, Complex::one())
}

fn default_photon() -> Tensor {
    photon(Direction::Right, H, Complex::one())
}

fn photon_mul(element: Element, state: &Tensor) -> Tensor {
    let mask = vec![false, true, true];
    element.operator().mul_vec_partial(state, &mask, &mask)
}

fn default_mul(element: Element) -> Tensor {
    photon_mul(element, &default_photon())
}

#[test]
fn test_wall() {
    assert!(default_mul(Element::Wall).is_empty());
}

#[test]
fn test_gate() {
    assert!(default_mul(Element::Gate).is_empty());
}

#[test]
fn test_laser() {
    assert!(default_mul(Element::Laser).is_empty());
}

#[test]
fn test_mirror() {
    assert!(default_mul(Element::Mirror(Angle::Right)).is_empty());
}

#[test]
fn mirror_reflects_and_flips_vertical_phase() {
    let up = default_mul(Element::Mirror(Angle::UpLeft));
    assert!(up.equals(&photon(Direction::Up, H, Complex::one())));
    let v = photon_mul(Element::Mirror(Angle::UpLeft), &photon(Direction::Right, V, Complex::one()));
    assert!(v.equals(&photon(Direction::Up, V, Complex::new(-1, 0))));
}

#[test]
fn beam_splitter_splits_evenly() {
    assert!(default_mul(Element::BeamSplitter(Angle::Right)).is_empty());
    let s = frac_1_sqrt_2();
    let is = Complex::i().mul(&s);
    let out = default_mul(Element::BeamSplitter(Angle::Up));
    let expected = photon(Direction::Left, H, s.neg()).add(&photon(Direction::Right, H, is));
    assert!(out.equals(&expected));
    let diagonal = default_mul(Element::BeamSplitter(Angle::UpRight));
    let expected = photon(Direction::Down, H, s.neg()).add(&photon(Direction::Right, H, is));
    assert!(diagonal.equals(&expected));
}

#[test]
fn test_polarizing_beam_splitter() {
    let h_photon = photon(Direction::Right, H, Complex::one());
    let v_photon = photon(Direction::Right, V, Complex::one());
    let mix_photon = h_photon.add(&v_photon);
    let pbs = |a: Angle, t: &Tensor| photon_mul(Element::PolarizingBeamSplitter(a), t);
    assert!(pbs(Angle::Right, &h_photon).equals(&h_photon));
    assert!(pbs(Angle::Up, &h_photon).equals(&h_photon));
    assert!(pbs(Angle::Right, &v_photon).equals(&photon(Direction::Up, V, Complex::one())));
    assert!(pbs(Angle::Up, &v_photon).equals(&photon(Direction::Down, V, Complex::one())));
    assert!(pbs(Angle::Right, &mix_photon).equals(&h_photon.add(&photon(Direction::Up, V, Complex::one()))));
    assert!(pbs(Angle::Up, &mix_photon).equals(&h_photon.add(&photon(Direction::Down, V, Complex::one()))));
}

#[test]
fn test_corner_cube() {
    let cc = |d: Direction| photon_mul(Element::CornerCube, &directed_photon(d));
    assert!(cc(Direction::Up).equals(&directed_photon(Direction::Down)));
    assert!(cc(Direction::Down).equals(&directed_photon(Direction::Up)));
    assert!(cc(Direction::Left).equals(&directed_photon(Direction::Right)));
    assert!(cc(Direction::Right).equals(&directed_photon(Direction::Left)));
}

#[test]
fn test_detector() {
    assert!(default_mul(Element::Detector(Direction::Right)).is_empty());
}

#[test]
fn test_rock() {
    assert!(default_mul(Element::Rock).is_empty());
}

#[test]
fn test_mine() {
    assert!(default_mul(Element::Mine).is_empty());
}

#[test]
fn test_absorber() {
    assert!(default_mul(Element::Absorber).equals(&photon(Direction::Right, H, frac_1_sqrt_2())));
}

#[test]
fn test_detector_four() {
    assert!(default_mul(Element::DetectorFour).is_empty());
}

#[test]
fn test_polarizer() {
    let half = Complex::new(1073741824, 0);
    let photon_45deg = photon(Direction::Right, H, half).add(&photon(Direction::Right, V, half));
    assert!(default_mul(Element::Polarizer(Angle::Up)).is_empty());
    assert!(default_mul(Element::Polarizer(Angle::Down)).is_empty());
    assert!(default_mul(Element::Polarizer(Angle::Right)).equals(&default_photon()));
    assert!(default_mul(Element::Polarizer(Angle::Left)).equals(&default_photon()));
    assert!(default_mul(Element::Polarizer(Angle::UpRight)).equals(&photon_45deg));
}

#[test]
fn test_quarter_wave_plate() {
    assert!(default_mul(Element::QuarterWavePlate(Angle::Right)).equals(&default_photon()));
    let h = Complex::new(1073741824, 1073741824);
    let v = Complex::new(1073741824, -1073741824);
    let expected = photon(Direction::Right, H, h).add(&photon(Direction::Right, V, v));
    assert!(default_mul(Element::QuarterWavePlate(Angle::UpRight)).equals(&expected));
}

#[test]
fn test_half_wave_plate() {
    assert!(default_mul(Element::HalfWavePlate(Angle::Right)).equals(&default_photon()));
    let flipped = photon(Direction::Right, V, Complex::one());
    assert!(default_mul(Element::HalfWavePlate(Angle::UpRight)).equals(&flipped));
}

#[test]
fn wave_plates_shift_the_orthogonal_polarization() {
    let v = photon(Direction::Right, V, Complex::one());
    let quarter = photon_mul(Element::QuarterWavePlate(Angle::Right), &v);
    assert!(quarter.equals(&photon(Direction::Right, V, Complex::i())));
    let half = photon_mul(Element::HalfWavePlate(Angle::Right), &v);
    assert!(half.equals(&photon(Direction::Right, V, Complex::new(-1, 0))));
}

#[test]
fn lossless_elements_are_unitary() {
    let identity = Operator::identity(&vec![Axis::Direction, Axis::Polarization]);
    let mut elements = vec![
        Element::CornerCube,
        Element::SugarSolution,
        Element::Glass,
        Element::VacuumJar,
        Element::PolarizingBeamSplitter(Angle::Right),
        Element::PolarizingBeamSplitter(Angle::Up),
    ];
    for a in [Angle::UpRight, Angle::UpLeft, Angle::DownLeft, Angle::DownRight] {
        elements.push(Element::Mirror(a));
        elements.push(Element::BeamSplitter(a));
    }
    for a in [Angle::Right, Angle::UpRight, Angle::Up, Angle::UpLeft, Angle::Left, Angle::DownLeft, Angle::Down, Angle::DownRight] {
        elements.push(Element::QuarterWavePlate(a));
        elements.push(Element::HalfWavePlate(a));
    }
    for e in elements {
        let m = e.operator();
        assert!(m.dag().mul_op(&m).equals(&identity), "{:?}", e);
    }
}

#[test]
fn test_sugar_solution() {
    let s = frac_1_sqrt_2();
    let expected = photon(Direction::Right, H, s).add(&photon(Direction::Right, V, s.neg()));
    assert!(default_mul(Element::SugarSolution).equals(&expected));
}

#[test]
fn test_faraday_rotator() {
    let s = frac_1_sqrt_2();
    let expected = photon(Direction::Right, H, s).add(&photon(Direction::Right, V, s.neg()));
    assert!(default_mul(Element::FaradayRotator(Direction::Right)).equals(&expected));
    assert!(default_mul(Element::FaradayRotator(Direction::Up)).is_empty());
}

#[test]
fn test_glass() {
    assert!(default_mul(Element::Glass).equals(&photon(Direction::Right, H, Complex::new(0, 1))));
}

#[test]
fn test_vacuum_jar() {
    assert!(default_mul(Element::VacuumJar).equals(&photon(Direction::Right, H, Complex::new(0, -1))));
}

#[test]
fn unsupported_elements_are_reported() {
    assert!(!Element::NonLinearCrystal.is_supported());
    assert!(!Element::CoatedBeamSplitter(Angle::Up).is_supported());
    assert!(Element::Glass.is_supported());
}

#[test]
fn angles_rotate_in_eighths() {
    assert_eq!(Angle::Right.rot45(), Angle::UpRight);
    assert_eq!(Angle::DownRight.rot45(), Angle::Right);
    assert_eq!(Angle::Up.rot90(), Angle::Left);
    assert_eq!(Angle::Left.rot180(), Angle::Right);
    assert_eq!(Angle::Right.rot225(), Angle::DownRight);
    assert_eq!(Angle::Down.rot270(), Angle::Left);
    assert_eq!(Angle::UpLeft.eighths(), 3);
    for a in [Angle::Right, Angle::UpRight, Angle::Up, Angle::UpLeft] {
        assert_eq!(a.rot90().rot90(), a.rot180());
        assert_eq!(a.rot180().rot90(), a.rot270());
    }
}

#[test]
fn angles_give_directions() {
    assert_eq!(Angle::Left.as_direction(), Some(Direction::Right));
    assert_eq!(Angle::Down.as_direction(), Some(Direction::Up));
    assert_eq!(Angle::Right.as_direction(), Some(Direction::Left));
    assert_eq!(Angle::Up.as_direction(), Some(Direction::Down));
    assert_eq!(Angle::UpLeft.as_direction(), None);
}

#[test]
fn two_valued_axes_enumerate_two() {
    assert_eq!(enumerate_two::<Polarization>(), Some((Polarization::H, Polarization::V)));
    assert_eq!(enumerate_two::<Spin>(), Some((Spin::U, Spin::D)));
    assert_eq!(enumerate_two::<Direction>(), None);
    assert_eq!(Direction::enumerate().len(), 4);
    assert_eq!(Direction::Up.opposite(), Direction::Down);
}
