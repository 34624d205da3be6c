use quantum_tensors::{Angle, Complex, Coord, Direction, Element, Grid, Label, Polarization, Simulation, Tensor};

fn key(photons: &[(u16, u16, Direction, Polarization)]) -> Vec<Label> {
    let mut k = Vec::new();
    for &(x, y, d, p) in photons {
        k.push(Label::Coord(Coord::new(x, y)));
        k.push(Label::Direction(d));
        k.push(Label::Polarization(p));
    }
    k
}

fn state(photons: &[(u16, u16, Direction, Polarization)], amp: Complex) -> Tensor {
    Tensor::from_values(3 * photons.len(), &vec![(key(photons), amp)])
}

fn sim_with_elem(elem: Element) -> Simulation {
    let mut grid = Grid::new(5, 5);
    grid.insert(Coord::new(2, 2), elem);
    Simulation::new(&grid)
}

use Direction::{Right, Up};
use Polarization::{H, V};

#[test]
fn photons_should_operate_on_single_photon() {
    let simulation = sim_with_elem(Element::Mirror(Angle::UpLeft));
    let one = Complex::one();
    let initial = state(&[(0, 2, Right, H)], one);
    let mut it = simulation.simulate_iter(&initial, 1);
    let expected = [
        state(&[(0, 2, Right, H)], one),
        state(&[(1, 2, Right, H)], one),
        state(&[(2, 2, Up, H)], one),
        state(&[(2, 1, Up, H)], one),
        state(&[(2, 0, Up, H)], one),
    ];
    for frame in expected.iter() {
        let (got, absorptions) = simulation.next_frame(&mut it).expect("a frame");
        assert!(got.equals(frame));
        assert!(absorptions.is_empty());
    }
    assert!(simulation.next_frame(&mut it).is_none());
    assert!(simulation.next_frame(&mut it).is_none());
}

#[test]
fn photons_should_operate_on_two_photons() {
    let simulation = sim_with_elem(Element::Mirror(Angle::UpLeft));
    let one = Complex::one();
    let minus = Complex::new(-1, 0);
    let initial = state(&[(1, 2, Right, H), (2, 4, Up, V)], one);
    let frames = simulation.simulate(&initial, 2, 4);
    assert_eq!(frames.len(), 4);
    assert!(frames[0].0.equals(&initial));
    assert!(frames[1].0.equals(&state(&[(2, 2, Up, H), (2, 3, Up, V)], one)));
    assert!(frames[2].0.equals(&state(&[(2, 1, Up, H), (2, 2, Right, V)], minus)));
    assert!(frames[3].0.equals(&state(&[(2, 0, Up, H), (3, 2, Right, V)], minus)));
    for (_, absorptions) in frames.iter() {
        assert!(absorptions.is_empty());
    }
}

#[test]
fn two_photons_reflect_independently() {
    let mut grid = Grid::new(6, 6);
    grid.insert(Coord::new(1, 1), Element::Mirror(Angle::UpLeft));
    grid.insert(Coord::new(4, 4), Element::Mirror(Angle::UpLeft));
    let simulation = Simulation::new(&grid);
    let one = Complex::one();
    let initial = state(&[(0, 1, Right, H), (2, 4, Right, V)], one);
    let frames = simulation.simulate(&initial, 2, 3);
    assert_eq!(frames.len(), 3);
    assert!(frames[1].0.equals(&state(&[(1, 1, Up, H), (3, 4, Right, V)], one)));
    assert!(frames[2].0.equals(&state(&[(1, 0, Up, H), (4, 4, Up, V)], Complex::new(-1, 0))));
}

#[test]
fn two_photons_reflect_in_the_same_frame() {
    let mut grid = Grid::new(6, 6);
    grid.insert(Coord::new(1, 1), Element::Mirror(Angle::UpLeft));
    grid.insert(Coord::new(4, 4), Element::Mirror(Angle::UpLeft));
    let simulation = Simulation::new(&grid);
    let one = Complex::one();
    let initial = state(&[(0, 1, Right, H), (3, 4, Right, V)], one);
    let frames = simulation.simulate(&initial, 2, 3);
    assert_eq!(frames.len(), 3);
    assert!(frames[1].0.equals(&state(&[(1, 1, Up, H), (4, 4, Up, V)], Complex::new(-1, 0))));
    assert!(frames[1].1.is_empty());
    assert!(frames[2].0.equals(&state(&[(1, 0, Up, H), (4, 3, Up, V)], Complex::new(-1, 0))));
}

#[test]
fn absorber_halves_the_probability() {
    let simulation = sim_with_elem(Element::Absorber);
    let initial = state(&[(1, 2, Right, H)], Complex::one());
    let frames = simulation.simulate(&initial, 1, 3);
    assert_eq!(frames.len(), 3);
    assert!(frames[1].0.equals(&state(&[(2, 2, Right, H)], Complex::new(32768, 0))));
    let absorptions = &frames[1].1;
    assert_eq!(absorptions.len(), 1);
    assert_eq!(absorptions[0].coord, Coord::new(2, 2));
    assert_eq!(absorptions[0].photon_id, 0);
    assert_eq!(absorptions[0].probability, 1073741824);
    assert!(frames[2].1.is_empty());
}

#[test]
fn wall_absorbs_everything_and_ends_the_run() {
    let simulation = sim_with_elem(Element::Wall);
    let initial = state(&[(1, 2, Right, H)], Complex::one());
    let frames = simulation.simulate(&initial, 1, 10);
    assert_eq!(frames.len(), 2);
    assert_eq!(frames[1].1.len(), 1);
    assert_eq!(frames[1].1[0].probability, 1);
    assert!(frames[1].0.is_empty());
}

#[test]
fn empty_initial_state_gives_no_frames() {
    let simulation = sim_with_elem(Element::Glass);
    assert!(simulation.simulate(&Tensor::zeros(3), 1, 5).is_empty());
}

#[test]
fn propagate_drops_photons_leaving_the_grid() {
    let simulation = sim_with_elem(Element::Glass);
    let initial = state(&[(4, 0, Right, H)], Complex::one());
    assert!(simulation.propagate(&initial, 1).is_empty());
    let inside = state(&[(3, 0, Right, H)], Complex::one());
    assert!(simulation.propagate(&inside, 1).equals(&state(&[(4, 0, Right, H)], Complex::one())));
}

#[test]
fn norm_is_conserved_through_unitary_elements() {
    let mut grid = Grid::new(7, 7);
    grid.insert(Coord::new(2, 3), Element::BeamSplitter(Angle::UpLeft));
    grid.insert(Coord::new(4, 3), Element::HalfWavePlate(Angle::UpRight));
    grid.insert(Coord::new(2, 1), Element::Mirror(Angle::UpRight));
    let simulation = Simulation::new(&grid);
    let initial = state(&[(0, 3, Right, H)], Complex::one());
    let frames = simulation.simulate(&initial, 1, 5);
    assert_eq!(frames.len(), 5);
    for (frame, _) in frames.iter() {
        assert_eq!(frame.norm_squared(), 1);
    }
}

#[test]
fn grid_insert_replaces_the_element() {
    let mut grid = Grid::new(3, 3);
    grid.insert(Coord::new(1, 1), Element::Wall);
    grid.insert(Coord::new(1, 1), Element::Glass);
    assert_eq!(grid.elements.len(), 1);
    assert_eq!(grid.elements[0], (Coord::new(1, 1), Element::Glass));
}
