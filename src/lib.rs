//! Exact simulation of photons travelling through a grid of optical
//! elements, built on a sparse tensor and operator algebra over composite,
//! runtime-described label keys.
pub mod complex;
pub mod dimensions;
pub mod elements;
pub mod enumerable;
pub mod labels;
pub mod operator;
pub mod simulation;
pub mod tensor;

pub use complex::Complex;
pub use dimensions::{Axis, Coord, Direction, Label, Polarization, Spin};
pub use elements::{Angle, Element};
pub use enumerable::{enumerate_two, Enumerable};
pub use labels::{Dims, Inserter, Joiner};
pub use operator::Operator;
pub use simulation::{Absorption, Grid, Simulation};
pub use tensor::{BothMapsIter, Tensor};
