//! The verified core of an azimuthal-integration and peak-picking library.

pub mod grid;
pub mod label;
pub mod distance;
pub mod bilinear;
pub mod ieee;
pub mod watershed;
pub mod blob;
pub mod split;
pub mod edge;
pub mod quad;
pub mod patch;
pub mod outline;
pub mod sparse;
pub mod builder;
pub mod boundaries;
pub mod double;
pub mod histogram;
pub mod model;
pub mod window;
pub mod pseudo;
pub mod preproc;
pub mod program;
pub mod device;
pub mod launch;
pub mod accumulate;
pub mod array;
pub mod integrate;
pub mod rows;
pub mod parallel;
pub mod split_histogram;
pub mod method;
pub mod multigeometry;
pub mod combine;
pub mod ellipse;
pub mod engine;
