//! A convex profile swept along an axis, as a shape for collision detection.
pub mod scalar;
pub mod vector;
pub mod fixed;
pub mod ideal;
pub mod series;
pub mod loops;
pub mod moving;
pub mod angle;
pub mod arc;
pub mod winding;
pub mod polygon;
pub mod profile;
pub mod support;
pub mod feature;
pub mod bounds;
pub mod mass;
pub mod shape;
pub mod convex;
pub mod cutting;
pub mod models;
pub mod reach;
pub mod regular;
pub mod turning;
pub mod contact;
pub mod covering;
pub mod moments;
pub mod rotation;
pub mod enclosure;
pub mod circuit;
pub mod outline;
pub mod disc;
pub mod exact;
pub mod steps;
pub mod accuracy;
pub mod lattice;
pub mod grid;
