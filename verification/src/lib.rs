//! The verified core of a pipeline that extracts the points of a grid that
//! lie inside a requested shape.
//!
//! Coordinates are points of an integer lattice with two to the power 20
//! units per degree. Whether a polygon contains a point is decided exactly;
//! only the vertices of a cut polygon are rounded to the lattice. Over a
//! point set that lies in the domain they steer the search without deciding
//! its result: a query finds the points that the polygon contains.
//!
//! - `quadtree_mod`: the quadtree over a point set, its polygon query and
//!   its nearest-neighbour search;
//! - `tree_model`, `query_model`, `laws`: what a tree built from a point set
//!   is, what a query returns, and what holds of both;
//! - `slicing_tools`: crossings of a polygon with a line, containment of a
//!   point, and the cut of a convex polygon in two;
//! - `distance`: squared distances between points and to rectangles;
//! - `point_in_polygon`: picking the points inside any polygon;
//! - `healpix_nested`: pixel numbering of the HEALPix grid;
//! - `datacube`: reading a span of time from its text;
//! - `list_tools`, `convert`: bisection of a slice;
//! - `utility`: the error types.

pub mod convert;
pub mod datacube;
pub mod distance;
pub mod healpix_nested;
pub mod laws;
pub mod list_tools;
pub mod point_in_polygon;
pub mod quadtree_mod;
pub mod query_model;
pub mod slicing_tools;
pub mod tree_model;
pub mod utility;
