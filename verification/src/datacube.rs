//! What belongs to the axes of a datacube.

pub mod datacube_axis;
