//! Integer core of a Monte-Carlo path tracer: how image rows are split among
//! workers and put back together, the depth-bounded path walk, and the
//! plain-text raster format the image is written in.

pub mod schedule;
pub mod assemble;
pub mod ppm;
pub mod path;
