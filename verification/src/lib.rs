//! Approximate Gaussian blur for row-major RGB images, computed as three
//! successive separable box-blur passes with a sliding-window running sum.

pub mod planner;
pub mod blur;
pub mod laws;
pub mod capture;
