//! Integer rasterization primitives: symmetry transforms and Bresenham
//! line and circle drawing.

pub mod circle;
pub mod line;
pub mod octant;
pub mod quadrant;

pub use circle::{BresenhamCircle, BresenhamCircleNoDiag};
pub use line::BresenhamLine;
pub use octant::Octant;
pub use quadrant::Quadrant;
