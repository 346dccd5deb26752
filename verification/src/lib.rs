//! Dominant colours of a raster image by octree colour quantization.
//!
//! Every pixel is inserted into an octree that buckets colours by the
//! successive bits of their channels. Whenever the tree holds more leaves
//! than the colour budget allows, the deepest branch that was registered
//! last is merged into one leaf. The surviving leaves are then averaged,
//! folded by colour and ranked by the number of pixels they stand for.
pub mod color;
pub mod node;
pub mod octree;
pub mod palette;
pub mod quantize;
pub mod raster;
pub mod state;
pub mod tree;

pub use color::{HexError, RGB};
pub use palette::Record;
pub use quantize::{load, load_with_maxcolor};
