//! Content-aware image narrowing by seam carving.
//!
//! Colours are fixed-point: a channel value of `CHANNEL_ONE` stands for full
//! intensity. Brightness, energy and seam costs are exact integers, so every
//! stage has an exact contract:
//! - `energy`: the gradient energy of each pixel;
//! - `seam`: the cost table, the choice of predecessors and the cheapest seam;
//! - `carve`: removing a seam, and carving an image down column by column;
//! - `ppm`: reading and writing the plain-text image format.
pub mod carve;
pub mod color;
pub mod energy;
pub mod matrix;
pub mod ppm;
pub mod seam;
