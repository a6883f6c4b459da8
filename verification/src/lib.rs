//! Colour palettes from sampled video frames.
//!
//! The crate holds the stages of the pipeline, each with a proved
//! contract:
//!
//! - `frame` filters the pixels of a frame: near-white and near-black
//!   pixels are dropped, and so are pixels whose saturation or value lies
//!   under a threshold;
//! - `tally` counts the kept colours over all frames, and `ranking` puts
//!   the counts in order, the larger first;
//! - `cluster` prepares the samples for a k-means run and groups the
//!   ranking into clusters from the outcome of that run.
//!
//! Beside them stand the parameters of a run (`config`, `args`) and the
//! walk over the frames of a video (`video`). Decoding the video and the
//! k-means run itself are the caller's part. Everything here computes in
//! whole numbers: a threshold is held in millionths, and the centre of a
//! cluster arrives with its channels scaled to the range 0 to 255.

pub mod args;
pub mod cluster;
pub mod color;
pub mod config;
pub mod error;
pub mod frame;
pub mod ranking;
pub mod tally;
pub mod video;

pub use args::{parse_duration, DurationError};
pub use cluster::{count_samples, create_color_clusters, weighted_samples, ColorCluster};
pub use color::{Color, Threshold, BLACK_THRESHOLD, WHITE_THRESHOLD};
pub use config::Config;
pub use error::PaletteError;
pub use frame::{extract_colors_from_frame, resized_width, Frame};
pub use ranking::{rank_by_count, top_colors};
pub use tally::{extract_color_ranking_from_video, ColorCounts, FrameRead};
pub use video::VideoFrameIterator;
