//! Progressive transmission of images: a server cuts the data of an image into
//! steps, a client merges the steps it receives into data that starts out empty.
pub mod client;
pub mod codec;
pub mod compression_step;
pub mod error;
pub mod random_stream;
pub mod raster;
pub mod jpeg_stream;
pub mod order;
pub mod patch;
pub mod restore;
pub mod schedule;
pub mod server;
pub mod stream_strategy;
