pub mod bits;
pub mod color;
pub mod config;
pub mod decoder;
pub mod encoder;
pub mod error;

pub use config::{ColorCount, EccLevel, JabConfig};
pub use error::{JabError, Result};
pub use encoder::{encode, encode_parallel, encode_rgba, EncodedJab};
pub use decoder::{locate_grid, image_decode_job, matrix_decode_job, take_payload, DecodeJob, ImageDecodeJob};
