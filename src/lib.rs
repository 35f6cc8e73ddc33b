//! An in-memory map built on extendible hashing: a directory of bucket
//! indices that doubles when a bucket at full depth overflows.
pub mod bucket;
pub mod map;
pub mod util;

pub use bucket::{Bucket, BucketValue, BUCKET_CAP};
pub use map::HashMap;
pub use util::{bits_to_value, get_first_n_bits};
