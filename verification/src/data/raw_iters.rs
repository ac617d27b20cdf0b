//! Handing out the bytes of files and of areas of an image, buffer by buffer.

pub mod decoded;
pub mod ref_iter;
pub mod stream;
pub mod temp_iter;
pub mod traits;
