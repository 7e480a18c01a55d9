//! Extraction of raw sensor data and metadata from camera raw files:
//! TIFF/IFD directory parsing, the Fuji RAF container and the Fuji
//! X-Trans compressed raw format.

pub mod basics;
pub mod text;
pub mod fuji_compressed;
pub mod tiff;
pub mod exif;
pub mod raf;
