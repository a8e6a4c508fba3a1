//! Reading and writing PPM images (ASCII "P3" and binary "P6") to and from
//! an in-memory RGB raster, with the conversion planning around them.

pub mod args;
pub mod decimal;
pub mod ppm;
pub mod raster;
pub mod scan;
pub mod theorems;
