pub mod bits;
pub mod device;
pub mod packet;
pub mod raster;
pub mod screen;
