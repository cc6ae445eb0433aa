pub mod dist_transform;
pub mod gray;
pub mod img;
pub mod iwp;
pub mod mr;
pub mod parallel_img;
pub mod raster;

pub use crate::dist_transform::{dist_transform, dist_transform_parallel, DistTypes};
pub use crate::gray::{Image32, Image8};
pub use crate::img::{convert_to_binary, get_pixel_neighbours, ConnTypes, PixelT};
pub use crate::mr::{morph_reconstruction, morph_reconstruction_parallel};
pub use crate::raster::Raster;
