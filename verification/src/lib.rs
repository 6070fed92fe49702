//! Reading and writing the asset formats of the racing game Redline (1999):
//! `bgd` archives, `btf` textures and `geo` models.

pub mod reader;
pub mod text;
pub mod texture;
pub mod archive;
pub mod model;
