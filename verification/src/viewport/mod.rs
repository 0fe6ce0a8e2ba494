pub mod serializable_texture_image;
pub mod grid_texture_atlas;
