//! Deferred conversion of vertically stacked skybox images into six-layer array textures.
//!
//! A [`SkyboxTextureConversion`] queue holds references to images that should become skybox
//! array textures. Each maintenance pass converts, in place and exactly once, every queued image
//! whose pixel data has become resident in a [`TextureStore`], and leaves the others waiting.
pub mod conversion;
pub mod error;
pub mod laws;
pub mod store;
pub mod texture;

pub use conversion::SkyboxTextureConversion;
pub use error::ConversionError;
pub use store::TextureStore;
pub use texture::{Texture, SKYBOX_LAYERS};
