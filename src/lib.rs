//! Sprite-sheet manifests turned into texture atlases, and the engine that
//! gives each atlas its final size once the image behind it has loaded.

pub mod region;
pub mod manifest;
pub mod atlas;
pub mod resolver;
pub mod resolver_laws;
