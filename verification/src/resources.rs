use vstd::prelude::*;

verus! {

/// Index of a loaded mesh.
pub type MeshId = usize;

/// Index of a loaded texture.
pub type TextureId = usize;

/// Finds loaded meshes and textures by name.
pub trait ResourceProvider: Send + Sync {
    fn get_mesh(&self, name: &str) -> Option<MeshId>;

    fn get_texture(&self, name: &str) -> Option<TextureId>;
}

/// A resource manager that holds nothing, for running the engine without a
/// graphics device.
pub struct MockResourceManager {}

impl ResourceProvider for MockResourceManager {
    /// No mesh is ever found.
    fn get_mesh(&self, _name: &str) -> (r: Option<MeshId>)
        ensures
            r is None,
    {
        None
    }

    /// No texture is ever found.
    fn get_texture(&self, _name: &str) -> (r: Option<TextureId>)
        ensures
            r is None,
    {
        None
    }
}

} // verus!
