//! The handle of a mesh that has been handed to the renderer.

use crate::rendering::loader::{record_without, recorded_buffers, Loader, MeshBuffers};
use vstd::prelude::*;

verus! {

/// A mesh on the graphics device: the number of its vertex array object and the number
/// of indices to draw.
#[derive(Clone, Copy, Debug, PartialEq, Eq, Structural)]
pub struct RawModel {
    vao_id: u32,
    vertex_count: i32,
}

impl RawModel {
    pub closed spec fn spec_vao_id(&self) -> u32 {
        self.vao_id
    }

    pub closed spec fn spec_vertex_count(&self) -> i32 {
        self.vertex_count
    }

    /// A model is its two numbers: models with the same numbers are the same model.
    pub proof fn lemma_same_numbers(a: RawModel, b: RawModel)
        requires
            a.spec_vao_id() == b.spec_vao_id(),
            a.spec_vertex_count() == b.spec_vertex_count(),
        ensures
            a == b,
    {
    }

    pub fn new(vao_id: u32, vertex_count: i32) -> (model: RawModel)
        ensures
            model.spec_vao_id() == vao_id,
            model.spec_vertex_count() == vertex_count,
    {
        RawModel { vao_id, vertex_count }
    }

    pub fn get_vao_id(&mut self) -> (id: u32)
        ensures
            id == old(self).spec_vao_id(),
            *final(self) == *old(self),
    {
        self.vao_id
    }

    pub fn get_vertex_count(&mut self) -> (count: i32)
        ensures
            count == old(self).spec_vertex_count(),
            *final(self) == *old(self),
    {
        self.vertex_count
    }

    /// Releases the model: takes the mesh recorded under the model's vertex array object
    /// out of the loader's record and hands out its objects, for the caller to delete
    /// them on the graphics device. Where no mesh is recorded under it, because it was
    /// released before or never recorded with this loader, nothing is handed out and the
    /// record stays as it is. The model itself keeps its numbers.
    pub fn clean_model(&mut self, loader: &mut Loader) -> (released: Option<MeshBuffers>)
        requires
            old(loader).wf(),
        ensures
            *final(self) == *old(self),
            final(loader).wf(),
            released == recorded_buffers(
                old(loader).spec_vaos(),
                old(loader).spec_vbos(),
                old(self).spec_vao_id(),
            ),
            (final(loader).spec_vaos(), final(loader).spec_vbos()) == record_without(
                old(loader).spec_vaos(),
                old(loader).spec_vbos(),
                old(self).spec_vao_id(),
            ),
            final(loader).spec_textures() == old(loader).spec_textures(),
    {
        loader.release_model(self.vao_id)
    }
}

} // verus!
