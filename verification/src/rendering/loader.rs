//! The record of what has been allocated on the graphics device.

use crate::models::raw_model::RawModel;
use vstd::prelude::*;

verus! {

/// The objects that hold one mesh on the graphics device, as the device numbered them.
#[derive(Clone, Copy, Debug, PartialEq, Eq, Structural)]
pub struct MeshBuffers {
    /// The vertex array object.
    pub vao_id: u32,
    /// The buffer of indices.
    pub index_vbo: u32,
    /// The buffer of vertex positions.
    pub vertex_vbo: u32,
}

/// Everything a loader had recorded, handed out for release.
pub struct Released {
    pub vaos: Vec<u32>,
    pub vbos: Vec<u32>,
    pub textures: Vec<u32>,
}

/// The place of the first mesh recorded under vertex array object `vao_id`, or the
/// number of meshes recorded where none is recorded under it.
pub open spec fn first_record(vaos: Seq<u32>, vao_id: u32) -> int
    decreases vaos.len(),
{
    if vaos.len() == 0 || vaos[0] == vao_id {
        0
    } else {
        1 + first_record(vaos.drop_first(), vao_id)
    }
}

/// The objects of the first mesh recorded under `vao_id`, if one is recorded: its
/// vertex array object and the two buffers recorded with it.
pub open spec fn recorded_buffers(vaos: Seq<u32>, vbos: Seq<u32>, vao_id: u32) -> Option<MeshBuffers> {
    let i = first_record(vaos, vao_id);
    if i < vaos.len() {
        Some(MeshBuffers { vao_id, index_vbo: vbos[2 * i], vertex_vbo: vbos[2 * i + 1] })
    } else {
        None
    }
}

/// The record without the first mesh recorded under `vao_id`: the same record where none
/// is recorded under it.
pub open spec fn record_without(vaos: Seq<u32>, vbos: Seq<u32>, vao_id: u32) -> (Seq<u32>, Seq<u32>) {
    let i = first_record(vaos, vao_id);
    if i < vaos.len() {
        (vaos.remove(i), vbos.remove(2 * i).remove(2 * i))
    } else {
        (vaos, vbos)
    }
}

/// The record after one release for each of `vao_ids` in turn.
pub open spec fn record_after_releases(vaos: Seq<u32>, vbos: Seq<u32>, vao_ids: Seq<u32>) -> (
    Seq<u32>,
    Seq<u32>,
)
    decreases vao_ids.len(),
{
    if vao_ids.len() == 0 {
        (vaos, vbos)
    } else {
        let before = record_after_releases(vaos, vbos, vao_ids.drop_last());
        record_without(before.0, before.1, vao_ids.last())
    }
}

/// The first record under `vao_id` is under `vao_id` and none before it is.
pub proof fn lemma_first_record(vaos: Seq<u32>, vao_id: u32)
    ensures
        0 <= first_record(vaos, vao_id) <= vaos.len(),
        first_record(vaos, vao_id) < vaos.len() ==> vaos[first_record(vaos, vao_id)] == vao_id,
        forall|j: int| 0 <= j < first_record(vaos, vao_id) ==> vaos[j] != vao_id,
        first_record(vaos, vao_id) == vaos.len() <==> !vaos.contains(vao_id),
    decreases vaos.len(),
{
    if vaos.len() > 0 && vaos[0] != vao_id {
        let rest = vaos.drop_first();
        lemma_first_record(rest, vao_id);
        let i = first_record(rest, vao_id);
        assert forall|j: int| 0 <= j < 1 + i implies vaos[j] != vao_id by {
            if j > 0 {
                assert(rest[j - 1] == vaos[j]);
            }
        }
        if i < rest.len() {
            assert(rest[i] == vaos[i + 1]);
        } else {
            if vaos.contains(vao_id) {
                let j = choose|j: int| 0 <= j < vaos.len() && vaos[j] == vao_id;
                assert(rest[j - 1] == vaos[j]);
            }
        }
    }
}

/// A record under `vao_id` with none under it before is the first.
proof fn lemma_first_record_is(vaos: Seq<u32>, vao_id: u32, i: int)
    requires
        0 <= i <= vaos.len(),
        i < vaos.len() ==> vaos[i] == vao_id,
        forall|j: int| 0 <= j < i ==> vaos[j] != vao_id,
    ensures
        first_record(vaos, vao_id) == i,
{
    lemma_first_record(vaos, vao_id);
}

/// Released once: what a release hands out leaves the record, which is one mesh
/// shorter and as well formed as before; and where no two meshes are recorded under one
/// vertex array object, a second release of the same one hands out nothing.
pub proof fn lemma_released_once(vaos: Seq<u32>, vbos: Seq<u32>, vao_id: u32)
    requires
        vbos.len() == 2 * vaos.len(),
    ensures
        ({
            let after = record_without(vaos, vbos, vao_id);
            &&& after.1.len() == 2 * after.0.len()
            &&& recorded_buffers(vaos, vbos, vao_id) is Some ==> after.0.len() == vaos.len() - 1
            &&& recorded_buffers(vaos, vbos, vao_id) is None ==> after == (vaos, vbos)
            &&& vaos.no_duplicates() ==> recorded_buffers(after.0, after.1, vao_id) is None
        }),
{
    lemma_first_record(vaos, vao_id);
    let i = first_record(vaos, vao_id);
    let after = record_without(vaos, vbos, vao_id);
    lemma_first_record(after.0, vao_id);
    if i < vaos.len() && vaos.no_duplicates() {
        if after.0.contains(vao_id) {
            let j = choose|j: int| 0 <= j < after.0.len() && after.0[j] == vao_id;
            if j < i {
                assert(vaos[j] == vao_id);
            } else {
                assert(vaos[j + 1] == vao_id);
            }
        }
    }
}

/// Remembers every vertex array object, buffer and texture that was created, so that
/// each can be released once. A mesh is recorded as one vertex array object and two
/// buffers, its indices and its positions, in the order in which meshes were loaded.
pub struct Loader {
    vaos: Vec<u32>,
    vbos: Vec<u32>,
    textures: Vec<u32>,
}

impl Loader {
    pub closed spec fn spec_vaos(&self) -> Seq<u32> {
        self.vaos@
    }

    pub closed spec fn spec_vbos(&self) -> Seq<u32> {
        self.vbos@
    }

    pub closed spec fn spec_textures(&self) -> Seq<u32> {
        self.textures@
    }

    /// Every vertex array object has its two buffers.
    pub open spec fn wf(&self) -> bool {
        self.spec_vbos().len() == 2 * self.spec_vaos().len()
    }

    /// A loader that has recorded nothing.
    pub fn default() -> (loader: Loader)
        ensures
            loader.wf(),
            loader.spec_vaos() == Seq::<u32>::empty(),
            loader.spec_vbos() == Seq::<u32>::empty(),
            loader.spec_textures() == Seq::<u32>::empty(),
    {
        Loader { vaos: Vec::new(), vbos: Vec::new(), textures: Vec::new() }
    }

    /// Records the objects that hold a mesh and gives the model that draws it: one
    /// vertex for each index.
    pub fn load_to_vao(&mut self, buffers: MeshBuffers, indices: &Vec<u32>) -> (model: RawModel)
        requires
            indices@.len() <= i32::MAX,
        ensures
            final(self).spec_vaos() == old(self).spec_vaos().push(buffers.vao_id),
            final(self).spec_vbos() == old(self).spec_vbos().push(buffers.index_vbo).push(
                buffers.vertex_vbo,
            ),
            final(self).spec_textures() == old(self).spec_textures(),
            old(self).wf() ==> final(self).wf(),
            model.spec_vao_id() == buffers.vao_id,
            model.spec_vertex_count() == indices@.len(),
    {
        let vertex_count: i32 = indices.len() as i32;
        let vao_id: u32 = self.create_vao(buffers.vao_id);
        self.bind_index_buffer(buffers.index_vbo);
        self.store_attb_list_data(buffers.vertex_vbo);
        RawModel::new(vao_id, vertex_count)
    }

    /// Records a vertex array object that was created.
    fn create_vao(&mut self, vao_id: u32) -> (id: u32)
        ensures
            id == vao_id,
            final(self).spec_vaos() == old(self).spec_vaos().push(vao_id),
            final(self).spec_vbos() == old(self).spec_vbos(),
            final(self).spec_textures() == old(self).spec_textures(),
    {
        self.vaos.push(vao_id);
        vao_id
    }

    /// Records the buffer that was created for the positions of a mesh.
    fn store_attb_list_data(&mut self, vbo_id: u32)
        ensures
            final(self).spec_vaos() == old(self).spec_vaos(),
            final(self).spec_vbos() == old(self).spec_vbos().push(vbo_id),
            final(self).spec_textures() == old(self).spec_textures(),
    {
        self.vbos.push(vbo_id);
    }

    /// Records the buffer that was created for the indices of a mesh.
    fn bind_index_buffer(&mut self, vbo_id: u32)
        ensures
            final(self).spec_vaos() == old(self).spec_vaos(),
            final(self).spec_vbos() == old(self).spec_vbos().push(vbo_id),
            final(self).spec_textures() == old(self).spec_textures(),
    {
        self.vbos.push(vbo_id);
    }

    /// Takes the first mesh recorded under vertex array object `vao_id` out of the
    /// record and hands its objects out for release. What is handed out here is not
    /// handed out again, by this function or by [`Loader::clean_up`].
    pub fn release_model(&mut self, vao_id: u32) -> (released: Option<MeshBuffers>)
        requires
            old(self).wf(),
        ensures
            final(self).wf(),
            released == recorded_buffers(old(self).spec_vaos(), old(self).spec_vbos(), vao_id),
            (final(self).spec_vaos(), final(self).spec_vbos()) == record_without(
                old(self).spec_vaos(),
                old(self).spec_vbos(),
                vao_id,
            ),
            final(self).spec_textures() == old(self).spec_textures(),
    {
        let mut i: usize = 0;
        while i < self.vaos.len()
            invariant
                i <= self.vaos.len(),
                self.vaos@ == old(self).vaos@,
                self.vbos@ == old(self).vbos@,
                self.textures@ == old(self).textures@,
                self.wf(),
                forall|j: int| 0 <= j < i ==> self.vaos@[j] != vao_id,
            decreases self.vaos.len() - i,
        {
            if self.vaos[i] == vao_id {
                assert(2 * i + 1 < self.vbos.len());
                proof {
                    lemma_first_record_is(self.vaos@, vao_id, i as int);
                }
                self.vaos.remove(i);
                let index_vbo: u32 = self.vbos.remove(2 * i);
                let vertex_vbo: u32 = self.vbos.remove(2 * i);
                return Some(MeshBuffers { vao_id, index_vbo, vertex_vbo });
            }
            i += 1;
        }
        proof {
            lemma_first_record_is(self.vaos@, vao_id, i as int);
        }
        None
    }

    /// Hands out everything that was recorded, for release, and forgets it: a second
    /// call hands out nothing, so nothing is released twice.
    pub fn clean_up(&mut self) -> (released: Released)
        ensures
            released.vaos@ == old(self).spec_vaos(),
            released.vbos@ == old(self).spec_vbos(),
            released.textures@ == old(self).spec_textures(),
            final(self).spec_vaos() == Seq::<u32>::empty(),
            final(self).spec_vbos() == Seq::<u32>::empty(),
            final(self).spec_textures() == Seq::<u32>::empty(),
    {
        let mut released = Released { vaos: Vec::new(), vbos: Vec::new(), textures: Vec::new() };
        std::mem::swap(&mut self.vaos, &mut released.vaos);
        std::mem::swap(&mut self.vbos, &mut released.vbos);
        std::mem::swap(&mut self.textures, &mut released.textures);
        released
    }
}

} // verus!
