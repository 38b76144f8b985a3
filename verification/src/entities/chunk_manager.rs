//! The cache of chunks around the camera.
//!
//! Each frame the manager drops what lies outside a cube round the camera's chunk and
//! visits the chunks in view. It neither samples the density nor talks to the graphics
//! device. [`ChunkManager::generate_chunk_models`] is handed two functions that do, and
//! runs the whole frame. [`ChunkManager::frame_step`] only says what is missing first:
//! the caller supplies it through [`ChunkManager::get_or_create_chunk`] or
//! [`ChunkManager::get_or_create_mesh`], and asks again until the frame is ready.

use crate::entities::basic_marching_cubes::{
    bound_fits, mesh_fits, sample_lattice, settings_fit, weight_sampled, MCChunk,
};
use crate::entities::table_reader::TriangulationTable;
use crate::models::raw_model::RawModel;
use crate::rendering::loader::{
    record_after_releases, recorded_buffers, Loader, MeshBuffers,
};
use crate::utils::constants::{CHUNK_BOUNDS, CHUNK_VIEW_LIMIT, TEST_ISOVALUE_BITS};
use crate::utils::offset::{
    cube_distance, key_of, lemma_key_of_offset, lemma_offset_of_key, offset_of, spec_key,
    spec_offset_of, Offset, KEY_LIMIT,
};
use std::collections::HashMap;
use vstd::prelude::*;
use vstd::std_specs::iter::IteratorSpec;

verus! {

/// An offset lies outside the cube of chunks that is kept around the camera: along some
/// axis it is more than `view_limit` steps from the camera's offset.
pub open spec fn out_of_gridspace(offset: Offset, camera_gridspace: Offset, view_limit: i32) -> bool {
    ||| offset.x > camera_gridspace.x + view_limit
    ||| offset.x < camera_gridspace.x - view_limit
    ||| offset.y > camera_gridspace.y + view_limit
    ||| offset.y < camera_gridspace.y - view_limit
    ||| offset.z > camera_gridspace.z + view_limit
    ||| offset.z < camera_gridspace.z - view_limit
}

/// The kept region is a cube, not a ball: an offset is outside exactly when its greatest
/// distance from the camera's offset along any axis exceeds the limit.
pub proof fn lemma_gridspace_is_a_cube(offset: Offset, camera_gridspace: Offset, view_limit: i32)
    ensures
        out_of_gridspace(offset, camera_gridspace, view_limit) <==> cube_distance(
            offset,
            camera_gridspace,
        ) > view_limit,
{
}

/// The keys of a map, each once, in no particular order.
fn key_list<V>(map: &HashMap<u128, V>) -> (keys: Vec<u128>)
    ensures
        keys@.no_duplicates(),
        forall|k: u128| keys@.contains(k) <==> map@.contains_key(k),
{
    broadcast use vstd::std_specs::hash::group_hash_axioms;

    let mut keys: Vec<u128> = Vec::new();
    let ghost all = map.keys().remaining();
    for key in it: map.keys()
        invariant
            it.seq() == all,
            keys@.len() == it.index(),
            forall|j: int| 0 <= j < it.index() ==> keys@[j] == *all[j],
    {
        keys.push(*key);
    }
    assert(keys@ == all.unref());
    assert(all.unref().to_set() == map@.dom());
    assert forall|k: u128| keys@.contains(k) <==> map@.contains_key(k) by {
        assert(keys@.to_set().contains(k) <==> keys@.contains(k));
    }
    assert(keys@.no_duplicates()) by {
        assert forall|i: int, j: int| 0 <= i < keys@.len() && 0 <= j < keys@.len() && i != j implies keys@[i]
            != keys@[j] by {
            assert(all[i] != all[j]);
        }
    }
    keys
}

/// The offsets that are kept when everything outside the cube round `center` goes.
pub open spec fn gridspace(center: Offset, radius: i32) -> Set<Offset> {
    Set::new(|o: Offset| !out_of_gridspace(o, center, radius))
}

/// `released` holds exactly the models that lay outside the cube round `center`, each
/// once and with its offset, in no particular order.
pub open spec fn released_exactly(
    released: Seq<(Offset, RawModel)>,
    models: Map<Offset, RawModel>,
    center: Offset,
    radius: i32,
) -> bool {
    &&& forall|i: int, j: int|
        0 <= i < j < released.len() ==> (#[trigger] released[i]).0 != (#[trigger] released[j]).0
    &&& forall|i: int|
        0 <= i < released.len() ==> {
            &&& models.contains_key((#[trigger] released[i]).0)
            &&& out_of_gridspace(released[i].0, center, radius)
            &&& released[i].1 == models[released[i].0]
        }
    &&& forall|o: Offset| #[trigger]
        models.contains_key(o) && out_of_gridspace(o, center, radius) ==> exists|i: int|
            0 <= i < released.len() && (#[trigger] released[i]).0 == o
}

/// The key is one of the first `n` keys.
spec fn among(keys: Seq<u128>, n: int, k: u128) -> bool {
    exists|j: int| 0 <= j < n && #[trigger] keys[j] == k
}

/// An entry with this key was taken out.
spec fn listed<V>(removed: Seq<(u128, V)>, k: u128) -> bool {
    exists|j: int| 0 <= j < removed.len() && (#[trigger] removed[j]).0 == k
}

/// The offset filed under the key lies outside the cube round `center`.
spec fn key_out(k: u128, center: Offset, radius: i32) -> bool {
    out_of_gridspace(spec_offset_of(k as int), center, radius)
}

/// Takes out of the map every entry whose offset lies outside the cube round `center`.
fn evict_keys<V>(map: &mut HashMap<u128, V>, center: Offset, radius: i32) -> (removed: Vec<
    (u128, V),
>)
    requires
        forall|k: u128| #[trigger] old(map)@.contains_key(k) ==> k < KEY_LIMIT,
    ensures
        forall|k: u128| #[trigger]
            final(map)@.contains_key(k) <==> old(map)@.contains_key(k) && !key_out(k, center, radius),
        forall|k: u128| #[trigger] final(map)@.contains_key(k) ==> final(map)@[k] == old(map)@[k],
        forall|j: int|
            0 <= j < removed@.len() ==> {
                &&& old(map)@.contains_key((#[trigger] removed@[j]).0)
                &&& key_out(removed@[j].0, center, radius)
                &&& removed@[j].1 == old(map)@[removed@[j].0]
            },
        forall|k: u128|
            old(map)@.contains_key(k) && key_out(k, center, radius) ==> #[trigger] listed(
                removed@,
                k,
            ),
        forall|i: int, j: int|
            0 <= i < j < removed@.len() ==> (#[trigger] removed@[i]).0 != (#[trigger] removed@[j]).0,
{
    broadcast use vstd::std_specs::hash::group_hash_axioms;

    let keys: Vec<u128> = key_list(map);
    let ghost before = map@;
    let mut removed: Vec<(u128, V)> = Vec::new();
    let mut i: usize = 0;
    while i < keys.len()
        invariant
            i <= keys.len(),
            keys@.no_duplicates(),
            forall|k: u128| keys@.contains(k) <==> before.contains_key(k),
            forall|k: u128| #[trigger] before.contains_key(k) ==> k < KEY_LIMIT,
            forall|k: u128| #[trigger]
                map@.contains_key(k) <==> before.contains_key(k) && !(among(keys@, i as int, k)
                    && key_out(k, center, radius)),
            forall|k: u128| #[trigger] map@.contains_key(k) ==> map@[k] == before[k],
            forall|j: int|
                0 <= j < removed@.len() ==> {
                    &&& among(keys@, i as int, (#[trigger] removed@[j]).0)
                    &&& before.contains_key(removed@[j].0)
                    &&& key_out(removed@[j].0, center, radius)
                    &&& removed@[j].1 == before[removed@[j].0]
                },
            forall|k: u128|
                among(keys@, i as int, k) && key_out(k, center, radius) ==> #[trigger] listed(
                    removed@,
                    k,
                ),
            forall|a: int, b: int|
                0 <= a < b < removed@.len() ==> (#[trigger] removed@[a]).0 != (
                #[trigger] removed@[b]).0,
        decreases keys.len() - i,
    {
        let key: u128 = keys[i];
        let ghost taken = removed@;
        assert(keys@.contains(key));
        assert(!among(keys@, i as int, key));
        assert forall|k: u128| among(keys@, i + 1, k) <==> among(keys@, i as int, k) || k == key by {
            if among(keys@, i + 1, k) {
                let j = choose|j: int| 0 <= j < i + 1 && #[trigger] keys@[j] == k;
                if j < i {
                    assert(among(keys@, i as int, k));
                }
            }
            if k == key {
                assert(keys@[i as int] == k);
            }
        }
        let offset: Offset = offset_of(key);
        if ChunkManager::check_offset_out_of_gridspace(&offset, &center, radius) {
            match map.remove(&key) {
                Some(value) => {
                    removed.push((key, value));
                    assert(removed@[taken.len() as int].0 == key);
                    assert forall|k: u128|
                        among(keys@, i + 1, k) && key_out(k, center, radius) implies #[trigger] listed(
                        removed@,
                        k,
                    ) by {
                        if k != key {
                            assert(listed(taken, k));
                            let j = choose|j: int| 0 <= j < taken.len() && (#[trigger] taken[j]).0 == k;
                            assert(removed@[j].0 == k);
                        }
                    }
                },
                None => {},
            }
        }
        i += 1;
    }
    assert forall|k: u128| before.contains_key(k) implies among(keys@, keys@.len() as int, k) by {
        assert(keys@.contains(k));
        let j = choose|j: int| 0 <= j < keys@.len() && keys@[j] == k;
        assert(keys@[j] == k);
    }
    removed
}

/// The camera's cube of view can be walked without leaving the grid of chunks: along
/// each axis both ends of the range are coordinates.
pub open spec fn view_in_reach(camera_gridspace: Offset, view_limit: i32) -> bool {
    &&& i32::MIN <= camera_gridspace.x - view_limit <= i32::MAX
    &&& i32::MIN <= camera_gridspace.x + view_limit <= i32::MAX
    &&& i32::MIN <= camera_gridspace.y - view_limit <= i32::MAX
    &&& i32::MIN <= camera_gridspace.y + view_limit <= i32::MAX
    &&& i32::MIN <= camera_gridspace.z - view_limit <= i32::MAX
    &&& i32::MIN <= camera_gridspace.z + view_limit <= i32::MAX
}

/// An offset is in view: along each axis it is at least `view_limit` steps below the
/// camera's offset and less than `view_limit` steps above it.
pub open spec fn in_view(offset: Offset, camera_gridspace: Offset, view_limit: i32) -> bool {
    &&& camera_gridspace.x - view_limit <= offset.x < camera_gridspace.x + view_limit
    &&& camera_gridspace.y - view_limit <= offset.y < camera_gridspace.y + view_limit
    &&& camera_gridspace.z - view_limit <= offset.z < camera_gridspace.z + view_limit
}

/// The number of offsets in view along one axis.
pub open spec fn view_width(view_limit: i32) -> int {
    if view_limit > 0 {
        2 * view_limit
    } else {
        0
    }
}

/// The offsets `(x, y, z0)` to `(x, y, z0 + n - 1)`.
pub open spec fn view_line(x: int, y: int, z0: int, n: int) -> Seq<Offset> {
    Seq::new(
        if n > 0 {
            n as nat
        } else {
            0
        },
        |k: int| Offset { x: x as i32, y: y as i32, z: (z0 + k) as i32 },
    )
}

/// The lines `(x, y0)` to `(x, y0 + n - 1)`, each of `w` offsets from `z0` on.
pub open spec fn view_slab(x: int, y0: int, z0: int, w: int, n: int) -> Seq<Offset>
    decreases n,
{
    if n <= 0 {
        Seq::empty()
    } else {
        view_slab(x, y0, z0, w, n - 1) + view_line(x, y0 + n - 1, z0, w)
    }
}

/// The slabs `x0` to `x0 + n - 1`, each of `w` lines of `w` offsets.
pub open spec fn view_block(x0: int, y0: int, z0: int, w: int, n: int) -> Seq<Offset>
    decreases n,
{
    if n <= 0 {
        Seq::empty()
    } else {
        view_block(x0, y0, z0, w, n - 1) + view_slab(x0 + n - 1, y0, z0, w, w)
    }
}

/// The offsets in view, in the order in which a frame visits them: x outermost, z
/// innermost, each rising.
pub open spec fn spec_view_offsets(camera_gridspace: Offset, view_limit: i32) -> Seq<Offset> {
    let w = view_width(view_limit);
    view_block(
        camera_gridspace.x - view_limit,
        camera_gridspace.y - view_limit,
        camera_gridspace.z - view_limit,
        w,
        w,
    )
}

/// The frame is complete: every offset in view has its model, and `models` holds them
/// in the order of the view.
pub open spec fn frame_ready(view: Seq<Offset>, cached: Map<Offset, RawModel>, models: Seq<RawModel>) -> bool {
    &&& models.len() == view.len()
    &&& forall|i: int|
        0 <= i < view.len() ==> cached.contains_key(#[trigger] view[i]) && models[i] == cached[view[i]]
}

/// `offset` is the first offset in view that has no model.
pub open spec fn first_without_model(view: Seq<Offset>, cached: Map<Offset, RawModel>, offset: Offset) -> bool {
    exists|i: int|
        {
            &&& 0 <= i < view.len()
            &&& #[trigger] view[i] == offset
            &&& !cached.contains_key(offset)
            &&& forall|j: int| 0 <= j < i ==> cached.contains_key(#[trigger] view[j])
        }
}

/// The cache after a chunk was asked for at `offset`: as before where a chunk was
/// cached there, else with `built` added.
pub open spec fn chunks_after_request(
    chunks: Map<Offset, MCChunk>,
    offset: Offset,
    built: MCChunk,
) -> Map<Offset, MCChunk> {
    if chunks.contains_key(offset) {
        chunks
    } else {
        chunks.insert(offset, built)
    }
}

/// Asking twice is asking once: whatever a second request would build, it leaves the
/// cache as the first left it and finds the chunk that the first found or built.
pub proof fn lemma_request_is_idempotent(
    chunks: Map<Offset, MCChunk>,
    offset: Offset,
    first: MCChunk,
    second: MCChunk,
)
    ensures
        ({
            let once = chunks_after_request(chunks, offset, first);
            let twice = chunks_after_request(once, offset, second);
            &&& once.contains_key(offset)
            &&& twice == once
            &&& twice[offset] == once[offset]
        }),
{
}

/// What is in view is inside the cube that eviction keeps: a chunk created for an
/// offset in view is at most `view_limit` steps from the camera along every axis.
pub proof fn lemma_view_is_kept(offset: Offset, camera_gridspace: Offset, view_limit: i32)
    requires
        in_view(offset, camera_gridspace, view_limit),
    ensures
        !out_of_gridspace(offset, camera_gridspace, view_limit),
        cube_distance(offset, camera_gridspace) <= view_limit,
{
}

/// The cache stays inside the cube: a chunk that is cached for an offset in view is no
/// further from the camera than what eviction keeps.
pub proof fn lemma_request_keeps_the_cube(
    chunks: Map<Offset, MCChunk>,
    offset: Offset,
    built: MCChunk,
    camera_gridspace: Offset,
    view_limit: i32,
)
    requires
        forall|o: Offset| #[trigger]
            chunks.contains_key(o) ==> cube_distance(o, camera_gridspace) <= view_limit,
        in_view(offset, camera_gridspace, view_limit),
    ensures
        forall|o: Offset| #[trigger]
            chunks_after_request(chunks, offset, built).contains_key(o) ==> cube_distance(
                o,
                camera_gridspace,
            ) <= view_limit,
{
}

proof fn lemma_view_slab(x: int, y0: int, z0: int, w: int, n: int)
    requires
        0 <= n,
        0 <= w,
        i32::MIN <= x <= i32::MAX,
        i32::MIN <= y0,
        y0 + n - 1 <= i32::MAX,
        i32::MIN <= z0,
        z0 + w - 1 <= i32::MAX,
    ensures
        view_slab(x, y0, z0, w, n).len() == n * w,
        view_slab(x, y0, z0, w, n).no_duplicates(),
        forall|i: int|
            0 <= i < view_slab(x, y0, z0, w, n).len() ==> {
                let o = #[trigger] view_slab(x, y0, z0, w, n)[i];
                o.x == x && y0 <= o.y < y0 + n && z0 <= o.z < z0 + w
            },
        forall|o: Offset|
            o.x == x && y0 <= o.y < y0 + n && z0 <= o.z < z0 + w ==> view_slab(
                x,
                y0,
                z0,
                w,
                n,
            ).contains(o),
    decreases n,
{
    let slab = view_slab(x, y0, z0, w, n);
    if n > 0 {
        lemma_view_slab(x, y0, z0, w, n - 1);
        let before = view_slab(x, y0, z0, w, n - 1);
        let line = view_line(x, y0 + n - 1, z0, w);
        assert(slab == before + line);
        assert(n * w == (n - 1) * w + w) by (nonlinear_arith);
        assert forall|o: Offset|
            o.x == x && y0 <= o.y < y0 + n && z0 <= o.z < z0 + w implies slab.contains(o) by {
            if o.y < y0 + n - 1 {
                assert(before.contains(o));
                let i = choose|i: int| 0 <= i < before.len() && before[i] == o;
                assert(slab[i] == o);
            } else {
                let k = o.z - z0;
                assert(line[k] == o);
                assert(slab[before.len() + k] == o);
            }
        }
        assert forall|i: int, j: int| 0 <= i < slab.len() && 0 <= j < slab.len() && i != j implies slab[i]
            != slab[j] by {
            if i < before.len() && j < before.len() {
                assert(before[i] != before[j]);
            } else if i >= before.len() && j >= before.len() {
                assert(line[i - before.len()] != line[j - before.len()]);
            } else if i < before.len() {
                assert(before[i].y < y0 + n - 1);
                assert(line[j - before.len()].y == y0 + n - 1);
            } else {
                assert(before[j].y < y0 + n - 1);
                assert(line[i - before.len()].y == y0 + n - 1);
            }
        }
        assert forall|i: int| 0 <= i < slab.len() implies ({
            let o = #[trigger] slab[i];
            o.x == x && y0 <= o.y < y0 + n && z0 <= o.z < z0 + w
        }) by {
            if i < before.len() {
                assert(slab[i] == before[i]);
            } else {
                assert(slab[i] == line[i - before.len()]);
            }
        }
    } else {
        assert(n * w == 0) by (nonlinear_arith)
            requires
                n == 0,
        ;
    }
}

proof fn lemma_view_block(x0: int, y0: int, z0: int, w: int, n: int)
    requires
        0 <= n,
        0 <= w,
        i32::MIN <= x0,
        x0 + n - 1 <= i32::MAX,
        i32::MIN <= y0,
        y0 + w - 1 <= i32::MAX,
        i32::MIN <= z0,
        z0 + w - 1 <= i32::MAX,
    ensures
        view_block(x0, y0, z0, w, n).len() == n * (w * w),
        view_block(x0, y0, z0, w, n).no_duplicates(),
        forall|i: int|
            0 <= i < view_block(x0, y0, z0, w, n).len() ==> {
                let o = #[trigger] view_block(x0, y0, z0, w, n)[i];
                x0 <= o.x < x0 + n && y0 <= o.y < y0 + w && z0 <= o.z < z0 + w
            },
        forall|o: Offset|
            x0 <= o.x < x0 + n && y0 <= o.y < y0 + w && z0 <= o.z < z0 + w ==> view_block(
                x0,
                y0,
                z0,
                w,
                n,
            ).contains(o),
    decreases n,
{
    let block = view_block(x0, y0, z0, w, n);
    if n > 0 {
        lemma_view_block(x0, y0, z0, w, n - 1);
        lemma_view_slab(x0 + n - 1, y0, z0, w, w);
        let before = view_block(x0, y0, z0, w, n - 1);
        let slab = view_slab(x0 + n - 1, y0, z0, w, w);
        assert(block == before + slab);
        assert(n * (w * w) == (n - 1) * (w * w) + w * w) by (nonlinear_arith);
        assert forall|o: Offset|
            x0 <= o.x < x0 + n && y0 <= o.y < y0 + w && z0 <= o.z < z0 + w implies block.contains(
            o,
        ) by {
            if o.x < x0 + n - 1 {
                assert(before.contains(o));
                let i = choose|i: int| 0 <= i < before.len() && before[i] == o;
                assert(block[i] == o);
            } else {
                assert(slab.contains(o));
                let k = choose|k: int| 0 <= k < slab.len() && slab[k] == o;
                assert(block[before.len() + k] == o);
            }
        }
        assert forall|i: int, j: int| 0 <= i < block.len() && 0 <= j < block.len() && i != j implies block[i]
            != block[j] by {
            if i < before.len() && j < before.len() {
                assert(before[i] != before[j]);
            } else if i >= before.len() && j >= before.len() {
                assert(slab[i - before.len()] != slab[j - before.len()]);
            } else if i < before.len() {
                assert(before[i].x < x0 + n - 1);
                assert(slab[j - before.len()].x == x0 + n - 1);
            } else {
                assert(before[j].x < x0 + n - 1);
                assert(slab[i - before.len()].x == x0 + n - 1);
            }
        }
        assert forall|i: int| 0 <= i < block.len() implies ({
            let o = #[trigger] block[i];
            x0 <= o.x < x0 + n && y0 <= o.y < y0 + w && z0 <= o.z < z0 + w
        }) by {
            if i < before.len() {
                assert(block[i] == before[i]);
            } else {
                assert(block[i] == slab[i - before.len()]);
            }
        }
    } else {
        assert(n * (w * w) == 0) by (nonlinear_arith)
            requires
                n == 0,
        ;
    }
}

/// A frame visits each offset in view once and no other: with a view limit of `L` that
/// is `(2 L)^3` offsets, whatever is cached.
pub proof fn lemma_view_offsets(camera_gridspace: Offset, view_limit: i32)
    requires
        view_in_reach(camera_gridspace, view_limit),
    ensures
        spec_view_offsets(camera_gridspace, view_limit).len() == view_width(view_limit) * (
        view_width(view_limit) * view_width(view_limit)),
        spec_view_offsets(camera_gridspace, view_limit).no_duplicates(),
        forall|o: Offset|
            spec_view_offsets(camera_gridspace, view_limit).contains(o) <==> in_view(
                o,
                camera_gridspace,
                view_limit,
            ),
{
    let w = view_width(view_limit);
    let x0 = camera_gridspace.x - view_limit;
    let y0 = camera_gridspace.y - view_limit;
    let z0 = camera_gridspace.z - view_limit;
    lemma_view_block(x0, y0, z0, w, w);
    let view = spec_view_offsets(camera_gridspace, view_limit);
    assert forall|o: Offset| view.contains(o) implies in_view(o, camera_gridspace, view_limit) by {
        let i = choose|i: int| 0 <= i < view.len() && view[i] == o;
        assert(view[i] == o);
    }
}

/// The chunk is the one that is built from these samples with this table: its weights
/// are the samples and its mesh is drawn through them.
pub open spec fn built_from(
    chunk: MCChunk,
    samples: Seq<u32>,
    table: TriangulationTable,
    bound: usize,
) -> bool {
    &&& forall|x: int, y: int, z: int|
        0 <= x < bound && 0 <= y < bound && 0 <= z < bound ==> #[trigger] chunk.lattice().weights[(
            x,
            y,
            z,
        )] == samples[crate::entities::basic_marching_cubes::flat_index(x, y, z, bound as int)]
    &&& chunk.spec_vertices() == crate::entities::basic_marching_cubes::mesh(
        chunk.lattice(),
        table,
        bound as int,
    )
}

/// The chunk at `offset` was sampled and built: each of its weights is one that the
/// sampler gave for the point at which its lattice point is sampled, and its mesh is
/// drawn through them.
pub open spec fn chunk_sampled<S: Fn(i64, i64, i64) -> u32>(
    chunk: MCChunk,
    offset: Offset,
    bound: usize,
    table: TriangulationTable,
    sample: S,
) -> bool {
    &&& forall|x: int, y: int, z: int|
        0 <= x < bound && 0 <= y < bound && 0 <= z < bound ==> {
            let p = crate::entities::basic_marching_cubes::spec_sample_point(offset, bound, x, y, z);
            call_ensures(
                sample,
                (p.0 as i64, p.1 as i64, p.2 as i64),
                #[trigger] chunk.lattice().weights[(x, y, z)],
            )
        }
    &&& chunk.spec_vertices() == crate::entities::basic_marching_cubes::mesh(
        chunk.lattice(),
        table,
        bound as int,
    )
}

/// The sampler is a function of the point: asked twice for one point, it gives one
/// weight.
pub open spec fn single_valued<S: Fn(i64, i64, i64) -> u32>(sample: S) -> bool {
    forall|x: i64, y: i64, z: i64, a: u32, b: u32|
        #[trigger] call_ensures(sample, (x, y, z), a) && #[trigger] call_ensures(sample, (x, y, z), b)
            ==> a == b
}

/// Seam continuity on the chunks: two chunks sampled with one sampler that is a function
/// of the point, at offsets one step apart along an axis, carry equal weights on the
/// lattice plane they share; labelled against one isovalue they carry equal signs there.
pub proof fn lemma_seams_meet<S: Fn(i64, i64, i64) -> u32>(
    a: MCChunk,
    b: MCChunk,
    at: Offset,
    next: Offset,
    bound: usize,
    table: TriangulationTable,
    sample: S,
    u: int,
    v: int,
)
    requires
        1 <= bound,
        0 <= u < bound,
        0 <= v < bound,
        single_valued(sample),
        chunk_sampled(a, at, bound, table, sample),
        chunk_sampled(b, next, bound, table, sample),
    ensures
        next.x == at.x + 1 && next.y == at.y && next.z == at.z ==> a.lattice().weights[(bound - 1, u, v)]
            == b.lattice().weights[(0, u, v)],
        next.x == at.x && next.y == at.y + 1 && next.z == at.z ==> a.lattice().weights[(u, bound - 1, v)]
            == b.lattice().weights[(u, 0, v)],
        next.x == at.x && next.y == at.y && next.z == at.z + 1 ==> a.lattice().weights[(u, v, bound - 1)]
            == b.lattice().weights[(u, v, 0)],
        a.labelled() && b.labelled() && a.spec_chunk_bounds() == bound && b.spec_chunk_bounds() == bound
            && a.spec_isovalue() == b.spec_isovalue() ==> {
            &&& next.x == at.x + 1 && next.y == at.y && next.z == at.z ==> a.lattice().signs[(
                bound - 1,
                u,
                v,
            )] == b.lattice().signs[(0, u, v)]
            &&& next.x == at.x && next.y == at.y + 1 && next.z == at.z ==> a.lattice().signs[(
                u,
                bound - 1,
                v,
            )] == b.lattice().signs[(u, 0, v)]
            &&& next.x == at.x && next.y == at.y && next.z == at.z + 1 ==> a.lattice().signs[(
                u,
                v,
                bound - 1,
            )] == b.lattice().signs[(u, v, 0)]
        },
{
    crate::entities::basic_marching_cubes::lemma_seam_continuity(at, next, bound, u, v);
    if next.x == at.x + 1 && next.y == at.y && next.z == at.z {
        let wa = a.lattice().weights[(bound - 1, u, v)];
        let wb = b.lattice().weights[(0, u, v)];
        assert(wa == wb);
        assert(crate::utils::grid::in_cube((bound - 1, u, v), bound as int));
        assert(crate::utils::grid::in_cube((0, u, v), bound as int));
    }
    if next.x == at.x && next.y == at.y + 1 && next.z == at.z {
        let wa = a.lattice().weights[(u, bound - 1, v)];
        let wb = b.lattice().weights[(u, 0, v)];
        assert(wa == wb);
        assert(crate::utils::grid::in_cube((u, bound - 1, v), bound as int));
        assert(crate::utils::grid::in_cube((u, 0, v), bound as int));
    }
    if next.x == at.x && next.y == at.y && next.z == at.z + 1 {
        let wa = a.lattice().weights[(u, v, bound - 1)];
        let wb = b.lattice().weights[(u, v, 0)];
        assert(wa == wb);
        assert(crate::utils::grid::in_cube((u, v, bound - 1), bound as int));
        assert(crate::utils::grid::in_cube((u, v, 0), bound as int));
    }
}

/// The model was made for this chunk by an upload: it draws one vertex for each index of
/// the chunk's mesh, from the vertex array object that the upload gave.
pub open spec fn uploaded_from<U: Fn(&MCChunk) -> MeshBuffers>(
    model: RawModel,
    chunk: MCChunk,
    upload: U,
) -> bool {
    &&& model.spec_vertex_count() == chunk.spec_indices().len()
    &&& exists|buffers: MeshBuffers|
        call_ensures(upload, (&chunk,), buffers) && model.spec_vao_id() == buffers.vao_id
}

/// The offsets of a view that have no model cached, in the order of the view.
pub open spec fn without_model(view: Seq<Offset>, cached: Map<Offset, RawModel>) -> Seq<Offset>
    decreases view.len(),
{
    if view.len() == 0 {
        Seq::empty()
    } else {
        let before = without_model(view.drop_last(), cached);
        if cached.contains_key(view.last()) {
            before
        } else {
            before.push(view.last())
        }
    }
}

/// The vertex array objects of the models cached at the given offsets, in their order.
pub open spec fn model_vaos(offsets: Seq<Offset>, cached: Map<Offset, RawModel>) -> Seq<u32> {
    Seq::new(offsets.len(), |k: int| cached[offsets[k]].spec_vao_id())
}

/// What lacks a model is of the view and lacks a model.
pub proof fn lemma_without_model(view: Seq<Offset>, cached: Map<Offset, RawModel>)
    ensures
        without_model(view, cached).len() <= view.len(),
        forall|k: int|
            0 <= k < without_model(view, cached).len() ==> {
                &&& !cached.contains_key(#[trigger] without_model(view, cached)[k])
                &&& view.contains(without_model(view, cached)[k])
            },
        forall|j: int|
            0 <= j < view.len() && !cached.contains_key(view[j]) ==> without_model(
                view,
                cached,
            ).contains(#[trigger] view[j]),
    decreases view.len(),
{
    if view.len() > 0 {
        let rest = view.drop_last();
        lemma_without_model(rest, cached);
        let before = without_model(rest, cached);
        let all = without_model(view, cached);
        assert forall|k: int| 0 <= k < all.len() implies {
            &&& !cached.contains_key(#[trigger] all[k])
            &&& view.contains(all[k])
        } by {
            if k < before.len() {
                assert(all[k] == before[k]);
                let j = choose|j: int| 0 <= j < rest.len() && rest[j] == before[k];
                assert(view[j] == all[k]);
            } else {
                assert(view[view.len() - 1] == all[k]);
            }
        }
        assert forall|j: int| 0 <= j < view.len() && !cached.contains_key(view[j]) implies all.contains(
            #[trigger] view[j],
        ) by {
            if j < rest.len() {
                assert(rest[j] == view[j]);
                let k = choose|k: int| 0 <= k < before.len() && before[k] == rest[j];
                assert(all[k] == view[j]);
            } else {
                assert(all[all.len() - 1] == view[j]);
            }
        }
    }
}

/// Where every offset of the view has its model, none lacks one: a frame that finds
/// everything cached uploads nothing.
pub proof fn lemma_nothing_without_model(view: Seq<Offset>, cached: Map<Offset, RawModel>)
    requires
        forall|j: int| 0 <= j < view.len() ==> cached.contains_key(#[trigger] view[j]),
    ensures
        without_model(view, cached) == Seq::<Offset>::empty(),
    decreases view.len(),
{
    if view.len() > 0 {
        assert forall|j: int| 0 <= j < view.drop_last().len() implies cached.contains_key(
            #[trigger] view.drop_last()[j],
        ) by {
            assert(view.drop_last()[j] == view[j]);
        }
        lemma_nothing_without_model(view.drop_last(), cached);
        assert(cached.contains_key(view[view.len() - 1]));
    }
}

/// Where no offset of the view has a model, all lack one: a frame that finds nothing
/// cached uploads once for each offset in view.
pub proof fn lemma_all_without_model(view: Seq<Offset>, cached: Map<Offset, RawModel>)
    requires
        forall|j: int| 0 <= j < view.len() ==> !cached.contains_key(#[trigger] view[j]),
    ensures
        without_model(view, cached) == view,
    decreases view.len(),
{
    if view.len() > 0 {
        assert forall|j: int| 0 <= j < view.drop_last().len() implies !cached.contains_key(
            #[trigger] view.drop_last()[j],
        ) by {
            assert(view.drop_last()[j] == view[j]);
        }
        lemma_all_without_model(view.drop_last(), cached);
        assert(!cached.contains_key(view[view.len() - 1]));
        assert(view.drop_last().push(view.last()) == view);
    }
}

/// What lacks a model depends only on which offsets of the view have one.
proof fn lemma_without_model_agrees(
    view: Seq<Offset>,
    a: Map<Offset, RawModel>,
    b: Map<Offset, RawModel>,
)
    requires
        forall|j: int|
            0 <= j < view.len() ==> (a.contains_key(#[trigger] view[j]) <==> b.contains_key(view[j])),
    ensures
        without_model(view, a) == without_model(view, b),
    decreases view.len(),
{
    if view.len() > 0 {
        assert forall|j: int| 0 <= j < view.drop_last().len() implies (a.contains_key(
            #[trigger] view.drop_last()[j],
        ) <==> b.contains_key(view.drop_last()[j])) by {
            assert(view.drop_last()[j] == view[j]);
        }
        lemma_without_model_agrees(view.drop_last(), a, b);
        assert(a.contains_key(view[view.len() - 1]) <==> b.contains_key(view[view.len() - 1]));
    }
}

/// The offsets that are cached after a frame: those that were cached inside the cube
/// round the camera, and those in view.
pub open spec fn keys_after_frame(
    keys: Set<Offset>,
    camera_gridspace: Offset,
    view_limit: i32,
) -> Set<Offset> {
    Set::new(
        |o: Offset|
            (keys.contains(o) && !out_of_gridspace(o, camera_gridspace, view_limit)) || in_view(
                o,
                camera_gridspace,
                view_limit,
            ),
    )
}

/// Cache cube invariant: whatever was cached before, after a frame every cached offset
/// is at most `view_limit` steps from the camera's offset along every axis.
pub proof fn lemma_frame_keeps_the_cube(keys: Set<Offset>, camera_gridspace: Offset, view_limit: i32)
    ensures
        forall|o: Offset| #[trigger]
            keys_after_frame(keys, camera_gridspace, view_limit).contains(o) ==> cube_distance(
                o,
                camera_gridspace,
            ) <= view_limit,
{
}

/// The buffers of the uploads as the loader records them: for each upload in turn its
/// index buffer, then its vertex buffer.
pub open spec fn upload_buffers(uploads: Seq<MeshBuffers>) -> Seq<u32>
    decreases uploads.len(),
{
    if uploads.len() == 0 {
        Seq::empty()
    } else {
        upload_buffers(uploads.drop_last()).push(uploads.last().index_vbo).push(
            uploads.last().vertex_vbo,
        )
    }
}

/// `uploads` holds, for each of the offsets in turn, what the upload gave for the chunk
/// cached there, and the model cached there draws from its vertex array object.
pub open spec fn uploads_of<U: Fn(&MCChunk) -> MeshBuffers>(
    uploads: Seq<MeshBuffers>,
    offsets: Seq<Offset>,
    chunks: Map<Offset, MCChunk>,
    models: Map<Offset, RawModel>,
    upload: U,
) -> bool {
    &&& uploads.len() == offsets.len()
    &&& forall|k: int|
        0 <= k < offsets.len() ==> {
            &&& call_ensures(upload, (&chunks[offsets[k]],), #[trigger] uploads[k])
            &&& models[offsets[k]].spec_vao_id() == uploads[k].vao_id
        }
}

/// The models of what a frame released, each with its offset.
pub open spec fn released_models(released: Seq<(Offset, RawModel, Option<MeshBuffers>)>) -> Seq<
    (Offset, RawModel),
> {
    Seq::new(released.len(), |k: int| (released[k].0, released[k].1))
}

/// The vertex array objects of the first `n` models that a frame released.
pub open spec fn released_vaos(released: Seq<(Offset, RawModel, Option<MeshBuffers>)>, n: int) -> Seq<
    u32,
> {
    Seq::new(n as nat, |k: int| released[k].1.spec_vao_id())
}

/// Each model that a frame released was released through the loader, in turn: what is
/// handed out with it are the objects recorded for it when its turn came, if any were.
pub open spec fn released_in_turn(
    released: Seq<(Offset, RawModel, Option<MeshBuffers>)>,
    vaos: Seq<u32>,
    vbos: Seq<u32>,
) -> bool {
    forall|k: int|
        0 <= k < released.len() ==> {
            let before = record_after_releases(vaos, vbos, released_vaos(released, k));
            (#[trigger] released[k]).2 == recorded_buffers(
                before.0,
                before.1,
                released[k].1.spec_vao_id(),
            )
        }
}

/// Releases each dropped model through the loader, in turn, and hands out with each the
/// objects to delete on the graphics device.
fn release_dropped(dropped: &Vec<(Offset, RawModel)>, loader: &mut Loader) -> (released: Vec<
    (Offset, RawModel, Option<MeshBuffers>),
>)
    requires
        old(loader).wf(),
    ensures
        final(loader).wf(),
        final(loader).spec_textures() == old(loader).spec_textures(),
        released_models(released@) == dropped@,
        released_in_turn(released@, old(loader).spec_vaos(), old(loader).spec_vbos()),
        (final(loader).spec_vaos(), final(loader).spec_vbos()) == record_after_releases(
            old(loader).spec_vaos(),
            old(loader).spec_vbos(),
            released_vaos(released@, released@.len() as int),
        ),
{
    let ghost first_vaos = loader.spec_vaos();
    let ghost first_vbos = loader.spec_vbos();
    let mut released: Vec<(Offset, RawModel, Option<MeshBuffers>)> = Vec::new();
    let mut r: usize = 0;
    while r < dropped.len()
        invariant
            r <= dropped.len(),
            released@.len() == r,
            loader.wf(),
            loader.spec_textures() == old(loader).spec_textures(),
            first_vaos == old(loader).spec_vaos(),
            first_vbos == old(loader).spec_vbos(),
            forall|k: int|
                0 <= k < r ==> (#[trigger] released@[k]).0 == dropped@[k].0 && released@[k].1
                    == dropped@[k].1,
            (loader.spec_vaos(), loader.spec_vbos()) == record_after_releases(
                first_vaos,
                first_vbos,
                released_vaos(released@, r as int),
            ),
            released_in_turn(released@, first_vaos, first_vbos),
        decreases dropped.len() - r,
    {
        let (offset, mut model) = dropped[r];
        let ghost earlier = released@;
        let buffers: Option<MeshBuffers> = model.clean_model(loader);
        released.push((offset, model, buffers));
        proof {
            assert forall|k: int| 0 <= k <= r implies released_vaos(released@, k) == released_vaos(
                earlier,
                k,
            ) by {
                assert(released_vaos(released@, k) =~= released_vaos(earlier, k));
            }
            assert(released_vaos(released@, r + 1).drop_last() =~= released_vaos(earlier, r as int));
            assert(released_vaos(released@, r + 1).last() == model.spec_vao_id());
            assert forall|k: int| 0 <= k < released@.len() implies ({
                let before = record_after_releases(first_vaos, first_vbos, released_vaos(released@, k));
                (#[trigger] released@[k]).2 == recorded_buffers(
                    before.0,
                    before.1,
                    released@[k].1.spec_vao_id(),
                )
            }) by {
                if k < r {
                    assert(released@[k] == earlier[k]);
                }
            }
        }
        r += 1;
    }
    assert(released_models(released@) =~= dropped@);
    released
}

/// What a frame still waits for, or the models to draw.
pub enum FrameStep {
    /// Every offset in view has its model: the models, in the order of the view.
    Ready(Vec<RawModel>),
    /// The chunk at this offset is not cached: its density has to be sampled.
    NeedsChunk(Offset),
    /// The chunk at this offset is cached, but its mesh has not been handed to the
    /// renderer.
    NeedsModel(Offset),
}

/// The chunks around the camera and the models made from them, by offset.
pub struct ChunkManager {
    chunk_data: HashMap<u128, MCChunk>,
    model_data: HashMap<u128, RawModel>,
    view_limit: i32,
    chunk_bounds: usize,
    isovalue: u32,
}

impl ChunkManager {
    /// The cached chunks.
    pub closed spec fn chunks(&self) -> Map<Offset, MCChunk> {
        Map::new(
            |o: Offset| self.chunk_data@.contains_key(spec_key(o) as u128),
            |o: Offset| self.chunk_data@[spec_key(o) as u128],
        )
    }

    /// The cached models.
    pub closed spec fn models(&self) -> Map<Offset, RawModel> {
        Map::new(
            |o: Offset| self.model_data@.contains_key(spec_key(o) as u128),
            |o: Offset| self.model_data@[spec_key(o) as u128],
        )
    }

    pub closed spec fn spec_view_limit(&self) -> i32 {
        self.view_limit
    }

    pub closed spec fn spec_chunk_bounds(&self) -> usize {
        self.chunk_bounds
    }

    pub closed spec fn spec_isovalue(&self) -> u32 {
        self.isovalue
    }

    /// Everything is filed under the key of an offset.
    pub closed spec fn filed(&self) -> bool {
        &&& forall|k: u128| #[trigger] self.chunk_data@.contains_key(k) ==> k < KEY_LIMIT
        &&& forall|k: u128| #[trigger] self.model_data@.contains_key(k) ==> k < KEY_LIMIT
    }

    /// A model is cached only together with the chunk it was made from and draws one
    /// vertex for each index of that chunk's mesh, and every chunk is well formed, stands
    /// at the offset it is cached under, and has the bound and the isovalue of the
    /// manager.
    pub open spec fn wf(&self) -> bool {
        &&& self.filed()
        &&& forall|o: Offset| #[trigger]
            self.models().contains_key(o) ==> {
                &&& self.chunks().contains_key(o)
                &&& self.models()[o].spec_vertex_count() == self.chunks()[o].spec_indices().len()
            }
        &&& forall|o: Offset| #[trigger]
            self.chunks().contains_key(o) ==> {
                &&& self.chunks()[o].wf()
                &&& self.chunks()[o].spec_offset() == o
                &&& self.chunks()[o].spec_chunk_bounds() == self.spec_chunk_bounds()
                &&& self.chunks()[o].spec_isovalue() == self.spec_isovalue()
            }
    }

    /// The manager has the same settings as another.
    pub open spec fn same_settings(&self, other: &ChunkManager) -> bool {
        &&& self.spec_view_limit() == other.spec_view_limit()
        &&& self.spec_chunk_bounds() == other.spec_chunk_bounds()
        &&& self.spec_isovalue() == other.spec_isovalue()
    }

    /// An empty cache with the default view limit, chunk bound and isovalue.
    pub fn new() -> (manager: ChunkManager)
        ensures
            manager.wf(),
            manager.chunks() == Map::<Offset, MCChunk>::empty(),
            manager.models() == Map::<Offset, RawModel>::empty(),
            manager.spec_view_limit() == CHUNK_VIEW_LIMIT,
            manager.spec_chunk_bounds() == CHUNK_BOUNDS,
            manager.spec_isovalue() == TEST_ISOVALUE_BITS,
    {
        ChunkManager::with_settings(CHUNK_VIEW_LIMIT, CHUNK_BOUNDS, TEST_ISOVALUE_BITS)
    }

    /// An empty cache for chunks of the given bound, labelled against the given isovalue,
    /// that keeps what is within `view_limit` chunks of the camera.
    pub fn with_settings(view_limit: i32, chunk_bounds: usize, isovalue: u32) -> (manager:
        ChunkManager)
        ensures
            manager.wf(),
            manager.chunks() == Map::<Offset, MCChunk>::empty(),
            manager.models() == Map::<Offset, RawModel>::empty(),
            manager.spec_view_limit() == view_limit,
            manager.spec_chunk_bounds() == chunk_bounds,
            manager.spec_isovalue() == isovalue,
    {
        let manager = ChunkManager {
            chunk_data: HashMap::new(),
            model_data: HashMap::new(),
            view_limit,
            chunk_bounds,
            isovalue,
        };
        assert(manager.chunks() == Map::<Offset, MCChunk>::empty());
        assert(manager.models() == Map::<Offset, RawModel>::empty());
        manager
    }

    pub fn view_limit(&self) -> (limit: i32)
        ensures
            limit == self.spec_view_limit(),
    {
        self.view_limit
    }

    pub fn chunk_bounds(&self) -> (bound: usize)
        ensures
            bound == self.spec_chunk_bounds(),
    {
        self.chunk_bounds
    }

    pub fn isovalue(&self) -> (isovalue: u32)
        ensures
            isovalue == self.spec_isovalue(),
    {
        self.isovalue
    }

    /// Whether `offset` lies outside the cube of chunks kept around `camera_gridspace`.
    pub fn check_offset_out_of_gridspace(
        offset: &Offset,
        camera_gridspace: &Offset,
        view_limit: i32,
    ) -> (out: bool)
        ensures
            out == out_of_gridspace(*offset, *camera_gridspace, view_limit),
    {
        let limit: i64 = view_limit as i64;
        offset.x as i64 > camera_gridspace.x as i64 + limit || (offset.x as i64)
            < camera_gridspace.x as i64 - limit || offset.y as i64 > camera_gridspace.y as i64
            + limit || (offset.y as i64) < camera_gridspace.y as i64 - limit || offset.z as i64
            > camera_gridspace.z as i64 + limit || (offset.z as i64) < camera_gridspace.z as i64
            - limit
    }

    /// The chunk cached at `offset`, if there is one.
    pub fn get_chunk(&self, offset: Offset) -> (chunk: Option<&MCChunk>)
        ensures
            match chunk {
                Some(c) => self.chunks().contains_key(offset) && *c == self.chunks()[offset],
                None => !self.chunks().contains_key(offset),
            },
    {
        broadcast use vstd::std_specs::hash::group_hash_axioms;

        let key: u128 = key_of(offset);
        self.chunk_data.get(&key)
    }

    /// The model cached at `offset`, if there is one.
    pub fn get_model(&self, offset: Offset) -> (model: Option<RawModel>)
        ensures
            match model {
                Some(m) => self.models().contains_key(offset) && m == self.models()[offset],
                None => !self.models().contains_key(offset),
            },
    {
        broadcast use vstd::std_specs::hash::group_hash_axioms;

        let key: u128 = key_of(offset);
        match self.model_data.get(&key) {
            Some(model) => Some(*model),
            None => None,
        }
    }

    /// The chunk at `offset`: the cached one where there is one, whatever `samples`
    /// holds; else a new one, built from `samples` and cached.
    pub fn get_or_create_chunk(
        &mut self,
        offset: Offset,
        samples: &Vec<u32>,
        tri_table: &TriangulationTable,
    ) -> (chunk: &MCChunk)
        requires
            old(self).wf(),
            tri_table.wf(),
            // what building a chunk needs is asked only where one has to be built
            !old(self).chunks().contains_key(offset) ==> {
                &&& bound_fits(old(self).spec_chunk_bounds())
                &&& mesh_fits(old(self).spec_chunk_bounds(), tri_table.longest_row())
                &&& samples.len() == old(self).spec_chunk_bounds() * old(self).spec_chunk_bounds()
                    * old(self).spec_chunk_bounds()
            },
        ensures
            final(self).wf(),
            final(self).same_settings(old(self)),
            final(self).models() == old(self).models(),
            final(self).chunks().contains_key(offset),
            *chunk == final(self).chunks()[offset],
            final(self).chunks() == chunks_after_request(old(self).chunks(), offset, *chunk),
            !old(self).chunks().contains_key(offset) ==> built_from(
                *chunk,
                samples@,
                *tri_table,
                old(self).spec_chunk_bounds(),
            ),
    {
        broadcast use vstd::std_specs::hash::group_hash_axioms;

        let key: u128 = key_of(offset);
        proof {
            lemma_key_of_offset(offset);
        }
        if !self.chunk_data.contains_key(&key) {
            let new_chunk = MCChunk::with_settings(
                offset,
                self.chunk_bounds,
                self.isovalue,
                samples,
                tri_table,
            );
            self.chunk_data.insert(key, new_chunk);
            proof {
                assert(self.models() == old(self).models());
                assert forall|o: Offset| #[trigger] self.chunks().contains_key(o) implies {
                    &&& self.chunks()[o].wf()
                    &&& self.chunks()[o].spec_offset() == o
                    &&& self.chunks()[o].spec_chunk_bounds() == self.spec_chunk_bounds()
                    &&& self.chunks()[o].spec_isovalue() == self.spec_isovalue()
                } by {
                    lemma_key_of_offset(o);
                    lemma_key_of_offset(offset);
                    if o != offset {
                        assert(old(self).chunks().contains_key(o));
                    }
                }
                assert(self.chunks() == old(self).chunks().insert(offset, new_chunk)) by {
                    assert forall|o: Offset|
                        self.chunks().contains_key(o) <==> old(self).chunks().insert(
                            offset,
                            new_chunk,
                        ).contains_key(o) by {
                        lemma_key_of_offset(o);
                        lemma_key_of_offset(offset);
                    }
                    assert forall|o: Offset| self.chunks().contains_key(o) implies self.chunks()[o]
                        == old(self).chunks().insert(offset, new_chunk)[o] by {
                        lemma_key_of_offset(o);
                        lemma_key_of_offset(offset);
                    }
                }
                assert forall|o: Offset| #[trigger]
                    self.models().contains_key(o) implies self.chunks().contains_key(o) by {
                    assert(old(self).models().contains_key(o));
                    assert(old(self).chunks().contains_key(o));
                }
            }
        }
        self.chunk_data.get(&key).unwrap()
    }

    /// The model at `offset`: the cached one where there is one; else a new one for the
    /// mesh of the chunk at `offset`, which `buffers` holds on the graphics device,
    /// recorded with the loader and cached.
    pub fn get_or_create_mesh(&mut self, offset: Offset, loader: &mut Loader, buffers: MeshBuffers) -> (model:
        RawModel)
        requires
            old(self).wf(),
            old(self).chunks().contains_key(offset),
        ensures
            final(self).wf(),
            final(self).same_settings(old(self)),
            final(self).chunks() == old(self).chunks(),
            final(self).models().contains_key(offset),
            model == final(self).models()[offset],
            old(self).models().contains_key(offset) ==> {
                &&& final(self).models() == old(self).models()
                &&& final(loader).spec_vaos() == old(loader).spec_vaos()
                &&& final(loader).spec_vbos() == old(loader).spec_vbos()
                &&& final(loader).spec_textures() == old(loader).spec_textures()
            },
            !old(self).models().contains_key(offset) ==> {
                &&& final(self).models() == old(self).models().insert(offset, model)
                &&& model.spec_vao_id() == buffers.vao_id
                &&& model.spec_vertex_count() == old(self).chunks()[offset].spec_indices().len()
                &&& final(loader).spec_vaos() == old(loader).spec_vaos().push(buffers.vao_id)
                &&& final(loader).spec_vbos() == old(loader).spec_vbos().push(buffers.index_vbo).push(
                    buffers.vertex_vbo,
                )
                &&& final(loader).spec_textures() == old(loader).spec_textures()
            },
            old(loader).wf() ==> final(loader).wf(),
    {
        broadcast use vstd::std_specs::hash::group_hash_axioms;

        let key: u128 = key_of(offset);
        match self.model_data.get(&key) {
            Some(model) => *model,
            None => {
                let chunk: &MCChunk = self.chunk_data.get(&key).unwrap();
                assert(*chunk == self.chunks()[offset]);
                let model: RawModel = loader.load_to_vao(buffers, chunk.indices());
                self.model_data.insert(key, model);
                proof {
                    assert(self.chunks() == old(self).chunks());
                    assert(self.models() == old(self).models().insert(offset, model)) by {
                        assert forall|o: Offset|
                            self.models().contains_key(o) <==> old(self).models().insert(
                                offset,
                                model,
                            ).contains_key(o) by {
                            lemma_key_of_offset(o);
                            lemma_key_of_offset(offset);
                        }
                        assert forall|o: Offset| self.models().contains_key(o) implies self.models()[o]
                            == old(self).models().insert(offset, model)[o] by {
                            lemma_key_of_offset(o);
                            lemma_key_of_offset(offset);
                        }
                    }
                    assert forall|o: Offset| #[trigger]
                        self.models().contains_key(o) implies self.chunks().contains_key(o) by {
                        if o != offset {
                            assert(old(self).models().contains_key(o));
                        }
                    }
                }
                model
            },
        }
    }

    /// Drops every chunk and every model whose offset lies outside the cube of the given
    /// radius round `center`, and hands the dropped models out: each is to be released
    /// with [`RawModel::clean_model`].
    pub fn evict_outside(&mut self, center: Offset, radius: i32) -> (released: Vec<(Offset, RawModel)>)
        requires
            old(self).wf(),
        ensures
            final(self).wf(),
            final(self).same_settings(old(self)),
            final(self).chunks() == old(self).chunks().restrict(gridspace(center, radius)),
            final(self).models() == old(self).models().restrict(gridspace(center, radius)),
            released_exactly(released@, old(self).models(), center, radius),
    {
        let removed: Vec<(u128, RawModel)> = evict_keys(&mut self.model_data, center, radius);
        let dropped: Vec<(u128, MCChunk)> = evict_keys(&mut self.chunk_data, center, radius);

        let mut released: Vec<(Offset, RawModel)> = Vec::new();
        let mut i: usize = 0;
        while i < removed.len()
            invariant
                i <= removed.len(),
                released@.len() == i,
                forall|j: int| 0 <= j < removed@.len() ==> (#[trigger] removed@[j]).0 < KEY_LIMIT,
                forall|j: int|
                    0 <= j < i ==> (#[trigger] released@[j]).0 == spec_offset_of(removed@[j].0 as int)
                        && released@[j].1 == removed@[j].1,
            decreases removed.len() - i,
        {
            let (key, model) = removed[i];
            released.push((offset_of(key), model));
            i += 1;
        }
        proof {
            assert forall|o: Offset| #[trigger]
                self.chunks().contains_key(o) <==> old(self).chunks().restrict(
                    gridspace(center, radius),
                ).contains_key(o) by {
                lemma_key_of_offset(o);
            }
            assert(self.chunks() == old(self).chunks().restrict(gridspace(center, radius)));
            assert forall|o: Offset| #[trigger]
                self.models().contains_key(o) <==> old(self).models().restrict(
                    gridspace(center, radius),
                ).contains_key(o) by {
                lemma_key_of_offset(o);
            }
            assert(self.models() == old(self).models().restrict(gridspace(center, radius)));
            assert forall|o: Offset| #[trigger]
                self.models().contains_key(o) implies self.chunks().contains_key(o) by {
                assert(old(self).models().contains_key(o));
            }
            assert forall|o: Offset| #[trigger] self.chunks().contains_key(o) implies {
                &&& self.chunks()[o].wf()
                &&& self.chunks()[o].spec_offset() == o
                &&& self.chunks()[o].spec_chunk_bounds() == self.spec_chunk_bounds()
                &&& self.chunks()[o].spec_isovalue() == self.spec_isovalue()
            } by {
                assert(old(self).chunks().contains_key(o));
            }
            let models = old(self).models();
            assert forall|a: int, b: int| 0 <= a < b < released@.len() implies (#[trigger] released@[a]).0
                != (#[trigger] released@[b]).0 by {
                lemma_offset_of_key(removed@[a].0 as int);
                lemma_offset_of_key(removed@[b].0 as int);
            }
            assert forall|j: int| 0 <= j < released@.len() implies {
                &&& models.contains_key((#[trigger] released@[j]).0)
                &&& out_of_gridspace(released@[j].0, center, radius)
                &&& released@[j].1 == models[released@[j].0]
            } by {
                lemma_offset_of_key(removed@[j].0 as int);
            }
            assert forall|o: Offset| #[trigger]
                models.contains_key(o) && out_of_gridspace(o, center, radius) implies exists|j: int|
                0 <= j < released@.len() && (#[trigger] released@[j]).0 == o by {
                lemma_key_of_offset(o);
                let k = spec_key(o) as u128;
                assert(key_out(k, center, radius));
                assert(listed(removed@, k));
                let j = choose|j: int| 0 <= j < removed@.len() && (#[trigger] removed@[j]).0 == k;
                assert(released@[j].0 == o);
            }
        }
        released
    }

    /// Whether the view round the camera can be walked without leaving the grid.
    pub fn view_is_in_reach(camera_gridspace: Offset, view_limit: i32) -> (in_reach: bool)
        ensures
            in_reach == view_in_reach(camera_gridspace, view_limit),
    {
        let limit: i64 = view_limit as i64;
        let lowest: i64 = i32::MIN as i64;
        let highest: i64 = i32::MAX as i64;
        let x: i64 = camera_gridspace.x as i64;
        let y: i64 = camera_gridspace.y as i64;
        let z: i64 = camera_gridspace.z as i64;
        lowest <= x - limit && x - limit <= highest && lowest <= x + limit && x + limit <= highest
            && lowest <= y - limit && y - limit <= highest && lowest <= y + limit && y + limit
            <= highest && lowest <= z - limit && z - limit <= highest && lowest <= z + limit && z
            + limit <= highest
    }

    /// The offsets in view of the camera, in the order in which a frame visits them.
    pub fn view_offsets(camera_gridspace: Offset, view_limit: i32) -> (offsets: Vec<Offset>)
        requires
            view_in_reach(camera_gridspace, view_limit),
        ensures
            offsets@ == spec_view_offsets(camera_gridspace, view_limit),
    {
        let mut offsets: Vec<Offset> = Vec::new();
        let w: i64 = if view_limit > 0 {
            2 * (view_limit as i64)
        } else {
            0
        };
        let x0: i64 = camera_gridspace.x as i64 - view_limit as i64;
        let y0: i64 = camera_gridspace.y as i64 - view_limit as i64;
        let z0: i64 = camera_gridspace.z as i64 - view_limit as i64;
        let mut i: i64 = 0;
        while i < w
            invariant
                0 <= i <= w,
                w == view_width(view_limit),
                view_in_reach(camera_gridspace, view_limit),
                x0 == camera_gridspace.x - view_limit,
                y0 == camera_gridspace.y - view_limit,
                z0 == camera_gridspace.z - view_limit,
                offsets@ == view_block(x0 as int, y0 as int, z0 as int, w as int, i as int),
            decreases w - i,
        {
            let mut j: i64 = 0;
            while j < w
                invariant
                    0 <= i < w,
                    0 <= j <= w,
                    w == view_width(view_limit),
                    view_in_reach(camera_gridspace, view_limit),
                    x0 == camera_gridspace.x - view_limit,
                    y0 == camera_gridspace.y - view_limit,
                    z0 == camera_gridspace.z - view_limit,
                    offsets@ == view_block(x0 as int, y0 as int, z0 as int, w as int, i as int)
                        + view_slab(x0 + i, y0 as int, z0 as int, w as int, j as int),
                decreases w - j,
            {
                let ghost line = view_line(x0 + i, y0 + j, z0 as int, w as int);
                let ghost start = offsets@;
                let mut k: i64 = 0;
                while k < w
                    invariant
                        0 <= i < w,
                        0 <= j < w,
                        0 <= k <= w,
                        w == view_width(view_limit),
                        view_in_reach(camera_gridspace, view_limit),
                        x0 == camera_gridspace.x - view_limit,
                        y0 == camera_gridspace.y - view_limit,
                        z0 == camera_gridspace.z - view_limit,
                        line == view_line(x0 + i, y0 + j, z0 as int, w as int),
                        offsets@ == start + line.subrange(0, k as int),
                    decreases w - k,
                {
                    let offset = Offset { x: (x0 + i) as i32, y: (y0 + j) as i32, z: (z0 + k) as i32 };
                    assert(line.subrange(0, k + 1) == line.subrange(0, k as int).push(offset));
                    offsets.push(offset);
                    k += 1;
                }
                assert(line.subrange(0, w as int) == line);
                j += 1;
            }
            i += 1;
        }
        offsets
    }

    /// One step of a frame, for a caller that makes chunks and models itself, perhaps a
    /// few in each frame. Drops what lies outside the cube of the view limit round the
    /// camera, handing the dropped models out for the caller to release each with
    /// [`RawModel::clean_model`], then visits the offsets in
    /// view in order: the first that has no model is what the frame still needs, and
    /// where none is missing the models of all of them are the frame's result.
    #[verifier::loop_isolation(false)]
    pub fn frame_step(&mut self, camera_gridspace: Offset) -> (outcome: (
        Vec<(Offset, RawModel)>,
        FrameStep,
    ))
        requires
            old(self).wf(),
            view_in_reach(camera_gridspace, old(self).spec_view_limit()),
        ensures
            final(self).wf(),
            final(self).same_settings(old(self)),
            final(self).chunks() == old(self).chunks().restrict(
                gridspace(camera_gridspace, old(self).spec_view_limit()),
            ),
            final(self).models() == old(self).models().restrict(
                gridspace(camera_gridspace, old(self).spec_view_limit()),
            ),
            released_exactly(
                outcome.0@,
                old(self).models(),
                camera_gridspace,
                old(self).spec_view_limit(),
            ),
            forall|o: Offset| #[trigger]
                final(self).chunks().contains_key(o) ==> cube_distance(o, camera_gridspace) <= old(self).spec_view_limit(),
            forall|o: Offset| #[trigger]
                final(self).models().contains_key(o) ==> cube_distance(o, camera_gridspace) <= old(self).spec_view_limit(),
            match outcome.1 {
                FrameStep::Ready(models) => frame_ready(
                    spec_view_offsets(camera_gridspace, old(self).spec_view_limit()),
                    final(self).models(),
                    models@,
                ),
                FrameStep::NeedsChunk(offset) => {
                    &&& first_without_model(
                        spec_view_offsets(camera_gridspace, old(self).spec_view_limit()),
                        final(self).models(),
                        offset,
                    )
                    &&& in_view(offset, camera_gridspace, old(self).spec_view_limit())
                    &&& !final(self).chunks().contains_key(offset)
                },
                FrameStep::NeedsModel(offset) => {
                    &&& first_without_model(
                        spec_view_offsets(camera_gridspace, old(self).spec_view_limit()),
                        final(self).models(),
                        offset,
                    )
                    &&& in_view(offset, camera_gridspace, old(self).spec_view_limit())
                    &&& final(self).chunks().contains_key(offset)
                },
            },
    {
        let released = self.evict_outside(camera_gridspace, self.view_limit);
        proof {
            lemma_view_offsets(camera_gridspace, self.spec_view_limit());
            assert forall|o: Offset| #[trigger] self.chunks().contains_key(o) implies cube_distance(
                o,
                camera_gridspace,
            ) <= self.spec_view_limit() by {
                lemma_gridspace_is_a_cube(o, camera_gridspace, self.spec_view_limit());
            }
            assert forall|o: Offset| #[trigger] self.models().contains_key(o) implies cube_distance(
                o,
                camera_gridspace,
            ) <= self.spec_view_limit() by {
                lemma_gridspace_is_a_cube(o, camera_gridspace, self.spec_view_limit());
            }
        }
        let offsets: Vec<Offset> = ChunkManager::view_offsets(camera_gridspace, self.view_limit);
        let mut models: Vec<RawModel> = Vec::new();
        let mut i: usize = 0;
        while i < offsets.len()
            invariant
                i <= offsets.len(),
                models@.len() == i,
                forall|j: int|
                    0 <= j < i ==> self.models().contains_key(#[trigger] offsets@[j]) && models@[j]
                        == self.models()[offsets@[j]],
            decreases offsets.len() - i,
        {
            let curr_offset: Offset = offsets[i];
            match self.get_chunk(curr_offset) {
                Some(_) => {
                    match self.get_model(curr_offset) {
                        Some(model) => {
                            models.push(model);
                        },
                        None => {
                            assert(offsets@[i as int] == curr_offset);
                            assert(offsets@.contains(curr_offset));
                            return (released, FrameStep::NeedsModel(curr_offset));
                        },
                    }
                },
                None => {
                    assert(offsets@[i as int] == curr_offset);
                    assert(offsets@.contains(curr_offset));
                    assert(!self.models().contains_key(curr_offset));
                    return (released, FrameStep::NeedsChunk(curr_offset));
                },
            }
            i += 1;
        }
        (released, FrameStep::Ready(models))
    }

    /// The offsets at which a chunk is cached, each once, in no particular order.
    pub fn cached_offsets(&self) -> (offsets: Vec<Offset>)
        requires
            self.wf(),
        ensures
            offsets@.no_duplicates(),
            forall|o: Offset| offsets@.contains(o) <==> self.chunks().contains_key(o),
    {
        let keys: Vec<u128> = key_list(&self.chunk_data);
        let mut offsets: Vec<Offset> = Vec::new();
        let mut i: usize = 0;
        while i < keys.len()
            invariant
                i <= keys.len(),
                offsets@.len() == i,
                forall|k: u128| keys@.contains(k) ==> k < KEY_LIMIT,
                forall|j: int| 0 <= j < i ==> #[trigger] offsets@[j] == spec_offset_of(keys@[j] as int),
            decreases keys.len() - i,
        {
            assert(keys@.contains(keys@[i as int]));
            offsets.push(offset_of(keys[i]));
            i += 1;
        }
        proof {
            assert forall|a: int, b: int| 0 <= a < offsets@.len() && 0 <= b < offsets@.len() && a
                != b implies offsets@[a] != offsets@[b] by {
                assert(keys@.contains(keys@[a]));
                assert(keys@.contains(keys@[b]));
                lemma_offset_of_key(keys@[a] as int);
                lemma_offset_of_key(keys@[b] as int);
            }
            assert forall|o: Offset| offsets@.contains(o) <==> self.chunks().contains_key(o) by {
                lemma_key_of_offset(o);
                if offsets@.contains(o) {
                    let j = choose|j: int| 0 <= j < offsets@.len() && offsets@[j] == o;
                    assert(keys@.contains(keys@[j]));
                    lemma_offset_of_key(keys@[j] as int);
                }
                if self.chunks().contains_key(o) {
                    let k = spec_key(o) as u128;
                    assert(keys@.contains(k));
                    let j = choose|j: int| 0 <= j < keys@.len() && keys@[j] == k;
                    assert(offsets@[j] == o);
                }
            }
        }
        offsets
    }

    /// A whole frame with the camera's chunk at `camera_gridspace`. Drops what lies
    /// outside the cube of the view limit round the camera and releases each dropped
    /// model through the loader, handing out the objects to delete on the graphics
    /// device; then visits the offsets in view in order, sampling with `sample`
    /// the density at the lattice points of each chunk that is not cached and asking
    /// `upload` to put on the graphics device each mesh that has no model, and gives the
    /// models of all of them.
    ///
    /// `sample` takes a point in lattice steps of the whole terrain and gives the weight
    /// there as a bit pattern. Nothing is assumed of what the two functions return.
    #[verifier::loop_isolation(false)]
    #[verifier::rlimit(40)]
    pub fn generate_chunk_models<S, U>(
        &mut self,
        camera_gridspace: Offset,
        loader: &mut Loader,
        tri_table: &TriangulationTable,
        sample: S,
        upload: U,
    ) -> (outcome: (Vec<(Offset, RawModel, Option<MeshBuffers>)>, Vec<RawModel>)) where
        S: Fn(i64, i64, i64) -> u32,
        U: Fn(&MCChunk) -> MeshBuffers,

        requires
            old(self).wf(),
            view_in_reach(camera_gridspace, old(self).spec_view_limit()),
            tri_table.wf(),
            bound_fits(old(self).spec_chunk_bounds()),
            mesh_fits(old(self).spec_chunk_bounds(), tri_table.longest_row()),
            old(loader).wf(),
            forall|x: i64, y: i64, z: i64| call_requires(sample, (x, y, z)),
            forall|c: &MCChunk| call_requires(upload, (c,)),
        ensures
            final(self).wf(),
            final(self).same_settings(old(self)),
            final(loader).wf(),
            frame_done(
                *old(self),
                *final(self),
                *old(loader),
                *final(loader),
                camera_gridspace,
                *tri_table,
                sample,
                upload,
                outcome.0@,
                outcome.1@,
            ),
    {
        let dropped = self.evict_outside(camera_gridspace, self.view_limit);
        let ghost kept = *self;
        let released = release_dropped(&dropped, loader);
        let ghost base_vaos = loader.spec_vaos();
        let ghost base_vbos = loader.spec_vbos();
        proof {
            lemma_view_offsets(camera_gridspace, self.spec_view_limit());
            assert forall|o: Offset| #[trigger] self.chunks().contains_key(o) implies cube_distance(
                o,
                camera_gridspace,
            ) <= self.spec_view_limit() by {
                lemma_gridspace_is_a_cube(o, camera_gridspace, self.spec_view_limit());
            }
            let inside = gridspace(camera_gridspace, self.spec_view_limit());
            assert forall|o: Offset| #[trigger]
                old(self).chunks().contains_key(o) && !out_of_gridspace(
                    o,
                    camera_gridspace,
                    self.spec_view_limit(),
                ) implies kept.chunks().contains_key(o) && kept.chunks()[o] == old(self).chunks()[o] by {
                assert(inside.contains(o));
            }
            assert forall|o: Offset| #[trigger]
                old(self).models().contains_key(o) && !out_of_gridspace(
                    o,
                    camera_gridspace,
                    self.spec_view_limit(),
                ) implies kept.models().contains_key(o) && kept.models()[o] == old(self).models()[o] by {
                assert(inside.contains(o));
            }
            assert forall|o: Offset| #[trigger] kept.chunks().contains_key(o) implies old(self).chunks().contains_key(o) by {}
            assert forall|o: Offset| #[trigger] kept.models().contains_key(o) implies old(self).models().contains_key(o) by {}
        }
        let offsets: Vec<Offset> = ChunkManager::view_offsets(camera_gridspace, self.view_limit);
        let n: usize = self.chunk_bounds;
        let mut models: Vec<RawModel> = Vec::new();
        let ghost mut uploads: Seq<MeshBuffers> = Seq::empty();
        let mut i: usize = 0;
        while i < offsets.len()
            invariant
                i <= offsets.len(),
                models@.len() == i,
                self.wf(),
                self.same_settings(old(self)),
                loader.wf(),
                loader.spec_vaos() == base_vaos + model_vaos(
                    without_model(offsets@.subrange(0, i as int), kept.models()),
                    self.models(),
                ),
                loader.spec_vbos().len() == base_vbos.len() + 2 * without_model(
                    offsets@.subrange(0, i as int),
                    kept.models(),
                ).len(),
                base_vbos.is_prefix_of(loader.spec_vbos()),
                uploads_of(
                    uploads,
                    without_model(offsets@.subrange(0, i as int), kept.models()),
                    self.chunks(),
                    self.models(),
                    upload,
                ),
                loader.spec_vbos() == base_vbos + upload_buffers(uploads),
                loader.spec_textures() == old(loader).spec_textures(),
                forall|j: int|
                    0 <= j < i ==> self.models().contains_key(#[trigger] offsets@[j]) && models@[j]
                        == self.models()[offsets@[j]],
                forall|o: Offset| #[trigger]
                    self.chunks().contains_key(o) ==> cube_distance(o, camera_gridspace)
                        <= self.spec_view_limit(),
                forall|o: Offset| #[trigger]
                    kept.chunks().contains_key(o) ==> self.chunks().contains_key(o)
                        && self.chunks()[o] == kept.chunks()[o],
                forall|o: Offset| #[trigger]
                    kept.models().contains_key(o) ==> self.models().contains_key(o)
                        && self.models()[o] == kept.models()[o],
                forall|o: Offset| #[trigger]
                    self.chunks().contains_key(o) && !kept.chunks().contains_key(o) ==> {
                        &&& offsets@.contains(o)
                        &&& chunk_sampled(self.chunks()[o], o, n, *tri_table, sample)
                    },
                forall|o: Offset| #[trigger]
                    self.models().contains_key(o) && !kept.models().contains_key(o) ==> {
                        &&& offsets@.subrange(0, i as int).contains(o)
                        &&& uploaded_from(self.models()[o], self.chunks()[o], upload)
                        &&& loader.spec_vaos().contains(self.models()[o].spec_vao_id())
                    },
            decreases offsets.len() - i,
        {
            let curr_offset: Offset = offsets[i];
            assert(offsets@.contains(curr_offset));
            let ghost before = *self;
            let ghost seen = offsets@.subrange(0, i as int);
            let ghost lacking = without_model(seen, kept.models());
            proof {
                assert(offsets@.subrange(0, i + 1).drop_last() == seen);
                assert(offsets@.subrange(0, i + 1).last() == curr_offset);
                lemma_without_model(seen, kept.models());
                // the offset was not visited before
                assert(!seen.contains(curr_offset)) by {
                    if seen.contains(curr_offset) {
                        let j = choose|j: int| 0 <= j < seen.len() && seen[j] == curr_offset;
                        assert(offsets@[j] == offsets@[i as int]);
                    }
                }
            }
            if self.get_chunk(curr_offset).is_none() {
                let samples: Vec<u32> = sample_lattice(curr_offset, n, &sample);
                self.get_or_create_chunk(curr_offset, &samples, tri_table);
                proof {
                    lemma_view_is_kept(curr_offset, camera_gridspace, self.spec_view_limit());
                    let built = self.chunks()[curr_offset];
                    assert(chunk_sampled(built, curr_offset, n, *tri_table, sample)) by {
                        assert forall|x: int, y: int, z: int|
                            0 <= x < n && 0 <= y < n && 0 <= z < n implies ({
                            let p = crate::entities::basic_marching_cubes::spec_sample_point(
                                curr_offset,
                                n,
                                x,
                                y,
                                z,
                            );
                            call_ensures(
                                sample,
                                (p.0 as i64, p.1 as i64, p.2 as i64),
                                #[trigger] built.lattice().weights[(x, y, z)],
                            )
                        }) by {
                            assert(crate::utils::grid::in_cube((x, y, z), n as int));
                            assert(weight_sampled(samples@, curr_offset, n, sample, x, y, z));
                        }
                    }
                    assert forall|o: Offset| #[trigger]
                        self.chunks().contains_key(o) && !kept.chunks().contains_key(o) implies {
                        &&& offsets@.contains(o)
                        &&& chunk_sampled(self.chunks()[o], o, n, *tri_table, sample)
                    } by {
                        if o != curr_offset {
                            assert(before.chunks().contains_key(o));
                        }
                    }
                    assert(uploads_of(uploads, lacking, self.chunks(), self.models(), upload)) by {
                        assert forall|k: int| 0 <= k < lacking.len() implies self.chunks()[lacking[k]]
                            == before.chunks()[lacking[k]] by {
                            assert(seen.contains(lacking[k]));
                        }
                    }
                }
            }
            let ghost sampled = *self;
            let ghost recorded = loader.spec_vaos();
            match self.get_model(curr_offset) {
                Some(model) => {
                    models.push(model);
                    proof {
                        assert(kept.models().contains_key(curr_offset));
                        assert forall|o: Offset| #[trigger]
                            self.models().contains_key(o) && !kept.models().contains_key(o) implies offsets@.subrange(
                            0,
                            i + 1,
                        ).contains(o) by {
                            let j = choose|j: int| 0 <= j < seen.len() && seen[j] == o;
                            assert(offsets@.subrange(0, i + 1)[j] == o);
                        }
                    }
                },
                None => {
                    let buffers: MeshBuffers = {
                        let chunk: &MCChunk = self.get_chunk(curr_offset).unwrap();
                        upload(chunk)
                    };
                    let model: RawModel = self.get_or_create_mesh(curr_offset, loader, buffers);
                    models.push(model);
                    proof {
                        assert forall|j: int| 0 <= j < i implies self.models().contains_key(
                            #[trigger] offsets@[j],
                        ) && models@[j] == self.models()[offsets@[j]] by {
                            assert(sampled.models().contains_key(offsets@[j]));
                        }
                        assert(loader.spec_vaos()[recorded.len() as int] == buffers.vao_id);
                        assert forall|o: Offset| #[trigger]
                            self.models().contains_key(o) && !kept.models().contains_key(o) implies {
                            &&& offsets@.subrange(0, i + 1).contains(o)
                            &&& uploaded_from(self.models()[o], self.chunks()[o], upload)
                            &&& loader.spec_vaos().contains(self.models()[o].spec_vao_id())
                        } by {
                            if o != curr_offset {
                                assert(sampled.models().contains_key(o));
                                let id = sampled.models()[o].spec_vao_id();
                                let at = choose|at: int| 0 <= at < recorded.len() && recorded[at] == id;
                                assert(loader.spec_vaos()[at] == id);
                                let j = choose|j: int| 0 <= j < seen.len() && seen[j] == o;
                                assert(offsets@.subrange(0, i + 1)[j] == o);
                            } else {
                                assert(offsets@.subrange(0, i + 1)[i as int] == o);
                            }
                        }
                        // the record grew by the one mesh of this offset
                        assert(!kept.models().contains_key(curr_offset));
                        let grown = without_model(offsets@.subrange(0, i + 1), kept.models());
                        assert(grown == lacking.push(curr_offset));
                        assert(model_vaos(grown, self.models()) == model_vaos(
                            lacking,
                            sampled.models(),
                        ).push(buffers.vao_id)) by {
                            assert forall|k: int| 0 <= k < lacking.len() implies self.models()[lacking[k]]
                                == sampled.models()[lacking[k]] by {
                                assert(seen.contains(lacking[k]));
                            }
                        }
                        let ghost earlier = uploads;
                        uploads = uploads.push(buffers);
                        assert(uploads.drop_last() == earlier);
                        assert(uploads_of(uploads, grown, self.chunks(), self.models(), upload)) by {
                            assert forall|k: int| 0 <= k < grown.len() implies {
                                &&& call_ensures(upload, (&self.chunks()[grown[k]],), #[trigger] uploads[k])
                                &&& self.models()[grown[k]].spec_vao_id() == uploads[k].vao_id
                            } by {
                                if k < lacking.len() {
                                    assert(seen.contains(lacking[k]));
                                    assert(uploads[k] == earlier[k]);
                                    assert(self.models()[lacking[k]] == sampled.models()[lacking[k]]);
                                }
                            }
                        }
                    }
                },
            }
            i += 1;
        }
        proof {
            let view = offsets@;
            assert(view.subrange(0, i as int) == view);
            assert forall|j: int| 0 <= j < view.len() implies (kept.models().contains_key(
                #[trigger] view[j],
            ) <==> old(self).models().contains_key(view[j])) by {
                assert(view.contains(view[j]));
                lemma_view_is_kept(view[j], camera_gridspace, self.spec_view_limit());
            }
            lemma_without_model_agrees(view, kept.models(), old(self).models());
            assert(uploads_of(
                uploads,
                without_model(view, old(self).models()),
                self.chunks(),
                self.models(),
                upload,
            ));
            let limit = self.spec_view_limit();
            assert forall|o: Offset|
                self.models().contains_key(o) <==> keys_after_frame(
                    old(self).models().dom(),
                    camera_gridspace,
                    limit,
                ).contains(o) by {
                if in_view(o, camera_gridspace, limit) {
                    assert(view.contains(o));
                    let j = choose|j: int| 0 <= j < view.len() && view[j] == o;
                    assert(self.models().contains_key(view[j]));
                }
                if self.models().contains_key(o) && !kept.models().contains_key(o) {
                    assert(view.contains(o));
                }
            }
            assert(self.models().dom() =~= keys_after_frame(
                old(self).models().dom(),
                camera_gridspace,
                limit,
            ));
            assert forall|o: Offset|
                self.chunks().contains_key(o) <==> keys_after_frame(
                    old(self).chunks().dom(),
                    camera_gridspace,
                    limit,
                ).contains(o) by {
                if in_view(o, camera_gridspace, limit) {
                    assert(view.contains(o));
                    let j = choose|j: int| 0 <= j < view.len() && view[j] == o;
                    assert(self.models().contains_key(view[j]));
                }
                if self.chunks().contains_key(o) && !kept.chunks().contains_key(o) {
                    assert(view.contains(o));
                }
            }
            assert(self.chunks().dom() =~= keys_after_frame(
                old(self).chunks().dom(),
                camera_gridspace,
                limit,
            ));
        }
        (released, models)
    }
    /// The limits of the machine let a frame run: the view round the camera stays on the
    /// grid, a lattice of the manager's bound can be held, and the vertices of the
    /// largest possible mesh can be counted.
    pub open spec fn frame_fits(&self, camera_gridspace: Offset, table: &TriangulationTable) -> bool {
        &&& view_in_reach(camera_gridspace, self.spec_view_limit())
        &&& bound_fits(self.spec_chunk_bounds())
        &&& mesh_fits(self.spec_chunk_bounds(), table.longest_row())
    }

    /// As [`ChunkManager::generate_chunk_models`], for a caller that has not tested the
    /// limits: where they do not let a frame run, nothing is done and nothing is given.
    pub fn try_generate_chunk_models<S, U>(
        &mut self,
        camera_gridspace: Offset,
        loader: &mut Loader,
        tri_table: &TriangulationTable,
        sample: S,
        upload: U,
    ) -> (outcome: Option<(Vec<(Offset, RawModel, Option<MeshBuffers>)>, Vec<RawModel>)>) where
        S: Fn(i64, i64, i64) -> u32,
        U: Fn(&MCChunk) -> MeshBuffers,

        requires
            old(self).wf(),
            tri_table.wf(),
            old(loader).wf(),
            forall|x: i64, y: i64, z: i64| call_requires(sample, (x, y, z)),
            forall|c: &MCChunk| call_requires(upload, (c,)),
        ensures
            outcome is Some <==> old(self).frame_fits(camera_gridspace, tri_table),
            final(self).wf(),
            final(self).same_settings(old(self)),
            final(loader).wf(),
            match outcome {
                Some(frame) => frame_done(
                    *old(self),
                    *final(self),
                    *old(loader),
                    *final(loader),
                    camera_gridspace,
                    *tri_table,
                    sample,
                    upload,
                    frame.0@,
                    frame.1@,
                ),
                None => *final(self) == *old(self) && *final(loader) == *old(loader),
            },
    {
        if !settings_fit(self.chunk_bounds, tri_table) || !ChunkManager::view_is_in_reach(
            camera_gridspace,
            self.view_limit,
        ) {
            return None;
        }
        Some(self.generate_chunk_models(camera_gridspace, loader, tri_table, sample, upload))
    }
}

/// What a whole frame does, from the cache and the loader's record before it to what
/// they are after it, with the released models and the models to draw that it hands out.
pub open spec fn frame_done<S: Fn(i64, i64, i64) -> u32, U: Fn(&MCChunk) -> MeshBuffers>(
    before: ChunkManager,
    after: ChunkManager,
    loader_before: Loader,
    loader_after: Loader,
    camera_gridspace: Offset,
    table: TriangulationTable,
    sample: S,
    upload: U,
    released: Seq<(Offset, RawModel, Option<MeshBuffers>)>,
    models: Seq<RawModel>,
) -> bool {
    let limit = before.spec_view_limit();
    let view = spec_view_offsets(camera_gridspace, limit);
    let missing = without_model(view, before.models());
    let kept = record_after_releases(
        loader_before.spec_vaos(),
        loader_before.spec_vbos(),
        released_vaos(released, released.len() as int),
    );
    // the models that lay outside the cube are dropped and released, each once
    &&& released_exactly(released_models(released), before.models(), camera_gridspace, limit)
    &&& released_in_turn(released, loader_before.spec_vaos(), loader_before.spec_vbos())
    // after the releases the loader records one mesh for each offset in view that had no
    // model, in the order of the view, and nothing else
    &&& loader_after.spec_vaos() == kept.0 + model_vaos(missing, after.models())
    &&& loader_after.spec_vbos().len() == kept.1.len() + 2 * missing.len()
    &&& kept.1.is_prefix_of(loader_after.spec_vbos())
    &&& exists|uploads: Seq<MeshBuffers>|
        {
            &&& #[trigger] uploads_of(uploads, missing, after.chunks(), after.models(), upload)
            &&& loader_after.spec_vbos() == kept.1 + upload_buffers(uploads)
        }
    &&& loader_after.spec_textures() == loader_before.spec_textures()
    // what is cached afterwards: what was cached inside the cube, and what is in view
    &&& after.chunks().dom() == keys_after_frame(before.chunks().dom(), camera_gridspace, limit)
    &&& after.models().dom() == keys_after_frame(before.models().dom(), camera_gridspace, limit)
    // the cache stays inside the cube round the camera
    &&& forall|o: Offset| #[trigger]
        after.chunks().contains_key(o) ==> cube_distance(o, camera_gridspace) <= limit
    // what was cached inside the cube is kept as it was
    &&& forall|o: Offset| #[trigger]
        before.chunks().contains_key(o) && !out_of_gridspace(o, camera_gridspace, limit)
            ==> after.chunks().contains_key(o) && after.chunks()[o] == before.chunks()[o]
    &&& forall|o: Offset| #[trigger]
        before.models().contains_key(o) && !out_of_gridspace(o, camera_gridspace, limit)
            ==> after.models().contains_key(o) && after.models()[o] == before.models()[o]
    // a new chunk is in view and was built from what the sampler gave for it
    &&& forall|o: Offset| #[trigger]
        after.chunks().contains_key(o) && !before.chunks().contains_key(o) ==> {
            &&& in_view(o, camera_gridspace, limit)
            &&& chunk_sampled(after.chunks()[o], o, before.spec_chunk_bounds(), table, sample)
        }
    // a new model is in view, was uploaded from its chunk, and is recorded
    &&& forall|o: Offset| #[trigger]
        after.models().contains_key(o) && !before.models().contains_key(o) ==> {
            &&& in_view(o, camera_gridspace, limit)
            &&& uploaded_from(after.models()[o], after.chunks()[o], upload)
            &&& loader_after.spec_vaos().contains(after.models()[o].spec_vao_id())
        }
    // every offset in view has its model, and the models come in the order of the view
    &&& frame_ready(view, after.models(), models)
}

} // verus!
