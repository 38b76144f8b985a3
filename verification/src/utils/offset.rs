//! Positions of chunks in the grid of chunks.

use vstd::prelude::*;

verus! {

/// The position of a chunk in the grid of chunks, one step per chunk along each axis.
#[derive(Clone, Copy, Debug, PartialEq, Eq, Structural)]
pub struct Offset {
    pub x: i32,
    pub y: i32,
    pub z: i32,
}

impl Offset {
    pub fn new(x: i32, y: i32, z: i32) -> (o: Offset)
        ensures
            o == (Offset { x, y, z }),
    {
        Offset { x, y, z }
    }
}

/// One more than the largest key: keys are three 32-bit fields wide.
pub const KEY_LIMIT: u128 = 0x1_0000_0000_0000_0000_0000_0000;

/// The number under which an offset is filed: its coordinates, each moved up by 2^31
/// so that none is negative, written as three 32-bit fields, x first.
pub open spec fn spec_key(o: Offset) -> int {
    ((o.x + 0x8000_0000) * 0x1_0000_0000 + (o.y + 0x8000_0000)) * 0x1_0000_0000 + (o.z
        + 0x8000_0000)
}

/// The offset that is filed under a key.
pub open spec fn spec_offset_of(key: int) -> Offset {
    Offset {
        x: (key / 0x1_0000_0000_0000_0000 - 0x8000_0000) as i32,
        y: ((key / 0x1_0000_0000) % 0x1_0000_0000 - 0x8000_0000) as i32,
        z: (key % 0x1_0000_0000 - 0x8000_0000) as i32,
    }
}

/// Every offset has a key of its own, from which it can be read back.
pub proof fn lemma_key_of_offset(o: Offset)
    ensures
        0 <= spec_key(o) < KEY_LIMIT,
        spec_offset_of(spec_key(o)) == o,
{
}

/// Every key below the limit is the key of the offset read from it.
pub proof fn lemma_offset_of_key(key: int)
    requires
        0 <= key < KEY_LIMIT,
    ensures
        spec_key(spec_offset_of(key)) == key,
{
}

/// The key of an offset.
pub fn key_of(o: Offset) -> (key: u128)
    ensures
        key == spec_key(o),
        key < KEY_LIMIT,
{
    let x: u128 = (o.x as i64 + 0x8000_0000) as u128;
    let y: u128 = (o.y as i64 + 0x8000_0000) as u128;
    let z: u128 = (o.z as i64 + 0x8000_0000) as u128;
    (x * 0x1_0000_0000 + y) * 0x1_0000_0000 + z
}

/// The offset of a key.
pub fn offset_of(key: u128) -> (o: Offset)
    requires
        key < KEY_LIMIT,
    ensures
        o == spec_offset_of(key as int),
        spec_key(o) == key,
{
    let x: i64 = (key / 0x1_0000_0000_0000_0000) as i64 - 0x8000_0000;
    let y: i64 = ((key / 0x1_0000_0000) % 0x1_0000_0000) as i64 - 0x8000_0000;
    let z: i64 = (key % 0x1_0000_0000) as i64 - 0x8000_0000;
    Offset { x: x as i32, y: y as i32, z: z as i32 }
}

/// The distance between two coordinates.
pub open spec fn axis_distance(a: int, b: int) -> int {
    if a >= b {
        a - b
    } else {
        b - a
    }
}

/// The greatest distance along any axis between two offsets.
pub open spec fn cube_distance(a: Offset, b: Offset) -> int {
    let dx = axis_distance(a.x as int, b.x as int);
    let dy = axis_distance(a.y as int, b.y as int);
    let dz = axis_distance(a.z as int, b.z as int);
    if dx >= dy && dx >= dz {
        dx
    } else if dy >= dz {
        dy
    } else {
        dz
    }
}

} // verus!
