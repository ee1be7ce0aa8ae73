//! Bricks: fixed-size cubes of voxels, the finest-grained storage unit.
use vstd::prelude::*;
use vstd::pervasive::VecAdditionalExecFns;
use crate::BRICK_VOLUME;

verus! {

/// An RGBA-like color with four unsigned 8-bit channels.
#[derive(Clone, Copy, PartialEq, Eq, Structural, Debug)]
pub struct Color {
    pub r: u8,
    pub g: u8,
    pub b: u8,
    pub a: u8,
}

/// An unsigned integer position on a cubic grid (a voxel inside a brick, or
/// a brick on the brick grid).
#[derive(Clone, Copy, PartialEq, Eq, Structural, Debug)]
pub struct GridPos {
    pub x: u32,
    pub y: u32,
    pub z: u32,
}

/// Index of the voxel at `(x, y, z)` in a brick's dense voxel array, in the
/// fixed order x, then y, then z.
pub open spec fn vox_index(x: int, y: int, z: int) -> int {
    x * 16 + y * 4 + z
}

/// A cube of `BRICK_SIZE^3` voxels; each voxel is either empty (`None`) or
/// holds a color.  Bricks live in a dense arena inside the brickmap tree and
/// are identified by their arena index.
#[derive(Clone, Debug)]
pub struct Brick {
    voxels: Vec<Option<Color>>,
}

impl View for Brick {
    type V = Seq<Option<Color>>;

    closed spec fn view(&self) -> Seq<Option<Color>> {
        self.voxels@
    }
}

impl Brick {
    /// A brick is a dense cube: exactly `BRICK_VOLUME` voxel slots.
    pub open spec fn wf(self) -> bool {
        self@.len() == crate::BRICK_VOLUME
    }

    /// Returns an all-empty brick.
    pub fn empty() -> (b: Brick)
        ensures
            b.wf(),
            forall|i: int| 0 <= i < crate::BRICK_VOLUME ==> b@[i] is None,
    {
        let mut voxels: Vec<Option<Color>> = Vec::new();
        let mut i: usize = 0;
        while i < BRICK_VOLUME
            invariant
                i <= crate::BRICK_VOLUME,
                voxels@.len() == i,
                forall|j: int| 0 <= j < i ==> voxels@[j] is None,
            decreases crate::BRICK_VOLUME - i,
        {
            voxels.push(None);
            i = i + 1;
        }
        Brick { voxels }
    }

    /// Sets the voxel at local position `pos` to `color`.  Writing outside
    /// `[0, BRICK_SIZE)` per axis is a programming error, excluded here by
    /// precondition rather than silently wrapped or clamped.
    pub fn write(&mut self, pos: GridPos, color: Color)
        requires
            old(self).wf(),
            pos.x < crate::BRICK_SIZE,
            pos.y < crate::BRICK_SIZE,
            pos.z < crate::BRICK_SIZE,
        ensures
            final(self).wf(),
            final(self)@ == old(self)@.update(
                vox_index(pos.x as int, pos.y as int, pos.z as int),
                Some(color),
            ),
    {
        let idx: usize = (pos.x as usize) * 16 + (pos.y as usize) * 4 + (pos.z as usize);
        self.voxels.set(idx, Some(color));
    }

    /// Reads the voxel at local position `pos`.
    pub fn get(&self, pos: GridPos) -> (c: Option<Color>)
        requires
            self.wf(),
            pos.x < crate::BRICK_SIZE,
            pos.y < crate::BRICK_SIZE,
            pos.z < crate::BRICK_SIZE,
        ensures
            c == self@[vox_index(pos.x as int, pos.y as int, pos.z as int)],
    {
        let idx: usize = (pos.x as usize) * 16 + (pos.y as usize) * 4 + (pos.z as usize);
        self.voxels[idx]
    }
}

} // verus!
