//! Rooms, and the placing of one room in a region.
use vstd::prelude::*;
use crate::entropy::{range_pick, pick_in_range, host_unit};
use crate::quad::{BspStats, Quad};

verus! {

/// A room of the map.
#[derive(Clone, Copy, PartialEq, Eq, Debug)]
pub struct Room {
    /// Cell of the upper left corner.
    pub origin: (u32, u32),
    /// Number of cells the room extends down.
    pub height: u32,
    /// Number of cells the room extends right.
    pub width: u32,
}

impl Room {
    /// The cells that the room covers.
    pub open spec fn region(self) -> Quad {
        Quad { origin: self.origin, dims: (self.width, self.height) }
    }

    pub fn new(origin: (u32, u32), height: u32, width: u32) -> (room: Room)
        ensures
            room == (Room { origin, height, width }),
    {
        Room { origin, height, width }
    }
}

impl Quad {
    /// The room that four draws place in the region: the first picks its
    /// height from `min_size` to the region's height, the second its width
    /// likewise, the third and fourth how far right and down from the
    /// region's corner it lies, as far as the room's size leaves space.
    pub open spec fn room_at(self, min_size: u32, tall: u64, wide: u64, right: u64, down: u64) -> Room {
        let height = range_pick(min_size, self.dims.1, tall) as u32;
        let width = range_pick(min_size, self.dims.0, wide) as u32;
        let x = range_pick(self.origin.0, (self.origin.0 + (self.dims.0 - width)) as u32, right);
        let y = range_pick(self.origin.1, (self.origin.1 + (self.dims.1 - height)) as u32, down);
        Room { origin: (x as u32, y as u32), height, width }
    }

    /// A placed room lies within its region, is no larger than the region,
    /// and while the region is larger than the least room size the room stays
    /// below the region's extent.
    pub proof fn lemma_room_contained(self, min_size: u32, tall: u64, wide: u64, right: u64, down: u64)
        requires
            self.fits(),
        ensures
            self.room_at(min_size, tall, wide, right, down).region().within(self),
            self.room_at(min_size, tall, wide, right, down).region().fits(),
            min_size < self.dims.0 ==> self.room_at(min_size, tall, wide, right, down).width
                < self.dims.0,
            min_size < self.dims.1 ==> self.room_at(min_size, tall, wide, right, down).height
                < self.dims.1,
    {
        let height = range_pick(min_size, self.dims.1, tall);
        let width = range_pick(min_size, self.dims.0, wide);
        crate::entropy::lemma_range_pick(min_size, self.dims.1, tall);
        crate::entropy::lemma_range_pick(min_size, self.dims.0, wide);
        crate::entropy::lemma_range_pick(
            self.origin.0,
            (self.origin.0 + (self.dims.0 - width)) as u32,
            right,
        );
        crate::entropy::lemma_range_pick(
            self.origin.1,
            (self.origin.1 + (self.dims.1 - height)) as u32,
            down,
        );
    }

    /// In a region that is no smaller than the least room size and exceeds
    /// the largest by at most one, a placed room has both extents between
    /// the least and the largest room size.
    pub proof fn lemma_room_sized(self, stats: BspStats, tall: u64, wide: u64, right: u64, down: u64)
        requires
            stats.minSize <= stats.maxSize,
            stats.minSize <= self.dims.0 <= stats.maxSize + 1,
            stats.minSize <= self.dims.1 <= stats.maxSize + 1,
        ensures
            stats.minSize <= self.room_at(stats.minSize, tall, wide, right, down).width
                <= stats.maxSize,
            stats.minSize <= self.room_at(stats.minSize, tall, wide, right, down).height
                <= stats.maxSize,
    {
        crate::entropy::lemma_range_pick(stats.minSize, self.dims.1, tall);
        crate::entropy::lemma_range_pick(stats.minSize, self.dims.0, wide);
    }

    /// Places the room that the four draws pick in the region.
    pub fn place_room(&self, stats: &BspStats, tall: u64, wide: u64, right: u64, down: u64) -> (room:
        Room)
        requires
            self.fits(),
        ensures
            room == self.room_at(stats.minSize, tall, wide, right, down),
            room.region().within(*self),
            stats.minSize <= self.dims.0 ==> stats.minSize <= room.width,
            stats.minSize <= self.dims.1 ==> stats.minSize <= room.height,
    {
        let rh = pick_in_range(stats.minSize, self.dims.1, tall);
        let rw = pick_in_range(stats.minSize, self.dims.0, wide);
        let rx = pick_in_range(self.origin.0, self.origin.0 + (self.dims.0 - rw), right);
        let ry = pick_in_range(self.origin.1, self.origin.1 + (self.dims.1 - rh), down);
        Room { origin: (rx, ry), height: rh, width: rw }
    }

    /// Places a room of random size at a random place in the region, by
    /// four fresh draws from the host.
    pub fn gen_room(&self, stats: &BspStats) -> (room: Room)
        requires
            self.fits(),
        ensures
            exists|tall: u64, wide: u64, right: u64, down: u64|
                room == self.room_at(stats.minSize, tall, wide, right, down),
            room.region().within(*self),
            stats.minSize <= self.dims.0 ==> stats.minSize <= room.width,
            stats.minSize <= self.dims.1 ==> stats.minSize <= room.height,
    {
        let tall = host_unit();
        let wide = host_unit();
        let right = host_unit();
        let down = host_unit();
        self.place_room(stats, tall, wide, right, down)
    }
}

} // verus!
