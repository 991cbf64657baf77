//! What the painting surface is handed: one rectangle and its colour.
use vstd::prelude::*;
use crate::room::Room;

verus! {

#[derive(Clone, Copy, PartialEq, Eq, Structural, Debug)]
pub enum DrawColor {
    Black,
    White,
}

/// One rectangle to paint.
#[derive(Clone, Copy, PartialEq, Eq, Structural, Debug)]
pub struct DrawInstruction {
    pub color: DrawColor,
    pub originX: u32,
    pub originY: u32,
    pub h: u32,
    pub w: u32,
}

/// Cells added to each extent of the world for the background.
pub const BACKGROUND_PADDING: u32 = 3;

impl DrawInstruction {
    /// The white rectangle of one room.
    pub open spec fn of_room(room: Room) -> DrawInstruction {
        DrawInstruction {
            color: DrawColor::White,
            originX: room.origin.0,
            originY: room.origin.1,
            h: room.height,
            w: room.width,
        }
    }

    /// The white rectangle without area that ends the sequence of rooms.
    pub open spec fn end_mark() -> DrawInstruction {
        DrawInstruction { color: DrawColor::White, originX: 0, originY: 0, h: 0, w: 0 }
    }

    /// The black rectangle behind a world of `width` by `height`, which
    /// exceeds the world by the padding along both axes.
    pub open spec fn background(width: u32, height: u32) -> DrawInstruction {
        DrawInstruction {
            color: DrawColor::Black,
            originX: 0,
            originY: 0,
            h: (height + BACKGROUND_PADDING) as u32,
            w: (width + BACKGROUND_PADDING) as u32,
        }
    }

    /// The rectangle stands for no room.
    pub open spec fn is_end(self) -> bool {
        self.h == 0 || self.w == 0
    }
}

} // verus!
