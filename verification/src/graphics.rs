//! What is drawn where: the part of drawing that is arithmetic.

use vstd::prelude::*;
use crate::components::Path;
use crate::geometry::{Pos, TILE_SIZE};

verus! {

pub struct GraphicsPlugin;

/// Which picture of its sheet an animated sprite shows.
#[derive(Clone, Copy, Debug, PartialEq, Eq, Structural)]
pub struct FrameAnimation {
    pub current_frame: usize,
}

/// Asks for a path to be drawn.
#[derive(Clone, Debug)]
pub struct DrawPathEvent(pub Path);

/// Where a sprite is drawn: a position, and a layer.
#[derive(Clone, Copy, Debug, PartialEq, Eq, Structural)]
pub struct Placement {
    pub x: i32,
    pub y: i32,
    pub z: i32,
}

/// A square that marks a position of a path.
#[derive(Clone, Copy, Debug, PartialEq, Eq, Structural)]
pub struct PathMarker {
    pub place: Placement,
    /// Edge length, in world units.
    pub size: usize,
}

/// The marker that is drawn for position `p` of a path.
pub open spec fn marker_at(p: Pos) -> PathMarker {
    PathMarker { place: Placement { x: p.x, y: p.y, z: 0 }, size: TILE_SIZE }
}

/// The frame that follows `frame` on a sheet of `sheet_len` pictures: the
/// first one again after the last, and the first one of a new sheet.
pub open spec fn next_frame(frame: int, sheet_changed: bool, sheet_len: int) -> int {
    if sheet_changed {
        0
    } else {
        (frame + 1) % sheet_len
    }
}

impl GraphicsPlugin {
    /// Steps an animation whose timer has run out: to the first picture
    /// where the sprite has to change its sheet, else to the next picture of
    /// the sheet, which has `sheet_len` pictures. Says whether the sheet is to be
    /// changed.
    pub fn frame_animation(
        animation: &mut FrameAnimation,
        just_finished: bool,
        sheet_changed: bool,
        sheet_len: usize,
    ) -> (change_sheet: bool)
        requires
            just_finished && !sheet_changed ==> sheet_len > 0,
        ensures
            change_sheet == (just_finished && sheet_changed),
            final(animation).current_frame == if just_finished {
                next_frame(old(animation).current_frame as int, sheet_changed, sheet_len as int)
            } else {
                old(animation).current_frame as int
            },
    {
        if !just_finished {
            return false;
        }
        if sheet_changed {
            animation.current_frame = 0;
            true
        } else {
            let frame: usize = animation.current_frame;
            animation.current_frame = if frame == usize::MAX {
                proof {
                    lemma_wrapped_frame(frame as int, sheet_len as int);
                }
                (frame % sheet_len + 1) % sheet_len
            } else {
                (frame + 1) % sheet_len
            };
            false
        }
    }

    /// The markers that show the path of `ev`, one for each of its
    /// positions, in order.
    pub fn draw_paths(ev: &DrawPathEvent) -> (markers: Vec<PathMarker>)
        ensures
            markers@ == ev.0@.map_values(|p: Pos| marker_at(p)),
    {
        let mut markers: Vec<PathMarker> = Vec::new();
        let mut i: usize = 0;
        while i < ev.0.0.len()
            invariant
                i <= ev.0@.len(),
                markers@ == ev.0@.take(i as int).map_values(|p: Pos| marker_at(p)),
            decreases ev.0@.len() - i,
        {
            let node: Pos = ev.0.0[i];
            markers.push(
                PathMarker { place: Placement { x: node.x, y: node.y, z: 0 }, size: TILE_SIZE },
            );
            assert(markers@ =~= ev.0@.take(i + 1).map_values(|p: Pos| marker_at(p)));
            i += 1;
        }
        assert(ev.0@.take(i as int) =~= ev.0@);
        markers
    }

    /// Where the sprite of an entity at `pos` is drawn: at `pos`, on the
    /// ground layer.
    pub fn update_sprite_positions(pos: &Pos) -> (place: Placement)
        ensures
            place == (Placement { x: pos.x, y: pos.y, z: 0 }),
    {
        Placement { x: pos.x, y: pos.y, z: 0 }
    }
}

/// The successor of a frame modulo the length of the sheet can be had from
/// the frame modulo that length.
proof fn lemma_wrapped_frame(frame: int, sheet_len: int)
    requires
        0 <= frame,
        0 < sheet_len,
    ensures
        (frame % sheet_len + 1) % sheet_len == (frame + 1) % sheet_len,
{
    vstd::arithmetic::div_mod::lemma_add_mod_noop(frame, 1, sheet_len);
    vstd::arithmetic::div_mod::lemma_mod_bound(frame, sheet_len);
    if sheet_len == 1 {
        assert(1int % 1 == 0);
    } else {
        vstd::arithmetic::div_mod::lemma_small_mod(1, sheet_len as nat);
    }
}

} // verus!
