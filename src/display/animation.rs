use vstd::prelude::*;
use crate::display::dvd_logo::{HEIGHT, WIDTH};
use crate::display::layout::{VIRTUAL_HEIGHT, VIRTUAL_WIDTH};

verus! {

/// Rightmost column at which the logo still fits the picture.
pub const MAX_X: usize = VIRTUAL_WIDTH - WIDTH;
/// Lowest row at which the logo still fits the picture.
pub const MAX_Y: usize = VIRTUAL_HEIGHT - HEIGHT;

/// A logo bouncing inside the picture: its top-left corner, its direction on
/// each axis, and how many times it has hit an edge.
pub struct Bounce {
    pub x: usize,
    pub y: usize,
    pub right: bool,
    pub down: bool,
    pub bounces: usize,
}

impl Bounce {
    /// The logo fits the picture, and faces away from any edge it touches.
    pub open spec fn wf(&self) -> bool {
        &&& self.x <= MAX_X
        &&& self.y <= MAX_Y
        &&& self.x == 0 ==> self.right
        &&& self.x == MAX_X ==> !self.right
        &&& self.y == 0 ==> self.down
        &&& self.y == MAX_Y ==> !self.down
    }

    /// The logo at (`x`, `y`), moving right and down.
    pub fn new(x: usize, y: usize) -> (r: Self)
        requires
            x < MAX_X,
            y < MAX_Y,
        ensures
            r.wf(),
            r.x == x && r.y == y && r.right && r.down && r.bounces == 0,
    {
        Bounce { x, y, right: true, down: true, bounces: 0 }
    }

    /// Moves the logo one pixel along each axis; an axis whose edge it
    /// reaches turns around. Returns whether it bounced.
    pub fn step(&mut self) -> (bounced: bool)
        requires
            old(self).wf(),
        ensures
            final(self).wf(),
            final(self).x == if old(self).right { old(self).x + 1 } else { old(self).x - 1 },
            final(self).y == if old(self).down { old(self).y + 1 } else { old(self).y - 1 },
            final(self).right == (if final(self).x == 0 || final(self).x == MAX_X { !old(self).right } else { old(self).right }),
            final(self).down == (if final(self).y == 0 || final(self).y == MAX_Y { !old(self).down } else { old(self).down }),
            bounced == (final(self).x == 0 || final(self).x == MAX_X || final(self).y == 0 || final(self).y == MAX_Y),
            final(self).bounces == if bounced { old(self).bounces.wrapping_add(1) } else { old(self).bounces },
    {
        self.x = if self.right { self.x + 1 } else { self.x - 1 };
        self.y = if self.down { self.y + 1 } else { self.y - 1 };
        let mut bounced = false;
        if self.x == 0 || self.x == MAX_X {
            self.right = !self.right;
            bounced = true;
        }
        if self.y == 0 || self.y == MAX_Y {
            self.down = !self.down;
            bounced = true;
        }
        if bounced {
            self.bounces = self.bounces.wrapping_add(1);
        }
        bounced
    }
}

} // verus!
