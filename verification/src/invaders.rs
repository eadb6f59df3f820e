//! Game state of the demo: the player's ship, the enemy rows with their
//! bounce movement, and the beams with their collision tests. All drawing
//! goes through the graphics crate onto the hardware framebuffer and lives
//! outside the library; these are the rules the drawing depicts.

use vstd::prelude::*;

verus! {

/// The player's ship: its position and size, and the bookkeeping of the
/// two most recent moves used to erase its previous image.
pub struct Spaceship {
    pub pos_x: i32,
    pub pos_y: i32,
    pub size: i32,
    pub first_set: bool,
    pub prev_dx: i32,
    pub prev_dy: i32,
    pub second_set: bool,
    pub second_prev_dx: i32,
    pub second_prev_dy: i32,
}

impl Spaceship {
    /// Move the ship and record the delta for the eraser.
    pub fn move_by(&mut self, dx: i32, dy: i32)
        requires
            i32::MIN <= old(self).pos_x + dx <= i32::MAX,
            i32::MIN <= old(self).pos_y + dy <= i32::MAX,
        ensures
            final(self).pos_x == old(self).pos_x + dx,
            final(self).pos_y == old(self).pos_y + dy,
            final(self).prev_dx == dx,
            final(self).prev_dy == dy,
            final(self).first_set,
            final(self).second_set == (old(self).first_set || old(self).second_set),
            final(self).size == old(self).size,
            final(self).second_prev_dx == old(self).second_prev_dx,
            final(self).second_prev_dy == old(self).second_prev_dy,
    {
        self.pos_x = self.pos_x + dx;
        self.pos_y = self.pos_y + dy;
        if self.first_set {
            self.second_set = true;
        } else {
            self.first_set = true;
        }
        self.prev_dx = dx;
        self.prev_dy = dy;
    }
}

/// A row of enemy ships marching side to side and stepping down at the
/// edges. Bit `i` of `status` is set while ship `i` is alive.
pub struct EnemyRow {
    pub row_size: i32,
    pub start_x: i32,
    pub start_y: i32,
    pub size: i32,
    pub prev_dx: i32,
    pub prev_dy: i32,
    pub direction: i32,
    pub max_x: i32,
    pub min_x: i32,
    pub status: u32,
}

/// Ship `i` of the row is alive and the beam's tip lies within its
/// triangle's horizontal extent.
pub open spec fn spec_hit_at(row: EnemyRow, b: Beam, i: int) -> bool {
    &&& row.status >> i & 1 == 1
    &&& row.start_x + 2 * row.size * i - row.size / 2 <= b.curr_x
    &&& b.curr_x <= row.start_x + 2 * row.size * i + row.size / 2
}

/// The beam's height lies within the row's vertical band.
pub open spec fn spec_in_row_band(row: EnemyRow, b: Beam) -> bool {
    row.start_y <= b.curr_y <= row.start_y + row.size
}

impl EnemyRow {
    /// Whether ship `ship_num` is still alive.
    pub fn ship_status(&self, ship_num: i32) -> (r: bool)
        requires
            0 <= ship_num < 32,
        ensures
            r == (self.status >> ship_num as u32 & 1 == 1),
    {
        let r = self.status & (1u32 << (ship_num as u32)) > 0;
        proof {
            let s = self.status;
            let n = ship_num as u32;
            assert((s & (1u32 << n) > 0) == (s >> n & 1 == 1)) by (bit_vector)
                requires
                    n < 32,
            ;
        }
        r
    }

    /// Mark ship `ship_num` as destroyed.
    pub fn clear_ship(&mut self, ship_num: i32)
        requires
            0 <= ship_num < 32,
        ensures
            final(self).status == old(self).status & !(1u32 << (ship_num as u32)),
            final(self).status >> ship_num as u32 & 1 == 0,
            forall|j: u32|
                j < 32 && j != ship_num ==> final(self).status >> j & 1 == old(self).status >> j
                    & 1,
            final(self).row_size == old(self).row_size,
            final(self).start_x == old(self).start_x,
            final(self).start_y == old(self).start_y,
            final(self).size == old(self).size,
            final(self).prev_dx == old(self).prev_dx,
            final(self).prev_dy == old(self).prev_dy,
            final(self).direction == old(self).direction,
            final(self).max_x == old(self).max_x,
            final(self).min_x == old(self).min_x,
    {
        self.status = self.status & !(1u32 << (ship_num as u32));
        proof {
            let s = old(self).status;
            let n = ship_num as u32;
            assert((s & !(1u32 << n)) >> n & 1 == 0) by (bit_vector)
                requires
                    n < 32,
            ;
            assert forall|j: u32| j < 32 && j != n implies (s & !(1u32 << n)) >> j & 1 == s >> j
                & 1 by {
                assert(j != n ==> (s & !(1u32 << n)) >> j & 1 == s >> j & 1) by (bit_vector)
                    requires
                        n < 32 && j < 32,
                ;
            }
        }
    }

    /// The index of the first live ship the beam has struck, or `-1` when
    /// the beam is outside the row's band or strikes no ship.
    pub fn ship_hit(&self, b: &Beam) -> (r: i32)
        requires
            0 <= self.row_size <= 32,
            0 <= self.size,
            2 * self.size <= i32::MAX,
            2 * self.size * self.row_size <= i32::MAX,
            self.start_x - self.size / 2 >= i32::MIN,
            self.start_x + 2 * self.size * self.row_size + self.size / 2 <= i32::MAX,
            i32::MIN <= self.start_y + self.size <= i32::MAX,
        ensures
            r == -1 || 0 <= r < self.row_size,
            (r == -1) == (!spec_in_row_band(*self, *b) || forall|i: int|
                0 <= i < self.row_size ==> !spec_hit_at(*self, *b, i)),
            r >= 0 ==> spec_in_row_band(*self, *b) && spec_hit_at(*self, *b, r as int)
                && forall|j: int| 0 <= j < r ==> !spec_hit_at(*self, *b, j),
    {
        if !(self.start_y <= b.curr_y && b.curr_y <= self.start_y + self.size) {
            return -1;
        }
        let mut i: i32 = 0;
        while i < self.row_size
            invariant
                0 <= i <= self.row_size,
                self.row_size <= 32,
                0 <= self.size,
                2 * self.size <= i32::MAX,
                2 * self.size * self.row_size <= i32::MAX,
                self.start_x - self.size / 2 >= i32::MIN,
                self.start_x + 2 * self.size * self.row_size + self.size / 2 <= i32::MAX,
                spec_in_row_band(*self, *b),
                forall|j: int| 0 <= j < i ==> !spec_hit_at(*self, *b, j),
            decreases self.row_size - i,
        {
            proof {
                assert(0 <= 2 * self.size * i <= 2 * self.size * self.row_size)
                    by (nonlinear_arith)
                    requires
                        0 <= self.size && 0 <= i <= self.row_size,
                ;
            }
            let alive = self.ship_status(i);
            if alive {
                let base_x = self.start_x + 2 * self.size * i;
                if base_x - self.size / 2 <= b.curr_x && b.curr_x <= base_x + self.size / 2 {
                    proof {
                        assert(spec_hit_at(*self, *b, i as int));
                    }
                    return i;
                }
            }
            i = i + 1;
        }
        -1
    }

    /// March the row by `amount` in its current direction; at either edge
    /// the row backs off, steps down one ship height, and turns around.
    pub fn move_by(&mut self, amount: i32)
        requires
            old(self).direction == 1 || old(self).direction == -1,
            amount != i32::MIN,
            0 <= old(self).size,
            0 <= old(self).row_size <= 32,
            2 * old(self).size <= i32::MAX,
            2 * old(self).size * old(self).row_size <= i32::MAX,
            i32::MIN <= old(self).start_x + old(self).direction * amount <= i32::MAX,
            i32::MIN <= old(self).start_x + old(self).direction * amount + amount <= i32::MAX,
            i32::MIN <= old(self).start_x + old(self).direction * amount - amount <= i32::MAX,
            i32::MIN <= old(self).start_y + old(self).size <= i32::MAX,
            old(self).start_x + old(self).direction * amount + 2 * old(self).size * old(
                self,
            ).row_size <= i32::MAX,
            i32::MIN <= old(self).start_x + old(self).direction * amount - old(self).size,
        ensures
            ({
                let moved = old(self).start_x + old(self).direction * amount;
                let over_left = moved < old(self).min_x;
                let over_right = moved + 2 * old(self).size * old(self).row_size - old(self).size
                    > old(self).max_x;
                &&& final(self).start_x == if over_left {
                    moved + amount
                } else if over_right {
                    moved - amount
                } else {
                    moved
                }
                &&& final(self).start_y == if over_left || (!over_left && over_right) {
                    old(self).start_y + old(self).size
                } else {
                    old(self).start_y as int
                }
                &&& final(self).direction == if over_left || (!over_left && over_right) {
                    -old(self).direction
                } else {
                    old(self).direction as int
                }
                &&& final(self).prev_dx == if over_left || (!over_left && over_right) {
                    0
                } else {
                    old(self).direction * amount
                }
                &&& final(self).prev_dy == if over_left || (!over_left && over_right) {
                    old(self).size
                } else {
                    0
                }
            }),
            final(self).row_size == old(self).row_size,
            final(self).size == old(self).size,
            final(self).max_x == old(self).max_x,
            final(self).min_x == old(self).min_x,
            final(self).status == old(self).status,
    {
        let step = if self.direction == 1 {
            amount
        } else {
            0 - amount
        };
        proof {
            if self.direction == 1 {
                assert(self.direction * amount == amount) by (nonlinear_arith)
                    requires
                        self.direction == 1,
                ;
            } else {
                assert(self.direction * amount == -amount) by (nonlinear_arith)
                    requires
                        self.direction == -1,
                ;
            }
            assert(0 <= 2 * self.size * self.row_size) by (nonlinear_arith)
                requires
                    0 <= self.size && 0 <= self.row_size,
            ;
            if self.row_size >= 1 {
                assert(2 * self.size <= 2 * self.size * self.row_size) by (nonlinear_arith)
                    requires
                        0 <= self.size && 1 <= self.row_size,
                ;
            }
        }
        self.start_x = self.start_x + step;
        self.prev_dx = step;
        self.prev_dy = 0;
        if self.start_x < self.min_x {
            self.start_x = self.start_x + amount;
            self.start_y = self.start_y + self.size;
            self.direction = -self.direction;
            self.prev_dx = 0;
            self.prev_dy = self.size;
        } else {
            let reach = self.start_x + 2 * self.size * self.row_size;
            if reach - self.size > self.max_x {
                self.start_x = self.start_x - amount;
                self.start_y = self.start_y + self.size;
                self.direction = -self.direction;
                self.prev_dx = 0;
                self.prev_dy = self.size;
            }
        }
    }
}

/// A beam in flight: `player` is `1` for the player's beams (which travel
/// up) and `-1` for enemy beams (which travel down).
pub struct Beam {
    pub curr_x: i32,
    pub curr_y: i32,
    pub width: i32,
    pub height: i32,
    pub player: i32,
    pub active: bool,
    pub prev_dx: i32,
    pub prev_dy: i32,
    pub window_height: i32,
    pub available: bool,
}

impl Beam {
    /// Advance the beam by `amount` in its direction of travel; a beam
    /// that would leave the window is deactivated instead.
    pub fn move_by(&mut self, amount: i32)
        requires
            old(self).player == 1 || old(self).player == -1,
            amount != i32::MIN,
            i32::MIN <= old(self).curr_y - old(self).player * amount <= i32::MAX,
            i32::MIN <= old(self).curr_y - old(self).player * amount + old(self).height
                <= i32::MAX,
        ensures
            ({
                let delta = old(self).player * amount;
                let gone = old(self).curr_y - delta < 0 || old(self).curr_y - delta + old(
                    self,
                ).height > old(self).window_height;
                &&& !old(self).active ==> *final(self) == (Beam {
                    prev_dx: 0,
                    prev_dy: 0,
                    ..*old(self)
                })
                &&& (old(self).active && gone) ==> *final(self) == (Beam {
                    active: false,
                    ..*old(self)
                })
                &&& (old(self).active && !gone) ==> *final(self) == (Beam {
                    curr_y: (old(self).curr_y - delta) as i32,
                    prev_dx: 0,
                    prev_dy: (-delta) as i32,
                    ..*old(self)
                })
            }),
    {
        if !self.active {
            self.prev_dx = 0;
            self.prev_dy = 0;
            return ;
        }
        let delta = if self.player == 1 {
            amount
        } else {
            0 - amount
        };
        proof {
            if self.player == 1 {
                assert(self.player * amount == amount) by (nonlinear_arith)
                    requires
                        self.player == 1,
                ;
            } else {
                assert(self.player * amount == -amount) by (nonlinear_arith)
                    requires
                        self.player == -1,
                ;
            }
        }
        if self.curr_y - delta < 0 || self.curr_y - delta + self.height > self.window_height {
            self.active = false;
            return ;
        }
        self.curr_y = self.curr_y - delta;
        self.prev_dx = 0;
        self.prev_dy = 0 - delta;
    }
}

/// The game is over when an enemy row has marched down to the player's
/// ship: the row's lower edge reaches the ship's upper edge.
pub fn game_over(row: &EnemyRow, ship: &Spaceship) -> (r: bool)
    requires
        i32::MIN <= row.start_y + row.size <= i32::MAX,
        i32::MIN <= ship.pos_y - ship.size <= i32::MAX,
    ensures
        r == (row.start_y + row.size >= ship.pos_y - ship.size),
{
    row.start_y + row.size >= ship.pos_y - ship.size
}

} // verus!
