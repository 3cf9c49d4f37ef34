//! Lane layout: a straight corridor with equal-width lanes and two
//! effectively-infinite vertical border segments.

use vstd::prelude::*;
use crate::fixed::FX_LIM;
use crate::utils::Coord;

verus! {

/// Most lanes a road may be split into (a machine limit that keeps lane
/// arithmetic inside `i64`).
pub const LANE_COUNT_LIM: usize = 1_000_000;

/// A road centred on a vertical line, split into equal lanes.
#[derive(Debug, Clone)]
pub struct Road {
    pub x: i64,
    pub width: i64,
    pub lane_count: usize,
    pub left: i64,
    pub right: i64,
    pub top: i64,
    pub bottom: i64,
    pub borders: Vec<Vec<Coord>>,
}

/// The internal consistency of a road: derived bounds match the centre and
/// width, and the two borders run the full vertical extent at `left` and
/// `right`.
pub open spec fn road_wf(r: Road) -> bool {
    &&& 1 <= r.lane_count <= LANE_COUNT_LIM
    &&& 0 <= r.width <= FX_LIM
    &&& -FX_LIM <= r.left
    &&& r.left + r.width <= FX_LIM
    &&& r.left == r.x - r.width / 2
    &&& r.right == r.x + r.width / 2
    &&& r.top == -FX_LIM
    &&& r.bottom == FX_LIM
    &&& r.borders@.len() == 2
    &&& r.borders@[0]@ =~= seq![
        Coord { x: r.left, y: r.top },
        Coord { x: r.left, y: r.bottom },
    ]
    &&& r.borders@[1]@ =~= seq![
        Coord { x: r.right, y: r.top },
        Coord { x: r.right, y: r.bottom },
    ]
}

/// The centre line of lane `i`, with `i` clamped to the existing lanes:
/// the road is split into `lane_count` equal widths and the midpoint of the
/// clamped lane is returned.
pub open spec fn lane_center_spec(r: Road, i: int) -> int {
    let lw = (r.width as int) / (r.lane_count as int);
    let k = if i < r.lane_count - 1 {
        i
    } else {
        r.lane_count - 1
    };
    r.left + lw / 2 + k * lw
}

impl Road {
    /// Build a road from its centre line and total width; `lane_count`
    /// defaults to 3 when absent. A zero lane count is an invalid
    /// configuration and is refused, as is a lane count beyond
    /// [`LANE_COUNT_LIM`].
    pub fn new(x: i64, width: i64, lane_count: Option<usize>) -> (r: Option<Road>)
        requires
            0 <= width <= FX_LIM,
            -FX_LIM <= x - width / 2,
            x - width / 2 + width <= FX_LIM,
        ensures
            (r is Some) == (lane_count matches Some(n) ==> 1 <= n <= LANE_COUNT_LIM),
            r matches Some(road) ==> {
                &&& road_wf(road)
                &&& road.x == x
                &&& road.width == width
                &&& (lane_count matches Some(n) ==> road.lane_count == n)
                &&& (lane_count is None ==> road.lane_count == 3)
            },
    {
        let lane_count: usize = match lane_count {
            Some(n) => {
                if n == 0 || n > LANE_COUNT_LIM {
                    return None;
                }
                n
            },
            None => 3,
        };
        let half: i64 = ((width as u64) / 2) as i64;
        let left = x - half;
        let right = x + half;
        let top = -FX_LIM;
        let bottom = FX_LIM;
        let mut left_border: Vec<Coord> = Vec::new();
        left_border.push(Coord { x: left, y: top });
        left_border.push(Coord { x: left, y: bottom });
        let mut right_border: Vec<Coord> = Vec::new();
        right_border.push(Coord { x: right, y: top });
        right_border.push(Coord { x: right, y: bottom });
        let mut borders: Vec<Vec<Coord>> = Vec::new();
        borders.push(left_border);
        borders.push(right_border);
        let road = Road { x, width, lane_count, left, right, top, bottom, borders };
        proof {
            assert(road.borders@[0]@ =~= seq![
                Coord { x: road.left, y: road.top },
                Coord { x: road.left, y: road.bottom },
            ]);
            assert(road.borders@[1]@ =~= seq![
                Coord { x: road.right, y: road.top },
                Coord { x: road.right, y: road.bottom },
            ]);
        }
        Some(road)
    }

    /// The x-coordinate of the centre of lane `lane_index` (clamped to the
    /// last lane when out of range).
    pub fn get_late_center(&self, lane_index: usize) -> (r: i64)
        requires
            road_wf(*self),
        ensures
            r == lane_center_spec(*self, lane_index as int),
            self.left <= r <= self.left + self.width,
            -FX_LIM <= r <= FX_LIM,
    {
        let lane_width: i64 = ((self.width as u64) / (self.lane_count as u64)) as i64;
        let k: usize = if lane_index < self.lane_count - 1 {
            lane_index
        } else {
            self.lane_count - 1
        };
        proof {
            vstd::arithmetic::div_mod::lemma_div_pos_is_pos(
                self.width as int,
                self.lane_count as int,
            );
            vstd::arithmetic::div_mod::lemma_fundamental_div_mod(
                self.width as int,
                self.lane_count as int,
            );
            vstd::arithmetic::div_mod::lemma_mod_pos_bound(
                self.width as int,
                self.lane_count as int,
            );
            assert((k as int) * (lane_width as int) <= ((self.lane_count - 1) as int) * (
            lane_width as int)) by (nonlinear_arith)
                requires
                    0 <= k <= self.lane_count - 1,
                    0 <= lane_width,
            ;
            assert(((self.lane_count - 1) as int) * (lane_width as int) <= (self.lane_count as int)
                * (lane_width as int) - lane_width) by (nonlinear_arith)
                requires
                    1 <= self.lane_count,
                    0 <= lane_width,
            ;
            assert((self.lane_count as int) * (lane_width as int) <= self.width);
            assert(0 <= (k as int) * (lane_width as int) <= self.width - lane_width);
            vstd::arithmetic::div_mod::lemma_div_is_ordered(0, lane_width as int, 2);
            vstd::arithmetic::div_mod::lemma_div_is_ordered(
                lane_width as int,
                self.width as int,
                2,
            );
            assert((lane_width as int) / 2 <= lane_width) by {
                vstd::arithmetic::div_mod::lemma_div_nonincreasing(lane_width as int, 2);
            };
        }
        let offset_in_lane: i64 = ((lane_width as u64) / 2) as i64;
        let step: i64 = (k as i64) * lane_width;
        self.left + offset_in_lane + step
    }
}

} // verus!
