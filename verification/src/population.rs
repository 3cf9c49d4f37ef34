//! The population controller: a road, a fixed set of scripted traffic cars,
//! and a cohort of independently initialised autonomous candidates, advanced
//! tick by tick with the best-progressed candidate re-selected each time.

use vstd::prelude::*;
use crate::fixed::{SCALE, FX_LIM, POS_LIM};
use crate::car::{Car, car_wf, car_ticked, traffic_ok};
use crate::controls::ControlKind;
use crate::road::{Road, road_wf, lane_center_spec};
use crate::utils::{Coord, views_of, poly_ok, coord_ok};
use crate::sensor::borders_ok;
use crate::network::{NeuralNetwork, net_wf, net_equiv, clone_network};

verus! {

/// Every car in the list is well formed.
pub open spec fn cars_ok(cs: Seq<Car>) -> bool {
    forall|i: int| 0 <= i < cs.len() ==> car_wf(#[trigger] cs[i])
}

/// Every car's position lies within the band `[-lim, lim]` on both axes.
pub open spec fn cars_in_band(cs: Seq<Car>, lim: i64) -> bool {
    forall|i: int|
        0 <= i < cs.len() ==> -lim <= (#[trigger] cs[i]).x <= lim && -lim <= cs[i].y <= lim
}

/// The simulation state owned by the population controller.
pub struct Population {
    pub road: Road,
    pub traffic: Vec<Car>,
    pub cars: Vec<Car>,
}

/// Well-formedness of the whole simulation state.
pub open spec fn population_wf(p: Population) -> bool {
    &&& road_wf(p.road)
    &&& cars_ok(p.traffic@)
    &&& cars_ok(p.cars@)
}

/// A well-formed road's borders are valid sensor and damage obstacles.
pub proof fn lemma_road_borders_ok(r: Road)
    requires
        road_wf(r),
    ensures
        borders_ok(views_of(r.borders@)),
{
    assert forall|i: int| 0 <= i < views_of(r.borders@).len() implies (#[trigger] views_of(
        r.borders@,
    )[i]).len() == 2 && poly_ok(views_of(r.borders@)[i]) by {
        assert(views_of(r.borders@)[i] == r.borders@[i]@);
        if i == 0 {
            assert(r.borders@[0]@[0] == Coord { x: r.left, y: r.top });
            assert(r.borders@[0]@[1] == Coord { x: r.left, y: r.bottom });
            assert(forall|k: int|
                0 <= k < r.borders@[0]@.len() ==> coord_ok(#[trigger] r.borders@[0]@[k]));
        } else {
            assert(r.borders@[1]@[0] == Coord { x: r.right, y: r.top });
            assert(r.borders@[1]@[1] == Coord { x: r.right, y: r.bottom });
            assert(forall|k: int|
                0 <= k < r.borders@[1]@.len() ==> coord_ok(#[trigger] r.borders@[1]@[k]));
        }
    };
}

impl Population {
    /// A cohort of `amount` independently constructed autonomous candidates,
    /// all placed at the centre of lane 1, a little way down the road.
    pub fn generate_cars(&self, amount: usize) -> (r: Vec<Car>)
        requires
            road_wf(self.road),
            -POS_LIM <= self.road.left,
            self.road.left + self.road.width <= POS_LIM,
        ensures
            r@.len() == amount,
            cars_ok(r@),
            cars_in_band(r@, POS_LIM),
            forall|i: int|
                0 <= i < r@.len() ==> {
                    let c = #[trigger] r@[i];
                    &&& c.x == lane_center_spec(self.road, 1)
                    &&& c.y == 100 * SCALE
                    &&& c.width == 30 * SCALE
                    &&& c.height == 50 * SCALE
                    &&& c.use_brain
                    &&& c.sensor is Some
                    &&& c.brain is Some
                    &&& !c.damaged
                    &&& c.speed == 0
                },
    {
        let x = self.road.get_late_center(1);
        let mut cars: Vec<Car> = Vec::new();
        let mut i: usize = 0;
        while i < amount
            invariant
                0 <= i <= amount,
                road_wf(self.road),
                -POS_LIM <= self.road.left,
                self.road.left + self.road.width <= POS_LIM,
                x == lane_center_spec(self.road, 1),
                -POS_LIM <= x <= POS_LIM,
                cars@.len() == i,
                cars_ok(cars@),
                cars_in_band(cars@, POS_LIM),
                forall|k: int|
                    0 <= k < cars@.len() ==> {
                        let c = #[trigger] cars@[k];
                        &&& c.x == lane_center_spec(self.road, 1)
                        &&& c.y == 100 * SCALE
                        &&& c.width == 30 * SCALE
                        &&& c.height == 50 * SCALE
                        &&& c.use_brain
                        &&& c.sensor is Some
                        &&& c.brain is Some
                        &&& !c.damaged
                        &&& c.speed == 0
                    },
            decreases amount - i,
        {
            cars.push(
                Car::new(x, 100 * SCALE, 30 * SCALE, 50 * SCALE, ControlKind::AI, None),
            );
            i += 1;
        }
        cars
    }

    /// One simulation tick: every traffic car advances (blind to everything
    /// but the borders), then every candidate advances against the borders
    /// and the updated traffic, and the best-progressed candidate (smallest
    /// y, last wins ties) is re-selected. A car once damaged stays damaged.
    pub fn tick(&mut self) -> (best: Option<usize>)
        requires
            population_wf(*old(self)),
            cars_in_band(old(self).traffic@, POS_LIM),
            cars_in_band(old(self).cars@, POS_LIM),
        ensures
            population_wf(*final(self)),
            final(self).road == old(self).road,
            final(self).traffic@.len() == old(self).traffic@.len(),
            final(self).cars@.len() == old(self).cars@.len(),
            cars_in_band(final(self).traffic@, (POS_LIM + 100 * SCALE) as i64),
            cars_in_band(final(self).cars@, (POS_LIM + 100 * SCALE) as i64),
            forall|i: int|
                0 <= i < old(self).traffic@.len() ==> car_ticked(
                    #[trigger] old(self).traffic@[i],
                    final(self).traffic@[i],
                    views_of(old(self).road.borders@),
                    Seq::<Car>::empty(),
                ),
            forall|i: int|
                0 <= i < old(self).cars@.len() ==> car_ticked(
                    #[trigger] old(self).cars@[i],
                    final(self).cars@[i],
                    views_of(old(self).road.borders@),
                    final(self).traffic@,
                ),
            forall|i: int|
                0 <= i < old(self).traffic@.len() ==> ((#[trigger] old(self).traffic@[i]).damaged
                    ==> final(self).traffic@[i].damaged),
            forall|i: int|
                0 <= i < old(self).cars@.len() ==> ((#[trigger] old(self).cars@[i]).damaged
                    ==> final(self).cars@[i].damaged),
            (best is Some) == (old(self).cars@.len() > 0),
            best matches Some(k) ==> 0 <= k < final(self).cars@.len() && (forall|i: int|
                0 <= i < final(self).cars@.len() ==> final(self).cars@[k as int].y
                    <= (#[trigger] final(self).cars@[i]).y) && (forall|i: int|
                k < i < final(self).cars@.len() ==> final(self).cars@[k as int].y
                    < (#[trigger] final(self).cars@[i]).y),
    {
        proof {
            lemma_road_borders_ok(self.road);
        }
        let ghost old_traffic = self.traffic@;
        let empty: Vec<Car> = Vec::new();
        let nt = self.traffic.len();
        let mut i: usize = 0;
        while i < nt
            invariant
                0 <= i <= nt,
                nt == self.traffic@.len() == old_traffic.len(),
                road_wf(self.road),
                self.road == old(self).road,
                self.cars == old(self).cars,
                borders_ok(views_of(self.road.borders@)),
                empty@.len() == 0,
                forall|k: int| i <= k < nt ==> #[trigger] self.traffic@[k] == old_traffic[k],
                cars_ok(old_traffic),
                cars_in_band(old_traffic, POS_LIM),
                forall|k: int| 0 <= k < i ==> car_wf(#[trigger] self.traffic@[k]),
                forall|k: int|
                    0 <= k < i ==> -POS_LIM - 100 * SCALE <= (#[trigger] self.traffic@[k]).x
                        <= POS_LIM + 100 * SCALE && -POS_LIM - 100 * SCALE <= self.traffic@[k].y
                        <= POS_LIM + 100 * SCALE,
                forall|k: int|
                    0 <= k < i ==> (old_traffic[k].damaged
                        ==> (#[trigger] self.traffic@[k]).damaged),
                forall|k: int|
                    0 <= k < i ==> car_ticked(
                        #[trigger] old_traffic[k],
                        self.traffic@[k],
                        views_of(self.road.borders@),
                        Seq::<Car>::empty(),
                    ),
            decreases nt - i,
        {
            let mut t = self.traffic.remove(i);
            proof {
                assert(t == old_traffic[i as int]);
                assert(t.max_speed <= 100 * SCALE);
            }
            t.update(&self.road.borders, &empty);
            proof {
                assert(empty@ =~= Seq::<Car>::empty());
            }
            self.traffic.insert(i, t);
            i += 1;
        }
        let ghost old_cars = self.cars@;
        let ghost traffic_after = self.traffic@;
        let nc = self.cars.len();
        let mut j: usize = 0;
        while j < nc
            invariant
                0 <= j <= nc,
                nc == self.cars@.len() == old_cars.len(),
                road_wf(self.road),
                self.road == old(self).road,
                borders_ok(views_of(self.road.borders@)),
                cars_ok(self.traffic@),
                self.traffic@ == traffic_after,
                self.traffic@.len() == old_traffic.len(),
                cars_in_band(self.traffic@, (POS_LIM + 100 * SCALE) as i64),
                forall|k: int|
                    0 <= k < old_traffic.len() ==> (old_traffic[k].damaged
                        ==> (#[trigger] self.traffic@[k]).damaged),
                forall|k: int| j <= k < nc ==> #[trigger] self.cars@[k] == old_cars[k],
                cars_ok(old_cars),
                cars_in_band(old_cars, POS_LIM),
                forall|k: int| 0 <= k < j ==> car_wf(#[trigger] self.cars@[k]),
                forall|k: int|
                    0 <= k < j ==> -POS_LIM - 100 * SCALE <= (#[trigger] self.cars@[k]).x <= POS_LIM
                        + 100 * SCALE && -POS_LIM - 100 * SCALE <= self.cars@[k].y <= POS_LIM + 100
                        * SCALE,
                forall|k: int|
                    0 <= k < j ==> (old_cars[k].damaged ==> (#[trigger] self.cars@[k]).damaged),
                forall|k: int|
                    0 <= k < j ==> car_ticked(
                        #[trigger] old_cars[k],
                        self.cars@[k],
                        views_of(self.road.borders@),
                        traffic_after,
                    ),
            decreases nc - j,
        {
            let mut c = self.cars.remove(j);
            proof {
                assert(c == old_cars[j as int]);
                assert(c.max_speed <= 100 * SCALE);
                assert(traffic_ok(self.traffic@));
            }
            c.update(&self.road.borders, &self.traffic);
            self.cars.insert(j, c);
            j += 1;
        }
        best_car_index(&self.cars)
    }

    /// Replace every candidate's controller with a copy of the given one
    /// (pure elitism: a persisted best controller is adopted unchanged).
    pub fn adopt_brain(&mut self, brain: &NeuralNetwork)
        requires
            population_wf(*old(self)),
            net_wf(*brain),
            forall|i: int|
                0 <= i < old(self).cars@.len() ==> ((#[trigger] old(self).cars@[i]).sensor
                    matches Some(s) ==> s.ray_count == brain.levels@[0].inputs@.len()),
            brain.levels@[brain.levels@.len() - 1].outputs@.len() == 4,
        ensures
            population_wf(*final(self)),
            final(self).road == old(self).road,
            final(self).traffic == old(self).traffic,
            final(self).cars@.len() == old(self).cars@.len(),
            forall|i: int|
                0 <= i < final(self).cars@.len() ==> ((#[trigger] final(self).cars@[i]).brain
                    matches Some(b2) && net_equiv(b2, *brain)),
            forall|i: int|
                0 <= i < final(self).cars@.len() ==> {
                    let c2 = #[trigger] final(self).cars@[i];
                    let c1 = old(self).cars@[i];
                    &&& c2.x == c1.x
                    &&& c2.y == c1.y
                    &&& c2.speed == c1.speed
                    &&& c2.heading == c1.heading
                    &&& c2.damaged == c1.damaged
                    &&& c2.sensor == c1.sensor
                    &&& c2.controls == c1.controls
                },
    {
        let ghost old_cars = self.cars@;
        let ghost traffic_after = self.traffic@;
        let nc = self.cars.len();
        let mut i: usize = 0;
        while i < nc
            invariant
                0 <= i <= nc,
                nc == self.cars@.len() == old_cars.len(),
                road_wf(self.road),
                self.road == old(self).road,
                self.traffic == old(self).traffic,
                cars_ok(self.traffic@),
                net_wf(*brain),
                brain.levels@[brain.levels@.len() - 1].outputs@.len() == 4,
                forall|k: int|
                    0 <= k < old_cars.len() ==> ((#[trigger] old_cars[k]).sensor matches Some(s)
                        ==> s.ray_count == brain.levels@[0].inputs@.len()),
                forall|k: int| i <= k < nc ==> #[trigger] self.cars@[k] == old_cars[k],
                cars_ok(old_cars),
                forall|k: int| 0 <= k < i ==> car_wf(#[trigger] self.cars@[k]),
                forall|k: int|
                    0 <= k < i ==> ((#[trigger] self.cars@[k]).brain matches Some(b2) && net_equiv(
                        b2,
                        *brain,
                    )),
                forall|k: int|
                    0 <= k < i ==> {
                        let c2 = #[trigger] self.cars@[k];
                        let c1 = old_cars[k];
                        &&& c2.x == c1.x
                        &&& c2.y == c1.y
                        &&& c2.speed == c1.speed
                        &&& c2.heading == c1.heading
                        &&& c2.damaged == c1.damaged
                        &&& c2.sensor == c1.sensor
                        &&& c2.controls == c1.controls
                    },
            decreases nc - i,
        {
            let mut c = self.cars.remove(i);
            proof {
                assert(c == old_cars[i as int]);
            }
            c.brain = Some(clone_network(brain));
            self.cars.insert(i, c);
            i += 1;
        }
    }
}

/// The index of the best-progressed car: the one with the smallest y
/// (furthest along the road), the last such index when several tie.
pub fn best_car_index(cars: &Vec<Car>) -> (r: Option<usize>)
    ensures
        (r is Some) == (cars@.len() > 0),
        r matches Some(k) ==> 0 <= k < cars@.len() && (forall|i: int|
            0 <= i < cars@.len() ==> cars@[k as int].y <= (#[trigger] cars@[i]).y) && (forall|
            i: int,
        |
            k < i < cars@.len() ==> cars@[k as int].y < (#[trigger] cars@[i]).y),
{
    let n = cars.len();
    if n == 0 {
        return None;
    }
    let mut k: usize = 0;
    let mut i: usize = 1;
    while i < n
        invariant
            n == cars@.len(),
            0 <= k < i <= n,
            forall|m: int| 0 <= m < i ==> cars@[k as int].y <= (#[trigger] cars@[m]).y,
            forall|m: int| k < m < i ==> cars@[k as int].y < (#[trigger] cars@[m]).y,
        decreases n - i,
    {
        if cars[i].y <= cars[k].y {
            k = i;
        }
        i += 1;
    }
    Some(k)
}

} // verus!
