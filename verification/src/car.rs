//! The kinematic car: speed integration with friction and clamping, steering
//! through exact rotation algebra, an oriented bounding polygon, a one-way
//! damage flag, and the per-tick composition with sensing and the controller.

use vstd::prelude::*;
use crate::fixed::{SCALE, POS_LIM, fxm, mag, fx_mul, lemma_div_tz_mag};
use crate::utils::{
    Coord, Rot, rot_wf, rot_compose, rot_compose_spec, coord_ok, poly_ok, polys_intersect,
    polys_intersect_spec, lemma_rot_bounds, views_of,
};
use crate::controls::{ControlKind, Controls};
use crate::sensor::{Sensor, sensor_wf, sensor_updated, borders_ok};
use crate::network::{NeuralNetwork, net_wf, net_out, same_params, vals_in_unit};

verus! {

/// Sine of the fixed steering step (0.03 radians), fixed-point.
pub const STEER_SIN: i64 = 29_996;

/// Cosine of the fixed steering step (0.03 radians), fixed-point.
pub const STEER_COS: i64 = 999_550;

/// The relative rotation applied by one steering step: counter-clockwise
/// (angle increase) when `pos`, clockwise otherwise.
pub open spec fn steer_rot(pos: bool) -> Rot {
    if pos {
        Rot { s: STEER_SIN, c: STEER_COS }
    } else {
        Rot { s: (-STEER_SIN) as i64, c: STEER_COS }
    }
}

proof fn lemma_steer_wf(pos: bool)
    ensures
        rot_wf(steer_rot(pos)),
{
    assert(29_996i64 * 29_996i64 + 999_550i64 * 999_550i64 <= 1_000_000i64 * 1_000_000i64)
        by (nonlinear_arith);
    assert((-29_996i64) * (-29_996i64) + 999_550i64 * 999_550i64 <= 1_000_000i64 * 1_000_000i64)
        by (nonlinear_arith);
}

/// Speed after the acceleration inputs are applied.
pub open spec fn accel_speed(s: int, acc: int, fwd: bool, rev: bool) -> int {
    let s1 = if fwd {
        s + acc
    } else {
        s
    };
    if rev {
        s1 - acc
    } else {
        s1
    }
}

/// Speed clamped into `[-max/2, max]`.
pub open spec fn clamp_speed(s: int, max: int) -> int {
    let s1 = if s > max {
        max
    } else {
        s
    };
    if s1 < -(max / 2) {
        -(max / 2)
    } else {
        s1
    }
}

/// Friction pulls the speed toward zero, snapping to exactly zero once its
/// magnitude falls below the friction constant (no oscillation).
pub open spec fn friction_speed(s: int, fr: int) -> int {
    let s1 = if s > 0 {
        s - fr
    } else {
        s
    };
    let s2 = if s1 < 0 {
        s1 + fr
    } else {
        s1
    };
    if mag(s2) < fr {
        0
    } else {
        s2
    }
}

/// The whole per-tick speed pipeline: accelerate, clamp, then apply
/// friction, in that order.
pub open spec fn step_speed(s: int, acc: int, max: int, fr: int, fwd: bool, rev: bool) -> int {
    friction_speed(clamp_speed(accel_speed(s, acc, fwd, rev), max), fr)
}

/// The heading after steering: only a moving car turns, and the turning
/// direction is flipped when driving in reverse.
pub open spec fn step_heading(h: Rot, left: bool, right: bool, sp: int) -> Rot {
    if sp != 0 {
        let pos = sp > 0;
        let h1 = if left {
            rot_compose_spec(h, steer_rot(pos))
        } else {
            h
        };
        if right {
            rot_compose_spec(h1, steer_rot(!pos))
        } else {
            h1
        }
    } else {
        h
    }
}

/// The speed after `n` ticks of the pipeline under constant inputs.
pub open spec fn speed_after_ticks(
    s: int,
    acc: int,
    max: int,
    fr: int,
    fwd: bool,
    rev: bool,
    n: nat,
) -> int
    decreases n,
{
    if n == 0 {
        s
    } else {
        step_speed(speed_after_ticks(s, acc, max, fr, fwd, rev, (n - 1) as nat), acc, max, fr, fwd, rev)
    }
}

/// The speed never leaves `[-max/2, max]` after a tick: in particular it
/// never exceeds the cap, whatever the inputs.
pub proof fn lemma_speed_bounded(s: int, acc: int, max: int, fr: int, fwd: bool, rev: bool)
    requires
        0 <= acc,
        0 <= fr,
        0 <= max,
    ensures
        -(max / 2) <= step_speed(s, acc, max, fr, fwd, rev) <= max,
{
}

/// Holding forward with no steering and no friction drives the speed to
/// exactly `max` once enough ticks have passed, and it stays there.
pub proof fn lemma_forward_speed_converges(s: int, acc: int, max: int, n: nat)
    requires
        0 < acc,
        0 <= max,
        -(max / 2) <= s <= max,
    ensures
        speed_after_ticks(s, acc, max, 0, true, false, n) == (if s + n * acc <= max {
            s + n * acc
        } else {
            max
        }),
    decreases n,
{
    if n > 0 {
        lemma_forward_speed_converges(s, acc, max, (n - 1) as nat);
        assert(n * acc == (n - 1) * acc + acc) by (nonlinear_arith);
        assert((n - 1) * acc >= 0) by (nonlinear_arith)
            requires
                n >= 1,
                acc > 0,
        ;
        assert(speed_after_ticks(s, acc, max, 0, true, false, n) == step_speed(
            speed_after_ticks(s, acc, max, 0, true, false, (n - 1) as nat),
            acc,
            max,
            0,
            true,
            false,
        ));
    } else {
        assert(speed_after_ticks(s, acc, max, 0, true, false, 0) == s);
        assert(n * acc == 0) by (nonlinear_arith)
            requires
                n == 0,
        ;
    }
}

/// Holding reverse with no steering and no friction drives the speed to
/// exactly `-max/2` once enough ticks have passed, and it stays there.
pub proof fn lemma_reverse_speed_converges(s: int, acc: int, max: int, n: nat)
    requires
        0 < acc,
        0 <= max,
        -(max / 2) <= s <= max,
    ensures
        speed_after_ticks(s, acc, max, 0, false, true, n) == (if s - n * acc >= -(max / 2) {
            s - n * acc
        } else {
            -(max / 2)
        }),
    decreases n,
{
    if n > 0 {
        lemma_reverse_speed_converges(s, acc, max, (n - 1) as nat);
        assert(n * acc == (n - 1) * acc + acc) by (nonlinear_arith);
        assert((n - 1) * acc >= 0) by (nonlinear_arith)
            requires
                n >= 1,
                acc > 0,
        ;
        assert(speed_after_ticks(s, acc, max, 0, false, true, n) == step_speed(
            speed_after_ticks(s, acc, max, 0, false, true, (n - 1) as nat),
            acc,
            max,
            0,
            false,
            true,
        ));
    } else {
        assert(speed_after_ticks(s, acc, max, 0, false, true, 0) == s);
        assert(n * acc == 0) by (nonlinear_arith)
            requires
                n == 0,
        ;
    }
}

/// With no input held, one tick moves the speed toward zero and never past
/// it: no overshoot, no oscillation.
pub proof fn lemma_speed_decay_step(s: int, acc: int, max: int, fr: int)
    requires
        0 <= acc,
        0 <= fr,
        0 <= max,
        s <= max,
    ensures
        s >= 0 ==> 0 <= step_speed(s, acc, max, fr, false, false) <= s,
        s <= 0 ==> s <= step_speed(s, acc, max, fr, false, false) <= 0,
        mag(s) >= 1 && fr >= 1 ==> mag(step_speed(s, acc, max, fr, false, false)) <= mag(s) - 1,
        s == 0 ==> step_speed(s, acc, max, fr, false, false) == 0,
{
}

/// With no input held and positive friction, the speed reaches exactly
/// zero within `|s|` ticks and stays there.
pub proof fn lemma_speed_decays_to_zero(s: int, acc: int, max: int, fr: int, n: nat)
    requires
        0 <= acc,
        1 <= fr,
        0 <= max,
        -(max / 2) <= s <= max,
        n >= mag(s),
    ensures
        speed_after_ticks(s, acc, max, fr, false, false, n) == 0,
    decreases n,
{
    if n > 0 {
        let s1 = step_speed(s, acc, max, fr, false, false);
        lemma_speed_decay_step(s, acc, max, fr);
        lemma_speed_bounded(s, acc, max, fr, false, false);
        lemma_speed_after_ticks_shift(s, acc, max, fr, false, false, n);
        lemma_speed_decays_to_zero(s1, acc, max, fr, (n - 1) as nat);
    }
}

/// An unobstructed car holding only forward while facing straight down the
/// road stays undamaged and strictly advances every tick: its speed turns
/// positive and its y-coordinate strictly decreases, while its x-coordinate
/// and heading stay put. The acceleration and cap must clear twice the
/// friction (as the cohort's defaults do), or the snap-to-zero would eat
/// the first push.
pub proof fn lemma_unobstructed_forward_progress(
    c1: Car,
    c2: Car,
    bs: Seq<Seq<Coord>>,
    ts: Seq<Car>,
)
    requires
        car_ticked(c1, c2, bs, ts),
        !c1.damaged,
        c1.controls.forward,
        !c1.controls.reverse,
        !c1.controls.left,
        !c1.controls.right,
        c1.heading == (Rot { s: 0i64, c: SCALE }),
        0 <= c1.speed <= c1.max_speed,
        0 <= c1.friction,
        1 <= c1.acceleration,
        2 * c1.friction <= c1.acceleration,
        1 <= c1.max_speed,
        2 * c1.friction <= c1.max_speed,
        !damage_spec(polygon_spec(c2.x, c2.y, c1.width, c1.height, c1.heading), bs, ts),
    ensures
        !c2.damaged,
        c2.heading == c1.heading,
        c2.x == c1.x,
        c2.y < c1.y,
        0 < c2.speed <= c1.max_speed,
{
    let sp = step_speed(
        c1.speed as int,
        c1.acceleration as int,
        c1.max_speed as int,
        c1.friction as int,
        true,
        false,
    );
    assert(0 < sp <= c1.max_speed);
    assert(step_heading(c1.heading, false, false, sp) == c1.heading);
    assert(fxm(c1.heading.s as int, sp) == 0) by {
        assert((0int) * sp == 0);
        vstd::arithmetic::div_mod::lemma_div_of0(SCALE as int);
    };
    assert(fxm(c1.heading.c as int, sp) == sp) by {
        assert((SCALE as int) * sp > 0) by (nonlinear_arith)
            requires
                sp > 0,
                SCALE == 1_000_000i64,
        ;
        vstd::arithmetic::div_mod::lemma_div_multiples_vanish(sp, SCALE as int);
    };
    assert(c2.x == c1.x && c2.y == c1.y - sp);
    assert(c2.polygon@ == polygon_spec(c2.x, c2.y, c1.width, c1.height, c1.heading));
}

/// Iterating `n` times is one step followed by `n - 1` iterations.
proof fn lemma_speed_after_ticks_shift(
    s: int,
    acc: int,
    max: int,
    fr: int,
    fwd: bool,
    rev: bool,
    n: nat,
)
    requires
        n >= 1,
    ensures
        speed_after_ticks(s, acc, max, fr, fwd, rev, n) == speed_after_ticks(
            step_speed(s, acc, max, fr, fwd, rev),
            acc,
            max,
            fr,
            fwd,
            rev,
            (n - 1) as nat,
        ),
    decreases n,
{
    let s1 = step_speed(s, acc, max, fr, fwd, rev);
    if n == 1 {
        assert(speed_after_ticks(s, acc, max, fr, fwd, rev, 1) == step_speed(
            speed_after_ticks(s, acc, max, fr, fwd, rev, 0),
            acc,
            max,
            fr,
            fwd,
            rev,
        ));
        assert(speed_after_ticks(s1, acc, max, fr, fwd, rev, 0) == s1);
    } else {
        lemma_speed_after_ticks_shift(s, acc, max, fr, fwd, rev, (n - 1) as nat);
        assert(speed_after_ticks(s, acc, max, fr, fwd, rev, n) == step_speed(
            speed_after_ticks(s, acc, max, fr, fwd, rev, (n - 1) as nat),
            acc,
            max,
            fr,
            fwd,
            rev,
        ));
        assert(speed_after_ticks(s1, acc, max, fr, fwd, rev, (n - 1) as nat) == step_speed(
            speed_after_ticks(s1, acc, max, fr, fwd, rev, (n - 2) as nat),
            acc,
            max,
            fr,
            fwd,
            rev,
        ));
    }
}

/// The four corners of the oriented bounding box of a car at the given
/// pose: at `angle +- alpha` and `pi + angle -+ alpha` from the centre,
/// where `alpha` spans the half extents (the trigonometry is expanded into
/// the heading's sine and cosine, which is exact).
pub open spec fn polygon_spec(x: i64, y: i64, w: i64, h: i64, hd: Rot) -> Seq<Coord> {
    let w2 = (w as int) / 2;
    let h2 = (h as int) / 2;
    let s = hd.s as int;
    let c = hd.c as int;
    let dx1 = fxm(s, h2) - fxm(c, w2);
    let dy1 = fxm(c, h2) + fxm(s, w2);
    let dx2 = fxm(s, h2) + fxm(c, w2);
    let dy2 = fxm(c, h2) - fxm(s, w2);
    seq![
        Coord { x: (x - dx1) as i64, y: (y - dy1) as i64 },
        Coord { x: (x - dx2) as i64, y: (y - dy2) as i64 },
        Coord { x: (x + dx1) as i64, y: (y + dy1) as i64 },
        Coord { x: (x + dx2) as i64, y: (y + dy2) as i64 },
    ]
}

/// Traffic whose polygons the geometry accepts.
pub open spec fn traffic_ok(ts: Seq<Car>) -> bool {
    forall|i: int| 0 <= i < ts.len() ==> poly_ok((#[trigger] ts[i]).polygon@)
}

/// The polygons of a traffic list.
pub open spec fn traffic_views(ts: Seq<Car>) -> Seq<Seq<Coord>> {
    Seq::new(ts.len(), |i: int| ts[i].polygon@)
}

/// A body at `poly` is wrecked: it crosses a road border or another car's
/// polygon.
pub open spec fn damage_spec(poly: Seq<Coord>, bs: Seq<Seq<Coord>>, ts: Seq<Car>) -> bool {
    ||| exists|i: int| 0 <= i < bs.len() && polys_intersect_spec(poly, #[trigger] bs[i])
    ||| exists|j: int|
        0 <= j < ts.len() && polys_intersect_spec(poly, (#[trigger] ts[j]).polygon@)
}

/// The control flags dictated by a controller output vector.
pub open spec fn controls_from_outputs(out: Seq<i64>) -> Controls {
    Controls {
        forward: out[0] == SCALE,
        left: out[1] == SCALE,
        right: out[2] == SCALE,
        reverse: out[3] == SCALE,
    }
}

/// Sensor readings turned into controller inputs: `1 - offset` per ray
/// (closer obstruction means larger input), `0` where nothing was seen.
pub open spec fn offsets_input(readings: Seq<Option<crate::utils::CoordWithOffset>>) -> Seq<i64> {
    Seq::new(
        readings.len(),
        |i: int|
            match readings[i] {
                Some(t) => (SCALE - t.offset) as i64,
                None => 0i64,
            },
    )
}

/// The kinematic body with its optional sensor and controller.
#[derive(Debug, Clone)]
pub struct Car {
    pub x: i64,
    pub y: i64,
    pub width: i64,
    pub height: i64,
    pub speed: i64,
    pub acceleration: i64,
    pub max_speed: i64,
    pub friction: i64,
    pub heading: Rot,
    pub damaged: bool,
    pub use_brain: bool,
    pub sensor: Option<Sensor>,
    pub brain: Option<NeuralNetwork>,
    pub controls: Controls,
    pub polygon: Vec<Coord>,
}

/// Bounds on the scalar parameters of a car.
pub open spec fn car_params_wf(c: Car) -> bool {
    &&& 0 <= c.acceleration <= SCALE
    &&& 0 <= c.friction <= SCALE
    &&& 0 <= c.max_speed <= 100 * SCALE
    &&& -c.max_speed <= c.speed <= c.max_speed
    &&& 0 <= c.width <= 1000 * SCALE
    &&& 0 <= c.height <= 1000 * SCALE
    &&& rot_wf(c.heading)
}

/// Full well-formedness: parameters in range, polygon coordinates in range,
/// sub-objects well formed, and the controller's ends matching the sensor's
/// ray count and the four control flags.
pub open spec fn car_wf(c: Car) -> bool {
    &&& car_params_wf(c)
    &&& poly_ok(c.polygon@)
    &&& (c.sensor matches Some(s) ==> sensor_wf(s))
    &&& (c.brain matches Some(b) ==> net_wf(b))
    &&& ((c.sensor is Some && c.brain is Some) ==> {
        let s = c.sensor->0;
        let b = c.brain->0;
        &&& b.levels@[0].inputs@.len() == s.ray_count
        &&& b.levels@[b.levels@.len() - 1].outputs@.len() == 4
    })
}

/// Everything one tick does to a single car: the bundled relation between
/// the car before and after [`Car::update`] against the given borders and
/// traffic.
pub open spec fn car_ticked(c1: Car, c2: Car, bs: Seq<Seq<Coord>>, ts: Seq<Car>) -> bool {
    &&& (c1.damaged ==> c2.damaged && c2.x == c1.x && c2.y == c1.y && c2.speed == c1.speed
        && c2.heading == c1.heading && c2.polygon == c1.polygon)
    &&& (!c1.damaged ==> {
        let sp = step_speed(
            c1.speed as int,
            c1.acceleration as int,
            c1.max_speed as int,
            c1.friction as int,
            c1.controls.forward,
            c1.controls.reverse,
        );
        let hd = step_heading(c1.heading, c1.controls.left, c1.controls.right, sp);
        &&& c2.speed == sp
        &&& c2.heading == hd
        &&& c2.x == c1.x - fxm(hd.s as int, sp)
        &&& c2.y == c1.y - fxm(hd.c as int, sp)
        &&& c2.polygon@ == polygon_spec(c2.x, c2.y, c1.width, c1.height, hd)
        &&& c2.damaged == damage_spec(c2.polygon@, bs, ts)
    })
    &&& c2.width == c1.width
    &&& c2.height == c1.height
    &&& c2.acceleration == c1.acceleration
    &&& c2.max_speed == c1.max_speed
    &&& c2.friction == c1.friction
    &&& c2.use_brain == c1.use_brain
    &&& (c2.sensor is Some) == (c1.sensor is Some)
    &&& (c2.brain is Some) == (c1.brain is Some)
    &&& (c1.sensor is None ==> c2.sensor is None && c2.brain == c1.brain && c2.controls
        == c1.controls)
    &&& (c1.sensor matches Some(s) ==> (c2.sensor matches Some(s2) && sensor_updated(
        s2,
        s,
        c2.x,
        c2.y,
        c2.heading,
        bs,
        traffic_views(ts),
    )))
    &&& (c1.sensor is Some ==> (c1.brain matches Some(b) ==> (c2.brain matches Some(b2)
        && same_params(b2, b))))
    &&& ((c1.sensor is Some && c1.brain is Some && c1.use_brain) ==> c2.controls
        == controls_from_outputs(
        net_out((c1.brain->0).levels@, offsets_input((c2.sensor->0).readings@)),
    ))
    &&& ((c1.sensor is Some && (c1.brain is None || !c1.use_brain)) ==> c2.controls == c1.controls)
}

impl Car {
    /// A fresh car at the given pose. Acceleration and friction are fixed
    /// (0.2 and 0.05); the speed cap defaults to 3. Scripted dummies carry
    /// no sensor and no controller and drive forward forever; the other
    /// kinds sense and own a freshly randomised controller, which steers
    /// the car only for the autonomous kind.
    pub fn new(
        x: i64,
        y: i64,
        width: i64,
        height: i64,
        control_kind: ControlKind,
        max_speed: Option<i64>,
    ) -> (r: Car)
        requires
            -POS_LIM <= x <= POS_LIM,
            -POS_LIM <= y <= POS_LIM,
            0 <= width <= 1000 * SCALE,
            0 <= height <= 1000 * SCALE,
            max_speed matches Some(m) ==> 0 <= m <= 100 * SCALE,
        ensures
            car_wf(r),
            r.x == x,
            r.y == y,
            r.width == width,
            r.height == height,
            r.speed == 0,
            r.acceleration == SCALE / 5,
            r.friction == SCALE / 20,
            r.max_speed == (match max_speed {
                Some(m) => m,
                None => (3 * SCALE) as i64,
            }),
            r.heading == (Rot { s: 0i64, c: SCALE }),
            !r.damaged,
            r.use_brain == (control_kind is AI),
            (r.sensor is Some) == !(control_kind is Dummy),
            (r.brain is Some) == !(control_kind is Dummy),
            r.sensor matches Some(s) ==> s.ray_count == 5 && s.rays@.len() == 0
                && s.readings@.len() == 0,
            r.controls == (Controls {
                forward: control_kind is Dummy,
                left: false,
                right: false,
                reverse: false,
            }),
            r.polygon@.len() == 0,
    {
        let max_speed: i64 = match max_speed {
            Some(m) => m,
            None => 3 * SCALE,
        };
        let heading = Rot { s: 0, c: SCALE };
        proof {
            assert(0i64 * 0i64 + 1_000_000i64 * 1_000_000i64 <= 1_000_000i64 * 1_000_000i64)
                by (nonlinear_arith);
        }
        let mut sensor: Option<Sensor> = None;
        let mut brain: Option<NeuralNetwork> = None;
        if control_kind != ControlKind::Dummy {
            let s = Sensor::new();
            let mut counts: Vec<usize> = Vec::new();
            counts.push(s.ray_count);
            counts.push(6);
            counts.push(4);
            let built = NeuralNetwork::new(counts);
            match built {
                Some(b) => {
                    brain = Some(b);
                },
                None => {
                    proof {
                        assert(false);
                    }
                },
            }
            sensor = Some(s);
        }
        let controls = Controls::new(control_kind);
        Car {
            x,
            y,
            width,
            height,
            speed: 0,
            acceleration: 200_000,
            max_speed,
            friction: 50_000,
            heading,
            damaged: false,
            use_brain: control_kind == ControlKind::AI,
            sensor,
            brain,
            controls,
            polygon: Vec::new(),
        }
    }

    /// One kinematic step: integrate the speed pipeline, steer, and move.
    /// The position changes by at most `max_speed` per axis.
    #[verifier::rlimit(50)]
    fn advance(&mut self)
        requires
            car_params_wf(*old(self)),
            -POS_LIM <= old(self).x <= POS_LIM,
            -POS_LIM <= old(self).y <= POS_LIM,
        ensures
            car_params_wf(*final(self)),
            final(self).speed == step_speed(
                old(self).speed as int,
                old(self).acceleration as int,
                old(self).max_speed as int,
                old(self).friction as int,
                old(self).controls.forward,
                old(self).controls.reverse,
            ),
            final(self).heading == step_heading(
                old(self).heading,
                old(self).controls.left,
                old(self).controls.right,
                final(self).speed as int,
            ),
            final(self).x == old(self).x - fxm(final(self).heading.s as int, final(self).speed as int),
            final(self).y == old(self).y - fxm(final(self).heading.c as int, final(self).speed as int),
            mag(final(self).x as int) <= mag(old(self).x as int) + old(self).max_speed,
            mag(final(self).y as int) <= mag(old(self).y as int) + old(self).max_speed,
            final(self).width == old(self).width,
            final(self).height == old(self).height,
            final(self).acceleration == old(self).acceleration,
            final(self).max_speed == old(self).max_speed,
            final(self).friction == old(self).friction,
            final(self).damaged == old(self).damaged,
            final(self).use_brain == old(self).use_brain,
            final(self).controls == old(self).controls,
            final(self).sensor == old(self).sensor,
            final(self).brain == old(self).brain,
            final(self).polygon == old(self).polygon,
    {
        let sp = step_speed_exec(
            self.speed,
            self.acceleration,
            self.max_speed,
            self.friction,
            self.controls.forward,
            self.controls.reverse,
        );
        self.speed = sp;
        let hd = step_heading_exec(self.heading, self.controls.left, self.controls.right, sp);
        self.heading = hd;
        proof {
            lemma_rot_bounds(self.heading);
            assert(mag((self.heading.s as int) * (self.speed as int)) <= (SCALE as int) * mag(
                self.speed as int,
            )) by (nonlinear_arith)
                requires
                    -SCALE <= self.heading.s <= SCALE,
            ;
            assert(mag((self.heading.c as int) * (self.speed as int)) <= (SCALE as int) * mag(
                self.speed as int,
            )) by (nonlinear_arith)
                requires
                    -SCALE <= self.heading.c <= SCALE,
            ;
            lemma_div_tz_mag((self.heading.s as int) * (self.speed as int), SCALE as int);
            lemma_div_tz_mag((self.heading.c as int) * (self.speed as int), SCALE as int);
        }
        let dx = fx_mul(self.heading.s, self.speed);
        let dy = fx_mul(self.heading.c, self.speed);
        self.x = self.x - dx;
        self.y = self.y - dy;
    }

    /// The oriented bounding polygon of the current pose.
    #[verifier::rlimit(50)]
    fn create_polygon(&self) -> (pts: Vec<Coord>)
        requires
            car_params_wf(*self),
            -POS_LIM - 100 * SCALE <= self.x <= POS_LIM + 100 * SCALE,
            -POS_LIM - 100 * SCALE <= self.y <= POS_LIM + 100 * SCALE,
        ensures
            pts@ =~= polygon_spec(self.x, self.y, self.width, self.height, self.heading),
            poly_ok(pts@),
    {
        let w2: i64 = ((self.width as u64) / 2) as i64;
        let h2: i64 = ((self.height as u64) / 2) as i64;
        proof {
            lemma_rot_bounds(self.heading);
            assert(mag((self.heading.s as int) * (h2 as int)) <= (SCALE as int) * (h2 as int)
                && mag((self.heading.c as int) * (h2 as int)) <= (SCALE as int) * (h2 as int)
                && mag((self.heading.s as int) * (w2 as int)) <= (SCALE as int) * (w2 as int)
                && mag((self.heading.c as int) * (w2 as int)) <= (SCALE as int) * (w2 as int))
                by (nonlinear_arith)
                requires
                    -SCALE <= self.heading.s <= SCALE,
                    -SCALE <= self.heading.c <= SCALE,
                    0 <= w2,
                    0 <= h2,
            ;
            lemma_div_tz_mag((self.heading.s as int) * (h2 as int), SCALE as int);
            lemma_div_tz_mag((self.heading.c as int) * (h2 as int), SCALE as int);
            lemma_div_tz_mag((self.heading.s as int) * (w2 as int), SCALE as int);
            lemma_div_tz_mag((self.heading.c as int) * (w2 as int), SCALE as int);
        }
        let sh = fx_mul(self.heading.s, h2);
        let ch = fx_mul(self.heading.c, h2);
        let sw = fx_mul(self.heading.s, w2);
        let cw = fx_mul(self.heading.c, w2);
        let dx1 = sh - cw;
        let dy1 = ch + sw;
        let dx2 = sh + cw;
        let dy2 = ch - sw;
        let mut pts: Vec<Coord> = Vec::new();
        pts.push(Coord { x: self.x - dx1, y: self.y - dy1 });
        pts.push(Coord { x: self.x - dx2, y: self.y - dy2 });
        pts.push(Coord { x: self.x + dx1, y: self.y + dy1 });
        pts.push(Coord { x: self.x + dx2, y: self.y + dy2 });
        pts
    }

    /// Whether the current polygon crosses a road border or a traffic car.
    fn assess_damage(&self, road_borders: &Vec<Vec<Coord>>, traffic: &Vec<Car>) -> (r: bool)
        requires
            poly_ok(self.polygon@),
            borders_ok(views_of(road_borders@)),
            traffic_ok(traffic@),
        ensures
            r == damage_spec(self.polygon@, views_of(road_borders@), traffic@),
    {
        let nb = road_borders.len();
        let mut i: usize = 0;
        while i < nb
            invariant
                0 <= i <= nb,
                nb == road_borders@.len(),
                poly_ok(self.polygon@),
                borders_ok(views_of(road_borders@)),
                traffic_ok(traffic@),
                forall|k: int|
                    0 <= k < i ==> !polys_intersect_spec(
                        self.polygon@,
                        #[trigger] views_of(road_borders@)[k],
                    ),
            decreases nb - i,
        {
            proof {
                assert(views_of(road_borders@)[i as int] == road_borders@[i as int]@);
            }
            if polys_intersect(&self.polygon, &road_borders[i]) {
                return true;
            }
            i += 1;
        }
        let nt = traffic.len();
        let mut j: usize = 0;
        while j < nt
            invariant
                0 <= j <= nt,
                nt == traffic@.len(),
                poly_ok(self.polygon@),
                borders_ok(views_of(road_borders@)),
                traffic_ok(traffic@),
                forall|k: int|
                    0 <= k < road_borders@.len() ==> !polys_intersect_spec(
                        self.polygon@,
                        #[trigger] views_of(road_borders@)[k],
                    ),
                forall|k: int|
                    0 <= k < j ==> !polys_intersect_spec(
                        self.polygon@,
                        (#[trigger] traffic@[k]).polygon@,
                    ),
            decreases nt - j,
        {
            if polys_intersect(&self.polygon, &traffic[j].polygon) {
                return true;
            }
            j += 1;
        }
        false
    }

    /// One tick. While active: move, recompute the polygon, assess damage
    /// (one way: once wrecked, forever wrecked). Whether active or wrecked,
    /// an owned sensor then senses from the current pose, and an owned
    /// controller is fed the readings; for an autonomous car its four
    /// outputs overwrite the control flags.
    pub fn update(&mut self, road_borders: &Vec<Vec<Coord>>, traffic: &Vec<Car>)
        requires
            car_wf(*old(self)),
            -POS_LIM <= old(self).x <= POS_LIM,
            -POS_LIM <= old(self).y <= POS_LIM,
            borders_ok(views_of(road_borders@)),
            traffic_ok(traffic@),
        ensures
            car_wf(*final(self)),
            car_ticked(*old(self), *final(self), views_of(road_borders@), traffic@),
            mag(final(self).x as int) <= mag(old(self).x as int) + old(self).max_speed,
            mag(final(self).y as int) <= mag(old(self).y as int) + old(self).max_speed,
    {
        if !self.damaged {
            self.advance();
            self.polygon = self.create_polygon();
            let damaged = self.assess_damage(road_borders, traffic);
            self.damaged = damaged;
        }
        if self.sensor.is_some() {
            let nt = traffic.len();
            let mut polys: Vec<Vec<Coord>> = Vec::new();
            let mut i: usize = 0;
            while i < nt
                invariant
                    0 <= i <= nt,
                    nt == traffic@.len(),
                    traffic_ok(traffic@),
                    polys@.len() == i,
                    forall|k: int| 0 <= k < i ==> (#[trigger] polys@[k])@ == traffic@[k].polygon@,
                decreases nt - i,
            {
                polys.push(copy_poly(&traffic[i].polygon));
                i += 1;
            }
            proof {
                assert(views_of(polys@) =~= traffic_views(traffic@));
            }
            let sx = self.x;
            let sy = self.y;
            let sh = self.heading;
            let mut offsets: Vec<i64> = Vec::new();
            match &mut self.sensor {
                Some(sensor) => {
                    sensor.update(sx, sy, sh, road_borders, &polys);
                    let nr = sensor.readings.len();
                    let mut k: usize = 0;
                    while k < nr
                        invariant
                            0 <= k <= nr,
                            nr == sensor.readings@.len(),
                            sensor_wf(*sensor),
                            offsets@.len() == k,
                            offsets@ =~= offsets_input(sensor.readings@).subrange(0, k as int),
                            vals_in_unit(offsets@),
                        decreases nr - k,
                    {
                        let v: i64 = match &sensor.readings[k] {
                            Some(t) => SCALE - t.offset,
                            None => 0,
                        };
                        offsets.push(v);
                        proof {
                            assert(offsets@ =~= offsets_input(sensor.readings@).subrange(
                                0,
                                k as int + 1,
                            ));
                        }
                        k += 1;
                    }
                    proof {
                        assert(offsets@ =~= offsets_input(sensor.readings@));
                    }
                },
                None => {},
            }
            let use_brain = self.use_brain;
            match &mut self.brain {
                Some(brain) => {
                    let outputs = brain.feed_forward(offsets);
                    if use_brain {
                        self.controls.forward = outputs[0] == SCALE;
                        self.controls.left = outputs[1] == SCALE;
                        self.controls.right = outputs[2] == SCALE;
                        self.controls.reverse = outputs[3] == SCALE;
                    }
                },
                None => {},
            }
        }
    }
}

/// The executable speed pipeline (see [`step_speed`]).
fn step_speed_exec(speed: i64, acc: i64, max: i64, fr: i64, fwd: bool, rev: bool) -> (r: i64)
    requires
        0 <= acc <= SCALE,
        0 <= fr <= SCALE,
        0 <= max <= 100 * SCALE,
        -max <= speed <= max,
    ensures
        r == step_speed(speed as int, acc as int, max as int, fr as int, fwd, rev),
        -max <= r <= max,
{
    let mut s = speed;
    if fwd {
        s = s + acc;
    }
    if rev {
        s = s - acc;
    }
    if s > max {
        s = max;
    }
    let neg_half: i64 = -(((max as u64) / 2) as i64);
    if s < neg_half {
        s = neg_half;
    }
    proof {
        assert(s == clamp_speed(
            accel_speed(speed as int, acc as int, fwd, rev),
            max as int,
        ));
        assert(-max <= -(max / 2) <= s <= max);
    }
    if s > 0 {
        s = s - fr;
    }
    if s < 0 {
        s = s + fr;
    }
    let abs_s: i64 = if s < 0 {
        -s
    } else {
        s
    };
    if abs_s < fr {
        s = 0;
    }
    s
}

/// The executable steering step (see [`step_heading`]).
fn step_heading_exec(h: Rot, left: bool, right: bool, sp: i64) -> (r: Rot)
    requires
        rot_wf(h),
    ensures
        r == step_heading(h, left, right, sp as int),
        rot_wf(r),
{
    let mut hd = h;
    if sp != 0 {
        let pos = sp > 0;
        if left {
            hd = rot_compose(hd, steer(pos));
        }
        if right {
            hd = rot_compose(hd, steer(!pos));
        }
    }
    hd
}

/// An exec steering rotation (see [`steer_rot`]).
fn steer(pos: bool) -> (r: Rot)
    ensures
        r == steer_rot(pos),
        rot_wf(r),
{
    proof {
        lemma_steer_wf(pos);
    }
    if pos {
        Rot { s: STEER_SIN, c: STEER_COS }
    } else {
        Rot { s: -STEER_SIN, c: STEER_COS }
    }
}

/// A copy of a polygon, vertex by vertex.
fn copy_poly(p: &Vec<Coord>) -> (r: Vec<Coord>)
    ensures
        r@ == p@,
{
    let n = p.len();
    let mut r: Vec<Coord> = Vec::new();
    let mut i: usize = 0;
    while i < n
        invariant
            0 <= i <= n,
            n == p@.len(),
            r@ =~= p@.subrange(0, i as int),
        decreases n - i,
    {
        r.push(p[i]);
        proof {
            assert(r@ =~= p@.subrange(0, i as int + 1));
        }
        i += 1;
    }
    proof {
        assert(p@.subrange(0, n as int) =~= p@);
    }
    r
}

} // verus!
