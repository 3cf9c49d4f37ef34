//! Ray-based sensing: a fixed fan of rays cast from the car's centre, each
//! reporting the nearest obstruction (road border or traffic polygon edge).

use vstd::prelude::*;
use crate::fixed::{SCALE, FX_LIM, fxm, fxlerp, mag, fx_mul, lemma_div_tz_mag, POS_LIM};
use crate::utils::{
    Coord, CoordWithOffset, Rot, coord_ok, poly_ok, rot_wf, rot_compose, rot_compose_spec,
    segments_intersect, intersection_offset, get_intersection, lemma_rot_bounds, views_of,
};

verus! {

/// Road borders handed to the sensor: two-point segments with coordinates in
/// range.
pub open spec fn borders_ok(bs: Seq<Seq<Coord>>) -> bool {
    forall|i: int| 0 <= i < bs.len() ==> (#[trigger] bs[i]).len() == 2 && poly_ok(bs[i])
}

/// Obstacle polygons handed to the sensor: all coordinates in range.
pub open spec fn polys_ok(ps: Seq<Seq<Coord>>) -> bool {
    forall|i: int| 0 <= i < ps.len() ==> poly_ok(#[trigger] ps[i])
}

/// The ray crosses border `i`.
pub open spec fn hits_border(ray: (Coord, Coord), bs: Seq<Seq<Coord>>, i: int) -> bool {
    segments_intersect(ray.0, ray.1, bs[i][0], bs[i][1])
}

/// The offset at which the ray crosses border `i`.
pub open spec fn border_off(ray: (Coord, Coord), bs: Seq<Seq<Coord>>, i: int) -> int {
    intersection_offset(ray.0, ray.1, bs[i][0], bs[i][1])
}

/// The ray crosses edge `e` of polygon `j` (edges wrap).
pub open spec fn hits_poly_edge(ray: (Coord, Coord), ps: Seq<Seq<Coord>>, j: int, e: int) -> bool {
    segments_intersect(
        ray.0,
        ray.1,
        ps[j][e],
        ps[j][(e + 1) % (ps[j].len() as int)],
    )
}

/// The offset at which the ray crosses edge `e` of polygon `j`.
pub open spec fn poly_edge_off(ray: (Coord, Coord), ps: Seq<Seq<Coord>>, j: int, e: int) -> int {
    intersection_offset(
        ray.0,
        ray.1,
        ps[j][e],
        ps[j][(e + 1) % (ps[j].len() as int)],
    )
}

/// The ray crosses some border or some polygon edge.
pub open spec fn hits_any(ray: (Coord, Coord), bs: Seq<Seq<Coord>>, ps: Seq<Seq<Coord>>) -> bool {
    ||| exists|i: int| 0 <= i < bs.len() && hits_border(ray, bs, i)
    ||| exists|j: int, e: int|
        0 <= j < ps.len() && 0 <= e < ps[j].len() && hits_poly_edge(ray, ps, j, e)
}

/// `rd` is the crossing of the ray with one of the candidates, and no
/// candidate crosses at a smaller offset.
pub open spec fn min_reading(
    rd: CoordWithOffset,
    ray: (Coord, Coord),
    bs: Seq<Seq<Coord>>,
    ps: Seq<Seq<Coord>>,
) -> bool {
    &&& 0 <= rd.offset <= SCALE
    &&& rd.x == fxlerp(ray.0.x as int, ray.1.x as int, rd.offset as int)
    &&& rd.y == fxlerp(ray.0.y as int, ray.1.y as int, rd.offset as int)
    &&& {
        ||| exists|i: int|
            0 <= i < bs.len() && hits_border(ray, bs, i) && border_off(ray, bs, i) == rd.offset
        ||| exists|j: int, e: int|
            0 <= j < ps.len() && 0 <= e < ps[j].len() && hits_poly_edge(ray, ps, j, e)
                && poly_edge_off(ray, ps, j, e) == rd.offset
    }
    &&& forall|i: int|
        0 <= i < bs.len() && hits_border(ray, bs, i) ==> rd.offset <= border_off(ray, bs, i)
    &&& forall|j: int, e: int|
        0 <= j < ps.len() && 0 <= e < ps[j].len() && hits_poly_edge(ray, ps, j, e)
            ==> rd.offset <= poly_edge_off(ray, ps, j, e)
}

/// The full contract of one reading: present exactly when something is hit,
/// and then the nearest crossing.
pub open spec fn reading_ok(
    rd: Option<CoordWithOffset>,
    ray: (Coord, Coord),
    bs: Seq<Seq<Coord>>,
    ps: Seq<Seq<Coord>>,
) -> bool {
    &&& (rd is Some) == hits_any(ray, bs, ps)
    &&& rd matches Some(t) ==> min_reading(t, ray, bs, ps)
}

/// The ray cast from `(x, y)` along the heading turned by the relative
/// rotation `rr`, of the given length.
pub open spec fn ray_of(x: i64, y: i64, h: Rot, rr: Rot, len: i64) -> (Coord, Coord) {
    let d = rot_compose_spec(h, rr);
    (
        Coord { x, y },
        Coord {
            x: (x - fxm(d.s as int, len as int)) as i64,
            y: (y - fxm(d.c as int, len as int)) as i64,
        },
    )
}

/// The fan sensor: a fixed set of relative ray rotations, and the rays and
/// readings of the current tick.
#[derive(Debug, Clone)]
pub struct Sensor {
    pub ray_count: usize,
    pub ray_length: i64,
    pub ray_rots: Vec<Rot>,
    pub rays: Vec<(Coord, Coord)>,
    pub readings: Vec<Option<CoordWithOffset>>,
}

/// Well-formedness of a sensor: one relative rotation per ray, each a unit
/// rotation, a bounded ray length, and in-range reading offsets.
pub open spec fn sensor_wf(s: Sensor) -> bool {
    &&& s.ray_count == s.ray_rots@.len()
    &&& s.ray_count <= 1000
    &&& 0 <= s.ray_length <= 1000 * SCALE
    &&& forall|i: int| 0 <= i < s.ray_rots@.len() ==> rot_wf(#[trigger] s.ray_rots@[i])
    &&& forall|i: int|
        0 <= i < s.readings@.len() ==> (#[trigger] s.readings@[i] matches Some(t) ==> 0 <= t.offset
            <= SCALE)
}

/// The ensured relation of [`Sensor::update`]: rays recomputed from the
/// given pose, readings the nearest crossings against the given obstacles.
pub open spec fn sensor_updated(
    s2: Sensor,
    s1: Sensor,
    x: i64,
    y: i64,
    h: Rot,
    bs: Seq<Seq<Coord>>,
    ps: Seq<Seq<Coord>>,
) -> bool {
    &&& s2.ray_count == s1.ray_count
    &&& s2.ray_length == s1.ray_length
    &&& s2.ray_rots == s1.ray_rots
    &&& s2.rays@.len() == s1.ray_count
    &&& forall|i: int|
        0 <= i < s2.rays@.len() ==> #[trigger] s2.rays@[i] == ray_of(
            x,
            y,
            h,
            s1.ray_rots@[i],
            s1.ray_length,
        )
    &&& s2.readings@.len() == s1.ray_count
    &&& forall|i: int|
        0 <= i < s2.readings@.len() ==> reading_ok(
            #[trigger] s2.readings@[i],
            s2.rays@[i],
            bs,
            ps,
        )
}

impl Sensor {
    /// The default sensor: five rays of length 150, fanned evenly over a
    /// quarter turn centred on the car's heading. The relative rotations are
    /// the unit vectors of the fan angles (an eighth of a turn down to minus
    /// an eighth), widest first.
    pub fn new() -> (r: Sensor)
        ensures
            sensor_wf(r),
            r.ray_count == 5,
            r.ray_length == 150 * SCALE,
            r.rays@.len() == 0,
            r.readings@.len() == 0,
            r.ray_rots@ =~= seq![
                Rot { s: 707_106i64, c: 707_106i64 },
                Rot { s: 382_683i64, c: 923_879i64 },
                Rot { s: 0i64, c: SCALE },
                Rot { s: -382_683i64, c: 923_879i64 },
                Rot { s: -707_106i64, c: 707_106i64 },
            ],
    {
        let mut ray_rots: Vec<Rot> = Vec::new();
        ray_rots.push(Rot { s: 707_106, c: 707_106 });
        ray_rots.push(Rot { s: 382_683, c: 923_879 });
        ray_rots.push(Rot { s: 0, c: SCALE });
        ray_rots.push(Rot { s: -382_683, c: 923_879 });
        ray_rots.push(Rot { s: -707_106, c: 707_106 });
        proof {
            assert(707_106i64 * 707_106i64 + 707_106i64 * 707_106i64 <= 1_000_000i64
                * 1_000_000i64) by (nonlinear_arith);
            assert(382_683i64 * 382_683i64 + 923_879i64 * 923_879i64 <= 1_000_000i64
                * 1_000_000i64) by (nonlinear_arith);
            assert((-382_683i64) * (-382_683i64) + 923_879i64 * 923_879i64 <= 1_000_000i64
                * 1_000_000i64) by (nonlinear_arith);
            assert((-707_106i64) * (-707_106i64) + 707_106i64 * 707_106i64 <= 1_000_000i64
                * 1_000_000i64) by (nonlinear_arith);
            assert(0i64 * 0i64 + 1_000_000i64 * 1_000_000i64 <= 1_000_000i64 * 1_000_000i64)
                by (nonlinear_arith);
        }
        Sensor {
            ray_count: 5,
            ray_length: 150 * SCALE,
            ray_rots,
            rays: Vec::new(),
            readings: Vec::new(),
        }
    }

    /// Recompute the rays from the given pose, then read each ray against
    /// the borders and the obstacle polygons.
    pub fn update(
        &mut self,
        x: i64,
        y: i64,
        heading: Rot,
        borders: &Vec<Vec<Coord>>,
        polys: &Vec<Vec<Coord>>,
    )
        requires
            sensor_wf(*old(self)),
            rot_wf(heading),
            -POS_LIM - 100 * SCALE <= x <= POS_LIM + 100 * SCALE,
            -POS_LIM - 100 * SCALE <= y <= POS_LIM + 100 * SCALE,
            borders_ok(views_of(borders@)),
            polys_ok(views_of(polys@)),
        ensures
            sensor_wf(*final(self)),
            sensor_updated(*final(self), *old(self), x, y, heading, views_of(borders@), views_of(polys@)),
    {
        self.cast_rays(x, y, heading);
        let n = self.rays.len();
        let mut readings: Vec<Option<CoordWithOffset>> = Vec::new();
        let mut i: usize = 0;
        while i < n
            invariant
                0 <= i <= n,
                n == self.rays@.len(),
                borders_ok(views_of(borders@)),
                polys_ok(views_of(polys@)),
                forall|k: int|
                    0 <= k < n ==> coord_ok((#[trigger] self.rays@[k]).0) && coord_ok(
                        self.rays@[k].1,
                    ),
                readings@.len() == i,
                forall|k: int|
                    0 <= k < i ==> reading_ok(
                        #[trigger] readings@[k],
                        self.rays@[k],
                        views_of(borders@),
                        views_of(polys@),
                    ),
            decreases n - i,
        {
            let ray = self.rays[i];
            let rd = get_reading(ray.0, ray.1, borders, polys);
            readings.push(rd);
            i += 1;
        }
        self.readings = readings;
    }

    /// Rebuild the ray fan from the given pose: each ray starts at the
    /// centre and extends `ray_length` along the heading turned by its
    /// relative rotation.
    fn cast_rays(&mut self, x: i64, y: i64, heading: Rot)
        requires
            sensor_wf(*old(self)),
            rot_wf(heading),
            -POS_LIM - 100 * SCALE <= x <= POS_LIM + 100 * SCALE,
            -POS_LIM - 100 * SCALE <= y <= POS_LIM + 100 * SCALE,
        ensures
            sensor_wf(*final(self)),
            final(self).ray_count == old(self).ray_count,
            final(self).ray_length == old(self).ray_length,
            final(self).ray_rots == old(self).ray_rots,
            final(self).readings == old(self).readings,
            final(self).rays@.len() == old(self).ray_count,
            forall|i: int|
                0 <= i < final(self).rays@.len() ==> #[trigger] final(self).rays@[i] == ray_of(
                    x,
                    y,
                    heading,
                    old(self).ray_rots@[i],
                    old(self).ray_length,
                ),
            forall|i: int|
                0 <= i < final(self).rays@.len() ==> coord_ok((#[trigger] final(self).rays@[i]).0)
                    && coord_ok(final(self).rays@[i].1),
    {
        let n = self.ray_count;
        let len = self.ray_length;
        let mut rays: Vec<(Coord, Coord)> = Vec::new();
        let mut i: usize = 0;
        while i < n
            invariant
                0 <= i <= n,
                sensor_wf(*self),
                self == old(self),
                n == self.ray_count,
                len == self.ray_length,
                rot_wf(heading),
                -POS_LIM - 100 * SCALE <= x <= POS_LIM + 100 * SCALE,
                -POS_LIM - 100 * SCALE <= y <= POS_LIM + 100 * SCALE,
                rays@.len() == i,
                forall|k: int|
                    0 <= k < i ==> #[trigger] rays@[k] == ray_of(
                        x,
                        y,
                        heading,
                        self.ray_rots@[k],
                        len,
                    ),
                forall|k: int|
                    0 <= k < i ==> coord_ok((#[trigger] rays@[k]).0) && coord_ok(rays@[k].1),
            decreases n - i,
        {
            let rr = self.ray_rots[i];
            let d = rot_compose(heading, rr);
            proof {
                lemma_rot_bounds(d);
                assert(mag((d.s as int) * (len as int)) <= (SCALE as int) * (len as int))
                    by (nonlinear_arith)
                    requires
                        -SCALE <= d.s <= SCALE,
                        0 <= len,
                ;
                assert(mag((d.c as int) * (len as int)) <= (SCALE as int) * (len as int))
                    by (nonlinear_arith)
                    requires
                        -SCALE <= d.c <= SCALE,
                        0 <= len,
                ;
                lemma_div_tz_mag((d.s as int) * (len as int), SCALE as int);
                lemma_div_tz_mag((d.c as int) * (len as int), SCALE as int);
            }
            let ex = x - fx_mul(d.s, len);
            let ey = y - fx_mul(d.c, len);
            rays.push((Coord { x, y }, Coord { x: ex, y: ey }));
            i += 1;
        }
        self.rays = rays;
    }
}

/// The nearest crossing of the ray with any border or polygon edge: the
/// candidate with the smallest offset (first found wins ties, which share
/// the same crossing point anyway), or `None` when nothing is hit.
pub fn get_reading(
    ray_start: Coord,
    ray_end: Coord,
    borders: &Vec<Vec<Coord>>,
    polys: &Vec<Vec<Coord>>,
) -> (r: Option<CoordWithOffset>)
    requires
        coord_ok(ray_start),
        coord_ok(ray_end),
        borders_ok(views_of(borders@)),
        polys_ok(views_of(polys@)),
    ensures
        reading_ok(r, (ray_start, ray_end), views_of(borders@), views_of(polys@)),
{
    let ghost ray: (Coord, Coord) = (ray_start, ray_end);
    let nb = borders.len();
    let mut best: Option<CoordWithOffset> = None;
    let mut i: usize = 0;
    while i < nb
        invariant
            0 <= i <= nb,
            nb == borders@.len(),
            ray == (ray_start, ray_end),
            coord_ok(ray_start),
            coord_ok(ray_end),
            borders_ok(views_of(borders@)),
            polys_ok(views_of(polys@)),
            (best is Some) == exists|k: int| 0 <= k < i && hits_border(ray, views_of(borders@), k),
            best matches Some(t) ==> {
                &&& 0 <= t.offset <= SCALE
                &&& t.x == fxlerp(ray_start.x as int, ray_end.x as int, t.offset as int)
                &&& t.y == fxlerp(ray_start.y as int, ray_end.y as int, t.offset as int)
                &&& exists|k: int|
                    0 <= k < i && hits_border(ray, views_of(borders@), k) && border_off(ray, views_of(borders@), k)
                        == t.offset
                &&& forall|k: int|
                    0 <= k < i && hits_border(ray, views_of(borders@), k) ==> t.offset <= border_off(
                        ray,
                        views_of(borders@),
                        k,
                    )
            },
        decreases nb - i,
    {
        let b = &borders[i];
        proof {
            assert(views_of(borders@)[i as int] == borders@[i as int]@);
            assert(b@.len() == 2 && poly_ok(b@));
        }
        let touch = get_intersection(ray_start, ray_end, b[0], b[1]);
        match touch {
            Some(t) => {
                proof {
                    assert(hits_border(ray, views_of(borders@), i as int));
                    assert(border_off(ray, views_of(borders@), i as int) == t.offset);
                }
                match best {
                    Some(bt) => {
                        if t.offset < bt.offset {
                            best = Some(t);
                        }
                    },
                    None => {
                        best = Some(t);
                    },
                }
            },
            None => {
                proof {
                    assert(!hits_border(ray, views_of(borders@), i as int));
                }
            },
        }
        i += 1;
    }
    let np = polys.len();
    let mut j: usize = 0;
    while j < np
        invariant
            0 <= j <= np,
            np == polys@.len(),
            ray == (ray_start, ray_end),
            coord_ok(ray_start),
            coord_ok(ray_end),
            borders_ok(views_of(borders@)),
            polys_ok(views_of(polys@)),
            (best is Some) == ((exists|k: int| 0 <= k < views_of(borders@).len() && hits_border(ray, views_of(borders@), k))
                || (exists|p: int, e: int|
                0 <= p < j && 0 <= e < views_of(polys@)[p].len() && hits_poly_edge(ray, views_of(polys@), p, e))),
            best matches Some(t) ==> {
                &&& 0 <= t.offset <= SCALE
                &&& t.x == fxlerp(ray_start.x as int, ray_end.x as int, t.offset as int)
                &&& t.y == fxlerp(ray_start.y as int, ray_end.y as int, t.offset as int)
                &&& ((exists|k: int|
                    0 <= k < views_of(borders@).len() && hits_border(ray, views_of(borders@), k) && border_off(
                        ray,
                        views_of(borders@),
                        k,
                    ) == t.offset) || (exists|p: int, e: int|
                    0 <= p < j && 0 <= e < views_of(polys@)[p].len() && hits_poly_edge(ray, views_of(polys@), p, e)
                        && poly_edge_off(ray, views_of(polys@), p, e) == t.offset))
                &&& forall|k: int|
                    0 <= k < views_of(borders@).len() && hits_border(ray, views_of(borders@), k) ==> t.offset
                        <= border_off(ray, views_of(borders@), k)
                &&& forall|p: int, e: int|
                    0 <= p < j && 0 <= e < views_of(polys@)[p].len() && hits_poly_edge(ray, views_of(polys@), p, e)
                        ==> t.offset <= poly_edge_off(ray, views_of(polys@), p, e)
            },
        decreases np - j,
    {
        let poly = &polys[j];
        let plen = poly.len();
        let mut e: usize = 0;
        while e < plen
            invariant
                0 <= e <= plen,
                0 <= j < np,
                plen == views_of(polys@)[j as int].len(),
                poly@ == views_of(polys@)[j as int],
                np == polys@.len(),
                ray == (ray_start, ray_end),
                coord_ok(ray_start),
                coord_ok(ray_end),
                borders_ok(views_of(borders@)),
                polys_ok(views_of(polys@)),
                (best is Some) == ((exists|k: int| 0 <= k < views_of(borders@).len() && hits_border(ray, views_of(borders@), k))
                    || (exists|p: int, e2: int|
                    0 <= p < j && 0 <= e2 < views_of(polys@)[p].len() && hits_poly_edge(ray, views_of(polys@), p, e2))
                    || (exists|e2: int|
                    0 <= e2 < e && hits_poly_edge(ray, views_of(polys@), j as int, e2))),
                best matches Some(t) ==> {
                    &&& 0 <= t.offset <= SCALE
                    &&& t.x == fxlerp(ray_start.x as int, ray_end.x as int, t.offset as int)
                    &&& t.y == fxlerp(ray_start.y as int, ray_end.y as int, t.offset as int)
                    &&& ((exists|k: int|
                        0 <= k < views_of(borders@).len() && hits_border(ray, views_of(borders@), k) && border_off(
                            ray,
                            views_of(borders@),
                            k,
                        ) == t.offset) || (exists|p: int, e2: int|
                        0 <= p < j && 0 <= e2 < views_of(polys@)[p].len() && hits_poly_edge(
                            ray,
                            views_of(polys@),
                            p,
                            e2,
                        ) && poly_edge_off(ray, views_of(polys@), p, e2) == t.offset) || (exists|e2: int|
                        0 <= e2 < e && hits_poly_edge(ray, views_of(polys@), j as int, e2) && poly_edge_off(
                            ray,
                            views_of(polys@),
                            j as int,
                            e2,
                        ) == t.offset))
                    &&& forall|k: int|
                        0 <= k < views_of(borders@).len() && hits_border(ray, views_of(borders@), k) ==> t.offset
                            <= border_off(ray, views_of(borders@), k)
                    &&& forall|p: int, e2: int|
                        0 <= p < j && 0 <= e2 < views_of(polys@)[p].len() && hits_poly_edge(
                            ray,
                            views_of(polys@),
                            p,
                            e2,
                        ) ==> t.offset <= poly_edge_off(ray, views_of(polys@), p, e2)
                    &&& forall|e2: int|
                        0 <= e2 < e && hits_poly_edge(ray, views_of(polys@), j as int, e2) ==> t.offset
                            <= poly_edge_off(ray, views_of(polys@), j as int, e2)
                },
            decreases plen - e,
        {
            let c = poly[e];
            let d = poly[(e + 1) % plen];
            let touch = get_intersection(ray_start, ray_end, c, d);
            match touch {
                Some(t) => {
                    proof {
                        assert(hits_poly_edge(ray, views_of(polys@), j as int, e as int));
                        assert(poly_edge_off(ray, views_of(polys@), j as int, e as int) == t.offset);
                    }
                    match best {
                        Some(bt) => {
                            if t.offset < bt.offset {
                                best = Some(t);
                            }
                        },
                        None => {
                            best = Some(t);
                        },
                    }
                },
                None => {
                    proof {
                        assert(!hits_poly_edge(ray, views_of(polys@), j as int, e as int));
                    }
                },
            }
            e += 1;
        }
        j += 1;
    }
    best
}

} // verus!
