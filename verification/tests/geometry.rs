use autodrive::fixed::SCALE;
use autodrive::utils::{lerp, get_intersection, polys_intersect, Coord};

fn fx(v: f64) -> i64 {
    (v * (SCALE as f64)) as i64
}

#[test]
fn test_lerp() {
    let expected = fx(0.7853981633974483);
    let actual = lerp(
        fx(1.5707963267948966 / 2.0),
        fx(-1.5707963267948966 / 2.0),
        fx(0.0 / (5.0 - 1.0)),
    ) + 0;

    assert_eq!(expected, actual)
}

#[test]
fn midpoint_crossing_has_half_offset() {
    let a = Coord { x: 0, y: 0 };
    let b = Coord { x: 2 * SCALE, y: 2 * SCALE };
    let c = Coord { x: 0, y: 2 * SCALE };
    let d = Coord { x: 2 * SCALE, y: 0 };
    let hit = get_intersection(a, b, c, d).expect("the diagonals cross");
    assert_eq!(hit.offset, SCALE / 2);
    assert_eq!(hit.x, SCALE);
    assert_eq!(hit.y, SCALE);
}

#[test]
fn parallel_segments_never_intersect() {
    let a = Coord { x: 0, y: 0 };
    let b = Coord { x: SCALE, y: 0 };
    let c = Coord { x: 0, y: SCALE };
    let d = Coord { x: SCALE, y: SCALE };
    assert!(get_intersection(a, b, c, d).is_none());
}

#[test]
fn disjoint_segments_do_not_intersect() {
    let a = Coord { x: 0, y: 0 };
    let b = Coord { x: SCALE, y: SCALE };
    let c = Coord { x: 10 * SCALE, y: 0 };
    let d = Coord { x: 11 * SCALE, y: SCALE };
    assert!(get_intersection(a, b, c, d).is_none());
}

#[test]
fn polygon_intersection_is_symmetric() {
    let square = |cx: i64, cy: i64, r: i64| -> Vec<Coord> {
        vec![
            Coord { x: cx - r, y: cy - r },
            Coord { x: cx + r, y: cy - r },
            Coord { x: cx + r, y: cy + r },
            Coord { x: cx - r, y: cy + r },
        ]
    };
    let p = square(0, 0, SCALE);
    let q = square(SCALE, SCALE, SCALE);
    let far = square(10 * SCALE, 10 * SCALE, SCALE);
    assert!(polys_intersect(&p, &q));
    assert!(polys_intersect(&q, &p));
    assert!(!polys_intersect(&p, &far));
    assert!(!polys_intersect(&far, &p));
}

#[test]
fn lerp_endpoints_are_exact() {
    assert_eq!(lerp(3 * SCALE, 7 * SCALE, 0), 3 * SCALE);
    assert_eq!(lerp(3 * SCALE, 7 * SCALE, SCALE), 7 * SCALE);
    assert_eq!(lerp(-5, 5, SCALE / 2), 0);
}
