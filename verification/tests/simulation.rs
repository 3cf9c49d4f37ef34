use autodrive::fixed::SCALE;
use autodrive::car::Car;
use autodrive::controls::{ControlKind, Controls};
use autodrive::population::{Population, best_car_index};
use autodrive::road::Road;
use autodrive::sensor::Sensor;
use autodrive::utils::{Coord, Rot};

fn plain_car(x: i64, y: i64) -> Car {
    Car {
        x,
        y,
        width: 30 * SCALE,
        height: 50 * SCALE,
        speed: 0,
        acceleration: SCALE / 5,
        max_speed: 3 * SCALE,
        friction: SCALE / 20,
        heading: Rot { s: 0, c: SCALE },
        damaged: false,
        use_brain: false,
        sensor: None,
        brain: None,
        controls: Controls { forward: false, left: false, right: false, reverse: false },
        polygon: Vec::new(),
    }
}

#[test]
fn forward_without_friction_reaches_exactly_max_speed() {
    let borders: Vec<Vec<Coord>> = Vec::new();
    let traffic: Vec<Car> = Vec::new();
    let mut car = plain_car(0, 0);
    car.friction = 0;
    car.controls.forward = true;
    for _ in 0..40 {
        car.update(&borders, &traffic);
        assert!(car.speed <= car.max_speed);
    }
    assert_eq!(car.speed, 3 * SCALE);
    car.update(&borders, &traffic);
    assert_eq!(car.speed, 3 * SCALE);
}

#[test]
fn reverse_without_friction_reaches_exactly_half_max_backwards() {
    let borders: Vec<Vec<Coord>> = Vec::new();
    let traffic: Vec<Car> = Vec::new();
    let mut car = plain_car(0, 0);
    car.friction = 0;
    car.controls.reverse = true;
    for _ in 0..40 {
        car.update(&borders, &traffic);
        assert!(-car.max_speed / 2 <= car.speed);
    }
    assert_eq!(car.speed, -(3 * SCALE) / 2);
}

#[test]
fn coasting_speed_decays_to_exactly_zero_without_overshoot() {
    let borders: Vec<Vec<Coord>> = Vec::new();
    let traffic: Vec<Car> = Vec::new();
    let mut car = plain_car(0, 0);
    car.speed = SCALE;
    let mut last = car.speed;
    for _ in 0..30 {
        car.update(&borders, &traffic);
        assert!(0 <= car.speed && car.speed <= last);
        last = car.speed;
    }
    assert_eq!(car.speed, 0);
}

#[test]
fn damage_is_monotonic() {
    let borders = vec![vec![
        Coord { x: 0, y: -1_000_000_000_000 },
        Coord { x: 0, y: 1_000_000_000_000 },
    ]];
    let traffic: Vec<Car> = Vec::new();
    let mut car = plain_car(0, 0);
    car.update(&borders, &traffic);
    assert!(car.damaged, "the border runs through the car");
    let x = car.x;
    let y = car.y;
    car.controls.forward = true;
    for _ in 0..5 {
        car.update(&borders, &traffic);
        assert!(car.damaged);
        assert_eq!(car.x, x);
        assert_eq!(car.y, y);
    }
}

#[test]
fn straight_ray_reads_the_nearest_crossing_exactly() {
    let mut sensor = Sensor::new();
    let borders = vec![
        vec![Coord { x: 50 * SCALE, y: 0 }, Coord { x: 150 * SCALE, y: 0 }],
        vec![Coord { x: 50 * SCALE, y: 50 * SCALE }, Coord { x: 150 * SCALE, y: 50 * SCALE }],
    ];
    let polys: Vec<Vec<Coord>> = Vec::new();
    sensor.update(100 * SCALE, 100 * SCALE, Rot { s: 0, c: SCALE }, &borders, &polys);
    assert_eq!(sensor.rays.len(), 5);
    assert_eq!(sensor.readings.len(), 5);
    let straight = sensor.readings[2].expect("the middle ray crosses both lines");
    // the nearer line, 50 units up a 150-unit ray: offset is a third,
    // truncated to the fixed-point grid, and the point interpolated with it
    assert_eq!(straight.offset, 333_333);
    assert_eq!(straight.x, 100 * SCALE);
    assert_eq!(straight.y, 50 * SCALE + 50);
}

#[test]
fn unobstructed_rays_read_nothing() {
    let mut sensor = Sensor::new();
    let borders: Vec<Vec<Coord>> = Vec::new();
    let polys: Vec<Vec<Coord>> = Vec::new();
    sensor.update(0, 0, Rot { s: 0, c: SCALE }, &borders, &polys);
    for r in &sensor.readings {
        assert!(r.is_none());
    }
}

#[test]
fn lone_candidate_on_an_open_road_drives_on_unharmed() {
    let road = Road::new(100 * SCALE, 90 * SCALE, Some(3)).unwrap();
    let mut pop = Population { road, traffic: Vec::new(), cars: Vec::new() };
    pop.cars = pop.generate_cars(1);
    assert_eq!(pop.cars.len(), 1);
    // hold a forward-only control signal instead of the controller's choices
    pop.cars[0].use_brain = false;
    pop.cars[0].controls.forward = true;
    let mut last_y = pop.cars[0].y;
    for _ in 0..50 {
        let best = pop.tick();
        assert_eq!(best, Some(0));
        assert!(!pop.cars[0].damaged);
        assert!(pop.cars[0].y < last_y, "y must strictly decrease every tick");
        last_y = pop.cars[0].y;
    }
}

#[test]
fn traffic_blocks_and_wrecks_a_candidate() {
    let road = Road::new(100 * SCALE, 90 * SCALE, Some(3)).unwrap();
    let lane1 = road.get_late_center(1);
    let mut pop = Population { road, traffic: Vec::new(), cars: Vec::new() };
    pop.cars = pop.generate_cars(1);
    pop.cars[0].use_brain = false;
    pop.cars[0].controls.forward = true;
    // a parked dummy directly ahead in the same lane
    let mut blocker = Car::new(lane1, 40 * SCALE, 30 * SCALE, 50 * SCALE, ControlKind::Dummy, Some(0));
    blocker.controls.forward = false;
    pop.traffic.push(blocker);
    let mut wrecked = false;
    for _ in 0..100 {
        pop.tick();
        if pop.cars[0].damaged {
            wrecked = true;
            break;
        }
    }
    assert!(wrecked, "driving into the parked car must set the damage flag");
    for _ in 0..5 {
        pop.tick();
        assert!(pop.cars[0].damaged);
    }
}

#[test]
fn best_candidate_is_the_furthest_along() {
    let mut cars = vec![plain_car(0, 5 * SCALE), plain_car(0, -2 * SCALE), plain_car(0, SCALE)];
    assert_eq!(best_car_index(&cars), Some(1));
    cars[2].y = -2 * SCALE;
    // ties resolve to the later index
    assert_eq!(best_car_index(&cars), Some(2));
    assert_eq!(best_car_index(&Vec::new()), None);
}

#[test]
fn road_lane_centers_match_the_layout() {
    let road = Road::new(100 * SCALE, 90 * SCALE, Some(3)).unwrap();
    assert_eq!(road.get_late_center(0), 70 * SCALE);
    assert_eq!(road.get_late_center(1), 100 * SCALE);
    assert_eq!(road.get_late_center(2), 130 * SCALE);
    assert_eq!(road.get_late_center(5), 130 * SCALE);
    assert!(Road::new(100 * SCALE, 90 * SCALE, Some(0)).is_none());
    let defaulted = Road::new(100 * SCALE, 90 * SCALE, None).unwrap();
    assert_eq!(defaulted.lane_count, 3);
}

#[test]
fn dummy_cars_drive_forward_and_ai_cars_own_a_brain() {
    let dummy = Car::new(0, 0, 30 * SCALE, 50 * SCALE, ControlKind::Dummy, Some(2 * SCALE));
    assert!(dummy.controls.forward);
    assert!(dummy.sensor.is_none() && dummy.brain.is_none());
    assert!(!dummy.use_brain);
    let ai = Car::new(0, 0, 30 * SCALE, 50 * SCALE, ControlKind::AI, None);
    assert!(ai.sensor.is_some() && ai.brain.is_some());
    assert!(ai.use_brain);
    assert_eq!(ai.max_speed, 3 * SCALE);
    let keys = Car::new(0, 0, 30 * SCALE, 50 * SCALE, ControlKind::Keys, None);
    assert!(keys.sensor.is_some() && keys.brain.is_some());
    assert!(!keys.use_brain);
}

#[test]
fn adopting_a_brain_copies_it_into_every_candidate() {
    let road = Road::new(100 * SCALE, 90 * SCALE, Some(3)).unwrap();
    let mut pop = Population { road, traffic: Vec::new(), cars: Vec::new() };
    pop.cars = pop.generate_cars(3);
    let elite = autodrive::network::NeuralNetwork::new(vec![5, 6, 4]).unwrap();
    pop.adopt_brain(&elite);
    for car in &pop.cars {
        let brain = car.brain.as_ref().unwrap();
        assert_eq!(brain.levels.len(), elite.levels.len());
        for (a, b) in brain.levels.iter().zip(elite.levels.iter()) {
            assert_eq!(a.biases, b.biases);
            assert_eq!(a.weights, b.weights);
        }
    }
}
