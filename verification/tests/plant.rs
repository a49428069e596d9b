use ecosim::clock::Timer;
use ecosim::geometry::Direction;
use ecosim::geometry::Position;
use ecosim::plant::propagate;
use ecosim::plant::spawn_plants;
use ecosim::plant::spawn_plants_with;
use ecosim::plant::Plant;
use ecosim::plant::PlantConfig;
use ecosim::plant::PlantDraw;
use ecosim::plant::PlantTag;
use ecosim::plant::ROLL_SCALE;
use ecosim::store::Handle;
use ecosim::store::Pose;
use ecosim::store::Store;

fn sure(dx: i64, dy: i64) -> PlantDraw {
    PlantDraw { roll: 0, dx, dy }
}

fn never() -> PlantDraw {
    PlantDraw { roll: ROLL_SCALE + 1, dx: 0, dy: 0 }
}

fn field(places: &[(i64, i64)]) -> Store<PlantTag> {
    let mut s: Store<PlantTag> = Store::new();
    for (x, y) in places {
        s.insert(Pose::at(Position::new(*x, *y)), PlantTag);
    }
    s
}

fn places(s: &Store<PlantTag>) -> Vec<(i64, i64)> {
    s.entries().iter().map(|e| (e.pose.position.x, e.pose.position.y)).collect()
}

fn with_exponent(num: u32, den: u32) -> PlantConfig {
    let mut c = PlantConfig::default();
    c.spawn_chance_num = num;
    c.spawn_chance_den = den;
    c
}

#[test]
fn plant_config_defaults() {
    let c = PlantConfig::default();
    assert_eq!(c.spawn_rate, 250_000);
    assert_eq!(c.spawn_chance_num, 7);
    assert_eq!(c.spawn_chance_den, 10);
    assert_eq!(c.spawn_range, 10_000_000);
    assert_eq!(c.spawn_max, 5000);
    assert_eq!(c.spawn_area, 25_000_000);
}

#[test]
fn a_lone_plant_always_spawns() {
    let c = PlantConfig::default();
    assert!(c.spawns(0, 1));
    assert!(c.spawns(ROLL_SCALE - 1, 1));
    assert!(c.spawns(ROLL_SCALE, 1));
    assert!(!c.spawns(ROLL_SCALE + 1, 1));
    assert!(!c.spawns(u32::MAX, 1));
}

#[test]
fn spawn_chance_falls_with_the_count() {
    let c = PlantConfig::default();
    // 4096 / 2^0.7 = 2521.38...
    assert!(c.spawns(2521, 2));
    assert!(!c.spawns(2522, 2));
    // 4096 / 5000^0.7 = 10.54...
    assert!(c.spawns(10, 5000));
    assert!(!c.spawns(11, 5000));
    // 4096 / 100^0.7 = 163.06...
    assert!(c.spawns(163, 100));
    assert!(!c.spawns(164, 100));
}

#[test]
fn spawn_chance_with_whole_exponents() {
    let linear = with_exponent(1, 1);
    assert!(linear.spawns(1024, 4));
    assert!(!linear.spawns(1025, 4));
    let square = with_exponent(2, 1);
    assert!(square.spawns(1, 64));
    assert!(!square.spawns(2, 64));
    let root = with_exponent(1, 2);
    assert!(root.spawns(1024, 16));
    assert!(!root.spawns(1025, 16));
    let flat = with_exponent(0, 10);
    assert!(flat.spawns(ROLL_SCALE, 1_000_000));
    assert!(!flat.spawns(ROLL_SCALE + 1, 1_000_000));
}

#[test]
fn spawn_chance_at_the_limits() {
    let c = PlantConfig::default();
    assert!(c.spawns(0, usize::MAX));
    assert!(!c.spawns(1, usize::MAX));
    assert!(c.spawns(u32::MAX, 0));
    let steep = with_exponent(u32::MAX, 10);
    assert!(steep.spawns(ROLL_SCALE, 1));
    assert!(steep.spawns(0, 2));
    assert!(!steep.spawns(1, 2));
}

#[test]
fn plant_pose_faces_forward() {
    let p = Plant::new(3, -4);
    assert_eq!(p, Plant { x: 3, y: -4 });
    assert_eq!(
        p.pose(),
        Pose { position: Position { x: 3, y: -4 }, facing: Direction::forward() }
    );
}

#[test]
fn sprout_lands_beside_the_parent() {
    let c = PlantConfig::default();
    let parent = Position::new(1_000, -2_000);
    assert_eq!(c.try_sprout(&parent, &sure(500, 700), 1), Some(Plant { x: 1_500, y: -1_300 }));
    assert_eq!(c.try_sprout(&parent, &never(), 1), None);
    assert_eq!(c.try_sprout(&parent, &PlantDraw { roll: 11, dx: 0, dy: 0 }, 5000), None);
    assert_eq!(
        c.try_sprout(&parent, &PlantDraw { roll: 10, dx: 0, dy: 0 }, 5000),
        Some(Plant { x: 1_000, y: -2_000 })
    );
}

#[test]
fn sprout_outside_the_area_is_dropped() {
    let c = PlantConfig::default();
    let edge = Position::new(c.spawn_area, 0);
    assert_eq!(c.try_sprout(&edge, &sure(0, 0), 1), Some(Plant { x: c.spawn_area, y: 0 }));
    assert_eq!(c.try_sprout(&edge, &sure(1, 0), 1), None);
    assert_eq!(c.try_sprout(&edge, &sure(-1, c.spawn_area), 1), Some(Plant { x: c.spawn_area - 1, y: c.spawn_area }));
    assert_eq!(c.try_sprout(&edge, &sure(0, c.spawn_area + 1), 1), None);
    let low = Position::new(0, -c.spawn_area);
    assert_eq!(c.try_sprout(&low, &sure(0, -1), 1), None);
    assert_eq!(c.try_sprout(&low, &sure(i64::MAX, i64::MIN), 1), None);
}

#[test]
fn first_plant_grows_at_the_origin() {
    let c = PlantConfig::default();
    let mut s = field(&[]);
    propagate(&mut s, &c, &Vec::new());
    assert_eq!(places(&s), vec![(0, 0)]);
    assert_eq!(s.entry(0).handle, Handle { id: 0 });
    assert_eq!(s.entry(0).pose.facing, Direction::forward());
}

#[test]
fn first_plant_grows_whatever_the_cap() {
    let mut c = PlantConfig::default();
    c.spawn_max = 0;
    let mut s = field(&[]);
    propagate(&mut s, &c, &Vec::new());
    assert_eq!(s.len(), 1);
    propagate(&mut s, &c, &vec![sure(1, 1)]);
    assert_eq!(s.len(), 1);
}

#[test]
fn round_adds_the_neighbours_behind_the_plants() {
    let c = PlantConfig::default();
    let mut s = field(&[(0, 0), (100, 100), (-100, 50)]);
    // Among 3 plants a roll passes up to 4096 / 3^0.7 = 1898.4...
    let draws = vec![
        PlantDraw { roll: 1898, dx: 5, dy: -5 },
        PlantDraw { roll: 1899, dx: 1, dy: 1 },
        PlantDraw { roll: 0, dx: -7, dy: 0 },
    ];
    propagate(&mut s, &c, &draws);
    assert_eq!(places(&s), vec![(0, 0), (100, 100), (-100, 50), (5, -5), (-107, 50)]);
    let ids: Vec<u64> = s.entries().iter().map(|e| e.handle.id).collect();
    assert_eq!(ids, vec![0, 1, 2, 3, 4]);
}

#[test]
fn a_plant_set_in_a_round_sets_none_in_it() {
    let c = PlantConfig::default();
    let mut s = field(&[(0, 0)]);
    let draws = vec![sure(10, 0), sure(20, 0), sure(30, 0)];
    propagate(&mut s, &c, &draws);
    assert_eq!(places(&s), vec![(0, 0), (10, 0)]);
    propagate(&mut s, &c, &draws);
    assert_eq!(places(&s), vec![(0, 0), (10, 0), (10, 0), (30, 0)]);
}

#[test]
fn no_round_at_the_cap() {
    let mut c = PlantConfig::default();
    c.spawn_max = 2;
    let mut s = field(&[(0, 0), (1, 1)]);
    propagate(&mut s, &c, &vec![sure(1, 0), sure(1, 0)]);
    assert_eq!(places(&s), vec![(0, 0), (1, 1)]);
    c.spawn_max = 1;
    propagate(&mut s, &c, &vec![sure(1, 0), sure(1, 0)]);
    assert_eq!(s.len(), 2);
}

#[test]
fn a_round_below_the_cap_is_not_cut_short() {
    let mut c = PlantConfig::default();
    c.spawn_max = 3;
    let mut s = field(&[(0, 0), (1, 1)]);
    propagate(&mut s, &c, &vec![sure(1, 0), sure(1, 0)]);
    assert_eq!(places(&s), vec![(0, 0), (1, 1), (1, 0), (2, 1)]);
    propagate(&mut s, &c, &vec![sure(1, 0), sure(1, 0), sure(1, 0), sure(1, 0)]);
    assert_eq!(s.len(), 4);
}

#[test]
fn round_drops_what_falls_outside_the_area() {
    let c = PlantConfig::default();
    let a = c.spawn_area;
    let mut s = field(&[(a, a), (-a, 0)]);
    let draws = vec![PlantDraw { roll: 0, dx: 1, dy: -3 }, PlantDraw { roll: 0, dx: 2, dy: -3 }];
    propagate(&mut s, &c, &draws);
    assert_eq!(places(&s), vec![(a, a), (-a, 0), (2 - a, -3)]);
}

#[test]
fn growth_waits_for_the_timer() {
    let c = PlantConfig::default();
    let mut s = field(&[]);
    let mut t = Timer::new(c.spawn_rate);
    spawn_plants_with(&mut s, &mut t, 249_999, &c, &Vec::new());
    assert_eq!(s.len(), 0);
    assert_eq!(t.elapsed, 249_999);
    spawn_plants_with(&mut s, &mut t, 1, &c, &Vec::new());
    assert_eq!(places(&s), vec![(0, 0)]);
    assert_eq!(t.elapsed, 0);
    spawn_plants_with(&mut s, &mut t, 16_000, &c, &vec![sure(1, 1)]);
    assert_eq!(s.len(), 1);
    spawn_plants_with(&mut s, &mut t, 234_000, &c, &vec![sure(1, 1)]);
    assert_eq!(places(&s), vec![(0, 0), (1, 1)]);
}

#[test]
fn draws_are_fair_and_differ() {
    let c = PlantConfig::default();
    let draws = c.draws(200);
    assert_eq!(draws.len(), 200);
    for d in draws.iter() {
        assert!(d.roll < ROLL_SCALE);
        assert!(-c.spawn_range <= d.dx && d.dx < c.spawn_range);
        assert!(-c.spawn_range <= d.dy && d.dy < c.spawn_range);
    }
    assert!(draws.iter().any(|d| d.roll != 0));
    assert!(draws.iter().any(|d| d.dx != -c.spawn_range));
    assert!(draws.iter().any(|d| d.dy != draws[0].dy));
    assert!(draws.iter().any(|d| d.dx != d.dy));
    assert_eq!(c.draws(0).len(), 0);
}

#[test]
fn growth_on_its_own_draws_stays_in_range_and_area() {
    let c = PlantConfig::default();
    let mut s = field(&[]);
    let mut t = Timer::new(c.spawn_rate);
    spawn_plants(&mut s, &mut t, 100_000, &c);
    assert_eq!(s.len(), 0);
    spawn_plants(&mut s, &mut t, 150_000, &c);
    assert_eq!(places(&s), vec![(0, 0)]);
    // A lone plant sets a neighbour on every roll, and none of them can
    // fall outside the area from the origin.
    spawn_plants(&mut s, &mut t, 250_000, &c);
    assert_eq!(s.len(), 2);
    let p = s.entry(1).pose.position;
    assert!(-c.spawn_range <= p.x && p.x < c.spawn_range);
    assert!(-c.spawn_range <= p.y && p.y < c.spawn_range);
    for _ in 0..300 {
        let before = s.len();
        spawn_plants(&mut s, &mut t, 250_000, &c);
        assert!(s.len() >= before);
        assert!(s.len() <= 2 * before);
    }
    assert!(s.len() > 2);
    for e in s.entries().iter() {
        assert!(e.pose.position.max_abs() <= c.spawn_area);
    }
}
