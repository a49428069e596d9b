use ecosim::deer::Config;
use ecosim::deer::Objective;
use ecosim::deer::State;
use ecosim::geometry::Direction;
use ecosim::geometry::Position;
use ecosim::geometry::UNIT;
use ecosim::plant::PlantConfig;
use ecosim::plant::PlantDraw;
use ecosim::plant::PlantTag;
use ecosim::sim::Draws;
use ecosim::sim::World;
use ecosim::store::Handle;
use ecosim::store::Pose;

fn at(x: i64, y: i64) -> Pose {
    Pose::at(Position::new(x, y))
}

fn searching(happiness: i64) -> State {
    State { happiness, objective: Objective::Searching }
}

fn quiet(deer: usize, plants: usize) -> Draws {
    Draws {
        wander: vec![Position::origin(); deer],
        seed: Position::origin(),
        plants: vec![PlantDraw { roll: u32::MAX, dx: 0, dy: 0 }; plants],
    }
}

#[test]
fn a_new_world_is_empty() {
    let pc = PlantConfig::default();
    let w = World::new(&pc);
    assert_eq!(w.plants.len(), 0);
    assert_eq!(w.deer.len(), 0);
    assert_eq!(w.growth.period, 250_000);
    assert_eq!(w.growth.elapsed, 0);
}

#[test]
fn an_empty_world_gets_a_plant_and_a_deer() {
    let dc = Config::default();
    let pc = PlantConfig::default();
    let mut w = World::new(&pc);
    w.advance(250_000, &dc, &pc);
    assert_eq!(w.plants.len(), 1);
    assert_eq!(w.plants.entry(0).pose.position, Position::origin());
    assert_eq!(w.deer.len(), 1);
    let e = w.deer.entry(0);
    assert!(e.pose.position.max_abs() <= dc.spawn_area);
    assert_eq!(e.item, searching(10));
}

#[test]
fn an_empty_world_gets_no_plant_before_the_timer_fires() {
    let dc = Config::default();
    let pc = PlantConfig::default();
    let mut w = World::new(&pc);
    w.advance(16_000, &dc, &pc);
    assert_eq!(w.plants.len(), 0);
    assert_eq!(w.deer.len(), 1);
    assert_eq!(w.growth.elapsed, 16_000);
}

#[test]
fn a_happy_deer_without_plants_wanders_and_has_no_fawn() {
    let dc = Config::default();
    let pc = PlantConfig::default();
    let mut w = World::new(&pc);
    w.deer.insert(at(0, 0), searching(dc.spawn_rate));
    w.advance(16_000, &dc, &pc);
    assert_eq!(w.deer.len(), 1);
    let e = w.deer.entry(0);
    assert_eq!(e.item.happiness, dc.spawn_rate - 2);
    assert!(matches!(e.item.objective, Objective::Wandering(_)));
}

#[test]
fn a_happy_deer_with_a_plant_out_of_sight_wanders() {
    let dc = Config::default();
    let pc = PlantConfig::default();
    let mut w = World::new(&pc);
    w.plants.insert(at(20 * UNIT, 0), PlantTag);
    w.deer.insert(at(0, 0), searching(dc.spawn_rate));
    let raw = Position::new(0, 5 * UNIT);
    let draws = Draws {
        wander: vec![raw],
        seed: Position::origin(),
        plants: vec![PlantDraw { roll: 0, dx: 0, dy: 0 }],
    };
    w.advance_with(16_000, &dc, &pc, &draws);
    assert_eq!(w.deer.len(), 1);
    assert_eq!(w.deer.entry(0).item, State { happiness: 18, objective: Objective::Wandering(raw) });
    assert_eq!(w.plants.len(), 1);
}

#[test]
fn a_deer_whose_plant_was_taken_wanders() {
    let dc = Config::default();
    let pc = PlantConfig::default();
    let mut w = World::new(&pc);
    let p = w.plants.insert(at(3 * UNIT, 0), PlantTag).unwrap();
    w.deer.insert(at(0, 0), State { happiness: 10, objective: Objective::Hunting(p) });
    w.plants.remove(p);
    w.advance(16_000, &dc, &pc);
    let e = w.deer.entry(0);
    assert_eq!(e.item.happiness, 8);
    assert!(matches!(e.item.objective, Objective::Wandering(_)));
    assert_eq!(e.pose, at(0, 0));
}

#[test]
fn an_eating_deer_takes_the_plant_out() {
    let dc = Config::default();
    let pc = PlantConfig::default();
    let mut w = World::new(&pc);
    let p = w.plants.insert(at(UNIT, 0), PlantTag).unwrap();
    let q = w.plants.insert(at(0, UNIT), PlantTag).unwrap();
    w.deer.insert(at(0, 0), State { happiness: 10, objective: Objective::Eating(p) });
    w.advance(16_000, &dc, &pc);
    assert!(!w.plants.contains(p));
    assert!(w.plants.contains(q));
    assert_eq!(w.plants.len(), 1);
    assert_eq!(w.deer.entry(0).item, searching(11));
}

#[test]
fn a_deer_out_of_happiness_leaves_in_the_same_tick() {
    let dc = Config::default();
    let pc = PlantConfig::default();
    let mut w = World::new(&pc);
    let a = w.deer.insert(at(0, 0), searching(2)).unwrap();
    let b = w.deer.insert(at(5, 5), searching(1)).unwrap();
    let c = w.deer.insert(at(9, 9), searching(3)).unwrap();
    w.advance(16_000, &dc, &pc);
    assert!(!w.deer.contains(a));
    assert!(!w.deer.contains(b));
    assert!(w.deer.contains(c));
    assert_eq!(w.deer.len(), 1);
    assert_eq!(w.deer.entry(0).item.happiness, 1);
}

#[test]
fn the_herd_is_seeded_the_tick_after_it_died_out() {
    let dc = Config::default();
    let pc = PlantConfig::default();
    let mut w = World::new(&pc);
    w.deer.insert(at(0, 0), searching(2));
    w.advance(16_000, &dc, &pc);
    assert_eq!(w.deer.len(), 0);
    w.advance(16_000, &dc, &pc);
    assert_eq!(w.deer.len(), 1);
    assert_eq!(w.deer.entry(0).handle, Handle { id: 1 });
    assert_eq!(w.deer.entry(0).item, searching(10));
}

#[test]
fn a_tick_runs_the_deer_then_the_controller_then_the_plants() {
    let dc = Config::default();
    let pc = PlantConfig::default();
    let mut w = World::new(&pc);
    let p = w.plants.insert(at(0, 0), PlantTag).unwrap();
    w.deer.insert(at(0, 0), State { happiness: 19, objective: Objective::Eating(p) });
    let draws = Draws {
        wander: vec![Position::origin()],
        seed: Position::new(7, 7),
        plants: vec![PlantDraw { roll: 0, dx: 3, dy: 3 }],
    };
    w.advance_with(250_000, &dc, &pc, &draws);
    // The meal makes the deer happy enough for a fawn in the same tick.
    assert_eq!(w.deer.len(), 2);
    assert_eq!(w.deer.entry(0).item, searching(3));
    assert_eq!(w.deer.entry(1).pose, at(UNIT, UNIT));
    assert_eq!(w.deer.entry(1).item, searching(10));
    // The plants were all eaten when the timer fired: one grows at the origin.
    assert_eq!(w.plants.len(), 1);
    assert_eq!(w.plants.entry(0).handle, Handle { id: 1 });
    assert_eq!(w.plants.entry(0).pose, at(0, 0));
    assert_eq!(w.growth.elapsed, 0);
}

#[test]
fn happiness_over_some_ticks_is_the_sum_of_its_changes() {
    let dc = Config::default();
    let pc = PlantConfig::default();
    let mut w = World::new(&pc);
    let p = w.plants.insert(at(UNIT, 0), PlantTag).unwrap();
    let d = w.deer.insert(at(0, 0), searching(10)).unwrap();
    let dest = Position::new(0, UNIT);
    let mut trace: Vec<i64> = vec![10];
    for _ in 0..6 {
        let draws = Draws { wander: vec![dest], seed: Position::origin(), plants: vec![PlantDraw { roll: 0, dx: 0, dy: 0 }] };
        w.advance_with(1_000, &dc, &pc, &draws);
        trace.push(w.deer.get(d).unwrap().item.happiness);
    }
    // Found, arrived, ate, found nothing, arrived, found nothing.
    assert_eq!(trace, vec![10, 10, 10, 11, 9, 9, 7]);
    assert!(!w.plants.contains(p));
    assert_eq!(w.deer.get(d).unwrap().item.objective, Objective::Wandering(dest));
    assert_eq!(w.deer.get(d).unwrap().pose.facing, Direction { x: 0, y: UNIT });
}

#[test]
fn plants_stay_within_the_area_and_deer_come_and_go() {
    let dc = Config::default();
    let pc = PlantConfig::default();
    let mut w = World::new(&pc);
    let mut most_deer = 0;
    for _ in 0..400 {
        w.advance(125_000, &dc, &pc);
        for e in w.plants.entries().iter() {
            assert!(e.pose.position.max_abs() <= pc.spawn_area);
        }
        for e in w.deer.entries().iter() {
            assert!(e.item.happiness > 0);
        }
        if w.deer.len() > most_deer {
            most_deer = w.deer.len();
        }
    }
    assert!(most_deer >= 1);
    assert!(w.plants.len() >= 1);
    let ids: Vec<u64> = w.plants.entries().iter().map(|e| e.handle.id).collect();
    assert!(ids.windows(2).all(|p| p[0] < p[1]));
}

#[test]
fn quiet_draws_leave_an_idle_world_alone() {
    let dc = Config::default();
    let pc = PlantConfig::default();
    let mut w = World::new(&pc);
    w.plants.insert(at(30 * UNIT, 30 * UNIT), PlantTag);
    w.deer.insert(
        at(0, 0),
        State { happiness: 5, objective: Objective::Wandering(Position::new(UNIT, 0)) },
    );
    w.advance_with(250_000, &dc, &pc, &quiet(1, 1));
    assert_eq!(w.plants.len(), 1);
    assert_eq!(w.deer.len(), 1);
    assert_eq!(w.deer.entry(0).item, searching(5));
    assert_eq!(w.deer.entry(0).pose.facing, Direction { x: UNIT, y: 0 });
}

#[test]
fn the_same_draws_give_the_same_world() {
    let dc = Config::default();
    let pc = PlantConfig::default();
    let mut a = World::new(&pc);
    let mut b = World::new(&pc);
    for w in [&mut a, &mut b] {
        w.plants.insert(at(2 * UNIT, 0), PlantTag);
        w.plants.insert(at(-3 * UNIT, UNIT), PlantTag);
        w.deer.insert(at(0, 0), searching(19));
        w.deer.insert(at(5 * UNIT, 5 * UNIT), searching(4));
    }
    let mut seed: u64 = 12345;
    let mut next = |span: i64| -> i64 {
        seed = seed.wrapping_mul(6364136223846793005).wrapping_add(1442695040888963407);
        ((seed >> 33) as i64) % span
    };
    for _ in 0..200 {
        let deer = a.deer.len();
        let plants = a.plants.len();
        let draws = Draws {
            wander: (0..deer)
                .map(|_| Position::new(next(80 * UNIT) - 40 * UNIT, next(80 * UNIT) - 40 * UNIT))
                .collect(),
            seed: Position::new(next(80 * UNIT) - 40 * UNIT, next(80 * UNIT) - 40 * UNIT),
            plants: (0..plants)
                .map(|_| PlantDraw {
                    roll: next(4096) as u32,
                    dx: next(20 * UNIT) - 10 * UNIT,
                    dy: next(20 * UNIT) - 10 * UNIT,
                })
                .collect(),
        };
        a.advance_with(100_000, &dc, &pc, &draws);
        b.advance_with(100_000, &dc, &pc, &draws);
        assert_eq!(a.deer.len(), b.deer.len());
        assert_eq!(a.plants.len(), b.plants.len());
        assert_eq!(a.growth, b.growth);
        for (x, y) in a.deer.entries().iter().zip(b.deer.entries().iter()) {
            assert_eq!(x.handle, y.handle);
            assert_eq!(x.pose, y.pose);
            assert_eq!(x.item, y.item);
            assert!(x.item.happiness > 0);
        }
        for (x, y) in a.plants.entries().iter().zip(b.plants.entries().iter()) {
            assert_eq!(x.handle, y.handle);
            assert_eq!(x.pose, y.pose);
            assert!(x.pose.position.max_abs() <= pc.spawn_area);
        }
    }
    assert!(a.plants.len() + a.deer.len() > 0);
}
