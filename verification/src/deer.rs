//! The deer: what one deer does in one tick.
//!
//! A deer searches for the nearest plant, hunts it, eats it, and wanders
//! where it finds none. Happiness is its fuel: a wander costs 2, a meal
//! gives 1.

use vstd::prelude::*;
use crate::geometry::lemma_dist2_basics;
use crate::geometry::lemma_moved_within;
use crate::geometry::lemma_toward_wf;
use crate::geometry::Direction;
use crate::geometry::Position;
use crate::geometry::LIMIT;
use crate::geometry::UNIT;
use crate::plant::PlantTag;
use crate::random::uniform;
use crate::store::all_within;
use crate::store::index_of;
use crate::store::is_nearest;
use crate::store::live;
use crate::store::nearest;
use crate::store::without;
use crate::store::Entry;
use crate::store::Handle;
use crate::store::Pose;
use crate::store::Store;

verus! {

/// A deer has arrived once it is no farther than this from where it is
/// going: a unit and a half, in steps.
pub const ARRIVAL: u32 = 1_500_000;

/// What a wander costs in happiness.
pub const WANDER_COST: i64 = 2;

/// What a meal gives in happiness.
pub const MEAL_GAIN: i64 = 1;

/// What a deer is doing.
#[derive(Clone, Copy, Debug, PartialEq, Eq, Structural)]
pub enum Objective {
    /// Looking for the nearest plant.
    Searching,
    /// Going to the plant under the handle.
    Hunting(Handle),
    /// Standing at the plant under the handle, about to eat it.
    Eating(Handle),
    /// Going to the point.
    Wandering(Position),
}

/// What a deer carries besides its pose.
#[derive(Clone, Copy, Debug, PartialEq, Eq, Structural)]
pub struct State {
    pub happiness: i64,
    pub objective: Objective,
}

/// A deer about to enter the herd.
#[derive(Clone, Copy, Debug, PartialEq, Eq, Structural)]
pub struct Deer {
    pub x: i64,
    pub y: i64,
}

/// The numbers that govern the deer.
#[derive(Clone, Copy, Debug, PartialEq, Eq, Structural)]
pub struct Config {
    /// Chance places a deer, and the point it wanders off to, within this
    /// many steps of the origin on each axis.
    pub spawn_area: i64,
    /// A deer this happy or happier has a fawn.
    pub spawn_rate: i64,
    /// What a fawn costs its parent in happiness.
    pub spawn_cost: i64,
    /// The happiness with which a deer enters the herd.
    pub spawn_happiness: i64,
    /// Steps that a hunting deer covers in a second. A wandering deer
    /// covers twice as many.
    pub speed: u32,
    /// How far a deer sees a plant, in steps.
    pub search_radius: u32,
    /// How far off a deer wanders at most, in steps.
    pub wander_range: u32,
}

/// `h` brought into the range of a happiness.
pub open spec fn bounded(h: int) -> int {
    if h < i64::MIN {
        i64::MIN as int
    } else if h > i64::MAX {
        i64::MAX as int
    } else {
        h
    }
}

/// Whether `to` is no farther than `ARRIVAL` from `from`.
pub open spec fn arrived(from: Position, to: Position) -> bool {
    from.dist2(to) <= ARRIVAL * ARRIVAL
}

/// The steps covered in `dt` microseconds at `speed` steps a second, or at
/// twice that speed.
pub open spec fn stride(speed: int, double: bool, dt: int) -> int {
    if double {
        (speed * 2 * dt) / 1_000_000
    } else {
        (speed * dt) / 1_000_000
    }
}

/// Where a deer at `me` wanders off to on the draw `raw`: to `raw` itself
/// where that is no farther than `range`, else to the point at `range`
/// along the way to it.
pub open spec fn destination(me: Position, raw: Position, range: int) -> Position {
    if me.dist2(raw) > range * range {
        me.moved(Direction::toward(me, raw), range)
    } else {
        raw
    }
}

/// The pose `me` turned to `target`. Standing on the target, it keeps its
/// heading.
pub open spec fn faced(me: Pose, target: Position) -> Pose {
    if me.position == target {
        me
    } else {
        Pose { position: me.position, facing: Direction::toward(me.position, target) }
    }
}

/// The pose `me` turned to `target` and, unless it has arrived, moved `len`
/// steps ahead.
pub open spec fn pursued(me: Pose, target: Position, len: int) -> Pose {
    let turned = faced(me, target);
    if arrived(me.position, target) {
        turned
    } else {
        Pose { position: turned.position.moved(turned.facing, len), facing: turned.facing }
    }
}

/// A state after the wander transition: on its way to the destination, and
/// `WANDER_COST` less happy.
pub open spec fn wandered(state: State, me: Position, raw: Position, config: Config) -> State {
    State {
        happiness: bounded(state.happiness - WANDER_COST) as i64,
        objective: Objective::Wandering(destination(me, raw, config.wander_range as int)),
    }
}

/// A state after a meal: searching again, and `MEAL_GAIN` happier.
pub open spec fn fed(state: State) -> State {
    State {
        happiness: bounded(state.happiness + MEAL_GAIN) as i64,
        objective: Objective::Searching,
    }
}

/// What one tick of length `dt` makes of a deer and of the plants. `raw` is
/// the point drawn for the case that the deer wanders off.
///
/// Searching, the deer takes up the hunt of the nearest plant in sight, and
/// wanders off where none is in sight. Wandering, it turns to its
/// destination and goes on at double speed, or searches again once it has
/// arrived. Hunting, it turns to the plant and goes on, or sets about eating
/// once it has arrived. Eating, it takes the plant out of the store. A deer
/// whose plant is gone wanders off.
pub open spec fn step(
    me: Pose,
    state: State,
    plants: Seq<Entry<PlantTag>>,
    config: Config,
    dt: int,
    raw: Position,
) -> (Pose, State, Seq<Entry<PlantTag>>) {
    match state.objective {
        Objective::Searching => {
            match nearest(plants, me.position, config.search_radius * config.search_radius) {
                Some(h) => (
                    me,
                    State { happiness: state.happiness, objective: Objective::Hunting(h) },
                    plants,
                ),
                None => (me, wandered(state, me.position, raw, config), plants),
            }
        },
        Objective::Wandering(dest) => {
            if arrived(me.position, dest) {
                (
                    faced(me, dest),
                    State { happiness: state.happiness, objective: Objective::Searching },
                    plants,
                )
            } else {
                (pursued(me, dest, stride(config.speed as int, true, dt)), state, plants)
            }
        },
        Objective::Hunting(h) => {
            if live(plants, h) {
                let target = plants[index_of(plants, h)].pose.position;
                if arrived(me.position, target) {
                    (
                        faced(me, target),
                        State { happiness: state.happiness, objective: Objective::Eating(h) },
                        plants,
                    )
                } else {
                    (pursued(me, target, stride(config.speed as int, false, dt)), state, plants)
                }
            } else {
                (me, wandered(state, me.position, raw, config), plants)
            }
        },
        Objective::Eating(h) => {
            if live(plants, h) {
                (me, fed(state), without(plants, h))
            } else {
                (me, wandered(state, me.position, raw, config), plants)
            }
        },
    }
}

/// What a deer's tick adds to its happiness: a wander takes `WANDER_COST`,
/// a meal gives `MEAL_GAIN`, and nothing else changes it.
pub open spec fn step_change(
    me: Pose,
    state: State,
    plants: Seq<Entry<PlantTag>>,
    config: Config,
) -> int {
    match state.objective {
        Objective::Searching => {
            if nearest(plants, me.position, config.search_radius * config.search_radius) is None {
                -WANDER_COST
            } else {
                0
            }
        },
        Objective::Wandering(_) => 0,
        Objective::Hunting(h) => {
            if live(plants, h) {
                0
            } else {
                -WANDER_COST
            }
        },
        Objective::Eating(h) => {
            if live(plants, h) {
                MEAL_GAIN as int
            } else {
                -WANDER_COST
            }
        },
    }
}

fn add_happiness(h: i64, delta: i64) -> (r: i64)
    ensures
        r == bounded(h + delta),
{
    let sum: i128 = h as i128 + delta as i128;
    if sum < i64::MIN as i128 {
        i64::MIN
    } else if sum > i64::MAX as i128 {
        i64::MAX
    } else {
        sum as i64
    }
}

fn cover(speed: u32, double: bool, dt: u32) -> (len: u64)
    ensures
        len == stride(speed as int, double, dt as int),
{
    assert(0 <= speed * dt <= 0xffff_ffff * 0xffff_ffff) by (nonlinear_arith)
        requires
            0 <= speed <= 0xffff_ffff,
            0 <= dt <= 0xffff_ffff,
    ;
    let base: u128 = (speed as u128) * (dt as u128);
    if double {
        assert(speed * 2 * dt == 2 * (speed * dt)) by (nonlinear_arith);
        ((2 * base) / 1_000_000) as u64
    } else {
        (base / 1_000_000) as u64
    }
}

impl Default for Config {
    /// An area of 40 units, a fawn at happiness 20 for 17, deer that start
    /// at 10, move a unit a second, see 8 units far and wander 16 units off.
    fn default() -> (c: Config)
        ensures
            c == (Config {
                spawn_area: 40_000_000,
                spawn_rate: 20,
                spawn_cost: 17,
                spawn_happiness: 10,
                speed: 1_000_000,
                search_radius: 8_000_000,
                wander_range: 16_000_000,
            }),
            c.wf(),
    {
        Config {
            spawn_area: 40 * UNIT,
            spawn_rate: 20,
            spawn_cost: 17,
            spawn_happiness: 10,
            speed: 1_000_000,
            search_radius: 8_000_000,
            wander_range: 16_000_000,
        }
    }
}

impl Config {
    /// The area is not empty and lies within the world.
    pub open spec fn wf(self) -> bool {
        1 <= self.spawn_area <= LIMIT
    }

    /// Whether `p` is a point that chance can give: within the area on each
    /// axis, the upper edge left out.
    pub open spec fn covers(self, p: Position) -> bool {
        &&& -self.spawn_area <= p.x < self.spawn_area
        &&& -self.spawn_area <= p.y < self.spawn_area
    }

    /// A point drawn from the area.
    pub fn get_pos(&self) -> (p: Position)
        requires
            self.wf(),
        ensures
            self.covers(p),
            p.in_bounds(),
    {
        let x: i64 = uniform(-self.spawn_area, self.spawn_area);
        let y: i64 = uniform(-self.spawn_area, self.spawn_area);
        Position { x, y }
    }
}

impl Deer {
    /// Where the deer stands.
    pub open spec fn position(self) -> Position {
        Position { x: self.x, y: self.y }
    }

    /// The pose under which the deer enters the herd.
    pub open spec fn placed(self) -> Pose {
        Pose { position: self.position(), facing: Direction::initial() }
    }

    /// The fawn of the parent at `parent`: one unit off on each axis, and
    /// no farther than the world's edge.
    pub open spec fn fawn(parent: Position) -> Deer {
        Deer {
            x: parent.shifted(UNIT as int, UNIT as int).x,
            y: parent.shifted(UNIT as int, UNIT as int).y,
        }
    }

    /// A deer at a point drawn from the area.
    pub fn new(config: &Config) -> (d: Deer)
        requires
            config.wf(),
        ensures
            config.covers(d.position()),
            d.position().in_bounds(),
    {
        let pos = config.get_pos();
        Deer { x: pos.x, y: pos.y }
    }

    /// A deer at the point given.
    pub fn at(position: &Position) -> (d: Deer)
        ensures
            d.position() == *position,
    {
        Deer { x: position.x, y: position.y }
    }

    /// The fawn of the parent whose pose is given.
    pub fn spawn(parent: &Pose) -> (d: Deer)
        ensures
            d == Deer::fawn(parent.position),
            d.position().in_bounds(),
    {
        let pos = parent.position.offset(UNIT, UNIT);
        Deer { x: pos.x, y: pos.y }
    }

    /// The pose under which the deer enters the herd.
    pub fn pose(&self) -> (p: Pose)
        ensures
            p == self.placed(),
            self.position().in_bounds() ==> p.wf(),
    {
        Pose::at(Position { x: self.x, y: self.y })
    }
}

impl Pose {
    /// Turns to `target` and hands out the new heading; standing on the
    /// target, keeps the heading and hands out none.
    pub fn face(&mut self, target: &Position) -> (r: Option<Direction>)
        requires
            old(self).wf(),
            target.in_bounds(),
        ensures
            *final(self) == faced(*old(self), *target),
            final(self).wf(),
            r is None <==> old(self).position == *target,
            r matches Some(d) ==> d == final(self).facing,
    {
        let heading = Direction::between(&self.position, target);
        match heading {
            Some(d) => {
                self.facing = d;
            },
            None => {},
        }
        heading
    }

    /// Turns to `target` and, unless the pose has arrived, goes `len` steps
    /// ahead. Says whether it had arrived.
    pub fn approach(&mut self, target: &Position, len: u64) -> (there: bool)
        requires
            old(self).wf(),
            target.in_bounds(),
        ensures
            *final(self) == pursued(*old(self), *target, len as int),
            final(self).wf(),
            there == arrived(old(self).position, *target),
    {
        let heading = self.face(target);
        if self.position.within(target, ARRIVAL) {
            return true;
        }
        match heading {
            Some(d) => {
                self.position = self.position.advance(&d, len);
            },
            None => {
                proof {
                    lemma_dist2_basics(self.position, *target);
                }
            },
        }
        false
    }
}

impl State {
    /// A wandering deer is bound for a point within the world.
    pub open spec fn wf(self) -> bool {
        self.objective matches Objective::Wandering(dest) ==> dest.in_bounds()
    }

    /// The state with which a deer enters the herd.
    pub open spec fn fresh(config: Config) -> State {
        State { happiness: config.spawn_happiness, objective: Objective::Searching }
    }

    /// The state with which a deer enters the herd.
    pub fn new(config: &Config) -> (s: State)
        ensures
            s == State::fresh(*config),
            s.wf(),
    {
        State { happiness: config.spawn_happiness, objective: Objective::Searching }
    }

    /// Whether the deer has run out of happiness.
    pub fn starving(&self) -> (b: bool)
        ensures
            b == (self.happiness <= 0),
    {
        self.happiness <= 0
    }

    /// Whether the deer is happy enough to have a fawn.
    pub fn happy(&self, config: &Config) -> (b: bool)
        ensures
            b == (self.happiness >= config.spawn_rate),
    {
        self.happiness >= config.spawn_rate
    }

    /// The wander transition on the draw `raw`.
    pub fn wander_to(&mut self, me: &Pose, raw: &Position, config: &Config)
        requires
            me.wf(),
            raw.in_bounds(),
        ensures
            *final(self) == wandered(*old(self), me.position, *raw, *config),
            final(self).wf(),
            final(self).objective matches Objective::Wandering(dest) && me.position.dist2(dest)
                <= config.wander_range * config.wander_range,
    {
        proof {
            lemma_destination_within(me.position, *raw, config.wander_range as int);
        }
        let mut dest: Position = *raw;
        if !me.position.within(raw, config.wander_range) {
            match Direction::between(&me.position, raw) {
                Some(d) => {
                    dest = me.position.advance(&d, config.wander_range as u64);
                },
                None => {
                    proof {
                        lemma_dist2_basics(me.position, *raw);
                    }
                    assert(config.wander_range * config.wander_range >= 0) by (nonlinear_arith);
                },
            }
        }
        self.objective = Objective::Wandering(dest);
        self.happiness = add_happiness(self.happiness, -WANDER_COST);
    }

    /// The wander transition on a draw of its own: what `wander_to` makes
    /// of some point of the area.
    pub fn wander(&mut self, me: &Pose, config: &Config)
        requires
            me.wf(),
            config.wf(),
        ensures
            exists|raw: Position| #[trigger]
                config.covers(raw) && *final(self) == wandered(
                    *old(self),
                    me.position,
                    raw,
                    *config,
                ),
            final(self).wf(),
            final(self).happiness == bounded(old(self).happiness - WANDER_COST),
            final(self).objective matches Objective::Wandering(dest) && me.position.dist2(dest)
                <= config.wander_range * config.wander_range,
    {
        let raw = config.get_pos();
        self.wander_to(me, &raw, config);
        assert(config.covers(raw));
    }

    /// The meal: a point of happiness more, and searching again.
    pub fn eat(&mut self)
        ensures
            *final(self) == fed(*old(self)),
            final(self).wf(),
    {
        self.happiness = add_happiness(self.happiness, MEAL_GAIN);
        self.objective = Objective::Searching;
    }

    /// One tick of length `dt` microseconds for the deer at `me`. `raw` is
    /// the point drawn for the case that the deer wanders off.
    pub fn step(
        &mut self,
        me: &mut Pose,
        plants: &mut Store<PlantTag>,
        config: &Config,
        dt: u32,
        raw: &Position,
    )
        requires
            old(self).wf(),
            old(me).wf(),
            old(plants).wf(),
            raw.in_bounds(),
        ensures
            (*final(me), *final(self), final(plants)@) == step(
                *old(me),
                *old(self),
                old(plants)@,
                *config,
                dt as int,
                *raw,
            ),
            final(self).wf(),
            final(me).wf(),
            final(plants).wf(),
            final(plants).issued() == old(plants).issued(),
    {
        match self.objective {
            Objective::Searching => {
                match plants.nearest_within(&me.position, config.search_radius) {
                    Some(h) => {
                        self.objective = Objective::Hunting(h);
                    },
                    None => {
                        self.wander_to(me, raw, config);
                    },
                }
            },
            Objective::Wandering(dest) => {
                let len: u64 = cover(config.speed, true, dt);
                if me.approach(&dest, len) {
                    self.objective = Objective::Searching;
                }
            },
            Objective::Hunting(h) => {
                match plants.find(h) {
                    Some(i) => {
                        let target: Position = plants.entry(i).pose.position;
                        assert(plants@[i as int].pose.wf());
                        let len: u64 = cover(config.speed, false, dt);
                        if me.approach(&target, len) {
                            self.objective = Objective::Eating(h);
                        }
                    },
                    None => {
                        self.wander_to(me, raw, config);
                    },
                }
            },
            Objective::Eating(h) => {
                match plants.remove(h) {
                    Some(_) => {
                        self.eat();
                    },
                    None => {
                        self.wander_to(me, raw, config);
                    },
                }
            },
        }
    }
}

/// A wandering deer's destination lies no farther from it than the range.
pub proof fn lemma_destination_within(me: Position, raw: Position, range: int)
    requires
        me.in_bounds(),
        raw.in_bounds(),
        range >= 0,
    ensures
        destination(me, raw, range).in_bounds(),
        me.dist2(destination(me, raw, range)) <= range * range,
{
    if me.dist2(raw) > range * range {
        if me == raw {
            lemma_dist2_basics(me, raw);
            assert(range * range >= 0) by (nonlinear_arith);
        }
        lemma_toward_wf(me, raw);
        lemma_moved_within(me, Direction::toward(me, raw), range);
    }
}

/// A deer's tick takes plants out of the store at most: it leaves no more
/// plants than it found, and where they all stood within an area, those
/// that are left still do.
pub proof fn lemma_step_keeps_area(
    me: Pose,
    state: State,
    plants: Seq<Entry<PlantTag>>,
    config: Config,
    dt: int,
    raw: Position,
    area: int,
)
    ensures
        step(me, state, plants, config, dt, raw).2.len() <= plants.len(),
        all_within(plants, area) ==> all_within(step(me, state, plants, config, dt, raw).2, area),
{
    let rest = step(me, state, plants, config, dt, raw).2;
    if let Objective::Eating(h) = state.objective {
        if live(plants, h) {
            let k = index_of(plants, h);
            if all_within(plants, area) {
                assert forall|i: int| 0 <= i < rest.len() implies (#[trigger] rest[i]).pose.position.reach()
                    <= area by {
                    let j = if i < k {
                        i
                    } else {
                        i + 1
                    };
                    assert(rest[i] == plants[j]);
                }
            }
        }
    }
}

/// A deer that hunts or eats a plant that is gone wanders off and pays for
/// it; its pose and the plants stay as they are.
pub proof fn lemma_stale_reference(
    me: Pose,
    state: State,
    plants: Seq<Entry<PlantTag>>,
    config: Config,
    dt: int,
    raw: Position,
    h: Handle,
)
    requires
        state.objective == Objective::Hunting(h) || state.objective == Objective::Eating(h),
        !live(plants, h),
    ensures
        step(me, state, plants, config, dt, raw) == (
            me,
            wandered(state, me.position, raw, config),
            plants,
        ),
        step(me, state, plants, config, dt, raw).1.objective is Wandering,
        step(me, state, plants, config, dt, raw).1.happiness == bounded(
            state.happiness - WANDER_COST,
        ),
{
}

/// The plant that a deer hunts or eats once its tick is over is live in
/// the store that the tick leaves.
pub proof fn lemma_step_reference(
    me: Pose,
    state: State,
    plants: Seq<Entry<PlantTag>>,
    config: Config,
    dt: int,
    raw: Position,
)
    ensures
        step(me, state, plants, config, dt, raw).1.objective matches Objective::Hunting(h) ==> live(
            step(me, state, plants, config, dt, raw).2,
            h,
        ),
        step(me, state, plants, config, dt, raw).1.objective matches Objective::Eating(h) ==> live(
            step(me, state, plants, config, dt, raw).2,
            h,
        ),
{
    let r2 = config.search_radius * config.search_radius;
    if state.objective is Searching {
        if nearest(plants, me.position, r2) is Some {
            let i = choose|i: int| is_nearest(plants, me.position, r2, i);
            assert(plants[i].handle == nearest(plants, me.position, r2)->0);
        }
    }
}

/// A deer's tick changes its happiness by `step_change`, which is the cost
/// of a wander, the gain of a meal, or nothing.
pub proof fn lemma_step_happiness(
    me: Pose,
    state: State,
    plants: Seq<Entry<PlantTag>>,
    config: Config,
    dt: int,
    raw: Position,
)
    ensures
        step(me, state, plants, config, dt, raw).1.happiness == bounded(
            state.happiness + step_change(me, state, plants, config),
        ),
        step_change(me, state, plants, config) == 0 || step_change(me, state, plants, config)
            == -WANDER_COST || step_change(me, state, plants, config) == MEAL_GAIN,
        step_change(me, state, plants, config) == -WANDER_COST ==> step(
            me,
            state,
            plants,
            config,
            dt,
            raw,
        ).1 == wandered(state, me.position, raw, config),
{
}

} // verus!
