//! The world and its tick: the pass over the herd, then the population
//! controller, then plant propagation on its own timer.

use vstd::prelude::*;
use crate::clock::Timer;
use crate::deer::bounded;
use crate::deer::lemma_step_happiness;
use crate::deer::step_change;
use crate::deer::Config;
use crate::deer::State;
use crate::geometry::Position;
use crate::herd::all_in_bounds;
use crate::herd::deer_ai;
use crate::herd::deer_ai_with;
use crate::herd::lemma_herd_frame;
use crate::herd::lemma_herd_keeps_area;
use crate::herd::lemma_herd_turn;
use crate::herd::roamed;
use crate::herd::sound;
use crate::plant::grown;
use crate::plant::lemma_round_keeps_area;
use crate::plant::spawn_plants;
use crate::plant::spawn_plants_with;
use crate::plant::PlantConfig;
use crate::plant::PlantDraw;
use crate::plant::PlantTag;
use crate::population::fawns;
use crate::population::lemma_populated;
use crate::population::lemma_survivor;
use crate::population::lemma_survivors_from;
use crate::population::populated;
use crate::population::spawn;
use crate::population::spawn_with;
use crate::population::survivors;
use crate::store::all_within;
use crate::store::index_of;
use crate::store::lemma_inserted_each;
use crate::store::live;
use crate::store::ordered;
use crate::store::Entry;
use crate::store::Store;

verus! {

/// Everything that lives, and the timer on which plants grow.
#[derive(Debug)]
pub struct World {
    pub plants: Store<PlantTag>,
    pub deer: Store<State>,
    pub growth: Timer,
}

/// What chance decides in one tick.
#[derive(Debug)]
pub struct Draws {
    /// For each deer in iteration order, the point it makes for if it
    /// wanders off.
    pub wander: Vec<Position>,
    /// Where a deer enters if the herd is empty.
    pub seed: Position,
    /// For each plant in iteration order, its draw in the round of
    /// propagation.
    pub plants: Vec<PlantDraw>,
}

/// The world as the contracts see it.
pub struct Scene {
    pub deer: Seq<Entry<State>>,
    pub deer_issued: nat,
    pub plants: Seq<Entry<PlantTag>>,
    pub plants_issued: nat,
    pub growth: Timer,
}

/// The draws of one tick as the contracts see them.
pub struct Chance {
    pub wander: Seq<Position>,
    pub seed: Position,
    pub plants: Seq<PlantDraw>,
}

/// The world after a tick of length `dt` microseconds on the draws given:
/// first every deer has its turn, then the population controller runs on
/// what the deer left, then the plants grow if their timer fires.
pub open spec fn advanced(
    w: Scene,
    dt: int,
    deer_config: Config,
    plant_config: PlantConfig,
    chance: Chance,
) -> Scene {
    let (moved, grazed) = roamed(w.deer, w.plants, deer_config, dt, chance.wander, w.deer.len());
    let (deer, deer_issued) = populated(moved, w.deer_issued, deer_config, chance.seed);
    let (plants, plants_issued) = grown(
        grazed,
        w.plants_issued,
        w.growth,
        dt,
        chance.plants,
        plant_config,
    );
    Scene { deer, deer_issued, plants, plants_issued, growth: w.growth.ticked(dt) }
}

/// Whether the draws are some that chance can give in a tick of the world
/// `w`: a point of the area for each deer, a point of the area as seed, and
/// a fair draw for each plant that the deer may leave.
pub open spec fn fair(chance: Chance, w: Scene, deer_config: Config, plant_config: PlantConfig) -> bool {
    &&& deer_config.covers_all(chance.wander, w.deer.len())
    &&& deer_config.covers(chance.seed)
    &&& chance.plants.len() <= w.plants.len()
    &&& forall|i: int| 0 <= i < chance.plants.len() ==> plant_config.fair(#[trigger] chance.plants[i])
}

impl View for Draws {
    type V = Chance;

    open spec fn view(&self) -> Chance {
        Chance { wander: self.wander@, seed: self.seed, plants: self.plants@ }
    }
}

impl View for World {
    type V = Scene;

    open spec fn view(&self) -> Scene {
        Scene {
            deer: self.deer@,
            deer_issued: self.deer.issued(),
            plants: self.plants@,
            plants_issued: self.plants.issued(),
            growth: self.growth,
        }
    }
}

impl World {
    /// Both stores and the timer are well formed, and so is every deer's
    /// state.
    pub open spec fn wf(&self) -> bool {
        &&& self.plants.wf()
        &&& self.deer.wf()
        &&& sound(self.deer@)
        &&& self.growth.wf()
    }

    /// A world without plants or deer, whose plants grow on the timer that
    /// the configuration asks for.
    pub fn new(plant_config: &PlantConfig) -> (w: World)
        ensures
            w.wf(),
            w@.deer.len() == 0,
            w@.plants.len() == 0,
            w@.deer_issued == 0,
            w@.plants_issued == 0,
            w@.growth == (Timer { period: plant_config.spawn_rate, elapsed: 0 }),
    {
        World {
            plants: Store::new(),
            deer: Store::new(),
            growth: Timer::new(plant_config.spawn_rate),
        }
    }

    /// One tick of length `dt` microseconds on the draws given.
    pub fn advance_with(
        &mut self,
        dt: u32,
        deer_config: &Config,
        plant_config: &PlantConfig,
        draws: &Draws,
    )
        requires
            old(self).wf(),
            plant_config.wf(),
            draws@.wander.len() >= old(self)@.deer.len(),
            all_in_bounds(draws@.wander),
            draws@.seed.in_bounds(),
            draws@.plants.len() >= old(self)@.plants.len(),
        ensures
            final(self).wf(),
            final(self)@ == advanced(old(self)@, dt as int, *deer_config, *plant_config, draws@),
            all_within(old(self)@.plants, plant_config.spawn_area as int) ==> all_within(
                final(self)@.plants,
                plant_config.spawn_area as int,
            ),
    {
        proof {
            lemma_herd_keeps_area(
                self.deer@,
                self.plants@,
                *deer_config,
                dt as int,
                draws@.wander,
                self.deer@.len(),
                plant_config.spawn_area as int,
            );
        }
        deer_ai_with(&mut self.deer, &mut self.plants, deer_config, dt, &draws.wander);
        spawn_with(&mut self.deer, deer_config, &draws.seed);
        spawn_plants_with(&mut self.plants, &mut self.growth, dt as u64, plant_config, &draws.plants);
    }

    /// One tick of length `dt` microseconds on draws of its own. What comes
    /// of it is what `advance_with` makes of some fair draws.
    pub fn advance(&mut self, dt: u32, deer_config: &Config, plant_config: &PlantConfig)
        requires
            old(self).wf(),
            deer_config.wf(),
            plant_config.wf(),
        ensures
            final(self).wf(),
            exists|chance: Chance| #[trigger]
                fair(chance, old(self)@, *deer_config, *plant_config) && final(self)@ == advanced(
                    old(self)@,
                    dt as int,
                    *deer_config,
                    *plant_config,
                    chance,
                ),
            all_within(old(self)@.plants, plant_config.spawn_area as int) ==> all_within(
                final(self)@.plants,
                plant_config.spawn_area as int,
            ),
    {
        deer_ai(&mut self.deer, &mut self.plants, deer_config, dt);
        let ghost moved = self.deer@;
        let ghost grazed = self.plants@;
        let ghost wander = choose|draws: Seq<Position>|
            {
                &&& #[trigger] deer_config.covers_all(draws, old(self)@.deer.len())
                &&& (moved, grazed) == roamed(
                    old(self)@.deer,
                    old(self)@.plants,
                    *deer_config,
                    dt as int,
                    draws,
                    old(self)@.deer.len(),
                )
            };
        spawn(&mut self.deer, deer_config);
        let ghost seed = choose|seed: Position| #[trigger]
            deer_config.covers(seed) && (self.deer@, self.deer.issued()) == populated(
                moved,
                old(self)@.deer_issued,
                *deer_config,
                seed,
            );
        spawn_plants(&mut self.plants, &mut self.growth, dt as u64, plant_config);
        let ghost rolls = choose|draws: Seq<PlantDraw>|
            {
                &&& #[trigger] plant_config.fair_draws(draws, grazed.len())
                &&& (self.plants@, self.plants.issued()) == grown(
                    grazed,
                    old(self)@.plants_issued,
                    old(self)@.growth,
                    dt as int,
                    draws,
                    *plant_config,
                )
            };
        proof {
            lemma_herd_keeps_area(
                old(self)@.deer,
                old(self)@.plants,
                *deer_config,
                dt as int,
                wander,
                old(self)@.deer.len(),
                plant_config.spawn_area as int,
            );
            let chance = Chance { wander, seed, plants: rolls };
            assert(fair(chance, old(self)@, *deer_config, *plant_config));
            assert(self@ == advanced(
                old(self)@,
                dt as int,
                *deer_config,
                *plant_config,
                chance,
            ));
        }
    }
}

/// The deer's handles grow along the herd and lie below the number issued.
pub open spec fn herd_wf(w: Scene) -> bool {
    &&& ordered(w.deer)
    &&& forall|j: int| 0 <= j < w.deer.len() ==> (#[trigger] w.deer[j]).handle.id < w.deer_issued
}

/// The happiness of the `i`-th deer once a tick is over, if the deer is
/// still there: what it had, with the change of its own turn and then the
/// cost of its fawn added, each sum brought into the range of a happiness.
pub open spec fn happiness_after(w: Scene, dt: int, deer_config: Config, chance: Chance, i: int) -> int {
    let e = w.deer[i];
    let left = roamed(w.deer, w.plants, deer_config, dt, chance.wander, i as nat).1;
    let fed = bounded(e.item.happiness + step_change(e.pose, e.item, left, deer_config));
    if fed >= deer_config.spawn_rate {
        bounded(fed - deer_config.spawn_cost)
    } else {
        fed
    }
}

/// Happiness is conserved over a tick. A deer of the herd changes its
/// happiness by the change of its own turn (the cost of a wander, the gain
/// of a meal, or nothing) and by the cost of its fawn, and by nothing
/// else; it is in the herd after the tick if and only if that leaves it
/// happiness above zero.
pub proof fn lemma_tick_conserves(
    w: Scene,
    dt: int,
    deer_config: Config,
    plant_config: PlantConfig,
    chance: Chance,
    i: int,
)
    requires
        herd_wf(w),
        0 <= i < w.deer.len(),
    ensures
        ({
            let h = w.deer[i].handle;
            let after = advanced(w, dt, deer_config, plant_config, chance).deer;
            let happiness = happiness_after(w, dt, deer_config, chance, i);
            &&& live(after, h) <==> happiness > 0
            &&& live(after, h) ==> after[index_of(after, h)].item.happiness == happiness
        }),
{
    let n = w.deer.len();
    let e = w.deer[i];
    let h = e.handle;
    let moved = roamed(w.deer, w.plants, deer_config, dt, chance.wander, n).0;
    let left = roamed(w.deer, w.plants, deer_config, dt, chance.wander, i as nat).1;
    lemma_herd_frame(w.deer, w.plants, deer_config, dt, chance.wander, n);
    lemma_herd_turn(w.deer, w.plants, deer_config, dt, chance.wander, n, i);
    lemma_step_happiness(e.pose, e.item, left, deer_config, dt, chance.wander[i]);
    assert forall|a: int, b: int| 0 <= a < b < moved.len() implies (#[trigger] moved[a]).handle.id
        < (#[trigger] moved[b]).handle.id by {
        assert(moved[a].handle == w.deer[a].handle);
        assert(moved[b].handle == w.deer[b].handle);
    }
    assert forall|j: int| 0 <= j < moved.len() implies (#[trigger] moved[j]).handle.id
        < w.deer_issued by {
        assert(moved[j].handle == w.deer[j].handle);
    }
    lemma_survivor(moved, deer_config, n, i);
    lemma_populated(moved, w.deer_issued, deer_config, chance.seed, h);
}

/// A deer that is in the herd after a tick and was not in it before has
/// just entered: it searches, with the happiness with which deer enter.
pub proof fn lemma_tick_newcomers(
    w: Scene,
    dt: int,
    deer_config: Config,
    plant_config: PlantConfig,
    chance: Chance,
    k: int,
)
    requires
        herd_wf(w),
        w.deer_issued <= u64::MAX,
        0 <= k < advanced(w, dt, deer_config, plant_config, chance).deer.len(),
        !live(w.deer, advanced(w, dt, deer_config, plant_config, chance).deer[k].handle),
    ensures
        advanced(w, dt, deer_config, plant_config, chance).deer[k].item == State::fresh(
            deer_config,
        ),
{
    let n = w.deer.len();
    let after = advanced(w, dt, deer_config, plant_config, chance).deer;
    let moved = roamed(w.deer, w.plants, deer_config, dt, chance.wander, n).0;
    lemma_herd_frame(w.deer, w.plants, deer_config, dt, chance.wander, n);
    if n > 0 {
        let left = survivors(moved, deer_config, n);
        lemma_inserted_each(
            left,
            w.deer_issued,
            fawns(moved, deer_config, n),
            State::fresh(deer_config),
        );
        if k < left.len() {
            lemma_survivors_from(moved, deer_config, n, k);
            let j = choose|j: int| 0 <= j < n && left[k].handle == (#[trigger] moved[j]).handle;
            assert(after[k] == left[k]);
            assert(w.deer[j].handle == after[k].handle);
        }
    }
}

/// Plants never leave the area: where every plant stood within the area of
/// the configuration before a tick, every plant stands within it after.
/// Deer take plants out at most, and propagation sets none outside.
pub proof fn lemma_tick_keeps_area(
    w: Scene,
    dt: int,
    deer_config: Config,
    plant_config: PlantConfig,
    chance: Chance,
)
    requires
        plant_config.wf(),
        all_within(w.plants, plant_config.spawn_area as int),
    ensures
        all_within(
            advanced(w, dt, deer_config, plant_config, chance).plants,
            plant_config.spawn_area as int,
        ),
{
    let (moved, grazed) = roamed(w.deer, w.plants, deer_config, dt, chance.wander, w.deer.len());
    lemma_herd_keeps_area(
        w.deer,
        w.plants,
        deer_config,
        dt,
        chance.wander,
        w.deer.len(),
        plant_config.spawn_area as int,
    );
    if w.growth.fires(dt) {
        lemma_round_keeps_area(grazed, w.plants_issued, chance.plants, plant_config);
    }
}

/// The sum of the changes.
pub open spec fn total(changes: Seq<int>) -> int
    decreases changes.len(),
{
    if changes.len() == 0 {
        0
    } else {
        total(changes.drop_last()) + changes.last()
    }
}

/// Happiness is conserved: where each value of a trace comes from the one
/// before it by one of the changes, and the sums stay within the range of
/// a happiness, the last value is the first plus the sum of the changes.
pub proof fn lemma_happiness_trace(trace: Seq<int>, changes: Seq<int>)
    requires
        trace.len() == changes.len() + 1,
        forall|k: int|
            0 <= k < changes.len() ==> #[trigger] trace[k + 1] == bounded(trace[k] + changes[k]),
        forall|k: int|
            0 <= k <= changes.len() ==> i64::MIN <= trace[0] + #[trigger] total(changes.take(k))
                <= i64::MAX,
    ensures
        trace.last() == trace[0] + total(changes),
    decreases changes.len(),
{
    if changes.len() == 0 {
    } else {
        let n = changes.len() as int;
        let head = changes.drop_last();
        assert forall|k: int| 0 <= k <= head.len() implies i64::MIN <= trace[0] + #[trigger] total(
            head.take(k),
        ) <= i64::MAX by {
            assert(head.take(k) == changes.take(k));
        }
        assert forall|k: int| 0 <= k < head.len() implies #[trigger] trace.drop_last()[k + 1]
            == bounded(trace.drop_last()[k] + head[k]) by {
            assert(trace[k + 1] == bounded(trace[k] + changes[k]));
        }
        lemma_happiness_trace(trace.drop_last(), head);
        assert(trace.drop_last().last() == trace[n - 1]);
        assert(trace[n - 1 + 1] == bounded(trace[n - 1] + changes[n - 1]));
        assert(changes.take(n) == changes);
        assert(trace[n - 1] + changes[n - 1] == trace[0] + total(changes));
    }
}

} // verus!
