//! The pass over the herd: every deer has its turn, in iteration order.
//!
//! The deer share the plants. A plant that one deer eats is gone for the
//! deer that come after it in the same pass, so which of two deer at one
//! plant eats it is decided by their order in the store and by nothing
//! else.

use vstd::prelude::*;
use crate::deer::lemma_step_keeps_area;
use crate::deer::step;
use crate::deer::Config;
use crate::deer::State;
use crate::geometry::Position;
use crate::plant::PlantTag;
use crate::store::all_within;
use crate::store::Entry;
use crate::store::Pose;
use crate::store::Store;

verus! {

/// Every deer of the herd is in a well-formed state.
pub open spec fn sound(deer: Seq<Entry<State>>) -> bool {
    forall|i: int| 0 <= i < deer.len() ==> (#[trigger] deer[i]).item.wf()
}

/// Every point of `draws` lies within the world.
pub open spec fn all_in_bounds(draws: Seq<Position>) -> bool {
    forall|i: int| 0 <= i < draws.len() ==> (#[trigger] draws[i]).in_bounds()
}

/// What one tick makes of the herd and of the plants once the first `n`
/// deer have had their turn, in iteration order, each on the draw at its
/// own place in `draws`. A plant that one deer eats is gone for the deer
/// that come after it.
pub open spec fn roamed(
    deer: Seq<Entry<State>>,
    plants: Seq<Entry<PlantTag>>,
    config: Config,
    dt: int,
    draws: Seq<Position>,
    n: nat,
) -> (Seq<Entry<State>>, Seq<Entry<PlantTag>>)
    decreases n,
{
    if n == 0 {
        (deer, plants)
    } else {
        let (d, p) = roamed(deer, plants, config, dt, draws, (n - 1) as nat);
        let e = d[n - 1];
        let (pose, state, rest) = step(e.pose, e.item, p, config, dt, draws[n - 1]);
        (d.update(n - 1, Entry { handle: e.handle, pose, item: state }), rest)
    }
}

/// The pass over the herd: one tick of length `dt` microseconds for every
/// deer in iteration order, each on the draw at its own place in `draws`.
pub fn deer_ai_with(
    deer: &mut Store<State>,
    plants: &mut Store<PlantTag>,
    config: &Config,
    dt: u32,
    draws: &Vec<Position>,
)
    requires
        old(deer).wf(),
        sound(old(deer)@),
        old(plants).wf(),
        draws@.len() >= old(deer)@.len(),
        all_in_bounds(draws@),
    ensures
        final(deer).wf(),
        sound(final(deer)@),
        final(plants).wf(),
        (final(deer)@, final(plants)@) == roamed(
            old(deer)@,
            old(plants)@,
            *config,
            dt as int,
            draws@,
            old(deer)@.len(),
        ),
        final(deer).issued() == old(deer).issued(),
        final(plants).issued() == old(plants).issued(),
{
    let n: usize = deer.len();
    let mut i: usize = 0;
    while i < n
        invariant
            0 <= i <= n,
            n == deer@.len(),
            n == old(deer)@.len(),
            draws@.len() >= n,
            all_in_bounds(draws@),
            deer.wf(),
            sound(deer@),
            plants.wf(),
            (deer@, plants@) == roamed(old(deer)@, old(plants)@, *config, dt as int, draws@, i as nat),
            deer.issued() == old(deer).issued(),
            plants.issued() == old(plants).issued(),
        decreases n - i,
    {
        let entry = deer.entry(i);
        let mut pose: Pose = entry.pose;
        let mut state: State = entry.item;
        assert(deer@[i as int].pose.wf());
        assert(deer@[i as int].item.wf());
        assert(draws@[i as int].in_bounds());
        let ghost before = deer@;
        state.step(&mut pose, plants, config, dt, &draws[i]);
        deer.update(i, pose, state);
        assert forall|k: int| 0 <= k < deer@.len() implies (#[trigger] deer@[k]).item.wf() by {
            if k != i {
                assert(deer@[k] == before[k]);
            }
        }
        i = i + 1;
    }
}

impl Config {
    /// Whether `draws` holds `n` points that chance can give.
    pub open spec fn covers_all(self, draws: Seq<Position>, n: nat) -> bool {
        &&& draws.len() == n
        &&& forall|i: int| 0 <= i < n ==> self.covers(#[trigger] draws[i])
    }

    /// `n` points drawn from the area.
    pub fn positions(&self, n: usize) -> (r: Vec<Position>)
        requires
            self.wf(),
        ensures
            self.covers_all(r@, n as nat),
            all_in_bounds(r@),
    {
        let mut r: Vec<Position> = Vec::new();
        let mut i: usize = 0;
        while i < n
            invariant
                0 <= i <= n,
                self.wf(),
                self.covers_all(r@, i as nat),
                all_in_bounds(r@),
            decreases n - i,
        {
            let p = self.get_pos();
            r.push(p);
            i = i + 1;
        }
        r
    }
}

/// The pass over the herd on draws of its own. What comes of it is what
/// `deer_ai_with` makes of some points of the area, one for each deer.
pub fn deer_ai(deer: &mut Store<State>, plants: &mut Store<PlantTag>, config: &Config, dt: u32)
    requires
        old(deer).wf(),
        sound(old(deer)@),
        old(plants).wf(),
        config.wf(),
    ensures
        final(deer).wf(),
        sound(final(deer)@),
        final(plants).wf(),
        exists|draws: Seq<Position>|
            {
                &&& #[trigger] config.covers_all(draws, old(deer)@.len())
                &&& (final(deer)@, final(plants)@) == roamed(
                    old(deer)@,
                    old(plants)@,
                    *config,
                    dt as int,
                    draws,
                    old(deer)@.len(),
                )
            },
        final(deer).issued() == old(deer).issued(),
        final(plants).issued() == old(plants).issued(),
{
    let draws: Vec<Position> = config.positions(deer.len());
    deer_ai_with(deer, plants, config, dt, &draws);
    assert(config.covers_all(draws@, old(deer)@.len()));
}

/// The pass over the herd takes plants out of the store at most: it
/// leaves no more plants than it found, and where they all stood within an
/// area, those that are left still do.
pub proof fn lemma_herd_keeps_area(
    deer: Seq<Entry<State>>,
    plants: Seq<Entry<PlantTag>>,
    config: Config,
    dt: int,
    draws: Seq<Position>,
    n: nat,
    area: int,
)
    ensures
        roamed(deer, plants, config, dt, draws, n).1.len() <= plants.len(),
        all_within(plants, area) ==> all_within(
            roamed(deer, plants, config, dt, draws, n).1,
            area,
        ),
    decreases n,
{
    if n > 0 {
        lemma_herd_keeps_area(deer, plants, config, dt, draws, (n - 1) as nat, area);
        let (d, p) = roamed(deer, plants, config, dt, draws, (n - 1) as nat);
        let e = d[n - 1];
        lemma_step_keeps_area(e.pose, e.item, p, config, dt, draws[n - 1], area);
    }
}

/// The pass changes no handle and no count, and leaves the deer that have
/// not had their turn as they were.
pub proof fn lemma_herd_frame(
    deer: Seq<Entry<State>>,
    plants: Seq<Entry<PlantTag>>,
    config: Config,
    dt: int,
    draws: Seq<Position>,
    n: nat,
)
    requires
        n <= deer.len(),
    ensures
        roamed(deer, plants, config, dt, draws, n).0.len() == deer.len(),
        forall|j: int|
            n <= j < deer.len() ==> #[trigger] roamed(deer, plants, config, dt, draws, n).0[j]
                == deer[j],
        forall|j: int|
            0 <= j < deer.len() ==> (#[trigger] roamed(
                deer,
                plants,
                config,
                dt,
                draws,
                n,
            ).0[j]).handle == deer[j].handle,
    decreases n,
{
    if n > 0 {
        lemma_herd_frame(deer, plants, config, dt, draws, (n - 1) as nat);
    }
}

/// What the pass makes of the `i`-th deer is what the deer's own tick makes
/// of it, on the plants that the deer before it have left.
pub proof fn lemma_herd_turn(
    deer: Seq<Entry<State>>,
    plants: Seq<Entry<PlantTag>>,
    config: Config,
    dt: int,
    draws: Seq<Position>,
    n: nat,
    i: int,
)
    requires
        0 <= i < n <= deer.len(),
    ensures
        ({
            let left = roamed(deer, plants, config, dt, draws, i as nat).1;
            let (pose, state, rest) = step(deer[i].pose, deer[i].item, left, config, dt, draws[i]);
            roamed(deer, plants, config, dt, draws, n).0[i] == (Entry {
                handle: deer[i].handle,
                pose,
                item: state,
            })
        }),
    decreases n,
{
    lemma_herd_frame(deer, plants, config, dt, draws, (n - 1) as nat);
    if i < n - 1 {
        lemma_herd_turn(deer, plants, config, dt, draws, (n - 1) as nat, i);
    }
}

} // verus!
