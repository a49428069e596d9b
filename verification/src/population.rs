//! The population controller: happy deer have fawns, deer that are out of
//! happiness leave, and an empty herd gets one deer.

use vstd::prelude::*;
use crate::deer::bounded;
use crate::deer::Config;
use crate::deer::Deer;
use crate::deer::State;
use crate::geometry::Position;
use crate::herd::sound;
use crate::store::index_of;
use crate::store::inserted_each;
use crate::store::lemma_index_of;
use crate::store::lemma_inserted_each;
use crate::store::live;
use crate::store::ordered;
use crate::store::Entry;
use crate::store::Handle;
use crate::store::Pose;
use crate::store::Store;

verus! {

/// A state after the deer has had its fawn, if it is happy enough for one:
/// less happy by what a fawn costs.
pub open spec fn bred(state: State, config: Config) -> State {
    if state.happiness >= config.spawn_rate {
        State {
            happiness: bounded(state.happiness - config.spawn_cost) as i64,
            objective: state.objective,
        }
    } else {
        state
    }
}

/// Those of the first `n` deer that are left once each has had its fawn:
/// the ones that still have happiness above zero, in their order.
pub open spec fn survivors(deer: Seq<Entry<State>>, config: Config, n: nat) -> Seq<Entry<State>>
    decreases n,
{
    if n == 0 {
        Seq::empty()
    } else {
        let rest = survivors(deer, config, (n - 1) as nat);
        let e = deer[n - 1];
        let state = bred(e.item, config);
        if state.happiness <= 0 {
            rest
        } else {
            rest.push(Entry { handle: e.handle, pose: e.pose, item: state })
        }
    }
}

/// The poses of the fawns of the first `n` deer, in the order of their
/// parents: one for each deer that is happy enough.
pub open spec fn fawns(deer: Seq<Entry<State>>, config: Config, n: nat) -> Seq<Pose>
    decreases n,
{
    if n == 0 {
        Seq::empty()
    } else {
        let rest = fawns(deer, config, (n - 1) as nat);
        let e = deer[n - 1];
        if e.item.happiness >= config.spawn_rate {
            rest.push(Deer::fawn(e.pose.position).placed())
        } else {
            rest
        }
    }
}

/// The herd after the population controller has run. With no deer, one
/// enters at `seed`. Else every deer that is happy enough has a fawn and
/// pays for it, every deer that is then out of happiness leaves, and the
/// fawns enter behind the deer that are left.
pub open spec fn populated(deer: Seq<Entry<State>>, issued: nat, config: Config, seed: Position) -> (
    Seq<Entry<State>>,
    nat,
) {
    if deer.len() == 0 {
        Store::<State>::inserted(
            deer,
            issued,
            (Deer { x: seed.x, y: seed.y }).placed(),
            State::fresh(config),
        )
    } else {
        inserted_each(
            survivors(deer, config, deer.len()),
            issued,
            fawns(deer, config, deer.len()),
            State::fresh(config),
        )
    }
}

/// What the population controller adds to a deer's happiness: the cost of
/// a fawn where the deer is happy enough for one.
pub open spec fn birth_change(state: State, config: Config) -> int {
    if state.happiness >= config.spawn_rate {
        -config.spawn_cost
    } else {
        0
    }
}

fn sub_happiness(h: i64, cost: i64) -> (r: i64)
    ensures
        r == bounded(h - cost),
{
    let rest: i128 = h as i128 - cost as i128;
    if rest < i64::MIN as i128 {
        i64::MIN
    } else if rest > i64::MAX as i128 {
        i64::MAX
    } else {
        rest as i64
    }
}

/// The population controller, with `seed` as the place of the deer that
/// enters where there is none.
pub fn spawn_with(deer: &mut Store<State>, config: &Config, seed: &Position)
    requires
        old(deer).wf(),
        sound(old(deer)@),
        seed.in_bounds(),
    ensures
        final(deer).wf(),
        sound(final(deer)@),
        (final(deer)@, final(deer).issued()) == populated(
            old(deer)@,
            old(deer).issued(),
            *config,
            *seed,
        ),
{
    let n: usize = deer.len();
    if n == 0 {
        let first = Deer::at(seed);
        let _ = deer.insert(first.pose(), State::new(config));
        return;
    }
    let mut new_deer: Vec<Pose> = Vec::new();
    let mut i: usize = 0;
    let mut k: usize = 0;
    assert(deer@ == survivors(old(deer)@, *config, 0) + old(deer)@.skip(0));
    while k < n
        invariant
            0 <= k <= n,
            n == old(deer)@.len(),
            old(deer).wf(),
            sound(old(deer)@),
            deer.wf(),
            deer.issued() == old(deer).issued(),
            i <= k,
            i == survivors(old(deer)@, *config, k as nat).len(),
            deer@ == survivors(old(deer)@, *config, k as nat) + old(deer)@.skip(k as int),
            new_deer@ == fawns(old(deer)@, *config, k as nat),
            forall|j: int| 0 <= j < new_deer@.len() ==> (#[trigger] new_deer@[j]).wf(),
        decreases n - k,
    {
        let ghost kept = survivors(old(deer)@, *config, k as nat);
        let ghost before = deer@;
        assert(before[i as int] == old(deer)@[k as int]);
        let entry = deer.entry(i);
        let pose: Pose = entry.pose;
        let mut state: State = entry.item;
        if state.happy(config) {
            let fawn = Deer::spawn(&pose);
            new_deer.push(fawn.pose());
            state.happiness = sub_happiness(state.happiness, config.spawn_cost);
        }
        assert(state == bred(old(deer)@[k as int].item, *config));
        if state.starving() {
            let _ = deer.remove_at(i);
            assert(deer@ == kept + old(deer)@.skip(k + 1));
        } else {
            assert(before[i as int].pose.wf());
            deer.update(i, pose, state);
            assert(deer@ == kept.push(
                Entry { handle: old(deer)@[k as int].handle, pose, item: state },
            ) + old(deer)@.skip(k + 1));
            i = i + 1;
        }
        k = k + 1;
    }
    assert(deer@ == survivors(old(deer)@, *config, n as nat));
    proof {
        lemma_survivors(old(deer)@, *config, n as nat);
        lemma_inserted_each(deer@, deer.issued(), new_deer@, State::fresh(*config));
    }
    let ghost left = deer@;
    deer.insert_each(&new_deer, State::new(config));
    assert forall|j: int| 0 <= j < deer@.len() implies (#[trigger] deer@[j]).item.wf() by {
        if j < left.len() {
            assert(deer@[j] == left[j]);
        }
    }
}

/// The population controller on a draw of its own. What comes of it is
/// what `spawn_with` makes of some point of the area.
pub fn spawn(deer: &mut Store<State>, config: &Config)
    requires
        old(deer).wf(),
        sound(old(deer)@),
        config.wf(),
    ensures
        final(deer).wf(),
        sound(final(deer)@),
        exists|seed: Position| #[trigger]
            config.covers(seed) && (final(deer)@, final(deer).issued()) == populated(
                old(deer)@,
                old(deer).issued(),
                *config,
                seed,
            ),
{
    if deer.is_empty() {
        let first = Deer::new(config);
        let seed = Position { x: first.x, y: first.y };
        spawn_with(deer, config, &seed);
        assert(config.covers(seed));
    } else {
        let seed = Position::origin();
        spawn_with(deer, config, &seed);
        assert(config.covers(seed));
    }
}

/// No more deer are left than there were, each of them with happiness
/// above zero and in a well-formed state, and no deer has more than one
/// fawn.
pub proof fn lemma_survivors(deer: Seq<Entry<State>>, config: Config, n: nat)
    requires
        n <= deer.len(),
        sound(deer),
    ensures
        survivors(deer, config, n).len() <= n,
        fawns(deer, config, n).len() <= n,
        sound(survivors(deer, config, n)),
        forall|i: int|
            0 <= i < survivors(deer, config, n).len() ==> (#[trigger] survivors(
                deer,
                config,
                n,
            )[i]).item.happiness > 0,
    decreases n,
{
    if n > 0 {
        lemma_survivors(deer, config, (n - 1) as nat);
        assert(deer[n - 1].item.wf());
    }
}

/// The population controller changes the happiness of a deer that stays by
/// `birth_change`, and a deer enters the herd with the happiness that the
/// configuration gives.
pub proof fn lemma_bred_happiness(state: State, config: Config)
    ensures
        bred(state, config).happiness == bounded(state.happiness + birth_change(state, config)),
        bred(state, config).objective == state.objective,
        State::fresh(config).happiness == config.spawn_happiness,
{
}

/// The deer that are left stand in the order in which they stood, under
/// handles that the first `n` deer bore.
pub proof fn lemma_survivors_ordered(deer: Seq<Entry<State>>, config: Config, n: nat)
    requires
        ordered(deer),
        n <= deer.len(),
    ensures
        ordered(survivors(deer, config, n)),
        forall|k: int|
            0 <= k < survivors(deer, config, n).len() ==> n > 0 && (#[trigger] survivors(
                deer,
                config,
                n,
            )[k]).handle.id <= deer[n - 1].handle.id,
    decreases n,
{
    if n > 0 {
        lemma_survivors_ordered(deer, config, (n - 1) as nat);
        let rest = survivors(deer, config, (n - 1) as nat);
        let s = survivors(deer, config, n);
        assert forall|k: int| 0 <= k < rest.len() implies (#[trigger] rest[k]).handle.id < deer[n
            - 1].handle.id by {
            assert(rest[k].handle.id <= deer[n - 2].handle.id);
            assert(deer[n - 2].handle.id < deer[n - 1].handle.id);
        }
        assert forall|a: int, b: int| 0 <= a < b < s.len() implies (#[trigger] s[a]).handle.id < (
        #[trigger] s[b]).handle.id by {
            if b < rest.len() {
                assert(s[a] == rest[a]);
                assert(s[b] == rest[b]);
            } else {
                assert(s[a] == rest[a]);
            }
        }
        assert forall|k: int| 0 <= k < s.len() implies (#[trigger] s[k]).handle.id <= deer[n
            - 1].handle.id by {
            if k < rest.len() {
                assert(s[k] == rest[k]);
            }
        }
    }
}

/// Every deer that is left was one of the first `n`.
pub proof fn lemma_survivors_from(deer: Seq<Entry<State>>, config: Config, n: nat, k: int)
    requires
        n <= deer.len(),
        0 <= k < survivors(deer, config, n).len(),
    ensures
        exists|j: int| 0 <= j < n && survivors(deer, config, n)[k].handle == (#[trigger] deer[j]).handle,
    decreases n,
{
    if n > 0 {
        let rest = survivors(deer, config, (n - 1) as nat);
        if k < rest.len() {
            lemma_survivors_from(deer, config, (n - 1) as nat, k);
            let j = choose|j: int| 0 <= j < n - 1 && rest[k].handle == (#[trigger] deer[j]).handle;
            assert(survivors(deer, config, n)[k] == rest[k]);
            assert(0 <= j < n && survivors(deer, config, n)[k].handle == deer[j].handle);
        } else {
            assert(survivors(deer, config, n)[k].handle == deer[n - 1].handle);
        }
    }
}

/// Whether the `j`-th deer is left once the population controller has run,
/// and what is left of it: the deer stays if it has happiness above zero
/// after its fawn, with its handle and its pose.
pub proof fn lemma_survivor(deer: Seq<Entry<State>>, config: Config, n: nat, j: int)
    requires
        ordered(deer),
        0 <= j < n <= deer.len(),
    ensures
        ({
            let e = deer[j];
            let state = bred(e.item, config);
            let left = survivors(deer, config, n);
            &&& state.happiness > 0 ==> live(left, e.handle) && left[index_of(left, e.handle)] == (
            Entry { handle: e.handle, pose: e.pose, item: state })
            &&& state.happiness <= 0 ==> !live(left, e.handle)
        }),
    decreases n,
{
    let e = deer[j];
    let state = bred(e.item, config);
    let left = survivors(deer, config, n);
    let rest = survivors(deer, config, (n - 1) as nat);
    lemma_survivors_ordered(deer, config, n);
    lemma_survivors_ordered(deer, config, (n - 1) as nat);
    if j == n - 1 {
        if state.happiness > 0 {
            assert(left[rest.len() as int].handle == e.handle);
            lemma_index_of(left, e.handle, rest.len() as int);
        } else {
            if live(left, e.handle) {
                let k = index_of(left, e.handle);
                assert(left[k].handle.id <= deer[n - 2].handle.id);
                assert(deer[n - 2].handle.id < deer[n - 1].handle.id);
            }
        }
    } else {
        lemma_survivor(deer, config, (n - 1) as nat, j);
        assert(deer[j].handle.id < deer[n - 1].handle.id);
        if state.happiness > 0 {
            let k = index_of(rest, e.handle);
            assert(0 <= k < rest.len() && rest[k].handle == e.handle);
            assert(left[k] == rest[k]);
            lemma_index_of(left, e.handle, k);
        } else {
            if live(left, e.handle) {
                let k = index_of(left, e.handle);
                assert(0 <= k < left.len() && left[k].handle == e.handle);
                if k < rest.len() {
                    assert(left[k] == rest[k]);
                    assert(rest[k].handle == e.handle);
                }
            }
        }
    }
}

/// What the population controller makes of a herd that is not empty: a
/// deer that was in the herd is in it afterwards just where it is left, and
/// as it is left; every other deer is a fawn in the state with which deer
/// enter.
pub proof fn lemma_populated(
    deer: Seq<Entry<State>>,
    issued: nat,
    config: Config,
    seed: Position,
    h: Handle,
)
    requires
        ordered(deer),
        deer.len() > 0,
        forall|j: int| 0 <= j < deer.len() ==> (#[trigger] deer[j]).handle.id < issued,
        h.id < issued,
    ensures
        ({
            let left = survivors(deer, config, deer.len());
            let after = populated(deer, issued, config, seed).0;
            &&& live(after, h) <==> live(left, h)
            &&& live(left, h) ==> after[index_of(after, h)] == left[index_of(left, h)]
            &&& forall|k: int|
                left.len() <= k < after.len() ==> (#[trigger] after[k]).item == State::fresh(
                    config,
                ) && after[k].handle.id >= issued
        }),
{
    let left = survivors(deer, config, deer.len());
    let after = populated(deer, issued, config, seed).0;
    lemma_survivors_ordered(deer, config, deer.len());
    lemma_inserted_each(left, issued, fawns(deer, config, deer.len()), State::fresh(config));
    if live(left, h) {
        let k = index_of(left, h);
        assert(0 <= k < left.len() && left[k].handle == h);
        assert(after[k] == left[k]);
        assert(live(after, h));
    }
    if live(after, h) {
        let k = index_of(after, h);
        assert(0 <= k < after.len() && after[k].handle == h);
        if k >= left.len() {
            assert(after[k].handle.id == issued + (k - left.len()));
        }
        assert(after[k] == left[k]);
        lemma_index_of(left, h, k);
    }
}

} // verus!
