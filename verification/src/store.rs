//! The spatial entity store: live entities under handles that are never
//! issued twice, each with a pose, walked in the order in which they came.

use vstd::prelude::*;
use crate::geometry::Direction;
use crate::geometry::Position;

verus! {

/// The key under which a store holds an entity.
#[derive(Clone, Copy, Debug, PartialEq, Eq, Structural)]
pub struct Handle {
    pub id: u64,
}

/// Where an entity stands and which way it faces.
#[derive(Clone, Copy, Debug, PartialEq, Eq, Structural)]
pub struct Pose {
    pub position: Position,
    pub facing: Direction,
}

/// One live entity.
#[derive(Debug)]
pub struct Entry<T> {
    pub handle: Handle,
    pub pose: Pose,
    pub item: T,
}

/// The entities of one kind. Its view is the sequence of its entries in
/// iteration order, which is the order of insertion.
#[derive(Debug)]
pub struct Store<T> {
    entries: Vec<Entry<T>>,
    issued: u64,
}

/// Handles grow along the sequence, so none occurs twice.
pub open spec fn ordered<T>(s: Seq<Entry<T>>) -> bool {
    forall|i: int, j: int| 0 <= i < j < s.len() ==> (#[trigger] s[i]).handle.id < (#[trigger] s[j]).handle.id
}

/// Whether `s` holds an entry under `h`.
pub open spec fn live<T>(s: Seq<Entry<T>>, h: Handle) -> bool {
    exists|i: int| 0 <= i < s.len() && (#[trigger] s[i]).handle == h
}

/// Where in `s` the entry under `h` stands.
pub open spec fn index_of<T>(s: Seq<Entry<T>>, h: Handle) -> int {
    choose|i: int| 0 <= i < s.len() && (#[trigger] s[i]).handle == h
}

/// `s` with the entry under `h` taken out, the others in their order.
pub open spec fn without<T>(s: Seq<Entry<T>>, h: Handle) -> Seq<Entry<T>> {
    if live(s, h) {
        s.remove(index_of(s, h))
    } else {
        s
    }
}

/// The squared distance from the `i`-th entry of `s` to `p`.
pub open spec fn gap<T>(s: Seq<Entry<T>>, p: Position, i: int) -> int {
    s[i].pose.position.dist2(p)
}

/// The `i`-th entry of `s` lies within `r2` of `p` (squared), none lies
/// nearer, and none before it lies as near.
pub open spec fn is_nearest<T>(s: Seq<Entry<T>>, p: Position, r2: int, i: int) -> bool {
    &&& 0 <= i < s.len()
    &&& gap(s, p, i) <= r2
    &&& forall|j: int| 0 <= j < s.len() ==> #[trigger] gap(s, p, j) >= gap(s, p, i)
    &&& forall|j: int| 0 <= j < i ==> #[trigger] gap(s, p, j) > gap(s, p, i)
}

/// The handle of the entry nearest to `p` among those within `r2` (squared
/// distance), the first in order among equals; none where no entry is that
/// near.
pub open spec fn nearest<T>(s: Seq<Entry<T>>, p: Position, r2: int) -> Option<Handle> {
    if exists|i: int| is_nearest(s, p, r2, i) {
        Some(s[choose|i: int| is_nearest(s, p, r2, i)].handle)
    } else {
        None
    }
}

/// In an ordered sequence a handle stands at one place only.
pub proof fn lemma_index_of<T>(s: Seq<Entry<T>>, h: Handle, i: int)
    requires
        ordered(s),
        0 <= i < s.len(),
        s[i].handle == h,
    ensures
        live(s, h),
        index_of(s, h) == i,
{
    let k = index_of(s, h);
    assert(0 <= k < s.len() && s[k].handle == h);
    if k < i {
        assert(s[k].handle.id < s[i].handle.id);
    } else if i < k {
        assert(s[i].handle.id < s[k].handle.id);
    }
}

/// The entry that `is_nearest` singles out is the one that `nearest` names.
pub proof fn lemma_nearest_found<T>(s: Seq<Entry<T>>, p: Position, r2: int, i: int)
    requires
        is_nearest(s, p, r2, i),
    ensures
        nearest(s, p, r2) == Some(s[i].handle),
{
    let k = choose|k: int| is_nearest(s, p, r2, k);
    assert(is_nearest(s, p, r2, k));
    assert(gap(s, p, k) >= gap(s, p, i));
    assert(gap(s, p, i) >= gap(s, p, k));
    if k < i {
        assert(gap(s, p, k) > gap(s, p, i));
    } else if i < k {
        assert(gap(s, p, i) > gap(s, p, k));
    }
}

/// Where every entry lies farther than `r2`, `nearest` names none.
pub proof fn lemma_nearest_none<T>(s: Seq<Entry<T>>, p: Position, r2: int)
    requires
        forall|j: int| 0 <= j < s.len() ==> #[trigger] gap(s, p, j) > r2,
    ensures
        nearest(s, p, r2) is None,
{
    if exists|i: int| is_nearest(s, p, r2, i) {
        let k = choose|k: int| is_nearest(s, p, r2, k);
        assert(gap(s, p, k) > r2);
    }
}

/// Taking an entry out of an ordered sequence leaves it ordered, with the
/// handle gone and every other handle where it was found before.
pub proof fn lemma_without<T>(s: Seq<Entry<T>>, h: Handle)
    requires
        ordered(s),
    ensures
        ordered(without(s, h)),
        !live(without(s, h), h),
        forall|g: Handle| g != h ==> (live(without(s, h), g) <==> live(s, g)),
        without(s, h).len() == if live(s, h) {
            s.len() - 1
        } else {
            s.len() as int
        },
{
    let t = without(s, h);
    if live(s, h) {
        let k = index_of(s, h);
        assert(0 <= k < s.len() && s[k].handle == h);
        assert forall|i: int, j: int| 0 <= i < j < t.len() implies (#[trigger] t[i]).handle.id < (
        #[trigger] t[j]).handle.id by {
            let si = if i < k {
                i
            } else {
                i + 1
            };
            let sj = if j < k {
                j
            } else {
                j + 1
            };
            assert(t[i] == s[si]);
            assert(t[j] == s[sj]);
        }
        if live(t, h) {
            let i = index_of(t, h);
            assert(0 <= i < t.len() && t[i].handle == h);
            let si = if i < k {
                i
            } else {
                i + 1
            };
            assert(t[i] == s[si]);
            lemma_index_of(s, h, si);
        }
        assert forall|g: Handle| g != h implies (live(t, g) <==> live(s, g)) by {
            if live(t, g) {
                let i = index_of(t, g);
                assert(0 <= i < t.len() && t[i].handle == g);
                let si = if i < k {
                    i
                } else {
                    i + 1
                };
                assert(t[i] == s[si]);
                assert(s[si].handle == g);
            }
            if live(s, g) {
                let i = index_of(s, g);
                assert(0 <= i < s.len() && s[i].handle == g);
                let ti = if i < k {
                    i
                } else {
                    i - 1
                };
                assert(t[ti] == s[i]);
                assert(t[ti].handle == g);
            }
        }
    }
}

/// Every entry of `s` stands no farther than `area` from the origin on
/// either axis.
pub open spec fn all_within<T>(s: Seq<Entry<T>>, area: int) -> bool {
    forall|i: int| 0 <= i < s.len() ==> (#[trigger] s[i]).pose.position.reach() <= area
}

/// `s` after `insert` of one entity at each of the poses, in their order,
/// each with the same item.
pub open spec fn inserted_each<T>(s: Seq<Entry<T>>, issued: nat, poses: Seq<Pose>, item: T) -> (
    Seq<Entry<T>>,
    nat,
)
    decreases poses.len(),
{
    if poses.len() == 0 {
        (s, issued)
    } else {
        let (t, n) = inserted_each(s, issued, poses.drop_last(), item);
        Store::<T>::inserted(t, n, poses.last(), item)
    }
}

/// What `inserted_each` leaves as it was and what it adds: the old entries
/// stay in front, and behind them stand the new ones, pose by pose, under
/// the handles that come next. All of them enter where handles last, and
/// else as many as there are handles left.
pub proof fn lemma_inserted_each<T>(s: Seq<Entry<T>>, issued: nat, poses: Seq<Pose>, item: T)
    ensures
        ({
            let (t, n) = inserted_each(s, issued, poses, item);
            &&& s.len() <= t.len() <= s.len() + poses.len()
            &&& n == issued + (t.len() - s.len())
            &&& (n < u64::MAX || issued + poses.len() <= u64::MAX) ==> t.len() == s.len()
                + poses.len()
            &&& issued <= u64::MAX ==> n <= u64::MAX
            &&& issued <= u64::MAX && issued + poses.len() > u64::MAX ==> n == u64::MAX
            &&& forall|i: int| 0 <= i < s.len() ==> #[trigger] t[i] == s[i]
            &&& forall|i: int|
                s.len() <= i < t.len() ==> {
                    &&& (#[trigger] t[i]).handle.id == issued + (i - s.len())
                    &&& t[i].pose == poses[i - s.len()]
                    &&& t[i].item == item
                }
        }),
    decreases poses.len(),
{
    if poses.len() > 0 {
        lemma_inserted_each(s, issued, poses.drop_last(), item);
        let (t0, n0) = inserted_each(s, issued, poses.drop_last(), item);
        let (t, n) = inserted_each(s, issued, poses, item);
        assert((t, n) == Store::<T>::inserted(t0, n0, poses.last(), item));
        assert forall|i: int| s.len() <= i < t.len() implies {
            &&& (#[trigger] t[i]).handle.id == issued + (i - s.len())
            &&& t[i].pose == poses[i - s.len()]
            &&& t[i].item == item
        } by {
            if i < t0.len() {
                assert(t[i] == t0[i]);
                assert(poses.drop_last()[i - s.len()] == poses[i - s.len()]);
            }
        }
    }
}

impl Pose {
    /// Whether the pose lies within the world and its heading is no longer
    /// than a unit.
    pub open spec fn wf(self) -> bool {
        &&& self.position.in_bounds()
        &&& self.facing.wf()
    }

    /// The pose at `position` of an entity that has not turned yet.
    pub fn at(position: Position) -> (p: Pose)
        ensures
            p == (Pose { position, facing: Direction::initial() }),
            position.in_bounds() ==> p.wf(),
    {
        Pose { position, facing: Direction::forward() }
    }
}

impl<T> View for Store<T> {
    type V = Seq<Entry<T>>;

    closed spec fn view(&self) -> Seq<Entry<T>> {
        self.entries@
    }
}

impl<T> Store<T> {
    /// How many handles the store has issued. The next one carries this
    /// number.
    pub closed spec fn issued(&self) -> nat {
        self.issued as nat
    }

    /// Handles grow along the entries and lie below the number issued, and
    /// every pose is well formed.
    pub open spec fn wf(&self) -> bool {
        &&& ordered(self@)
        &&& self.issued() <= u64::MAX
        &&& forall|i: int| 0 <= i < self@.len() ==> (#[trigger] self@[i]).handle.id < self.issued()
        &&& forall|i: int| 0 <= i < self@.len() ==> (#[trigger] self@[i]).pose.wf()
    }

    /// The store after `insert` of an entity: with a handle left, the entry
    /// comes last under the next handle; with none left, nothing changes.
    pub open spec fn inserted(s: Seq<Entry<T>>, issued: nat, pose: Pose, item: T) -> (
        Seq<Entry<T>>,
        nat,
    ) {
        if issued < u64::MAX {
            (s.push(Entry { handle: Handle { id: issued as u64 }, pose, item }), issued + 1)
        } else {
            (s, issued)
        }
    }

    /// An empty store.
    pub fn new() -> (s: Self)
        ensures
            s.wf(),
            s@ == Seq::<Entry<T>>::empty(),
            s.issued() == 0,
    {
        Store { entries: Vec::new(), issued: 0 }
    }

    /// The number of live entities.
    pub fn len(&self) -> (n: usize)
        ensures
            n == self@.len(),
    {
        self.entries.len()
    }

    /// Whether no entity is live.
    pub fn is_empty(&self) -> (b: bool)
        ensures
            b == (self@.len() == 0),
    {
        self.entries.len() == 0
    }

    /// The live entities in iteration order.
    pub fn entries(&self) -> (r: &Vec<Entry<T>>)
        ensures
            r@ == self@,
    {
        &self.entries
    }

    /// The `i`-th entity in iteration order.
    pub fn entry(&self, i: usize) -> (e: &Entry<T>)
        requires
            i < self@.len(),
        ensures
            *e == self@[i as int],
    {
        &self.entries[i]
    }

    /// Where in iteration order the entity under `h` stands, if it is live.
    pub fn find(&self, h: Handle) -> (r: Option<usize>)
        requires
            self.wf(),
        ensures
            r is Some <==> live(self@, h),
            r matches Some(i) ==> i == index_of(self@, h) && i < self@.len() && self@[i as int].handle
                == h,
    {
        let mut lo: usize = 0;
        let mut hi: usize = self.entries.len();
        while lo < hi
            invariant
                self.wf(),
                0 <= lo <= hi <= self@.len(),
                forall|i: int| 0 <= i < lo ==> (#[trigger] self@[i]).handle.id < h.id,
                forall|i: int| hi <= i < self@.len() ==> (#[trigger] self@[i]).handle.id > h.id,
            decreases hi - lo,
        {
            let mid: usize = lo + (hi - lo) / 2;
            let id: u64 = self.entries[mid].handle.id;
            if id == h.id {
                proof {
                    lemma_index_of(self@, h, mid as int);
                }
                return Some(mid);
            } else if id < h.id {
                assert forall|i: int| 0 <= i < mid + 1 implies (#[trigger] self@[i]).handle.id
                    < h.id by {
                    if i < mid {
                        assert(self@[i].handle.id < self@[mid as int].handle.id);
                    }
                }
                lo = mid + 1;
            } else {
                assert forall|i: int| mid <= i < self@.len() implies (#[trigger] self@[i]).handle.id
                    > h.id by {
                    if mid < i {
                        assert(self@[mid as int].handle.id < self@[i].handle.id);
                    }
                }
                hi = mid;
            }
        }
        proof {
            if live(self@, h) {
                let k = index_of(self@, h);
                assert(0 <= k < self@.len() && self@[k].handle == h);
            }
        }
        None
    }

    /// Whether the entity under `h` is live.
    pub fn contains(&self, h: Handle) -> (b: bool)
        requires
            self.wf(),
        ensures
            b == live(self@, h),
    {
        self.find(h).is_some()
    }

    /// The entity under `h`, if it is live.
    pub fn get(&self, h: Handle) -> (r: Option<&Entry<T>>)
        requires
            self.wf(),
        ensures
            live(self@, h) ==> r == Some(&self@[index_of(self@, h)]),
            !live(self@, h) ==> r is None,
    {
        match self.find(h) {
            Some(i) => Some(&self.entries[i]),
            None => None,
        }
    }

    /// Takes an entity in and hands out its handle; with every handle
    /// issued, takes nothing in.
    pub fn insert(&mut self, pose: Pose, item: T) -> (r: Option<Handle>)
        requires
            old(self).wf(),
            pose.wf(),
        ensures
            final(self).wf(),
            (final(self)@, final(self).issued()) == Self::inserted(
                old(self)@,
                old(self).issued(),
                pose,
                item,
            ),
            old(self).issued() < u64::MAX ==> r == Some(Handle { id: old(self).issued() as u64 }),
            old(self).issued() >= u64::MAX ==> r is None,
            r matches Some(h) ==> !live(old(self)@, h),
    {
        if self.issued == u64::MAX {
            return None;
        }
        let handle = Handle { id: self.issued };
        proof {
            if live(self@, handle) {
                let k = index_of(self@, handle);
                assert(self@[k].handle.id < self.issued());
            }
        }
        self.entries.push(Entry { handle, pose, item });
        self.issued = self.issued + 1;
        Some(handle)
    }

    /// Takes in one entity at each of the poses, in their order, each with
    /// the same item, as long as handles last.
    pub fn insert_each(&mut self, poses: &Vec<Pose>, item: T) where T: Copy
        requires
            old(self).wf(),
            forall|i: int| 0 <= i < poses@.len() ==> (#[trigger] poses@[i]).wf(),
        ensures
            final(self).wf(),
            (final(self)@, final(self).issued()) == inserted_each(
                old(self)@,
                old(self).issued(),
                poses@,
                item,
            ),
    {
        let mut k: usize = 0;
        while k < poses.len()
            invariant
                0 <= k <= poses@.len(),
                self.wf(),
                forall|i: int| 0 <= i < poses@.len() ==> (#[trigger] poses@[i]).wf(),
                (self@, self.issued()) == inserted_each(
                    old(self)@,
                    old(self).issued(),
                    poses@.take(k as int),
                    item,
                ),
            decreases poses@.len() - k,
        {
            assert(poses@.take(k + 1).drop_last() == poses@.take(k as int));
            assert(poses@.take(k + 1).last() == poses@[k as int]);
            let _ = self.insert(poses[k], item);
            k = k + 1;
        }
        assert(poses@.take(k as int) == poses@);
    }

    /// Takes the `i`-th entity in iteration order out.
    pub fn remove_at(&mut self, i: usize) -> (e: Entry<T>)
        requires
            old(self).wf(),
            i < old(self)@.len(),
        ensures
            final(self).wf(),
            e == old(self)@[i as int],
            final(self)@ == old(self)@.remove(i as int),
            final(self)@ == without(old(self)@, e.handle),
            final(self).issued() == old(self).issued(),
    {
        proof {
            lemma_index_of(self@, self@[i as int].handle, i as int);
            lemma_without(self@, self@[i as int].handle);
        }
        let ghost before = self@;
        let e = self.entries.remove(i);
        proof {
            assert forall|j: int| 0 <= j < self@.len() implies (#[trigger] self@[j]).handle.id
                < self.issued() && self@[j].pose.wf() by {
                let sj = if j < i {
                    j
                } else {
                    j + 1
                };
                assert(self@[j] == before[sj]);
            }
        }
        e
    }

    /// Takes the entity under `h` out, if it is live.
    pub fn remove(&mut self, h: Handle) -> (r: Option<Entry<T>>)
        requires
            old(self).wf(),
        ensures
            final(self).wf(),
            final(self)@ == without(old(self)@, h),
            final(self).issued() == old(self).issued(),
            live(old(self)@, h) ==> r == Some(old(self)@[index_of(old(self)@, h)]),
            !live(old(self)@, h) ==> r is None,
    {
        match self.find(h) {
            Some(i) => Some(self.remove_at(i)),
            None => None,
        }
    }

    /// Gives the `i`-th entity in iteration order a new pose and item.
    pub fn update(&mut self, i: usize, pose: Pose, item: T)
        requires
            old(self).wf(),
            i < old(self)@.len(),
            pose.wf(),
        ensures
            final(self).wf(),
            final(self)@ == old(self)@.update(
                i as int,
                Entry { handle: old(self)@[i as int].handle, pose, item },
            ),
            final(self).issued() == old(self).issued(),
    {
        let handle = self.entries[i].handle;
        let ghost before = self@;
        self.entries.set(i, Entry { handle, pose, item });
        proof {
            assert forall|a: int, b: int| 0 <= a < b < self@.len() implies (#[trigger] self@[a]).handle.id
                < (#[trigger] self@[b]).handle.id by {
                assert(self@[a].handle == before[a].handle);
                assert(self@[b].handle == before[b].handle);
            }
            assert forall|j: int| 0 <= j < self@.len() implies (#[trigger] self@[j]).handle.id
                < self.issued() && self@[j].pose.wf() by {
                assert(self@[j].handle == before[j].handle);
                if j != i {
                    assert(self@[j] == before[j]);
                }
            }
        }
    }

    /// The entity nearest to `position` among those no farther than
    /// `radius`, the first in iteration order among equals.
    pub fn nearest_within(&self, position: &Position, radius: u32) -> (r: Option<Handle>)
        requires
            self.wf(),
            position.in_bounds(),
        ensures
            r == nearest(self@, *position, radius * radius),
            r matches Some(h) ==> live(self@, h),
    {
        assert(radius * radius <= 0xffff_ffff * 0xffff_ffff) by (nonlinear_arith)
            requires
                0 <= radius <= 0xffff_ffff,
        ;
        let r2: u64 = (radius as u64) * (radius as u64);
        let mut best: Option<usize> = None;
        let mut best_gap: u64 = 0;
        let mut i: usize = 0;
        while i < self.entries.len()
            invariant
                self.wf(),
                position.in_bounds(),
                0 <= i <= self@.len(),
                best is None ==> forall|j: int| 0 <= j < i ==> #[trigger] gap(self@, *position, j) > r2,
                best matches Some(b) ==> {
                    &&& b < i
                    &&& best_gap == gap(self@, *position, b as int)
                    &&& best_gap <= r2
                    &&& forall|j: int| 0 <= j < i ==> #[trigger] gap(self@, *position, j) >= best_gap
                    &&& forall|j: int| 0 <= j < b ==> #[trigger] gap(self@, *position, j) > best_gap
                },
            decreases self@.len() - i,
        {
            assert(self@[i as int].pose.wf());
            let d: u64 = self.entries[i].pose.position.distance_squared(position);
            assert(d == gap(self@, *position, i as int));
            let closer: bool = match best {
                Some(_) => d < best_gap,
                None => d <= r2,
            };
            if closer {
                best = Some(i);
                best_gap = d;
            }
            i = i + 1;
        }
        match best {
            Some(b) => {
                proof {
                    assert(is_nearest(self@, *position, r2 as int, b as int));
                    lemma_nearest_found(self@, *position, r2 as int, b as int);
                }
                Some(self.entries[b].handle)
            },
            None => {
                proof {
                    lemma_nearest_none(self@, *position, r2 as int);
                }
                None
            },
        }
    }
}

} // verus!
