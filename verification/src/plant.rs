//! Plant propagation: on a timer, plants set neighbours with a chance that
//! falls as the population grows.

use vstd::prelude::*;
use vstd::arithmetic::power::pow;
use vstd::arithmetic::power::lemma_pow_increases;
use vstd::arithmetic::power::lemma_pow_positive;
use vstd::arithmetic::power::lemma0_pow;
use crate::clock::Timer;
use crate::geometry::Position;
use crate::geometry::LIMIT;
use crate::geometry::UNIT;
use crate::random::uniform;
use crate::geometry::extent;
use crate::geometry::Direction;
use crate::store::all_within;
use crate::store::inserted_each;
use crate::store::lemma_inserted_each;
use crate::store::Entry;
use crate::store::Pose;
use crate::store::Store;

verus! {

/// A roll is a whole number below `ROLL_SCALE`; it stands for the fraction
/// `roll / ROLL_SCALE` of the unit interval.
pub const ROLL_SCALE: u32 = 4096;

/// What tells a plant from the other entities. It carries nothing.
#[derive(Clone, Copy, Debug, PartialEq, Eq, Structural)]
pub struct PlantTag;

/// A plant about to be set.
#[derive(Clone, Copy, Debug, PartialEq, Eq, Structural)]
pub struct Plant {
    pub x: i64,
    pub y: i64,
}

/// The numbers that govern propagation.
#[derive(Clone, Copy, Debug, PartialEq, Eq, Structural)]
pub struct PlantConfig {
    /// Period of the growth timer, in microseconds.
    pub spawn_rate: u64,
    /// Numerator of the exponent `e` in the chance `1 / count^e`.
    pub spawn_chance_num: u32,
    /// Denominator of that exponent, from 1 to 10.
    pub spawn_chance_den: u32,
    /// A neighbour lies within this many steps of its parent on each axis.
    pub spawn_range: i64,
    /// With this many plants or more, none is set.
    pub spawn_max: usize,
    /// No plant is set farther than this from the origin on either axis.
    pub spawn_area: i64,
}

/// What chance decides of one plant in one round.
#[derive(Clone, Copy, Debug, PartialEq, Eq, Structural)]
pub struct PlantDraw {
    /// Decides whether the plant sets a neighbour.
    pub roll: u32,
    /// Where the neighbour lies, from its parent.
    pub dx: i64,
    pub dy: i64,
}

proof fn lemma_pow_step(b: int, e: nat)
    ensures
        pow(b, e + 1) == b * pow(b, e),
{
    reveal(pow);
}

/// `base` to the power `exp`, where it fits.
fn checked_pow(base: u128, exp: u32) -> (r: Option<u128>)
    ensures
        r is Some <==> pow(base as int, exp as nat) <= u128::MAX,
        r matches Some(p) ==> p == pow(base as int, exp as nat),
{
    if exp == 0 {
        proof {
            reveal(pow);
        }
        return Some(1);
    }
    if base <= 1 {
        proof {
            if base == 0 {
                lemma0_pow(exp as nat);
            } else {
                vstd::arithmetic::power::lemma1_pow(exp as nat);
            }
        }
        return Some(base);
    }
    let mut acc: u128 = 1;
    let mut i: u32 = 0;
    proof {
        reveal(pow);
    }
    while i < exp
        invariant
            0 <= i <= exp,
            base >= 2,
            acc == pow(base as int, i as nat),
        decreases exp - i,
    {
        proof {
            lemma_pow_step(base as int, i as nat);
        }
        match acc.checked_mul(base) {
            Some(next) => {
                acc = next;
            },
            None => {
                proof {
                    lemma_pow_increases(base as nat, (i + 1) as nat, exp as nat);
                }
                return None;
            },
        }
        i = i + 1;
    }
    Some(acc)
}

impl Plant {
    /// A plant at `(x, y)`.
    pub fn new(x: i64, y: i64) -> (p: Plant)
        ensures
            p == (Plant { x, y }),
    {
        Plant { x, y }
    }

    /// Where the plant stands.
    pub open spec fn position(self) -> Position {
        Position { x: self.x, y: self.y }
    }

    /// The pose under which the plant enters the store.
    pub open spec fn placed(self) -> Pose {
        Pose { position: self.position(), facing: Direction::initial() }
    }

    /// The pose under which the plant enters the store.
    pub fn pose(&self) -> (p: Pose)
        ensures
            p == self.placed(),
            self.position().in_bounds() ==> p.wf(),
    {
        Pose::at(Position { x: self.x, y: self.y })
    }
}

impl Default for PlantConfig {
    /// A round four times a second, the chance `1 / count^0.7`, neighbours
    /// within 10 units, at most 5000 plants, within 25 units of the origin.
    fn default() -> (c: PlantConfig)
        ensures
            c == (PlantConfig {
                spawn_rate: 250_000,
                spawn_chance_num: 7,
                spawn_chance_den: 10,
                spawn_range: 10_000_000,
                spawn_max: 5000,
                spawn_area: 25_000_000,
            }),
            c.wf(),
    {
        PlantConfig {
            spawn_rate: 250_000,
            spawn_chance_num: 7,
            spawn_chance_den: 10,
            spawn_range: 10 * UNIT,
            spawn_max: 5000,
            spawn_area: 25 * UNIT,
        }
    }
}

impl PlantConfig {
    /// The exponent's denominator is between 1 and 10, the range is
    /// positive, and range and area lie within the world.
    pub open spec fn wf(self) -> bool {
        &&& 1 <= self.spawn_chance_den <= 10
        &&& 1 <= self.spawn_range <= LIMIT
        &&& 0 <= self.spawn_area <= LIMIT
    }

    /// Whether a plant among `count` sets a neighbour on the roll given: the
    /// roll's fraction is at most `1 / count^(num/den)`. Both sides are
    /// raised to the power `den` and cleared of fractions.
    pub open spec fn accepts(self, roll: int, count: int) -> bool {
        pow(roll, self.spawn_chance_den as nat) * pow(count, self.spawn_chance_num as nat) <= pow(
            ROLL_SCALE as int,
            self.spawn_chance_den as nat,
        )
    }

    /// The neighbour that a plant at `parent` sets among `count` plants on
    /// the draw given: none where the roll fails, and none where the place
    /// drawn lies outside the area.
    pub open spec fn sprout(self, parent: Position, draw: PlantDraw, count: int) -> Option<Plant> {
        let x = parent.x + draw.dx;
        let y = parent.y + draw.dy;
        if self.accepts(draw.roll as int, count) && extent(x, y) <= self.spawn_area {
            Some(Plant { x: x as i64, y: y as i64 })
        } else {
            None
        }
    }

    /// Whether a plant among `count` sets a neighbour on the roll given.
    pub fn spawns(&self, roll: u32, count: usize) -> (b: bool)
        requires
            self.wf(),
        ensures
            b == self.accepts(roll as int, count as int),
    {
        let den: u32 = self.spawn_chance_den;
        let num: u32 = self.spawn_chance_num;
        proof {
            lemma_scale_power_fits(den as nat);
        }
        let limit: Option<u128> = checked_pow(ROLL_SCALE as u128, den);
        let a: Option<u128> = checked_pow(roll as u128, den);
        let c: Option<u128> = checked_pow(count as u128, num);
        let ghost pa = pow(roll as int, den as nat);
        let ghost pc = pow(count as int, num as nat);
        proof {
            if roll > 0 {
                lemma_pow_positive(roll as int, den as nat);
            } else {
                lemma0_pow(den as nat);
            }
            if count > 0 {
                lemma_pow_positive(count as int, num as nat);
            } else if num > 0 {
                lemma0_pow(num as nat);
            } else {
                reveal(pow);
            }
            assert(pa >= 0 && pc >= 0);
        }
        match limit {
            None => false,
            Some(bound) => {
                if a == Some(0) || c == Some(0) {
                    assert(pa * pc == 0) by (nonlinear_arith)
                        requires
                            pa == 0 || pc == 0,
                    ;
                    true
                } else {
                    match (a, c) {
                        (Some(x), Some(y)) => {
                            match x.checked_mul(y) {
                                Some(product) => product <= bound,
                                None => false,
                            }
                        },
                        _ => {
                            assert(pa * pc > u128::MAX) by (nonlinear_arith)
                                requires
                                    pa >= 1,
                                    pc >= 1,
                                    pa > u128::MAX || pc > u128::MAX,
                            ;
                            false
                        },
                    }
                }
            },
        }
    }

    /// The neighbour that a plant at `parent` sets among `count` plants on
    /// the draw given.
    pub fn try_sprout(&self, parent: &Position, draw: &PlantDraw, count: usize) -> (r: Option<Plant>)
        requires
            self.wf(),
            parent.in_bounds(),
        ensures
            r == self.sprout(*parent, *draw, count as int),
            r matches Some(p) ==> p.position().in_bounds() && p.position().reach()
                <= self.spawn_area,
    {
        if !self.spawns(draw.roll, count) {
            return None;
        }
        let x: i128 = parent.x as i128 + draw.dx as i128;
        let y: i128 = parent.y as i128 + draw.dy as i128;
        let ax: i128 = if x < 0 {
            -x
        } else {
            x
        };
        let ay: i128 = if y < 0 {
            -y
        } else {
            y
        };
        let reach: i128 = if ax >= ay {
            ax
        } else {
            ay
        };
        if reach > self.spawn_area as i128 {
            return None;
        }
        Some(Plant { x: x as i64, y: y as i64 })
    }
}

/// The poses of the neighbours that the first `n` plants of `s` set in one
/// round, in the order of their parents. Each plant decides on the draw at
/// its own place in `draws`, against the count of all of `s`.
pub open spec fn sprouts(
    s: Seq<Entry<PlantTag>>,
    draws: Seq<PlantDraw>,
    config: PlantConfig,
    n: nat,
) -> Seq<Pose>
    decreases n,
{
    if n == 0 {
        Seq::empty()
    } else {
        let rest = sprouts(s, draws, config, (n - 1) as nat);
        match config.sprout(s[n - 1].pose.position, draws[n - 1], s.len() as int) {
            Some(p) => rest.push(p.placed()),
            None => rest,
        }
    }
}

/// The plants after one round of propagation. With no plant, one is set at
/// the origin. Below the cap, every plant decides on its draw, and the
/// neighbours enter together once all have decided. At the cap or above it,
/// nothing changes.
pub open spec fn round(
    s: Seq<Entry<PlantTag>>,
    issued: nat,
    draws: Seq<PlantDraw>,
    config: PlantConfig,
) -> (Seq<Entry<PlantTag>>, nat) {
    if s.len() == 0 {
        Store::<PlantTag>::inserted(s, issued, (Plant { x: 0, y: 0 }).placed(), PlantTag)
    } else if s.len() < config.spawn_max {
        inserted_each(s, issued, sprouts(s, draws, config, s.len()), PlantTag)
    } else {
        (s, issued)
    }
}

/// The plants after a tick of length `dt`: a round where the timer fires,
/// and no change where it does not.
pub open spec fn grown(
    s: Seq<Entry<PlantTag>>,
    issued: nat,
    timer: Timer,
    dt: int,
    draws: Seq<PlantDraw>,
    config: PlantConfig,
) -> (Seq<Entry<PlantTag>>, nat) {
    if timer.fires(dt) {
        round(s, issued, draws, config)
    } else {
        (s, issued)
    }
}

/// Every neighbour set in a round stands within the area, and no plant sets
/// more than one.
pub proof fn lemma_sprouts(
    s: Seq<Entry<PlantTag>>,
    draws: Seq<PlantDraw>,
    config: PlantConfig,
    n: nat,
)
    requires
        config.wf(),
    ensures
        sprouts(s, draws, config, n).len() <= n,
        forall|i: int|
            0 <= i < sprouts(s, draws, config, n).len() ==> {
                &&& (#[trigger] sprouts(s, draws, config, n)[i]).wf()
                &&& sprouts(s, draws, config, n)[i].position.reach() <= config.spawn_area
                &&& sprouts(s, draws, config, n)[i].facing == Direction::initial()
            },
    decreases n,
{
    if n > 0 {
        lemma_sprouts(s, draws, config, (n - 1) as nat);
        assert(UNIT * UNIT == 1_000_000_000_000) by (nonlinear_arith);
        assert(Direction::initial().wf());
    }
}

/// Plants never leave the area by propagation: where every plant stood
/// within the area before a round, every plant stands within it after.
pub proof fn lemma_round_keeps_area(
    s: Seq<Entry<PlantTag>>,
    issued: nat,
    draws: Seq<PlantDraw>,
    config: PlantConfig,
)
    requires
        config.wf(),
        all_within(s, config.spawn_area as int),
    ensures
        all_within(round(s, issued, draws, config).0, config.spawn_area as int),
{
    let t = round(s, issued, draws, config).0;
    if s.len() == 0 {
    } else if s.len() < config.spawn_max {
        let poses = sprouts(s, draws, config, s.len());
        lemma_sprouts(s, draws, config, s.len());
        lemma_inserted_each(s, issued, poses, PlantTag);
        assert forall|i: int| 0 <= i < t.len() implies (#[trigger] t[i]).pose.position.reach()
            <= config.spawn_area by {
            if i < s.len() {
                assert(t[i] == s[i]);
            } else {
                assert(t[i].pose == poses[i - s.len()]);
            }
        }
    }
}

/// The neighbours that enter in a round: all that are set, or as many of
/// them as there are handles left.
pub open spec fn entering(
    s: Seq<Entry<PlantTag>>,
    issued: nat,
    draws: Seq<PlantDraw>,
    config: PlantConfig,
) -> int {
    let set = sprouts(s, draws, config, s.len()).len() as int;
    if issued + set <= u64::MAX {
        set
    } else {
        u64::MAX - issued
    }
}

/// How a round moves the population. At the cap or above it the plants
/// stay as they are. Below it no plant is lost, each sets at most one
/// neighbour, and the count after the round is the count before plus the
/// neighbours that enter.
pub proof fn lemma_round_population(
    s: Seq<Entry<PlantTag>>,
    issued: nat,
    draws: Seq<PlantDraw>,
    config: PlantConfig,
)
    requires
        config.wf(),
        issued <= u64::MAX,
    ensures
        s.len() >= config.spawn_max && s.len() > 0 ==> round(s, issued, draws, config).0 == s,
        s.len() == 0 ==> round(s, issued, draws, config).0.len() <= 1,
        s.len() > 0 ==> s.len() <= round(s, issued, draws, config).0.len() <= 2 * s.len(),
        0 < s.len() < config.spawn_max ==> round(s, issued, draws, config).0.len() == s.len()
            + entering(s, issued, draws, config),
        0 <= entering(s, issued, draws, config) <= s.len(),
        forall|i: int| 0 <= i < s.len() ==> #[trigger] round(s, issued, draws, config).0[i] == s[i],
{
    lemma_sprouts(s, draws, config, s.len());
    if s.len() == 0 {
    } else if s.len() < config.spawn_max {
        lemma_inserted_each(s, issued, sprouts(s, draws, config, s.len()), PlantTag);
    }
}

/// The cap holds after every round that starts at or below it and lets no
/// more neighbours enter than the cap leaves room for. (A round that
/// starts below the cap is not cut short, so more may enter; and the first
/// plant is set whatever the cap.)
pub proof fn lemma_round_within_cap(
    s: Seq<Entry<PlantTag>>,
    issued: nat,
    draws: Seq<PlantDraw>,
    config: PlantConfig,
)
    requires
        config.wf(),
        issued <= u64::MAX,
        s.len() <= config.spawn_max,
        s.len() == 0 ==> config.spawn_max >= 1,
        s.len() + entering(s, issued, draws, config) <= config.spawn_max || s.len()
            == config.spawn_max,
    ensures
        round(s, issued, draws, config).0.len() <= config.spawn_max,
{
    lemma_round_population(s, issued, draws, config);
}

/// One round of propagation, each plant deciding on the draw at its own
/// place in `draws`.
pub fn propagate(plants: &mut Store<PlantTag>, config: &PlantConfig, draws: &Vec<PlantDraw>)
    requires
        old(plants).wf(),
        config.wf(),
        draws@.len() >= old(plants)@.len(),
    ensures
        final(plants).wf(),
        (final(plants)@, final(plants).issued()) == round(
            old(plants)@,
            old(plants).issued(),
            draws@,
            *config,
        ),
        all_within(old(plants)@, config.spawn_area as int) ==> all_within(
            final(plants)@,
            config.spawn_area as int,
        ),
        old(plants)@.len() >= config.spawn_max && old(plants)@.len() > 0 ==> final(plants)@ == old(
            plants,
        )@,
        old(plants)@.len() > 0 ==> old(plants)@.len() <= final(plants)@.len() <= 2 * old(
            plants,
        )@.len(),
{
    proof {
        lemma_round_population(plants@, plants.issued(), draws@, *config);
        if all_within(plants@, config.spawn_area as int) {
            lemma_round_keeps_area(plants@, plants.issued(), draws@, *config);
        }
    }
    let count: usize = plants.len();
    if count == 0 {
        let seed = Plant::new(0, 0);
        let _ = plants.insert(seed.pose(), PlantTag);
    } else if count < config.spawn_max {
        let mut new_plants: Vec<Pose> = Vec::new();
        let mut i: usize = 0;
        while i < count
            invariant
                0 <= i <= count,
                count == plants@.len(),
                draws@.len() >= count,
                plants.wf(),
                config.wf(),
                new_plants@ == sprouts(plants@, draws@, *config, i as nat),
                forall|k: int| 0 <= k < new_plants@.len() ==> (#[trigger] new_plants@[k]).wf(),
            decreases count - i,
        {
            let parent: Position = plants.entry(i).pose.position;
            assert(plants@[i as int].pose.wf());
            match config.try_sprout(&parent, &draws[i], count) {
                Some(plant) => {
                    new_plants.push(plant.pose());
                },
                None => {},
            }
            i = i + 1;
        }
        plants.insert_each(&new_plants, PlantTag);
    }
}

impl PlantConfig {
    /// Whether the draw is one that chance can give: a roll below
    /// `ROLL_SCALE` and a place within the range on each axis.
    pub open spec fn fair(self, draw: PlantDraw) -> bool {
        &&& draw.roll < ROLL_SCALE
        &&& -self.spawn_range <= draw.dx < self.spawn_range
        &&& -self.spawn_range <= draw.dy < self.spawn_range
    }

    /// Whether `draws` holds `n` draws that chance can give.
    pub open spec fn fair_draws(self, draws: Seq<PlantDraw>, n: nat) -> bool {
        &&& draws.len() == n
        &&& forall|i: int| 0 <= i < n ==> self.fair(#[trigger] draws[i])
    }

    /// Draws for one plant.
    pub fn draw(&self) -> (d: PlantDraw)
        requires
            self.wf(),
        ensures
            self.fair(d),
    {
        let roll: i64 = uniform(0, ROLL_SCALE as i64);
        let dx: i64 = uniform(-self.spawn_range, self.spawn_range);
        let dy: i64 = uniform(-self.spawn_range, self.spawn_range);
        PlantDraw { roll: roll as u32, dx, dy }
    }

    /// Draws for `n` plants.
    pub fn draws(&self, n: usize) -> (r: Vec<PlantDraw>)
        requires
            self.wf(),
        ensures
            self.fair_draws(r@, n as nat),
    {
        let mut r: Vec<PlantDraw> = Vec::new();
        let mut i: usize = 0;
        while i < n
            invariant
                0 <= i <= n,
                self.wf(),
                self.fair_draws(r@, i as nat),
            decreases n - i,
        {
            let d = self.draw();
            r.push(d);
            i = i + 1;
        }
        r
    }
}

/// Lets `dt` microseconds go by on the growth timer and runs one round of
/// propagation where it fires, on the draws given.
pub fn spawn_plants_with(
    plants: &mut Store<PlantTag>,
    timer: &mut Timer,
    dt: u64,
    config: &PlantConfig,
    draws: &Vec<PlantDraw>,
)
    requires
        old(plants).wf(),
        old(timer).wf(),
        config.wf(),
        draws@.len() >= old(plants)@.len(),
    ensures
        final(plants).wf(),
        final(timer).wf(),
        *final(timer) == old(timer).ticked(dt as int),
        (final(plants)@, final(plants).issued()) == grown(
            old(plants)@,
            old(plants).issued(),
            *old(timer),
            dt as int,
            draws@,
            *config,
        ),
        all_within(old(plants)@, config.spawn_area as int) ==> all_within(
            final(plants)@,
            config.spawn_area as int,
        ),
{
    if timer.tick(dt) {
        propagate(plants, config, draws);
    }
}

/// Lets `dt` microseconds go by on the growth timer and runs one round of
/// propagation where it fires, on draws of its own. What comes of it is
/// what `spawn_plants_with` makes of some fair draws, one for each plant.
pub fn spawn_plants(plants: &mut Store<PlantTag>, timer: &mut Timer, dt: u64, config: &PlantConfig)
    requires
        old(plants).wf(),
        old(timer).wf(),
        config.wf(),
    ensures
        final(plants).wf(),
        final(timer).wf(),
        *final(timer) == old(timer).ticked(dt as int),
        exists|draws: Seq<PlantDraw>|
            {
                &&& #[trigger] config.fair_draws(draws, old(plants)@.len())
                &&& (final(plants)@, final(plants).issued()) == grown(
                    old(plants)@,
                    old(plants).issued(),
                    *old(timer),
                    dt as int,
                    draws,
                    *config,
                )
            },
        all_within(old(plants)@, config.spawn_area as int) ==> all_within(
            final(plants)@,
            config.spawn_area as int,
        ),
{
    if timer.tick(dt) {
        let draws: Vec<PlantDraw> = config.draws(plants.len());
        propagate(plants, config, &draws);
        assert(config.fair_draws(draws@, old(plants)@.len()));
    } else {
        let ghost idle = Seq::new(old(plants)@.len(), |i: int| PlantDraw { roll: 0, dx: 0, dy: 0 });
        assert(config.fair_draws(idle, old(plants)@.len()));
    }
}

proof fn lemma_scale_power_fits(den: nat)
    requires
        den <= 10,
    ensures
        pow(ROLL_SCALE as int, den) <= u128::MAX,
{
    lemma_pow_increases(ROLL_SCALE as nat, den, 10);
    reveal(pow);
    assert(pow(4096, 0) == 1);
    lemma_pow_step(4096, 0);
    lemma_pow_step(4096, 1);
    assert(pow(4096, 2) == 0x100_0000);
    lemma_pow_step(4096, 2);
    lemma_pow_step(4096, 3);
    assert(pow(4096, 4) == 0x1_0000_0000_0000);
    lemma_pow_step(4096, 4);
    lemma_pow_step(4096, 5);
    assert(pow(4096, 6) == 0x1_0000_0000_0000_0000_00);
    lemma_pow_step(4096, 6);
    lemma_pow_step(4096, 7);
    assert(pow(4096, 8) == 0x1_0000_0000_0000_0000_0000_0000);
    lemma_pow_step(4096, 8);
    lemma_pow_step(4096, 9);
    assert(pow(4096, 10) == 0x1_0000_0000_0000_0000_0000_0000_0000_00);
}

} // verus!
