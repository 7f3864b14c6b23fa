//! Resolving one roll: the scores that an attack derives from the faces and
//! the attacker's characteristics, the case that effects read and alter, and
//! the chain of effects that branches a case into weighted alternatives.
//!
//! All weights are exact. Every effect counts the weights of its branches in
//! parts of a fixed resolution, so a branch of weight one half under a
//! resolution of two weighs one part. The weight of a case at the end of the
//! chain is the product of the parts of the branches that lead to it, and the
//! scores of an outcome are sums of such weights times scores, to be read as
//! fractions over the outcome's scale.

use vstd::prelude::*;
use crate::common::{Ratio, Score};
use crate::dice;
use crate::dice::{mass, space, tally, RollFace};
use crate::slots::{
    total_slot, total_slot_mut, total_slots, total_slots_copy, total_slots_zeroed, TotalSlots,
};

verus! {

/// The axes on which the result of an attack is scored.
#[derive(Clone, Copy, PartialEq, Eq, Structural, Debug, Hash)]
pub enum Facet {
    Damage,
    Hits,
    Crits,
    Actions,
    BrokenLegs,
}

/// How many attack facets there are.
pub const FACETS: u8 = 5;

impl Facet {
    /// The position of the facet among the scores of an attack.
    pub open spec fn ord(self) -> int {
        match self {
            Facet::Damage => 0,
            Facet::Hits => 1,
            Facet::Crits => 2,
            Facet::Actions => 3,
            Facet::BrokenLegs => 4,
        }
    }

    /// The facet at a position; positions past the last one give `BrokenLegs`.
    pub open spec fn at(i: int) -> Facet {
        if i == 0 {
            Facet::Damage
        } else if i == 1 {
            Facet::Hits
        } else if i == 2 {
            Facet::Crits
        } else if i == 3 {
            Facet::Actions
        } else {
            Facet::BrokenLegs
        }
    }

    pub fn index(self) -> (k: u8)
        ensures
            k == self.ord(),
            k < FACETS,
    {
        match self {
            Facet::Damage => 0,
            Facet::Hits => 1,
            Facet::Crits => 2,
            Facet::Actions => 3,
            Facet::BrokenLegs => 4,
        }
    }

    pub fn from_index(k: u8) -> (facet: Facet)
        ensures
            facet == Facet::at(k as int),
            k < FACETS ==> facet.ord() == k,
    {
        if k == 0 {
            Facet::Damage
        } else if k == 1 {
            Facet::Hits
        } else if k == 2 {
            Facet::Crits
        } else if k == 3 {
            Facet::Actions
        } else {
            Facet::BrokenLegs
        }
    }
}

/// The scores of an attack: one number for every attack facet.
pub struct Scores {
    pub slots: TotalSlots,
}

/// The attack scores that are all zero.
pub open spec fn zeros() -> Seq<int> {
    Seq::new(FACETS as nat, |i: int| 0int)
}

impl View for Scores {
    type V = Seq<int>;

    /// The scores by facet position.
    open spec fn view(&self) -> Seq<int> {
        Seq::new(FACETS as nat, |i: int| total_slots(self.slots)[i as u8] as int)
    }
}

impl Scores {
    /// The score of one facet.
    pub open spec fn of(self, facet: Facet) -> int {
        self@[facet.ord()]
    }

    pub fn get(&self, facet: Facet) -> (v: i64)
        ensures
            v == self.of(facet),
    {
        total_slot(&self.slots, facet.index())
    }

    /// The place of one facet's score. What the caller leaves there is the
    /// facet's score afterwards; the other facets keep theirs.
    pub fn get_mut(&mut self, facet: Facet) -> (v: &mut i64)
        ensures
            *v == old(self).of(facet),
            final(self)@ == old(self)@.update(facet.ord(), *final(v) as int),
    {
        let ghost before = total_slots(self.slots);
        let v = total_slot_mut(&mut self.slots, facet.index());
        proof {
            let k = facet.ord() as u8;
            let after = before.insert(k, *final(v));
            let lhs = Seq::new(FACETS as nat, |i: int| after[i as u8] as int);
            let rhs = Seq::new(FACETS as nat, |i: int| before[i as u8] as int).update(
                facet.ord(),
                *final(v) as int,
            );
            assert(lhs =~= rhs);
        }
        v
    }
}

impl Default for Scores {
    fn default() -> (r: Scores)
        ensures
            r@ == zeros(),
    {
        let r = Scores { slots: total_slots_zeroed() };
        assert(r@ =~= zeros());
        r
    }
}

impl Clone for Scores {
    fn clone(&self) -> (r: Scores)
        ensures
            r@ == self@,
    {
        Scores { slots: total_slots_copy(&self.slots) }
    }
}

/// Whether `f` may be called on a place that holds `sum` together with
/// `part`.
pub open spec fn combinable<F: Fn(&mut i64, &i64)>(f: F, sum: int, part: int) -> bool {
    forall|place: &mut i64, with: &i64|
        *place == sum && *with == part ==> #[trigger] f.requires((place, with))
}

/// Combines two sets of scores facet by facet: `f` is given the place of
/// each score of `what` together with the score of the same facet in `with`,
/// and what it leaves in the place is the facet's score afterwards.
pub fn update(what: &mut Scores, with: &Scores, f: impl Fn(&mut i64, &i64))
    requires
        forall|i: int| 0 <= i < FACETS ==> combinable(f, #[trigger] old(what)@[i], with@[i]),
    ensures
        final(what)@.len() == FACETS,
        forall|i: int|
            0 <= i < FACETS ==> i64::MIN <= #[trigger] final(what)@[i] <= i64::MAX && exists|
                place: &mut i64,
                part: &i64,
            |
                *place == old(what)@[i] && *part == with@[i] && #[trigger] f.ensures(
                    (place, part),
                    (),
                ) && *final(place) == final(what)@[i],
{
    let ghost before = what@;
    let mut k: u8 = 0;
    while k < FACETS
        invariant
            k <= FACETS,
            before == old(what)@,
            what@.len() == FACETS,
            forall|i: int| 0 <= i < FACETS ==> combinable(f, #[trigger] before[i], with@[i]),
            forall|i: int| k <= i < FACETS ==> #[trigger] what@[i] == before[i],
            forall|i: int|
                0 <= i < k ==> i64::MIN <= #[trigger] what@[i] <= i64::MAX && exists|
                    place: &mut i64,
                    part: &i64,
                |
                    *place == before[i] && *part == with@[i] && #[trigger] f.ensures(
                        (place, part),
                        (),
                    ) && *final(place) == what@[i],
        decreases FACETS - k,
    {
        let facet = Facet::from_index(k);
        let part = with.get(facet);
        let mut sum = what.get(facet);
        assert(combinable(f, before[k as int], with@[k as int]));
        f(&mut sum, &part);
        let ghost so_far = what@;
        *what.get_mut(facet) = sum;
        assert forall|i: int| 0 <= i < k + 1 implies i64::MIN <= #[trigger] what@[i] <= i64::MAX
            && exists|place: &mut i64, part: &i64|
            *place == before[i] && *part == with@[i] && #[trigger] f.ensures((place, part), ())
                && *final(place) == what@[i] by {
            if i < k {
                assert(what@[i] == so_far[i]);
                assert(i64::MIN <= so_far[i] <= i64::MAX);
            }
        }
        k = k + 1;
    }
}

/// The outcome of an attack. The expected score of a facet is its entry in
/// `scores` divided by `scale`; `probability` is that of the roll, or of the
/// rolls, that the outcome stands for.
pub struct Outcome {
    pub probability: Ratio,
    pub scores: Scores,
    pub scale: u64,
}

impl Outcome {
    /// A certain outcome in which nothing is scored.
    pub fn new() -> (r: Outcome)
        ensures
            r.probability == (Ratio { num: 1, den: 1 }),
            r.scores@ == zeros(),
            r.scale == 1,
    {
        Outcome { probability: Ratio { num: 1, den: 1 }, scores: Scores::default(), scale: 1 }
    }
}

impl Default for Outcome {
    fn default() -> (r: Outcome)
        ensures
            r.probability == (Ratio { num: 1, den: 1 }),
            r.scores@ == zeros(),
            r.scale == 1,
    {
        Outcome::new()
    }
}

/// What an attack brings to every roll.
pub struct Characteristics {
    /// Added to the tally of every roll.
    pub base_score: dice::Scores,
    /// The highest skill tally that still hits.
    pub required_skill: Score,
    /// The highest armor tally that soft armor holds.
    pub soft_armor: Score,
    /// Mitigation that applies whatever was rolled.
    pub hard_armor: Score,
}

/// The characteristics as numbers.
pub struct CharacteristicsView {
    pub base_score: Seq<int>,
    pub required_skill: int,
    pub soft_armor: int,
    pub hard_armor: int,
}

impl View for Characteristics {
    type V = CharacteristicsView;

    open spec fn view(&self) -> CharacteristicsView {
        CharacteristicsView {
            base_score: self.base_score@,
            required_skill: self.required_skill as int,
            soft_armor: self.soft_armor as int,
            hard_armor: self.hard_armor as int,
        }
    }
}

impl Clone for Characteristics {
    fn clone(&self) -> (r: Characteristics)
        ensures
            r@ == self@,
    {
        Characteristics {
            base_score: self.base_score.clone(),
            required_skill: self.required_skill,
            soft_armor: self.soft_armor,
            hard_armor: self.hard_armor,
        }
    }
}

impl Default for Characteristics {
    fn default() -> (r: Characteristics)
        ensures
            r@ == (CharacteristicsView {
                base_score: dice::zeros(),
                required_skill: 0,
                soft_armor: 0,
                hard_armor: 0,
            }),
    {
        Characteristics {
            base_score: dice::Scores::default(),
            required_skill: 0,
            soft_armor: 0,
            hard_armor: 0,
        }
    }
}

impl CharacteristicsView {
    /// Whether every number is one that `Score` can hold.
    pub open spec fn wf(self) -> bool {
        &&& self.base_score.len() == dice::FACETS
        &&& forall|i: int|
            0 <= i < dice::FACETS ==> Score::MIN <= #[trigger] self.base_score[i] <= Score::MAX
        &&& Score::MIN <= self.required_skill <= Score::MAX
        &&& Score::MIN <= self.soft_armor <= Score::MAX
        &&& Score::MIN <= self.hard_armor <= Score::MAX
    }
}

/// The raw score of a facet: what the roll tallies plus the base score.
pub open spec fn raw(c: CharacteristicsView, roll: Seq<RollFace>, facet: dice::Facet) -> int {
    tally(roll)[facet.ord()] + c.base_score[facet.ord()]
}

/// The raw scores of all dice facets.
pub open spec fn raw_scores(c: CharacteristicsView, roll: Seq<RollFace>) -> Seq<int> {
    Seq::new(dice::FACETS as nat, |i: int| tally(roll)[i] + c.base_score[i])
}

/// A roll misses on an explicit miss, or when the skill rolled is above what
/// the attack requires.
pub open spec fn is_miss(c: CharacteristicsView, roll: Seq<RollFace>) -> bool {
    raw(c, roll, dice::Facet::Miss) > 0 || raw(c, roll, dice::Facet::Skill) > c.required_skill
}

/// A roll hits on an explicit hit, and otherwise unless it misses.
pub open spec fn is_hit(c: CharacteristicsView, roll: Seq<RollFace>) -> bool {
    raw(c, roll, dice::Facet::Hit) > 0 || !is_miss(c, roll)
}

/// The armor that counts: all that was rolled while soft armor holds it, and
/// none once it is more than that.
pub open spec fn scored_armor(c: CharacteristicsView, roll: Seq<RollFace>) -> int {
    if raw(c, roll, dice::Facet::Armor) <= c.soft_armor {
        raw(c, roll, dice::Facet::Armor)
    } else {
        0
    }
}

/// The armor that shred takes away: the shred rolled, up to the armor that
/// counts.
pub open spec fn shredded_armor(c: CharacteristicsView, roll: Seq<RollFace>) -> int {
    if raw(c, roll, dice::Facet::Shred) <= scored_armor(c, roll) {
        raw(c, roll, dice::Facet::Shred)
    } else {
        scored_armor(c, roll)
    }
}

/// The soft armor left after shred.
pub open spec fn applied_soft_armor(c: CharacteristicsView, roll: Seq<RollFace>) -> int {
    scored_armor(c, roll) - shredded_armor(c, roll)
}

/// The mitigation: soft armor left after shred plus hard armor, but never
/// more than the damage rolled.
pub open spec fn applied_armor(c: CharacteristicsView, roll: Seq<RollFace>) -> int {
    if applied_soft_armor(c, roll) + c.hard_armor <= raw(c, roll, dice::Facet::Damage) {
        applied_soft_armor(c, roll) + c.hard_armor
    } else {
        raw(c, roll, dice::Facet::Damage)
    }
}

/// The damage that is left after mitigation.
pub open spec fn mitigated_damage(c: CharacteristicsView, roll: Seq<RollFace>) -> int {
    raw(c, roll, dice::Facet::Damage) - applied_armor(c, roll)
}

/// The score that an attack derives for one facet: the damage left after
/// mitigation, whether the roll hits, and the crits and actions rolled.
pub open spec fn derived_facet(c: CharacteristicsView, roll: Seq<RollFace>, facet: Facet) -> int {
    match facet {
        Facet::Damage => mitigated_damage(c, roll),
        Facet::Hits => if is_hit(c, roll) { 1 } else { 0 },
        Facet::Crits => raw(c, roll, dice::Facet::Crit),
        Facet::Actions => raw(c, roll, dice::Facet::Action),
        Facet::BrokenLegs => 0,
    }
}

/// The scores that an attack derives from a roll.
pub open spec fn derived(c: CharacteristicsView, roll: Seq<RollFace>) -> Seq<int> {
    Seq::new(FACETS as nat, |i: int| derived_facet(c, roll, Facet::at(i)))
}

/// Whether the faces can be counted one after the other without any tally or
/// probability leaving its type.
pub open spec fn rollable(roll: Seq<RollFace>) -> bool
    decreases roll.len(),
{
    roll.len() == 0 || {
        let counted = roll.drop_last();
        &&& rollable(counted)
        &&& roll.last().countable(
            Ratio { num: mass(counted) as u64, den: space(counted) as u64 },
            tally(counted),
        )
    }
}

/// Whether the roll can be scored: it can be counted, and every raw score is
/// one that `Score` can hold.
pub open spec fn scorable(c: CharacteristicsView, roll: Seq<RollFace>) -> bool {
    &&& rollable(roll)
    &&& forall|i: int|
        0 <= i < dice::FACETS ==> Score::MIN <= #[trigger] raw_scores(c, roll)[i] <= Score::MAX
}

/// A roll that can be counted has a tally of scores and probability parts
/// that fit their types.
pub proof fn lemma_rollable_fits(roll: Seq<RollFace>)
    requires
        rollable(roll),
    ensures
        tally(roll).len() == dice::FACETS,
        forall|i: int|
            0 <= i < dice::FACETS ==> Score::MIN <= #[trigger] tally(roll)[i] <= Score::MAX,
        mass(roll) <= u64::MAX,
        space(roll) <= u64::MAX,
    decreases roll.len(),
{
    if roll.len() > 0 {
        lemma_rollable_fits(roll.drop_last());
        assert forall|i: int| 0 <= i < dice::FACETS implies Score::MIN <= #[trigger] tally(roll)[i]
            <= Score::MAX by {
            assert(tally(roll)[i] == roll.last().scored(tally(roll.drop_last()))[i]);
        }
    }
}

/// Whatever can be counted can be counted up to any point.
pub proof fn lemma_rollable_prefix(roll: Seq<RollFace>, k: int)
    requires
        rollable(roll),
        0 <= k <= roll.len(),
    ensures
        rollable(roll.take(k)),
    decreases roll.len(),
{
    if k == roll.len() {
        assert(roll.take(k) =~= roll);
    } else {
        lemma_rollable_prefix(roll.drop_last(), k);
        assert(roll.drop_last().take(k) =~= roll.take(k));
    }
}

/// The bounds of the scores that an attack derives when the raw scores and
/// the characteristics are scores.
pub proof fn lemma_derived_bounds(c: CharacteristicsView, roll: Seq<RollFace>)
    requires
        c.wf(),
        scorable(c, roll),
    ensures
        derived(c, roll).len() == FACETS,
        forall|i: int| 0 <= i < FACETS ==> -255 <= #[trigger] derived(c, roll)[i] <= 255,
{
    assert forall|f: dice::Facet| Score::MIN <= #[trigger] raw(c, roll, f) <= Score::MAX by {
        dice::lemma_facet_positions(f);
        assert(raw_scores(c, roll)[f.ord()] == raw(c, roll, f));
    }
    let armor = scored_armor(c, roll);
    let shred = shredded_armor(c, roll);
    assert(0 <= armor - shred <= 255);
}

/// Armor breaks: armor above what soft armor holds mitigates nothing. With
/// no negative shred, the mitigation is then what hard armor alone gives.
pub proof fn lemma_armor_breaks(c: CharacteristicsView, roll: Seq<RollFace>)
    requires
        raw(c, roll, dice::Facet::Armor) > c.soft_armor,
        raw(c, roll, dice::Facet::Shred) >= 0,
    ensures
        scored_armor(c, roll) == 0,
        applied_soft_armor(c, roll) == 0,
        applied_armor(c, roll) == if c.hard_armor <= raw(c, roll, dice::Facet::Damage) {
            c.hard_armor
        } else {
            raw(c, roll, dice::Facet::Damage)
        },
        c.hard_armor == 0 && raw(c, roll, dice::Facet::Damage) >= 0 ==> mitigated_damage(c, roll)
            == raw(c, roll, dice::Facet::Damage),
{
}

/// Shred takes from the soft armor before hard armor is added, and the
/// mitigation is never more than the damage rolled: damage is not mitigated
/// below zero.
pub proof fn lemma_mitigation_is_bounded(c: CharacteristicsView, roll: Seq<RollFace>)
    ensures
        0 <= applied_soft_armor(c, roll),
        raw(c, roll, dice::Facet::Shred) >= 0 && scored_armor(c, roll) >= 0 ==> applied_soft_armor(
            c,
            roll,
        ) <= scored_armor(c, roll),
        0 <= raw(c, roll, dice::Facet::Shred) <= scored_armor(c, roll) ==> applied_soft_armor(
            c,
            roll,
        ) == scored_armor(c, roll) - raw(c, roll, dice::Facet::Shred),
        applied_armor(c, roll) <= applied_soft_armor(c, roll) + c.hard_armor,
        applied_armor(c, roll) <= raw(c, roll, dice::Facet::Damage),
        mitigated_damage(c, roll) >= 0,
{
}

/// An explicit miss makes the roll a miss whatever the skill, an explicit
/// hit makes it a hit whatever the skill, and without either the roll hits
/// exactly when the skill is no more than required. A miss that is not also
/// an explicit hit does not hit.
pub proof fn lemma_hit_or_miss(c: CharacteristicsView, roll: Seq<RollFace>)
    ensures
        raw(c, roll, dice::Facet::Miss) > 0 ==> is_miss(c, roll),
        raw(c, roll, dice::Facet::Hit) > 0 ==> is_hit(c, roll),
        raw(c, roll, dice::Facet::Miss) > 0 && raw(c, roll, dice::Facet::Hit) <= 0 ==> !is_hit(
            c,
            roll,
        ),
        raw(c, roll, dice::Facet::Miss) <= 0 && raw(c, roll, dice::Facet::Hit) <= 0 ==> (is_hit(
            c,
            roll,
        ) <==> raw(c, roll, dice::Facet::Skill) <= c.required_skill),
{
}

/// The raw scores and the derived scores of a roll.
pub fn compute_output(characteristics: &Characteristics, roll: &[RollFace]) -> (out: (
    dice::Outcome,
    Scores,
))
    requires
        scorable(characteristics@, roll@),
    ensures
        out.0.scores@ == raw_scores(characteristics@, roll@),
        out.0.probability == (Ratio { num: mass(roll@) as u64, den: space(roll@) as u64 }),
        mass(roll@) <= u64::MAX,
        space(roll@) <= u64::MAX,
        out.1@ == derived(characteristics@, roll@),
{
    let ghost c = characteristics@;
    let mut roll_outcome = dice::Outcome::new();
    let mut i: usize = 0;
    while i < roll.len()
        invariant
            i <= roll.len(),
            rollable(roll@),
            roll_outcome.scores@ == tally(roll@.take(i as int)),
            roll_outcome.probability.num == mass(roll@.take(i as int)),
            roll_outcome.probability.den == space(roll@.take(i as int)),
        decreases roll.len() - i,
    {
        proof {
            lemma_rollable_prefix(roll@, i + 1);
            assert(roll@.take(i + 1).drop_last() =~= roll@.take(i as int));
            assert(roll@.take(i + 1).last() == roll@[i as int]);
        }
        let face = roll[i];
        face.add_score(&mut roll_outcome);
        i = i + 1;
    }
    proof {
        assert(roll@.take(roll.len() as int) =~= roll@);
        lemma_rollable_fits(roll@);
        assert forall|i: int| 0 <= i < dice::FACETS implies Score::MIN
            <= #[trigger] roll_outcome.scores@[i] + c.base_score[i] <= Score::MAX by {
            assert(raw_scores(c, roll@)[i] == tally(roll@)[i] + c.base_score[i]);
        }
    }
    let base = &characteristics.base_score;
    dice::update(&mut roll_outcome.scores, base, |sum: &mut Score, part: &Score|
        requires Score::MIN <= *sum + *part <= Score::MAX,
        ensures *final(sum) == *old(sum) + *part,
    {
        *sum += *part;
    });
    assert(roll_outcome.scores@ =~= raw_scores(c, roll@));
    proof {
        assert forall|f: dice::Facet| roll_outcome.scores.of(f) == #[trigger] raw(c, roll@, f) by {
            dice::lemma_facet_positions(f);
        }
    }
    let rolled = &roll_outcome.scores;
    let miss = rolled.get(dice::Facet::Miss) > 0 || rolled.get(dice::Facet::Skill)
        > characteristics.required_skill;
    let hit = rolled.get(dice::Facet::Hit) > 0 || !miss;
    let rolled_armor = rolled.get(dice::Facet::Armor) as i64;
    let scored_armor = if rolled_armor <= characteristics.soft_armor as i64 {
        rolled_armor
    } else {
        0
    };
    let rolled_shred = rolled.get(dice::Facet::Shred) as i64;
    let shredded_armor = if rolled_shred <= scored_armor {
        rolled_shred
    } else {
        scored_armor
    };
    let applied_soft_armor = scored_armor - shredded_armor;
    let damage = rolled.get(dice::Facet::Damage) as i64;
    let available_armor = applied_soft_armor + characteristics.hard_armor as i64;
    let applied_armor = if available_armor <= damage {
        available_armor
    } else {
        damage
    };
    let damage = damage - applied_armor;
    let mut scores = Scores::default();
    *scores.get_mut(Facet::Damage) = damage;
    *scores.get_mut(Facet::Hits) = if hit {
        1
    } else {
        0
    };
    *scores.get_mut(Facet::Crits) = rolled.get(dice::Facet::Crit) as i64;
    *scores.get_mut(Facet::Actions) = rolled.get(dice::Facet::Action) as i64;
    assert(scores@ =~= derived(c, roll@));
    (roll_outcome, scores)
}

/// Whether the roll can be scored with every number staying within its type.
pub fn can_compute(characteristics: &Characteristics, roll: &[RollFace]) -> (ok: bool)
    ensures
        ok == scorable(characteristics@, roll@),
{
    let ghost c = characteristics@;
    let mut roll_outcome = dice::Outcome::new();
    let mut i: usize = 0;
    while i < roll.len()
        invariant
            i <= roll.len(),
            rollable(roll@.take(i as int)),
            roll_outcome.scores@ == tally(roll@.take(i as int)),
            roll_outcome.probability.num == mass(roll@.take(i as int)),
            roll_outcome.probability.den == space(roll@.take(i as int)),
        decreases roll.len() - i,
    {
        proof {
            assert(roll@.take(i + 1).drop_last() =~= roll@.take(i as int));
            assert(roll@.take(i + 1).last() == roll@[i as int]);
        }
        let face = roll[i];
        if !face.can_count(&roll_outcome) {
            proof {
                if rollable(roll@) {
                    lemma_rollable_prefix(roll@, i + 1);
                }
            }
            return false;
        }
        face.add_score(&mut roll_outcome);
        i = i + 1;
    }
    proof {
        assert(roll@.take(roll.len() as int) =~= roll@);
        lemma_rollable_fits(roll@);
    }
    let mut k: u8 = 0;
    while k < dice::FACETS
        invariant
            k <= dice::FACETS,
            c == characteristics@,
            rollable(roll@),
            roll_outcome.scores@ == tally(roll@),
            tally(roll@).len() == dice::FACETS,
            forall|j: int|
                0 <= j < k ==> Score::MIN <= #[trigger] raw_scores(c, roll@)[j] <= Score::MAX,
        decreases dice::FACETS - k,
    {
        let facet = dice::Facet::from_index(k);
        let tallied = roll_outcome.scores.get(facet) as i16;
        let sum = tallied + characteristics.base_score.get(facet) as i16;
        assert(sum == raw_scores(c, roll@)[k as int]);
        if sum < -128 || sum > 127 {
            return false;
        }
        k = k + 1;
    }
    true
}

/// What a case is made of: the characteristics and the faces rolled.
pub struct CaseView {
    pub characteristics: CharacteristicsView,
    pub roll: Seq<RollFace>,
}

impl CaseView {
    /// Whether the case can be scored.
    pub open spec fn wf(self) -> bool {
        self.characteristics.wf() && scorable(self.characteristics, self.roll)
    }

    /// The raw score of a dice facet.
    pub open spec fn score(self, facet: dice::Facet) -> int {
        raw(self.characteristics, self.roll, facet)
    }

    /// The derived score of an attack facet.
    pub open spec fn result(self, facet: Facet) -> int {
        derived_facet(self.characteristics, self.roll, facet)
    }

    /// The base score of a dice facet.
    pub open spec fn base(self, facet: dice::Facet) -> int {
        self.characteristics.base_score[facet.ord()]
    }

    /// The case with another base score for one facet.
    pub open spec fn with_base(self, facet: dice::Facet, v: int) -> CaseView {
        CaseView {
            characteristics: CharacteristicsView {
                base_score: self.characteristics.base_score.update(facet.ord(), v),
                ..self.characteristics
            },
            roll: self.roll,
        }
    }

    /// The case with other faces rolled.
    pub open spec fn with_roll(self, roll: Seq<RollFace>) -> CaseView {
        CaseView { characteristics: self.characteristics, roll }
    }
}

/// A copy of the faces.
pub(crate) fn copy_roll(roll: &[RollFace]) -> (r: Vec<RollFace>)
    ensures
        r@ == roll@,
{
    let mut r: Vec<RollFace> = Vec::new();
    let mut i: usize = 0;
    while i < roll.len()
        invariant
            i <= roll.len(),
            r@ == roll@.take(i as int),
        decreases roll.len() - i,
    {
        r.push(roll[i]);
        assert(roll@.take(i + 1) =~= roll@.take(i as int).push(roll@[i as int]));
        i = i + 1;
    }
    assert(roll@.take(roll.len() as int) =~= roll@);
    r
}

/// One roll in the course of its resolution: the characteristics and faces
/// as they stand on this branch, with the scores derived from them. The
/// derived scores are recomputed after every change.
pub struct Case {
    characteristics: Characteristics,
    dice_roll: Vec<RollFace>,
    dice_outcome: dice::Outcome,
    scores: Scores,
}

/// The two places where a case can be changed.
pub struct CaseUpdater {
    characteristics: Characteristics,
    dice_roll: Vec<RollFace>,
}

impl View for CaseUpdater {
    type V = CaseView;

    closed spec fn view(&self) -> CaseView {
        CaseView { characteristics: self.characteristics@, roll: self.dice_roll@ }
    }
}

impl CaseUpdater {
    /// The place of one facet's base score.
    pub fn score_mut(&mut self, facet: dice::Facet) -> (v: &mut Score)
        ensures
            *v == old(self)@.base(facet),
            final(self)@ == old(self)@.with_base(facet, *final(v) as int),
    {
        self.characteristics.base_score.get_mut(facet)
    }

    /// The faces rolled, to overwrite one of them.
    pub fn roll_mut(&mut self) -> (roll: &mut [RollFace])
        ensures
            roll@ == old(self)@.roll,
            final(self)@ == old(self)@.with_roll(final(roll)@),
    {
        self.dice_roll.as_mut_slice()
    }
}

impl View for Case {
    type V = CaseView;

    closed spec fn view(&self) -> CaseView {
        CaseView { characteristics: self.characteristics@, roll: self.dice_roll@ }
    }
}

impl Case {
    /// Whether the derived scores are those of the case's characteristics
    /// and faces.
    pub closed spec fn wf(&self) -> bool {
        &&& self@.wf()
        &&& self.dice_outcome.scores@ == raw_scores(self@.characteristics, self@.roll)
        &&& self.dice_outcome.probability == (Ratio {
            num: mass(self@.roll) as u64,
            den: space(self@.roll) as u64,
        })
        &&& self.scores@ == derived(self@.characteristics, self@.roll)
    }

    /// A well-formed case can be scored.
    pub proof fn lemma_wf(&self)
        requires
            self.wf(),
        ensures
            self@.wf(),
    {
    }

    /// The case of a roll as it was rolled.
    pub fn new(characteristics: &Characteristics, roll: &[RollFace]) -> (case: Case)
        requires
            scorable(characteristics@, roll@),
        ensures
            case.wf(),
            case@ == (CaseView { characteristics: characteristics@, roll: roll@ }),
    {
        let (dice_outcome, scores) = compute_output(characteristics, roll);
        Case {
            characteristics: characteristics.clone(),
            dice_roll: copy_roll(roll),
            dice_outcome,
            scores,
        }
    }

    /// Lets `f` change the base score and the faces, then derives the scores
    /// anew from what `f` left.
    pub fn update(&mut self, f: impl Fn(&mut CaseUpdater))
        requires
            old(self).wf(),
            forall|u: &mut CaseUpdater| (*u)@ == old(self)@ ==> f.requires((u,)),
            forall|u: &mut CaseUpdater|
                (*u)@ == old(self)@ && #[trigger] f.ensures((u,), ()) ==> (*final(u))@.wf(),
        ensures
            final(self).wf(),
            exists|u: &mut CaseUpdater|
                (*u)@ == old(self)@ && #[trigger] f.ensures((u,), ()) && final(self)@
                    == (*final(u))@,
    {
        let mut updater = CaseUpdater {
            characteristics: self.characteristics.clone(),
            dice_roll: copy_roll(self.dice_roll.as_slice()),
        };
        assert(updater@ == self@);
        f(&mut updater);
        let (dice_outcome, scores) = compute_output(
            &updater.characteristics,
            updater.dice_roll.as_slice(),
        );
        self.characteristics = updater.characteristics;
        self.dice_roll = updater.dice_roll;
        self.dice_outcome = dice_outcome;
        self.scores = scores;
    }

    /// The derived score of an attack facet.
    pub fn result(&self, facet: Facet) -> (v: i64)
        requires
            self.wf(),
        ensures
            v == self@.result(facet),
    {
        self.scores.get(facet)
    }

    /// The raw score of a dice facet: tally plus base score.
    pub fn score(&self, facet: dice::Facet) -> (v: Score)
        requires
            self.wf(),
        ensures
            v == self@.score(facet),
    {
        proof {
            dice::lemma_facet_positions(facet);
        }
        self.dice_outcome.scores.get(facet)
    }

    /// The characteristics as they stand on this branch.
    pub fn characteristics(&self) -> (c: &Characteristics)
        ensures
            c@ == self@.characteristics,
    {
        &self.characteristics
    }

    /// The faces as they stand on this branch.
    pub fn roll(&self) -> (roll: &[RollFace])
        ensures
            roll@ == self@.roll,
    {
        self.dice_roll.as_slice()
    }

    /// An independent case that reads the same: changes to one do not show
    /// in the other.
    pub fn reborrow(&self) -> (case: Case)
        ensures
            case@ == self@,
            self.wf() ==> case.wf(),
    {
        Case {
            characteristics: self.characteristics.clone(),
            dice_roll: copy_roll(self.dice_roll.as_slice()),
            dice_outcome: self.dice_outcome.clone(),
            scores: self.scores.clone(),
        }
    }
}

/// One branch that an effect yields: the case as the branch leaves it, and
/// the weight of the branch in parts of the effect's resolution.
pub struct Alteration {
    pub parts: nat,
    pub case: CaseView,
}

/// The parts of all the branches together.
pub open spec fn total_parts(alterations: Seq<Alteration>) -> nat
    decreases alterations.len(),
{
    if alterations.len() == 0 {
        0
    } else {
        total_parts(alterations.drop_last()) + alterations.last().parts
    }
}

/// A probability counted in parts of a resolution that its denominator
/// divides.
pub open spec fn share(prob: Ratio, resolution: nat) -> nat {
    prob.num as nat * (resolution / prob.den as nat)
}

/// The largest scale of an outcome, and so the largest resolution that a
/// chain of effects can have in all.
pub const SCALE_LIMIT: u64 = 0x7f_ffff_ffff_ffff;

/// A share of a resolution is at most the resolution.
pub proof fn lemma_share_bounded(prob: Ratio, resolution: nat)
    requires
        prob.is_probability(),
    ensures
        share(prob, resolution) <= resolution,
        resolution % (prob.den as nat) == 0 && prob.num == prob.den ==> share(prob, resolution)
            == resolution,
{
    let d = prob.den as int;
    let q = resolution as int / d;
    vstd::arithmetic::div_mod::lemma_fundamental_div_mod(resolution as int, d);
    vstd::arithmetic::div_mod::lemma_mod_bound(resolution as int, d);
    assert(0 <= q) by (nonlinear_arith)
        requires
            resolution as int == d * q + (resolution as int % d),
            0 <= resolution as int % d < d,
            resolution >= 0,
    ;
    assert(prob.num as int * q <= d * q) by (nonlinear_arith)
        requires
            0 <= prob.num as int <= d,
            0 <= q,
    ;
}

struct Branch {
    parts: u64,
    case: Case,
}

/// Proof that an effect has yielded its final branch.
pub struct LastAlteration {
    opaque: (),
}

/// Collects the branches that one effect yields from one case. An effect
/// yields any number of branches and then a final one; after the final one
/// the applicator is closed and takes no more.
pub struct EffectApplicator {
    resolution: u64,
    branches: Vec<Branch>,
    closed: bool,
}

impl EffectApplicator {
    /// The number of parts that make up the whole weight.
    pub closed spec fn resolution(&self) -> nat {
        self.resolution as nat
    }

    /// Whether the final branch was yielded.
    pub closed spec fn is_closed(&self) -> bool {
        self.closed
    }

    /// The branches yielded so far, in order.
    pub closed spec fn alterations(&self) -> Seq<Alteration> {
        Seq::new(
            self.branches@.len(),
            |i: int|
                Alteration {
                    parts: self.branches@[i].parts as nat,
                    case: self.branches@[i].case@,
                },
        )
    }

    /// Every branch holds a case that is scored, and weighs no more than the
    /// whole.
    pub closed spec fn wf(&self) -> bool {
        forall|i: int|
            0 <= i < self.branches@.len() ==> (#[trigger] self.branches@[i]).case.wf()
    }

    /// Every branch of a well-formed applicator holds a case that can be
    /// scored.
    pub proof fn lemma_wf(&self)
        requires
            self.wf(),
        ensures
            forall|i: int|
                0 <= i < self.alterations().len() ==> (#[trigger] self.alterations()[i]).case.wf(),
    {
        assert forall|i: int| 0 <= i < self.alterations().len() implies (
        #[trigger] self.alterations()[i]).case.wf() by {
            self.branches@[i].case.lemma_wf();
        }
    }

    /// An open applicator without branches.
    pub fn new(resolution: u64) -> (r: EffectApplicator)
        ensures
            r.wf(),
            !r.is_closed(),
            r.resolution() == resolution,
            r.alterations().len() == 0,
    {
        EffectApplicator { resolution, branches: Vec::new(), closed: false }
    }

    fn push(&mut self, case: &Case, prob: Ratio)
        requires
            old(self).wf(),
            case.wf(),
            prob.is_probability(),
            old(self).resolution() % (prob.den as nat) == 0,
        ensures
            final(self).wf(),
            final(self).closed == old(self).closed,
            final(self).resolution() == old(self).resolution(),
            final(self).alterations() == old(self).alterations().push(
                Alteration { parts: share(prob, old(self).resolution()), case: case@ },
            ),
    {
        proof {
            lemma_share_bounded(prob, self.resolution as nat);
        }
        let unit = self.resolution / prob.den;
        assert(prob.num * unit == share(prob, self.resolution as nat));
        let parts = prob.num * unit;
        let fork = case.reborrow();
        let ghost before = self.alterations();
        self.branches.push(Branch { parts, case: fork });
        assert(self.alterations() =~= before.push(
            Alteration { parts: share(prob, old(self).resolution()), case: case@ },
        ));
    }

    /// Yields a branch that is not the last: the case as it stands, with
    /// probability `prob`. The case itself stays as it is, for the effect to
    /// go on from.
    pub fn yield_next_alteration(&mut self, case: &mut Case, prob: Ratio)
        requires
            old(self).wf(),
            !old(self).is_closed(),
            old(case).wf(),
            prob.is_probability(),
            old(self).resolution() % (prob.den as nat) == 0,
        ensures
            final(self).wf(),
            !final(self).is_closed(),
            final(self).resolution() == old(self).resolution(),
            final(self).alterations() == old(self).alterations().push(
                Alteration { parts: share(prob, old(self).resolution()), case: old(case)@ },
            ),
            *final(case) == *old(case),
    {
        self.push(case, prob);
    }

    /// Yields the final branch: the case as it stands, with probability
    /// `prob`. The applicator is closed by it.
    pub fn yield_last_alteration(&mut self, case: &mut Case, prob: Ratio) -> (done: LastAlteration)
        requires
            old(self).wf(),
            !old(self).is_closed(),
            old(case).wf(),
            prob.is_probability(),
            old(self).resolution() % (prob.den as nat) == 0,
        ensures
            final(self).wf(),
            final(self).is_closed(),
            final(self).resolution() == old(self).resolution(),
            final(self).alterations() == old(self).alterations().push(
                Alteration { parts: share(prob, old(self).resolution()), case: old(case)@ },
            ),
            *final(case) == *old(case),
    {
        self.push(case, prob);
        self.closed = true;
        LastAlteration { opaque: () }
    }
}

/// A rule that branches a case into weighted alternatives.
///
/// The weights of an effect's branches are counted in parts of its
/// resolution, and the parts of the branches that it yields from one case add
/// up to the resolution: an effect redistributes a case, it neither loses
/// nor invents probability.
pub trait Effect {
    /// The number of parts that make up the whole weight of a case.
    spec fn resolution(&self) -> nat;

    /// Whether the effect can alter the case with every score staying within
    /// its type.
    spec fn admits(&self, case: CaseView) -> bool;

    /// The branches that the effect yields from a case, in order.
    spec fn alterations(&self, case: CaseView) -> Seq<Alteration>;

    /// The effect's resolution.
    fn units(&self) -> (d: u64)
        ensures
            d == self.resolution(),
            d > 0,
    ;

    /// Whether the effect admits the case.
    fn accepts(&self, case: &Case) -> (ok: bool)
        requires
            case.wf(),
        ensures
            ok == self.admits(case@),
    ;

    /// Yields the effect's branches of `case` to the applicator, the final
    /// one last.
    fn yield_alterations(&self, applicator: &mut EffectApplicator, case: &mut Case) -> (done:
        LastAlteration)
        requires
            old(case).wf(),
            self.admits(old(case)@),
            old(applicator).wf(),
            !old(applicator).is_closed(),
            old(applicator).alterations().len() == 0,
            old(applicator).resolution() == self.resolution(),
        ensures
            final(applicator).wf(),
            final(applicator).is_closed(),
            final(applicator).resolution() == old(applicator).resolution(),
            final(applicator).alterations() == self.alterations(old(case)@),
            total_parts(self.alterations(old(case)@)) == self.resolution(),
    ;
}

/// The resolution of the effects from `idx` on: the product of their
/// resolutions.
pub open spec fn remaining(effects: Seq<&dyn Effect>, idx: int) -> nat
    decreases effects.len() - idx,
{
    if 0 <= idx < effects.len() {
        effects[idx].resolution() * remaining(effects, idx + 1)
    } else {
        1
    }
}

/// The score of a facet that the effects from `idx` on make of a case,
/// counted in parts of their resolution: past the last effect the case's own
/// derived score, before that the weighted sum over the branches of effect
/// `idx`.
pub open spec fn weighted(
    effects: Seq<&dyn Effect>,
    idx: int,
    case: CaseView,
    facet: Facet,
) -> int
    decreases effects.len() - idx, 1int, 0int,
{
    if 0 <= idx < effects.len() {
        weighted_sum(effects, idx, effects[idx].alterations(case), facet)
    } else {
        case.result(facet)
    }
}

/// The sum over branches of effect `idx` of each branch's parts times what
/// the later effects make of its case.
pub open spec fn weighted_sum(
    effects: Seq<&dyn Effect>,
    idx: int,
    alterations: Seq<Alteration>,
    facet: Facet,
) -> int
    decreases effects.len() - idx, 0int, alterations.len(),
{
    if 0 <= idx < effects.len() && alterations.len() > 0 {
        weighted_sum(effects, idx, alterations.drop_last(), facet) + alterations.last().parts
            * weighted(effects, idx + 1, alterations.last().case, facet)
    } else {
        0
    }
}

/// Whether the effects from `idx` on admit the case and every case that
/// they branch it into.
pub open spec fn chain_admits(effects: Seq<&dyn Effect>, idx: int, case: CaseView) -> bool
    decreases effects.len() - idx, 1int, 0int,
{
    if 0 <= idx < effects.len() {
        effects[idx].admits(case) && all_admit(effects, idx, effects[idx].alterations(case))
    } else {
        true
    }
}

/// Whether the effects after `idx` admit the case of every branch.
pub open spec fn all_admit(
    effects: Seq<&dyn Effect>,
    idx: int,
    alterations: Seq<Alteration>,
) -> bool
    decreases effects.len() - idx, 0int, alterations.len(),
{
    if 0 <= idx < effects.len() && alterations.len() > 0 {
        all_admit(effects, idx, alterations.drop_last()) && chain_admits(
            effects,
            idx + 1,
            alterations.last().case,
        )
    } else {
        true
    }
}

/// The weight of all the cases that the effects from `idx` on make of a
/// case, counted in parts of their resolution: past the last effect one,
/// before that the sum over the branches of effect `idx`.
pub open spec fn leaves(effects: Seq<&dyn Effect>, idx: int, case: CaseView) -> int
    decreases effects.len() - idx, 1int, 0int,
{
    if 0 <= idx < effects.len() {
        leaves_sum(effects, idx, effects[idx].alterations(case))
    } else {
        1
    }
}

/// The sum over branches of effect `idx` of each branch's parts times the
/// weight of the cases that the later effects make of its case.
pub open spec fn leaves_sum(
    effects: Seq<&dyn Effect>,
    idx: int,
    alterations: Seq<Alteration>,
) -> int
    decreases effects.len() - idx, 0int, alterations.len(),
{
    if 0 <= idx < effects.len() && alterations.len() > 0 {
        leaves_sum(effects, idx, alterations.drop_last()) + alterations.last().parts * leaves(
            effects,
            idx + 1,
            alterations.last().case,
        )
    } else {
        0
    }
}

/// Whether every effect yields, from every case, branches whose parts add up
/// to its resolution.
pub open spec fn conserving(effects: Seq<&dyn Effect>) -> bool {
    forall|j: int, case: CaseView|
        0 <= j < effects.len() ==> total_parts(#[trigger] effects[j].alterations(case))
            == effects[j].resolution()
}

/// Probability is conserved across nested branch points: where every effect
/// conserves the weight of each case, the cases at the end of the chain
/// weigh, together, the resolution of the chain.
pub proof fn lemma_chain_conserves(effects: Seq<&dyn Effect>, idx: int, case: CaseView)
    requires
        conserving(effects),
        0 <= idx,
    ensures
        leaves(effects, idx, case) == remaining(effects, idx),
    decreases effects.len() - idx, 1int, 0int,
{
    if idx < effects.len() {
        let alterations = effects[idx].alterations(case);
        lemma_branches_conserve(effects, idx, alterations);
        assert(total_parts(alterations) == effects[idx].resolution());
    }
}

proof fn lemma_branches_conserve(
    effects: Seq<&dyn Effect>,
    idx: int,
    alterations: Seq<Alteration>,
)
    requires
        conserving(effects),
        0 <= idx < effects.len(),
    ensures
        leaves_sum(effects, idx, alterations) == total_parts(alterations) * remaining(
            effects,
            idx + 1,
        ),
    decreases effects.len() - idx, 0int, alterations.len(),
{
    let rest = remaining(effects, idx + 1) as int;
    if alterations.len() > 0 {
        let before = alterations.drop_last();
        let last = alterations.last();
        lemma_branches_conserve(effects, idx, before);
        lemma_chain_conserves(effects, idx + 1, last.case);
        assert(total_parts(before) * rest + last.parts * rest == (total_parts(before) + last.parts)
            * rest) by (nonlinear_arith);
    } else {
        assert(0 * rest == 0);
    }
}

/// Whether every entry of an outcome's scores is within 255 times its scale.
pub open spec fn bounded(outcome: &Outcome) -> bool {
    &&& outcome.scale <= SCALE_LIMIT
    &&& forall|i: int|
        0 <= i < FACETS ==> -255 * outcome.scale <= #[trigger] outcome.scores@[i] <= 255
            * outcome.scale
}

/// Whether every effect has a resolution of at least one.
pub open spec fn positive(effects: Seq<&dyn Effect>) -> bool {
    forall|i: int| 0 <= i < effects.len() ==> (#[trigger] effects[i]).resolution() > 0
}

/// Effects of positive resolution have a positive resolution together.
pub proof fn lemma_remaining_positive(effects: Seq<&dyn Effect>, idx: int)
    requires
        positive(effects),
    ensures
        remaining(effects, idx) >= 1,
    decreases effects.len() - idx,
{
    if 0 <= idx < effects.len() {
        lemma_remaining_positive(effects, idx + 1);
        assert(effects[idx].resolution() * remaining(effects, idx + 1) >= 1) by (nonlinear_arith)
            requires
                effects[idx].resolution() >= 1,
                remaining(effects, idx + 1) >= 1,
        ;
    }
}

proof fn lemma_remaining_grows(effects: Seq<&dyn Effect>, idx: int)
    requires
        positive(effects),
        0 <= idx,
    ensures
        remaining(effects, 0) >= remaining(effects, idx),
    decreases idx,
{
    if idx > 0 {
        lemma_remaining_grows(effects, idx - 1);
        if idx - 1 < effects.len() {
            lemma_remaining_positive(effects, idx);
            assert(effects[idx - 1].resolution() * remaining(effects, idx) >= remaining(
                effects,
                idx,
            )) by (nonlinear_arith)
                requires
                    effects[idx - 1].resolution() >= 1,
                    remaining(effects, idx) >= 1,
            ;
        }
    }
}

proof fn lemma_total_parts_take(alterations: Seq<Alteration>, k: int)
    requires
        0 <= k < alterations.len(),
    ensures
        total_parts(alterations.take(k + 1)) == total_parts(alterations.take(k))
            + alterations[k].parts,
        total_parts(alterations.take(k + 1)) <= total_parts(alterations),
    decreases alterations.len() - k,
{
    assert(alterations.take(k + 1).drop_last() =~= alterations.take(k));
    if k + 1 < alterations.len() {
        lemma_total_parts_take(alterations, k + 1);
    } else {
        assert(alterations.take(k + 1) =~= alterations);
    }
}

proof fn lemma_all_admit_each(
    effects: Seq<&dyn Effect>,
    idx: int,
    alterations: Seq<Alteration>,
    k: int,
)
    requires
        0 <= idx < effects.len(),
        0 <= k < alterations.len(),
        all_admit(effects, idx, alterations),
    ensures
        chain_admits(effects, idx + 1, alterations[k].case),
    decreases alterations.len(),
{
    if k < alterations.len() - 1 {
        lemma_all_admit_each(effects, idx, alterations.drop_last(), k);
    }
}

/// Folds the scores of a case at the end of the chain into the outcome, with
/// the weight that the branches leading to it multiply up to.
fn update_after_last_effect(outcome: &mut Outcome, case: &Case, weight: u64)
    requires
        case.wf(),
        bounded(old(outcome)),
        old(outcome).scale + weight <= SCALE_LIMIT,
    ensures
        bounded(final(outcome)),
        final(outcome).probability == old(outcome).probability,
        final(outcome).scale == old(outcome).scale + weight,
        forall|i: int|
            0 <= i < FACETS ==> #[trigger] final(outcome).scores@[i] == old(outcome).scores@[i]
                + weight * case@.result(Facet::at(i)),
{
    let ghost before = outcome.scores@;
    let ghost scale = outcome.scale as int;
    proof {
        case.lemma_wf();
        lemma_derived_bounds(case@.characteristics, case@.roll);
        assert forall|i: int| 0 <= i < FACETS implies -255 * weight <= #[trigger] case.scores@[i]
            * weight <= 255 * weight && case.scores@[i] * weight == weight * case@.result(
            Facet::at(i),
        ) by {
            let part = derived(case@.characteristics, case@.roll)[i];
            assert(part == case@.result(Facet::at(i)));
            assert(-255 * weight <= part * weight <= 255 * weight && part * weight == weight
                * part) by (nonlinear_arith)
                requires
                    -255 <= part <= 255,
                    0 <= weight,
            ;
        }
    }
    let prob = weight as i64;
    update(&mut outcome.scores, &case.scores, |sum: &mut i64, part: &i64|
        requires
            i64::MIN <= *part * prob <= i64::MAX,
            i64::MIN <= *sum + *part * prob <= i64::MAX,
        ensures *final(sum) == *old(sum) + *part * prob,
    {
        *sum += *part * prob;
    });
    outcome.scale = outcome.scale + weight;
}

/// Lets the effects from `idx` on branch the case, and folds what the cases
/// at the end of the chain score into the outcome. The weight is what the
/// branches up to this case multiply up to.
fn expand(
    effects: &Vec<&dyn Effect>,
    idx: usize,
    case: Case,
    weight: u64,
    outcome: &mut Outcome,
) -> (ok: bool)
    requires
        idx <= effects.len(),
        positive(effects@),
        case.wf(),
        bounded(old(outcome)),
        old(outcome).scale + weight * remaining(effects@, idx as int) <= SCALE_LIMIT,
    ensures
        ok == chain_admits(effects@, idx as int, case@),
        final(outcome).probability == old(outcome).probability,
        ok ==> {
            &&& bounded(final(outcome))
            &&& final(outcome).scale == old(outcome).scale + weight * remaining(
                effects@,
                idx as int,
            )
            &&& forall|i: int|
                0 <= i < FACETS ==> #[trigger] final(outcome).scores@[i] == old(outcome).scores@[i]
                    + weight * weighted(effects@, idx as int, case@, Facet::at(i))
        },
    decreases effects.len() - idx,
{
    let ghost start = case@;
    let mut current = case;
    if idx == effects.len() {
        assert(weight * 1 == weight);
        update_after_last_effect(outcome, &current, weight);
        return true;
    }
    let effect = effects[idx];
    if !effect.accepts(&current) {
        return false;
    }
    let ghost before = outcome.scores@;
    let ghost scale = outcome.scale as int;
    let ghost rest = remaining(effects@, idx + 1) as int;
    let mut applicator = EffectApplicator::new(effect.units());
    effect.yield_alterations(&mut applicator, &mut current);
    let ghost alterations = effect.alterations(start);
    let ghost resolution = effect.resolution() as int;
    proof {
        lemma_remaining_positive(effects@, idx + 1);
        assert(remaining(effects@, idx as int) == resolution * rest);
        assert(alterations.take(0).len() == 0);
        assert(total_parts(alterations.take(0)) == 0);
        assert(weight * (0 * rest) == 0) by (nonlinear_arith);
        assert forall|i: int| 0 <= i < FACETS implies weight * weighted_sum(
            effects@,
            idx as int,
            alterations.take(0),
            Facet::at(i),
        ) == 0 by {
            assert(weight * 0 == 0);
        }
    }
    let mut branches = applicator.branches;
    let mut k: usize = 0;
    let count = branches.len();
    while k < count
        invariant
            idx < effects.len(),
            positive(effects@),
            start == case@,
            effect == effects@[idx as int],
            alterations == effect.alterations(start),
            total_parts(alterations) == resolution,
            resolution == effect.resolution(),
            rest == remaining(effects@, idx + 1),
            rest >= 1,
            before.len() == FACETS,
            count == alterations.len(),
            k <= count,
            branches@.len() == count - k,
            forall|i: int| 0 <= i < branches@.len() ==> (#[trigger] branches@[i]).case.wf(),
            forall|i: int|
                0 <= i < branches@.len() ==> (#[trigger] branches@[i]).case@ == alterations[k
                    + i].case && branches@[i].parts == alterations[k + i].parts,
            scale + weight * (resolution * rest) <= SCALE_LIMIT,
            outcome.probability == old(outcome).probability,
            bounded(outcome),
            outcome.scale == scale + weight * (total_parts(alterations.take(k as int)) * rest),
            all_admit(effects@, idx as int, alterations.take(k as int)),
            forall|i: int|
                0 <= i < FACETS ==> #[trigger] outcome.scores@[i] == before[i] + weight
                    * weighted_sum(effects@, idx as int, alterations.take(k as int), Facet::at(i)),
        decreases count - k,
    {
        let ghost done = total_parts(alterations.take(k as int)) as int;
        let ghost sums = outcome.scores@;
        let branch = branches.remove(0);
        let ghost parts = branch.parts as int;
        proof {
            lemma_total_parts_take(alterations, k as int);
            assert(alterations.take(k + 1).drop_last() =~= alterations.take(k as int));
            assert(alterations.take(k + 1).last() == alterations[k as int]);
            assert(parts == alterations[k as int].parts);
            assert(weight * parts >= 0 && weight * parts * rest <= weight * (resolution * rest)
                - weight * (done * rest) && weight * parts <= weight * parts * rest)
                by (nonlinear_arith)
                requires
                    done + parts <= resolution,
                    0 <= parts,
                    0 <= done,
                    0 <= weight,
                    rest >= 1,
            ;
        }
        let ok = expand(effects, idx + 1, branch.case, weight * branch.parts, outcome);
        if !ok {
            proof {
                if all_admit(effects@, idx as int, alterations) {
                    lemma_all_admit_each(effects@, idx as int, alterations, k as int);
                }
            }
            return false;
        }
        proof {
            assert(weight * (done * rest) + weight * parts * rest == weight * ((done + parts)
                * rest)) by (nonlinear_arith);
            assert forall|i: int| 0 <= i < FACETS implies #[trigger] outcome.scores@[i] == before[i]
                + weight * weighted_sum(
                effects@,
                idx as int,
                alterations.take(k + 1),
                Facet::at(i),
            ) by {
                let below = weighted(effects@, idx + 1, alterations[k as int].case, Facet::at(i));
                let so_far = weighted_sum(
                    effects@,
                    idx as int,
                    alterations.take(k as int),
                    Facet::at(i),
                );
                assert(outcome.scores@[i] == sums[i] + (weight * parts) * below);
                assert(sums[i] == before[i] + weight * so_far);
                assert(weight * so_far + (weight * parts) * below == weight * (so_far + parts
                    * below)) by (nonlinear_arith);
            }
        }
        k = k + 1;
    }
    proof {
        assert(alterations.take(count as int) =~= alterations);
    }
    true
}

/// Whether a roll can be resolved under a chain of effects: it can be
/// scored, the chain's resolution is within the limit, and every effect
/// admits every case that reaches it.
pub open spec fn resolvable(
    effects: Seq<&dyn Effect>,
    c: CharacteristicsView,
    roll: Seq<RollFace>,
) -> bool {
    &&& scorable(c, roll)
    &&& remaining(effects, 0) <= SCALE_LIMIT
    &&& chain_admits(effects, 0, CaseView { characteristics: c, roll })
}

/// The resolution of the whole chain, or `None` where it is over the limit.
pub fn chain_resolution(effects: &Vec<&dyn Effect>) -> (r: Option<u64>)
    ensures
        positive(effects@),
        r is Some <==> remaining(effects@, 0) <= SCALE_LIMIT,
        r matches Some(scale) ==> scale == remaining(effects@, 0),
{
    let mut units: Vec<u64> = Vec::new();
    let mut i: usize = 0;
    while i < effects.len()
        invariant
            i <= effects.len(),
            units@.len() == i,
            forall|j: int|
                0 <= j < i ==> #[trigger] units@[j] == effects@[j].resolution() && units@[j] > 0,
        decreases effects.len() - i,
    {
        units.push(effects[i].units());
        i = i + 1;
    }
    assert(positive(effects@)) by {
        assert forall|j: int| 0 <= j < effects@.len() implies (
        #[trigger] effects@[j]).resolution() > 0 by {
            assert(units@[j] > 0);
        }
    }
    let mut scale: u64 = 1;
    let mut i: usize = effects.len();
    while i > 0
        invariant
            i <= effects.len(),
            positive(effects@),
            units@.len() == effects.len(),
            forall|j: int|
                0 <= j < effects.len() ==> #[trigger] units@[j] == effects@[j].resolution(),
            scale == remaining(effects@, i as int),
            scale <= SCALE_LIMIT,
        decreases i,
    {
        i = i - 1;
        let unit = units[i];
        proof {
            lemma_remaining_grows(effects@, i as int);
            assert(remaining(effects@, i as int) == unit * scale);
            assert(unit * scale == scale * unit) by (nonlinear_arith);
        }
        match scale.checked_mul(unit) {
            Some(product) => {
                if product > SCALE_LIMIT {
                    return None;
                }
                scale = product;
            },
            None => {
                return None;
            },
        }
    }
    Some(scale)
}

impl EffectApplicator {
    /// Resolves one roll: scores it, lets the chain of effects branch it, and
    /// folds the branches into one outcome. The outcome has the probability
    /// of the roll, and as scores what the chain makes of the roll. Its scale
    /// is the sum of the weights of all the cases at the end of the chain;
    /// that this is the chain's resolution says that no branch point lost or
    /// invented probability. Without effects the outcome is that of the roll
    /// as it was scored. `None` is returned exactly where the roll cannot be
    /// resolved.
    pub fn apply_effects(
        effects: &Vec<&dyn Effect>,
        characteristics: &Characteristics,
        roll: &[RollFace],
    ) -> (r: Option<Outcome>)
        ensures
            r is Some <==> resolvable(effects@, characteristics@, roll@),
            r matches Some(outcome) ==> {
                &&& outcome.probability == (Ratio {
                    num: mass(roll@) as u64,
                    den: space(roll@) as u64,
                })
                &&& mass(roll@) <= u64::MAX
                &&& space(roll@) <= u64::MAX
                &&& outcome.scale == remaining(effects@, 0)
                &&& bounded(&outcome)
                &&& forall|i: int|
                    0 <= i < FACETS ==> #[trigger] outcome.scores@[i] == weighted(
                        effects@,
                        0,
                        CaseView { characteristics: characteristics@, roll: roll@ },
                        Facet::at(i),
                    )
                &&& effects@.len() == 0 ==> outcome.scale == 1 && outcome.scores@ == derived(
                    characteristics@,
                    roll@,
                )
            },
    {
        if !can_compute(characteristics, roll) {
            return None;
        }
        if chain_resolution(effects).is_none() {
            return None;
        }
        let case = Case::new(characteristics, roll);
        let mut outcome = Outcome {
            probability: case.dice_outcome.probability,
            scores: Scores::default(),
            scale: 0,
        };
        proof {
            lemma_rollable_fits(roll@);
            assert(1 * remaining(effects@, 0) == remaining(effects@, 0)) by (nonlinear_arith);
        }
        if !expand(effects, 0, case, 1, &mut outcome) {
            return None;
        }
        proof {
            assert forall|i: int| 0 <= i < FACETS implies #[trigger] outcome.scores@[i] == weighted(
                effects@,
                0,
                CaseView { characteristics: characteristics@, roll: roll@ },
                Facet::at(i),
            ) by {
                let w = weighted(
                    effects@,
                    0,
                    CaseView { characteristics: characteristics@, roll: roll@ },
                    Facet::at(i),
                );
                assert(1 * w == w);
            }
            if effects@.len() == 0 {
                assert(outcome.scores@ =~= derived(characteristics@, roll@));
            }
        }
        Some(outcome)
    }
}

} // verus!
