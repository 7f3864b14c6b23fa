//! The dice: their kinds, their faces, what a face contributes to a tally,
//! and the catalogue of faces of each kind of die.

use vstd::prelude::*;
use crate::common::{Ratio, Score};
use crate::slots::{
    score_slot, score_slot_mut, score_slots, score_slots_copy, score_slots_zeroed, ScoreSlots,
};

verus! {

/// The axes on which rolled faces are tallied.
#[derive(Clone, Copy, PartialEq, Eq, Structural, Debug, Hash)]
pub enum Facet {
    Damage,
    Shred,
    Skill,
    Bottle,
    Star,
    Explosion,
    Armor,
    Crit,
    Action,
    Hit,
    Miss,
}

/// How many dice facets there are.
pub const FACETS: u8 = 11;

impl Facet {
    /// The position of the facet in a tally.
    pub open spec fn ord(self) -> int {
        match self {
            Facet::Damage => 0,
            Facet::Shred => 1,
            Facet::Skill => 2,
            Facet::Bottle => 3,
            Facet::Star => 4,
            Facet::Explosion => 5,
            Facet::Armor => 6,
            Facet::Crit => 7,
            Facet::Action => 8,
            Facet::Hit => 9,
            Facet::Miss => 10,
        }
    }

    /// The facet at a position; positions past the last one give `Miss`.
    pub open spec fn at(i: int) -> Facet {
        if i == 0 {
            Facet::Damage
        } else if i == 1 {
            Facet::Shred
        } else if i == 2 {
            Facet::Skill
        } else if i == 3 {
            Facet::Bottle
        } else if i == 4 {
            Facet::Star
        } else if i == 5 {
            Facet::Explosion
        } else if i == 6 {
            Facet::Armor
        } else if i == 7 {
            Facet::Crit
        } else if i == 8 {
            Facet::Action
        } else if i == 9 {
            Facet::Hit
        } else {
            Facet::Miss
        }
    }

    pub fn index(self) -> (k: u8)
        ensures
            k == self.ord(),
            k < FACETS,
    {
        match self {
            Facet::Damage => 0,
            Facet::Shred => 1,
            Facet::Skill => 2,
            Facet::Bottle => 3,
            Facet::Star => 4,
            Facet::Explosion => 5,
            Facet::Armor => 6,
            Facet::Crit => 7,
            Facet::Action => 8,
            Facet::Hit => 9,
            Facet::Miss => 10,
        }
    }

    pub fn from_index(k: u8) -> (facet: Facet)
        ensures
            facet == Facet::at(k as int),
            k < FACETS ==> facet.ord() == k,
    {
        if k == 0 {
            Facet::Damage
        } else if k == 1 {
            Facet::Shred
        } else if k == 2 {
            Facet::Skill
        } else if k == 3 {
            Facet::Bottle
        } else if k == 4 {
            Facet::Star
        } else if k == 5 {
            Facet::Explosion
        } else if k == 6 {
            Facet::Armor
        } else if k == 7 {
            Facet::Crit
        } else if k == 8 {
            Facet::Action
        } else if k == 9 {
            Facet::Hit
        } else {
            Facet::Miss
        }
    }
}

/// Every facet has its own position, and `at` finds it again.
pub proof fn lemma_facet_positions(facet: Facet)
    ensures
        0 <= facet.ord() < FACETS,
        Facet::at(facet.ord()) == facet,
{
}

/// A tally: one score for every dice facet.
pub struct Scores {
    pub slots: ScoreSlots,
}

/// The tally in which every facet is zero.
pub open spec fn zeros() -> Seq<int> {
    Seq::new(FACETS as nat, |i: int| 0int)
}

impl View for Scores {
    type V = Seq<int>;

    /// The scores by facet position.
    open spec fn view(&self) -> Seq<int> {
        Seq::new(FACETS as nat, |i: int| score_slots(self.slots)[i as u8] as int)
    }
}

impl Scores {
    /// The score of one facet.
    pub open spec fn of(self, facet: Facet) -> int {
        self@[facet.ord()]
    }

    pub fn get(&self, facet: Facet) -> (v: Score)
        ensures
            v == self.of(facet),
    {
        score_slot(&self.slots, facet.index())
    }

    /// The place of one facet's score. What the caller leaves there is the
    /// facet's score afterwards; the other facets keep theirs.
    pub fn get_mut(&mut self, facet: Facet) -> (v: &mut Score)
        ensures
            *v == old(self).of(facet),
            final(self)@ == old(self)@.update(facet.ord(), *final(v) as int),
    {
        let ghost before = score_slots(self.slots);
        let v = score_slot_mut(&mut self.slots, facet.index());
        proof {
            let k = facet.ord() as u8;
            let after = before.insert(k, *final(v));
            let lhs = Seq::new(FACETS as nat, |i: int| after[i as u8] as int);
            let rhs = Seq::new(FACETS as nat, |i: int| before[i as u8] as int).update(
                facet.ord(),
                *final(v) as int,
            );
            assert(lhs =~= rhs);
        }
        v
    }
}

impl Default for Scores {
    fn default() -> (r: Scores)
        ensures
            r@ == zeros(),
    {
        let r = Scores { slots: score_slots_zeroed() };
        assert(r@ =~= zeros());
        r
    }
}

impl Clone for Scores {
    fn clone(&self) -> (r: Scores)
        ensures
            r@ == self@,
    {
        Scores { slots: score_slots_copy(&self.slots) }
    }
}

/// What the listed facets are set to, starting from zeros; a facet listed
/// twice keeps the later value.
pub open spec fn listed(facets: Seq<(Facet, Score)>) -> Seq<int>
    decreases facets.len(),
{
    if facets.len() == 0 {
        zeros()
    } else {
        listed(facets.drop_last()).update(facets.last().0.ord(), facets.last().1 as int)
    }
}

/// A tally that holds the listed scores and zero elsewhere.
pub fn new_scores(facets: &[(Facet, Score)]) -> (res: Scores)
    ensures
        res@ == listed(facets@),
{
    let mut res = Scores::default();
    let mut i: usize = 0;
    while i < facets.len()
        invariant
            i <= facets.len(),
            res@ == listed(facets@.take(i as int)),
        decreases facets.len() - i,
    {
        let pair = facets[i];
        *res.get_mut(pair.0) = pair.1;
        proof {
            assert(facets@.take(i + 1).drop_last() =~= facets@.take(i as int));
        }
        i = i + 1;
    }
    proof {
        assert(facets@.take(facets.len() as int) =~= facets@);
    }
    res
}

/// Whether `f` may be called on a place that holds `sum` together with
/// `part`.
pub open spec fn combinable<F: Fn(&mut Score, &Score)>(f: F, sum: int, part: int) -> bool {
    forall|place: &mut Score, with: &Score|
        *place == sum && *with == part ==> #[trigger] f.requires((place, with))
}

/// Combines two tallies facet by facet: `f` is given the place of each score
/// of `what` together with the score of the same facet in `with`, and what
/// it leaves in the place is the facet's score afterwards.
pub fn update(what: &mut Scores, with: &Scores, f: impl Fn(&mut Score, &Score))
    requires
        forall|i: int| 0 <= i < FACETS ==> combinable(f, #[trigger] old(what)@[i], with@[i]),
    ensures
        final(what)@.len() == FACETS,
        forall|i: int|
            0 <= i < FACETS ==> Score::MIN <= #[trigger] final(what)@[i] <= Score::MAX && exists|
                place: &mut Score,
                part: &Score,
            |
                *place == old(what)@[i] && *part == with@[i] && #[trigger] f.ensures(
                    (place, part),
                    (),
                ) && *final(place) == final(what)@[i],
{
    let ghost before = what@;
    let mut k: u8 = 0;
    while k < FACETS
        invariant
            k <= FACETS,
            before == old(what)@,
            what@.len() == FACETS,
            forall|i: int| 0 <= i < FACETS ==> combinable(f, #[trigger] before[i], with@[i]),
            forall|i: int| k <= i < FACETS ==> #[trigger] what@[i] == before[i],
            forall|i: int|
                0 <= i < k ==> Score::MIN <= #[trigger] what@[i] <= Score::MAX && exists|
                    place: &mut Score,
                    part: &Score,
                |
                    *place == before[i] && *part == with@[i] && #[trigger] f.ensures(
                        (place, part),
                        (),
                    ) && *final(place) == what@[i],
        decreases FACETS - k,
    {
        let facet = Facet::from_index(k);
        let part = with.get(facet);
        let mut sum = what.get(facet);
        assert(combinable(f, before[k as int], with@[k as int]));
        f(&mut sum, &part);
        let ghost so_far = what@;
        *what.get_mut(facet) = sum;
        assert forall|i: int| 0 <= i < k + 1 implies Score::MIN <= #[trigger] what@[i]
            <= Score::MAX && exists|place: &mut Score, part: &Score|
            *place == before[i] && *part == with@[i] && #[trigger] f.ensures((place, part), ())
                && *final(place) == what@[i] by {
            if i < k {
                assert(what@[i] == so_far[i]);
                assert(Score::MIN <= so_far[i] <= Score::MAX);
            }
        }
        k = k + 1;
    }
}

/// The kinds of dice.
#[derive(Clone, Copy, PartialEq, Eq, Structural, Debug)]
pub enum Type {
    White,
    Red,
    Green,
    Yellow,
    Black,
    Blue,
}

/// What can be printed on one side of a die.
#[derive(Clone, Copy, PartialEq, Eq, Structural, Debug)]
pub enum Face {
    Skill2,
    Skill3,
    Skill4,
    Skill5,
    Skill6,
    Skill7,
    Skill8,
    Skill9,
    Skill10,
    SkillMinus1,
    SkillMinus2,
    SkillMinus3,
    Blank,
    Damage1,
    Damage2,
    Shred1,
    Shred2,
    Bottle1,
    Bottle2,
    Star1,
    Star2,
    BottleStar,
    Explosion1,
    Crit1,
    Action1,
    Miss1,
    MissAction,
    Armor1,
    Armor2,
    Armor3,
    Armor4,
}

/// How many sides a die of this kind has.
#[verifier::allow_in_spec]
pub fn sides(die: Type) -> u64
    returns
        (match die {
            Type::White => 20u64,
            _ => 12u64,
        }),
{
    match die {
        Type::White => 20,
        _ => 12,
    }
}

/// One face as it came up on one die, with the probability of that.
#[derive(Clone, Copy, PartialEq, Eq, Structural, Debug)]
pub struct RollFace {
    pub die: Type,
    pub face: Face,
    pub probability: Ratio,
}

/// The face that `count` of the die's sides show.
#[verifier::allow_in_spec]
pub fn side(die: Type, face: Face, count: u64) -> RollFace
    returns
        (RollFace { die, face, probability: Ratio { num: count, den: sides(die) } }),
{
    RollFace { die, face, probability: Ratio { num: count, den: sides(die) } }
}

/// The catalogue: the faces of a kind of die, each with its share of the
/// sides.
pub open spec fn catalogue(die: Type) -> Seq<RollFace> {
    match die {
        Type::White => seq![
            side(Type::White, Face::Action1, 2),
            side(Type::White, Face::Crit1, 3),
            side(Type::White, Face::Skill2, 1),
            side(Type::White, Face::Skill3, 1),
            side(Type::White, Face::Skill4, 1),
            side(Type::White, Face::Skill5, 1),
            side(Type::White, Face::Skill6, 2),
            side(Type::White, Face::Skill7, 2),
            side(Type::White, Face::Skill8, 2),
            side(Type::White, Face::Skill9, 1),
            side(Type::White, Face::Skill10, 1),
            side(Type::White, Face::Miss1, 2),
            side(Type::White, Face::MissAction, 1),
        ],
        Type::Red => seq![
            side(Type::Red, Face::Armor1, 4),
            side(Type::Red, Face::Armor2, 3),
            side(Type::Red, Face::Armor3, 3),
            side(Type::Red, Face::Armor4, 2),
        ],
        Type::Black => seq![
            side(Type::Black, Face::Damage1, 5),
            side(Type::Black, Face::Damage2, 1),
            side(Type::Black, Face::Blank, 3),
            side(Type::Black, Face::Bottle1, 1),
            side(Type::Black, Face::Shred1, 1),
            side(Type::Black, Face::SkillMinus1, 1),
        ],
        Type::Green => seq![
            side(Type::Green, Face::Blank, 4),
            side(Type::Green, Face::SkillMinus2, 2),
            side(Type::Green, Face::SkillMinus3, 1),
            side(Type::Green, Face::Shred1, 2),
            side(Type::Green, Face::Damage1, 2),
            side(Type::Green, Face::Bottle1, 1),
        ],
        Type::Yellow => seq![
            side(Type::Yellow, Face::Shred1, 5),
            side(Type::Yellow, Face::Shred2, 1),
            side(Type::Yellow, Face::Blank, 2),
            side(Type::Yellow, Face::Bottle1, 1),
            side(Type::Yellow, Face::SkillMinus1, 2),
            side(Type::Yellow, Face::Damage1, 1),
        ],
        Type::Blue => seq![
            side(Type::Blue, Face::Bottle1, 4),
            side(Type::Blue, Face::Bottle2, 2),
            side(Type::Blue, Face::BottleStar, 1),
            side(Type::Blue, Face::Star1, 2),
            side(Type::Blue, Face::Star2, 1),
            side(Type::Blue, Face::Explosion1, 2),
        ],
    }
}

/// The sum of the numerators of the faces' probabilities.
pub open spec fn counts(faces: Seq<RollFace>) -> int
    decreases faces.len(),
{
    if faces.len() == 0 {
        0
    } else {
        counts(faces.drop_last()) + faces.last().probability.num
    }
}

/// Every face of the catalogue belongs to its die, its probability is a share
/// of the die's sides, and the shares of a die add up to all of its sides.
pub proof fn lemma_catalogue_is_a_distribution(die: Type)
    ensures
        catalogue(die).len() > 0,
        forall|i: int|
            0 <= i < catalogue(die).len() ==> {
                &&& (#[trigger] catalogue(die)[i]).die == die
                &&& catalogue(die)[i].probability.den == sides(die)
                &&& catalogue(die)[i].probability.num <= sides(die)
            },
        counts(catalogue(die)) == sides(die),
{
    reveal_with_fuel(counts, 14);
    let faces = catalogue(die);
    match die {
        Type::White => {
            lemma_counts_unfold(faces, 13);
        },
        _ => {
            lemma_counts_unfold(faces, 6);
        },
    }
}

/// The sum of the first `n` numerators, written out.
pub open spec fn counts_upto(faces: Seq<RollFace>, n: int) -> int
    decreases n,
{
    if n <= 0 {
        0
    } else {
        counts_upto(faces, n - 1) + faces[n - 1].probability.num
    }
}

/// The sum of the numerators of the first `n` faces, either way.
pub proof fn lemma_counts_upto(faces: Seq<RollFace>, n: int)
    requires
        0 <= n <= faces.len(),
    ensures
        counts(faces.take(n)) == counts_upto(faces, n),
    decreases n,
{
    if n > 0 {
        assert(faces.take(n).drop_last() =~= faces.take(n - 1));
        lemma_counts_upto(faces, n - 1);
    }
}

/// The sum of the numerators of all the faces, either way.
pub proof fn lemma_counts_unfold(faces: Seq<RollFace>, n: int)
    requires
        0 <= n,
        faces.len() <= n,
    ensures
        counts(faces) == counts_upto(faces, faces.len() as int),
{
    assert(faces.take(faces.len() as int) =~= faces);
    lemma_counts_upto(faces, faces.len() as int);
}

impl RollFace {
    /// What the face adds to a facet of the tally.
    pub open spec fn delta(self, facet: Facet) -> int {
        match self.face {
            Face::Skill2 => if facet == Facet::Skill { 2 } else { 0 },
            Face::Skill3 => if facet == Facet::Skill { 3 } else { 0 },
            Face::Skill4 => if facet == Facet::Skill { 4 } else { 0 },
            Face::Skill5 => if facet == Facet::Skill { 5 } else { 0 },
            Face::Skill6 => if facet == Facet::Skill { 6 } else { 0 },
            Face::Skill7 => if facet == Facet::Skill { 7 } else { 0 },
            Face::Skill8 => if facet == Facet::Skill { 8 } else { 0 },
            Face::Skill9 => if facet == Facet::Skill { 9 } else { 0 },
            Face::Skill10 => if facet == Facet::Skill { 10 } else { 0 },
            Face::SkillMinus1 => if facet == Facet::Skill { -1 } else { 0 },
            Face::SkillMinus2 => if facet == Facet::Skill { -2 } else { 0 },
            Face::SkillMinus3 => if facet == Facet::Skill { -3 } else { 0 },
            Face::Blank => if self.die == Type::Green && facet == Facet::Skill { -2 } else { 0 },
            Face::Damage1 => if facet == Facet::Damage { 1 } else { 0 },
            Face::Damage2 => if facet == Facet::Damage { 2 } else { 0 },
            Face::Shred1 => if facet == Facet::Shred { 1 } else { 0 },
            Face::Shred2 => if facet == Facet::Shred { 2 } else { 0 },
            Face::Bottle1 => if facet == Facet::Bottle { 1 } else { 0 },
            Face::Bottle2 => if facet == Facet::Bottle { 2 } else { 0 },
            Face::Star1 => if facet == Facet::Star { 1 } else { 0 },
            Face::Star2 => if facet == Facet::Star { 2 } else { 0 },
            Face::BottleStar => if facet == Facet::Bottle || facet == Facet::Star { 1 } else { 0 },
            Face::Explosion1 => if facet == Facet::Explosion { 1 } else { 0 },
            Face::Crit1 => if facet == Facet::Crit || facet == Facet::Hit { 1 } else { 0 },
            Face::Action1 => if facet == Facet::Action || facet == Facet::Skill { 1 } else { 0 },
            Face::Miss1 => 0,
            Face::MissAction => if facet == Facet::Action { 1 } else { 0 },
            Face::Armor1 => if facet == Facet::Armor { 1 } else { 0 },
            Face::Armor2 => if facet == Facet::Armor { 2 } else { 0 },
            Face::Armor3 => if facet == Facet::Armor { 3 } else { 0 },
            Face::Armor4 => if facet == Facet::Armor { 4 } else { 0 },
        }
    }

    /// Whether the face sets the `Miss` facet, whatever it held.
    pub open spec fn forces_miss(self) -> bool {
        self.face == Face::Miss1 || self.face == Face::MissAction
    }

    /// The score of one facet once this face is counted on top of `before`.
    pub open spec fn scored_facet(self, before: int, facet: Facet) -> int {
        if facet == Facet::Miss && self.forces_miss() {
            1
        } else {
            before + self.delta(facet)
        }
    }

    /// The tally once this face is counted on top of `tally`.
    pub open spec fn scored(self, tally: Seq<int>) -> Seq<int> {
        Seq::new(FACETS as nat, |i: int| self.scored_facet(tally[i], Facet::at(i)))
    }

    /// Whether counting this face keeps every number within its type.
    pub open spec fn countable(self, probability: Ratio, tally: Seq<int>) -> bool {
        &&& probability.num * self.probability.num <= u64::MAX
        &&& probability.den * self.probability.den <= u64::MAX
        &&& forall|i: int|
            0 <= i < FACETS ==> Score::MIN <= #[trigger] self.scored(tally)[i] <= Score::MAX
    }

    /// What the face adds to one facet.
    pub fn delta_of(&self, facet: Facet) -> (d: Score)
        ensures
            d == self.delta(facet),
            -3 <= d <= 10,
    {
        match self.face {
            Face::Skill2 => if facet == Facet::Skill { 2 } else { 0 },
            Face::Skill3 => if facet == Facet::Skill { 3 } else { 0 },
            Face::Skill4 => if facet == Facet::Skill { 4 } else { 0 },
            Face::Skill5 => if facet == Facet::Skill { 5 } else { 0 },
            Face::Skill6 => if facet == Facet::Skill { 6 } else { 0 },
            Face::Skill7 => if facet == Facet::Skill { 7 } else { 0 },
            Face::Skill8 => if facet == Facet::Skill { 8 } else { 0 },
            Face::Skill9 => if facet == Facet::Skill { 9 } else { 0 },
            Face::Skill10 => if facet == Facet::Skill { 10 } else { 0 },
            Face::SkillMinus1 => if facet == Facet::Skill { -1 } else { 0 },
            Face::SkillMinus2 => if facet == Facet::Skill { -2 } else { 0 },
            Face::SkillMinus3 => if facet == Facet::Skill { -3 } else { 0 },
            Face::Blank => if self.die == Type::Green && facet == Facet::Skill { -2 } else { 0 },
            Face::Damage1 => if facet == Facet::Damage { 1 } else { 0 },
            Face::Damage2 => if facet == Facet::Damage { 2 } else { 0 },
            Face::Shred1 => if facet == Facet::Shred { 1 } else { 0 },
            Face::Shred2 => if facet == Facet::Shred { 2 } else { 0 },
            Face::Bottle1 => if facet == Facet::Bottle { 1 } else { 0 },
            Face::Bottle2 => if facet == Facet::Bottle { 2 } else { 0 },
            Face::Star1 => if facet == Facet::Star { 1 } else { 0 },
            Face::Star2 => if facet == Facet::Star { 2 } else { 0 },
            Face::BottleStar => if facet == Facet::Bottle || facet == Facet::Star { 1 } else { 0 },
            Face::Explosion1 => if facet == Facet::Explosion { 1 } else { 0 },
            Face::Crit1 => if facet == Facet::Crit || facet == Facet::Hit { 1 } else { 0 },
            Face::Action1 => if facet == Facet::Action || facet == Facet::Skill { 1 } else { 0 },
            Face::Miss1 => 0,
            Face::MissAction => if facet == Facet::Action { 1 } else { 0 },
            Face::Armor1 => if facet == Facet::Armor { 1 } else { 0 },
            Face::Armor2 => if facet == Facet::Armor { 2 } else { 0 },
            Face::Armor3 => if facet == Facet::Armor { 3 } else { 0 },
            Face::Armor4 => if facet == Facet::Armor { 4 } else { 0 },
        }
    }

    /// Whether this face can be counted into `outcome` with every number
    /// staying within its type.
    pub fn can_count(&self, outcome: &Outcome) -> (ok: bool)
        ensures
            ok == self.countable(outcome.probability, outcome.scores@),
    {
        if outcome.probability.num.checked_mul(self.probability.num).is_none() {
            return false;
        }
        if outcome.probability.den.checked_mul(self.probability.den).is_none() {
            return false;
        }
        let forces_miss = self.face == Face::Miss1 || self.face == Face::MissAction;
        let mut k: u8 = 0;
        while k < FACETS
            invariant
                k <= FACETS,
                forces_miss == self.forces_miss(),
                outcome.scores@.len() == FACETS,
                forall|i: int|
                    0 <= i < k ==> Score::MIN <= #[trigger] self.scored(outcome.scores@)[i]
                        <= Score::MAX,
            decreases FACETS - k,
        {
            let facet = Facet::from_index(k);
            if !(forces_miss && facet == Facet::Miss) {
                let counted = outcome.scores.get(facet) as i16 + self.delta_of(facet) as i16;
                assert(counted == self.scored(outcome.scores@)[k as int]);
                if counted < -128 || counted > 127 {
                    return false;
                }
            }
            k = k + 1;
        }
        true
    }

    /// Counts this face into `outcome`: its probability is multiplied in, and
    /// every facet takes what the face contributes.
    pub fn add_score(&self, outcome: &mut Outcome)
        requires
            self.countable(old(outcome).probability, old(outcome).scores@),
        ensures
            final(outcome).scores@ == self.scored(old(outcome).scores@),
            final(outcome).probability.num == old(outcome).probability.num * self.probability.num,
            final(outcome).probability.den == old(outcome).probability.den * self.probability.den,
    {
        let ghost before = outcome.scores@;
        let ghost counted = Ratio {
            num: (outcome.probability.num * self.probability.num) as u64,
            den: (outcome.probability.den * self.probability.den) as u64,
        };
        outcome.probability = Ratio {
            num: outcome.probability.num * self.probability.num,
            den: outcome.probability.den * self.probability.den,
        };
        let forces_miss = self.face == Face::Miss1 || self.face == Face::MissAction;
        let mut k: u8 = 0;
        while k < FACETS
            invariant
                k <= FACETS,
                before.len() == FACETS,
                outcome.probability == counted,
                forces_miss == self.forces_miss(),
                outcome.scores@.len() == FACETS,
                forall|i: int|
                    0 <= i < FACETS ==> Score::MIN <= #[trigger] self.scored(before)[i]
                        <= Score::MAX,
                forall|i: int| 0 <= i < k ==> outcome.scores@[i] == self.scored(before)[i],
                forall|i: int| k <= i < FACETS ==> outcome.scores@[i] == before[i],
            decreases FACETS - k,
        {
            let facet = Facet::from_index(k);
            assert(Score::MIN <= self.scored(before)[k as int] <= Score::MAX);
            if forces_miss && facet == Facet::Miss {
                *outcome.scores.get_mut(facet) = 1;
            } else {
                let d = self.delta_of(facet);
                let v = outcome.scores.get(facet);
                *outcome.scores.get_mut(facet) = v + d;
            }
            k = k + 1;
        }
        assert(outcome.scores@ =~= self.scored(before));
    }

    /// The faces of a kind of die, in the order of the catalogue.
    pub fn faces_of(die: Type) -> (faces: Vec<RollFace>)
        ensures
            faces@ == catalogue(die),
    {
        let faces = match die {
            Type::White => vec![
                side(Type::White, Face::Action1, 2),
                side(Type::White, Face::Crit1, 3),
                side(Type::White, Face::Skill2, 1),
                side(Type::White, Face::Skill3, 1),
                side(Type::White, Face::Skill4, 1),
                side(Type::White, Face::Skill5, 1),
                side(Type::White, Face::Skill6, 2),
                side(Type::White, Face::Skill7, 2),
                side(Type::White, Face::Skill8, 2),
                side(Type::White, Face::Skill9, 1),
                side(Type::White, Face::Skill10, 1),
                side(Type::White, Face::Miss1, 2),
                side(Type::White, Face::MissAction, 1),
            ],
            Type::Red => vec![
                side(Type::Red, Face::Armor1, 4),
                side(Type::Red, Face::Armor2, 3),
                side(Type::Red, Face::Armor3, 3),
                side(Type::Red, Face::Armor4, 2),
            ],
            Type::Black => vec![
                side(Type::Black, Face::Damage1, 5),
                side(Type::Black, Face::Damage2, 1),
                side(Type::Black, Face::Blank, 3),
                side(Type::Black, Face::Bottle1, 1),
                side(Type::Black, Face::Shred1, 1),
                side(Type::Black, Face::SkillMinus1, 1),
            ],
            Type::Green => vec![
                side(Type::Green, Face::Blank, 4),
                side(Type::Green, Face::SkillMinus2, 2),
                side(Type::Green, Face::SkillMinus3, 1),
                side(Type::Green, Face::Shred1, 2),
                side(Type::Green, Face::Damage1, 2),
                side(Type::Green, Face::Bottle1, 1),
            ],
            Type::Yellow => vec![
                side(Type::Yellow, Face::Shred1, 5),
                side(Type::Yellow, Face::Shred2, 1),
                side(Type::Yellow, Face::Blank, 2),
                side(Type::Yellow, Face::Bottle1, 1),
                side(Type::Yellow, Face::SkillMinus1, 2),
                side(Type::Yellow, Face::Damage1, 1),
            ],
            Type::Blue => vec![
                side(Type::Blue, Face::Bottle1, 4),
                side(Type::Blue, Face::Bottle2, 2),
                side(Type::Blue, Face::BottleStar, 1),
                side(Type::Blue, Face::Star1, 2),
                side(Type::Blue, Face::Star2, 1),
                side(Type::Blue, Face::Explosion1, 2),
            ],
        };
        assert(faces@ =~= catalogue(die));
        faces
    }
}

/// A tally together with the probability of the rolls it stands for.
pub struct Outcome {
    pub probability: Ratio,
    pub scores: Scores,
}

impl Clone for Outcome {
    fn clone(&self) -> (r: Outcome)
        ensures
            r.probability == self.probability,
            r.scores@ == self.scores@,
    {
        Outcome { probability: self.probability, scores: self.scores.clone() }
    }
}

impl Outcome {
    /// The outcome of no roll at all: certain, with nothing tallied.
    pub fn new() -> (r: Outcome)
        ensures
            r.probability == (Ratio { num: 1, den: 1 }),
            r.scores@ == zeros(),
    {
        Outcome { probability: Ratio { num: 1, den: 1 }, scores: Scores::default() }
    }
}

impl Default for Outcome {
    fn default() -> (r: Outcome)
        ensures
            r.probability == (Ratio { num: 1, den: 1 }),
            r.scores@ == zeros(),
    {
        Outcome::new()
    }
}

/// The tally of a roll: its faces counted in order, starting from zeros.
pub open spec fn tally(roll: Seq<RollFace>) -> Seq<int>
    decreases roll.len(),
{
    if roll.len() == 0 {
        zeros()
    } else {
        roll.last().scored(tally(roll.drop_last()))
    }
}

/// The product of the numerators of the faces' probabilities.
pub open spec fn mass(roll: Seq<RollFace>) -> nat
    decreases roll.len(),
{
    if roll.len() == 0 {
        1
    } else {
        mass(roll.drop_last()) * roll.last().probability.num as nat
    }
}

/// The product of the denominators of the faces' probabilities.
pub open spec fn space(roll: Seq<RollFace>) -> nat
    decreases roll.len(),
{
    if roll.len() == 0 {
        1
    } else {
        space(roll.drop_last()) * roll.last().probability.den as nat
    }
}

} // verus!
