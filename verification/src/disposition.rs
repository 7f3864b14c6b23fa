//! A whole attack: the dice rolled, the attacker's characteristics and the
//! effects in force, averaged over every roll that the dice can show.

use vstd::prelude::*;
use crate::attack;
use crate::attack::{
    remaining, resolvable, weighted, CaseView, Characteristics, CharacteristicsView, Effect,
    EffectApplicator, Outcome, SCALE_LIMIT,
};
use crate::cartesian_fold::{
    all_positive, combination, count, digits, lemma_count_positive, lemma_digits_in_range,
    lemma_digits_len, lemma_split, lengths, IterExt,
};
use crate::common::Ratio;
use crate::dice;
use crate::dice::{catalogue, counts, counts_upto, mass, sides, space, RollFace};

verus! {

/// The faces that each of the dice can show.
pub open spec fn factors(dice: Seq<dice::Type>) -> Seq<Seq<RollFace>> {
    Seq::new(dice.len(), |i: int| catalogue(dice[i]))
}

/// How many rolls the dice can show.
pub open spec fn rolls(dice: Seq<dice::Type>) -> int {
    count(lengths(factors(dice)))
}

/// The size of the sample space of the dice: the product of their sides.
pub open spec fn sample_space(dice: Seq<dice::Type>) -> nat
    decreases dice.len(),
{
    if dice.len() == 0 {
        1
    } else {
        sample_space(dice.drop_last()) * sides(dice.last()) as nat
    }
}

/// The `n`-th roll of the dice.
pub open spec fn roll_at(dice: Seq<dice::Type>, n: int) -> Seq<RollFace> {
    combination(factors(dice), n)
}

/// The probability mass of the first `k` rolls, counted in sides of the
/// sample space.
pub open spec fn mass_upto(dice: Seq<dice::Type>, k: int) -> int
    decreases k,
{
    if k <= 0 {
        0
    } else {
        mass_upto(dice, k - 1) + mass(roll_at(dice, k - 1))
    }
}

/// The score of a facet summed over the first `k` rolls, each roll weighted
/// by its probability mass.
pub open spec fn total_upto(
    effects: Seq<&dyn Effect>,
    c: CharacteristicsView,
    dice: Seq<dice::Type>,
    facet: attack::Facet,
    k: int,
) -> int
    decreases k,
{
    if k <= 0 {
        0
    } else {
        total_upto(effects, c, dice, facet, k - 1) + mass(roll_at(dice, k - 1)) * weighted(
            effects,
            0,
            CaseView { characteristics: c, roll: roll_at(dice, k - 1) },
            facet,
        )
    }
}

/// Whether the attack can be averaged: its scale is within the limit, and
/// every roll of the dice can be resolved.
pub open spec fn averageable(
    effects: Seq<&dyn Effect>,
    c: CharacteristicsView,
    dice: Seq<dice::Type>,
) -> bool {
    &&& sample_space(dice) * remaining(effects, 0) <= SCALE_LIMIT
    &&& forall|n: int| 0 <= n < rolls(dice) ==> #[trigger] resolvable(effects, c, roll_at(dice, n))
}

/// No die is without faces.
pub proof fn lemma_factors_positive(dice: Seq<dice::Type>)
    ensures
        all_positive(lengths(factors(dice))),
        rolls(dice) > 0,
        forall|i: int|
            0 <= i < dice.len() ==> #[trigger] lengths(factors(dice))[i] == catalogue(
                dice[i],
            ).len(),
{
    assert forall|i: int| 0 <= i < lengths(factors(dice)).len() implies #[trigger] lengths(
        factors(dice),
    )[i] > 0 by {
        dice::lemma_catalogue_is_a_distribution(dice[i]);
    }
    lemma_count_positive(lengths(factors(dice)));
}

/// A roll of the dice is a roll of all the dice but the last, together with
/// a face of the last die.
pub proof fn lemma_roll_unfold(dice: Seq<dice::Type>, n: int)
    requires
        dice.len() > 0,
        0 <= n < rolls(dice),
    ensures
        rolls(dice) == rolls(dice.drop_last()) * catalogue(dice.last()).len(),
        rolls(dice.drop_last()) > 0,
        0 <= n / rolls(dice.drop_last()) < catalogue(dice.last()).len(),
        0 <= n % rolls(dice.drop_last()) < rolls(dice.drop_last()),
        roll_at(dice, n) == roll_at(dice.drop_last(), n % rolls(dice.drop_last())).push(
            catalogue(dice.last())[n / rolls(dice.drop_last())],
        ),
{
    let low = dice.drop_last();
    let lens = lengths(factors(dice));
    let w = rolls(low);
    lemma_factors_positive(dice);
    lemma_factors_positive(low);
    assert(lens.drop_last() =~= lengths(factors(low)));
    assert(lens.last() == catalogue(dice.last()).len());
    assert(rolls(dice) == w * lens.last());
    lemma_split(w, lens.last(), n);
    lemma_digits_in_range(lens, n);
    lemma_digits_len(lengths(factors(low)), n % w);
    lemma_digits_in_range(lengths(factors(low)), n % w);
    assert(digits(lens, n) == digits(lengths(factors(low)), n % w).push(n / w));
    assert(digits(lens, n)[dice.len() - 1] == n / w);
    assert(roll_at(dice, n) =~= roll_at(low, n % w).push(catalogue(dice.last())[n / w]));
}

/// Every roll of the dice has the whole sample space as the denominator of
/// its probability, and a mass that is its share of it.
pub proof fn lemma_roll_space(dice: Seq<dice::Type>, n: int)
    requires
        0 <= n < rolls(dice),
    ensures
        roll_at(dice, n).len() == dice.len(),
        space(roll_at(dice, n)) == sample_space(dice),
        0 <= mass(roll_at(dice, n)) <= sample_space(dice),
        forall|i: int| 0 <= i < dice.len() ==> (#[trigger] roll_at(dice, n)[i]).die == dice[i],
    decreases dice.len(),
{
    if dice.len() > 0 {
        let low = dice.drop_last();
        let w = rolls(low);
        lemma_roll_unfold(dice, n);
        lemma_roll_space(low, n % w);
        dice::lemma_catalogue_is_a_distribution(dice.last());
        let face = catalogue(dice.last())[n / w];
        let roll = roll_at(dice, n);
        assert(roll.drop_last() =~= roll_at(low, n % w));
        assert(roll.last() == face);
        assert(mass(roll) == mass(roll_at(low, n % w)) * face.probability.num);
        assert(mass(roll_at(low, n % w)) * face.probability.num <= sample_space(low) * sides(
            dice.last(),
        )) by (nonlinear_arith)
            requires
                0 <= mass(roll_at(low, n % w)) <= sample_space(low),
                0 <= face.probability.num <= sides(dice.last()),
        ;
        assert forall|i: int| 0 <= i < dice.len() implies (#[trigger] roll[i]).die == dice[i] by {
            if i < low.len() {
                assert(roll[i] == roll_at(low, n % w)[i]);
                assert(low[i] == dice[i]);
            }
        }
    } else {
        assert(roll_at(dice, n) =~= Seq::<RollFace>::empty());
    }
}

proof fn lemma_mass_split(dice: Seq<dice::Type>, q: int, r: int)
    requires
        dice.len() > 0,
        0 <= q < catalogue(dice.last()).len(),
        0 <= r <= rolls(dice.drop_last()),
    ensures
        mass_upto(dice, q * rolls(dice.drop_last()) + r) == mass_upto(
            dice.drop_last(),
            rolls(dice.drop_last()),
        ) * counts_upto(catalogue(dice.last()), q) + catalogue(dice.last())[q].probability.num
            * mass_upto(dice.drop_last(), r),
    decreases q, r,
{
    let low = dice.drop_last();
    let top = catalogue(dice.last());
    let w = rolls(low);
    let whole = mass_upto(low, w);
    lemma_factors_positive(low);
    lemma_factors_positive(dice);
    assert(lengths(factors(dice)).drop_last() =~= lengths(factors(low)));
    assert(rolls(dice) == w * top.len());
    if r == 0 {
        if q == 0 {
            assert(0 * w + 0 == 0);
            assert(whole * 0 == 0);
            assert(top[0].probability.num * 0 == 0);
        } else {
            lemma_mass_split(dice, q - 1, w);
            assert((q - 1) * w + w == q * w + 0) by (nonlinear_arith);
            assert(whole * counts_upto(top, q - 1) + top[q - 1].probability.num * whole == whole
                * (counts_upto(top, q - 1) + top[q - 1].probability.num)) by (nonlinear_arith);
            assert(top[q].probability.num * 0 == 0);
        }
    } else {
        lemma_mass_split(dice, q, r - 1);
        let n = q * w + (r - 1);
        assert(0 <= n < w * top.len()) by (nonlinear_arith)
            requires
                n == q * w + (r - 1),
                0 <= q,
                q + 1 <= top.len(),
                1 <= r <= w,
        ;
        vstd::arithmetic::div_mod::lemma_fundamental_div_mod_converse(n, w, q, r - 1);
        lemma_roll_unfold(dice, n);
        let roll = roll_at(dice, n);
        assert(roll.drop_last() =~= roll_at(low, r - 1));
        assert(roll.last() == top[q]);
        assert(mass(roll) == mass(roll_at(low, r - 1)) * top[q].probability.num);
        assert(q * w + r == n + 1);
        assert(top[q].probability.num * mass_upto(low, r - 1) + mass(roll_at(low, r - 1))
            * top[q].probability.num == top[q].probability.num * (mass_upto(low, r - 1) + mass(
            roll_at(low, r - 1),
        ))) by (nonlinear_arith);
    }
}

/// The probabilities of all the rolls of the dice add up to one: their
/// masses add up to the size of the sample space, which is the denominator
/// of each.
pub proof fn lemma_mass_of_all_rolls(dice: Seq<dice::Type>)
    ensures
        mass_upto(dice, rolls(dice)) == sample_space(dice),
    decreases dice.len(),
{
    if dice.len() == 0 {
        assert(lengths(factors(dice)).len() == 0);
        assert(rolls(dice) == 1);
        reveal_with_fuel(mass_upto, 2);
        assert(roll_at(dice, 0) =~= Seq::<RollFace>::empty());
    } else {
        let low = dice.drop_last();
        let top = catalogue(dice.last());
        let w = rolls(low);
        let last = top.len() - 1;
        lemma_mass_of_all_rolls(low);
        lemma_factors_positive(low);
        lemma_factors_positive(dice);
        dice::lemma_catalogue_is_a_distribution(dice.last());
        dice::lemma_counts_unfold(top, top.len() as int);
        assert(lengths(factors(dice)).drop_last() =~= lengths(factors(low)));
        assert(rolls(dice) == w * top.len());
        lemma_mass_split(dice, last, w);
        assert(last * w + w == w * top.len()) by (nonlinear_arith)
            requires
                last == top.len() - 1,
        ;
        assert(counts_upto(top, top.len() as int) == counts_upto(top, last)
            + top[last].probability.num);
        assert(mass_upto(low, w) * counts_upto(top, last) + top[last].probability.num * mass_upto(
            low,
            w,
        ) == mass_upto(low, w) * (counts_upto(top, last) + top[last].probability.num))
            by (nonlinear_arith);
    }
}

/// The mass of the first rolls is no more than the mass of all of them.
pub proof fn lemma_mass_upto_bounded(dice: Seq<dice::Type>, k: int)
    requires
        0 <= k <= rolls(dice),
    ensures
        0 <= mass_upto(dice, k) <= sample_space(dice),
    decreases rolls(dice) - k,
{
    if k == rolls(dice) {
        lemma_mass_of_all_rolls(dice);
    } else {
        lemma_mass_upto_bounded(dice, k + 1);
        lemma_roll_space(dice, k);
        lemma_mass_nonnegative(dice, k);
    }
}

proof fn lemma_mass_nonnegative(dice: Seq<dice::Type>, k: int)
    requires
        0 <= k <= rolls(dice),
    ensures
        0 <= mass_upto(dice, k),
    decreases k,
{
    if k > 0 {
        lemma_mass_nonnegative(dice, k - 1);
        lemma_roll_space(dice, k - 1);
    }
}

/// The sample space of some of the dice is no larger than that of all.
pub proof fn lemma_sample_space_prefix(dice: Seq<dice::Type>, k: int)
    requires
        0 <= k <= dice.len(),
    ensures
        1 <= sample_space(dice.take(k)) <= sample_space(dice),
        k < dice.len() ==> sample_space(dice.take(k + 1)) == sample_space(dice.take(k)) * sides(
            dice[k],
        ),
    decreases dice.len() - k,
{
    if k == dice.len() {
        assert(dice.take(k) =~= dice);
        lemma_sample_space_positive(dice);
    } else {
        lemma_sample_space_prefix(dice, k + 1);
        assert(dice.take(k + 1).drop_last() =~= dice.take(k));
        lemma_sample_space_positive(dice.take(k));
        assert(sample_space(dice.take(k)) * sides(dice[k]) >= sample_space(dice.take(k)))
            by (nonlinear_arith)
            requires
                sample_space(dice.take(k)) >= 1,
                sides(dice[k]) >= 1,
        ;
    }
}

proof fn lemma_sample_space_positive(dice: Seq<dice::Type>)
    ensures
        sample_space(dice) >= 1,
    decreases dice.len(),
{
    if dice.len() > 0 {
        lemma_sample_space_positive(dice.drop_last());
        assert(sample_space(dice.drop_last()) * sides(dice.last()) >= 1) by (nonlinear_arith)
            requires
                sample_space(dice.drop_last()) >= 1,
                sides(dice.last()) >= 1,
        ;
    }
}

/// Adds the scores of one roll to the totals, weighted by the mass of the
/// roll.
fn fold_outcome(totals: &mut attack::Scores, outcome: &Outcome, Ghost(done): Ghost<int>)
    requires
        attack::bounded(outcome),
        outcome.scale >= 1,
        0 <= done,
        (done + outcome.probability.num) * outcome.scale <= SCALE_LIMIT,
        forall|i: int|
            0 <= i < attack::FACETS ==> -255 * (done * outcome.scale) <= #[trigger] old(totals)@[i]
                <= 255 * (done * outcome.scale),
    ensures
        forall|i: int|
            0 <= i < attack::FACETS ==> #[trigger] final(totals)@[i] == old(totals)@[i]
                + outcome.probability.num * outcome.scores@[i],
        forall|i: int|
            0 <= i < attack::FACETS ==> -255 * ((done + outcome.probability.num) * outcome.scale)
                <= #[trigger] final(totals)@[i] <= 255 * ((done + outcome.probability.num)
                * outcome.scale),
{
    let ghost before = totals@;
    let ghost scale = outcome.scale as int;
    let mass = outcome.probability.num;
    proof {
        assert(mass * scale <= (done + mass) * scale && (done + mass) * scale == done * scale + mass
            * scale && 0 <= done * scale && 0 <= mass * scale) by (nonlinear_arith)
            requires
                0 <= done,
                0 <= mass,
                0 <= scale,
        ;
        assert(mass <= mass * scale) by (nonlinear_arith)
            requires
                0 <= mass,
                1 <= scale,
        ;
    }
    proof {
        assert forall|i: int| 0 <= i < attack::FACETS implies -255 * (mass * scale)
            <= #[trigger] outcome.scores@[i] * mass <= 255 * (mass * scale) && outcome.scores@[i]
            * mass == mass * outcome.scores@[i] by {
            let part = outcome.scores@[i];
            assert(-255 * scale <= part <= 255 * scale);
            assert(-255 * (mass * scale) <= part * mass <= 255 * (mass * scale) && part * mass
                == mass * part) by (nonlinear_arith)
                requires
                    -255 * scale <= part <= 255 * scale,
                    0 <= mass,
            ;
        }
        assert forall|i: int| 0 <= i < attack::FACETS implies -255 * (done * scale)
            <= #[trigger] before[i] <= 255 * (done * scale) by {}
    }
    let probability = mass as i64;
    attack::update(totals, &outcome.scores, |sum: &mut i64, part: &i64|
        requires
            i64::MIN <= *part * probability <= i64::MAX,
            i64::MIN <= *sum + *part * probability <= i64::MAX,
        ensures *final(sum) == *old(sum) + *part * probability,
    {
        *sum += *part * probability;
    });
}

/// The dice of an attack, the attacker's characteristics, and the effects
/// in force, in the order in which they apply.
pub struct Disposition<'a> {
    pub dice: Vec<dice::Type>,
    pub characteristics: Characteristics,
    pub effects: Vec<&'a dyn Effect>,
}

impl<'a> Default for Disposition<'a> {
    fn default() -> (r: Self)
        ensures
            r.dice@.len() == 0,
            r.effects@.len() == 0,
            r.characteristics@ == (CharacteristicsView {
                base_score: dice::zeros(),
                required_skill: 0,
                soft_armor: 0,
                hard_armor: 0,
            }),
    {
        Disposition {
            dice: Vec::new(),
            characteristics: Characteristics::default(),
            effects: Vec::new(),
        }
    }
}

impl<'a> Disposition<'a> {
    /// The outcome of one roll under the effects in force.
    pub fn attack_scores(&self, roll: &[RollFace]) -> (r: Option<Outcome>)
        ensures
            r is Some <==> resolvable(self.effects@, self.characteristics@, roll@),
            r matches Some(outcome) ==> {
                &&& outcome.probability == (Ratio {
                    num: mass(roll@) as u64,
                    den: space(roll@) as u64,
                })
                &&& mass(roll@) <= u64::MAX
                &&& space(roll@) <= u64::MAX
                &&& outcome.scale == remaining(self.effects@, 0)
                &&& attack::bounded(&outcome)
                &&& forall|i: int|
                    0 <= i < attack::FACETS ==> #[trigger] outcome.scores@[i] == weighted(
                        self.effects@,
                        0,
                        CaseView { characteristics: self.characteristics@, roll: roll@ },
                        attack::Facet::at(i),
                    )
            },
    {
        EffectApplicator::apply_effects(&self.effects, &self.characteristics, roll)
    }

    /// The expected scores of the attack: every roll that the dice can show
    /// is resolved, and the outcomes are added up, each weighted by the
    /// probability of its roll. The expected score of a facet is its entry
    /// in the scores divided by the scale, which is the size of the sample
    /// space times the resolution of the effects. The probability of the
    /// outcome is that of all rolls together, which is one. `None` is
    /// returned exactly where the attack cannot be averaged.
    pub fn average_scores(&self) -> (r: Option<Outcome>)
        ensures
            r is Some <==> averageable(self.effects@, self.characteristics@, self.dice@),
            r matches Some(outcome) ==> {
                &&& outcome.scale == sample_space(self.dice@) * remaining(self.effects@, 0)
                &&& outcome.probability.num == sample_space(self.dice@)
                &&& outcome.probability.den == sample_space(self.dice@)
                &&& forall|i: int|
                    0 <= i < attack::FACETS ==> #[trigger] outcome.scores@[i] == total_upto(
                        self.effects@,
                        self.characteristics@,
                        self.dice@,
                        attack::Facet::at(i),
                        rolls(self.dice@),
                    )
            },
    {
        let ghost effects = self.effects@;
        let ghost c = self.characteristics@;
        let ghost dice = self.dice@;
        let ghost resolution = remaining(effects, 0) as int;
        proof {
            lemma_sample_space_positive(dice);
        }
        let chain = attack::chain_resolution(&self.effects);
        proof {
            attack::lemma_remaining_positive(effects, 0);
            assert(sample_space(dice) * resolution >= resolution) by (nonlinear_arith)
                requires
                    sample_space(dice) >= 1,
                    resolution >= 1,
            ;
        }
        let mut scale = match chain {
            Some(scale) => scale,
            None => {
                return None;
            },
        };
        let mut sides_so_far: u64 = 1;
        let mut factors: Vec<Vec<RollFace>> = Vec::new();
        let mut i: usize = 0;
        proof {
            assert(dice.take(0) =~= Seq::<dice::Type>::empty());
            assert(1 * resolution == resolution);
        }
        while i < self.dice.len()
            invariant
                i <= self.dice.len(),
                dice == self.dice@,
                effects == self.effects@,
                resolution == remaining(effects, 0),
                resolution >= 1,
                sides_so_far == sample_space(dice.take(i as int)),
                scale == sample_space(dice.take(i as int)) * resolution,
                scale <= SCALE_LIMIT,
                factors@.len() == i,
                forall|j: int| 0 <= j < i ==> (#[trigger] factors@[j])@ == catalogue(dice[j]),
            decreases self.dice.len() - i,
        {
            let die = self.dice[i];
            let die_sides = sides(die);
            proof {
                lemma_sample_space_prefix(dice, i as int);
                lemma_sample_space_prefix(dice, i + 1);
                let some = sample_space(dice.take(i as int)) as int;
                let more = sample_space(dice.take(i + 1)) as int;
                assert(more * resolution == scale * die_sides && some <= some * resolution
                    && more * resolution <= sample_space(dice) * resolution) by (nonlinear_arith)
                    requires
                        more == some * die_sides,
                        scale == some * resolution,
                        resolution >= 1,
                        some >= 1,
                        more <= sample_space(dice),
                ;
                assert(some * die_sides <= 20 * some) by (nonlinear_arith)
                    requires
                        0 <= die_sides <= 20,
                        0 <= some,
                ;
            }
            match scale.checked_mul(die_sides) {
                Some(product) => {
                    if product > SCALE_LIMIT {
                        return None;
                    }
                    scale = product;
                },
                None => {
                    return None;
                },
            }
            sides_so_far = sides_so_far * die_sides;
            factors.push(RollFace::faces_of(die));
            i = i + 1;
        }
        proof {
            assert(dice.take(dice.len() as int) =~= dice);
            assert(crate::cartesian_fold::grid(factors@) =~= self::factors(dice));
            lemma_factors_positive(dice);
        }
        let mut iter = factors.cartesian_collections();
        let mut totals = attack::Scores::default();
        let mut seen: u64 = 0;
        let mut finished = false;
        let ghost total = rolls(dice);
        proof {
            assert(0 * resolution == 0);
        }
        while !finished
            invariant
                effects == self.effects@,
                c == self.characteristics@,
                dice == self.dice@,
                resolution == remaining(effects, 0),
                resolution >= 1,
                total == rolls(dice),
                sides_so_far == sample_space(dice),
                scale == sample_space(dice) * resolution,
                scale <= SCALE_LIMIT,
                iter.wf(),
                iter.factors() == self::factors(dice),
                0 <= iter.produced() <= total,
                finished ==> iter.produced() == total,
                seen == mass_upto(dice, iter.produced()),
                forall|n: int|
                    0 <= n < iter.produced() ==> #[trigger] resolvable(
                        effects,
                        c,
                        roll_at(dice, n),
                    ),
                forall|i: int|
                    0 <= i < attack::FACETS ==> #[trigger] totals@[i] == total_upto(
                        effects,
                        c,
                        dice,
                        attack::Facet::at(i),
                        iter.produced(),
                    ),
                forall|i: int|
                    0 <= i < attack::FACETS ==> -255 * (seen * resolution) <= #[trigger] totals@[i]
                        <= 255 * (seen * resolution),
            decreases total - iter.produced(), if finished { 0int } else { 1int },
        {
            let ghost k = iter.produced();
            match iter.next() {
                Some(roll) => {
                    proof {
                        lemma_roll_space(dice, k);
                        lemma_mass_upto_bounded(dice, k + 1);
                    }
                    match self.attack_scores(roll) {
                        Some(outcome) => {
                            proof {
                                assert((seen + outcome.probability.num) * resolution
                                    <= sample_space(dice) * resolution) by (nonlinear_arith)
                                    requires
                                        seen + outcome.probability.num <= sample_space(dice),
                                        resolution >= 0,
                                ;
                            }
                            fold_outcome(&mut totals, &outcome, Ghost(seen as int));
                            seen = seen + outcome.probability.num;
                        },
                        None => {
                            return None;
                        },
                    }
                },
                None => {
                    finished = true;
                },
            }
        }
        proof {
            lemma_mass_of_all_rolls(dice);
        }
        Some(Outcome { probability: Ratio { num: seen, den: sides_so_far }, scores: totals, scale })
    }
}

} // verus!
