//! The effects: rules that exchange scores, reroll blanks, or split a case
//! evenly between leaving it alone and pushing its luck.

use vstd::prelude::*;
use crate::attack;
use crate::attack::{
    Alteration, Case, CaseUpdater, CaseView, Effect, EffectApplicator, LastAlteration,
};
use crate::common::{PositiveScore, Ratio, Score};
use crate::dice;
use crate::dice::RollFace;

verus! {

/// A hit that `amount` more skill would turn into a miss: nothing but the
/// skill rolled decides it.
pub open spec fn is_near_hit(case: CaseView, amount: int) -> bool {
    &&& case.result(attack::Facet::Hits) > 0
    &&& case.score(dice::Facet::Hit) == 0
    &&& case.score(dice::Facet::Skill) + amount > case.characteristics.required_skill
}

/// A miss that `amount` less skill would turn into a hit: nothing but the
/// skill rolled decides it.
pub open spec fn is_near_miss(case: CaseView, amount: int) -> bool {
    &&& case.result(attack::Facet::Hits) == 0
    &&& case.score(dice::Facet::Miss) == 0
    &&& case.score(dice::Facet::Skill) <= case.characteristics.required_skill + amount
}

/// Whether the case is a hit that `amount` more skill would turn into a miss.
pub fn near_hit(case: &Case, amount: Score) -> (near: bool)
    requires
        case.wf(),
    ensures
        near == is_near_hit(case@, amount as int),
{
    case.result(attack::Facet::Hits) > 0 && case.score(dice::Facet::Hit) == 0 && case.score(
        dice::Facet::Skill,
    ) as i16 + amount as i16 > case.characteristics().required_skill as i16
}

/// Whether the case is a miss that `amount` less skill would turn into a hit.
pub fn near_miss(case: &Case, amount: Score) -> (near: bool)
    requires
        case.wf(),
    ensures
        near == is_near_miss(case@, amount as int),
{
    case.result(attack::Facet::Hits) == 0 && case.score(dice::Facet::Miss) == 0 && case.score(
        dice::Facet::Skill,
    ) as i16 <= case.characteristics().required_skill as i16 + amount as i16
}

/// The case with `delta` added to the base score of a facet.
pub open spec fn adjusted(case: CaseView, facet: dice::Facet, delta: int) -> CaseView {
    case.with_base(facet, case.base(facet) + delta)
}

/// Whether `delta` can be added to the base score of a facet with the base
/// score and the raw score staying scores.
pub open spec fn adjustable(case: CaseView, facet: dice::Facet, delta: int) -> bool {
    &&& Score::MIN <= case.base(facet) + delta <= Score::MAX
    &&& Score::MIN <= case.score(facet) + delta <= Score::MAX
}

/// An adjustment that keeps the base score and the raw score within range
/// leaves a case that can be scored.
pub proof fn lemma_adjusted_wf(case: CaseView, facet: dice::Facet, delta: int)
    requires
        case.wf(),
        adjustable(case, facet, delta),
    ensures
        adjusted(case, facet, delta).wf(),
        adjusted(case, facet, delta).roll == case.roll,
        forall|other: dice::Facet|
            other != facet ==> #[trigger] adjusted(case, facet, delta).base(other) == case.base(
                other,
            ) && adjusted(case, facet, delta).score(other) == case.score(other),
        adjusted(case, facet, delta).base(facet) == case.base(facet) + delta,
        adjusted(case, facet, delta).score(facet) == case.score(facet) + delta,
{
    dice::lemma_facet_positions(facet);
    let after = adjusted(case, facet, delta);
    assert forall|i: int| 0 <= i < dice::FACETS implies Score::MIN
        <= #[trigger] attack::raw_scores(after.characteristics, after.roll)[i] <= Score::MAX by {
        assert(Score::MIN <= attack::raw_scores(case.characteristics, case.roll)[i] <= Score::MAX);
    }
    assert forall|other: dice::Facet| other != facet implies #[trigger] after.base(other)
        == case.base(other) && after.score(other) == case.score(other) by {
        dice::lemma_facet_positions(other);
    }
}

/// Whether `delta` can be added to the base score of a facet.
fn can_adjust(case: &Case, facet: dice::Facet, delta: Score) -> (ok: bool)
    requires
        case.wf(),
    ensures
        ok == adjustable(case@, facet, delta as int),
{
    let base = case.characteristics().base_score.get(facet) as i16 + delta as i16;
    let score = case.score(facet) as i16 + delta as i16;
    -128 <= base && base <= 127 && -128 <= score && score <= 127
}

/// Adds `delta` to the base score of a facet.
fn adjust(case: &mut Case, facet: dice::Facet, delta: Score)
    requires
        old(case).wf(),
        adjustable(old(case)@, facet, delta as int),
    ensures
        final(case).wf(),
        final(case)@ == adjusted(old(case)@, facet, delta as int),
{
    let ghost start = case@;
    let ghost after = adjusted(start, facet, delta as int);
    proof {
        case.lemma_wf();
        lemma_adjusted_wf(start, facet, delta as int);
    }
    case.update(|updater: &mut CaseUpdater|
        requires (*updater)@ == start,
        ensures (*final(updater))@ == after,
    {
        let v = updater.score_mut(facet);
        *v = *v + delta;
    });
}

/// The branches of an even split: the case with `delta` added to the base
/// score of a facet, and then the case as it is, each at half the weight;
/// or, where the effect does not apply, the case as it is at full weight.
pub open spec fn luck(
    applies: bool,
    case: CaseView,
    facet: dice::Facet,
    delta: int,
) -> Seq<Alteration> {
    if applies {
        seq![
            Alteration { parts: 1, case: adjusted(case, facet, delta) },
            Alteration { parts: 1, case },
        ]
    } else {
        seq![Alteration { parts: 2, case }]
    }
}

/// An even split weighs two parts in all, whether it applies or not.
pub proof fn lemma_luck_conserves(applies: bool, case: CaseView, facet: dice::Facet, delta: int)
    ensures
        attack::total_parts(luck(applies, case, facet, delta)) == 2,
{
    reveal_with_fuel(attack::total_parts, 3);
}

/// Yields the branches of an even split.
fn yield_luck(
    applicator: &mut EffectApplicator,
    case: &mut Case,
    applies: bool,
    facet: dice::Facet,
    delta: Score,
) -> (done: LastAlteration)
    requires
        old(case).wf(),
        -2 <= delta <= 2,
        applies ==> adjustable(old(case)@, facet, delta as int),
        old(applicator).wf(),
        !old(applicator).is_closed(),
        old(applicator).alterations().len() == 0,
        old(applicator).resolution() == 2,
    ensures
        final(applicator).wf(),
        final(applicator).is_closed(),
        final(applicator).resolution() == 2,
        final(applicator).alterations() == luck(applies, old(case)@, facet, delta as int),
        attack::total_parts(luck(applies, old(case)@, facet, delta as int)) == 2,
{
    let ghost start = case@;
    proof {
        lemma_luck_conserves(applies, case@, facet, delta as int);
        vstd::arithmetic::div_mod::lemma_fundamental_div_mod_converse(2, 2, 1, 0);
        vstd::arithmetic::div_mod::lemma_fundamental_div_mod_converse(2, 1, 2, 0);
        assert(attack::share(Ratio { num: 1, den: 2 }, 2) == 1);
        assert(attack::share(Ratio { num: 1, den: 1 }, 2) == 2);
    }
    if applies {
        proof {
            case.lemma_wf();
            dice::lemma_facet_positions(facet);
            lemma_adjusted_wf(start, facet, delta as int);
            let pushed = adjusted(start, facet, delta as int);
            assert(adjusted(pushed, facet, -delta).characteristics.base_score
                =~= start.characteristics.base_score);
            assert(adjusted(pushed, facet, -delta) == start);
            assert(Score::MIN <= start.characteristics.base_score[facet.ord()] <= Score::MAX);
            assert(Score::MIN <= attack::raw_scores(start.characteristics, start.roll)[facet.ord()]
                <= Score::MAX);
            assert(adjustable(pushed, facet, -delta));
        }
        adjust(case, facet, delta);
        applicator.yield_next_alteration(case, Ratio::new(1, 2));
        adjust(case, facet, -delta);
        let done = applicator.yield_last_alteration(case, Ratio::new(1, 2));
        assert(applicator.alterations() =~= luck(applies, old(case)@, facet, delta as int));
        done
    } else {
        let done = applicator.yield_last_alteration(case, Ratio::one());
        assert(applicator.alterations() =~= luck(applies, old(case)@, facet, delta as int));
        done
    }
}

/// Luck that may turn a near miss into a hit: a miss that two less skill
/// would have made a hit is split evenly between having two less skill and
/// staying a miss.
pub struct LuckForHit {}

impl LuckForHit {
    /// The effect conserves the weight of every case.
    pub proof fn lemma_conserves(&self, case: CaseView)
        ensures
            attack::total_parts(Effect::alterations(self, case)) == Effect::resolution(self),
    {
        lemma_luck_conserves(is_near_miss(case, 2), case, dice::Facet::Skill, -2);
    }
}

impl Effect for LuckForHit {
    open spec fn resolution(&self) -> nat {
        2
    }

    open spec fn admits(&self, case: CaseView) -> bool {
        is_near_miss(case, 2) ==> adjustable(case, dice::Facet::Skill, -2)
    }

    open spec fn alterations(&self, case: CaseView) -> Seq<Alteration> {
        luck(is_near_miss(case, 2), case, dice::Facet::Skill, -2)
    }

    fn units(&self) -> (d: u64) {
        2
    }

    fn accepts(&self, case: &Case) -> (ok: bool) {
        !near_miss(case, 2) || can_adjust(case, dice::Facet::Skill, -2)
    }

    fn yield_alterations(&self, applicator: &mut EffectApplicator, case: &mut Case) -> (done:
        LastAlteration) {
        let applies = near_miss(case, 2);
        yield_luck(applicator, case, applies, dice::Facet::Skill, -2)
    }
}

/// Luck that may turn a near hit into a miss: a hit that two more skill
/// would have made a miss is split evenly between having two more skill and
/// staying a hit.
pub struct LuckForMiss {}

impl LuckForMiss {
    /// The effect conserves the weight of every case.
    pub proof fn lemma_conserves(&self, case: CaseView)
        ensures
            attack::total_parts(Effect::alterations(self, case)) == Effect::resolution(self),
    {
        lemma_luck_conserves(is_near_hit(case, 2), case, dice::Facet::Skill, 2);
    }
}

impl Effect for LuckForMiss {
    open spec fn resolution(&self) -> nat {
        2
    }

    open spec fn admits(&self, case: CaseView) -> bool {
        is_near_hit(case, 2) ==> adjustable(case, dice::Facet::Skill, 2)
    }

    open spec fn alterations(&self, case: CaseView) -> Seq<Alteration> {
        luck(is_near_hit(case, 2), case, dice::Facet::Skill, 2)
    }

    fn units(&self) -> (d: u64) {
        2
    }

    fn accepts(&self, case: &Case) -> (ok: bool) {
        !near_hit(case, 2) || can_adjust(case, dice::Facet::Skill, 2)
    }

    fn yield_alterations(&self, applicator: &mut EffectApplicator, case: &mut Case) -> (done:
        LastAlteration) {
        let applies = near_hit(case, 2);
        yield_luck(applicator, case, applies, dice::Facet::Skill, 2)
    }
}

/// Luck of the armor: a hit that deals damage is split evenly between
/// dealing one less and dealing it all.
pub struct LuckForArmor {}

/// Whether the case is a hit that deals damage.
pub open spec fn hits_with_damage(case: CaseView) -> bool {
    case.result(attack::Facet::Hits) > 0 && case.result(attack::Facet::Damage) > 0
}

impl LuckForArmor {
    /// The effect conserves the weight of every case.
    pub proof fn lemma_conserves(&self, case: CaseView)
        ensures
            attack::total_parts(Effect::alterations(self, case)) == Effect::resolution(self),
    {
        lemma_luck_conserves(hits_with_damage(case), case, dice::Facet::Damage, -1);
    }
}

impl Effect for LuckForArmor {
    open spec fn resolution(&self) -> nat {
        2
    }

    open spec fn admits(&self, case: CaseView) -> bool {
        hits_with_damage(case) ==> adjustable(case, dice::Facet::Damage, -1)
    }

    open spec fn alterations(&self, case: CaseView) -> Seq<Alteration> {
        luck(hits_with_damage(case), case, dice::Facet::Damage, -1)
    }

    fn units(&self) -> (d: u64) {
        2
    }

    fn accepts(&self, case: &Case) -> (ok: bool) {
        !(case.result(attack::Facet::Hits) > 0 && case.result(attack::Facet::Damage) > 0)
            || can_adjust(case, dice::Facet::Damage, -1)
    }

    fn yield_alterations(&self, applicator: &mut EffectApplicator, case: &mut Case) -> (done:
        LastAlteration) {
        let applies = case.result(attack::Facet::Hits) > 0 && case.result(attack::Facet::Damage)
            > 0;
        yield_luck(applicator, case, applies, dice::Facet::Damage, -1)
    }
}

/// Luck of the crit: a hit is split evenly between scoring one more crit
/// and staying as it is.
pub struct LuckForCrit {}

impl LuckForCrit {
    /// The effect conserves the weight of every case.
    pub proof fn lemma_conserves(&self, case: CaseView)
        ensures
            attack::total_parts(Effect::alterations(self, case)) == Effect::resolution(self),
    {
        lemma_luck_conserves(case.result(attack::Facet::Hits) > 0, case, dice::Facet::Crit, 1);
    }
}

impl Effect for LuckForCrit {
    open spec fn resolution(&self) -> nat {
        2
    }

    open spec fn admits(&self, case: CaseView) -> bool {
        case.result(attack::Facet::Hits) > 0 ==> adjustable(case, dice::Facet::Crit, 1)
    }

    open spec fn alterations(&self, case: CaseView) -> Seq<Alteration> {
        luck(case.result(attack::Facet::Hits) > 0, case, dice::Facet::Crit, 1)
    }

    fn units(&self) -> (d: u64) {
        2
    }

    fn accepts(&self, case: &Case) -> (ok: bool) {
        !(case.result(attack::Facet::Hits) > 0) || can_adjust(case, dice::Facet::Crit, 1)
    }

    fn yield_alterations(&self, applicator: &mut EffectApplicator, case: &mut Case) -> (done:
        LastAlteration) {
        let applies = case.result(attack::Facet::Hits) > 0;
        yield_luck(applicator, case, applies, dice::Facet::Crit, 1)
    }
}

/// Whether `delta` can be added where the base score is `base` and the raw
/// score is `score`.
fn fits_adjusted(base: i16, score: i16, delta: i16) -> (ok: bool)
    requires
        Score::MIN <= base <= Score::MAX,
        Score::MIN <= score <= Score::MAX,
        -20000 <= delta <= 20000,
    ensures
        ok == (Score::MIN <= base + delta <= Score::MAX && Score::MIN <= score + delta
            <= Score::MAX),
{
    -128 <= base + delta && base + delta <= 127 && -128 <= score + delta && score + delta <= 127
}

/// Takes `give` from one base score and adds `take` to another, in this
/// order.
fn exchange(case: &mut Case, from: dice::Facet, give: i16, to: dice::Facet, take: i16)
    requires
        old(case).wf(),
        adjustable(old(case)@, from, -give),
        adjustable(adjusted(old(case)@, from, -give), to, take as int),
    ensures
        final(case).wf(),
        final(case)@ == adjusted(adjusted(old(case)@, from, -give), to, take as int),
{
    let ghost start = case@;
    let ghost given = adjusted(start, from, -give);
    let ghost after = adjusted(given, to, take as int);
    proof {
        case.lemma_wf();
        lemma_adjusted_wf(start, from, -give);
        lemma_adjusted_wf(given, to, take as int);
    }
    case.update(|updater: &mut CaseUpdater|
        requires (*updater)@ == start,
        ensures (*final(updater))@ == after,
    {
        let v = updater.score_mut(from);
        *v = (*v as i16 - give) as i8;
        let w = updater.score_mut(to);
        *w = (*w as i16 + take) as i8;
    });
}

/// Whether `exchange` can be made.
fn can_exchange(case: &Case, from: dice::Facet, give: i16, to: dice::Facet, take: i16) -> (ok: bool)
    requires
        case.wf(),
        -20000 <= give <= 20000,
        -20000 <= take <= 20000,
    ensures
        ok == (adjustable(case@, from, -give) && adjustable(
            adjusted(case@, from, -give),
            to,
            take as int,
        )),
{
    let base = case.characteristics().base_score.get(from) as i16;
    let score = case.score(from) as i16;
    if !fits_adjusted(base, score, -give) {
        return false;
    }
    proof {
        case.lemma_wf();
        lemma_adjusted_wf(case@, from, -give);
    }
    if to == from {
        fits_adjusted(base - give, score - give, take)
    } else {
        fits_adjusted(case.characteristics().base_score.get(to) as i16, case.score(to) as i16, take)
    }
}

/// On a hit, turns whole units of one score into units of another: as many
/// as the score on hand pays for, up to `times` where that is given.
pub struct ExchangeScoreOnHit {
    /// The facet that pays, and the cost of one unit.
    pub give: (dice::Facet, PositiveScore),
    /// The facet that gains, and the gain of one unit.
    pub take: (dice::Facet, PositiveScore),
    /// The largest number of units to exchange, if there is one.
    pub times: Option<PositiveScore>,
}

impl ExchangeScoreOnHit {
    /// The effect conserves the weight of every case.
    pub proof fn lemma_conserves(&self, case: CaseView)
        ensures
            attack::total_parts(Effect::alterations(self, case)) == Effect::resolution(self),
    {
        reveal_with_fuel(attack::total_parts, 2);
    }

    /// How many units are exchanged.
    pub open spec fn exchanges(&self, case: CaseView) -> int {
        if case.result(attack::Facet::Hits) > 0 && case.score(self.give.0) > 0 {
            let times = case.score(self.give.0) / self.give.1@;
            match self.times {
                Some(most) => if times <= most@ { times } else { most@ },
                None => times,
            }
        } else {
            0
        }
    }

    /// The case after the exchange.
    pub open spec fn exchanged(&self, case: CaseView) -> CaseView {
        let times = self.exchanges(case);
        if times > 0 {
            adjusted(
                adjusted(case, self.give.0, -(times * self.give.1@)),
                self.take.0,
                times * self.take.1@,
            )
        } else {
            case
        }
    }

    /// How many units are exchanged.
    fn count(&self, case: &Case) -> (times: Score)
        requires
            case.wf(),
        ensures
            times == self.exchanges(case@),
            0 <= times,
            times * self.give.1@ <= Score::MAX,
            times * self.take.1@ <= Score::MAX * Score::MAX,
    {
        if case.result(attack::Facet::Hits) > 0 {
            let available = case.score(self.give.0);
            if available > 0 {
                let cost = self.give.1.get();
                let gain = self.take.1.get();
                let times = available / cost;
                proof {
                    vstd::arithmetic::div_mod::lemma_fundamental_div_mod(
                        available as int,
                        cost as int,
                    );
                    vstd::arithmetic::div_mod::lemma_mod_bound(available as int, cost as int);
                    let rest = available as int % cost as int;
                    assert(0 <= times && times * cost <= available) by (nonlinear_arith)
                        requires
                            available == cost * times + rest,
                            0 <= rest,
                            rest < cost,
                            available > 0,
                    ;
                }
                let times = match self.times {
                    Some(most) => {
                        let most = most.get();
                        if times <= most {
                            times
                        } else {
                            most
                        }
                    },
                    None => times,
                };
                proof {
                    assert(times * cost <= available && times * gain <= 127 * 127)
                        by (nonlinear_arith)
                        requires
                            0 <= times <= available / cost,
                            (available / cost) * cost <= available,
                            available <= 127,
                            0 < cost,
                            0 < gain <= 127,
                    ;
                }
                return times;
            }
        }
        assert(0 * self.give.1@ == 0);
        assert(0 * self.take.1@ == 0);
        0
    }
}

impl Effect for ExchangeScoreOnHit {
    open spec fn resolution(&self) -> nat {
        1
    }

    open spec fn admits(&self, case: CaseView) -> bool {
        let times = self.exchanges(case);
        times > 0 ==> adjustable(case, self.give.0, -(times * self.give.1@)) && adjustable(
            adjusted(case, self.give.0, -(times * self.give.1@)),
            self.take.0,
            times * self.take.1@,
        )
    }

    open spec fn alterations(&self, case: CaseView) -> Seq<Alteration> {
        seq![Alteration { parts: 1, case: self.exchanged(case) }]
    }

    fn units(&self) -> (d: u64) {
        1
    }

    fn accepts(&self, case: &Case) -> (ok: bool) {
        let times = self.count(case);
        if times > 0 {
            let give = times as i16 * self.give.1.get() as i16;
            let take = times as i16 * self.take.1.get() as i16;
            can_exchange(case, self.give.0, give, self.take.0, take)
        } else {
            true
        }
    }

    fn yield_alterations(&self, applicator: &mut EffectApplicator, case: &mut Case) -> (done:
        LastAlteration) {
        let times = self.count(case);
        if times > 0 {
            let give = times as i16 * self.give.1.get() as i16;
            let take = times as i16 * self.take.1.get() as i16;
            exchange(case, self.give.0, give, self.take.0, take);
        }
        proof {
            reveal_with_fuel(attack::total_parts, 2);
            attack::lemma_share_bounded(Ratio { num: 1, den: 1 }, 1);
        }
        let done = applicator.yield_last_alteration(case, Ratio::one());
        assert(applicator.alterations() =~= self.alterations(old(case)@));
        done
    }
}

/// On a hit, spends bottles to get past armor: for each bottle, one point of
/// damage that armor would have taken is dealt after all.
pub struct IgnoreArmorOnBottles {}

impl IgnoreArmorOnBottles {
    /// The effect conserves the weight of every case.
    pub proof fn lemma_conserves(&self, case: CaseView)
        ensures
            attack::total_parts(Effect::alterations(self, case)) == Effect::resolution(self),
    {
        reveal_with_fuel(attack::total_parts, 2);
    }

    /// The armor that the effect reckons with: the armor rolled while it is
    /// no more than the soft armor less the shred, and the hard armor.
    pub open spec fn available_armor(case: CaseView) -> int {
        let scored_armor = case.score(dice::Facet::Armor);
        let shredded_armor = case.characteristics.soft_armor - case.score(dice::Facet::Shred);
        let activated_armor = if scored_armor > shredded_armor {
            0
        } else {
            scored_armor
        };
        activated_armor + case.characteristics.hard_armor
    }

    /// The damage that bottles could bring: no more than the armor, the
    /// damage rolled, or the bottles.
    pub open spec fn potential(case: CaseView) -> int {
        let armor = Self::available_armor(case);
        let damage = case.score(dice::Facet::Damage);
        let least = if armor <= damage {
            armor
        } else {
            damage
        };
        if least <= case.score(dice::Facet::Bottle) {
            least
        } else {
            case.score(dice::Facet::Bottle)
        }
    }

    /// The damage that gets through as things stand.
    pub open spec fn current(case: CaseView) -> int {
        case.score(dice::Facet::Damage) - Self::available_armor(case)
    }

    /// Whether bottles are spent.
    pub open spec fn applies(case: CaseView) -> bool {
        &&& case.result(attack::Facet::Hits) > 0
        &&& case.score(dice::Facet::Bottle) > 0
        &&& Self::potential(case) > Self::current(case)
    }

    /// The case after the bottles are spent.
    pub open spec fn ignored(case: CaseView) -> CaseView {
        if Self::applies(case) {
            adjusted(
                adjusted(case, dice::Facet::Bottle, -Self::potential(case)),
                dice::Facet::Damage,
                Self::potential(case) - Self::current(case),
            )
        } else {
            case
        }
    }

    /// What is spent and what is gained, where bottles are spent.
    fn plan(case: &Case) -> (r: Option<(i16, i16)>)
        requires
            case.wf(),
        ensures
            r is Some <==> Self::applies(case@),
            r matches Some(p) ==> p.0 == Self::potential(case@) && p.1 == Self::potential(case@)
                - Self::current(case@) && -1000 <= p.0 <= 1000 && -1000 <= p.1 <= 1000,
    {
        if case.result(attack::Facet::Hits) > 0 && case.score(dice::Facet::Bottle) > 0 {
            let scored_armor = case.score(dice::Facet::Armor) as i16;
            let shredded_armor = case.characteristics().soft_armor as i16 - case.score(
                dice::Facet::Shred,
            ) as i16;
            let activated_armor = if scored_armor > shredded_armor {
                0
            } else {
                scored_armor
            };
            let scored_damage = case.score(dice::Facet::Damage) as i16;
            let available_armor = activated_armor + case.characteristics().hard_armor as i16;
            let least = if available_armor <= scored_damage {
                available_armor
            } else {
                scored_damage
            };
            let bottles = case.score(dice::Facet::Bottle) as i16;
            let potential_effect_damage = if least <= bottles {
                least
            } else {
                bottles
            };
            let current_result_damage = scored_damage - available_armor;
            if potential_effect_damage > current_result_damage {
                let bonus_score = potential_effect_damage - current_result_damage;
                return Some((potential_effect_damage, bonus_score));
            }
        }
        None
    }
}

impl Effect for IgnoreArmorOnBottles {
    open spec fn resolution(&self) -> nat {
        1
    }

    open spec fn admits(&self, case: CaseView) -> bool {
        Self::applies(case) ==> adjustable(case, dice::Facet::Bottle, -Self::potential(case))
            && adjustable(
            adjusted(case, dice::Facet::Bottle, -Self::potential(case)),
            dice::Facet::Damage,
            Self::potential(case) - Self::current(case),
        )
    }

    open spec fn alterations(&self, case: CaseView) -> Seq<Alteration> {
        seq![Alteration { parts: 1, case: Self::ignored(case) }]
    }

    fn units(&self) -> (d: u64) {
        1
    }

    fn accepts(&self, case: &Case) -> (ok: bool) {
        match Self::plan(case) {
            Some(p) => can_exchange(case, dice::Facet::Bottle, p.0, dice::Facet::Damage, p.1),
            None => true,
        }
    }

    fn yield_alterations(&self, applicator: &mut EffectApplicator, case: &mut Case) -> (done:
        LastAlteration) {
        match Self::plan(case) {
            Some(p) => {
                exchange(case, dice::Facet::Bottle, p.0, dice::Facet::Damage, p.1);
            },
            None => {},
        }
        proof {
            reveal_with_fuel(attack::total_parts, 2);
            attack::lemma_share_bounded(Ratio { num: 1, den: 1 }, 1);
        }
        let done = applicator.yield_last_alteration(case, Ratio::one());
        assert(applicator.alterations() =~= self.alterations(old(case)@));
        done
    }
}

/// The blanks that a reroll looks for.
#[derive(Clone, Copy, PartialEq, Eq, Structural, Debug)]
pub enum Blanks {
    /// Blanks of black dice.
    Black,
    /// Blanks of any die but a green one.
    NotGreen,
    /// Blanks of green dice.
    Green,
}

impl Blanks {
    /// Whether the rolled face is such a blank.
    pub open spec fn covers(self, rolled: RollFace) -> bool {
        rolled.face == dice::Face::Blank && match self {
            Blanks::Black => rolled.die == dice::Type::Black,
            Blanks::NotGreen => rolled.die != dice::Type::Green,
            Blanks::Green => rolled.die == dice::Type::Green,
        }
    }
}

/// The place of the first such blank at or after `from`, or the length of
/// the roll where there is none.
pub open spec fn first_blank(roll: Seq<RollFace>, which: Blanks, from: int) -> int
    decreases roll.len() - from,
{
    if from < 0 || from >= roll.len() {
        roll.len() as int
    } else if which.covers(roll[from]) {
        from
    } else {
        first_blank(roll, which, from + 1)
    }
}

/// The place of the first such blank in the roll.
pub fn find_blank(roll: &[RollFace], which: Blanks) -> (found: Option<usize>)
    ensures
        found matches Some(i) ==> i == first_blank(roll@, which, 0) && i < roll.len(),
        found is None ==> first_blank(roll@, which, 0) == roll.len(),
{
    let mut i: usize = 0;
    while i < roll.len()
        invariant
            i <= roll.len(),
            first_blank(roll@, which, 0) == first_blank(roll@, which, i as int),
        decreases roll.len() - i,
    {
        let rolled = roll[i];
        let covered = rolled.face == dice::Face::Blank && match which {
            Blanks::Black => rolled.die == dice::Type::Black,
            Blanks::NotGreen => rolled.die != dice::Type::Green,
            Blanks::Green => rolled.die == dice::Type::Green,
        };
        if covered {
            return Some(i);
        }
        i = i + 1;
    }
    None
}

/// The case with one rolled face replaced.
pub open spec fn rerolled(case: CaseView, idx: int, face: RollFace) -> CaseView {
    case.with_roll(case.roll.update(idx, face))
}

/// The branches of a reroll of the die at `idx`: one for every face of the
/// die, weighted as the die weights it, the first face of the catalogue
/// last.
pub open spec fn reroll_alterations(
    case: CaseView,
    die: dice::Type,
    idx: int,
    resolution: nat,
) -> Seq<Alteration> {
    let faces = dice::catalogue(die);
    Seq::new(
        faces.len(),
        |j: int|
            {
                let face = faces[(j + 1) % (faces.len() as int)];
                Alteration {
                    parts: attack::share(face.probability, resolution),
                    case: rerolled(case, idx, face),
                }
            },
    )
}

/// Whether the die at `idx` can show any of its faces with the case still
/// one that can be scored.
pub open spec fn rerollable(case: CaseView, die: dice::Type, idx: int) -> bool {
    &&& 0 <= idx < case.roll.len()
    &&& forall|j: int|
        0 <= j < dice::catalogue(die).len() ==> #[trigger] rerolled(
            case,
            idx,
            dice::catalogue(die)[j],
        ).wf()
}

proof fn lemma_reroll_parts(case: CaseView, die: dice::Type, idx: int, resolution: nat, k: int)
    requires
        0 <= k < dice::catalogue(die).len(),
    ensures
        attack::total_parts(reroll_alterations(case, die, idx, resolution).take(k)) == (
        resolution / (dice::sides(die) as nat)) * (dice::counts_upto(dice::catalogue(die), k + 1)
            - dice::catalogue(die)[0].probability.num),
    decreases k,
{
    let faces = dice::catalogue(die);
    let alterations = reroll_alterations(case, die, idx, resolution);
    let unit = (resolution / (dice::sides(die) as nat)) as int;
    dice::lemma_catalogue_is_a_distribution(die);
    reveal_with_fuel(dice::counts_upto, 2);
    if k == 0 {
        assert(alterations.take(0).len() == 0);
        assert(unit * 0 == 0);
    } else {
        lemma_reroll_parts(case, die, idx, resolution, k - 1);
        assert(alterations.take(k).drop_last() =~= alterations.take(k - 1));
        assert(alterations.take(k).last() == alterations[k - 1]);
        let face = faces[k];
        assert(k % (faces.len() as int) == k) by {
            vstd::arithmetic::div_mod::lemma_small_mod(k as nat, faces.len());
        }
        assert(alterations[k - 1].parts == face.probability.num * unit);
        let before = dice::counts_upto(faces, k) - faces[0].probability.num;
        assert(unit * before + face.probability.num * unit == unit * (before
            + face.probability.num)) by (nonlinear_arith);
    }
}

/// A reroll conserves the weight of the case: where the resolution is a
/// multiple of the die's sides, the parts of the branches add up to the
/// resolution.
pub proof fn lemma_reroll_conserves(case: CaseView, die: dice::Type, idx: int, resolution: nat)
    requires
        resolution % (dice::sides(die) as nat) == 0,
    ensures
        attack::total_parts(reroll_alterations(case, die, idx, resolution)) == resolution,
{
    let faces = dice::catalogue(die);
    let n = faces.len() as int;
    let alterations = reroll_alterations(case, die, idx, resolution);
    let sides = dice::sides(die) as int;
    let unit = (resolution / (sides as nat)) as int;
    dice::lemma_catalogue_is_a_distribution(die);
    dice::lemma_counts_unfold(faces, n);
    lemma_reroll_parts(case, die, idx, resolution, n - 1);
    assert(alterations.drop_last() =~= alterations.take(n - 1));
    assert(n % n == 0) by {
        vstd::arithmetic::div_mod::lemma_mod_self_0(n);
    }
    assert(alterations.last().parts == faces[0].probability.num * unit);
    let rest = dice::counts_upto(faces, n) - faces[0].probability.num;
    assert(unit * rest + faces[0].probability.num * unit == unit * sides) by (nonlinear_arith)
        requires
            rest + faces[0].probability.num == sides,
    ;
    vstd::arithmetic::div_mod::lemma_fundamental_div_mod(resolution as int, sides);
    assert(unit * sides == sides * unit) by (nonlinear_arith);
}

/// A reroll branches the case into the faces of the die as the die weights
/// them: every face of the catalogue has one branch in which it replaces the
/// rolled face, the branch weighs the face's share of the die's sides, and
/// the weights add up to the whole.
pub proof fn lemma_reroll_is_the_die(case: CaseView, die: dice::Type, idx: int, resolution: nat)
    requires
        resolution % (dice::sides(die) as nat) == 0,
    ensures
        reroll_alterations(case, die, idx, resolution).len() == dice::catalogue(die).len(),
        forall|i: int|
            #![trigger dice::catalogue(die)[i]]
            0 <= i < dice::catalogue(die).len() ==> {
                let n = dice::catalogue(die).len() as int;
                let branch = reroll_alterations(case, die, idx, resolution)[(i + n - 1) % n];
                &&& branch.case == rerolled(case, idx, dice::catalogue(die)[i])
                &&& branch.parts * dice::sides(die) == dice::catalogue(die)[i].probability.num
                    * resolution
            },
        attack::total_parts(reroll_alterations(case, die, idx, resolution)) == resolution,
{
    let faces = dice::catalogue(die);
    let n = faces.len() as int;
    let sides = dice::sides(die) as int;
    let unit = (resolution / (sides as nat)) as int;
    dice::lemma_catalogue_is_a_distribution(die);
    lemma_reroll_conserves(case, die, idx, resolution);
    vstd::arithmetic::div_mod::lemma_fundamental_div_mod(resolution as int, sides);
    assert forall|i: int| #![trigger dice::catalogue(die)[i]] 0 <= i < n implies {
        let branch = reroll_alterations(case, die, idx, resolution)[(i + n - 1) % n];
        &&& branch.case == rerolled(case, idx, faces[i])
        &&& branch.parts * sides == faces[i].probability.num * resolution
    } by {
        let j = (i + n - 1) % n;
        if i == 0 {
            vstd::arithmetic::div_mod::lemma_small_mod((n - 1) as nat, n as nat);
            vstd::arithmetic::div_mod::lemma_mod_self_0(n);
            assert((j + 1) % n == 0);
        } else {
            vstd::arithmetic::div_mod::lemma_fundamental_div_mod_converse(i + n - 1, n, 1, i - 1);
            vstd::arithmetic::div_mod::lemma_small_mod(i as nat, n as nat);
            assert((j + 1) % n == i);
        }
        let num = faces[i].probability.num as int;
        assert((num * unit) * sides == num * (sides * unit)) by (nonlinear_arith);
    }
}

/// Replaces the face rolled at `idx`.
fn replace(case: &mut Case, idx: usize, face: RollFace)
    requires
        old(case).wf(),
        idx < old(case)@.roll.len(),
        rerolled(old(case)@, idx as int, face).wf(),
    ensures
        final(case).wf(),
        final(case)@ == rerolled(old(case)@, idx as int, face),
{
    let ghost start = case@;
    let ghost after = rerolled(start, idx as int, face);
    case.update(|updater: &mut CaseUpdater|
        requires (*updater)@ == start,
        ensures (*final(updater))@ == after,
    {
        updater.roll_mut()[idx] = face;
    });
}

/// Whether the die at `die_idx` can be rerolled as a die of kind `die`.
pub fn can_reroll(case: &Case, die: dice::Type, die_idx: usize) -> (ok: bool)
    requires
        case.wf(),
    ensures
        ok == rerollable(case@, die, die_idx as int),
{
    if die_idx >= case.roll().len() {
        return false;
    }
    let faces = RollFace::faces_of(die);
    let mut roll = attack::copy_roll(case.roll());
    let mut j: usize = 0;
    proof {
        case.lemma_wf();
    }
    while j < faces.len()
        invariant
            j <= faces.len(),
            faces@ == dice::catalogue(die),
            case@.characteristics.wf(),
            die_idx < case@.roll.len(),
            roll@.len() == case@.roll.len(),
            forall|i: int| 0 <= i < roll@.len() && i != die_idx ==> roll@[i] == case@.roll[i],
            forall|i: int|
                0 <= i < j ==> #[trigger] rerolled(case@, die_idx as int, faces@[i]).wf(),
        decreases faces.len() - j,
    {
        roll[die_idx] = faces[j];
        assert(roll@ =~= case@.roll.update(die_idx as int, faces@[j as int]));
        if !attack::can_compute(case.characteristics(), roll.as_slice()) {
            assert(!rerolled(case@, die_idx as int, dice::catalogue(die)[j as int]).wf());
            return false;
        }
        j = j + 1;
    }
    true
}

/// Rerolls one die: yields a branch for every face of the die, in which that
/// face takes the place of the rolled one, with the face's own probability.
/// The branch of the catalogue's first face is the final one.
pub fn reroll(
    applicator: &mut EffectApplicator,
    case: &mut Case,
    die: dice::Type,
    die_idx: usize,
) -> (done: LastAlteration)
    requires
        old(case).wf(),
        rerollable(old(case)@, die, die_idx as int),
        old(applicator).wf(),
        !old(applicator).is_closed(),
        old(applicator).alterations().len() == 0,
        old(applicator).resolution() % (dice::sides(die) as nat) == 0,
    ensures
        final(applicator).wf(),
        final(applicator).is_closed(),
        final(applicator).resolution() == old(applicator).resolution(),
        final(applicator).alterations() == reroll_alterations(
            old(case)@,
            die,
            die_idx as int,
            old(applicator).resolution(),
        ),
        attack::total_parts(final(applicator).alterations()) == old(applicator).resolution(),
{
    let faces = RollFace::faces_of(die);
    let ghost start = case@;
    let ghost resolution = applicator.resolution();
    let ghost target = reroll_alterations(start, die, die_idx as int, resolution);
    let ghost n = faces@.len() as int;
    let ghost mut shown = start.roll[die_idx as int];
    proof {
        dice::lemma_catalogue_is_a_distribution(die);
        lemma_reroll_conserves(start, die, die_idx as int, resolution);
        assert(start.roll.update(die_idx as int, shown) =~= start.roll);
        assert(applicator.alterations() =~= target.take(0));
    }
    let mut j: usize = 1;
    while j < faces.len()
        invariant
            1 <= j <= faces.len(),
            n == faces@.len(),
            faces@ == dice::catalogue(die),
            forall|i: int|
                0 <= i < n ==> (#[trigger] faces@[i]).probability.den == dice::sides(die)
                    && faces@[i].probability.num <= dice::sides(die),
            case.wf(),
            case@ == rerolled(start, die_idx as int, shown),
            rerollable(start, die, die_idx as int),
            applicator.wf(),
            !applicator.is_closed(),
            applicator.resolution() == resolution,
            resolution % (dice::sides(die) as nat) == 0,
            target == reroll_alterations(start, die, die_idx as int, resolution),
            applicator.alterations() == target.take(j - 1),
        decreases faces.len() - j,
    {
        let face = faces[j];
        proof {
            assert(rerolled(start, die_idx as int, dice::catalogue(die)[j as int]).wf());
            assert(rerolled(case@, die_idx as int, face).roll =~= rerolled(
                start,
                die_idx as int,
                face,
            ).roll);
            vstd::arithmetic::div_mod::lemma_small_mod(j as nat, n as nat);
            assert(target[j - 1].parts == attack::share(face.probability, resolution));
        }
        replace(case, die_idx, face);
        applicator.yield_next_alteration(case, face.probability);
        proof {
            shown = face;
            assert(target.take(j as int) =~= target.take(j - 1).push(target[j - 1]));
        }
        j = j + 1;
    }
    let face = faces[0];
    proof {
        assert(rerolled(start, die_idx as int, dice::catalogue(die)[0]).wf());
        assert(rerolled(case@, die_idx as int, face).roll =~= rerolled(
            start,
            die_idx as int,
            face,
        ).roll);
        vstd::arithmetic::div_mod::lemma_mod_self_0(n);
        assert(target[n - 1].parts == attack::share(face.probability, resolution));
    }
    replace(case, die_idx, face);
    let done = applicator.yield_last_alteration(case, face.probability);
    proof {
        assert(target =~= target.take(n - 1).push(target[n - 1]));
    }
    done
}

/// The single branch of an effect that leaves the case alone.
pub open spec fn untouched(case: CaseView, resolution: nat) -> Seq<Alteration> {
    seq![Alteration { parts: resolution, case }]
}

/// Yields the case as it is as the final branch, at full weight.
fn yield_untouched(applicator: &mut EffectApplicator, case: &mut Case) -> (done: LastAlteration)
    requires
        old(case).wf(),
        old(applicator).wf(),
        !old(applicator).is_closed(),
        old(applicator).alterations().len() == 0,
    ensures
        final(applicator).wf(),
        final(applicator).is_closed(),
        final(applicator).resolution() == old(applicator).resolution(),
        final(applicator).alterations() == untouched(old(case)@, old(applicator).resolution()),
        attack::total_parts(final(applicator).alterations()) == old(applicator).resolution(),
{
    proof {
        reveal_with_fuel(attack::total_parts, 2);
        attack::lemma_share_bounded(Ratio { num: 1, den: 1 }, applicator.resolution());
        assert(applicator.resolution() % 1 == 0);
    }
    let done = applicator.yield_last_alteration(case, Ratio::one());
    assert(applicator.alterations() =~= untouched(old(case)@, old(applicator).resolution()));
    done
}

/// Rerolls the first blank of a black die, if there is one.
pub struct RerollBlackBlank {}

impl RerollBlackBlank {
    /// The effect conserves the weight of every case.
    pub proof fn lemma_conserves(&self, case: CaseView)
        ensures
            attack::total_parts(Effect::alterations(self, case)) == Effect::resolution(self),
    {
        reveal_with_fuel(attack::total_parts, 2);
        let idx = first_blank(case.roll, Blanks::Black, 0);
        lemma_reroll_conserves(case, dice::Type::Black, idx, 12);
    }
}

impl Effect for RerollBlackBlank {
    open spec fn resolution(&self) -> nat {
        12
    }

    open spec fn admits(&self, case: CaseView) -> bool {
        let idx = first_blank(case.roll, Blanks::Black, 0);
        idx < case.roll.len() ==> rerollable(case, dice::Type::Black, idx)
    }

    open spec fn alterations(&self, case: CaseView) -> Seq<Alteration> {
        let idx = first_blank(case.roll, Blanks::Black, 0);
        if idx < case.roll.len() {
            reroll_alterations(case, dice::Type::Black, idx, 12)
        } else {
            untouched(case, 12)
        }
    }

    fn units(&self) -> (d: u64) {
        12
    }

    fn accepts(&self, case: &Case) -> (ok: bool) {
        match find_blank(case.roll(), Blanks::Black) {
            Some(idx) => can_reroll(case, dice::Type::Black, idx),
            None => true,
        }
    }

    fn yield_alterations(&self, applicator: &mut EffectApplicator, case: &mut Case) -> (done:
        LastAlteration) {
        let blank_idx = find_blank(case.roll(), Blanks::Black);
        if let Some(idx) = blank_idx {
            reroll(applicator, case, dice::Type::Black, idx)
        } else {
            yield_untouched(applicator, case)
        }
    }
}

/// Rerolls a blank of any die. A blank of a die that is not green is always
/// rerolled. A green blank counts as two less skill, so it is rerolled only
/// where that cannot hurt: on a hit that two more skill would not turn into
/// a miss, or on a miss that one less skill would turn into a hit.
pub struct RerollAnyBlank {}

impl RerollAnyBlank {
    /// The effect conserves the weight of every case.
    pub proof fn lemma_conserves(&self, case: CaseView)
        ensures
            attack::total_parts(Effect::alterations(self, case)) == Effect::resolution(self),
    {
        reveal_with_fuel(attack::total_parts, 2);
        match Self::choice(case) {
            Some(c) => {
                assert(60nat % 12 == 0 && 60nat % 20 == 0);
                lemma_reroll_conserves(case, c.0, c.1, 60);
            },
            None => {},
        }
    }

    /// Whether a green blank is worth rerolling.
    pub open spec fn rerolls_green(case: CaseView) -> bool {
        (case.result(attack::Facet::Hits) > 0 && !is_near_hit(case, 2)) || is_near_miss(case, 1)
    }

    /// The die that is rerolled and its place in the roll, if any is.
    pub open spec fn choice(case: CaseView) -> Option<(dice::Type, int)> {
        let other = first_blank(case.roll, Blanks::NotGreen, 0);
        let green = first_blank(case.roll, Blanks::Green, 0);
        if other < case.roll.len() {
            Some((case.roll[other].die, other))
        } else if Self::rerolls_green(case) && green < case.roll.len() {
            Some((dice::Type::Green, green))
        } else {
            None
        }
    }

    /// The die that is rerolled and its place in the roll, if any is.
    fn pick(case: &Case) -> (r: Option<(dice::Type, usize)>)
        requires
            case.wf(),
        ensures
            r is Some <==> Self::choice(case@) is Some,
            r matches Some(c) ==> Self::choice(case@) == Some((c.0, c.1 as int)) && c.1
                < case@.roll.len(),
    {
        let blank_idx = find_blank(case.roll(), Blanks::NotGreen);
        if let Some(idx) = blank_idx {
            let rolled = case.roll()[idx];
            Some((rolled.die, idx))
        } else if case.result(attack::Facet::Hits) > 0 && !near_hit(case, 2) {
            let blank_idx = find_blank(case.roll(), Blanks::Green);
            if let Some(idx) = blank_idx {
                Some((dice::Type::Green, idx))
            } else {
                None
            }
        } else if near_miss(case, 1) {
            let blank_idx = find_blank(case.roll(), Blanks::Green);
            if let Some(idx) = blank_idx {
                Some((dice::Type::Green, idx))
            } else {
                None
            }
        } else {
            None
        }
    }
}

impl Effect for RerollAnyBlank {
    open spec fn resolution(&self) -> nat {
        60
    }

    open spec fn admits(&self, case: CaseView) -> bool {
        Self::choice(case) matches Some(c) ==> rerollable(case, c.0, c.1)
    }

    open spec fn alterations(&self, case: CaseView) -> Seq<Alteration> {
        match Self::choice(case) {
            Some(c) => reroll_alterations(case, c.0, c.1, 60),
            None => untouched(case, 60),
        }
    }

    fn units(&self) -> (d: u64) {
        60
    }

    fn accepts(&self, case: &Case) -> (ok: bool) {
        match Self::pick(case) {
            Some(c) => can_reroll(case, c.0, c.1),
            None => true,
        }
    }

    fn yield_alterations(&self, applicator: &mut EffectApplicator, case: &mut Case) -> (done:
        LastAlteration) {
        match Self::pick(case) {
            Some(c) => reroll(applicator, case, c.0, c.1),
            None => yield_untouched(applicator, case),
        }
    }
}

} // verus!
