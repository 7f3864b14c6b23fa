use combat_dice::attack;
use combat_dice::attack::{
    can_compute, compute_output, Case, Characteristics, Effect, EffectApplicator, Facet,
    Outcome, SCALE_LIMIT,
};
use combat_dice::common::{PositiveScore, Ratio};
use combat_dice::dice;
use combat_dice::dice::{Face, RollFace, Type};
use combat_dice::disposition::Disposition;
use combat_dice::effects::{
    can_reroll, find_blank, near_hit, near_miss, Blanks, ExchangeScoreOnHit,
    IgnoreArmorOnBottles, LuckForArmor, LuckForCrit, LuckForHit, LuckForMiss, RerollAnyBlank,
    RerollBlackBlank,
};

fn sure(die: Type, face: Face) -> RollFace {
    RollFace { die, face, probability: Ratio { num: 1, den: 1 } }
}

fn hitting(damage: i8) -> Characteristics {
    Characteristics {
        base_score: dice::new_scores(&[(dice::Facet::Damage, damage), (dice::Facet::Hit, 1)]),
        ..Default::default()
    }
}

fn resolve(effects: &Vec<&dyn Effect>, chars: &Characteristics, roll: &[RollFace]) -> Outcome {
    EffectApplicator::apply_effects(effects, chars, roll).unwrap()
}

#[test]
fn skill_equal_to_the_threshold_hits() {
    let chars = Characteristics { required_skill: 6, ..Default::default() };
    let outcome = resolve(&vec![], &chars, &[sure(Type::White, Face::Skill6)]);
    assert_eq!(outcome.scale, 1);
    assert_eq!(outcome.scores.get(Facet::Hits), 1);
    assert_eq!(outcome.probability, Ratio { num: 1, den: 1 });
}

#[test]
fn hard_armor_takes_one_of_five() {
    let chars = Characteristics { hard_armor: 1, ..hitting(5) };
    let outcome = resolve(&vec![], &chars, &[]);
    assert_eq!((outcome.scores.get(Facet::Damage), outcome.scale), (4, 1));
}

#[test]
fn soft_armor_holds_two_and_breaks_on_four() {
    let chars = Characteristics { soft_armor: 3, ..hitting(5) };
    let held = resolve(&vec![], &chars, &[sure(Type::Red, Face::Armor2)]);
    assert_eq!((held.scores.get(Facet::Damage), held.scale), (3, 1));
    let broken = resolve(&vec![], &chars, &[sure(Type::Red, Face::Armor4)]);
    assert_eq!((broken.scores.get(Facet::Damage), broken.scale), (5, 1));
}

#[test]
fn shred_comes_off_soft_armor_before_hard_armor() {
    let chars = Characteristics { soft_armor: 3, hard_armor: 1, ..hitting(5) };
    let roll = [sure(Type::Red, Face::Armor3), sure(Type::Black, Face::Shred1)];
    let output = compute_output(&chars, &roll);
    assert_eq!(output.1.get(Facet::Damage), 2);
}

#[test]
fn mitigation_stops_at_zero_damage() {
    let chars = Characteristics { soft_armor: 4, hard_armor: 3, ..hitting(1) };
    let output = compute_output(&chars, &[sure(Type::Red, Face::Armor4)]);
    assert_eq!(output.1.get(Facet::Damage), 0);
    assert_eq!(output.1.get(Facet::Hits), 1);
}

#[test]
fn explicit_miss_beats_low_skill() {
    let chars = Characteristics { required_skill: 9, ..Default::default() };
    let output = compute_output(&chars, &[sure(Type::White, Face::Miss1)]);
    assert_eq!(output.1.get(Facet::Hits), 0);
    assert_eq!(output.0.scores.get(dice::Facet::Miss), 1);
}

#[test]
fn explicit_hit_beats_high_skill_and_a_miss() {
    let chars = Characteristics { required_skill: 1, ..Default::default() };
    let roll = [
        sure(Type::White, Face::Crit1),
        sure(Type::White, Face::Skill10),
        sure(Type::White, Face::Miss1),
        sure(Type::White, Face::MissAction),
    ];
    let output = compute_output(&chars, &roll);
    assert_eq!(output.1.get(Facet::Hits), 1);
    assert_eq!(output.1.get(Facet::Crits), 1);
    assert_eq!(output.1.get(Facet::Actions), 1);
    assert_eq!(output.0.scores.get(dice::Facet::Miss), 1);
    assert_eq!(output.0.scores.get(dice::Facet::Skill), 10);
}

#[test]
fn a_miss_keeps_its_damage() {
    let chars = Characteristics {
        base_score: dice::new_scores(&[(dice::Facet::Damage, 4)]),
        required_skill: 3,
        ..Default::default()
    };
    let output = compute_output(&chars, &[sure(Type::White, Face::Skill4)]);
    assert_eq!(output.1.get(Facet::Hits), 0);
    assert_eq!(output.1.get(Facet::Damage), 4);
}

#[test]
fn every_face_counts_what_it_shows() {
    let roll = [
        sure(Type::Green, Face::Blank),
        sure(Type::Black, Face::Blank),
        sure(Type::Blue, Face::BottleStar),
        sure(Type::Blue, Face::Star2),
        sure(Type::Blue, Face::Explosion1),
        sure(Type::White, Face::Action1),
        sure(Type::Yellow, Face::Shred2),
        sure(Type::Green, Face::SkillMinus3),
    ];
    let output = compute_output(&Default::default(), &roll);
    let tally = &output.0.scores;
    assert_eq!(tally.get(dice::Facet::Skill), -4);
    assert_eq!(tally.get(dice::Facet::Bottle), 1);
    assert_eq!(tally.get(dice::Facet::Star), 3);
    assert_eq!(tally.get(dice::Facet::Explosion), 1);
    assert_eq!(tally.get(dice::Facet::Action), 1);
    assert_eq!(tally.get(dice::Facet::Shred), 2);
    assert_eq!(tally.get(dice::Facet::Damage), 0);
}

#[test]
fn new_scores_keeps_the_later_value() {
    let scores = dice::new_scores(&[
        (dice::Facet::Armor, 2),
        (dice::Facet::Miss, 7),
        (dice::Facet::Armor, 5),
    ]);
    assert_eq!(scores.get(dice::Facet::Armor), 5);
    assert_eq!(scores.get(dice::Facet::Miss), 7);
    assert_eq!(scores.get(dice::Facet::Damage), 0);
    let copy = scores.clone();
    assert_eq!(copy.get(dice::Facet::Armor), 5);
    assert_eq!(dice::Scores::default().get(dice::Facet::Armor), 0);
}

#[test]
fn update_combines_facet_by_facet() {
    let mut sum = dice::new_scores(&[(dice::Facet::Skill, 3), (dice::Facet::Crit, 1)]);
    let part = dice::new_scores(&[(dice::Facet::Skill, -5), (dice::Facet::Hit, 2)]);
    dice::update(&mut sum, &part, |sum, part| *sum += *part);
    assert_eq!(sum.get(dice::Facet::Skill), -2);
    assert_eq!(sum.get(dice::Facet::Crit), 1);
    assert_eq!(sum.get(dice::Facet::Hit), 2);
    assert_eq!(part.get(dice::Facet::Skill), -5);
    let mut totals = attack::Scores::default();
    let chars = hitting(3);
    let output = compute_output(&chars, &[]);
    attack::update(&mut totals, &output.1, |sum, part| *sum += *part * 7);
    attack::update(&mut totals, &output.1, |sum, part| *sum -= *part);
    assert_eq!(totals.get(Facet::Damage), 18);
    assert_eq!(totals.get(Facet::Hits), 6);
    assert_eq!(totals.get(Facet::Crits), 0);
}

#[test]
fn the_catalogue_shares_out_every_side() {
    for die in [Type::White, Type::Red, Type::Green, Type::Yellow, Type::Black, Type::Blue] {
        let faces = RollFace::faces_of(die);
        let sides = dice::sides(die);
        assert_eq!(faces.iter().map(|face| face.probability.num).sum::<u64>(), sides);
        assert!(faces.iter().all(|face| face.die == die && face.probability.den == sides));
    }
    assert_eq!(RollFace::faces_of(Type::White).len(), 13);
    assert_eq!(RollFace::faces_of(Type::Black)[2], dice::side(Type::Black, Face::Blank, 3));
    assert_eq!(dice::sides(Type::White), 20);
    assert_eq!(dice::sides(Type::Blue), 12);
}

#[test]
fn positive_scores_are_positive() {
    assert!(PositiveScore::new(0).is_none());
    assert!(PositiveScore::new(-3).is_none());
    assert_eq!(PositiveScore::new(3).unwrap().get(), 3);
}

#[test]
fn a_case_is_rescored_after_every_change() {
    let chars = Characteristics { soft_armor: 3, ..hitting(5) };
    let mut case = Case::new(&chars, &[sure(Type::Red, Face::Armor2)]);
    let fork = case.reborrow();
    assert_eq!(case.result(Facet::Damage), 3);
    case.update(|updater| {
        *updater.score_mut(dice::Facet::Damage) += 2;
        updater.roll_mut()[0] = sure(Type::Red, Face::Armor4);
    });
    assert_eq!(case.result(Facet::Damage), 7);
    assert_eq!(case.score(dice::Facet::Damage), 7);
    assert_eq!(case.score(dice::Facet::Armor), 4);
    assert_eq!(case.characteristics().base_score.get(dice::Facet::Damage), 7);
    assert_eq!(case.roll()[0].face, Face::Armor4);
    assert_eq!(fork.result(Facet::Damage), 3);
    assert_eq!(fork.roll()[0].face, Face::Armor2);
    assert_eq!(chars.base_score.get(dice::Facet::Damage), 5);
}

#[test]
fn near_hits_and_near_misses() {
    let chars = Characteristics { required_skill: 5, ..Default::default() };
    let hit = Case::new(&chars, &[sure(Type::White, Face::Skill4)]);
    assert!(near_hit(&hit, 2));
    assert!(!near_hit(&hit, 1));
    assert!(!near_miss(&hit, 2));
    let miss = Case::new(&chars, &[sure(Type::White, Face::Skill7)]);
    assert!(near_miss(&miss, 2));
    assert!(!near_miss(&miss, 1));
    assert!(!near_hit(&miss, 2));
    let flat = Case::new(&chars, &[sure(Type::White, Face::Miss1)]);
    assert!(!near_miss(&flat, 9));
    let lucky = Case::new(&chars, &[sure(Type::White, Face::Crit1)]);
    assert!(!near_hit(&lucky, 9));
}

#[test]
fn luck_for_hit_halves_a_near_miss() {
    let chars = Characteristics {
        base_score: dice::new_scores(&[(dice::Facet::Damage, 3)]),
        required_skill: 5,
        ..Default::default()
    };
    let luck = LuckForHit {};
    let effects: Vec<&dyn Effect> = vec![&luck];
    let near = resolve(&effects, &chars, &[sure(Type::White, Face::Skill7)]);
    assert_eq!(near.scale, 2);
    assert_eq!(near.scores.get(Facet::Hits), 1);
    assert_eq!(near.scores.get(Facet::Damage), 6);
    let far = resolve(&effects, &chars, &[sure(Type::White, Face::Skill8)]);
    assert_eq!((far.scores.get(Facet::Hits), far.scale), (0, 2));
    let hit = resolve(&effects, &chars, &[sure(Type::White, Face::Skill5)]);
    assert_eq!((hit.scores.get(Facet::Hits), hit.scale), (2, 2));
}

#[test]
fn luck_for_miss_halves_a_near_hit() {
    let chars = Characteristics { required_skill: 5, ..Default::default() };
    let luck = LuckForMiss {};
    let effects: Vec<&dyn Effect> = vec![&luck];
    let near = resolve(&effects, &chars, &[sure(Type::White, Face::Skill4)]);
    assert_eq!((near.scores.get(Facet::Hits), near.scale), (1, 2));
    let safe = resolve(&effects, &chars, &[sure(Type::White, Face::Skill3)]);
    assert_eq!((safe.scores.get(Facet::Hits), safe.scale), (2, 2));
}

#[test]
fn luck_for_armor_and_crit_split_a_hit() {
    let armor = LuckForArmor {};
    let crit = LuckForCrit {};
    let chars = hitting(3);
    let effects: Vec<&dyn Effect> = vec![&armor];
    let outcome = resolve(&effects, &chars, &[]);
    assert_eq!((outcome.scores.get(Facet::Damage), outcome.scale), (5, 2));
    let effects: Vec<&dyn Effect> = vec![&crit];
    let outcome = resolve(&effects, &chars, &[]);
    assert_eq!((outcome.scores.get(Facet::Crits), outcome.scale), (1, 2));
    let effects: Vec<&dyn Effect> = vec![&armor, &crit];
    let outcome = resolve(&effects, &chars, &[]);
    assert_eq!(outcome.scale, 4);
    assert_eq!(outcome.scores.get(Facet::Damage), 10);
    assert_eq!(outcome.scores.get(Facet::Crits), 2);
    assert_eq!(outcome.scores.get(Facet::Hits), 4);
    let missing = Characteristics { required_skill: -1, ..Default::default() };
    let outcome = resolve(&effects, &missing, &[]);
    assert_eq!((outcome.scores.get(Facet::Crits), outcome.scale), (0, 4));
}

#[test]
fn later_luck_sees_what_earlier_luck_made() {
    let chars = Characteristics { required_skill: 5, ..Default::default() };
    let for_hit = LuckForHit {};
    let for_miss = LuckForMiss {};
    let effects: Vec<&dyn Effect> = vec![&for_hit, &for_miss];
    let outcome = resolve(&effects, &chars, &[sure(Type::White, Face::Skill7)]);
    assert_eq!((outcome.scores.get(Facet::Hits), outcome.scale), (1, 4));
    let effects: Vec<&dyn Effect> = vec![&for_miss, &for_hit];
    let outcome = resolve(&effects, &chars, &[sure(Type::White, Face::Skill7)]);
    assert_eq!((outcome.scores.get(Facet::Hits), outcome.scale), (2, 4));
}

#[test]
fn exchange_turns_bottles_into_damage() {
    let one = PositiveScore::new(1).unwrap();
    let two = PositiveScore::new(2).unwrap();
    let roll = [sure(Type::Blue, Face::Bottle2), sure(Type::Blue, Face::Bottle1)];
    let chars = hitting(1);
    let all = ExchangeScoreOnHit {
        give: (dice::Facet::Bottle, one),
        take: (dice::Facet::Damage, one),
        times: None,
    };
    let effects: Vec<&dyn Effect> = vec![&all];
    let outcome = resolve(&effects, &chars, &roll);
    assert_eq!((outcome.scores.get(Facet::Damage), outcome.scale), (4, 1));
    let capped = ExchangeScoreOnHit {
        give: (dice::Facet::Bottle, one),
        take: (dice::Facet::Damage, two),
        times: Some(two),
    };
    let effects: Vec<&dyn Effect> = vec![&capped];
    let outcome = resolve(&effects, &chars, &roll);
    assert_eq!(outcome.scores.get(Facet::Damage), 5);
    let costly = ExchangeScoreOnHit {
        give: (dice::Facet::Bottle, two),
        take: (dice::Facet::Damage, one),
        times: None,
    };
    let effects: Vec<&dyn Effect> = vec![&costly, &all];
    let outcome = resolve(&effects, &chars, &roll);
    assert_eq!(outcome.scores.get(Facet::Damage), 3);
    let missing = Characteristics { required_skill: -1, ..Default::default() };
    let effects: Vec<&dyn Effect> = vec![&all];
    let outcome = resolve(&effects, &missing, &roll);
    assert_eq!(outcome.scores.get(Facet::Damage), 0);
}

#[test]
fn a_bottle_gets_past_one_point_of_armor() {
    let chars = Characteristics { soft_armor: 1, ..hitting(1) };
    let roll = [sure(Type::Red, Face::Armor1), sure(Type::Blue, Face::Bottle1)];
    let plain = resolve(&vec![], &chars, &roll);
    assert_eq!(plain.scores.get(Facet::Damage), 0);
    let ignore = IgnoreArmorOnBottles {};
    let effects: Vec<&dyn Effect> = vec![&ignore];
    let outcome = resolve(&effects, &chars, &roll);
    assert_eq!((outcome.scores.get(Facet::Damage), outcome.scale), (1, 1));
}

#[test]
fn a_rerolled_black_blank_is_a_black_die() {
    let chars = hitting(0);
    let reroll = RerollBlackBlank {};
    let effects: Vec<&dyn Effect> = vec![&reroll];
    let outcome = resolve(&effects, &chars, &[sure(Type::Black, Face::Blank)]);
    assert_eq!((outcome.scores.get(Facet::Damage), outcome.scale), (7, 12));
    assert_eq!(outcome.scores.get(Facet::Hits), 12);
    let kept = resolve(&effects, &chars, &[sure(Type::Yellow, Face::Blank)]);
    assert_eq!((kept.scores.get(Facet::Damage), kept.scale), (0, 12));
    let disposition =
        Disposition { dice: vec![Type::Black], characteristics: hitting(0), effects };
    let average = disposition.average_scores().unwrap();
    assert_eq!(average.scale, 144);
    assert_eq!(average.scores.get(Facet::Damage), 105);
    assert_eq!(average.probability, Ratio { num: 12, den: 12 });
}

#[test]
fn any_blank_is_rerolled_where_it_cannot_hurt() {
    let reroll = RerollAnyBlank {};
    let effects: Vec<&dyn Effect> = vec![&reroll];
    let yellow = resolve(&effects, &hitting(0), &[sure(Type::Yellow, Face::Blank)]);
    assert_eq!((yellow.scores.get(Facet::Damage), yellow.scale), (5, 60));
    let chars = Characteristics { required_skill: 0, ..Default::default() };
    let green = resolve(&effects, &chars, &[sure(Type::Green, Face::Blank)]);
    assert_eq!((green.scores.get(Facet::Damage), green.scale), (10, 60));
    assert_eq!(green.scores.get(Facet::Hits), 60);
    let chars = Characteristics { required_skill: -2, ..Default::default() };
    let kept = resolve(&effects, &chars, &[sure(Type::Green, Face::Blank)]);
    assert_eq!((kept.scores.get(Facet::Damage), kept.scale), (0, 60));
    assert_eq!(kept.scores.get(Facet::Hits), 60);
    let chars = Characteristics { required_skill: -3, ..Default::default() };
    let missed = resolve(&effects, &chars, &[sure(Type::Green, Face::Blank)]);
    assert_eq!(missed.scores.get(Facet::Hits), 5);
}

#[test]
fn blanks_are_found_in_order() {
    let roll = [
        sure(Type::Green, Face::Blank),
        sure(Type::Black, Face::Damage1),
        sure(Type::Yellow, Face::Blank),
        sure(Type::Black, Face::Blank),
    ];
    assert_eq!(find_blank(&roll, Blanks::Green), Some(0));
    assert_eq!(find_blank(&roll, Blanks::NotGreen), Some(2));
    assert_eq!(find_blank(&roll, Blanks::Black), Some(3));
    assert_eq!(find_blank(&roll[..2], Blanks::Black), None);
}

#[test]
fn what_cannot_be_scored_is_refused() {
    let ten = sure(Type::White, Face::Skill10);
    let chars = Characteristics::default();
    assert!(can_compute(&chars, &[ten; 12]));
    assert!(!can_compute(&chars, &[ten; 13]));
    assert!(EffectApplicator::apply_effects(&vec![], &chars, &[ten; 13]).is_none());
    let high = Characteristics {
        base_score: dice::new_scores(&[(dice::Facet::Skill, 120)]),
        ..Default::default()
    };
    assert!(can_compute(&high, &[]));
    assert!(!can_compute(&high, &[ten]));
    let huge = RollFace {
        die: Type::White,
        face: Face::Blank,
        probability: Ratio { num: 1 << 40, den: 1 },
    };
    assert!(can_compute(&chars, &[huge]));
    assert!(!can_compute(&chars, &[huge, huge]));
}

#[test]
fn an_effect_that_would_overflow_is_refused() {
    let chars = Characteristics {
        base_score: dice::new_scores(&[(dice::Facet::Skill, 127)]),
        required_skill: 127,
        ..Default::default()
    };
    let for_miss = LuckForMiss {};
    let effects: Vec<&dyn Effect> = vec![&for_miss];
    assert!(EffectApplicator::apply_effects(&effects, &chars, &[]).is_none());
    let for_hit = LuckForHit {};
    let effects: Vec<&dyn Effect> = vec![&for_hit];
    assert!(EffectApplicator::apply_effects(&effects, &chars, &[]).is_some());
    let chars = Characteristics {
        base_score: dice::new_scores(&[(dice::Facet::Skill, 120)]),
        ..Default::default()
    };
    let roll = [sure(Type::Black, Face::Blank), sure(Type::White, Face::Skill2)];
    let case = Case::new(&chars, &roll);
    assert!(can_reroll(&case, Type::Black, 0));
    assert!(!can_reroll(&case, Type::White, 0));
    assert!(!can_reroll(&case, Type::Black, 2));
}

#[test]
fn an_attack_beyond_the_scale_limit_is_refused() {
    let disposition = Disposition { dice: vec![Type::White; 13], ..Default::default() };
    assert!(disposition.average_scores().is_none());
    let luck = LuckForCrit {};
    let effects: Vec<&dyn Effect> = vec![&luck; 55];
    assert!(EffectApplicator::apply_effects(&effects, &Default::default(), &[]).is_none());
    assert_eq!(SCALE_LIMIT, (1 << 55) - 1);
}

#[test]
fn no_dice_make_one_certain_roll() {
    let disposition = Disposition { characteristics: hitting(2), ..Default::default() };
    let average = disposition.average_scores().unwrap();
    assert_eq!(average.scale, 1);
    assert_eq!(average.probability, Ratio { num: 1, den: 1 });
    assert_eq!(average.scores.get(Facet::Damage), 2);
}

#[test]
fn the_probabilities_of_all_rolls_add_up_to_one() {
    let luck = LuckForHit {};
    let reroll = RerollAnyBlank {};
    let effects: Vec<&dyn Effect> = vec![&reroll, &luck];
    let disposition = Disposition {
        dice: vec![Type::White, Type::Green, Type::Red],
        characteristics: Characteristics { required_skill: 6, soft_armor: 2, ..hitting(1) },
        effects,
    };
    let average = disposition.average_scores().unwrap();
    assert_eq!(average.probability, Ratio { num: 2880, den: 2880 });
    assert_eq!(average.scale, 2880 * 120);
    let hits = average.scores.get(Facet::Hits);
    assert!(0 < hits && hits <= average.scale as i64);
}

#[test]
fn every_effect_keeps_the_whole_weight_of_a_case() {
    let one = PositiveScore::new(1).unwrap();
    let exchange = ExchangeScoreOnHit {
        give: (dice::Facet::Bottle, one),
        take: (dice::Facet::Damage, one),
        times: None,
    };
    let ignore = IgnoreArmorOnBottles {};
    let black = RerollBlackBlank {};
    let any = RerollAnyBlank {};
    let for_hit = LuckForHit {};
    let for_miss = LuckForMiss {};
    let armor = LuckForArmor {};
    let crit = LuckForCrit {};
    let all: [(&dyn Effect, u64); 8] = [
        (&exchange, 1),
        (&ignore, 1),
        (&black, 12),
        (&any, 60),
        (&for_hit, 2),
        (&for_miss, 2),
        (&armor, 2),
        (&crit, 2),
    ];
    let chars = Characteristics { soft_armor: 1, ..hitting(2) };
    let roll = [
        sure(Type::Black, Face::Blank),
        sure(Type::Yellow, Face::Blank),
        sure(Type::Blue, Face::Bottle1),
        sure(Type::Red, Face::Armor1),
    ];
    for (effect, units) in all {
        assert_eq!(effect.units(), units);
        let outcome = resolve(&vec![effect], &chars, &roll);
        assert_eq!(outcome.scale, units);
        assert_eq!(outcome.scores.get(Facet::Hits), units as i64);
    }
    let chain: Vec<&dyn Effect> = all.iter().map(|pair| pair.0).collect();
    let outcome = resolve(&chain, &chars, &roll);
    assert_eq!(outcome.scale, 12 * 60 * 16);
    assert_eq!(outcome.scores.get(Facet::Hits), 12 * 60 * 16);
}
