use combat_dice::attack::{compute_output, Characteristics, Facet, Outcome};
use combat_dice::common::Ratio;
use combat_dice::dice;
use combat_dice::disposition::Disposition;

fn roll(face: dice::Face) -> dice::RollFace {
    dice::RollFace { die: dice::Type::White, face, probability: Ratio { num: 0, den: 1 } }
}

fn expected(outcome: &Outcome, facet: Facet) -> f64 {
    outcome.scores.get(facet) as f64 / outcome.scale as f64
}

#[test]
fn roll_exact_hits() {
    let chars = &Characteristics { required_skill: 6, ..Default::default() };
    let output = compute_output(chars, &[roll(dice::Face::Skill6)]);
    assert_eq!(output.1.get(Facet::Hits), 1);
}

#[test]
fn high_roll_misses() {
    let chars = &Characteristics { required_skill: 6, ..Default::default() };
    let output = compute_output(chars, &[roll(dice::Face::Skill7)]);
    assert_eq!(output.1.get(Facet::Hits), 0);
}

#[test]
fn probability_multiplies() {
    fn prob(num: u64, den: u64) -> dice::RollFace {
        dice::RollFace {
            die: dice::Type::White,
            face: dice::Face::Crit1,
            probability: Ratio { num, den },
        }
    }
    let output = compute_output(&Default::default(), &[prob(2, 1), prob(5, 1), prob(3, 2)]);
    let probability = output.0.probability.num as f64 / output.0.probability.den as f64;
    assert_eq!(probability.round() as i64, 15);
}

#[test]
fn hard_armor_applies() {
    let chars = &Characteristics {
        base_score: dice::new_scores(&[(dice::Facet::Damage, 5), (dice::Facet::Hit, 1)]),
        hard_armor: 1,
        ..Default::default()
    };
    let output = compute_output(&chars, &[]);
    assert_eq!(output.1.get(Facet::Damage), 4);
}

#[test]
fn soft_armor_low_roll() {
    let chars = &Characteristics {
        base_score: dice::new_scores(&[(dice::Facet::Damage, 5), (dice::Facet::Hit, 1)]),
        soft_armor: 3,
        ..Default::default()
    };
    let output = compute_output(&chars, &[roll(dice::Face::Armor2)]);
    assert_eq!(output.1.get(Facet::Damage), 3);
}

#[test]
fn soft_armor_high_roll() {
    let chars = &Characteristics {
        base_score: dice::new_scores(&[(dice::Facet::Damage, 5), (dice::Facet::Hit, 1)]),
        soft_armor: 3,
        ..Default::default()
    };
    let output = compute_output(&chars, &[roll(dice::Face::Armor4)]);
    assert_eq!(output.1.get(Facet::Damage), 5);
}

#[test]
fn damage_is_summed() {
    let chars = &Characteristics {
        base_score: dice::new_scores(&[(dice::Facet::Damage, 5), (dice::Facet::Hit, 1)]),
        ..Default::default()
    };
    let output = compute_output(&chars, &[roll(dice::Face::Damage1), roll(dice::Face::Damage2)]);
    assert_eq!(output.1.get(Facet::Damage), 8);
}

#[test]
fn shred_ignores_armor() {
    let chars = &Characteristics {
        base_score: dice::new_scores(&[(dice::Facet::Damage, 5), (dice::Facet::Hit, 1)]),
        soft_armor: 3,
        ..Default::default()
    };
    let output = compute_output(&chars, &[roll(dice::Face::Armor3), roll(dice::Face::Shred1)]);
    assert_eq!(output.1.get(Facet::Damage), 3);
}

#[test]
fn damage_on_hits_only() {
    let disposition = Disposition {
        characteristics: Characteristics {
            required_skill: 9,
            base_score: dice::new_scores(&[(dice::Facet::Damage, 1)]),
            ..Default::default()
        },
        dice: vec![dice::Type::White],
        ..Default::default()
    };
    let outcome = disposition.average_scores().unwrap();
    assert_eq!((expected(&outcome, Facet::Damage) * 20.0).round() as i64, 20);
}

#[test]
fn soft_armor_statistics() {
    let disposition = Disposition {
        characteristics: Characteristics {
            base_score: dice::new_scores(&[(dice::Facet::Damage, 3), (dice::Facet::Hit, 1)]),
            soft_armor: 2,
            ..Default::default()
        },
        dice: vec![dice::Type::Red],
        ..Default::default()
    };
    let outcome = disposition.average_scores().unwrap();
    assert_eq!((expected(&outcome, Facet::Damage) * 12.0).round() as i64, 26);
}

#[test]
fn black_2_dice_statistics() {
    let disposition = Disposition {
        dice: vec![dice::Type::Black, dice::Type::Black, dice::Type::Blue],
        characteristics: Characteristics {
            base_score: dice::new_scores(&[(dice::Facet::Hit, 1)]),
            ..Default::default()
        },
        ..Default::default()
    };
    let outcome = disposition.average_scores().unwrap();
    assert_eq!((expected(&outcome, Facet::Damage) * 144.0).round() as i64, 168);
}
