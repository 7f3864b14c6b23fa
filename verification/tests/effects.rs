use combat_dice::attack::{Characteristics, Effect, Facet, Outcome};
use combat_dice::dice;
use combat_dice::disposition::Disposition;
use combat_dice::effects::IgnoreArmorOnBottles;

fn expected_score(outcome: &Outcome, facet: Facet) -> f64 {
    outcome.scores.get(facet) as f64 / outcome.scale as f64
}

#[test]
fn ignore_one_armor_on_bottle() {
    let effect = &IgnoreArmorOnBottles {};
    let effects: Vec<&dyn Effect> = vec![effect];
    let disposition = Disposition {
        dice: vec![dice::Type::Red, dice::Type::Blue],
        characteristics: Characteristics {
            base_score: dice::new_scores(&[(dice::Facet::Hit, 1), (dice::Facet::Damage, 1)]),
            soft_armor: 1,
            ..Default::default()
        },
        effects,
    };
    let outcome = disposition.average_scores().unwrap();
    assert_eq!((expected_score(&outcome, Facet::Damage) * 144.0).round() as i64, 124);
}
