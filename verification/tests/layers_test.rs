use sorcerers::card::{Ability, CardStatus};
use sorcerers::layers::{
    active_continuous_effects, ongoing_effect_layer, ordered_ongoing_effects, AreaModifierIndex,
    ContinuousEffect, OngoingEffectIndex, TemporaryEffect, TemporaryKind, TimedOngoingEffect,
};
use sorcerers::state::{AbilityModifier, AbilityRemoval};
use uuid::Uuid;

fn effect(
    effect: ContinuousEffect,
    source: Option<Uuid>,
    timestamp: u64,
    affected: Vec<Uuid>,
) -> TimedOngoingEffect {
    TimedOngoingEffect { effect, source, timestamp, affected }
}

#[test]
fn layers_of_effects() {
    let e = |c| effect(c, None, 0, vec![]);
    assert_eq!(ongoing_effect_layer(&e(ContinuousEffect::ControllerOverride)), 3);
    assert_eq!(ongoing_effect_layer(&e(ContinuousEffect::ModifyPower { power_diff: 1 })), 6);
    assert_eq!(
        ongoing_effect_layer(&e(ContinuousEffect::ModifyPowerForEach { power_per_card: 1, matching_count: 2 })),
        6
    );
    assert_eq!(ongoing_effect_layer(&e(ContinuousEffect::GrantStatus(CardStatus::Disabled))), 2);
    assert_eq!(ongoing_effect_layer(&e(ContinuousEffect::GrantStatus(CardStatus::Silenced))), 2);
    assert_eq!(ongoing_effect_layer(&e(ContinuousEffect::GrantStatus(CardStatus::SummoningSickness))), 5);
    assert_eq!(ongoing_effect_layer(&e(ContinuousEffect::RemoveAbilities(AbilityRemoval::AllAbilities))), 2);
    assert_eq!(ongoing_effect_layer(&e(ContinuousEffect::GrantAbility(Ability::Airborne))), 5);
    assert_eq!(ongoing_effect_layer(&e(ContinuousEffect::GrantCounter)), 5);
    assert_eq!(ongoing_effect_layer(&e(ContinuousEffect::Other)), 5);
}

#[test]
fn effects_apply_by_layer_then_time_then_position() {
    let effects = vec![
        effect(ContinuousEffect::ModifyPower { power_diff: 1 }, None, 1, vec![]),
        effect(ContinuousEffect::ControllerOverride, None, 5, vec![]),
        effect(ContinuousEffect::GrantAbility(Ability::Airborne), None, 0, vec![]),
        effect(ContinuousEffect::GrantCounter, None, 0, vec![]),
        effect(ContinuousEffect::GrantStatus(CardStatus::Disabled), None, 9, vec![]),
        effect(ContinuousEffect::Other, None, 3, vec![]),
    ];
    assert_eq!(ordered_ongoing_effects(&effects), vec![4, 1, 2, 3, 5, 0]);
    assert_eq!(ordered_ongoing_effects(&vec![]), Vec::<usize>::new());
}

#[test]
fn the_older_of_two_disabling_sites_wins() {
    let (a, b) = (Uuid::new_v4(), Uuid::new_v4());
    let effects = vec![
        effect(ContinuousEffect::GrantStatus(CardStatus::Disabled), Some(b), 2, vec![a]),
        effect(ContinuousEffect::GrantStatus(CardStatus::Disabled), Some(a), 1, vec![b]),
    ];
    assert_eq!(active_continuous_effects(&effects), vec![1]);
    let index = OngoingEffectIndex::build(&effects);
    assert!(index.granted_statuses_from_continuous_effects(&a).is_empty());
    assert_eq!(index.granted_statuses_from_continuous_effects(&b), vec![CardStatus::Disabled]);
    let area = AreaModifierIndex::build(&effects, &vec![]);
    assert_eq!(area.grants_statuses, vec![(b, CardStatus::Disabled)]);
}

#[test]
fn the_older_silencer_silences_the_newer() {
    let (a, b) = (Uuid::new_v4(), Uuid::new_v4());
    let effects = vec![
        effect(ContinuousEffect::RemoveAbilities(AbilityRemoval::SpecialAbilities), Some(a), 1, vec![b]),
        effect(ContinuousEffect::RemoveAbilities(AbilityRemoval::SpecialAbilities), Some(b), 2, vec![a]),
        effect(ContinuousEffect::GrantAbility(Ability::Airborne), Some(b), 0, vec![b]),
        effect(ContinuousEffect::GrantAbility(Ability::Airborne), Some(a), 0, vec![a]),
    ];
    assert_eq!(active_continuous_effects(&effects), vec![0, 3]);
    let area = AreaModifierIndex::build(&effects, &vec![]);
    let for_b = area.ability_modifiers_from_area_modifiers(&b);
    assert_eq!(for_b.len(), 2);
    assert!(matches!(for_b[0], AbilityModifier::Remove(AbilityRemoval::SpecialAbilities)));
    // Silencing takes Flooded away too, so the removal of Flooded follows.
    match &for_b[1] {
        AbilityModifier::Remove(AbilityRemoval::Exact(v)) => assert_eq!(v, &vec![Ability::Flooded]),
        other => panic!("unexpected modifier {other:?}"),
    }
    let for_a = area.ability_modifiers_from_area_modifiers(&a);
    assert_eq!(for_a.len(), 1);
    assert!(matches!(for_a[0], AbilityModifier::Grant(Ability::Airborne)));
}

#[test]
fn an_exact_removal_does_not_switch_off_its_target() {
    let (a, b) = (Uuid::new_v4(), Uuid::new_v4());
    let effects = vec![
        effect(ContinuousEffect::RemoveAbilities(AbilityRemoval::exact(Ability::Airborne)), Some(a), 1, vec![b]),
        effect(ContinuousEffect::GrantAbility(Ability::Stealth), Some(b), 2, vec![b]),
    ];
    assert_eq!(active_continuous_effects(&effects), vec![0, 1]);
}

#[test]
fn removing_all_abilities_keeps_flooded_removed() {
    let site = Uuid::new_v4();
    let effects = vec![
        effect(ContinuousEffect::GrantAbility(Ability::Flooded), None, 1, vec![site]),
        effect(ContinuousEffect::RemoveAbilities(AbilityRemoval::AllAbilities), None, 2, vec![site]),
    ];
    let temps = vec![TemporaryEffect { kind: TemporaryKind::GrantAbility(Ability::Flooded), affected: vec![site] }];
    let area = AreaModifierIndex::build(&effects, &temps);
    let mods = area.ability_modifiers_from_area_modifiers(&site);
    assert_eq!(mods.len(), 4);
    assert!(matches!(mods[0], AbilityModifier::Remove(AbilityRemoval::AllAbilities)));
    assert!(matches!(mods[1], AbilityModifier::Grant(Ability::Flooded)));
    assert!(matches!(mods[2], AbilityModifier::Grant(Ability::Flooded)));
    match &mods[3] {
        AbilityModifier::Remove(AbilityRemoval::Exact(v)) => assert_eq!(v, &vec![Ability::Flooded]),
        other => panic!("unexpected modifier {other:?}"),
    }
}

#[test]
fn temporary_grants_follow_ongoing_ones() {
    let (a, b) = (Uuid::new_v4(), Uuid::new_v4());
    let effects = vec![effect(ContinuousEffect::GrantAbility(Ability::Charge), None, 1, vec![a, b])];
    let temps = vec![
        TemporaryEffect { kind: TemporaryKind::Other, affected: vec![a] },
        TemporaryEffect { kind: TemporaryKind::GrantAbility(Ability::Lethal), affected: vec![a] },
    ];
    let area = AreaModifierIndex::build(&effects, &temps);
    let mods = area.ability_modifiers_from_area_modifiers(&a);
    assert_eq!(mods.len(), 2);
    assert!(matches!(mods[0], AbilityModifier::Grant(Ability::Charge)));
    assert!(matches!(mods[1], AbilityModifier::Grant(Ability::Lethal)));
    assert_eq!(area.ability_modifiers_from_area_modifiers(&b).len(), 1);
    assert!(area.ability_modifiers_from_area_modifiers(&Uuid::new_v4()).is_empty());
}

#[test]
fn granted_abilities_and_counters_name_their_effects() {
    let (a, b) = (Uuid::new_v4(), Uuid::new_v4());
    let effects = vec![
        effect(ContinuousEffect::GrantCounter, None, 3, vec![a]),
        effect(ContinuousEffect::GrantActivatedAbility, None, 1, vec![a, b]),
        effect(ContinuousEffect::GrantCounter, None, 2, vec![a]),
    ];
    let area = AreaModifierIndex::build(&effects, &vec![]);
    assert_eq!(area.counters_from_area_modifiers(&a), vec![2, 0]);
    assert!(area.counters_from_area_modifiers(&b).is_empty());
    assert_eq!(area.activated_abilities_from_area_modifiers(&b), vec![1]);
    let index = OngoingEffectIndex::build(&effects);
    assert_eq!(index.activated_abilities_from_continuous_effects(&a), vec![1]);
}

#[test]
fn power_changes_add_up() {
    let (x, y) = (Uuid::new_v4(), Uuid::new_v4());
    let effects = vec![
        effect(ContinuousEffect::ModifyPower { power_diff: 2 }, None, 1, vec![x]),
        effect(ContinuousEffect::ModifyPowerForEach { power_per_card: 3, matching_count: 2 }, None, 2, vec![x, y]),
        effect(ContinuousEffect::ModifyPowerForEach { power_per_card: 5, matching_count: 0 }, None, 3, vec![x]),
        effect(ContinuousEffect::ModifyPower { power_diff: -4 }, None, 4, vec![y]),
    ];
    let index = OngoingEffectIndex::build(&effects);
    assert_eq!(index.power_diffs, vec![(x, 2), (x, 6), (y, 6), (y, -4)]);
    assert_eq!(index.power_diff_from_continuous_effects(&x), 8);
    assert_eq!(index.power_diff_from_continuous_effects(&y), 2);
    assert_eq!(index.power_diff_from_continuous_effects(&Uuid::new_v4()), 0);
}

#[test]
fn a_disabled_source_gives_no_power() {
    let (a, b) = (Uuid::new_v4(), Uuid::new_v4());
    let effects = vec![
        effect(ContinuousEffect::ModifyPower { power_diff: 3 }, Some(a), 0, vec![b]),
        effect(ContinuousEffect::GrantStatus(CardStatus::Silenced), None, 5, vec![a]),
    ];
    let index = OngoingEffectIndex::build(&effects);
    assert_eq!(index.power_diff_from_continuous_effects(&b), 0);
    assert_eq!(index.granted_statuses_from_continuous_effects(&a), vec![CardStatus::Silenced]);
    assert_eq!(active_continuous_effects(&effects), vec![1]);
}
