use pathtracer::pathtracing::{roulette_rule, Survival};
use pathtracer::scene::{choose_light, light_count, light_positions, order_by_id, LightPick};

#[test]
fn order_by_id_inverts_permutation() {
    assert_eq!(order_by_id(&vec![2, 0, 1]), Some(vec![1, 2, 0]));
    assert_eq!(order_by_id(&vec![0, 1, 2, 3]), Some(vec![0, 1, 2, 3]));
    assert_eq!(order_by_id(&vec![]), Some(vec![]));
}

#[test]
fn order_by_id_rejects_gaps_duplicates_negatives() {
    assert_eq!(order_by_id(&vec![0, 2]), None);
    assert_eq!(order_by_id(&vec![1, 1]), None);
    assert_eq!(order_by_id(&vec![-1, 0]), None);
}

#[test]
fn light_positions_in_order() {
    assert_eq!(light_positions(&vec![false, true, false, true, true]), vec![1, 3, 4]);
    assert_eq!(light_positions(&vec![false, false]), Vec::<usize>::new());
}

#[test]
fn choose_light_without_candidates() {
    assert_eq!(choose_light(12345, 0, false), LightPick::Nothing);
    assert_eq!(light_count(0, false), 0);
}

#[test]
fn choose_light_environment_is_last() {
    assert_eq!(light_count(2, true), 3);
    assert_eq!(choose_light(0, 2, true), LightPick::Primitive(0));
    assert_eq!(choose_light(4, 2, true), LightPick::Primitive(1));
    assert_eq!(choose_light(5, 2, true), LightPick::Environment);
    assert_eq!(choose_light(7, 0, true), LightPick::Environment);
}

#[test]
fn choose_light_only_primitives() {
    assert_eq!(choose_light(7, 3, false), LightPick::Primitive(1));
    assert_eq!(choose_light(u32::MAX, 1, false), LightPick::Primitive(0));
}

#[test]
fn roulette_depths() {
    assert_eq!(roulette_rule(0), Survival::Certain);
    assert_eq!(roulette_rule(6), Survival::Certain);
    assert_eq!(roulette_rule(7), Survival::Halved(0));
    assert_eq!(roulette_rule(30), Survival::Halved(0));
    assert_eq!(roulette_rule(31), Survival::Halved(1));
    assert_eq!(roulette_rule(35), Survival::Halved(5));
}
