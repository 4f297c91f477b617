//! Freeform sandbox decisions: offered actions, their execution, and the
//! scenario choice list.

use raw_map::event::Key;
use raw_map::freeform::{actions, execute, ChangeScenario, ExecuteAction, ID};

#[test]
fn actions_offered_per_object() {
    let b = actions(ID::Building(12));
    assert_eq!(b.len(), 1);
    assert_eq!(b[0].0, Key::Z);
    assert_eq!(b[0].1, "start a trip here");
    let i = actions(ID::Intersection(7));
    assert_eq!(i.len(), 1);
    assert_eq!(i[0].1, "spawn agents here");
    assert!(actions(ID::Road(3)).is_empty());
    assert!(actions(ID::Lane(3)).is_empty());
}

#[test]
fn execute_decides_by_object() {
    assert_eq!(
        execute(ID::Building(12), "start a trip here"),
        ExecuteAction::OpenTripSpawner { building: 12 }
    );
    assert_eq!(
        execute(ID::Intersection(7), "spawn agents here"),
        ExecuteAction::SpawnAgentsAround { intersection: 7 }
    );
}

#[test]
fn scenario_choices_cover_stored_and_fixed() {
    let names = vec!["weekday".to_string(), "my_custom".to_string()];
    let choices = ChangeScenario::choices(&names, "us", true);
    // 2 stored + home_to_work + random + census + none + 2 imports
    assert_eq!(choices.len(), 8);
    assert_eq!(choices[0].0, "weekday");
    assert_eq!(choices[0].1, "typical weekday traffic");
    assert_eq!(choices[1].0, "my_custom");
    assert_eq!(choices[1].1, "my_custom");
    assert_eq!(choices[1].2, "This is custom scenario data for this map");
    assert_eq!(choices[2].0, "home_to_work");
    assert_eq!(choices[3].0, "random");
    assert_eq!(choices[4].0, "census");
    assert_eq!(choices[5].0, "none");
    assert_eq!(choices[6].0, "import grid2demand");
    assert_eq!(choices[7].0, "import json");

    // no census outside known countries, no imports when not allowed
    let fewer = ChangeScenario::choices(&names, "de", false);
    assert_eq!(fewer.len(), 5);
    assert_eq!(fewer[4].0, "none");

    let uk = ChangeScenario::choices(&vec!["background".to_string()], "gb", false);
    assert_eq!(uk[0].1, "typical weekday traffic");
    assert!(uk[0].2.contains("UK census"));
}
