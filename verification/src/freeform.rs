//! The freeform sandbox decisions: which actions an object on the map
//! offers, what executing one of them means, and the list of scenario
//! choices offered for a map, given the scenario names found on disk and
//! the map's country.

use vstd::prelude::*;
use vstd::string::StringExecFns;
use crate::event::Key;

verus! {

/// An object on the map, by its plain identifier.
#[derive(Clone, Copy, PartialEq, Eq, Structural, Debug)]
pub enum ID {
    Road(i64),
    Lane(i64),
    Intersection(i64),
    Building(i64),
    ParkingLot(i64),
    TransitStop(i64),
}

/// What executing a freeform action means for the caller.
#[derive(Clone, Copy, PartialEq, Eq, Structural, Debug)]
pub enum ExecuteAction {
    /// Open the trip spawner anchored at this building.
    OpenTripSpawner { building: i64 },
    /// Spawn agents on the lanes around this intersection.
    SpawnAgentsAround { intersection: i64 },
}

/// The context actions an object offers: a building or an intersection can
/// start traffic, nothing else offers anything.
pub fn actions(id: ID) -> (r: Vec<(Key, String)>)
    ensures
        id is Building ==> r@.len() == 1 && r@[0].0 == Key::Z && r@[0].1@
            == "start a trip here"@,
        id is Intersection ==> r@.len() == 1 && r@[0].0 == Key::Z && r@[0].1@
            == "spawn agents here"@,
        !(id is Building) && !(id is Intersection) ==> r@.len() == 0,
{
    let mut r: Vec<(Key, String)> = Vec::new();
    match id {
        ID::Building(_) => {
            r.push((Key::Z, String::from_str("start a trip here")));
        },
        ID::Intersection(_) => {
            r.push((Key::Z, String::from_str("spawn agents here")));
        },
        _ => {},
    }
    r
}

/// Carry out one of the offered actions: the object decides what happens.
/// Only the pairs that `actions` offers are meaningful.
pub fn execute(id: ID, action: &str) -> (r: ExecuteAction)
    requires
        (id is Building && action@ == "start a trip here"@) || (id is Intersection && action@
            == "spawn agents here"@),
    ensures
        id is Building ==> r == (ExecuteAction::OpenTripSpawner { building: id->Building_0 }),
        id is Intersection ==> r == (ExecuteAction::SpawnAgentsAround {
            intersection: id->Intersection_0,
        }),
{
    match id {
        ID::Building(b) => ExecuteAction::OpenTripSpawner { building: b },
        ID::Intersection(i) => ExecuteAction::SpawnAgentsAround { intersection: i },
        _ => {
            proof {
                assert(false);
            }
            ExecuteAction::OpenTripSpawner { building: 0 }
        },
    }
}

/// The label and description offered for one stored scenario name.
pub open spec fn named_choice(name: String) -> (Seq<char>, Seq<char>, Seq<char>) {
    if name@ == "weekday"@ {
        (
            name@,
            "typical weekday traffic"@,
            "Trips will begin throughout the entire day. Midnight is usually quiet, so you may need to fast-forward to morning rush hour. Data comes from Puget Sound Regional Council's Soundcast model from 2014."@,
        )
    } else if name@ == "background"@ || name@ == "base_with_bg"@ {
        (
            name@,
            "typical weekday traffic"@,
            "Home-to-work trips from 2011 UK census data are simulated. Traffic usually starts around 7am."@,
        )
    } else {
        (name@, name@, "This is custom scenario data for this map"@)
    }
}

/// The choices for the first `i` stored scenario names.
pub open spec fn named_choices(names: Seq<String>, i: int) -> Seq<(Seq<char>, Seq<char>, Seq<
    char,
>)>
    decreases i,
{
    if i <= 0 {
        Seq::empty()
    } else {
        named_choices(names, i - 1).push(named_choice(names[i - 1]))
    }
}

/// The fixed choices offered after the stored scenarios: generated traffic,
/// census data where it exists for the country, none, and the import paths
/// when the platform allows picking files.
pub open spec fn fixed_choices(country: Seq<char>, allow_imports: bool) -> Seq<(Seq<char>, Seq<
    char,
>, Seq<char>)> {
    let head = seq![
        (
            "home_to_work"@,
            "trips between home and work"@,
            "Randomized people will leave homes in the morning, go to work, then return in the afternoon. It'll be very quiet before 7am and between 10am to 5pm. The population size and location of homes and workplaces is all guessed just from OpenStreetMap tags."@,
        ),
        (
            "random"@,
            "random unrealistic trips"@,
            "A fixed number of trips will start at midnight, but not constantly appear through the day."@,
        ),
    ];
    let census = if country == "us"@ || country == "zz"@ {
        seq![
            (
                "census"@,
                "generate from US census data"@,
                "A population from 2010 US census data will travel between home and workplaces. Generating it will take a few moments as some data is downloaded for this map."@,
            ),
        ]
    } else {
        Seq::empty()
    };
    let none_choice = seq![
        (
            "none"@,
            "none, except for buses"@,
            "You can manually spawn traffic around a single intersection or by using the tool in the top panel to start individual trips."@,
        ),
    ];
    let imports = if allow_imports {
        seq![
            (
                "import grid2demand"@,
                "import Grid2Demand data"@,
                "Select an input_agents.csv file from https://github.com/asu-trans-ai-lab/grid2demand"@,
            ),
            (
                "import json"@,
                "import JSON scenario"@,
                "Select a JSON file specified by https://a-b-street.github.io/docs/tech/dev/formats/scenarios.html"@,
            ),
        ]
    } else {
        Seq::empty()
    };
    head + census + none_choice + imports
}

/// The named choices list one entry per name.
pub proof fn lemma_named_choices_len(names: Seq<String>, i: int)
    requires
        0 <= i <= names.len(),
    ensures
        named_choices(names, i).len() == i,
        forall|k: int| 0 <= k < i ==> #[trigger] named_choices(names, i)[k] == named_choice(
            names[k],
        ),
    decreases i,
{
    if i > 0 {
        lemma_named_choices_len(names, i - 1);
    }
}

/// Picking a scenario for the map.
#[derive(Clone, Copy, PartialEq, Eq, Structural, Debug)]
pub struct ChangeScenario;

impl ChangeScenario {
    /// The scenario choices offered for a map: one per stored scenario
    /// name, in order, then the fixed generated-traffic, census, none and
    /// import choices. Each choice is its action name, its label and its
    /// full description.
    #[verifier::loop_isolation(false)]
    pub fn choices(names: &Vec<String>, country: &str, allow_imports: bool) -> (r: Vec<(
        String,
        String,
        String,
    )>)
        ensures
            ({
                let spec = named_choices(names@, names@.len() as int) + fixed_choices(
                    country@,
                    allow_imports,
                );
                &&& r@.len() == spec.len()
                &&& forall|k: int|
                    0 <= k < r@.len() ==> (#[trigger] r@[k]).0@ == spec[k].0 && r@[k].1@
                        == spec[k].1 && r@[k].2@ == spec[k].2
            }),
    {
        let n = names.len();
        let mut r: Vec<(String, String, String)> = Vec::new();
        let mut i: usize = 0;
        while i < n
            invariant
                0 <= i <= n,
                r@.len() == i,
                forall|k: int|
                    0 <= k < i ==> (#[trigger] r@[k]).0@ == named_choices(names@, i as int)[k].0
                        && r@[k].1@ == named_choices(names@, i as int)[k].1 && r@[k].2@
                        == named_choices(names@, i as int)[k].2,
            decreases n - i,
        {
            proof {
                lemma_named_choices_len(names@, i as int);
                lemma_named_choices_len(names@, i + 1);
            }
            let name = &names[i];
            let weekday = String::from_str("weekday");
            let background = String::from_str("background");
            let base_with_bg = String::from_str("base_with_bg");
            if name.eq(&weekday) {
                r.push(
                    (
                        name.clone(),
                        String::from_str("typical weekday traffic"),
                        String::from_str(
                            "Trips will begin throughout the entire day. Midnight is usually quiet, so you may need to fast-forward to morning rush hour. Data comes from Puget Sound Regional Council's Soundcast model from 2014.",
                        ),
                    ),
                );
            } else if name.eq(&background) || name.eq(&base_with_bg) {
                r.push(
                    (
                        name.clone(),
                        String::from_str("typical weekday traffic"),
                        String::from_str(
                            "Home-to-work trips from 2011 UK census data are simulated. Traffic usually starts around 7am.",
                        ),
                    ),
                );
            } else {
                r.push(
                    (
                        name.clone(),
                        name.clone(),
                        String::from_str("This is custom scenario data for this map"),
                    ),
                );
            }
            i = i + 1;
        }
        proof {
            lemma_named_choices_len(names@, n as int);
            assert(named_choices(names@, n as int) + fixed_choices(country@, allow_imports)
                =~= named_choices(names@, n as int).push(
                (
                    "home_to_work"@,
                    "trips between home and work"@,
                    "Randomized people will leave homes in the morning, go to work, then return in the afternoon. It'll be very quiet before 7am and between 10am to 5pm. The population size and location of homes and workplaces is all guessed just from OpenStreetMap tags."@,
                ),
            ).push(
                (
                    "random"@,
                    "random unrealistic trips"@,
                    "A fixed number of trips will start at midnight, but not constantly appear through the day."@,
                ),
            ) + (if country@ == "us"@ || country@ == "zz"@ {
                seq![
                    (
                        "census"@,
                        "generate from US census data"@,
                        "A population from 2010 US census data will travel between home and workplaces. Generating it will take a few moments as some data is downloaded for this map."@,
                    ),
                ]
            } else {
                Seq::empty()
            }).push(
                (
                    "none"@,
                    "none, except for buses"@,
                    "You can manually spawn traffic around a single intersection or by using the tool in the top panel to start individual trips."@,
                ),
            ) + (if allow_imports {
                seq![
                    (
                        "import grid2demand"@,
                        "import Grid2Demand data"@,
                        "Select an input_agents.csv file from https://github.com/asu-trans-ai-lab/grid2demand"@,
                    ),
                    (
                        "import json"@,
                        "import JSON scenario"@,
                        "Select a JSON file specified by https://a-b-street.github.io/docs/tech/dev/formats/scenarios.html"@,
                    ),
                ]
            } else {
                Seq::empty()
            }));
        }
        r.push(
            (
                String::from_str("home_to_work"),
                String::from_str("trips between home and work"),
                String::from_str(
                    "Randomized people will leave homes in the morning, go to work, then return in the afternoon. It'll be very quiet before 7am and between 10am to 5pm. The population size and location of homes and workplaces is all guessed just from OpenStreetMap tags.",
                ),
            ),
        );
        r.push(
            (
                String::from_str("random"),
                String::from_str("random unrealistic trips"),
                String::from_str(
                    "A fixed number of trips will start at midnight, but not constantly appear through the day.",
                ),
            ),
        );
        let us = String::from_str("us");
        let zz = String::from_str("zz");
        let country_string = country.to_owned();
        if country_string.eq(&us) || country_string.eq(&zz) {
            r.push(
                (
                    String::from_str("census"),
                    String::from_str("generate from US census data"),
                    String::from_str(
                        "A population from 2010 US census data will travel between home and workplaces. Generating it will take a few moments as some data is downloaded for this map.",
                    ),
                ),
            );
        }
        r.push(
            (
                String::from_str("none"),
                String::from_str("none, except for buses"),
                String::from_str(
                    "You can manually spawn traffic around a single intersection or by using the tool in the top panel to start individual trips.",
                ),
            ),
        );
        if allow_imports {
            r.push(
                (
                    String::from_str("import grid2demand"),
                    String::from_str("import Grid2Demand data"),
                    String::from_str(
                        "Select an input_agents.csv file from https://github.com/asu-trans-ai-lab/grid2demand",
                    ),
                ),
            );
            r.push(
                (
                    String::from_str("import json"),
                    String::from_str("import JSON scenario"),
                    String::from_str(
                        "Select a JSON file specified by https://a-b-street.github.io/docs/tech/dev/formats/scenarios.html",
                    ),
                ),
            );
        }
        r
    }
}

} // verus!
