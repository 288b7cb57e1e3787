use splaunch::customkey::{decode_as_the_game_does, Numeral};
use splaunch::scenario::{
    mission_modoptions, problems, write_script, Feature, Goal, Objective, Placed, Scenario, Team,
};

fn at(v: i64) -> Numeral {
    Numeral::integer(v)
}

fn sample() -> Scenario {
    Scenario {
        name: "Test".into(),
        map: "Comet Catcher Redux".into(),
        game: "Zero-K v1.14.8.0".into(),
        teams: vec![
            Team { id: 0, ally: 0, ai: None, colour: "0 0 1".into() },
            Team { id: 1, ally: 1, ai: Some("NullAI".into()), colour: "1 0 0".into() },
        ],
        units: vec![Placed { unit: "armcom".into(), team: 0, x: at(512), z: at(512) }],
        objectives: vec!["Destroy the enemy commander".into()],
        goals: vec![],
        features: vec![],
        briefing: None,
    }
}

/// The value of `key=` inside a script section, its terminating semicolon and
/// surrounding whitespace removed.
fn value_of(section: &str, name: &str) -> Option<String> {
    section.lines().map(str::trim).find_map(|line| {
        let (k, v) = line.split_once('=')?;
        if k.trim() == name {
            Some(v.trim_end_matches(';').to_string())
        } else {
            None
        }
    })
}

/// A modoption, decoded the way Zero-K will decode it.
fn modoption_lua(script: &str, name: &str) -> String {
    let block = script.split("[MODOPTIONS]").nth(1).expect("no [MODOPTIONS] section");
    let raw = value_of(block, name).unwrap_or_else(|| panic!("no {name} modoption"));
    String::from_utf8(decode_as_the_game_does(&raw))
        .unwrap_or_else(|e| panic!("{name} did not survive Zero-K's decoder: {e}"))
}

fn with_goals(goals: Vec<Objective>) -> Scenario {
    let mut sc = sample();
    sc.goals = goals;
    sc
}

/// Every `[SECTION]` name, in order.
fn sections(script: &str) -> Vec<String> {
    script
        .lines()
        .map(str::trim)
        .filter(|l| l.starts_with('[') && l.ends_with(']'))
        .map(|l| l.trim_matches(['[', ']']).to_string())
        .collect()
}

/// Every `Key=` at any depth, lowercased.
fn keys(script: &str) -> std::collections::HashSet<String> {
    script
        .lines()
        .filter_map(|l| l.trim().split_once('='))
        .map(|(k, _)| k.trim().to_ascii_lowercase())
        .collect()
}

#[test]
fn the_mission_engine_is_armed() {
    let script = write_script(&sample(), "Qrow").unwrap();
    let block = script.split("[MODOPTIONS]").nth(1).unwrap();
    assert_eq!(value_of(block, "singleplayercampaignbattleid").as_deref(), Some("splaunch"));
}

#[test]
fn a_survival_goal_compiles_to_the_fields_zero_k_checks() {
    let sc = with_goals(vec![Objective {
        description: "Hold out for two minutes.".into(),
        goal: Goal::SurviveUntil { seconds: 120, units: vec!["armcom".into()] },
    }]);
    let lua = modoption_lua(&write_script(&sc, "Qrow").unwrap(), "bonusobjectiveconfig");
    assert!(lua.contains("satisfyUntilTime=120"), "{lua}");
    assert!(lua.contains("comparisionType=1"), "{lua}");
    assert!(lua.contains("targetNumber=1"), "{lua}");
    assert!(lua.contains("armcom"), "{lua}");
}

#[test]
fn build_counts_the_dead_and_have_does_not() {
    let build = with_goals(vec![Objective {
        description: "Build five Glaives.".into(),
        goal: Goal::BuildBy { unit: "armpw".into(), count: 5, seconds: 300 },
    }]);
    let lua = modoption_lua(&write_script(&build, "Qrow").unwrap(), "bonusobjectiveconfig");
    assert!(lua.contains("countRemovedUnits=true"), "{lua}");

    let have = with_goals(vec![Objective {
        description: "Have five Glaives.".into(),
        goal: Goal::HaveAtOnce { unit: "armpw".into(), count: 5 },
    }]);
    let lua = modoption_lua(&write_script(&have, "Qrow").unwrap(), "bonusobjectiveconfig");
    assert!(!lua.contains("countRemovedUnits"), "{lua}");
    assert!(lua.contains("lockUnitsOnSatisfy=true"), "{lua}");
}

#[test]
fn killing_uses_the_enemys_units_not_ours() {
    let sc = with_goals(vec![Objective {
        description: "Kill three Reavers.".into(),
        goal: Goal::KillCount { unit: "armwar".into(), count: 3 },
    }]);
    let lua = modoption_lua(&write_script(&sc, "Qrow").unwrap(), "bonusobjectiveconfig");
    assert!(lua.contains("enemyUnitTypes"), "{lua}");
    assert!(!lua.contains("unitTypes={"), "counted our own units: {lua}");
    assert!(lua.contains("onlyCountRemovedUnits=true"), "{lua}");
}

#[test]
fn a_question_mark_in_a_description_does_not_destroy_the_objectives() {
    for text in [
        "Can you hold the ridge?",
        "Ready? Set? Go?",
        "Halte den Grat fünf Minuten",
        "Продержись 5 минут",
    ] {
        let sc = with_goals(vec![Objective {
            description: text.into(),
            goal: Goal::WinBefore { seconds: 60 },
        }]);
        let lua = modoption_lua(&write_script(&sc, "Qrow").unwrap(), "bonusobjectiveconfig");
        assert!(lua.contains("victoryByTime=60"), "lost objectives for {text:?}: {lua}");
    }
}

#[test]
fn features_reach_the_script() {
    let mut sc = sample();
    sc.features = vec![Feature { name: "armcom_dead".into(), x: at(100), z: at(200), facing: Some(1) }];
    let lua = modoption_lua(&write_script(&sc, "Qrow").unwrap(), "featurestospawn");
    assert!(lua.contains("armcom_dead"), "{lua}");
    assert!(lua.contains("x=100") && lua.contains("z=200"), "{lua}");
}

#[test]
fn a_briefing_is_only_sent_when_there_is_one() {
    let script = write_script(&sample(), "Qrow").unwrap();
    assert!(!script.contains("planetmissioninformationtext"));

    let mut sc = sample();
    sc.briefing = Some("The dam will not hold.".into());
    let lua = modoption_lua(&write_script(&sc, "Qrow").unwrap(), "planetmissioninformationtext");
    assert!(lua.contains("The dam will not hold."), "{lua}");
}

#[test]
fn many_units_are_chunked_the_way_zero_k_chunks_them() {
    let mut sc = sample();
    sc.units = (0..85)
        .map(|i| Placed { unit: "armpw".into(), team: 0, x: at(i), z: at(0) })
        .collect();
    let script = write_script(&sc, "Qrow").unwrap();
    let team0 = script.split("[TEAM0]").nth(1).unwrap().split("[TEAM1]").next().unwrap();
    assert!(value_of(team0, "extrastartunits_1").is_some());
    assert!(value_of(team0, "extrastartunits_2").is_some());
    assert!(value_of(team0, "extrastartunits_3").is_some());
    assert!(value_of(team0, "extrastartunits_4").is_none());
}

#[test]
fn a_scenario_compiles_to_a_script_the_engine_shape_matches() {
    let s = write_script(&sample(), "Qrow").unwrap();
    assert!(s.starts_with("[GAME]\n{\n"));
    assert!(s.contains("Mapname=Comet Catcher Redux;"));
    assert!(s.contains("OnlyLocal=1;"));
    assert!(s.contains("[PLAYER0]"));
    assert!(s.contains("[AI0]"));
    assert!(s.contains("ShortName=NullAI;"));
    assert!(s.contains("[TEAM0]") && s.contains("[TEAM1]"));
    assert!(s.contains("[ALLYTEAM0]") && s.contains("[ALLYTEAM1]"));
    assert!(s.trim_end().ends_with('}'));
}

#[test]
fn braces_are_balanced() {
    let s = write_script(&sample(), "Qrow").unwrap();
    assert_eq!(s.matches('{').count(), s.matches('}').count());
}

#[test]
fn a_name_that_would_break_the_script_is_escaped_not_refused() {
    let mut sc = sample();
    sc.map = "Weird; }Map{".into();
    let s = write_script(&sc, "Qrow").unwrap();
    assert!(s.contains("Mapname=Weird Map;"));
    assert_eq!(s.matches('{').count(), s.matches('}').count());
}

#[test]
fn a_scenario_with_no_player_does_not_compile() {
    let mut sc = sample();
    sc.teams[0].ai = Some("NullAI".into());
    let err = write_script(&sc, "Qrow").unwrap_err();
    assert!(err.contains("player team"), "{err}");
}

#[test]
fn problems_are_sentences_rather_than_codes() {
    let empty = Scenario {
        name: "".into(),
        map: "".into(),
        game: "".into(),
        teams: vec![],
        units: vec![],
        objectives: vec![],
        goals: vec![],
        features: vec![],
        briefing: None,
    };
    let p = problems(&empty);
    assert!(p.len() >= 3);
    for line in &p {
        assert!(line.ends_with('.'), "{line:?} is not a sentence");
    }
}

#[test]
fn one_sided_scenarios_are_caught_before_launch() {
    let mut sc = sample();
    sc.teams[1].ally = 0;
    assert!(problems(&sc).iter().any(|p| p.contains("same side")));
}

#[test]
fn a_unit_on_a_team_that_does_not_exist_is_caught() {
    let mut sc = sample();
    sc.units[0].team = 7;
    assert!(problems(&sc).iter().any(|p| p.contains("does not exist")));
}

#[test]
fn our_script_has_the_sections_the_engine_expects() {
    let ours = write_script(&sample(), "Qrow").unwrap();
    let mine = sections(&ours);
    for want in ["GAME", "MODOPTIONS", "PLAYER0", "AI0", "TEAM0", "TEAM1", "ALLYTEAM0"] {
        assert!(mine.iter().any(|s| s == want), "ours has no [{want}]");
    }
}

#[test]
fn our_script_sets_the_keys_the_engine_reads() {
    let ours = write_script(&sample(), "Qrow").unwrap();
    let mine = keys(&ours);
    for want in [
        "mapname",
        "gametype",
        "myplayername",
        "ishost",
        "onlylocal",
        "gamestartdelay",
        "name",
        "team",
        "shortname",
        "allyteam",
    ] {
        assert!(mine.contains(want), "ours does not set {want}");
    }
}

#[test]
fn our_script_parses_the_way_theirs_does() {
    // Balanced braces, and every value terminated by a `;` before its section
    // closes. An `=` inside a value is legal: base64 pads with it.
    let ours = write_script(&sample(), "Qrow").unwrap();
    let script = ours.as_str();
    assert_eq!(script.matches('{').count(), script.matches('}').count());
    let bytes = script.as_bytes();
    let mut at = 0;
    while let Some(offset) = script[at..].find('=') {
        let i = at + offset;
        let rest = &bytes[i + 1..];
        let end = rest
            .iter()
            .position(|c| matches!(c, b';' | b'}'))
            .expect("a value with no terminator");
        assert_eq!(rest[end], b';', "unterminated value at {i}");
        at = i + 1 + end;
    }
}

#[test]
fn placed_units_travel_on_their_team() {
    let script = write_script(&sample(), "Qrow").unwrap();
    let team0 = script
        .split("[TEAM0]")
        .nth(1)
        .and_then(|s| s.split("[TEAM1]").next())
        .expect("no [TEAM0] section");
    let value = value_of(team0, "extrastartunits_1").expect("no units on team 0");
    let lua = String::from_utf8(decode_as_the_game_does(&value)).unwrap();
    assert!(lua.contains("armcom"), "{lua}");
}

// ------------------------------------------------------- exact values and edge cases

#[test]
fn the_whole_script_for_the_sample() {
    let s = write_script(&sample(), "Qrow").unwrap();
    let expected_units = {
        let lua = "{[1]={name=\"armcom\",x=512,z=512,},}";
        splaunch::customkey::base64_encode(lua.as_bytes())
    };
    let expected = format!(
        "[GAME]\n{{\n\tMapname=Comet Catcher Redux;\n\tGameType=Zero-K v1.14.8.0;\n\tMyPlayerName=Qrow;\n\
\tIsHost=1;\n\tOnlyLocal=1;\n\tStartPosType=2;\n\tGameStartDelay=0;\n\tNumRestrictions=0;\n\
\t[MODOPTIONS]\n\t{{\n\t\tnoelo=1;\n\t\tsingleplayercampaignbattleid=splaunch;\n\t}}\n\
\t[PLAYER0]\n\t{{\n\t\tName=Qrow;\n\t\tTeam=0;\n\t}}\n\
\t[AI0]\n\t{{\n\t\tName=AI 1;\n\t\tShortName=NullAI;\n\t\tTeam=1;\n\t\tHost=0;\n\t}}\n\
\t[TEAM0]\n\t{{\n\t\tTeamLeader=0;\n\t\tAllyTeam=0;\n\t\tRGBColor=0 0 1;\n\t\textrastartunits_1={expected_units};\n\t}}\n\
\t[TEAM1]\n\t{{\n\t\tTeamLeader=0;\n\t\tAllyTeam=1;\n\t\tRGBColor=1 0 0;\n\t}}\n\
\t[ALLYTEAM0]\n\t{{\n\t\tNumAllies=0;\n\t}}\n\t[ALLYTEAM1]\n\t{{\n\t\tNumAllies=0;\n\t}}\n}}\n"
    );
    assert_eq!(s, expected);
}

#[test]
fn the_first_problem_is_the_reason_a_script_is_refused() {
    let mut sc = sample();
    sc.map = "   ".into();
    sc.units.clear();
    assert_eq!(problems(&sc), vec!["No map chosen.".to_string(), "Nothing placed yet.".to_string()]);
    assert_eq!(write_script(&sc, "Qrow").unwrap_err(), "No map chosen.");
}

#[test]
fn an_orphaned_unit_is_named_with_its_team() {
    let mut sc = sample();
    sc.units.push(Placed { unit: "cloakraid".into(), team: 9, x: at(0), z: at(0) });
    sc.units.push(Placed { unit: "cloakskirm".into(), team: 8, x: at(0), z: at(0) });
    assert_eq!(problems(&sc), vec!["A cloakraid belongs to team 9, which does not exist.".to_string()]);
}

#[test]
fn each_empty_part_of_a_scenario_is_its_own_problem() {
    let mut sc = sample();
    sc.teams.clear();
    let p = problems(&sc);
    assert_eq!(
        p,
        vec![
            "No teams.".to_string(),
            "No player team - somebody has to be you.".to_string(),
            "A armcom belongs to team 0, which does not exist.".to_string(),
        ]
    );
}

#[test]
fn the_human_plays_the_first_team_without_an_ai() {
    let mut sc = sample();
    sc.teams = vec![
        Team { id: 3, ally: 0, ai: Some("CircuitAI".into()), colour: "1 1 1".into() },
        Team { id: 5, ally: 1, ai: None, colour: "0 1 0".into() },
        Team { id: 0, ally: 1, ai: None, colour: "0 0 1".into() },
    ];
    let s = write_script(&sc, "Qrow").unwrap();
    let player = s.split("[PLAYER0]").nth(1).unwrap().split("[AI0]").next().unwrap();
    assert_eq!(value_of(player, "Team").as_deref(), Some("5"));
    let ai = s.split("[AI0]").nth(1).unwrap().split("[TEAM3]").next().unwrap();
    assert_eq!(value_of(ai, "ShortName").as_deref(), Some("CircuitAI"));
    assert_eq!(value_of(ai, "Team").as_deref(), Some("3"));
}

#[test]
fn allyteams_are_listed_once_in_order() {
    let mut sc = sample();
    sc.teams = vec![
        Team { id: 0, ally: 4, ai: None, colour: "0 0 1".into() },
        Team { id: 1, ally: 2, ai: Some("NullAI".into()), colour: "1 0 0".into() },
        Team { id: 2, ally: 4, ai: Some("NullAI".into()), colour: "1 0 1".into() },
    ];
    let s = write_script(&sc, "Qrow").unwrap();
    let listed: Vec<String> = sections(&s).into_iter().filter(|x| x.starts_with("ALLYTEAM")).collect();
    assert_eq!(listed, vec!["ALLYTEAM2".to_string(), "ALLYTEAM4".to_string()]);
    assert!(s.contains("[AI0]") && s.contains("[AI1]") && !s.contains("[AI2]"));
}

#[test]
fn both_objective_keys_carry_the_same_payload() {
    let sc = with_goals(vec![Objective {
        description: "Win.".into(),
        goal: Goal::DestroyAllBy { unit: "cloakraid".into(), seconds: 600 },
    }]);
    let options = mission_modoptions(&sc);
    let names: Vec<&str> = options.iter().map(|(k, _)| k.as_str()).collect();
    assert_eq!(names, vec!["singleplayercampaignbattleid", "bonusobjectiveconfig", "objectiveconfig"]);
    assert_eq!(options[1].1, options[2].1);
    let lua = String::from_utf8(decode_as_the_game_does(&options[1].1)).unwrap();
    assert_eq!(
        lua,
        "{[1]={description=\"Win.\",satisfyByTime=600,comparisionType=2,targetNumber=0,\
enemyUnitTypes={[1]=\"cloakraid\",},},}"
    );
}

#[test]
fn a_blank_briefing_is_not_sent() {
    let mut sc = sample();
    sc.briefing = Some(" \t ".into());
    let options = mission_modoptions(&sc);
    assert_eq!(options.len(), 1);
}

#[test]
fn a_survival_goal_without_units_names_none() {
    let sc = with_goals(vec![Objective {
        description: "Survive.".into(),
        goal: Goal::SurviveUntil { seconds: 30, units: vec![] },
    }]);
    let lua = modoption_lua(&write_script(&sc, "Qrow").unwrap(), "objectiveconfig");
    assert_eq!(
        lua,
        "{[1]={description=\"Survive.\",satisfyUntilTime=30,comparisionType=1,targetNumber=1,},}"
    );
}

#[test]
fn a_feature_without_facing_leaves_it_to_the_game() {
    let mut sc = sample();
    sc.features = vec![Feature { name: "rock".into(), x: at(1), z: at(2), facing: None }];
    let lua = modoption_lua(&write_script(&sc, "Qrow").unwrap(), "featurestospawn");
    assert_eq!(lua, "{[1]={name=\"rock\",x=1,z=2,},}");
}

#[test]
fn a_position_keeps_its_fraction() {
    let mut sc = sample();
    sc.units[0].x = Numeral::parse("512.5").unwrap();
    let script = write_script(&sc, "Qrow").unwrap();
    let team0 = script.split("[TEAM0]").nth(1).unwrap();
    let lua = String::from_utf8(decode_as_the_game_does(&value_of(team0, "extrastartunits_1").unwrap()))
        .unwrap();
    assert_eq!(lua, "{[1]={name=\"armcom\",x=512.5,z=512,},}");
}

#[test]
fn forty_units_fit_one_key_and_forty_one_take_two() {
    for (count, keys_expected) in [(40, 1), (41, 2), (80, 2), (81, 3)] {
        let mut sc = sample();
        sc.units = (0..count)
            .map(|i| Placed { unit: "armpw".into(), team: 0, x: at(i), z: at(0) })
            .collect();
        let script = write_script(&sc, "Qrow").unwrap();
        let team0 = script.split("[TEAM0]").nth(1).unwrap().split("[TEAM1]").next().unwrap();
        let found = (1..=4).filter(|k| value_of(team0, &format!("extrastartunits_{k}")).is_some()).count();
        assert_eq!(found, keys_expected, "{count} units");
    }
}

#[test]
fn every_payload_of_a_scenario_decodes_to_its_lua() {
    let mut sc = with_goals(vec![Objective {
        description: "Tiens la crête? \"Oui\" \\ non".into(),
        goal: Goal::SurviveUntil { seconds: 90, units: vec!["cloakraid?".into(), "守".into()] },
    }]);
    sc.name = "Ça?".into();
    sc.briefing = Some("Продержись?".into());
    sc.features = vec![Feature { name: "rock_dead?".into(), x: at(-3), z: at(7), facing: Some(3) }];
    sc.units[0].unit = "scorpion?".into();
    let script = write_script(&sc, "Qrow").unwrap();
    let block = script.split("[MODOPTIONS]").nth(1).unwrap();
    for key in ["bonusobjectiveconfig", "objectiveconfig", "featurestospawn", "planetmissioninformationtext"] {
        let raw = value_of(block, key).unwrap();
        let lua = String::from_utf8(decode_as_the_game_does(&raw)).unwrap();
        assert!(lua.starts_with('{') && lua.ends_with('}'), "{key}: {lua}");
    }
    assert_eq!(
        modoption_lua(&script, "planetmissioninformationtext"),
        "{name=\"\\195\\135a\\063\",description=\"\\208\\159\\209\\128\\208\\190\\208\\180\\208\\181\\209\\128\\208\\182\\208\\184\\209\\129\\209\\140\\063\",}"
    );
    assert_eq!(
        modoption_lua(&script, "featurestospawn"),
        "{[1]={name=\"rock_dead\\063\",x=-3,z=7,facing=3,},}"
    );
    let team0 = script.split("[TEAM0]").nth(1).unwrap();
    let units = String::from_utf8(decode_as_the_game_does(&value_of(team0, "extrastartunits_1").unwrap())).unwrap();
    assert_eq!(units, "{[1]={name=\"scorpion\\063\",x=512,z=512,},}");
}
