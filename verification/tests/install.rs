use splaunch::game::{
    archive_name, base_game, build_options, builder_rank, engine_order, game_info, group_by_name,
    is_game_archive, is_map_archive, is_unit_source, lua_field, map_is_installed, map_names,
    sort_archives, table_key, unit_defs, version_key, GameArchive,
};
use splaunch::game::{roster_from, UnitDef, ROSTER_PIN};
use splaunch::launch::resolve_engine;

#[test]
fn the_newest_engine_is_the_newest_by_number_not_by_string() {
    let mut versions = [
        "105.1.1-2511-g1234567 maintenance".to_string(),
        "2025.06.21".to_string(),
        "2024.12.01".to_string(),
    ];
    versions.sort_by_key(|v| std::cmp::Reverse(version_key(v)));
    assert_eq!(versions[0], "2025.06.21");
    assert_eq!(versions[2], "105.1.1-2511-g1234567 maintenance");
}

#[test]
fn an_archive_name_is_the_name_plus_the_version() {
    let modinfo = r#"local modinfo = {
	name = [[Zero-K]],
	shortname = [[ZK]],
	version = [[v1.14.8.0]],
}
return modinfo"#;
    assert_eq!(archive_name(modinfo).as_deref(), Some("Zero-K v1.14.8.0"));
}

#[test]
fn a_name_that_already_carries_its_version_is_not_doubled() {
    let modinfo = r#"local modinfo = {
	name        = [[User Interface Tutorial r22]],
	description = [[Mission Mutator]],
	version     = [[r22]],
}"#;
    assert_eq!(archive_name(modinfo).as_deref(), Some("User Interface Tutorial r22"));
}

#[test]
fn an_archive_with_no_version_keeps_its_name() {
    assert_eq!(archive_name("{ name = \"Bare\" }").as_deref(), Some("Bare"));
}

#[test]
fn quoted_and_bracketed_lua_strings_both_read() {
    assert_eq!(lua_field(r#"name = "Glaive","#, "name").as_deref(), Some("Glaive"));
    assert_eq!(lua_field("name = [[Glaive]],", "name").as_deref(), Some("Glaive"));
    assert_eq!(lua_field("name\t=\t[[Glaive]]", "name").as_deref(), Some("Glaive"));
}

#[test]
fn a_key_is_not_matched_inside_a_longer_key() {
    let source = "unitname = [[cloakraid]],\n  name = [[Glaive]],";
    assert_eq!(lua_field(source, "name").as_deref(), Some("Glaive"));
    assert_eq!(lua_field(source, "unitname").as_deref(), Some("cloakraid"));
}

#[test]
fn a_missing_field_is_absent_rather_than_empty() {
    assert_eq!(lua_field("{ name = [[x]] }", "buildpic"), None);
}

#[test]
fn a_units_name_is_its_table_key_not_its_filename() {
    assert_eq!(table_key("return { rocksink = {\n  name = [[Rock]],").as_deref(), Some("rocksink"));
    assert_eq!(table_key("return { cloakraid = {").as_deref(), Some("cloakraid"));
}

#[test]
fn build_options_are_read_as_a_list() {
    let source = "  buildoptions = {\n    [[cloakcon]],\n    [[cloakraid]],\n  },";
    assert_eq!(build_options(source), vec!["cloakcon", "cloakraid"]);
    assert!(build_options("name = [[Glaive]]").is_empty());
}

#[test]
fn a_factory_outranks_athena_when_both_build_a_unit() {
    assert!(builder_rank("factorycloak") < builder_rank("athena"));
    assert!(builder_rank("factorycloak") < builder_rank("platecloak"));
}

#[test]
fn the_leftovers_are_grouped_by_the_names_zero_k_uses() {
    assert_eq!(group_by_name("turretlaser"), "Defences");
    assert_eq!(group_by_name("energysolar"), "Economy");
    assert_eq!(group_by_name("armcom1"), "Commanders");
    assert_eq!(group_by_name("commsupport1"), "Commanders");
    assert_eq!(group_by_name("dbg_m0r0"), "Test and debug");
    assert_eq!(group_by_name("zenith"), "Other");
}

#[test]
fn a_catalogue_name_matches_the_file_on_disk() {
    let installed = vec!["comet_catcher_redux".to_string(), "Glacies 1.3".to_string()];
    assert!(map_is_installed(&installed, "Comet Catcher Redux"));
    assert!(map_is_installed(&installed, "Glacies 1.3"));
    assert!(!map_is_installed(&installed, "Some Other Map"));
}

// ------------------------------------------------------- exact values and edge cases

#[test]
fn a_version_key_splits_numbers_from_text() {
    assert_eq!(
        version_key("105.1.1-2511-g1234567 maintenance"),
        vec![
            (105, ".".to_string()),
            (1, ".".to_string()),
            (1, "-".to_string()),
            (2511, "-g".to_string()),
            (1234567, " maintenance".to_string()),
        ]
    );
    assert_eq!(version_key("alpha"), vec![(0, "alpha".to_string())]);
    assert!(version_key("").is_empty());
}

#[test]
fn engines_are_offered_newest_first_each_once() {
    let found = vec![
        "105.1.1-2511-g1234567 maintenance".to_string(),
        "2024.12.01".to_string(),
        "2025.06.21".to_string(),
        "2024.12.01".to_string(),
    ];
    assert_eq!(
        engine_order(found),
        vec![
            "2025.06.21".to_string(),
            "2024.12.01".to_string(),
            "105.1.1-2511-g1234567 maintenance".to_string(),
        ]
    );
}

#[test]
fn an_empty_name_is_no_archive_name() {
    assert_eq!(archive_name("{ name = [[]], version = [[1]] }"), None);
    assert_eq!(archive_name("{ shortname = [[ZK]] }"), None);
}

#[test]
fn lua_fields_are_found_whatever_their_case_and_trimmed() {
    assert_eq!(lua_field("Name = [[  Glaive  ]]", "name").as_deref(), Some("Glaive"));
    assert_eq!(lua_field("name = 'single'", "name").as_deref(), Some("single"));
    assert_eq!(lua_field("name = [[unterminated", "name"), None);
    assert_eq!(lua_field("name without an equals", "name"), None);
}

#[test]
fn a_source_without_a_table_has_no_key() {
    assert_eq!(table_key("local x = 1"), None);
    assert_eq!(table_key("return {  }"), None);
}

#[test]
fn builder_ranks_are_factories_plates_then_the_rest() {
    assert_eq!(builder_rank("factoryshield"), 0);
    assert_eq!(builder_rank("plateshield"), 1);
    assert_eq!(builder_rank("striderhub"), 2);
}

#[test]
fn every_named_group_is_reachable() {
    assert_eq!(group_by_name("factorycloak"), "Factories");
    assert_eq!(group_by_name("platecloak"), "Factories");
    assert_eq!(group_by_name("staticradar"), "Support Structures");
    assert_eq!(group_by_name("chickenq"), "Chickens");
    assert_eq!(group_by_name("striderdante"), "Striders");
    assert_eq!(group_by_name("fakeunit_aatarget"), "Test and debug");
    assert_eq!(group_by_name("tiptest"), "Test and debug");
    assert_eq!(group_by_name("empiricaldpsbot"), "Test and debug");
    assert_eq!(group_by_name("damagesinkrock"), "Test and debug");
}

#[test]
fn unit_sources_are_lua_files_under_units() {
    assert!(is_unit_source("units/cloakraid.lua"));
    assert!(is_unit_source("Units/CloakRaid.LUA"));
    assert!(!is_unit_source("gamedata/units.lua"));
    assert!(!is_unit_source("units/readme.txt"));
}

#[test]
fn archive_extensions_are_recognised_in_any_case() {
    assert!(is_game_archive("SDZ"));
    assert!(!is_game_archive("sd7"));
    assert!(is_map_archive("sd7") && is_map_archive("Sdz") && is_map_archive("SMF"));
    assert!(!is_map_archive("zip"));
}

#[test]
fn the_palette_is_grouped_by_factory_and_sorted() {
    let sources = vec![
        (
            "units/factorycloak.lua".to_string(),
            "return { factorycloak = { name = [[Cloakbot Factory]], buildoptions = {\n [[cloakraid]],\n [[cloakcon]],\n },".to_string(),
        ),
        (
            "units/athena.lua".to_string(),
            "return { athena = { name = [[Athena]], buildoptions = { [[cloakraid]], [[turretlaser]], },".to_string(),
        ),
        ("units/cloakraid.lua".to_string(), "return { cloakraid = { name = [[Glaive]], description = [[Raider]],".to_string()),
        ("units/cloakcon.lua".to_string(), "return { cloakcon = { name = [[Conjurer]],".to_string()),
        ("units/turretlaser.lua".to_string(), "return { turretlaser = { name = [[Lotus]],".to_string()),
        ("units/dbg_thing.lua".to_string(), "return { dbg_thing = { name = [[Debug]],".to_string()),
        ("units/zenith.lua".to_string(), "return { zenith = { name = [[Zenith]],".to_string()),
        ("units/rocksink.lua".to_string(), "no table here".to_string()),
    ];
    let units = unit_defs(sources);
    let seen: Vec<(String, String, String)> =
        units.iter().map(|u| (u.name.clone(), u.title.clone(), u.group.clone())).collect();
    assert_eq!(seen, expected_palette());
    assert_eq!(units.iter().find(|u| u.name == "cloakraid").unwrap().description, "Raider");
}

fn expected_palette() -> Vec<(String, String, String)> {
    vec![
        ("turretlaser".into(), "Lotus".into(), "Athena".into()),
        ("cloakcon".into(), "Conjurer".into(), "Cloakbot Factory".into()),
        ("cloakraid".into(), "Glaive".into(), "Cloakbot Factory".into()),
        ("factorycloak".into(), "Cloakbot Factory".into(), "Factories".into()),
        ("dbg_thing".into(), "Debug".into(), "Test and debug".into()),
        ("athena".into(), "Athena".into(), "Other".into()),
        ("zenith".into(), "Zenith".into(), "Other".into()),
        ("rocksink".into(), "rocksink".into(), "Other".into()),
    ]
}

#[test]
fn map_names_are_sorted_and_each_once() {
    let stems = vec!["b".to_string(), "a".to_string(), "b".to_string(), "B".to_string()];
    assert_eq!(map_names(stems), vec!["B".to_string(), "a".to_string(), "b".to_string()]);
}

fn archive(name: &str) -> GameArchive {
    GameArchive { name: name.to_string(), path: std::path::PathBuf::from(format!("/zk/games/{name}.sdz")) }
}

#[test]
fn the_base_game_is_zero_k_not_its_mutator() {
    let sorted = sort_archives(vec![archive("Zero-K v1.14.8.0"), archive("User Interface Tutorial r22")]);
    assert_eq!(sorted[0].name, "User Interface Tutorial r22");
    let base = base_game(sorted).unwrap();
    assert_eq!(base.name, "Zero-K v1.14.8.0");
    assert_eq!(base.path, std::path::PathBuf::from("/zk/games/Zero-K v1.14.8.0.sdz"));
}

#[test]
fn without_zero_k_the_first_archive_is_the_game() {
    assert_eq!(base_game(vec![archive("Mod A"), archive("Mod B")]).unwrap().name, "Mod A");
    assert!(base_game(vec![]).is_none());
}

#[test]
fn game_info_offers_the_newest_engine_and_the_base_game() {
    let info = game_info(
        vec!["2025.06.21".to_string(), "105.1.1".to_string()],
        vec![archive("Mission r1"), archive("zero-k test")],
        vec!["NullAI".to_string()],
        vec!["Glacies".to_string()],
    );
    assert_eq!(info.engine.as_deref(), Some("2025.06.21"));
    assert_eq!(info.game.as_deref(), Some("zero-k test"));
    assert_eq!(info.engines.len(), 2);
    assert_eq!(info.games.len(), 2);
    let none = game_info(vec![], vec![], vec![], vec![]);
    assert!(none.engine.is_none());
    assert!(none.game.is_none());
}

#[test]
fn an_engine_named_by_the_caller_is_honoured() {
    let installed = vec!["2025.06.21".to_string()];
    assert_eq!(resolve_engine("  104.0  ", &installed, "/zk").unwrap(), "104.0");
    assert_eq!(resolve_engine("", &installed, "/zk").unwrap(), "2025.06.21");
}

#[test]
fn no_engine_is_a_sentence_not_a_failure_at_spawn() {
    let err = resolve_engine(" ", &vec![], "/zk").unwrap_err();
    assert_eq!(
        err,
        "Zero-K is installed at /zk but no engine is. Start a game once in the official lobby to download one, then try again."
    );
}

#[test]
fn a_non_latin_letter_also_makes_a_longer_key() {
    // `énom` is one key, not `é` then `nom`: letters in any script join a key.
    let source = "énom = [[first]],\n nom = [[second]],";
    assert_eq!(lua_field(source, "nom").as_deref(), Some("second"));
    assert_eq!(table_key("return { été2 = {").as_deref(), Some("été2"));
}

#[test]
fn the_installed_roster_wins_unless_it_is_empty() {
    let unit = |n: &str| UnitDef {
        name: n.to_string(),
        title: n.to_string(),
        description: String::new(),
        group: "Other".to_string(),
    };
    let installed = roster_from(Some(vec![unit("cloakraid")]), vec![unit("armpw")]);
    assert_eq!(installed.source, "the installed game");
    assert_eq!(installed.units.len(), 1);
    assert_eq!(installed.units[0].name, "cloakraid");

    let fallback = roster_from(Some(vec![]), vec![unit("armpw")]);
    assert_eq!(fallback.source, "Splaunch's vendored copy of Zero-K (32c1eca)");
    assert_eq!(fallback.units[0].name, "armpw");
    assert_eq!(&ROSTER_PIN[..7], "32c1eca");

    let none = roster_from(None, vec![]);
    assert_eq!(none.source, "Splaunch's vendored copy of Zero-K (32c1eca)");
    assert!(none.units.is_empty());
}

#[test]
fn a_whole_number_version_is_keyed_by_its_value() {
    assert_eq!(version_key("2025"), vec![(2025, String::new())]);
    assert_eq!(version_key("105"), vec![(105, String::new())]);
    assert!(version_key("105") < version_key("2025"));
    // A run too long for a number counts as zero, as a failed parse does.
    assert_eq!(version_key("99999999999999999999"), vec![(0, String::new())]);
}
