use std::io::Write;

use splaunch::game::{modinfo_of, read_unit_defs};

fn zip_of(entries: &[(&str, &[u8])]) -> Vec<u8> {
    let mut w = zip::ZipWriter::new(std::io::Cursor::new(Vec::new()));
    for (name, data) in entries {
        w.start_file(*name, zip::write::SimpleFileOptions::default()).unwrap();
        w.write_all(data).unwrap();
    }
    w.finish().unwrap().into_inner()
}

#[test]
fn the_roster_is_read_out_of_the_archive_bytes() {
    let bytes = zip_of(&[
        ("modinfo.lua", b"local modinfo = { name = [[Zero-K]], version = [[v1]] }"),
        ("Units/CloakRaid.lua", b"return { cloakraid = { name = [[Glaive]], description = [[Raider]],"),
        ("units/factorycloak.lua", b"return { factorycloak = { name = [[Cloakbot Factory]], buildoptions = { [[cloakraid]], },"),
        ("units/readme.txt", b"return { notaunit = { name = [[No]],"),
        ("gamedata/units.lua", b"return { alsonot = {"),
        ("units/broken.lua", &[0xFF, 0xFE, 0x00]),
    ]);
    let units = read_unit_defs(&bytes).unwrap();
    let seen: Vec<(&str, &str, &str)> =
        units.iter().map(|u| (u.name.as_str(), u.title.as_str(), u.group.as_str())).collect();
    assert_eq!(
        seen,
        vec![("cloakraid", "Glaive", "Cloakbot Factory"), ("factorycloak", "Cloakbot Factory", "Factories")]
    );
}

#[test]
fn bytes_that_are_not_an_archive_are_an_error() {
    assert!(read_unit_defs(b"not a zip at all").is_err());
    assert!(modinfo_of(b"not a zip at all").is_none());
}

#[test]
fn modinfo_is_found_whatever_its_case() {
    let bytes = zip_of(&[("readme.txt", b"x"), ("ModInfo.LUA", b"name = [[Mod]]")]);
    assert_eq!(modinfo_of(&bytes).as_deref(), Some("name = [[Mod]]"));
    let none = zip_of(&[("units/a.lua", b"return { a = {")]);
    assert_eq!(modinfo_of(&none), None);
}

#[test]
fn an_archive_without_units_has_an_empty_roster() {
    let bytes = zip_of(&[("modinfo.lua", b"name = [[Bare]]")]);
    assert!(read_unit_defs(&bytes).unwrap().is_empty());
}
