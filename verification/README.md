# Splaunch

A scenario editor for Zero-K: place units on a map, set objectives, and press
Test to launch straight into the real game. A scenario compiles to a Spring
start script, so Test is not a preview: what is tested is the game.

This crate is the editor's core, written in Verus and proved against its
contracts, with the desktop application around it.

## Layout

- `src/` - the verified library.
  - `scenario.rs` - scenarios, what is wrong with one, and the start script it
    compiles to (sections, modoptions, objectives, features, briefing, placed
    units forty to a key).
  - `customkey.rs` - the custom-key transport: Lua table literals, Zero-K's
    base64, and its decoder with both of its faults.
  - `game.rs` - what an install holds: engine version order, the name an
    archive is indexed under, unit definitions and the palette's groups, map
    names.
  - `archive.rs` - reading a game archive's entries out of its bytes, through
    the zip crate; `game.rs` picks the unit definitions and `modinfo.lua` out of
    them.
  - `maps.rs` - the map catalogue from Zero-K's content service, and which
    hosts may be fetched from.
  - `launch.rs` - which engine a launch uses, and one game at a time.
  - `order.rs`, `text.rs` - ordering by key, and the text operations the rest
    is written in.
  - `shape.rs`, `laws.rs` - what holds of every script, payload and list: braces
    balance, values are terminated, payloads survive Zero-K's decoder, engines
    come newest first, and so on.
- `tests/` - the library's tests, run against the compiled crate.
- `app/` - the application: reading the install from disk, fetching the
  catalogue, spawning the engine, and the commands the editor calls.
