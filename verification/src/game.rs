//! What the installed Zero-K actually contains.
//!
//! All of it is on disk: engine versions are directory names, the game
//! archive is a `.sdz` whose `modinfo.lua` carries the name the engine
//! indexes it under, the roster is `units/*.lua` in that same archive, and the
//! AIs are directories. Reading the disk is the caller's part; this module
//! holds what is decided from what was read - which name `GameType` needs,
//! which engine is newest, how the roster is grouped and ordered.
//!
//! Everything here degrades rather than fails: a missing archive means an
//! empty list, not an error that stops the editor opening.
use vstd::prelude::*;

use crate::archive::{archive_contents, archive_entries, entry_count, name_at, open_archive, text_at};
use crate::maps::{ends_with, starts_with};
use crate::order::{
    key_view, keyed_view, lemma_sorted_map, map_items, sort_keyed, sorted_keyed, text_eq_exec,
};
use crate::text::{
    chars_of, find_from, find_from_exec, is_digit, lemma_find_from, lowered, lowered_exec,
    parse_u64, parse_u64_spec, slice_chars, string_of, trim, trim_exec, trim_start,
    trim_start_exec,
};

verus! {

broadcast use vstd::string::group_string_axioms;

#[verifier::external_type_specification]
#[verifier::external_body]
pub struct ExPathBuf(std::path::PathBuf);

/// A game archive the engine would index, and the name it indexes it under.
pub struct GameArchive {
    /// What `GameType` has to be set to. Not the filename.
    pub name: String,
    pub path: std::path::PathBuf,
}

/// One placeable unit, as the game defines it.
pub struct UnitDef {
    /// The internal name, which is what a start script places.
    pub name: String,
    /// What a player calls it - "Glaive" for `cloakraid`.
    pub title: String,
    pub description: String,
    /// For grouping the palette: the factory that builds it where one does,
    /// and a name-derived group otherwise.
    pub group: String,
}

impl View for UnitDef {
    type V = (Seq<char>, Seq<char>, Seq<char>, Seq<char>);

    open spec fn view(&self) -> (Seq<char>, Seq<char>, Seq<char>, Seq<char>) {
        (self.name@, self.title@, self.description@, self.group@)
    }
}

/// Everything the editor needs to know about the install, in one answer.
///
/// Assembled as a whole because each answer explains the others: an empty
/// roster with a named archive means a read failure, an empty roster with no
/// archive means Zero-K is not installed.
pub struct GameInfo {
    pub engines: Vec<String>,
    pub games: Vec<GameArchive>,
    pub ais: Vec<String>,
    /// Maps actually on this machine, as opposed to the catalogue's.
    pub maps: Vec<String>,
    /// The defaults the editor should start from, already chosen.
    pub engine: Option<String>,
    pub game: Option<String>,
}

/// The roster, and where it came from: the installed game is authoritative,
/// the vendored copy a pin that may be older than the game on the machine.
pub struct Roster {
    pub source: String,
    pub units: Vec<UnitDef>,
}

/// The views of a list of strings.
pub open spec fn views(v: Seq<String>) -> Seq<Seq<char>> {
    v.map_values(|x: String| x@)
}

// ------------------------------------------------------------- engines -----

/// The leading run of digits.
pub open spec fn digit_run(s: Seq<char>) -> Seq<char>
    decreases s.len(),
{
    if s.len() > 0 && is_digit(s[0]) {
        seq![s[0]] + digit_run(s.drop_first())
    } else {
        seq![]
    }
}

/// The leading run of everything else.
pub open spec fn text_run(s: Seq<char>) -> Seq<char>
    decreases s.len(),
{
    if s.len() > 0 && !is_digit(s[0]) {
        seq![s[0]] + text_run(s.drop_first())
    } else {
        seq![]
    }
}

pub proof fn lemma_runs(s: Seq<char>)
    ensures
        digit_run(s) == s.take(digit_run(s).len() as int),
        text_run(s) == s.take(text_run(s).len() as int),
        s.len() > 0 && is_digit(s[0]) ==> digit_run(s).len() >= 1,
        s.len() > 0 && !is_digit(s[0]) ==> text_run(s).len() >= 1,
        digit_run(s).len() <= s.len(),
        text_run(s).len() <= s.len(),
        forall|i: int| 0 <= i < digit_run(s).len() ==> is_digit(#[trigger] s[i]),
        digit_run(s).len() < s.len() ==> !is_digit(s[digit_run(s).len() as int]),
        text_run(s).len() < s.len() ==> is_digit(s[text_run(s).len() as int]),
    decreases s.len(),
{
    if s.len() > 0 {
        lemma_runs(s.drop_first());
        assert forall|i: int| 0 <= i < digit_run(s).len() implies is_digit(#[trigger] s[i]) by {
            if i > 0 {
                assert(s[i] == s.drop_first()[i - 1]);
            }
        }
        if is_digit(s[0]) {
            assert(digit_run(s) =~= s.take(digit_run(s).len() as int));
        } else {
            assert(text_run(s) =~= s.take(text_run(s).len() as int));
        }
    }
}

/// A run of digits as a number, or zero when it is empty or does not fit.
pub open spec fn number_or_zero(d: Seq<char>) -> u64 {
    match parse_u64_spec(d) {
        Some(v) => v,
        None => 0,
    }
}

/// Versions are `2025.06.21` or `105.1.1-2511-g1234567 maintenance`: the
/// numeric runs compare as numbers and everything else as text.
pub open spec fn version_key_spec(s: Seq<char>) -> Seq<(u64, Seq<char>)>
    decreases s.len(),
{
    if s.len() == 0 {
        seq![]
    } else {
        let d = digit_run(s);
        let r = s.skip(d.len() as int);
        let t = text_run(r);
        proof {
            lemma_runs(s);
            lemma_runs(r);
        }
        seq![(number_or_zero(d), t)] + version_key_spec(r.skip(t.len() as int))
    }
}

fn version_key_chars(s: &Vec<char>) -> (r: Vec<(u64, Vec<char>)>)
    ensures
        key_view(r@) == version_key_spec(s@),
{
    let mut out: Vec<(u64, Vec<char>)> = Vec::new();
    let mut i: usize = 0;
    assert(s@.skip(0) =~= s@);
    while i < s.len()
        invariant
            i <= s@.len(),
            version_key_spec(s@) == key_view(out@) + version_key_spec(s@.skip(i as int)),
        decreases s@.len() - i,
    {
        let ghost rest = s@.skip(i as int);
        proof {
            lemma_runs(rest);
        }
        let mut j: usize = i;
        while j < s.len() && '0' <= s[j] && s[j] <= '9'
            invariant
                i <= j <= s@.len(),
                rest == s@.skip(i as int),
                forall|k: int| i <= k < j ==> is_digit(#[trigger] s@[k]),
                j - i <= digit_run(rest).len(),
                digit_run(rest) == rest.take(digit_run(rest).len() as int),
                digit_run(rest).len() <= rest.len(),
                digit_run(rest).len() < rest.len() ==> !is_digit(rest[digit_run(rest).len() as int]),
            decreases s@.len() - j,
        {
            proof {
                if j - i == digit_run(rest).len() {
                    assert(rest[j - i] == s@[j as int]);
                }
            }
            j = j + 1;
        }
        proof {
            if j - i < digit_run(rest).len() {
                assert(digit_run(rest)[j - i] == rest[j - i]);
                assert(rest[j - i] == s@[j as int]);
            }
        }
        assert(j - i == digit_run(rest).len());
        let digits = slice_chars(s, i, j);
        assert(digits@ =~= digit_run(rest));
        let ghost r2 = rest.skip(digit_run(rest).len() as int);
        assert(r2 =~= s@.skip(j as int));
        proof {
            lemma_runs(r2);
        }
        let mut k: usize = j;
        while k < s.len() && !('0' <= s[k] && s[k] <= '9')
            invariant
                j <= k <= s@.len(),
                r2 == s@.skip(j as int),
                k - j <= text_run(r2).len(),
                text_run(r2).len() <= r2.len(),
                text_run(r2) == r2.take(text_run(r2).len() as int),
                text_run(r2).len() < r2.len() ==> is_digit(r2[text_run(r2).len() as int]),
            decreases s@.len() - k,
        {
            proof {
                if k - j == text_run(r2).len() {
                    assert(r2[k - j] == s@[k as int]);
                }
            }
            k = k + 1;
        }
        proof {
            if k - j < text_run(r2).len() {
                assert(text_run(r2)[k - j] == r2[k - j]);
                assert(r2[k - j] == s@[k as int]);
                assert(!is_digit(text_run(r2)[k - j])) by {
                    lemma_text_run_chars(r2);
                }
            }
        }
        assert(k - j == text_run(r2).len());
        let text = slice_chars(s, j, k);
        assert(text@ =~= text_run(r2));
        let number = match parse_u64(&digits) {
            Some(v) => v,
            None => 0,
        };
        let ghost before = key_view(out@);
        out.push((number, text));
        assert(key_view(out@) =~= before + seq![(number_or_zero(digit_run(rest)), text_run(r2))]);
        assert(r2.skip(text_run(r2).len() as int) =~= s@.skip(k as int));
        i = k;
    }
    assert(s@.skip(i as int) =~= Seq::<char>::empty());
    assert(key_view(out@) =~= key_view(out@) + Seq::<(u64, Seq<char>)>::empty());
    out
}

pub proof fn lemma_text_run_chars(s: Seq<char>)
    ensures
        forall|i: int| 0 <= i < text_run(s).len() ==> !is_digit(#[trigger] text_run(s)[i]),
    decreases s.len(),
{
    if s.len() > 0 && !is_digit(s[0]) {
        lemma_text_run_chars(s.drop_first());
        assert forall|i: int| 0 <= i < text_run(s).len() implies !is_digit(
            #[trigger] text_run(s)[i],
        ) by {
            if i > 0 {
                assert(text_run(s)[i] == text_run(s.drop_first())[i - 1]);
            }
        }
    }
}

/// The view of a key made of numbers and strings.
pub open spec fn string_key_view(v: Seq<(u64, String)>) -> Seq<(u64, Seq<char>)> {
    v.map_values(|p: (u64, String)| (p.0, p.1@))
}

/// The key an engine version sorts by.
pub fn version_key(version: &str) -> (r: Vec<(u64, String)>)
    ensures
        string_key_view(r@) == version_key_spec(version@),
{
    let k = version_key_chars(&chars_of(version));
    let mut out: Vec<(u64, String)> = Vec::new();
    let mut i: usize = 0;
    while i < k.len()
        invariant
            i <= k@.len(),
            string_key_view(out@) == key_view(k@).take(i as int),
        decreases k@.len() - i,
    {
        let ghost before = out@;
        let t = string_of(k[i].1.as_slice());
        out.push((k[i].0, t));
        assert(string_key_view(out@) =~= string_key_view(before).push((k@[i as int].0, k@[i as int].1@)));
        assert(key_view(k@).take(i + 1) =~= key_view(k@).take(i as int).push(key_view(k@)[i as int]));
        i = i + 1;
    }
    assert(key_view(k@).take(k@.len() as int) =~= key_view(k@));
    out
}

/// A plain name as a sort key: ordered as text.
pub open spec fn plain_key(n: Seq<char>) -> Seq<(u64, Seq<char>)> {
    seq![(0u64, n)]
}

pub open spec fn name_key(n: Seq<char>, versions: bool) -> Seq<(u64, Seq<char>)> {
    if versions {
        version_key_spec(n)
    } else {
        plain_key(n)
    }
}

/// Strings in a stable sort by their name key: engine versions newest first
/// (`versions`, `desc`), or plain names in text order.
pub open spec fn strings_sorted(names: Seq<String>, versions: bool, desc: bool) -> Seq<String> {
    sorted_keyed(names.map_values(|n: String| (name_key(n@, versions), n)), desc).map_values(
        |p: (Seq<(u64, Seq<char>)>, String)| p.1,
    )
}

fn name_key_exec(n: &String, versions: bool) -> (r: Vec<(u64, Vec<char>)>)
    ensures
        key_view(r@) == name_key(n@, versions),
{
    let cs = chars_of(n.as_str());
    if versions {
        version_key_chars(&cs)
    } else {
        let k = vec![(0u64, cs)];
        assert(key_view(k@) =~= plain_key(n@));
        k
    }
}

/// A stable sort of strings by their name key.
pub fn sort_strings(names: Vec<String>, versions: bool, desc: bool) -> (r: Vec<String>)
    ensures
        r@ == strings_sorted(names@, versions, desc),
{
    let ghost all = names@;
    let mut rest = names;
    let mut keyed: Vec<(Vec<(u64, Vec<char>)>, String)> = Vec::new();
    let total = rest.len();
    let mut i: usize = 0;
    while rest.len() > 0
        invariant
            i + rest@.len() == total,
            total == all.len(),
            rest@ == all.skip(i as int),
            keyed_view(keyed@) == all.take(i as int).map_values(
                |n: String| (name_key(n@, versions), n),
            ),
        decreases rest@.len(),
    {
        let ghost old_rest = rest@;
        let n = rest.remove(0);
        assert(n == all[i as int]) by {
            assert(old_rest[0] == all.skip(i as int)[0]);
        }
        assert(rest@ =~= all.skip(i + 1));
        let k = name_key_exec(&n, versions);
        let ghost before = keyed@;
        let ghost kv = key_view(k@);
        keyed.push((k, n));
        assert(keyed_view(keyed@) =~= keyed_view(before).push((kv, n)));
        assert(all.take(i + 1) =~= all.take(i as int).push(n));
        i = i + 1;
        assert(keyed_view(keyed@) =~= all.take(i as int).map_values(
            |n: String| (name_key(n@, versions), n),
        ));
    }
    assert(all.take(i as int) =~= all);
    let mut sorted = sort_keyed(keyed, desc);
    let ghost sv = keyed_view(sorted@);
    let mut out: Vec<String> = Vec::new();
    let count = sorted.len();
    let mut j: usize = 0;
    while sorted.len() > 0
        invariant
            j + sorted@.len() == count,
            count == sv.len(),
            keyed_view(sorted@) == sv.skip(j as int),
            out@ == sv.take(j as int).map_values(|p: (Seq<(u64, Seq<char>)>, String)| p.1),
        decreases sorted@.len(),
    {
        let ghost old_sorted = sorted@;
        let item = sorted.remove(0);
        assert(item.1 == sv[j as int].1) by {
            assert(keyed_view(old_sorted)[0] == sv.skip(j as int)[0]);
        }
        assert(keyed_view(sorted@) =~= sv.skip(j + 1)) by {
            assert(sorted@ =~= old_sorted.drop_first());
            assert(keyed_view(sorted@) =~= keyed_view(old_sorted).drop_first());
        }
        out.push(item.1);
        j = j + 1;
        assert(out@ =~= sv.take(j as int).map_values(|p: (Seq<(u64, Seq<char>)>, String)| p.1));
    }
    assert(sv.take(j as int) =~= sv);
    out
}

/// Names with each repeat after the first dropped.
pub open spec fn first_occurrences(names: Seq<String>) -> Seq<String>
    decreases names.len(),
{
    if names.len() == 0 {
        seq![]
    } else if views(first_occurrences(names.drop_last())).contains(names.last()@) {
        first_occurrences(names.drop_last())
    } else {
        first_occurrences(names.drop_last()).push(names.last())
    }
}

fn contains_view(list: &Vec<String>, x: &String) -> (r: bool)
    ensures
        r == views(list@).contains(x@),
{
    let xc = chars_of(x.as_str());
    let mut i: usize = 0;
    while i < list.len()
        invariant
            i <= list@.len(),
            xc@ == x@,
            forall|k: int| 0 <= k < i ==> views(list@)[k] != x@,
        decreases list@.len() - i,
    {
        let c = chars_of(list[i].as_str());
        if text_eq_exec(&c, &xc) {
            assert(views(list@)[i as int] == x@);
            return true;
        }
        i = i + 1;
    }
    false
}

/// Every engine version found, each once, newest first.
///
/// Comparing versions as strings puts `105` above `2025`, so numeric runs
/// compare as numbers; purely so "the newest one" means what a person means
/// by it.
pub fn engine_order(found: Vec<String>) -> (r: Vec<String>)
    ensures
        r@ == strings_sorted(first_occurrences(found@), true, true),
{
    let ghost all = found@;
    let mut rest = found;
    let mut unique: Vec<String> = Vec::new();
    let total = rest.len();
    let mut i: usize = 0;
    while rest.len() > 0
        invariant
            i + rest@.len() == total,
            total == all.len(),
            rest@ == all.skip(i as int),
            unique@ == first_occurrences(all.take(i as int)),
        decreases rest@.len(),
    {
        let ghost old_rest = rest@;
        let n = rest.remove(0);
        assert(n == all[i as int]) by {
            assert(old_rest[0] == all.skip(i as int)[0]);
        }
        assert(rest@ =~= all.skip(i + 1));
        assert(all.take(i + 1).drop_last() =~= all.take(i as int));
        if !contains_view(&unique, &n) {
            unique.push(n);
        }
        i = i + 1;
    }
    assert(all.take(i as int) =~= all);
    sort_strings(unique, true, true)
}

// ---------------------------------------------------------------- Lua -----

/// What `char::is_alphanumeric` says of a character: Unicode's Alphabetic or
/// Numeric property, which takes Unicode's tables to state.
pub uninterp spec fn alphanumeric(c: char) -> bool;

/// `char::is_alphanumeric`. Its contract names the result, and states what
/// the documentation says of ASCII: exactly the letters and digits.
#[verifier::external_body]
fn is_alphanumeric(c: char) -> (r: bool)
    ensures
        r == alphanumeric(c),
        c <= '\u{7f}' ==> (r <==> ('a' <= c <= 'z' || 'A' <= c <= 'Z' || '0' <= c <= '9')),
{
    c.is_alphanumeric()
}

/// A character that can continue a Lua name.
pub open spec fn word_char(c: char) -> bool {
    alphanumeric(c) || c == '_'
}

fn word_char_exec(c: char) -> (r: bool)
    ensures
        r == word_char(c),
{
    is_alphanumeric(c) || c == '_'
}

/// The text up to `close`, trimmed; nothing when it is never closed.
pub open spec fn closed_by(rest: Seq<char>, close: Seq<char>) -> Option<Seq<char>> {
    match find_from(rest, close, 0) {
        Some(e) => Some(trim(rest.take(e))),
        None => None,
    }
}

/// What follows a key at `at`, when it is `=` and a string literal: the
/// literal's text (or nothing, when the literal never closes). `None` when it
/// is not an assignment of a literal, and the search goes on.
pub open spec fn assigned_value(source: Seq<char>, at: int) -> Option<Option<Seq<char>>> {
    let a = trim_start(source.skip(at));
    if a.len() == 0 || a[0] != '=' {
        None
    } else {
        let v = trim_start(a.drop_first());
        if starts_with(v, "[["@) {
            Some(closed_by(v.skip(2), "]]"@))
        } else if v.len() > 0 && v[0] == '"' {
            Some(closed_by(v.drop_first(), seq!['"']))
        } else if v.len() > 0 && v[0] == '\'' {
            Some(closed_by(v.drop_first(), seq!['\'']))
        } else {
            None
        }
    }
}

/// The search for `key = value` from `at` on: each occurrence of the key
/// (compared without case) that is not the tail of a longer name, and is
/// assigned a literal, ends it.
pub open spec fn field_scan(lsrc: Seq<char>, needle: Seq<char>, source: Seq<char>, at: int) -> Option<Seq<char>>
    decreases lsrc.len() - at,
{
    if needle.len() == 0 || at < 0 {
        None
    } else {
        match find_from(lsrc, needle, at) {
            None => None,
            Some(start) => {
                proof {
                    lemma_find_from(lsrc, needle, at);
                }
                let next = start + needle.len();
                if start > 0 && word_char(lsrc[start - 1]) {
                    field_scan(lsrc, needle, source, next)
                } else {
                    match assigned_value(source, next) {
                        Some(r) => r,
                        None => field_scan(lsrc, needle, source, next),
                    }
                }
            },
        }
    }
}

/// `key = value` in a Lua table body, for the two literal forms that appear.
pub open spec fn lua_field_spec(source: Seq<char>, key: Seq<char>) -> Option<Seq<char>> {
    field_scan(lowered(source), lowered(key), source, 0)
}

fn closed_by_exec(rest: &Vec<char>, close: &Vec<char>) -> (r: Option<Vec<char>>)
    ensures
        r matches Some(t) ==> closed_by(rest@, close@) == Some(t@),
        r is None ==> closed_by(rest@, close@) is None,
{
    match find_from_exec(rest, close, 0) {
        Some(e) => {
            proof {
                lemma_find_from(rest@, close@, 0);
            }
            let head = slice_chars(rest, 0, e);
            assert(head@ =~= rest@.take(e as int));
            Some(trim_exec(&head))
        },
        None => None,
    }
}

fn assigned_exec(source: &Vec<char>, at: usize) -> (r: Option<Option<Vec<char>>>)
    requires
        at <= source@.len(),
    ensures
        match r {
            None => assigned_value(source@, at as int) is None,
            Some(None) => assigned_value(source@, at as int) == Some(None::<Seq<char>>),
            Some(Some(t)) => assigned_value(source@, at as int) == Some(Some(t@)),
        },
{
    let tail = slice_chars(source, at, source.len());
    assert(tail@ =~= source@.skip(at as int));
    let a = trim_start_exec(&tail);
    if a.len() == 0 || a[0] != '=' {
        return None;
    }
    let a1 = slice_chars(&a, 1, a.len());
    assert(a1@ =~= a@.drop_first());
    let v = trim_start_exec(&a1);
    let open = chars_of("[[");
    proof {
        reveal_strlit("[[");
    }
    if v.len() >= 2 && v[0] == '[' && v[1] == '[' {
        assert(v@.subrange(0, 2) =~= "[["@);
        let rest = slice_chars(&v, 2, v.len());
        assert(rest@ =~= v@.skip(2));
        let close = chars_of("]]");
        return Some(closed_by_exec(&rest, &close));
    }
    assert(!starts_with(v@, "[["@)) by {
        if v@.len() >= 2 && v@.subrange(0, 2) == "[["@ {
            assert(v@.subrange(0, 2)[0] == v@[0]);
            assert(v@.subrange(0, 2)[1] == v@[1]);
        }
    }
    if v.len() > 0 && (v[0] == '"' || v[0] == '\'') {
        let q = v[0];
        let rest = slice_chars(&v, 1, v.len());
        assert(rest@ =~= v@.drop_first());
        let close = vec![q];
        assert(close@ =~= seq![q]);
        return Some(closed_by_exec(&rest, &close));
    }
    None
}

fn option_string(v: Option<Vec<char>>) -> (r: Option<String>)
    ensures
        match v {
            Some(t) => r matches Some(x) && x@ == t@,
            None => r is None,
        },
{
    match v {
        Some(t) => Some(string_of(t.as_slice())),
        None => None,
    }
}

/// Pull `key = value` out of a Lua table body.
///
/// Deliberately not a Lua parser. Zero-K's `modinfo.lua` and unit definitions
/// are flat tables of literals written by hand, and the two forms that appear
/// are `[[text]]` and `"text"`; anything that finds nothing returns `None`
/// and the caller says so rather than guessing.
pub fn lua_field(source: &str, key: &str) -> (r: Option<String>)
    requires
        key@.len() > 0,
    ensures
        match r {
            Some(x) => lua_field_spec(source@, key@) == Some(x@),
            None => lua_field_spec(source@, key@) is None,
        },
{
    let src = chars_of(source);
    let low = lowered_exec(&src);
    let needle = lowered_exec(&chars_of(key));
    let mut at: usize = 0;
    loop
        invariant
            src@ == source@,
            low@ == lowered(source@),
            needle@ == lowered(key@),
            needle@.len() > 0,
            at <= low@.len(),
            lua_field_spec(source@, key@) == field_scan(low@, needle@, src@, at as int),
        decreases low@.len() - at,
    {
        let start = match find_from_exec(&low, &needle, at) {
            Some(i) => i,
            None => return None,
        };
        proof {
            lemma_find_from(low@, needle@, at as int);
        }
        let next = start + needle.len();
        // A key, not a substring of a longer one.
        if start > 0 && word_char_exec(low[start - 1]) {
            at = next;
            continue ;
        }
        match assigned_exec(&src, next) {
            Some(found) => {
                return option_string(found);
            },
            None => {},
        }
        at = next;
    }
}

/// The name the engine indexes an archive under: the declared name, with the
/// declared version appended unless the name already ends with it.
pub open spec fn archive_name_spec(modinfo: Seq<char>) -> Option<Seq<char>> {
    match lua_field_spec(modinfo, "name"@) {
        None => None,
        Some(name) => if name.len() == 0 {
            None
        } else {
            match lua_field_spec(modinfo, "version"@) {
                Some(version) => if version.len() > 0 && !ends_with(name, version) {
                    Some(name + seq![' '] + version)
                } else {
                    Some(name)
                },
                None => Some(name),
            }
        },
    }
}

fn ends_with_chars(s: &Vec<char>, p: &Vec<char>) -> (r: bool)
    ensures
        r == ends_with(s@, p@),
{
    if p.len() > s.len() {
        return false;
    }
    crate::text::matches_at_exec(s, p, s.len() - p.len())
}

/// The name the engine indexes an archive under.
///
/// Spring appends the declared version to the declared name unless the name
/// already carries it, which is why `User Interface Tutorial r22` is one field
/// and `Zero-K` plus `v1.14.8.0` is two. `GameType` has to match this exactly.
pub fn archive_name(modinfo: &str) -> (r: Option<String>)
    ensures
        match r {
            Some(x) => archive_name_spec(modinfo@) == Some(x@),
            None => archive_name_spec(modinfo@) is None,
        },
{
    proof {
        reveal_strlit("name");
        reveal_strlit("version");
    }
    let name = match lua_field(modinfo, "name") {
        Some(n) => n,
        None => return None,
    };
    if name.as_str().is_empty() {
        return None;
    }
    assert(name@.len() > 0);
    match lua_field(modinfo, "version") {
        Some(version) => {
            let nc = chars_of(name.as_str());
            let vc = chars_of(version.as_str());
            if vc.len() > 0 && !ends_with_chars(&nc, &vc) {
                let mut out = name;
                out.push(' ');
                out.push_str(version.as_str());
                Some(out)
            } else {
                Some(name)
            }
        },
        None => Some(name),
    }
}

// ---------------------------------------------------------------- units -----

/// The leading run of characters that can make up a Lua name.
pub open spec fn word_prefix(s: Seq<char>) -> Seq<char>
    decreases s.len(),
{
    if s.len() > 0 && word_char(s[0]) {
        seq![s[0]] + word_prefix(s.drop_first())
    } else {
        seq![]
    }
}

/// The internal name a unit definition registers itself under: the key of
/// the table it returns, `return { cloakraid = { ... } }`.
pub open spec fn table_key_spec(source: Seq<char>) -> Option<Seq<char>> {
    match find_from(source, "return"@, 0) {
        None => None,
        Some(after) => {
            let rest = trim_start(source.skip(after + "return"@.len()));
            if rest.len() == 0 || rest[0] != '{' {
                None
            } else {
                let key = word_prefix(trim_start(rest.drop_first()));
                if key.len() > 0 {
                    Some(key)
                } else {
                    None
                }
            }
        },
    }
}

/// The internal name a unit definition registers itself under.
///
/// Zero-K writes `return { cloakraid = { ... } }`, so the name is the table
/// key rather than a field. It agrees with the filename for all but one unit,
/// and `damagesinkrock.lua` defines `rocksink`, which is exactly the kind of
/// unit that would be silently unplaceable if this read the filename instead.
pub fn table_key(source: &str) -> (r: Option<String>)
    ensures
        match r {
            Some(x) => table_key_spec(source@) == Some(x@),
            None => table_key_spec(source@) is None,
        },
{
    let src = chars_of(source);
    let n = src.len();
    let ret = chars_of("return");
    let after = match find_from_exec(&src, &ret, 0) {
        Some(i) => i,
        None => return None,
    };
    proof {
        lemma_find_from(src@, ret@, 0);
    }
    assert(after + ret@.len() <= n);
    let tail = slice_chars(&src, after + ret.len(), n);
    assert(tail@ =~= source@.skip(after + "return"@.len()));
    let rest = trim_start_exec(&tail);
    if rest.len() == 0 || rest[0] != '{' {
        return None;
    }
    let inner = slice_chars(&rest, 1, rest.len());
    assert(inner@ =~= rest@.drop_first());
    let body = trim_start_exec(&inner);
    let mut k: usize = 0;
    assert(body@.skip(0) =~= body@);
    assert(body@.subrange(0, 0) + word_prefix(body@) =~= word_prefix(body@));
    while k < body.len() && word_char_exec(body[k])
        invariant
            k <= body@.len(),
            word_prefix(body@) == body@.subrange(0, k as int) + word_prefix(body@.skip(k as int)),
        decreases body@.len() - k,
    {
        assert(body@.skip(k as int).drop_first() =~= body@.skip(k + 1));
        assert(body@.subrange(0, k + 1) =~= body@.subrange(0, k as int) + seq![body@[k as int]]);
        k = k + 1;
    }
    assert(word_prefix(body@.skip(k as int)) =~= Seq::<char>::empty());
    assert(word_prefix(body@) =~= body@.subrange(0, k as int));
    if k == 0 {
        return None;
    }
    let key = slice_chars(&body, 0, k);
    Some(string_of(key.as_slice()))
}

/// The `[[name]]` entries of a table body, from `at` on.
pub open spec fn bracket_items(body: Seq<char>, at: int) -> Seq<Seq<char>>
    decreases body.len() - at,
{
    if at < 0 {
        seq![]
    } else {
        match find_from(body, seq!['[', '['], at) {
            None => seq![],
            Some(i) => {
                let start = i + 2;
                match find_from(body, seq![']', ']'], start) {
                    None => seq![],
                    Some(e) => {
                        proof {
                            lemma_find_from(body, seq!['[', '['], at);
                            lemma_find_from(body, seq![']', ']'], start);
                        }
                        seq![trim(body.subrange(start, e))] + bracket_items(body, e)
                    },
                }
            },
        }
    }
}

/// The units a definition says it can build: the `[[name]]` entries between
/// the first braces after `buildoptions`.
pub open spec fn build_options_spec(source: Seq<char>) -> Seq<Seq<char>> {
    match find_from(source, "buildoptions"@, 0) {
        None => seq![],
        Some(at) => {
            let rest = source.skip(at);
            match find_from(rest, seq!['{'], 0) {
                None => seq![],
                Some(open) => match find_from(rest, seq!['}'], open) {
                    None => seq![],
                    Some(close) => bracket_items(rest.subrange(open, close), 0),
                },
            }
        },
    }
}

/// The units a definition says it can build.
pub fn build_options(source: &str) -> (r: Vec<String>)
    ensures
        views(r@) == build_options_spec(source@),
{
    let src = chars_of(source);
    let word = chars_of("buildoptions");
    let at = match find_from_exec(&src, &word, 0) {
        Some(i) => i,
        None => return Vec::new(),
    };
    proof {
        lemma_find_from(src@, word@, 0);
    }
    let rest = slice_chars(&src, at, src.len());
    assert(rest@ =~= source@.skip(at as int));
    let lb = vec!['{'];
    let rb = vec!['}'];
    assert(lb@ =~= seq!['{']);
    assert(rb@ =~= seq!['}']);
    let open = match find_from_exec(&rest, &lb, 0) {
        Some(i) => i,
        None => return Vec::new(),
    };
    proof {
        lemma_find_from(rest@, lb@, 0);
    }
    let close = match find_from_exec(&rest, &rb, open) {
        Some(i) => i,
        None => return Vec::new(),
    };
    proof {
        lemma_find_from(rest@, rb@, open as int);
    }
    let body = slice_chars(&rest, open, close);
    let ob = vec!['[', '['];
    let cb = vec![']', ']'];
    assert(ob@ =~= seq!['[', '[']);
    assert(cb@ =~= seq![']', ']']);
    let mut out: Vec<String> = Vec::new();
    let mut pos: usize = 0;
    let bn = body.len();
    assert(body@.len() == bn);
    loop
        invariant_except_break
            bracket_items(body@, 0) == views(out@) + bracket_items(body@, pos as int),
        invariant
            bn == body@.len(),
            pos <= body@.len(),
            ob@ == seq!['[', '['],
            cb@ == seq![']', ']'],
        ensures
            bracket_items(body@, 0) == views(out@),
        decreases body@.len() - pos,
    {
        let i = match find_from_exec(&body, &ob, pos) {
            Some(i) => i,
            None => break ,
        };
        proof {
            lemma_find_from(body@, ob@, pos as int);
        }
        assert(i + 2 <= bn);
        let start = i + 2;
        let e = match find_from_exec(&body, &cb, start) {
            Some(e) => e,
            None => break ,
        };
        proof {
            lemma_find_from(body@, cb@, start as int);
        }
        let item = slice_chars(&body, start, e);
        let t = trim_exec(&item);
        let ghost before = views(out@);
        out.push(string_of(t.as_slice()));
        assert(views(out@) =~= before + seq![trim(body@.subrange(start as int, e as int))]);
        pos = e;
    }
    out
}

pub open spec fn rank_spec(name: Seq<char>) -> u8 {
    if starts_with(name, "factory"@) {
        0
    } else if starts_with(name, "plate"@) {
        1
    } else {
        2
    }
}

fn prefix_of(s: &Vec<char>, p: &str) -> (r: bool)
    ensures
        r == starts_with(s@, p@),
{
    let pc = chars_of(p);
    if pc.len() > s.len() {
        return false;
    }
    let r = crate::text::matches_at_exec(s, &pc, 0);
    assert(s@.subrange(0, pc@.len() as int) == s@.subrange(0, 0 + pc@.len() as int));
    r
}

/// Where a builder ranks when it claims a unit for its group: factories
/// first, then their plates, then everything else.
///
/// Load-bearing rather than tidy: `athena` builds a cross-section drawn from
/// six factories, so ranking builders alphabetically would let it absorb most
/// of the Cloakbot Factory's units.
pub fn builder_rank(name: &str) -> (r: u8)
    ensures
        r == rank_spec(name@),
{
    let cs = chars_of(name);
    if prefix_of(&cs, "factory") {
        0
    } else if prefix_of(&cs, "plate") {
        1
    } else {
        2
    }
}

/// Groups for what no builder claims, by the prefixes Zero-K names things
/// with; every commander carries `com`, and no other unit does.
pub open spec fn group_spec(name: Seq<char>) -> Seq<char> {
    if starts_with(name, "factory"@) || starts_with(name, "plate"@) {
        "Factories"@
    } else if starts_with(name, "turret"@) {
        "Defences"@
    } else if starts_with(name, "energy"@) {
        "Economy"@
    } else if starts_with(name, "static"@) {
        "Support Structures"@
    } else if starts_with(name, "chicken"@) {
        "Chickens"@
    } else if starts_with(name, "strider"@) {
        "Striders"@
    } else if starts_with(name, "dbg_"@) || starts_with(name, "fakeunit"@) || starts_with(
        name,
        "tiptest"@,
    ) || starts_with(name, "empiricaldps"@) || starts_with(name, "damagesink"@) {
        "Test and debug"@
    } else if find_from(name, "com"@, 0) is Some {
        "Commanders"@
    } else {
        "Other"@
    }
}

/// Groups for what no builder claims - half the roster, and the half a
/// scenario most wants: commanders, turrets, economy.
pub fn group_by_name(name: &str) -> (r: &'static str)
    ensures
        r@ == group_spec(name@),
{
    let cs = chars_of(name);
    if prefix_of(&cs, "factory") || prefix_of(&cs, "plate") {
        "Factories"
    } else if prefix_of(&cs, "turret") {
        "Defences"
    } else if prefix_of(&cs, "energy") {
        "Economy"
    } else if prefix_of(&cs, "static") {
        "Support Structures"
    } else if prefix_of(&cs, "chicken") {
        "Chickens"
    } else if prefix_of(&cs, "strider") {
        "Striders"
    } else if prefix_of(&cs, "dbg_") || prefix_of(&cs, "fakeunit") || prefix_of(&cs, "tiptest")
        || prefix_of(&cs, "empiricaldps") || prefix_of(&cs, "damagesink") {
        "Test and debug"
    } else if find_from_exec(&cs, &chars_of("com"), 0).is_some() {
        "Commanders"
    } else {
        "Other"
    }
}

// --------------------------------------------------------------- roster -----

/// Whether an archive entry is a unit definition: `units/*.lua`, in any case.
pub open spec fn unit_source_spec(path: Seq<char>) -> bool {
    starts_with(lowered(path), "units/"@) && ends_with(lowered(path), ".lua"@)
}

pub fn is_unit_source(path: &str) -> (r: bool)
    ensures
        r == unit_source_spec(path@),
{
    let low = lowered_exec(&chars_of(path));
    prefix_of(&low, "units/") && ends_with_chars(&low, &chars_of(".lua"))
}

/// Everything after the last `/`.
pub open spec fn after_last_slash(s: Seq<char>) -> Seq<char>
    decreases s.len(),
{
    if s.len() == 0 || s.last() == '/' {
        seq![]
    } else {
        after_last_slash(s.drop_last()).push(s.last())
    }
}

/// The file name of a definition without its `.lua`, or nothing.
pub open spec fn stem_spec(path: Seq<char>) -> Seq<char> {
    let f = after_last_slash(lowered(path));
    if ends_with(f, ".lua"@) {
        f.take(f.len() - ".lua"@.len())
    } else {
        seq![]
    }
}

/// The name a definition is placed by: its table key, else its file stem.
pub open spec fn entry_name(path: Seq<char>, source: Seq<char>) -> Seq<char> {
    match table_key_spec(source) {
        Some(k) => k,
        None => stem_spec(path),
    }
}

/// One definition read: its name, the title a player knows it by (the name
/// when none is given) and its description.
pub open spec fn parsed_unit(path: Seq<char>, source: Seq<char>) -> (Seq<char>, Seq<char>, Seq<char>) {
    let name = entry_name(path, source);
    (
        name,
        match lua_field_spec(source, "name"@) {
            Some(t) => t,
            None => name,
        },
        match lua_field_spec(source, "description"@) {
            Some(d) => d,
            None => seq![],
        },
    )
}

/// The definitions that name a unit, in archive order.
pub open spec fn parsed_units(entries: Seq<(Seq<char>, Seq<char>)>) -> Seq<(Seq<char>, Seq<char>, Seq<char>)>
    decreases entries.len(),
{
    if entries.len() == 0 {
        seq![]
    } else if entry_name(entries.last().0, entries.last().1).len() == 0 {
        parsed_units(entries.drop_last())
    } else {
        parsed_units(entries.drop_last()).push(parsed_unit(entries.last().0, entries.last().1))
    }
}

/// The definitions that build something, with what they build.
pub open spec fn builders_of(entries: Seq<(Seq<char>, Seq<char>)>) -> Seq<(Seq<char>, Seq<Seq<char>>)>
    decreases entries.len(),
{
    if entries.len() == 0 {
        seq![]
    } else {
        let (path, source) = entries.last();
        if entry_name(path, source).len() > 0 && build_options_spec(source).len() > 0 {
            builders_of(entries.drop_last()).push((entry_name(path, source), build_options_spec(source)))
        } else {
            builders_of(entries.drop_last())
        }
    }
}

pub open spec fn builder_key(name: Seq<char>) -> Seq<(u64, Seq<char>)> {
    seq![(rank_spec(name) as u64, name)]
}

/// Builders in the order they claim units: factories, plates, the rest, and
/// by name within each.
pub open spec fn builders_ranked(bs: Seq<(Seq<char>, Seq<Seq<char>>)>) -> Seq<(Seq<char>, Seq<Seq<char>>)> {
    sorted_keyed(bs.map_values(|b: (Seq<char>, Seq<Seq<char>>)| (builder_key(b.0), b)), false).map_values(
        |p: (Seq<(u64, Seq<char>)>, (Seq<char>, Seq<Seq<char>>))| p.1,
    )
}

/// The title of the last definition of that name.
pub open spec fn title_of(units: Seq<(Seq<char>, Seq<char>, Seq<char>)>, name: Seq<char>) -> Option<Seq<char>>
    decreases units.len(),
{
    if units.len() == 0 {
        None
    } else if units.last().0 == name {
        Some(units.last().1)
    } else {
        title_of(units.drop_last(), name)
    }
}

/// The group the first builder that builds `name` gives it: the builder's
/// title, or its name when it has none.
pub open spec fn claim(bs: Seq<(Seq<char>, Seq<Seq<char>>)>, units: Seq<(Seq<char>, Seq<char>, Seq<char>)>, name: Seq<char>) -> Option<Seq<char>>
    decreases bs.len(),
{
    if bs.len() == 0 {
        None
    } else if bs[0].1.contains(name) {
        Some(
            match title_of(units, bs[0].0) {
                Some(t) => t,
                None => bs[0].0,
            },
        )
    } else {
        claim(bs.drop_first(), units, name)
    }
}

/// "Other" and the debug units sort last: neither is what somebody opening
/// the palette is looking for.
pub open spec fn group_rank(group: Seq<char>) -> u64 {
    if group == "Other"@ {
        2
    } else if group == "Test and debug"@ {
        1
    } else {
        0
    }
}

pub open spec fn unit_key(u: (Seq<char>, Seq<char>, Seq<char>, Seq<char>)) -> Seq<(u64, Seq<char>)> {
    seq![(group_rank(u.3), u.3), (0u64, u.1)]
}

/// A unit with its group: the first ranked builder's claim on it, else the
/// group its name implies.
pub open spec fn grouped_unit(bs: Seq<(Seq<char>, Seq<Seq<char>>)>, units: Seq<(Seq<char>, Seq<char>, Seq<char>)>, u: (Seq<char>, Seq<char>, Seq<char>)) -> (Seq<char>, Seq<char>, Seq<char>, Seq<char>) {
    (
        u.0,
        u.1,
        u.2,
        match claim(bs, units, u.0) {
            Some(g) => g,
            None => group_spec(u.0),
        },
    )
}

/// The roster read out of the definitions: each unit grouped by the first
/// ranked builder that claims it, or by its name, then ordered by group rank,
/// group and title.
pub open spec fn roster_spec(entries: Seq<(Seq<char>, Seq<char>)>) -> Seq<(Seq<char>, Seq<char>, Seq<char>, Seq<char>)> {
    let units = parsed_units(entries);
    let bs = builders_ranked(builders_of(entries));
    let grouped = units.map_values(
        |u: (Seq<char>, Seq<char>, Seq<char>)| grouped_unit(bs, units, u),
    );
    sorted_keyed(
        grouped.map_values(|u: (Seq<char>, Seq<char>, Seq<char>, Seq<char>)| (unit_key(u), u)),
        false,
    ).map_values(
        |p: (Seq<(u64, Seq<char>)>, (Seq<char>, Seq<char>, Seq<char>, Seq<char>))| p.1,
    )
}

pub open spec fn source_views(s: Seq<(String, String)>) -> Seq<(Seq<char>, Seq<char>)> {
    s.map_values(|p: (String, String)| (p.0@, p.1@))
}

pub open spec fn unit_views(s: Seq<UnitDef>) -> Seq<(Seq<char>, Seq<char>, Seq<char>, Seq<char>)> {
    s.map_values(|u: UnitDef| u@)
}

pub open spec fn parsed_views(s: Seq<UnitDef>) -> Seq<(Seq<char>, Seq<char>, Seq<char>)> {
    s.map_values(|u: UnitDef| (u.name@, u.title@, u.description@))
}

pub open spec fn builder_views(s: Seq<(String, Vec<String>)>) -> Seq<(Seq<char>, Seq<Seq<char>>)> {
    s.map_values(|b: (String, Vec<String>)| (b.0@, views(b.1@)))
}

fn stem_exec(path: &str) -> (r: Vec<char>)
    ensures
        r@ == stem_spec(path@),
{
    let low = lowered_exec(&chars_of(path));
    let mut b: usize = low.len();
    assert(low@.subrange(0, b as int) =~= low@);
    assert(after_last_slash(low@) =~= after_last_slash(low@.subrange(0, b as int)) + low@.subrange(
        b as int,
        low@.len() as int,
    ));
    while b > 0 && low[b - 1] != '/'
        invariant
            b <= low@.len(),
            after_last_slash(low@) == after_last_slash(low@.subrange(0, b as int))
                + low@.subrange(b as int, low@.len() as int),
        decreases b,
    {
        assert(low@.subrange(0, b as int).drop_last() =~= low@.subrange(0, b - 1));
        assert(low@.subrange(b - 1, low@.len() as int) =~= seq![low@[b - 1]] + low@.subrange(
            b as int,
            low@.len() as int,
        ));
        b = b - 1;
    }
    assert(after_last_slash(low@.subrange(0, b as int)) =~= Seq::<char>::empty());
    let file = slice_chars(&low, b, low.len());
    assert(file@ =~= after_last_slash(low@));
    let lua = chars_of(".lua");
    if ends_with_chars(&file, &lua) {
        let stem = slice_chars(&file, 0, file.len() - lua.len());
        assert(stem@ =~= file@.take(file@.len() - ".lua"@.len()));
        stem
    } else {
        Vec::new()
    }
}

fn string_is_empty(s: &String) -> (r: bool)
    ensures
        r == (s@.len() == 0),
{
    s.as_str().is_empty()
}

/// Reads each definition: the units, and the builders among them.
fn parse_units(sources: &Vec<(String, String)>) -> (r: (Vec<UnitDef>, Vec<(String, Vec<String>)>))
    ensures
        parsed_views(r.0@) == parsed_units(source_views(sources@)),
        builder_views(r.1@) == builders_of(source_views(sources@)),
        forall|i: int| 0 <= i < r.0@.len() ==> (#[trigger] r.0@[i]).group@ == Seq::<char>::empty(),
{
    let ghost sv = source_views(sources@);
    let mut units: Vec<UnitDef> = Vec::new();
    let mut builders: Vec<(String, Vec<String>)> = Vec::new();
    let mut i: usize = 0;
    proof {
        reveal_strlit("name");
        reveal_strlit("description");
    }
    while i < sources.len()
        invariant
            i <= sources@.len(),
            sv == source_views(sources@),
            parsed_views(units@) == parsed_units(sv.take(i as int)),
            builder_views(builders@) == builders_of(sv.take(i as int)),
            forall|k: int| 0 <= k < units@.len() ==> (#[trigger] units@[k]).group@ == Seq::<char>::empty(),
            "name"@.len() > 0,
            "description"@.len() > 0,
        decreases sources@.len() - i,
    {
        let path = &sources[i].0;
        let source = &sources[i].1;
        assert(sv.take(i + 1).drop_last() =~= sv.take(i as int));
        assert(sv.take(i + 1).last() == (path@, source@));
        let name = match table_key(source.as_str()) {
            Some(k) => k,
            None => string_of(stem_exec(path.as_str()).as_slice()),
        };
        assert(name@ == entry_name(path@, source@));
        if !string_is_empty(&name) {
            let options = build_options(source.as_str());
            if options.len() > 0 {
                let ghost before = builder_views(builders@);
                builders.push((name.clone(), options));
                assert(builder_views(builders@) =~= before.push(
                    (entry_name(path@, source@), build_options_spec(source@)),
                ));
            }
            let title = match lua_field(source.as_str(), "name") {
                Some(t) => t,
                None => name.clone(),
            };
            let description = match lua_field(source.as_str(), "description") {
                Some(d) => d,
                None => String::new(),
            };
            let ghost before = parsed_views(units@);
            units.push(UnitDef { name, title, description, group: String::new() });
            assert(parsed_views(units@) =~= before.push(parsed_unit(path@, source@)));
        }
        i = i + 1;
    }
    assert(sv.take(i as int) =~= sv);
    (units, builders)
}

/// Builders in claiming order.
fn rank_builders(builders: Vec<(String, Vec<String>)>) -> (r: Vec<(String, Vec<String>)>)
    ensures
        builder_views(r@) == builders_ranked(builder_views(builders@)),
{
    let ghost all = builders@;
    let mut rest = builders;
    let mut keyed: Vec<(Vec<(u64, Vec<char>)>, (String, Vec<String>))> = Vec::new();
    let total = rest.len();
    let mut i: usize = 0;
    let ghost kf = |b: (String, Vec<String>)| (builder_key(b.0@), b);
    while rest.len() > 0
        invariant
            i + rest@.len() == total,
            total == all.len(),
            rest@ == all.skip(i as int),
            keyed_view(keyed@) == all.take(i as int).map_values(
                |b: (String, Vec<String>)| (builder_key(b.0@), b),
            ),
        decreases rest@.len(),
    {
        let ghost old_rest = rest@;
        let b = rest.remove(0);
        assert(b == all[i as int]) by {
            assert(old_rest[0] == all.skip(i as int)[0]);
        }
        assert(rest@ =~= all.skip(i + 1));
        let cs = chars_of(b.0.as_str());
        let rank = builder_rank(b.0.as_str());
        let k = vec![(rank as u64, cs)];
        assert(key_view(k@) =~= builder_key(b.0@));
        let ghost before = keyed@;
        keyed.push((k, b));
        assert(keyed_view(keyed@) =~= keyed_view(before).push((builder_key(b.0@), b)));
        assert(all.take(i + 1) =~= all.take(i as int).push(b));
        i = i + 1;
        assert(keyed_view(keyed@) =~= all.take(i as int).map_values(
            |b: (String, Vec<String>)| (builder_key(b.0@), b),
        ));
    }
    assert(all.take(i as int) =~= all);
    let mut sorted = sort_keyed(keyed, false);
    let ghost sv = keyed_view(sorted@);
    let mut out: Vec<(String, Vec<String>)> = Vec::new();
    let count = sorted.len();
    let mut j: usize = 0;
    while sorted.len() > 0
        invariant
            j + sorted@.len() == count,
            count == sv.len(),
            keyed_view(sorted@) == sv.skip(j as int),
            out@ == sv.take(j as int).map_values(
                |p: (Seq<(u64, Seq<char>)>, (String, Vec<String>))| p.1,
            ),
        decreases sorted@.len(),
    {
        let ghost old_sorted = sorted@;
        let item = sorted.remove(0);
        assert(item.1 == sv[j as int].1) by {
            assert(keyed_view(old_sorted)[0] == sv.skip(j as int)[0]);
        }
        assert(keyed_view(sorted@) =~= sv.skip(j + 1)) by {
            assert(sorted@ =~= old_sorted.drop_first());
            assert(keyed_view(sorted@) =~= keyed_view(old_sorted).drop_first());
        }
        out.push(item.1);
        j = j + 1;
        assert(out@ =~= sv.take(j as int).map_values(
            |p: (Seq<(u64, Seq<char>)>, (String, Vec<String>))| p.1,
        ));
    }
    assert(sv.take(j as int) =~= sv);
    proof {
        let f = |b: (String, Vec<String>)| (b.0@, views(b.1@));
        let ks = all.map_values(|b: (String, Vec<String>)| (builder_key(b.0@), b));
        lemma_sorted_map(ks, f, false);
        assert(map_items(ks, f) =~= builder_views(all).map_values(
            |b: (Seq<char>, Seq<Seq<char>>)| (builder_key(b.0), b),
        ));
        assert(builder_views(out@) =~= map_items(sv, f).map_values(
            |p: (Seq<(u64, Seq<char>)>, (Seq<char>, Seq<Seq<char>>))| p.1,
        ));
    }
    out
}

fn title_lookup(units: &Vec<UnitDef>, name: &Vec<char>) -> (r: Option<String>)
    ensures
        match r {
            Some(t) => title_of(parsed_views(units@), name@) == Some(t@),
            None => title_of(parsed_views(units@), name@) is None,
        },
{
    let ghost pv = parsed_views(units@);
    let mut n: usize = units.len();
    assert(pv.take(n as int) =~= pv);
    while n > 0
        invariant
            n <= units@.len(),
            pv == parsed_views(units@),
            title_of(pv, name@) == title_of(pv.take(n as int), name@),
        decreases n,
    {
        assert(pv.take(n as int).drop_last() =~= pv.take(n - 1));
        let cs = chars_of(units[n - 1].name.as_str());
        if text_eq_exec(&cs, name) {
            return Some(units[n - 1].title.clone());
        }
        n = n - 1;
    }
    None
}

fn builds(options: &Vec<String>, name: &Vec<char>) -> (r: bool)
    ensures
        r == views(options@).contains(name@),
{
    let mut i: usize = 0;
    while i < options.len()
        invariant
            i <= options@.len(),
            forall|k: int| 0 <= k < i ==> views(options@)[k] != name@,
        decreases options@.len() - i,
    {
        let cs = chars_of(options[i].as_str());
        if text_eq_exec(&cs, name) {
            assert(views(options@)[i as int] == name@);
            return true;
        }
        i = i + 1;
    }
    false
}

fn claim_exec(bs: &Vec<(String, Vec<String>)>, units: &Vec<UnitDef>, name: &Vec<char>) -> (r: Option<String>)
    ensures
        match r {
            Some(g) => claim(builder_views(bs@), parsed_views(units@), name@) == Some(g@),
            None => claim(builder_views(bs@), parsed_views(units@), name@) is None,
        },
{
    let ghost bv = builder_views(bs@);
    let ghost pv = parsed_views(units@);
    let mut i: usize = 0;
    assert(bv.skip(0) =~= bv);
    while i < bs.len()
        invariant
            i <= bs@.len(),
            bv == builder_views(bs@),
            pv == parsed_views(units@),
            claim(bv, pv, name@) == claim(bv.skip(i as int), pv, name@),
        decreases bs@.len() - i,
    {
        assert(bv.skip(i as int)[0] == bv[i as int]);
        assert(bv.skip(i as int).drop_first() =~= bv.skip(i + 1));
        if builds(&bs[i].1, name) {
            let builder = chars_of(bs[i].0.as_str());
            return match title_lookup(units, &builder) {
                Some(t) => Some(t),
                None => Some(bs[i].0.clone()),
            };
        }
        i = i + 1;
    }
    None
}

fn group_rank_exec(group: &Vec<char>) -> (r: u64)
    ensures
        r == group_rank(group@),
{
    let other = chars_of("Other");
    let debug = chars_of("Test and debug");
    if text_eq_exec(group, &other) {
        2
    } else if text_eq_exec(group, &debug) {
        1
    } else {
        0
    }
}

/// The roster read out of a game archive's unit definitions, given as
/// `(entry path, source)` in archive order.
///
/// Each unit is grouped by the first builder that claims it - factories
/// first, then their plates, then everything else, by name within each - and
/// by its name when no builder does; then ordered by group, with "Other" and
/// the debug units last, and by title within a group.
pub fn unit_defs(sources: Vec<(String, String)>) -> (r: Vec<UnitDef>)
    ensures
        unit_views(r@) == roster_spec(source_views(sources@)),
{
    let ghost entries = source_views(sources@);
    let (units, builders) = parse_units(&sources);
    let ranked = rank_builders(builders);
    let ghost pv = parsed_views(units@);
    let ghost bs = builders_ranked(builders_of(entries));
    let ghost grouped = pv.map_values(
        |u: (Seq<char>, Seq<char>, Seq<char>)| grouped_unit(bs, pv, u),
    );
    let mut keyed: Vec<(Vec<(u64, Vec<char>)>, UnitDef)> = Vec::new();
    let mut i: usize = 0;
    while i < units.len()
        invariant
            i <= units@.len(),
            pv == parsed_views(units@),
            bs == builder_views(ranked@),
            grouped == pv.map_values(
                |u: (Seq<char>, Seq<char>, Seq<char>)| grouped_unit(bs, pv, u),
            ),
            keyed@.len() == i,
            forall|k: int|
                0 <= k < i ==> (#[trigger] keyed@[k]).1@ == grouped[k] && key_view(keyed@[k].0@)
                    == unit_key(grouped[k]),
        decreases units@.len() - i,
    {
        let u = &units[i];
        let name = chars_of(u.name.as_str());
        let group = match claim_exec(&ranked, &units, &name) {
            Some(g) => g,
            None => group_by_name(u.name.as_str()).to_string(),
        };
        let gc = chars_of(group.as_str());
        let key = vec![(group_rank_exec(&gc), gc), (0u64, chars_of(u.title.as_str()))];
        let def = UnitDef {
            name: u.name.clone(),
            title: u.title.clone(),
            description: u.description.clone(),
            group,
        };
        assert(pv[i as int] == (u.name@, u.title@, u.description@));
        assert(grouped[i as int] == grouped_unit(bs, pv, pv[i as int]));
        assert(def@ == grouped[i as int]);
        assert(key_view(key@) =~= unit_key(grouped[i as int]));
        keyed.push((key, def));
        i = i + 1;
    }
    let ghost ks = grouped.map_values(
        |u: (Seq<char>, Seq<char>, Seq<char>, Seq<char>)| (unit_key(u), u),
    );
    let ghost f = |u: UnitDef| u@;
    assert(map_items(keyed_view(keyed@), f) =~= ks);
    let mut sorted = sort_keyed(keyed, false);
    let ghost sv = keyed_view(sorted@);
    let mut out: Vec<UnitDef> = Vec::new();
    let count = sorted.len();
    let mut j: usize = 0;
    while sorted.len() > 0
        invariant
            j + sorted@.len() == count,
            count == sv.len(),
            keyed_view(sorted@) == sv.skip(j as int),
            out@ == sv.take(j as int).map_values(|p: (Seq<(u64, Seq<char>)>, UnitDef)| p.1),
        decreases sorted@.len(),
    {
        let ghost old_sorted = sorted@;
        let item = sorted.remove(0);
        assert(item.1 == sv[j as int].1) by {
            assert(keyed_view(old_sorted)[0] == sv.skip(j as int)[0]);
        }
        assert(keyed_view(sorted@) =~= sv.skip(j + 1)) by {
            assert(sorted@ =~= old_sorted.drop_first());
            assert(keyed_view(sorted@) =~= keyed_view(old_sorted).drop_first());
        }
        out.push(item.1);
        j = j + 1;
        assert(out@ =~= sv.take(j as int).map_values(|p: (Seq<(u64, Seq<char>)>, UnitDef)| p.1));
    }
    assert(sv.take(j as int) =~= sv);
    proof {
        lemma_sorted_map(keyed_view(keyed@), f, false);
        assert(unit_views(out@) =~= map_items(sv, f).map_values(
            |p: (Seq<(u64, Seq<char>)>, (Seq<char>, Seq<char>, Seq<char>, Seq<char>))| p.1,
        ));
    }
    out
}

// ----------------------------------------------------------------- maps -----

/// A map name with case, spaces, underscores and hyphens set aside: the
/// catalogue says "Comet Catcher Redux" where the file is
/// `comet_catcher_redux.sd7`.
pub open spec fn normal_name(s: Seq<char>) -> Seq<char>
    decreases s.len(),
{
    if s.len() == 0 {
        seq![]
    } else if s.last() == ' ' || s.last() == '_' || s.last() == '-' {
        normal_name(s.drop_last())
    } else {
        normal_name(s.drop_last()).push(crate::text::lower(s.last()))
    }
}

fn normal_exec(s: &str) -> (r: Vec<char>)
    ensures
        r@ == normal_name(s@),
{
    let cs = chars_of(s);
    let mut out: Vec<char> = Vec::new();
    let mut i: usize = 0;
    while i < cs.len()
        invariant
            i <= cs@.len(),
            cs@ == s@,
            out@ == normal_name(cs@.subrange(0, i as int)),
        decreases cs@.len() - i,
    {
        assert(cs@.subrange(0, i + 1).drop_last() =~= cs@.subrange(0, i as int));
        let c = cs[i];
        if !(c == ' ' || c == '_' || c == '-') {
            out.push(crate::text::lower_exec(c));
        }
        i = i + 1;
    }
    assert(cs@.subrange(0, cs@.len() as int) =~= cs@);
    out
}

/// Whether a catalogue name matches an installed archive, neither case nor
/// spaces, underscores or hyphens counting.
pub fn map_is_installed(installed: &[String], name: &str) -> (r: bool)
    ensures
        r == exists|i: int|
            0 <= i < installed@.len() && normal_name(#[trigger] installed@[i]@) == normal_name(name@),
{
    let wanted = normal_exec(name);
    let mut i: usize = 0;
    while i < installed.len()
        invariant
            i <= installed@.len(),
            wanted@ == normal_name(name@),
            forall|k: int| 0 <= k < i ==> normal_name(#[trigger] installed@[k]@) != normal_name(name@),
        decreases installed@.len() - i,
    {
        let m = normal_exec(installed[i].as_str());
        if text_eq_exec(&m, &wanted) {
            return true;
        }
        i = i + 1;
    }
    false
}

// ---------------------------------------------------------------- games -----

/// Whether a file extension names an archive this can read: a `.sdz` is a
/// zip. `.sd7` archives are 7-zip, and are skipped rather than mis-reported.
pub fn is_game_archive(ext: &str) -> (r: bool)
    ensures
        r == (lowered(ext@) == "sdz"@),
{
    let low = lowered_exec(&chars_of(ext));
    text_eq_exec(&low, &chars_of("sdz"))
}

/// Whether a file extension names a map archive.
pub fn is_map_archive(ext: &str) -> (r: bool)
    ensures
        r == (lowered(ext@) == "sd7"@ || lowered(ext@) == "sdz"@ || lowered(ext@) == "smf"@),
{
    let low = lowered_exec(&chars_of(ext));
    text_eq_exec(&low, &chars_of("sd7")) || text_eq_exec(&low, &chars_of("sdz")) || text_eq_exec(
        &low,
        &chars_of("smf"),
    )
}

/// Archives in the order of their names.
pub open spec fn archives_sorted(archives: Seq<GameArchive>) -> Seq<GameArchive> {
    sorted_keyed(archives.map_values(|a: GameArchive| (plain_key(a.name@), a)), false).map_values(
        |p: (Seq<(u64, Seq<char>)>, GameArchive)| p.1,
    )
}

/// Archives in the order of their names: a stable sort.
pub fn sort_archives(archives: Vec<GameArchive>) -> (r: Vec<GameArchive>)
    ensures
        r@ == archives_sorted(archives@),
{
    let ghost all = archives@;
    let mut rest = archives;
    let mut keyed: Vec<(Vec<(u64, Vec<char>)>, GameArchive)> = Vec::new();
    let total = rest.len();
    let mut i: usize = 0;
    while rest.len() > 0
        invariant
            i + rest@.len() == total,
            total == all.len(),
            rest@ == all.skip(i as int),
            keyed_view(keyed@) == all.take(i as int).map_values(
                |a: GameArchive| (plain_key(a.name@), a),
            ),
        decreases rest@.len(),
    {
        let ghost old_rest = rest@;
        let a = rest.remove(0);
        assert(a == all[i as int]) by {
            assert(old_rest[0] == all.skip(i as int)[0]);
        }
        assert(rest@ =~= all.skip(i + 1));
        let k = vec![(0u64, chars_of(a.name.as_str()))];
        assert(key_view(k@) =~= plain_key(a.name@));
        let ghost before = keyed@;
        let ghost kv = key_view(k@);
        keyed.push((k, a));
        assert(keyed_view(keyed@) =~= keyed_view(before).push((kv, a)));
        assert(all.take(i + 1) =~= all.take(i as int).push(a));
        i = i + 1;
        assert(keyed_view(keyed@) =~= all.take(i as int).map_values(
            |a: GameArchive| (plain_key(a.name@), a),
        ));
    }
    assert(all.take(i as int) =~= all);
    let mut sorted = sort_keyed(keyed, false);
    let ghost sv = keyed_view(sorted@);
    let mut out: Vec<GameArchive> = Vec::new();
    let count = sorted.len();
    let mut j: usize = 0;
    while sorted.len() > 0
        invariant
            j + sorted@.len() == count,
            count == sv.len(),
            keyed_view(sorted@) == sv.skip(j as int),
            out@ == sv.take(j as int).map_values(|p: (Seq<(u64, Seq<char>)>, GameArchive)| p.1),
        decreases sorted@.len(),
    {
        let ghost old_sorted = sorted@;
        let item = sorted.remove(0);
        assert(item.1 == sv[j as int].1) by {
            assert(keyed_view(old_sorted)[0] == sv.skip(j as int)[0]);
        }
        assert(keyed_view(sorted@) =~= sv.skip(j + 1)) by {
            assert(sorted@ =~= old_sorted.drop_first());
            assert(keyed_view(sorted@) =~= keyed_view(old_sorted).drop_first());
        }
        out.push(item.1);
        j = j + 1;
        assert(out@ =~= sv.take(j as int).map_values(|p: (Seq<(u64, Seq<char>)>, GameArchive)| p.1));
    }
    assert(sv.take(j as int) =~= sv);
    out
}

/// The position of the first archive whose name starts with "Zero-K", in
/// any case.
pub open spec fn first_zero_k(names: Seq<Seq<char>>) -> Option<int>
    decreases names.len(),
{
    if names.len() == 0 {
        None
    } else {
        match first_zero_k(names.drop_last()) {
            Some(i) => Some(i),
            None => if starts_with(lowered(names.last()), "zero-k"@) {
                Some(names.len() - 1)
            } else {
                None
            },
        }
    }
}

pub open spec fn archive_names(archives: Seq<GameArchive>) -> Seq<Seq<char>> {
    archives.map_values(|a: GameArchive| a.name@)
}

/// Which archive is the base game: the first whose name starts with
/// "Zero-K", else the first there is.
pub open spec fn base_index(names: Seq<Seq<char>>) -> Option<int> {
    match first_zero_k(names) {
        Some(i) => Some(i),
        None => if names.len() > 0 {
            Some(0)
        } else {
            None
        },
    }
}

fn base_index_exec(archives: &Vec<GameArchive>) -> (r: Option<usize>)
    ensures
        match r {
            Some(i) => base_index(archive_names(archives@)) == Some(i as int) && i < archives@.len(),
            None => base_index(archive_names(archives@)) is None,
        },
{
    let ghost names = archive_names(archives@);
    let mut i: usize = 0;
    while i < archives.len()
        invariant
            i <= archives@.len(),
            names == archive_names(archives@),
            first_zero_k(names.take(i as int)) is None,
        decreases archives@.len() - i,
    {
        assert(names.take(i + 1).drop_last() =~= names.take(i as int));
        let low = lowered_exec(&chars_of(archives[i].name.as_str()));
        if prefix_of(&low, "zero-k") {
            assert(first_zero_k(names.take(i + 1)) == Some(i as int));
            let mut k: usize = i + 1;
            while k < archives.len()
                invariant
                    i < k <= archives@.len(),
                    names == archive_names(archives@),
                    first_zero_k(names.take(k as int)) == Some(i as int),
                decreases archives@.len() - k,
            {
                assert(names.take(k + 1).drop_last() =~= names.take(k as int));
                k = k + 1;
            }
            assert(names.take(k as int) =~= names);
            return Some(i);
        }
        i = i + 1;
    }
    assert(names.take(i as int) =~= names);
    if archives.len() > 0 {
        Some(0)
    } else {
        None
    }
}

/// The base game, as opposed to a mutator sitting beside it.
///
/// Zero-K's own archive is the one whose name starts with "Zero-K"; a mission
/// mutator is named after the mission. When nothing matches, the first
/// archive is returned rather than none, because an install with exactly one
/// game in it should not need the author to know this rule.
pub fn base_game(archives: Vec<GameArchive>) -> (r: Option<GameArchive>)
    ensures
        match base_index(archive_names(archives@)) {
            Some(i) => r == Some(archives@[i]),
            None => r is None,
        },
{
    let mut archives = archives;
    match base_index_exec(&archives) {
        Some(i) => Some(archives.remove(i)),
        None => None,
    }
}

/// Everything the editor needs to know about the install, from what was
/// found on disk: engine versions newest first, games, AIs and maps. The
/// defaults are the newest engine and the base game's name.
pub fn game_info(engines: Vec<String>, games: Vec<GameArchive>, ais: Vec<String>, maps: Vec<String>) -> (r: GameInfo)
    ensures
        r.engines == engines,
        r.games == games,
        r.ais == ais,
        r.maps == maps,
        match r.engine {
            Some(e) => engines@.len() > 0 && e@ == engines@[0]@,
            None => engines@.len() == 0,
        },
        match base_index(archive_names(games@)) {
            Some(i) => r.game matches Some(g) && g@ == games@[i].name@,
            None => r.game is None,
        },
{
    let engine = if engines.len() > 0 {
        Some(engines[0].clone())
    } else {
        None
    };
    let game = match base_index_exec(&games) {
        Some(i) => Some(games[i].name.clone()),
        None => None,
    };
    GameInfo { engines, games, ais, maps, engine, game }
}

/// Sorted names, each once: what a directory listing of maps becomes.
pub open spec fn unique_sorted(names: Seq<String>) -> Seq<String> {
    without_adjacent_repeats(strings_sorted(names, false, false))
}

/// `Vec::dedup`: each run of equal names kept once.
pub open spec fn without_adjacent_repeats(names: Seq<String>) -> Seq<String>
    decreases names.len(),
{
    if names.len() == 0 {
        seq![]
    } else if names.len() >= 2 && names[names.len() - 2]@ == names.last()@ {
        without_adjacent_repeats(names.drop_last())
    } else {
        without_adjacent_repeats(names.drop_last()).push(names.last())
    }
}

/// Map names as the editor lists them: in text order, each once.
pub fn map_names(stems: Vec<String>) -> (r: Vec<String>)
    ensures
        r@ == unique_sorted(stems@),
{
    let sorted = sort_strings(stems, false, false);
    let ghost all = sorted@;
    let mut rest = sorted;
    let mut out: Vec<String> = Vec::new();
    let mut prev: Vec<char> = Vec::new();
    let total = rest.len();
    let mut i: usize = 0;
    while rest.len() > 0
        invariant
            i + rest@.len() == total,
            total == all.len(),
            rest@ == all.skip(i as int),
            out@ == without_adjacent_repeats(all.take(i as int)),
            i > 0 ==> prev@ == all[i - 1]@,
        decreases rest@.len(),
    {
        let ghost old_rest = rest@;
        let n = rest.remove(0);
        assert(n == all[i as int]) by {
            assert(old_rest[0] == all.skip(i as int)[0]);
        }
        assert(rest@ =~= all.skip(i + 1));
        let cs = chars_of(n.as_str());
        let ghost t = all.take(i + 1);
        assert(t.drop_last() =~= all.take(i as int));
        assert(t.last() == n);
        if i > 0 && text_eq_exec(&prev, &cs) {
            assert(t[t.len() - 2] == all[i - 1]);
        } else {
            proof {
                if i > 0 {
                    assert(t[t.len() - 2] == all[i - 1]);
                }
            }
            out.push(n);
        }
        prev = cs;
        i = i + 1;
    }
    assert(all.take(i as int) =~= all);
    out
}

// --------------------------------------------------------------- roster -----

/// The commit of Zero-K that the roster shipped with the program was read
/// from.
pub const ROSTER_PIN: &'static str = "32c1eca4e75c8c49161edda37ef5c391b9c01371";

/// Where a vendored roster says it came from.
pub open spec fn vendored_source() -> Seq<char> {
    "Splaunch's vendored copy of Zero-K ("@ + ROSTER_PIN@.take(7) + ")"@
}

/// The palette's units: the installed game's when it yielded any, because it
/// is authoritative and matches what will actually spawn; the copy shipped
/// with the program otherwise. Which one answered travels with the units.
pub fn roster_from(installed: Option<Vec<UnitDef>>, vendored: Vec<UnitDef>) -> (r: Roster)
    ensures
        match installed {
            Some(units) => if units@.len() > 0 {
                r.units == units && r.source@ == "the installed game"@
            } else {
                r.units == vendored && r.source@ == vendored_source()
            },
            None => r.units == vendored && r.source@ == vendored_source(),
        },
{
    match installed {
        Some(units) => {
            if units.len() > 0 {
                return Roster { source: "the installed game".to_string(), units };
            }
        },
        None => {},
    }
    proof {
        reveal_strlit("32c1eca4e75c8c49161edda37ef5c391b9c01371");
    }
    let pin = chars_of(ROSTER_PIN);
    let short = slice_chars(&pin, 0, 7);
    let mut source = "Splaunch's vendored copy of Zero-K (".to_string();
    source.push_str(string_of(short.as_slice()).as_str());
    source.push_str(")");
    assert(source@ =~= vendored_source());
    Roster { source, units: vendored }
}

// ------------------------------------------------------------- archives -----

/// An archive's unit definitions: the `units/*.lua` entries, in any case,
/// that read as text, as `(path, source)` in archive order.
pub open spec fn unit_sources(es: Seq<(Seq<char>, Option<Seq<char>>)>) -> Seq<(Seq<char>, Seq<char>)>
    decreases es.len(),
{
    if es.len() == 0 {
        seq![]
    } else {
        let e = es.last();
        match e.1 {
            Some(text) => if unit_source_spec(e.0) {
                unit_sources(es.drop_last()).push((e.0, text))
            } else {
                unit_sources(es.drop_last())
            },
            None => unit_sources(es.drop_last()),
        }
    }
}

/// Every unit an archive defines, read out of its bytes: the roster its unit
/// definitions make, or the error that keeps the archive from being read.
pub fn read_unit_defs(archive: &[u8]) -> (r: Result<Vec<UnitDef>, String>)
    ensures
        match r {
            Ok(units) => archive_entries(archive@) matches Ok(es) && unit_views(units@) == roster_spec(
                unit_sources(es),
            ),
            Err(e) => archive_entries(archive@) == Err::<Seq<(Seq<char>, Option<Seq<char>>)>, Seq<char>>(
                e@,
            ),
        },
{
    let mut zip = match open_archive(archive) {
        Ok(a) => a,
        Err(e) => return Err(e),
    };
    let ghost es = archive_contents(zip);
    let n = entry_count(&zip);
    let mut sources: Vec<(String, String)> = Vec::new();
    let mut i: usize = 0;
    assert(es.take(0) =~= Seq::<(Seq<char>, Option<Seq<char>>)>::empty());
    while i < n
        invariant
            archive_contents(zip) == es,
            archive_entries(archive@) == Ok::<Seq<(Seq<char>, Option<Seq<char>>)>, Seq<char>>(es),
            n == es.len(),
            i <= n,
            source_views(sources@) == unit_sources(es.take(i as int)),
        decreases n - i,
    {
        assert(es.take(i + 1).drop_last() =~= es.take(i as int));
        assert(es.take(i + 1).last() == es[i as int]);
        if let Some(name) = name_at(&zip, i) {
            if is_unit_source(name.as_str()) {
                if let Some(text) = text_at(&mut zip, i) {
                    let ghost before = sources@;
                    sources.push((name, text));
                    assert(source_views(sources@) =~= source_views(before).push((es[i as int].0, text@)));
                }
            }
        }
        i = i + 1;
    }
    assert(es.take(n as int) =~= es);
    Ok(unit_defs(sources))
}

/// The first of the first `n` entries whose name is `name`, ignoring ASCII
/// case.
pub open spec fn first_named(es: Seq<(Seq<char>, Option<Seq<char>>)>, name: Seq<char>, n: nat) -> Option<int>
    decreases n,
{
    if n == 0 {
        None
    } else {
        match first_named(es, name, (n - 1) as nat) {
            Some(k) => Some(k),
            None => if n - 1 < es.len() && lowered(es[n - 1].0) == lowered(name) {
                Some(n - 1)
            } else {
                None
            },
        }
    }
}

/// The text of an archive's `modinfo.lua`: the first entry of that name,
/// ignoring ASCII case, since Spring's file system does and archives
/// disagree.
pub open spec fn modinfo_spec(bytes: Seq<u8>) -> Option<Seq<char>> {
    match archive_entries(bytes) {
        Ok(es) => match first_named(es, "modinfo.lua"@, es.len()) {
            Some(k) => es[k].1,
            None => None,
        },
        Err(_) => None,
    }
}

/// `modinfo.lua` read out of an archive's bytes, if it has one that reads.
pub fn modinfo_of(archive: &[u8]) -> (r: Option<String>)
    ensures
        match r {
            Some(text) => modinfo_spec(archive@) == Some(text@),
            None => modinfo_spec(archive@) is None,
        },
{
    let mut zip = match open_archive(archive) {
        Ok(a) => a,
        Err(_) => return None,
    };
    let ghost es = archive_contents(zip);
    let n = entry_count(&zip);
    let wanted = lowered_exec(&chars_of("modinfo.lua"));
    let mut i: usize = 0;
    while i < n
        invariant
            archive_contents(zip) == es,
            archive_entries(archive@) == Ok::<Seq<(Seq<char>, Option<Seq<char>>)>, Seq<char>>(es),
            n == es.len(),
            i <= n,
            wanted@ == lowered("modinfo.lua"@),
            first_named(es, "modinfo.lua"@, i as nat) is None,
        decreases n - i,
    {
        if let Some(name) = name_at(&zip, i) {
            if text_eq_exec(&lowered_exec(&chars_of(name.as_str())), &wanted) {
                assert(first_named(es, "modinfo.lua"@, (i + 1) as nat) == Some(i as int));
                assert(first_named(es, "modinfo.lua"@, es.len()) == Some(i as int)) by {
                    lemma_first_named_stays(es, "modinfo.lua"@, (i + 1) as nat, es.len());
                }
                return text_at(&mut zip, i);
            }
        }
        i = i + 1;
    }
    None
}

proof fn lemma_first_named_stays(es: Seq<(Seq<char>, Option<Seq<char>>)>, name: Seq<char>, m: nat, n: nat)
    requires
        m <= n,
        first_named(es, name, m) is Some,
    ensures
        first_named(es, name, n) == first_named(es, name, m),
    decreases n - m,
{
    if m < n {
        lemma_first_named_stays(es, name, m, (n - 1) as nat);
    }
}

} // verus!
