//! What holds of every scenario and of every list the library builds,
//! rather than of one call: problems read as sentences, engines come newest
//! first and each once, the catalogue yields only usable maps, archive names
//! carry their version, and the palette and map lists keep their order.
use vstd::prelude::*;

use crate::game::{
    archive_name_spec, builders_of, builders_ranked, digit_run, first_occurrences, group_rank,
    grouped_unit, lua_field_spec, name_key, number_or_zero, text_run, normal_name, parsed_units, roster_spec, strings_sorted,
    unique_sorted, unit_key, version_key_spec, views, without_adjacent_repeats,
};
use crate::maps::{
    catalogue_from, element_spec, ends_with, item_close, item_open, item_spec,
    lemma_item_tags_differ, side_spec,
};
use crate::order::{
    goes_before, key_less, law_sorting_orders, law_sorting_reorders_only, lemma_text_less_irrefl,
    lemma_text_less_total, lemma_text_less_trans, sorted_keyed, text_less,
};
use crate::scenario::{
    allies_of, human_team, insert_sorted, orphaned, team_units, Placed, Team, first_orphan, has_player, is_blank, one_sided, orphan_problem, problems_spec, Scenario,
};
use crate::text::{
    all_digits, decimal, digit_char, digits_value, find_from, is_digit, lemma_decimal_digits,
    lemma_find_from, lower, lowered, parse_u32_spec, parse_u64_spec, trim, without_plus,
};

verus! {

broadcast use vstd::string::group_string_axioms;

// ------------------------------------------------------------- problems -----

/// A sentence: it ends with a full stop.
pub open spec fn sentence(s: Seq<char>) -> bool {
    s.len() > 0 && s.last() == '.'
}

pub open spec fn all_sentences(ps: Seq<Seq<char>>) -> bool {
    forall|i: int| 0 <= i < ps.len() ==> sentence(#[trigger] ps[i])
}

proof fn lemma_sentences_concat(a: Seq<Seq<char>>, b: Seq<Seq<char>>)
    requires
        all_sentences(a),
        all_sentences(b),
    ensures
        all_sentences(a + b),
{
    assert forall|i: int| 0 <= i < (a + b).len() implies sentence(#[trigger] (a + b)[i]) by {
        if i >= a.len() {
            assert((a + b)[i] == b[i - a.len()]);
            assert(sentence(b[i - a.len()]));
        } else {
            assert((a + b)[i] == a[i]);
            assert(sentence(a[i]));
        }
    }
}

proof fn lemma_sentence_ends(prefix: Seq<char>, tail: Seq<char>)
    requires
        sentence(tail),
    ensures
        sentence(prefix + tail),
{
    assert((prefix + tail).last() == tail.last());
}

/// Whatever is wrong with a scenario is said in sentences a person can act
/// on, never in codes: every problem ends with a full stop.
pub proof fn law_problems_are_sentences(s: Scenario)
    ensures
        all_sentences(problems_spec(s)),
{
    reveal_strlit("No map chosen.");
    reveal_strlit("No teams.");
    reveal_strlit("No player team - somebody has to be you.");
    reveal_strlit("Every team is on the same side, so the game ends immediately.");
    reveal_strlit("Nothing placed yet.");
    reveal_strlit(", which does not exist.");
    let p1: Seq<Seq<char>> = if is_blank(s.map@) {
        seq!["No map chosen."@]
    } else {
        seq![]
    };
    let p2: Seq<Seq<char>> = if s.teams@.len() == 0 {
        seq!["No teams."@]
    } else {
        seq![]
    };
    let p3: Seq<Seq<char>> = if !has_player(s) {
        seq!["No player team - somebody has to be you."@]
    } else {
        seq![]
    };
    let p4: Seq<Seq<char>> = if s.teams@.len() > 0 && one_sided(s) {
        seq!["Every team is on the same side, so the game ends immediately."@]
    } else {
        seq![]
    };
    let p5: Seq<Seq<char>> = match first_orphan(s, s.units@.len()) {
        Some(i) => seq![orphan_problem(s.units@[i])],
        None => seq![],
    };
    let p6: Seq<Seq<char>> = if s.units@.len() == 0 {
        seq!["Nothing placed yet."@]
    } else {
        seq![]
    };
    match first_orphan(s, s.units@.len()) {
        Some(i) => {
            let u = s.units@[i];
            lemma_sentence_ends(
                "A "@ + u.unit@ + " belongs to team "@ + decimal(u.team as nat),
                ", which does not exist."@,
            );
            assert(sentence(orphan_problem(u)));
        },
        None => {},
    }
    assert(all_sentences(p1));
    assert(all_sentences(p2));
    assert(all_sentences(p3));
    assert(all_sentences(p4));
    assert(all_sentences(p5));
    assert(all_sentences(p6));
    lemma_sentences_concat(p1, p2);
    lemma_sentences_concat(p1 + p2, p3);
    lemma_sentences_concat(p1 + p2 + p3, p4);
    lemma_sentences_concat(p1 + p2 + p3 + p4, p5);
    lemma_sentences_concat(p1 + p2 + p3 + p4 + p5, p6);
    assert(problems_spec(s) == p1 + p2 + p3 + p4 + p5 + p6);
}

// -------------------------------------------------------------- engines -----

proof fn lemma_push_contains<A>(s: Seq<A>, a: A, v: A)
    ensures
        s.push(a).contains(v) <==> s.contains(v) || v == a,
{
    if s.push(a).contains(v) && v != a {
        let k = choose|k: int| 0 <= k < s.push(a).len() && s.push(a)[k] == v;
        assert(s[k] == v);
    }
    if s.contains(v) {
        let k = choose|k: int| 0 <= k < s.len() && s[k] == v;
        assert(s.push(a)[k] == v);
    }
    assert(s.push(a)[s.len() as int] == a);
}

proof fn lemma_first_occurrences(names: Seq<String>)
    ensures
        views(first_occurrences(names)).no_duplicates(),
        forall|v: Seq<char>| #[trigger] views(first_occurrences(names)).contains(v) <==> views(
            names,
        ).contains(v),
    decreases names.len(),
{
    let f = first_occurrences(names);
    if names.len() > 0 {
        let init = names.drop_last();
        let g = first_occurrences(init);
        let last = names.last()@;
        lemma_first_occurrences(init);
        assert(views(names) =~= views(init).push(last));
        if !views(g).contains(last) {
            assert(views(f) =~= views(g).push(last));
            assert forall|i: int, j: int| 0 <= i < views(f).len() && 0 <= j < views(f).len() && i
                != j implies views(f)[i] != views(f)[j] by {
                if i == views(g).len() {
                    assert(views(g)[j] == views(f)[j]);
                } else if j == views(g).len() {
                    assert(views(g)[i] == views(f)[i]);
                }
            }
        }
        assert forall|v: Seq<char>| #[trigger] views(f).contains(v) <==> views(names).contains(v) by {
            lemma_push_contains(views(init), last, v);
            lemma_push_contains(views(g), last, v);
        }
    }
}

/// Every engine version found is offered exactly once, and nothing else is,
/// newest first: numeric runs compare as numbers, so `2025.06.21` comes
/// before `105.1.1`, and no version is listed ahead of a newer one.
pub proof fn law_engines_are_offered_newest_first(found: Seq<String>)
    ensures
        forall|i: int, j: int|
            0 <= i < j < strings_sorted(first_occurrences(found), true, true).len() ==> !key_less(
                version_key_spec((#[trigger] strings_sorted(first_occurrences(found), true, true)[i])@),
                version_key_spec((#[trigger] strings_sorted(first_occurrences(found), true, true)[j])@),
            ),
        views(strings_sorted(first_occurrences(found), true, true)).no_duplicates(),
        forall|v: Seq<char>| #[trigger] views(strings_sorted(first_occurrences(found), true, true)).contains(v)
            <==> views(found).contains(v),
{
    broadcast use vstd::seq_lib::group_to_multiset_ensures;
    let u = first_occurrences(found);
    lemma_first_occurrences(found);
    let keyed = u.map_values(|n: String| (name_key(n@, true), n));
    let sorted = sorted_keyed(keyed, true);
    let r = strings_sorted(u, true, true);
    law_sorting_orders(keyed, true);
    law_sorting_reorders_only(keyed, true);
    assert(r =~= sorted.map_values(|p: (Seq<(u64, Seq<char>)>, String)| p.1));
    // Each sorted item is one of the keyed ones, so its key is its version's.
    assert forall|i: int| 0 <= i < sorted.len() implies exists|k: int|
        0 <= k < keyed.len() && #[trigger] sorted[i] == keyed[k] by {
        assert(sorted.to_multiset().contains(sorted[i]));
        assert(keyed.contains(sorted[i]));
    }
    assert forall|i: int, j: int| 0 <= i < j < r.len() implies !key_less(
        version_key_spec((#[trigger] r[i])@),
        version_key_spec((#[trigger] r[j])@),
    ) by {
        let a = choose|k: int| 0 <= k < keyed.len() && sorted[i] == keyed[k];
        let b = choose|k: int| 0 <= k < keyed.len() && sorted[j] == keyed[k];
        assert(sorted[i].0 == version_key_spec(r[i]@));
        assert(sorted[j].0 == version_key_spec(r[j]@));
        assert(!goes_before(sorted[j].0, sorted[i].0, true));
    }
    // No two keyed items are equal, so no two sorted ones are.
    assert(keyed.no_duplicates()) by {
        assert forall|a: int, b: int| 0 <= a < keyed.len() && 0 <= b < keyed.len() && a != b implies keyed[a]
            != keyed[b] by {
            assert(views(u)[a] != views(u)[b]);
        }
    }
    keyed.lemma_multiset_has_no_duplicates();
    sorted.lemma_multiset_has_no_duplicates_conv();
    assert(views(r).no_duplicates()) by {
        assert forall|i: int, j: int| 0 <= i < views(r).len() && 0 <= j < views(r).len() && i != j implies views(
            r,
        )[i] != views(r)[j] by {
            let a = choose|k: int| 0 <= k < keyed.len() && sorted[i] == keyed[k];
            let b = choose|k: int| 0 <= k < keyed.len() && sorted[j] == keyed[k];
            assert(sorted[i] != sorted[j]);
            assert(a != b);
            assert(views(u)[a] != views(u)[b]);
        }
    }
    assert forall|v: Seq<char>| #[trigger] views(r).contains(v) <==> views(found).contains(v) by {
        if views(r).contains(v) {
            let i = choose|i: int| 0 <= i < views(r).len() && views(r)[i] == v;
            let a = choose|k: int| 0 <= k < keyed.len() && sorted[i] == keyed[k];
            assert(views(u)[a] == v);
        }
        if views(u).contains(v) {
            let a = choose|k: int| 0 <= k < views(u).len() && views(u)[k] == v;
            assert(keyed.contains(keyed[a]));
            assert(sorted.to_multiset().contains(keyed[a]));
            let i = choose|i: int| 0 <= i < sorted.len() && sorted[i] == keyed[a];
            assert(views(r)[i] == v);
        }
    }
}

proof fn lemma_digit_run_whole(s: Seq<char>)
    requires
        all_digits(s),
    ensures
        digit_run(s) == s,
    decreases s.len(),
{
    if s.len() > 0 {
        assert(all_digits(s.drop_first())) by {
            assert forall|i: int| 0 <= i < s.drop_first().len() implies is_digit(
                #[trigger] s.drop_first()[i],
            ) by {
                assert(s.drop_first()[i] == s[i + 1]);
            }
        }
        lemma_digit_run_whole(s.drop_first());
        assert(seq![s[0]] + s.drop_first() =~= s);
    }
}

proof fn lemma_decimal_value(n: nat)
    ensures
        digits_value(decimal(n)) == n,
    decreases n,
{
    if n >= 10 {
        lemma_decimal_value(n / 10);
        let d = decimal(n / 10);
        let c = digit_char((n % 10) as int);
        assert(decimal(n) == d.push(c));
        assert(d.push(c).drop_last() =~= d);
        assert((c as int) - 48 == n % 10);
        assert(digits_value(d.push(c)) == digits_value(d) * 10 + (c as int - 48));
        assert((n / 10) * 10 + n % 10 == n) by (nonlinear_arith);
        assert(digits_value(decimal(n)) == n);
    } else {
        let c = digit_char(n as int);
        assert(decimal(n) == seq![c]);
        assert(seq![c].drop_last() =~= Seq::<char>::empty());
        assert((c as int) - 48 == n);
        assert(digits_value(Seq::<char>::empty()) == 0);
        assert(digits_value(seq![c]) == digits_value(seq![c].drop_last()) * 10 + (c as int - 48));
        assert(digits_value(decimal(n)) == n);
    }
}

/// The key of a version that is one whole number.
proof fn lemma_number_key(n: u64)
    ensures
        version_key_spec(decimal(n as nat)) == seq![(n, Seq::<char>::empty())],
{
    let s = decimal(n as nat);
    lemma_decimal_digits(n as nat);
    lemma_digit_run_whole(s);
    lemma_decimal_value(n as nat);
    assert(without_plus(s) == s);
    assert(parse_u64_spec(s) == Some(n));
    assert(number_or_zero(s) == n);
    let r = s.skip(s.len() as int);
    assert(r =~= Seq::<char>::empty());
    assert(text_run(r) =~= Seq::<char>::empty());
    assert(r.skip(0) =~= Seq::<char>::empty());
    assert(version_key_spec(Seq::<char>::empty()) =~= Seq::<(u64, Seq<char>)>::empty());
    assert(seq![(n, Seq::<char>::empty())] + Seq::<(u64, Seq<char>)>::empty() =~= seq![
        (n, Seq::<char>::empty()),
    ]);
}

/// Numeric runs compare as numbers, not as text: of two versions that are
/// whole numbers, the larger is the newer, so `2025` is newer than `105`
/// although it sorts first as text.
pub proof fn law_versions_compare_numbers_as_numbers(m: u64, n: u64)
    ensures
        key_less(version_key_spec(decimal(m as nat)), version_key_spec(decimal(n as nat))) <==> m < n,
{
    lemma_number_key(m);
    lemma_number_key(n);
    let a = seq![(m, Seq::<char>::empty())];
    let b = seq![(n, Seq::<char>::empty())];
    assert(a.drop_first() =~= Seq::<(u64, Seq<char>)>::empty());
    assert(b.drop_first() =~= Seq::<(u64, Seq<char>)>::empty());
    assert(!key_less(Seq::<(u64, Seq<char>)>::empty(), Seq::<(u64, Seq<char>)>::empty()));
}

// ----------------------------------------------------------------- maps -----

/// A map side the editor can place against: a whole number of 512-elmo map
/// units, from one to sixty-four.
pub open spec fn plausible_side(side: Option<u32>) -> bool {
    match side {
        Some(v) => 512 <= v <= 32768 && v % 512 == 0,
        None => true,
    }
}

/// A catalogue entry the map picker can use.
pub open spec fn usable_entry(e: (Seq<char>, u32, Option<u32>, Option<u32>)) -> bool {
    e.0.len() > 0 && e.1 != 0 && plausible_side(e.2) && plausible_side(e.3)
}

proof fn lemma_side_plausible(raw: Option<Seq<char>>)
    ensures
        plausible_side(side_spec(raw)),
{
    match raw {
        Some(r) => match parse_u32_spec(trim(r)) {
            Some(units) => {
                if 1 <= units <= 64 {
                    let u = units as int;
                    assert(u * 512 <= 32768 && 512 <= u * 512 && (u * 512) % 512 == 0)
                        by (nonlinear_arith)
                        requires
                            1 <= u <= 64,
                    ;
                }
            },
            None => {},
        },
        None => {},
    }
}

/// Every map the catalogue yields has a name, a resource id that addresses
/// its page, and a size that is either absent or a plausible map: an entry
/// missing one of the first two is left out, and a zero or absurd size is
/// reported as unknown rather than trusted.
pub proof fn law_catalogue_entries_are_usable(xml: Seq<char>, at: int)
    ensures
        forall|i: int| 0 <= i < catalogue_from(xml, at).len() ==> usable_entry(
            #[trigger] catalogue_from(xml, at)[i],
        ),
    decreases xml.len() - at,
{
    if at >= 0 {
        match find_from(xml, item_open(), at) {
            None => {},
            Some(start) => match find_from(xml, item_close(), start) {
                None => {},
                Some(end) => {
                    lemma_find_from(xml, item_open(), at);
                    lemma_find_from(xml, item_close(), start);
                    lemma_item_tags_differ(xml, start);
                    law_catalogue_entries_are_usable(xml, end);
                    let head: Seq<(Seq<char>, u32, Option<u32>, Option<u32>)> = match item_spec(
                        xml.subrange(start, end),
                    ) {
                        Some(e) => seq![e],
                        None => seq![],
                    };
                    let rest = catalogue_from(xml, end);
                    let item = xml.subrange(start, end);
                    lemma_side_plausible(element_spec(item, "Width"@));
                    lemma_side_plausible(element_spec(item, "Height"@));
                    assert(catalogue_from(xml, at) == head + rest);
                    assert forall|i: int| 0 <= i < (head + rest).len() implies usable_entry(
                        #[trigger] (head + rest)[i],
                    ) by {
                        if i >= head.len() {
                            assert((head + rest)[i] == rest[i - head.len()]);
                        }
                    }
                },
            },
        }
    }
}

// ------------------------------------------------------------- archives -----

/// The name an archive is indexed under is its declared name, and carries
/// its declared version: appended after a space unless the name already
/// ends with it, so a version is never doubled and never lost.
pub proof fn law_archive_names_carry_their_version(modinfo: Seq<char>)
    ensures
        archive_name_spec(modinfo) matches Some(x) ==> (lua_field_spec(modinfo, "name"@) matches Some(
            name,
        ) && x.subrange(0, name.len() as int) == name),
        archive_name_spec(modinfo) matches Some(x) ==> (lua_field_spec(modinfo, "version"@) matches Some(
            v,
        ) ==> ends_with(x, v)),
{
    match lua_field_spec(modinfo, "name"@) {
        None => {},
        Some(name) => {
            if name.len() > 0 {
                match lua_field_spec(modinfo, "version"@) {
                    Some(v) => {
                        if v.len() > 0 && !ends_with(name, v) {
                            let x = name + seq![' '] + v;
                            assert(x.subrange(0, name.len() as int) =~= name);
                            assert(x.subrange(x.len() - v.len(), x.len() as int) =~= v);
                        } else if v.len() == 0 {
                            assert(name.subrange(name.len() - v.len(), name.len() as int) =~= v);
                            assert(name.subrange(0, name.len() as int) =~= name);
                        } else {
                            assert(name.subrange(0, name.len() as int) =~= name);
                        }
                    },
                    None => {
                        assert(name.subrange(0, name.len() as int) =~= name);
                    },
                }
            }
        },
    }
}

// ----------------------------------------------------------------- maps -----

/// Whether a map is installed does not depend on case: a catalogue name and
/// its lower-cased form are the same name to the check.
pub proof fn law_map_names_ignore_case(s: Seq<char>)
    ensures
        normal_name(lowered(s)) == normal_name(s),
    decreases s.len(),
{
    if s.len() > 0 {
        assert(lowered(s).drop_last() =~= lowered(s.drop_last()));
        assert(lowered(s).last() == lower(s.last()));
        law_map_names_ignore_case(s.drop_last());
        let c = s.last();
        if 'A' <= c && c <= 'Z' {
            assert('a' <= lower(c) && lower(c) <= 'z');
        }
        assert(lower(lower(c)) == lower(c));
    }
}

// --------------------------------------------------------------- roster -----

/// The palette lists the groups a player looks for first: units whose group
/// is "Test and debug" come after every named group, and "Other" comes last.
pub proof fn law_palette_lists_debug_and_other_last(entries: Seq<(Seq<char>, Seq<char>)>)
    ensures
        forall|i: int, j: int|
            0 <= i < j < roster_spec(entries).len() ==> group_rank((#[trigger] roster_spec(entries)[i]).3)
                <= group_rank((#[trigger] roster_spec(entries)[j]).3),
{
    broadcast use vstd::seq_lib::group_to_multiset_ensures;
    let units = parsed_units(entries);
    let bs = builders_ranked(builders_of(entries));
    let grouped = units.map_values(
        |u: (Seq<char>, Seq<char>, Seq<char>)| grouped_unit(bs, units, u),
    );
    let keyed = grouped.map_values(
        |u: (Seq<char>, Seq<char>, Seq<char>, Seq<char>)| (unit_key(u), u),
    );
    let sorted = sorted_keyed(keyed, false);
    let r = roster_spec(entries);
    law_sorting_orders(keyed, false);
    law_sorting_reorders_only(keyed, false);
    assert(r =~= sorted.map_values(
        |p: (Seq<(u64, Seq<char>)>, (Seq<char>, Seq<char>, Seq<char>, Seq<char>))| p.1,
    ));
    assert forall|i: int, j: int| 0 <= i < j < r.len() implies group_rank((#[trigger] r[i]).3)
        <= group_rank((#[trigger] r[j]).3) by {
        assert(sorted.to_multiset().contains(sorted[i]));
        assert(sorted.to_multiset().contains(sorted[j]));
        assert(keyed.contains(sorted[i]));
        assert(keyed.contains(sorted[j]));
        let a = choose|k: int| 0 <= k < keyed.len() && keyed[k] == sorted[i];
        let b = choose|k: int| 0 <= k < keyed.len() && keyed[k] == sorted[j];
        assert(sorted[i].0 == unit_key(r[i]));
        assert(sorted[j].0 == unit_key(r[j]));
        assert(!goes_before(sorted[j].0, sorted[i].0, false));
    }
}

/// Names listed so that none comes before one ahead of it in text order.
pub open spec fn text_nondecreasing(s: Seq<String>) -> bool {
    forall|i: int, j: int| 0 <= i < j < s.len() ==> !text_less((#[trigger] s[j])@, (#[trigger] s[i])@)
}

/// Names in strictly ascending text order: sorted, and none twice.
pub open spec fn text_ascending(s: Seq<String>) -> bool {
    forall|i: int, j: int| 0 <= i < j < s.len() ==> text_less((#[trigger] s[i])@, (#[trigger] s[j])@)
}

proof fn lemma_plain_sort(names: Seq<String>)
    ensures
        text_nondecreasing(strings_sorted(names, false, false)),
        forall|v: Seq<char>| #[trigger] views(strings_sorted(names, false, false)).contains(v)
            <==> views(names).contains(v),
{
    broadcast use vstd::seq_lib::group_to_multiset_ensures;
    let keyed = names.map_values(|n: String| (name_key(n@, false), n));
    let sorted = sorted_keyed(keyed, false);
    let r = strings_sorted(names, false, false);
    law_sorting_orders(keyed, false);
    law_sorting_reorders_only(keyed, false);
    assert(r =~= sorted.map_values(|p: (Seq<(u64, Seq<char>)>, String)| p.1));
    assert forall|i: int, j: int| 0 <= i < j < r.len() implies !text_less(
        (#[trigger] r[j])@,
        (#[trigger] r[i])@,
    ) by {
        assert(sorted.to_multiset().contains(sorted[i]));
        assert(sorted.to_multiset().contains(sorted[j]));
        assert(keyed.contains(sorted[i]));
        assert(keyed.contains(sorted[j]));
        let a = choose|k: int| 0 <= k < keyed.len() && keyed[k] == sorted[i];
        let b = choose|k: int| 0 <= k < keyed.len() && keyed[k] == sorted[j];
        assert(!goes_before(sorted[j].0, sorted[i].0, false));
        lemma_text_less_irrefl(r[i]@);
    }
    assert forall|v: Seq<char>| #[trigger] views(r).contains(v) <==> views(names).contains(v) by {
        if views(r).contains(v) {
            let i = choose|i: int| 0 <= i < views(r).len() && views(r)[i] == v;
            assert(sorted.to_multiset().contains(sorted[i]));
            assert(keyed.contains(sorted[i]));
            let a = choose|k: int| 0 <= k < keyed.len() && keyed[k] == sorted[i];
            assert(views(names)[a] == v);
        }
        if views(names).contains(v) {
            let a = choose|k: int| 0 <= k < views(names).len() && views(names)[k] == v;
            assert(keyed.contains(keyed[a]));
            assert(sorted.to_multiset().contains(keyed[a]));
            let i = choose|i: int| 0 <= i < sorted.len() && sorted[i] == keyed[a];
            assert(views(r)[i] == v);
        }
    }
}

proof fn lemma_dedup_ascending(s: Seq<String>)
    requires
        text_nondecreasing(s),
    ensures
        text_ascending(without_adjacent_repeats(s)),
        s.len() > 0 ==> without_adjacent_repeats(s).len() > 0 && without_adjacent_repeats(s).last()@
            == s.last()@,
        forall|v: Seq<char>| #[trigger] views(without_adjacent_repeats(s)).contains(v) <==> views(
            s,
        ).contains(v),
    decreases s.len(),
{
    let w = without_adjacent_repeats(s);
    if s.len() > 0 {
        let init = s.drop_last();
        let last = s.last();
        assert forall|i: int, j: int| 0 <= i < j < init.len() implies !text_less(
            (#[trigger] init[j])@,
            (#[trigger] init[i])@,
        ) by {
            assert(init[i] == s[i] && init[j] == s[j]);
        }
        lemma_dedup_ascending(init);
        let wi = without_adjacent_repeats(init);
        assert(views(s) =~= views(init).push(last@));
        if s.len() >= 2 && s[s.len() - 2]@ == last@ {
            assert(views(init)[init.len() - 1] == last@);
            assert forall|v: Seq<char>| #[trigger] views(w).contains(v) <==> views(s).contains(v) by {
                lemma_push_contains(views(init), last@, v);
            }
        } else {
            assert(views(w) =~= views(wi).push(last@));
            if s.len() >= 2 {
                let prev = s[s.len() - 2];
                assert(wi.last()@ == prev@);
                assert(!text_less(last@, prev@));
                lemma_text_less_total(prev@, last@);
                assert forall|i: int, j: int| 0 <= i < j < w.len() implies text_less(
                    (#[trigger] w[i])@,
                    (#[trigger] w[j])@,
                ) by {
                    if j == w.len() - 1 {
                        assert(w[j] == last);
                        if i < wi.len() - 1 {
                            assert(text_less(wi[i]@, wi[wi.len() - 1]@));
                            assert(wi[wi.len() - 1]@ == prev@);
                            lemma_text_less_trans(wi[i]@, prev@, last@);
                        }
                        assert(w[i] == wi[i]);
                    } else {
                        assert(w[i] == wi[i] && w[j] == wi[j]);
                    }
                }
            }
            assert forall|v: Seq<char>| #[trigger] views(w).contains(v) <==> views(s).contains(v) by {
                lemma_push_contains(views(init), last@, v);
                lemma_push_contains(views(wi), last@, v);
            }
        }
    }
}

/// The maps on this machine are listed in text order, each name once, and
/// they are exactly the names found.
pub proof fn law_installed_maps_are_listed_once_in_order(stems: Seq<String>)
    ensures
        text_ascending(unique_sorted(stems)),
        forall|v: Seq<char>| #[trigger] views(unique_sorted(stems)).contains(v) <==> views(
            stems,
        ).contains(v),
{
    lemma_plain_sort(stems);
    lemma_dedup_ascending(strings_sorted(stems, false, false));
    assert forall|v: Seq<char>| #[trigger] views(unique_sorted(stems)).contains(v) <==> views(
        stems,
    ).contains(v) by {
        assert(views(strings_sorted(stems, false, false)).contains(v) <==> views(stems).contains(v));
    }
}

// ------------------------------------------------ what each list holds -----

/// A team carries exactly its own placed units: those whose team is its id,
/// every one of them, in the order they were placed - never another team's.
pub proof fn law_a_team_carries_exactly_its_own_units(units: Seq<Placed>, team: u32)
    ensures
        team_units(units, team) == units.filter(|u: Placed| u.team == team),
        forall|u: Placed| #[trigger] team_units(units, team).contains(u) <==> units.contains(u)
            && u.team == team,
    decreases units.len(),
{
    reveal(Seq::filter);
    if units.len() > 0 {
        law_a_team_carries_exactly_its_own_units(units.drop_last(), team);
    }
    let f = units.filter(|u: Placed| u.team == team);
    assert forall|u: Placed| #[trigger] team_units(units, team).contains(u) <==> units.contains(u)
        && u.team == team by {
        if f.contains(u) {
            let k = choose|k: int| 0 <= k < f.len() && f[k] == u;
            units.lemma_filter_pred(|u: Placed| u.team == team, k);
            units.lemma_filter_contains_rev(|u: Placed| u.team == team, u);
        }
        if units.contains(u) && u.team == team {
            let j = choose|j: int| 0 <= j < units.len() && units[j] == u;
            units.lemma_filter_contains(|u: Placed| u.team == team, j);
        }
    }
}

/// Whether a map is installed compares names with exactly spaces,
/// underscores and hyphens removed and ASCII letters lower-cased: every
/// other character - digits among them - counts, so two versions of a map
/// are two names.
pub proof fn law_map_names_drop_only_separators(s: Seq<char>)
    ensures
        normal_name(s) == lowered(s).filter(|c: char| c != ' ' && c != '_' && c != '-'),
    decreases s.len(),
{
    reveal(Seq::filter);
    if s.len() > 0 {
        law_map_names_drop_only_separators(s.drop_last());
        assert(lowered(s).drop_last() =~= lowered(s.drop_last()));
        assert(lowered(s).last() == lower(s.last()));
        let c = s.last();
        if 'A' <= c && c <= 'Z' {
            assert('a' <= lower(c) && lower(c) <= 'z');
        }
    }
}

/// The allyteams a scenario's teams are on.
pub open spec fn allyteams(s: Scenario) -> Set<u32> {
    s.teams@.map_values(|t: Team| t.ally).to_set()
}

pub open spec fn same_side() -> Seq<char> {
    "Every team is on the same side, so the game ends immediately."@
}

/// A scenario is refused as one-sided exactly when it has teams and they
/// stand on fewer than two allyteams between them - every team counts, not
/// only the first few.
pub proof fn law_one_side_is_caught_exactly(s: Scenario)
    ensures
        problems_spec(s).contains(same_side()) <==> s.teams@.len() > 0 && allyteams(s).len() < 2,
{
    reveal_strlit("No map chosen.");
    reveal_strlit("No teams.");
    reveal_strlit("No player team - somebody has to be you.");
    reveal_strlit("Every team is on the same side, so the game ends immediately.");
    reveal_strlit("Nothing placed yet.");
    reveal_strlit("A ");
    let allies = s.teams@.map_values(|t: Team| t.ally);
    vstd::seq_lib::seq_to_set_is_finite(allies);
    if s.teams@.len() > 0 {
        if one_sided(s) {
            let a = s.teams@[0].ally;
            assert(allyteams(s) =~= set![a]) by {
                assert(allies[0] == a);
                assert forall|x: u32| allyteams(s).contains(x) implies x == a by {
                    let k = choose|k: int| 0 <= k < allies.len() && allies[k] == x;
                    assert(s.teams@[k].ally == s.teams@[0].ally);
                }
            }
        } else {
            let (i, j) = choose|i: int, j: int|
                0 <= i < s.teams@.len() && 0 <= j < s.teams@.len() && s.teams@[i].ally
                    != s.teams@[j].ally;
            let pair = set![s.teams@[i].ally, s.teams@[j].ally];
            assert(allies[i] == s.teams@[i].ally && allies[j] == s.teams@[j].ally);
            assert(pair.subset_of(allyteams(s)));
            vstd::set_lib::lemma_len_subset(pair, allyteams(s));
            assert(pair.len() == 2);
        }
    }
    // Every other problem is a different sentence.
    let p = problems_spec(s);
    let p1: Seq<Seq<char>> = if is_blank(s.map@) {
        seq!["No map chosen."@]
    } else {
        seq![]
    };
    let p2: Seq<Seq<char>> = if s.teams@.len() == 0 {
        seq!["No teams."@]
    } else {
        seq![]
    };
    let p3: Seq<Seq<char>> = if !has_player(s) {
        seq!["No player team - somebody has to be you."@]
    } else {
        seq![]
    };
    let p4: Seq<Seq<char>> = if s.teams@.len() > 0 && one_sided(s) {
        seq![same_side()]
    } else {
        seq![]
    };
    let p5: Seq<Seq<char>> = match first_orphan(s, s.units@.len()) {
        Some(i) => seq![orphan_problem(s.units@[i])],
        None => seq![],
    };
    let p6: Seq<Seq<char>> = if s.units@.len() == 0 {
        seq!["Nothing placed yet."@]
    } else {
        seq![]
    };
    assert(p == p1 + p2 + p3 + p4 + p5 + p6);
    match first_orphan(s, s.units@.len()) {
        Some(i) => {
            let o = orphan_problem(s.units@[i]);
            assert(o[0] == 'A');
            assert(same_side()[0] == 'E');
        },
        None => {},
    }
    if p.contains(same_side()) {
        let k = choose|k: int| 0 <= k < p.len() && p[k] == same_side();
        let q = p1 + p2 + p3;
        if k < q.len() {
            assert(q[k] == p[k]);
            assert(q.contains(same_side()));
            let m = choose|m: int| 0 <= m < q.len() && q[m] == same_side();
            assert(same_side().len() == 62);
            if m < p1.len() {
                assert(q[m] == p1[m]);
                assert(p1[m].len() == 14);
            } else if m < p1.len() + p2.len() {
                assert(q[m] == p2[m - p1.len()]);
                assert(p2[m - p1.len()].len() == 9);
            } else {
                assert(q[m] == p3[m - p1.len() - p2.len()]);
                assert(p3[m - p1.len() - p2.len()].len() == 40);
            }
            assert(false);
        } else if k < q.len() + p4.len() {
            assert(p4[k - q.len()] == same_side());
        } else {
            let r = p5 + p6;
            let m = k - q.len() - p4.len();
            assert(p == (q + p4) + r);
            assert((q + p4 + r)[k] == r[m]);
            if m < p5.len() {
                assert(r[m] == p5[m]);
                assert(p5[m][0] == 'A');
            } else {
                assert(r[m] == p6[m - p5.len()]);
                assert(p6[m - p5.len()].len() == 19);
            }
            assert(same_side().len() == 62);
            assert(false);
        }
    }
    if s.teams@.len() > 0 && one_sided(s) {
        let q = p1 + p2 + p3;
        assert(p[q.len() as int] == same_side());
    }
}

/// A catalogue entry's width is read from the item's `Width` element and its
/// height from its `Height` element, each on its own: a rectangular map stays
/// rectangular, and a side the item does not give is unknown.
pub proof fn law_each_side_comes_from_its_own_element(item: Seq<char>)
    ensures
        item_spec(item) matches Some(e) ==> e.2 == side_spec(element_spec(item, "Width"@)) && e.3
            == side_spec(element_spec(item, "Height"@)),
{
}

/// Every team before `k` has an AI.
pub open spec fn all_ai_before(teams: Seq<Team>, k: int) -> bool {
    forall|j: int| 0 <= j < k ==> (#[trigger] teams[j]).ai is Some
}

/// The human plays the first team without an AI, in the order the teams are
/// listed; with none, team 0.
pub proof fn law_the_human_plays_the_first_team_without_an_ai(teams: Seq<Team>, k: int)
    ensures
        0 <= k < teams.len() && teams[k].ai is None && all_ai_before(teams, k) ==> human_team(teams)
            == teams[k].id,
        all_ai_before(teams, teams.len() as int) ==> human_team(teams) == 0,
    decreases teams.len(),
{
    if teams.len() > 0 {
        let rest = teams.drop_first();
        law_the_human_plays_the_first_team_without_an_ai(rest, k - 1);
        if 0 < k < teams.len() && all_ai_before(teams, k) {
            assert(teams[0].ai is Some);
            assert forall|j: int| 0 <= j < k - 1 implies (#[trigger] rest[j]).ai is Some by {
                assert(rest[j] == teams[j + 1]);
                assert(0 <= j + 1 < k);
            }
            assert(rest[k - 1] == teams[k]);
        }
        if all_ai_before(teams, teams.len() as int) {
            assert(teams[0].ai is Some);
            assert forall|j: int| 0 <= j < rest.len() implies (#[trigger] rest[j]).ai is Some by {
                assert(rest[j] == teams[j + 1]);
                assert(0 <= j + 1 < teams.len());
            }
        }
    }
}

/// The unit reported as belonging to no team is the first such unit placed;
/// and none is reported when every unit's team exists.
pub proof fn law_the_first_orphan_is_reported(s: Scenario, n: nat)
    ensures
        match first_orphan(s, n) {
            Some(i) => 0 <= i < n && i < s.units@.len() && orphaned(s, s.units@[i]) && forall|j: int|
                0 <= j < i ==> !orphaned(s, #[trigger] s.units@[j]),
            None => forall|j: int| 0 <= j < n && j < s.units@.len() ==> !orphaned(s, #[trigger] s.units@[j]),
        },
    decreases n,
{
    if n > 0 {
        law_the_first_orphan_is_reported(s, (n - 1) as nat);
    }
}

proof fn lemma_insert_sorted(xs: Seq<u32>, a: u32)
    requires
        forall|i: int, j: int| 0 <= i < j < xs.len() ==> #[trigger] xs[i] < #[trigger] xs[j],
    ensures
        forall|i: int, j: int|
            0 <= i < j < insert_sorted(xs, a).len() ==> #[trigger] insert_sorted(xs, a)[i]
                < #[trigger] insert_sorted(xs, a)[j],
        forall|x: u32| #[trigger] insert_sorted(xs, a).contains(x) <==> xs.contains(x) || x == a,
    decreases xs.len(),
{
    let r = insert_sorted(xs, a);
    if xs.len() == 0 {
        assert(r == seq![a]);
        assert forall|x: u32| #[trigger] r.contains(x) <==> xs.contains(x) || x == a by {
            if r.contains(x) {
                assert(r[0] == a);
            }
            if x == a {
                assert(r[0] == a);
            }
        }
    } else if xs[0] == a {
        assert forall|x: u32| #[trigger] r.contains(x) <==> xs.contains(x) || x == a by {
            if x == a {
                assert(xs[0] == a);
            }
        }
    } else if a < xs[0] {
        let t = seq![a] + xs;
        assert forall|i: int, j: int| 0 <= i < j < t.len() implies #[trigger] t[i] < #[trigger] t[j] by {
            if i == 0 {
                assert(t[j] == xs[j - 1]);
                if j - 1 > 0 {
                    assert(xs[0] < xs[j - 1]);
                }
            } else {
                assert(t[i] == xs[i - 1] && t[j] == xs[j - 1]);
            }
        }
        assert forall|x: u32| #[trigger] t.contains(x) <==> xs.contains(x) || x == a by {
            if t.contains(x) {
                let k = choose|k: int| 0 <= k < t.len() && t[k] == x;
                if k > 0 {
                    assert(xs[k - 1] == x);
                }
            }
            if xs.contains(x) {
                let k = choose|k: int| 0 <= k < xs.len() && xs[k] == x;
                assert(t[k + 1] == x);
            }
            if x == a {
                assert(t[0] == a);
            }
        }
    } else {
        let rest = xs.drop_first();
        assert forall|i: int, j: int| 0 <= i < j < rest.len() implies #[trigger] rest[i] < #[trigger] rest[j] by {
            assert(rest[i] == xs[i + 1] && rest[j] == xs[j + 1]);
        }
        lemma_insert_sorted(rest, a);
        let q = insert_sorted(rest, a);
        let t = seq![xs[0]] + q;
        assert forall|i: int, j: int| 0 <= i < j < t.len() implies #[trigger] t[i] < #[trigger] t[j] by {
            if i == 0 {
                assert(t[j] == q[j - 1]);
                assert(q.contains(q[j - 1]));
                if q[j - 1] != a {
                    assert(rest.contains(q[j - 1]));
                    let k = choose|k: int| 0 <= k < rest.len() && rest[k] == q[j - 1];
                    assert(xs[0] < xs[k + 1]);
                }
            } else {
                assert(t[i] == q[i - 1] && t[j] == q[j - 1]);
            }
        }
        assert forall|x: u32| #[trigger] t.contains(x) <==> xs.contains(x) || x == a by {
            if t.contains(x) {
                let k = choose|k: int| 0 <= k < t.len() && t[k] == x;
                if k > 0 {
                    assert(q[k - 1] == x);
                    assert(q.contains(x));
                    if x != a {
                        let m = choose|m: int| 0 <= m < rest.len() && rest[m] == x;
                        assert(xs[m + 1] == x);
                    }
                } else {
                    assert(xs[0] == x);
                }
            }
            if xs.contains(x) {
                let k = choose|k: int| 0 <= k < xs.len() && xs[k] == x;
                if k == 0 {
                    assert(t[0] == x);
                } else {
                    assert(rest[k - 1] == x);
                    assert(rest.contains(x));
                    assert(q.contains(x));
                    let m = choose|m: int| 0 <= m < q.len() && q[m] == x;
                    assert(t[m + 1] == x);
                }
            }
            if x == a {
                assert(q.contains(a));
                let m = choose|m: int| 0 <= m < q.len() && q[m] == a;
                assert(t[m + 1] == a);
            }
        }
    }
}

/// The allyteam sections are the allyteams in use, each once, in ascending
/// order: every team's allyteam gets one, and no number that no team uses.
pub proof fn law_allyteams_are_listed_once_in_order(teams: Seq<Team>)
    ensures
        forall|i: int, j: int|
            0 <= i < j < allies_of(teams).len() ==> #[trigger] allies_of(teams)[i]
                < #[trigger] allies_of(teams)[j],
        forall|a: u32| #[trigger] allies_of(teams).contains(a) <==> exists|k: int|
            0 <= k < teams.len() && #[trigger] teams[k].ally == a,
    decreases teams.len(),
{
    if teams.len() > 0 {
        let init = teams.drop_last();
        law_allyteams_are_listed_once_in_order(init);
        lemma_insert_sorted(allies_of(init), teams.last().ally);
        assert forall|a: u32| #[trigger] allies_of(teams).contains(a) <==> exists|k: int|
            0 <= k < teams.len() && #[trigger] teams[k].ally == a by {
            if allies_of(init).contains(a) {
                let k = choose|k: int| 0 <= k < init.len() && #[trigger] init[k].ally == a;
                assert(teams[k].ally == a);
            }
            if exists|k: int| 0 <= k < teams.len() && #[trigger] teams[k].ally == a {
                let k = choose|k: int| 0 <= k < teams.len() && #[trigger] teams[k].ally == a;
                if k < teams.len() - 1 {
                    assert(init[k].ally == a);
                }
            }
        }
    }
}

} // verus!
