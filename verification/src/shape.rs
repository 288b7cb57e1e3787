//! The shape of every start script the writer produces, whatever the
//! scenario holds: as many sections closed as opened, every value terminated
//! before its section closes, no delimiter left in an escaped value, and
//! placed units forty to a key.
//!
//! Each is proved piece by piece: the literals the script is built from are
//! checked character by character, the values that go between them - escaped
//! text, numerals, base64 payloads - hold no brace, no `;` and keys no `=`,
//! and counts and terminators compose over concatenation.
use vstd::prelude::*;
use vstd::utf8::*;

use crate::customkey::{
    base64_char, base64_text, bool_text, entry_text, escaped_bytes, game_decode, is_numeral,
    law_wire_text_survives_the_decoder, lemma_base64_chars, lemma_escaped_wire,
    lemma_int_text_wire, lemma_numeral_wire, lemma_wire_concat, wire_char, wire_text, Key,
};
use crate::scenario::{
    ai_count, ai_section, ai_sections, ally_section, ally_sections, allies_of, briefing_text,
    encoded, escaped, feature_text, features_text, field, game_section, goal_body, goal_text,
    goals_text, human_team, indexed_entries, is_blank, is_delimiter, key_line, list_text,
    modoptions_section, modoptions_spec, names_text, option_lines, placed_text, player_section,
    script_text, str_text, team_section, team_sections, team_units, unit_chunks, views, Feature,
    Goal, Objective, Placed, Scenario, Team,
};
use crate::text::{decimal, int_text, lemma_decimal_digits};

verus! {

broadcast use vstd::string::group_string_axioms;

// ------------------------------------------------------- counting braces -----

/// How many times `c` occurs in `s`.
pub open spec fn occurrences(s: Seq<char>, c: char) -> nat
    decreases s.len(),
{
    if s.len() == 0 {
        0
    } else {
        occurrences(s.drop_last(), c) + if s.last() == c {
            1nat
        } else {
            0nat
        }
    }
}

/// Text with no brace in it: it can neither open nor close a section.
pub open spec fn no_braces(s: Seq<char>) -> bool {
    forall|i: int| 0 <= i < s.len() ==> #[trigger] s[i] != '{' && s[i] != '}'
}

/// Key names and indents hold no `=`: the key and its value are told apart
/// by the first one.
pub open spec fn no_equals(s: Seq<char>) -> bool {
    forall|i: int| 0 <= i < s.len() ==> #[trigger] s[i] != '='
}

/// As many sections closed as opened.
pub open spec fn balanced(s: Seq<char>) -> bool {
    occurrences(s, '{') == occurrences(s, '}')
}

proof fn lemma_occurrences_concat(a: Seq<char>, b: Seq<char>, c: char)
    ensures
        occurrences(a + b, c) == occurrences(a, c) + occurrences(b, c),
    decreases b.len(),
{
    if b.len() == 0 {
        assert(a + b =~= a);
    } else {
        assert((a + b).drop_last() =~= a + b.drop_last());
        lemma_occurrences_concat(a, b.drop_last(), c);
    }
}

proof fn lemma_no_braces_none(s: Seq<char>)
    requires
        no_braces(s),
    ensures
        occurrences(s, '{') == 0,
        occurrences(s, '}') == 0,
    decreases s.len(),
{
    if s.len() > 0 {
        assert(no_braces(s.drop_last()));
        lemma_no_braces_none(s.drop_last());
    }
}

proof fn lemma_no_braces_concat(a: Seq<char>, b: Seq<char>)
    requires
        no_braces(a),
        no_braces(b),
    ensures
        no_braces(a + b),
{
    assert forall|i: int| 0 <= i < (a + b).len() implies #[trigger] (a + b)[i] != '{' && (a
        + b)[i] != '}' by {
        if i >= a.len() {
            assert((a + b)[i] == b[i - a.len()]);
        }
    }
}

/// A piece of text holding exactly one brace, at `p`: its counts.
proof fn lemma_one_brace(s: Seq<char>, p: int)
    requires
        0 <= p < s.len(),
        s[p] == '{' || s[p] == '}',
        no_braces(s.take(p)),
        no_braces(s.skip(p + 1)),
    ensures
        occurrences(s, '{') == if s[p] == '{' {
            1nat
        } else {
            0nat
        },
        occurrences(s, '}') == if s[p] == '}' {
            1nat
        } else {
            0nat
        },
{
    let one = seq![s[p]];
    assert(s =~= s.take(p) + one + s.skip(p + 1));
    lemma_occurrences_concat(s.take(p) + one, s.skip(p + 1), '{');
    lemma_occurrences_concat(s.take(p) + one, s.skip(p + 1), '}');
    lemma_occurrences_concat(s.take(p), one, '{');
    lemma_occurrences_concat(s.take(p), one, '}');
    lemma_no_braces_none(s.take(p));
    lemma_no_braces_none(s.skip(p + 1));
    assert(one.drop_last() =~= Seq::<char>::empty());
    assert(occurrences(Seq::<char>::empty(), '{') == 0);
    assert(occurrences(Seq::<char>::empty(), '}') == 0);
    assert(occurrences(one, '{') == occurrences(one.drop_last(), '{') + if s[p] == '{' {
        1nat
    } else {
        0nat
    });
    assert(occurrences(one, '}') == occurrences(one.drop_last(), '}') + if s[p] == '}' {
        1nat
    } else {
        0nat
    });
}

/// The first `n` characters hold no brace, except perhaps at `p`.
pub open spec fn clear_except(s: Seq<char>, n: int, p: int) -> bool
    decreases n,
{
    if n <= 0 {
        true
    } else {
        (n - 1 == p || (s[n - 1] != '{' && s[n - 1] != '}')) && clear_except(s, n - 1, p)
    }
}

proof fn lemma_clear_except(s: Seq<char>, n: int, p: int)
    requires
        clear_except(s, n, p),
    ensures
        forall|i: int| 0 <= i < n && i != p ==> #[trigger] s[i] != '{' && s[i] != '}',
    decreases n,
{
    if n > 0 {
        lemma_clear_except(s, n - 1, p);
    }
}

/// The first `n` characters are not `c`.
pub open spec fn lacks(s: Seq<char>, n: int, c: char) -> bool
    decreases n,
{
    if n <= 0 {
        true
    } else {
        s[n - 1] != c && lacks(s, n - 1, c)
    }
}

proof fn lemma_lacks(s: Seq<char>, n: int, c: char)
    requires
        lacks(s, n, c),
    ensures
        forall|i: int| 0 <= i < n ==> #[trigger] s[i] != c,
    decreases n,
{
    if n > 0 {
        lemma_lacks(s, n - 1, c);
    }
}

/// Text checked character by character to hold no brace.
proof fn lemma_plain(s: Seq<char>)
    requires
        clear_except(s, s.len() as int, -1),
    ensures
        no_braces(s),
{
    lemma_clear_except(s, s.len() as int, -1);
}

/// Text checked character by character to hold one brace, at `p`.
proof fn lemma_single(s: Seq<char>, p: int)
    requires
        0 <= p < s.len(),
        s[p] == '{' || s[p] == '}',
        clear_except(s, s.len() as int, p),
    ensures
        occurrences(s, '{') == if s[p] == '{' {
            1nat
        } else {
            0nat
        },
        occurrences(s, '}') == if s[p] == '}' {
            1nat
        } else {
            0nat
        },
{
    lemma_clear_except(s, s.len() as int, p);
    assert forall|i: int| 0 <= i < s.take(p).len() implies #[trigger] s.take(p)[i] != '{' && s.take(
        p,
    )[i] != '}' by {
        assert(s.take(p)[i] == s[i]);
    }
    assert forall|i: int| 0 <= i < s.skip(p + 1).len() implies #[trigger] s.skip(p + 1)[i] != '{'
        && s.skip(p + 1)[i] != '}' by {
        assert(s.skip(p + 1)[i] == s[i + p + 1]);
    }
    lemma_one_brace(s, p);
}

/// Appending brace-free text changes no count.
proof fn lemma_free(a: Seq<char>, b: Seq<char>)
    requires
        no_braces(b),
    ensures
        occurrences(a + b, '{') == occurrences(a, '{'),
        occurrences(a + b, '}') == occurrences(a, '}'),
{
    lemma_no_braces_none(b);
    lemma_occurrences_concat(a, b, '{');
    lemma_occurrences_concat(a, b, '}');
}

/// Counts of joined text add up.
proof fn lemma_join(a: Seq<char>, b: Seq<char>)
    ensures
        occurrences(a + b, '{') == occurrences(a, '{') + occurrences(b, '{'),
        occurrences(a + b, '}') == occurrences(a, '}') + occurrences(b, '}'),
{
    lemma_occurrences_concat(a, b, '{');
    lemma_occurrences_concat(a, b, '}');
}

// ---------------------------------------------------- brace-free values -----

proof fn lemma_escaped_no_braces(s: Seq<char>)
    ensures
        no_braces(escaped(s)),
    decreases s.len(),
{
    if s.len() > 0 {
        lemma_escaped_no_braces(s.drop_last());
    }
}

proof fn lemma_decimal_no_equals(n: nat)
    ensures
        no_equals(decimal(n)),
{
    lemma_decimal_digits(n);
}

proof fn lemma_no_equals_concat(a: Seq<char>, b: Seq<char>)
    requires
        no_equals(a),
        no_equals(b),
    ensures
        no_equals(a + b),
{
    assert forall|i: int| 0 <= i < (a + b).len() implies #[trigger] (a + b)[i] != '=' by {
        if i >= a.len() {
            assert((a + b)[i] == b[i - a.len()]);
        }
    }
}

proof fn lemma_decimal_no_braces(n: nat)
    ensures
        no_braces(decimal(n)),
{
    lemma_decimal_digits(n);
}

proof fn lemma_base64_no_braces(d: Seq<u8>)
    ensures
        no_braces(base64_text(d)),
{
    lemma_base64_chars(d);
    assert forall|i: int| 0 <= i < base64_text(d).len() implies #[trigger] base64_text(d)[i]
        != '{' && base64_text(d)[i] != '}' by {
        assert(base64_char(base64_text(d)[i]));
    }
}

proof fn lemma_key_line_no_braces(indent: Seq<char>, k: Seq<char>, v: Seq<char>)
    requires
        no_braces(indent),
        no_braces(k),
        no_braces(v),
    ensures
        no_braces(key_line(indent, k, v)),
{
    let eq = seq!['='];
    let end = seq![';', '\n'];
    lemma_no_braces_concat(indent, k);
    lemma_no_braces_concat(indent + k, eq);
    lemma_no_braces_concat(indent + k + eq, v);
    lemma_no_braces_concat(indent + k + eq + v, end);
}

#[verifier::spinoff_prover]
proof fn lemma_option_lines_no_braces(indent: Seq<char>, ps: Seq<(Seq<char>, Seq<char>)>)
    requires
        no_braces(indent),
        pairs_free(ps),
    ensures
        no_braces(option_lines(indent, ps)),
    decreases ps.len(),
{
    if ps.len() > 0 {
        assert forall|i: int| 0 <= i < ps.drop_last().len() implies no_braces(
            #[trigger] ps.drop_last()[i].0,
        ) && no_braces(ps.drop_last()[i].1) && no_equals(ps.drop_last()[i].0) by {
            assert(ps.drop_last()[i] == ps[i]);
            assert(no_braces(ps[i].0) && no_braces(ps[i].1) && no_equals(ps[i].0));
        }
        lemma_option_lines_no_braces(indent, ps.drop_last());
        assert(no_braces(ps[ps.len() - 1].0) && no_braces(ps[ps.len() - 1].1));
        let last = ps[ps.len() - 1];
        lemma_key_line_no_braces(indent, last.0, last.1);
        lemma_no_braces_concat(option_lines(indent, ps.drop_last()), key_line(indent, last.0, last.1));
    }
}

/// The literals the script is built from: which hold a brace, and where;
/// none holds an `=`.
proof fn lemma_script_literals()
    ensures
        no_braces("0"@),
        no_braces("1"@),
        no_braces("2"@),
        no_braces("AI "@),
        no_braces("AllyTeam"@),
        no_braces("GameStartDelay"@),
        no_braces("GameType"@),
        no_braces("Host"@),
        no_braces("IsHost"@),
        no_braces("Mapname"@),
        no_braces("MyPlayerName"@),
        no_braces("Name"@),
        no_braces("NumAllies"@),
        no_braces("NumRestrictions"@),
        no_braces("OnlyLocal"@),
        no_braces("RGBColor"@),
        no_braces("ShortName"@),
        no_braces("StartPosType"@),
        no_braces("Team"@),
        no_braces("TeamLeader"@),
        no_braces("\t"@),
        no_braces("\t[AI"@),
        no_braces("\t[ALLYTEAM"@),
        no_braces("\t[TEAM"@),
        no_braces("\t\t"@),
        no_braces("noelo"@),
        no_braces("bonusobjectiveconfig"@),
        no_braces("extrastartunits_"@),
        no_braces("featurestospawn"@),
        no_braces("objectiveconfig"@),
        no_braces("planetmissioninformationtext"@),
        no_braces("singleplayercampaignbattleid"@),
        no_braces("splaunch"@),
        occurrences("[GAME]\n{\n"@, '{') == 1,
        occurrences("[GAME]\n{\n"@, '}') == 0,
        occurrences("\t[MODOPTIONS]\n\t{\n"@, '{') == 1,
        occurrences("\t[MODOPTIONS]\n\t{\n"@, '}') == 0,
        occurrences("\t[PLAYER0]\n\t{\n"@, '{') == 1,
        occurrences("\t[PLAYER0]\n\t{\n"@, '}') == 0,
        occurrences("]\n\t{\n"@, '{') == 1,
        occurrences("]\n\t{\n"@, '}') == 0,
        occurrences("\t}\n"@, '{') == 0,
        occurrences("\t}\n"@, '}') == 1,
        occurrences("}\n"@, '{') == 0,
        occurrences("}\n"@, '}') == 1,
        no_equals("0"@),
        no_equals("1"@),
        no_equals("2"@),
        no_equals("AI "@),
        no_equals("AllyTeam"@),
        no_equals("GameStartDelay"@),
        no_equals("GameType"@),
        no_equals("Host"@),
        no_equals("IsHost"@),
        no_equals("Mapname"@),
        no_equals("MyPlayerName"@),
        no_equals("Name"@),
        no_equals("NumAllies"@),
        no_equals("NumRestrictions"@),
        no_equals("OnlyLocal"@),
        no_equals("RGBColor"@),
        no_equals("ShortName"@),
        no_equals("StartPosType"@),
        no_equals("Team"@),
        no_equals("TeamLeader"@),
        no_equals("\t"@),
        no_equals("\t[AI"@),
        no_equals("\t[ALLYTEAM"@),
        no_equals("\t[TEAM"@),
        no_equals("\t\t"@),
        no_equals("noelo"@),
        no_equals("bonusobjectiveconfig"@),
        no_equals("extrastartunits_"@),
        no_equals("featurestospawn"@),
        no_equals("objectiveconfig"@),
        no_equals("planetmissioninformationtext"@),
        no_equals("singleplayercampaignbattleid"@),
        no_equals("splaunch"@),
        no_equals("[GAME]\n{\n"@),
        no_equals("\t[MODOPTIONS]\n\t{\n"@),
        no_equals("\t[PLAYER0]\n\t{\n"@),
        no_equals("]\n\t{\n"@),
        no_equals("\t}\n"@),
        no_equals("}\n"@),
{
    assert(no_braces("0"@) && no_equals("0"@)) by {
        reveal_strlit("0");
        reveal_with_fuel(clear_except, 2);
        reveal_with_fuel(lacks, 2);
        lemma_plain("0"@);
        lemma_lacks("0"@, 1, '=');
    }
    assert(no_braces("1"@) && no_equals("1"@)) by {
        reveal_strlit("1");
        reveal_with_fuel(clear_except, 2);
        reveal_with_fuel(lacks, 2);
        lemma_plain("1"@);
        lemma_lacks("1"@, 1, '=');
    }
    assert(no_braces("2"@) && no_equals("2"@)) by {
        reveal_strlit("2");
        reveal_with_fuel(clear_except, 2);
        reveal_with_fuel(lacks, 2);
        lemma_plain("2"@);
        lemma_lacks("2"@, 1, '=');
    }
    assert(no_braces("AI "@) && no_equals("AI "@)) by {
        reveal_strlit("AI ");
        reveal_with_fuel(clear_except, 4);
        reveal_with_fuel(lacks, 4);
        lemma_plain("AI "@);
        lemma_lacks("AI "@, 3, '=');
    }
    assert(no_braces("AllyTeam"@) && no_equals("AllyTeam"@)) by {
        reveal_strlit("AllyTeam");
        reveal_with_fuel(clear_except, 9);
        reveal_with_fuel(lacks, 9);
        lemma_plain("AllyTeam"@);
        lemma_lacks("AllyTeam"@, 8, '=');
    }
    assert(no_braces("GameStartDelay"@) && no_equals("GameStartDelay"@)) by {
        reveal_strlit("GameStartDelay");
        reveal_with_fuel(clear_except, 15);
        reveal_with_fuel(lacks, 15);
        lemma_plain("GameStartDelay"@);
        lemma_lacks("GameStartDelay"@, 14, '=');
    }
    assert(no_braces("GameType"@) && no_equals("GameType"@)) by {
        reveal_strlit("GameType");
        reveal_with_fuel(clear_except, 9);
        reveal_with_fuel(lacks, 9);
        lemma_plain("GameType"@);
        lemma_lacks("GameType"@, 8, '=');
    }
    assert(no_braces("Host"@) && no_equals("Host"@)) by {
        reveal_strlit("Host");
        reveal_with_fuel(clear_except, 5);
        reveal_with_fuel(lacks, 5);
        lemma_plain("Host"@);
        lemma_lacks("Host"@, 4, '=');
    }
    assert(no_braces("IsHost"@) && no_equals("IsHost"@)) by {
        reveal_strlit("IsHost");
        reveal_with_fuel(clear_except, 7);
        reveal_with_fuel(lacks, 7);
        lemma_plain("IsHost"@);
        lemma_lacks("IsHost"@, 6, '=');
    }
    assert(no_braces("Mapname"@) && no_equals("Mapname"@)) by {
        reveal_strlit("Mapname");
        reveal_with_fuel(clear_except, 8);
        reveal_with_fuel(lacks, 8);
        lemma_plain("Mapname"@);
        lemma_lacks("Mapname"@, 7, '=');
    }
    assert(no_braces("MyPlayerName"@) && no_equals("MyPlayerName"@)) by {
        reveal_strlit("MyPlayerName");
        reveal_with_fuel(clear_except, 13);
        reveal_with_fuel(lacks, 13);
        lemma_plain("MyPlayerName"@);
        lemma_lacks("MyPlayerName"@, 12, '=');
    }
    assert(no_braces("Name"@) && no_equals("Name"@)) by {
        reveal_strlit("Name");
        reveal_with_fuel(clear_except, 5);
        reveal_with_fuel(lacks, 5);
        lemma_plain("Name"@);
        lemma_lacks("Name"@, 4, '=');
    }
    assert(no_braces("NumAllies"@) && no_equals("NumAllies"@)) by {
        reveal_strlit("NumAllies");
        reveal_with_fuel(clear_except, 10);
        reveal_with_fuel(lacks, 10);
        lemma_plain("NumAllies"@);
        lemma_lacks("NumAllies"@, 9, '=');
    }
    assert(no_braces("NumRestrictions"@) && no_equals("NumRestrictions"@)) by {
        reveal_strlit("NumRestrictions");
        reveal_with_fuel(clear_except, 16);
        reveal_with_fuel(lacks, 16);
        lemma_plain("NumRestrictions"@);
        lemma_lacks("NumRestrictions"@, 15, '=');
    }
    assert(no_braces("OnlyLocal"@) && no_equals("OnlyLocal"@)) by {
        reveal_strlit("OnlyLocal");
        reveal_with_fuel(clear_except, 10);
        reveal_with_fuel(lacks, 10);
        lemma_plain("OnlyLocal"@);
        lemma_lacks("OnlyLocal"@, 9, '=');
    }
    assert(no_braces("RGBColor"@) && no_equals("RGBColor"@)) by {
        reveal_strlit("RGBColor");
        reveal_with_fuel(clear_except, 9);
        reveal_with_fuel(lacks, 9);
        lemma_plain("RGBColor"@);
        lemma_lacks("RGBColor"@, 8, '=');
    }
    assert(no_braces("ShortName"@) && no_equals("ShortName"@)) by {
        reveal_strlit("ShortName");
        reveal_with_fuel(clear_except, 10);
        reveal_with_fuel(lacks, 10);
        lemma_plain("ShortName"@);
        lemma_lacks("ShortName"@, 9, '=');
    }
    assert(no_braces("StartPosType"@) && no_equals("StartPosType"@)) by {
        reveal_strlit("StartPosType");
        reveal_with_fuel(clear_except, 13);
        reveal_with_fuel(lacks, 13);
        lemma_plain("StartPosType"@);
        lemma_lacks("StartPosType"@, 12, '=');
    }
    assert(no_braces("Team"@) && no_equals("Team"@)) by {
        reveal_strlit("Team");
        reveal_with_fuel(clear_except, 5);
        reveal_with_fuel(lacks, 5);
        lemma_plain("Team"@);
        lemma_lacks("Team"@, 4, '=');
    }
    assert(no_braces("TeamLeader"@) && no_equals("TeamLeader"@)) by {
        reveal_strlit("TeamLeader");
        reveal_with_fuel(clear_except, 11);
        reveal_with_fuel(lacks, 11);
        lemma_plain("TeamLeader"@);
        lemma_lacks("TeamLeader"@, 10, '=');
    }
    assert(no_braces("\t"@) && no_equals("\t"@)) by {
        reveal_strlit("\t");
        reveal_with_fuel(clear_except, 2);
        reveal_with_fuel(lacks, 2);
        lemma_plain("\t"@);
        lemma_lacks("\t"@, 1, '=');
    }
    assert(no_braces("\t[AI"@) && no_equals("\t[AI"@)) by {
        reveal_strlit("\t[AI");
        reveal_with_fuel(clear_except, 5);
        reveal_with_fuel(lacks, 5);
        lemma_plain("\t[AI"@);
        lemma_lacks("\t[AI"@, 4, '=');
    }
    assert(no_braces("\t[ALLYTEAM"@) && no_equals("\t[ALLYTEAM"@)) by {
        reveal_strlit("\t[ALLYTEAM");
        reveal_with_fuel(clear_except, 11);
        reveal_with_fuel(lacks, 11);
        lemma_plain("\t[ALLYTEAM"@);
        lemma_lacks("\t[ALLYTEAM"@, 10, '=');
    }
    assert(no_braces("\t[TEAM"@) && no_equals("\t[TEAM"@)) by {
        reveal_strlit("\t[TEAM");
        reveal_with_fuel(clear_except, 7);
        reveal_with_fuel(lacks, 7);
        lemma_plain("\t[TEAM"@);
        lemma_lacks("\t[TEAM"@, 6, '=');
    }
    assert(no_braces("\t\t"@) && no_equals("\t\t"@)) by {
        reveal_strlit("\t\t");
        reveal_with_fuel(clear_except, 3);
        reveal_with_fuel(lacks, 3);
        lemma_plain("\t\t"@);
        lemma_lacks("\t\t"@, 2, '=');
    }
    assert(no_braces("noelo"@) && no_equals("noelo"@)) by {
        reveal_strlit("noelo");
        reveal_with_fuel(clear_except, 6);
        reveal_with_fuel(lacks, 6);
        lemma_plain("noelo"@);
        lemma_lacks("noelo"@, 5, '=');
    }
    assert(no_braces("bonusobjectiveconfig"@) && no_equals("bonusobjectiveconfig"@)) by {
        reveal_strlit("bonusobjectiveconfig");
        reveal_with_fuel(clear_except, 21);
        reveal_with_fuel(lacks, 21);
        lemma_plain("bonusobjectiveconfig"@);
        lemma_lacks("bonusobjectiveconfig"@, 20, '=');
    }
    assert(no_braces("extrastartunits_"@) && no_equals("extrastartunits_"@)) by {
        reveal_strlit("extrastartunits_");
        reveal_with_fuel(clear_except, 17);
        reveal_with_fuel(lacks, 17);
        lemma_plain("extrastartunits_"@);
        lemma_lacks("extrastartunits_"@, 16, '=');
    }
    assert(no_braces("featurestospawn"@) && no_equals("featurestospawn"@)) by {
        reveal_strlit("featurestospawn");
        reveal_with_fuel(clear_except, 16);
        reveal_with_fuel(lacks, 16);
        lemma_plain("featurestospawn"@);
        lemma_lacks("featurestospawn"@, 15, '=');
    }
    assert(no_braces("objectiveconfig"@) && no_equals("objectiveconfig"@)) by {
        reveal_strlit("objectiveconfig");
        reveal_with_fuel(clear_except, 16);
        reveal_with_fuel(lacks, 16);
        lemma_plain("objectiveconfig"@);
        lemma_lacks("objectiveconfig"@, 15, '=');
    }
    assert(no_braces("planetmissioninformationtext"@) && no_equals("planetmissioninformationtext"@)) by {
        reveal_strlit("planetmissioninformationtext");
        reveal_with_fuel(clear_except, 29);
        reveal_with_fuel(lacks, 29);
        lemma_plain("planetmissioninformationtext"@);
        lemma_lacks("planetmissioninformationtext"@, 28, '=');
    }
    assert(no_braces("singleplayercampaignbattleid"@) && no_equals("singleplayercampaignbattleid"@)) by {
        reveal_strlit("singleplayercampaignbattleid");
        reveal_with_fuel(clear_except, 29);
        reveal_with_fuel(lacks, 29);
        lemma_plain("singleplayercampaignbattleid"@);
        lemma_lacks("singleplayercampaignbattleid"@, 28, '=');
    }
    assert(no_braces("splaunch"@) && no_equals("splaunch"@)) by {
        reveal_strlit("splaunch");
        reveal_with_fuel(clear_except, 9);
        reveal_with_fuel(lacks, 9);
        lemma_plain("splaunch"@);
        lemma_lacks("splaunch"@, 8, '=');
    }
    assert(occurrences("[GAME]\n{\n"@, '{') == 1 && occurrences("[GAME]\n{\n"@, '}') == 0 && no_equals("[GAME]\n{\n"@)) by {
        reveal_strlit("[GAME]\n{\n");
        reveal_with_fuel(clear_except, 10);
        reveal_with_fuel(lacks, 10);
        lemma_single("[GAME]\n{\n"@, 7);
        lemma_lacks("[GAME]\n{\n"@, 9, '=');
    }
    assert(occurrences("\t[MODOPTIONS]\n\t{\n"@, '{') == 1 && occurrences("\t[MODOPTIONS]\n\t{\n"@, '}') == 0 && no_equals("\t[MODOPTIONS]\n\t{\n"@)) by {
        reveal_strlit("\t[MODOPTIONS]\n\t{\n");
        reveal_with_fuel(clear_except, 18);
        reveal_with_fuel(lacks, 18);
        lemma_single("\t[MODOPTIONS]\n\t{\n"@, 15);
        lemma_lacks("\t[MODOPTIONS]\n\t{\n"@, 17, '=');
    }
    assert(occurrences("\t[PLAYER0]\n\t{\n"@, '{') == 1 && occurrences("\t[PLAYER0]\n\t{\n"@, '}') == 0 && no_equals("\t[PLAYER0]\n\t{\n"@)) by {
        reveal_strlit("\t[PLAYER0]\n\t{\n");
        reveal_with_fuel(clear_except, 15);
        reveal_with_fuel(lacks, 15);
        lemma_single("\t[PLAYER0]\n\t{\n"@, 12);
        lemma_lacks("\t[PLAYER0]\n\t{\n"@, 14, '=');
    }
    assert(occurrences("]\n\t{\n"@, '{') == 1 && occurrences("]\n\t{\n"@, '}') == 0 && no_equals("]\n\t{\n"@)) by {
        reveal_strlit("]\n\t{\n");
        reveal_with_fuel(clear_except, 6);
        reveal_with_fuel(lacks, 6);
        lemma_single("]\n\t{\n"@, 3);
        lemma_lacks("]\n\t{\n"@, 5, '=');
    }
    assert(occurrences("\t}\n"@, '{') == 0 && occurrences("\t}\n"@, '}') == 1 && no_equals("\t}\n"@)) by {
        reveal_strlit("\t}\n");
        reveal_with_fuel(clear_except, 4);
        reveal_with_fuel(lacks, 4);
        lemma_single("\t}\n"@, 1);
        lemma_lacks("\t}\n"@, 3, '=');
    }
    assert(occurrences("}\n"@, '{') == 0 && occurrences("}\n"@, '}') == 1 && no_equals("}\n"@)) by {
        reveal_strlit("}\n");
        reveal_with_fuel(clear_except, 3);
        reveal_with_fuel(lacks, 3);
        lemma_single("}\n"@, 0);
        lemma_lacks("}\n"@, 2, '=');
    }
}

/// Every key and value in a list of pairs is free of braces, and no key
/// holds an `=`.
pub open spec fn pairs_free(ps: Seq<(Seq<char>, Seq<char>)>) -> bool {
    forall|i: int|
        0 <= i < ps.len() ==> no_braces(#[trigger] ps[i].0) && no_braces(ps[i].1) && no_equals(
            ps[i].0,
        )
}

#[verifier::spinoff_prover]
proof fn lemma_pairs_free_concat(a: Seq<(Seq<char>, Seq<char>)>, b: Seq<(Seq<char>, Seq<char>)>)
    requires
        pairs_free(a),
        pairs_free(b),
    ensures
        pairs_free(a + b),
{
    assert forall|i: int| 0 <= i < (a + b).len() implies no_braces(#[trigger] (a + b)[i].0)
        && no_braces((a + b)[i].1) && no_equals((a + b)[i].0) by {
        if i >= a.len() {
            let k = i - a.len();
            assert((a + b)[i] == b[k]);
            assert(no_braces(b[k].0) && no_braces(b[k].1) && no_equals(b[k].0));
        } else {
            vstd::seq::axiom_seq_add_index1(a, b, i);
            assert(no_braces(a[i].0) && no_braces(a[i].1) && no_equals(a[i].0));
        }
    }
}

proof fn lemma_encoded_no_braces(t: Seq<char>)
    ensures
        no_braces(encoded(t)),
{
    lemma_base64_no_braces(encode_utf8(t));
}

proof fn lemma_unit_chunks_free(mine: Seq<Placed>, block: nat)
    ensures
        pairs_free(unit_chunks(mine, block)),
    decreases mine.len(),
{
    if mine.len() > 0 {
        lemma_script_literals();
        let n: int = if mine.len() < 40 {
            mine.len() as int
        } else {
            40
        };
        let k = "extrastartunits_"@ + decimal(block + 1);
        let v = encoded(list_text(mine.take(n).map_values(|u: Placed| placed_text(u))));
        lemma_decimal_no_braces(block + 1);
        lemma_no_braces_concat("extrastartunits_"@, decimal(block + 1));
        lemma_decimal_no_equals(block + 1);
        lemma_no_equals_concat("extrastartunits_"@, decimal(block + 1));
        lemma_encoded_no_braces(list_text(mine.take(n).map_values(|u: Placed| placed_text(u))));
        let first = seq![(k, v)];
        assert(pairs_free(first));
        if mine.len() > 40 {
            lemma_unit_chunks_free(mine.skip(40), block + 1);
            lemma_pairs_free_concat(first, unit_chunks(mine.skip(40), block + 1));
        } else {
            assert(first + Seq::<(Seq<char>, Seq<char>)>::empty() =~= first);
        }
    }
}

proof fn lemma_modoptions_free(s: Scenario)
    ensures
        pairs_free(modoptions_spec(s)),
{
    lemma_script_literals();
    let arm = seq![("singleplayercampaignbattleid"@, "splaunch"@)];
    let goals: Seq<(Seq<char>, Seq<char>)> = if s.goals@.len() > 0 {
        seq![
            ("bonusobjectiveconfig"@, encoded(goals_text(s.goals@))),
            ("objectiveconfig"@, encoded(goals_text(s.goals@))),
        ]
    } else {
        seq![]
    };
    let features: Seq<(Seq<char>, Seq<char>)> = if s.features@.len() > 0 {
        seq![("featurestospawn"@, encoded(features_text(s.features@)))]
    } else {
        seq![]
    };
    let briefing: Seq<(Seq<char>, Seq<char>)> = match s.briefing {
        Some(text) => if !is_blank(text@) {
            seq![("planetmissioninformationtext"@, encoded(briefing_text(s.name@, text@)))]
        } else {
            seq![]
        },
        None => seq![],
    };
    lemma_encoded_no_braces(goals_text(s.goals@));
    lemma_encoded_no_braces(features_text(s.features@));
    match s.briefing {
        Some(text) => lemma_encoded_no_braces(briefing_text(s.name@, text@)),
        None => {},
    }
    assert(pairs_free(arm));
    assert(pairs_free(goals));
    assert(pairs_free(features));
    assert(pairs_free(briefing));
    lemma_pairs_free_concat(arm, goals);
    lemma_pairs_free_concat(arm + goals, features);
    lemma_pairs_free_concat(arm + goals + features, briefing);
    assert(modoptions_spec(s) == arm + goals + features + briefing);
}

proof fn lemma_game_counts(s: Scenario, player: Seq<char>)
    ensures
        occurrences(game_section(s, player), '{') == 1,
        occurrences(game_section(s, player), '}') == 0,
{
    lemma_script_literals();
    let t = "\t"@;
    lemma_escaped_no_braces(s.map@);
    lemma_escaped_no_braces(s.game@);
    lemma_escaped_no_braces(player);
    let h = "[GAME]\n{\n"@;
    let k1 = key_line(t, "Mapname"@, escaped(s.map@));
    let k2 = key_line(t, "GameType"@, escaped(s.game@));
    let k3 = key_line(t, "MyPlayerName"@, escaped(player));
    let k4 = key_line(t, "IsHost"@, "1"@);
    let k5 = key_line(t, "OnlyLocal"@, "1"@);
    let k6 = key_line(t, "StartPosType"@, "2"@);
    let k7 = key_line(t, "GameStartDelay"@, "0"@);
    let k8 = key_line(t, "NumRestrictions"@, "0"@);
    lemma_key_line_no_braces(t, "Mapname"@, escaped(s.map@));
    lemma_key_line_no_braces(t, "GameType"@, escaped(s.game@));
    lemma_key_line_no_braces(t, "MyPlayerName"@, escaped(player));
    lemma_key_line_no_braces(t, "IsHost"@, "1"@);
    lemma_key_line_no_braces(t, "OnlyLocal"@, "1"@);
    lemma_key_line_no_braces(t, "StartPosType"@, "2"@);
    lemma_key_line_no_braces(t, "GameStartDelay"@, "0"@);
    lemma_key_line_no_braces(t, "NumRestrictions"@, "0"@);
    lemma_free(h, k1);
    lemma_free(h + k1, k2);
    lemma_free(h + k1 + k2, k3);
    lemma_free(h + k1 + k2 + k3, k4);
    lemma_free(h + k1 + k2 + k3 + k4, k5);
    lemma_free(h + k1 + k2 + k3 + k4 + k5, k6);
    lemma_free(h + k1 + k2 + k3 + k4 + k5 + k6, k7);
    lemma_free(h + k1 + k2 + k3 + k4 + k5 + k6 + k7, k8);
}

proof fn lemma_modoptions_counts(s: Scenario)
    ensures
        occurrences(modoptions_section(s), '{') == 1,
        occurrences(modoptions_section(s), '}') == 1,
{
    lemma_script_literals();
    let h = "\t[MODOPTIONS]\n\t{\n"@;
    let k = key_line("\t\t"@, "noelo"@, "1"@);
    let lines = option_lines("\t\t"@, modoptions_spec(s));
    lemma_key_line_no_braces("\t\t"@, "noelo"@, "1"@);
    lemma_modoptions_free(s);
    lemma_option_lines_no_braces("\t\t"@, modoptions_spec(s));
    lemma_free(h, k);
    lemma_free(h + k, lines);
    lemma_join(h + k + lines, "\t}\n"@);
}

proof fn lemma_player_counts(s: Scenario, player: Seq<char>)
    ensures
        occurrences(player_section(s, player), '{') == 1,
        occurrences(player_section(s, player), '}') == 1,
{
    lemma_script_literals();
    let h = "\t[PLAYER0]\n\t{\n"@;
    lemma_escaped_no_braces(player);
    lemma_decimal_no_braces(human_team(s.teams@) as nat);
    let k1 = key_line("\t\t"@, "Name"@, escaped(player));
    let k2 = key_line("\t\t"@, "Team"@, decimal(human_team(s.teams@) as nat));
    lemma_key_line_no_braces("\t\t"@, "Name"@, escaped(player));
    lemma_key_line_no_braces("\t\t"@, "Team"@, decimal(human_team(s.teams@) as nat));
    lemma_free(h, k1);
    lemma_free(h + k1, k2);
    lemma_join(h + k1 + k2, "\t}\n"@);
}

/// A numbered section header, `<open>N]` and the line that opens it.
proof fn lemma_header_counts(open: Seq<char>, n: nat)
    requires
        no_braces(open),
    ensures
        occurrences(open + decimal(n) + "]\n\t{\n"@, '{') == 1,
        occurrences(open + decimal(n) + "]\n\t{\n"@, '}') == 0,
{
    lemma_script_literals();
    lemma_decimal_no_braces(n);
    lemma_no_braces_concat(open, decimal(n));
    lemma_no_braces_none(open + decimal(n));
    lemma_join(open + decimal(n), "]\n\t{\n"@);
}

proof fn lemma_ai_counts(i: nat, t: Team, ai: Seq<char>)
    ensures
        occurrences(ai_section(i, t, ai), '{') == 1,
        occurrences(ai_section(i, t, ai), '}') == 1,
{
    lemma_script_literals();
    let h = "\t[AI"@ + decimal(i) + "]\n\t{\n"@;
    lemma_header_counts("\t[AI"@, i);
    lemma_decimal_no_braces(t.id as nat);
    lemma_no_braces_concat("AI "@, decimal(t.id as nat));
    lemma_escaped_no_braces(ai);
    let k1 = key_line("\t\t"@, "Name"@, "AI "@ + decimal(t.id as nat));
    let k2 = key_line("\t\t"@, "ShortName"@, escaped(ai));
    let k3 = key_line("\t\t"@, "Team"@, decimal(t.id as nat));
    let k4 = key_line("\t\t"@, "Host"@, "0"@);
    lemma_key_line_no_braces("\t\t"@, "Name"@, "AI "@ + decimal(t.id as nat));
    lemma_key_line_no_braces("\t\t"@, "ShortName"@, escaped(ai));
    lemma_key_line_no_braces("\t\t"@, "Team"@, decimal(t.id as nat));
    lemma_key_line_no_braces("\t\t"@, "Host"@, "0"@);
    lemma_free(h, k1);
    lemma_free(h + k1, k2);
    lemma_free(h + k1 + k2, k3);
    lemma_free(h + k1 + k2 + k3, k4);
    lemma_join(h + k1 + k2 + k3 + k4, "\t}\n"@);
}

proof fn lemma_ai_sections_balanced(teams: Seq<Team>, i: nat)
    ensures
        balanced(ai_sections(teams, i)),
    decreases teams.len(),
{
    if teams.len() > 0 {
        lemma_ai_sections_balanced(teams.drop_last(), i);
        match teams.last().ai {
            Some(a) => {
                lemma_ai_counts(i + ai_count(teams.drop_last()), teams.last(), a@);
                lemma_join(
                    ai_sections(teams.drop_last(), i),
                    ai_section(i + ai_count(teams.drop_last()), teams.last(), a@),
                );
            },
            None => {},
        }
    }
}

proof fn lemma_team_counts(s: Scenario, t: Team)
    ensures
        occurrences(team_section(s, t), '{') == 1,
        occurrences(team_section(s, t), '}') == 1,
{
    lemma_script_literals();
    let h = "\t[TEAM"@ + decimal(t.id as nat) + "]\n\t{\n"@;
    lemma_header_counts("\t[TEAM"@, t.id as nat);
    lemma_decimal_no_braces(t.ally as nat);
    lemma_escaped_no_braces(t.colour@);
    let k1 = key_line("\t\t"@, "TeamLeader"@, "0"@);
    let k2 = key_line("\t\t"@, "AllyTeam"@, decimal(t.ally as nat));
    let k3 = key_line("\t\t"@, "RGBColor"@, escaped(t.colour@));
    let chunks = unit_chunks(team_units(s.units@, t.id), 0);
    let lines = option_lines("\t\t"@, chunks);
    lemma_key_line_no_braces("\t\t"@, "TeamLeader"@, "0"@);
    lemma_key_line_no_braces("\t\t"@, "AllyTeam"@, decimal(t.ally as nat));
    lemma_key_line_no_braces("\t\t"@, "RGBColor"@, escaped(t.colour@));
    lemma_unit_chunks_free(team_units(s.units@, t.id), 0);
    lemma_option_lines_no_braces("\t\t"@, chunks);
    lemma_free(h, k1);
    lemma_free(h + k1, k2);
    lemma_free(h + k1 + k2, k3);
    lemma_free(h + k1 + k2 + k3, lines);
    lemma_join(h + k1 + k2 + k3 + lines, "\t}\n"@);
}

proof fn lemma_team_sections_balanced(s: Scenario, teams: Seq<Team>)
    ensures
        balanced(team_sections(s, teams)),
    decreases teams.len(),
{
    if teams.len() > 0 {
        lemma_team_sections_balanced(s, teams.drop_last());
        lemma_team_counts(s, teams.last());
        lemma_join(team_sections(s, teams.drop_last()), team_section(s, teams.last()));
    }
}

proof fn lemma_ally_sections_balanced(allies: Seq<u32>)
    ensures
        balanced(ally_sections(allies)),
    decreases allies.len(),
{
    if allies.len() > 0 {
        lemma_script_literals();
        let a = allies.last();
        lemma_ally_sections_balanced(allies.drop_last());
        let h = "\t[ALLYTEAM"@ + decimal(a as nat) + "]\n\t{\n"@;
        lemma_header_counts("\t[ALLYTEAM"@, a as nat);
        let k = key_line("\t\t"@, "NumAllies"@, "0"@);
        lemma_key_line_no_braces("\t\t"@, "NumAllies"@, "0"@);
        lemma_free(h, k);
        lemma_join(h + k, "\t}\n"@);
        assert(ally_section(a) == h + k + "\t}\n"@);
        lemma_join(ally_sections(allies.drop_last()), ally_section(a));
    }
}

/// Every script the writer produces closes exactly as many sections as it
/// opens, whatever the scenario holds and whatever the player is called:
/// names, colours and AI names lose their braces to escaping, and every
/// payload is base64.
pub proof fn law_scripts_balance_their_braces(s: Scenario, player: Seq<char>)
    ensures
        balanced(script_text(s, player)),
{
    lemma_script_literals();
    let g = game_section(s, player);
    let m = modoptions_section(s);
    let p = player_section(s, player);
    let a = ai_sections(s.teams@, 0);
    let t = team_sections(s, s.teams@);
    let y = ally_sections(allies_of(s.teams@));
    lemma_game_counts(s, player);
    lemma_modoptions_counts(s);
    lemma_player_counts(s, player);
    lemma_ai_sections_balanced(s.teams@, 0);
    lemma_team_sections_balanced(s, s.teams@);
    lemma_ally_sections_balanced(allies_of(s.teams@));
    lemma_join(g, m);
    lemma_join(g + m, p);
    lemma_join(g + m + p, a);
    lemma_join(g + m + p + a, t);
    lemma_join(g + m + p + a + t, y);
    lemma_join(g + m + p + a + t + y, "}\n"@);
}

// ------------------------------------------------------------- escaping -----

/// Escaping removes the characters that would change a script's shape and
/// nothing else: what comes out holds no delimiter, and a value that held
/// none comes out as it went in.
pub proof fn law_escaping_removes_only_delimiters(s: Seq<char>)
    ensures
        forall|i: int| 0 <= i < escaped(s).len() ==> !is_delimiter(#[trigger] escaped(s)[i]),
        (forall|i: int| 0 <= i < s.len() ==> !is_delimiter(#[trigger] s[i])) ==> escaped(s) == s,
    decreases s.len(),
{
    if s.len() > 0 {
        law_escaping_removes_only_delimiters(s.drop_last());
        let e = escaped(s.drop_last());
        if !is_delimiter(s.last()) {
            assert forall|i: int| 0 <= i < escaped(s).len() implies !is_delimiter(
                #[trigger] escaped(s)[i],
            ) by {
                if i < e.len() {
                    assert(escaped(s)[i] == e[i]);
                }
            }
        }
        if forall|i: int| 0 <= i < s.len() ==> !is_delimiter(#[trigger] s[i]) {
            assert forall|i: int| 0 <= i < s.drop_last().len() implies !is_delimiter(
                #[trigger] s.drop_last()[i],
            ) by {
                assert(s.drop_last()[i] == s[i]);
            }
            assert(!is_delimiter(s[s.len() - 1]));
            assert(s.drop_last().push(s.last()) =~= s);
        }
    }
}

// --------------------------------------------------------- placed units -----

/// A team's units go forty to a key, and the keys are numbered one after
/// another from `block + 1`: `n` units take `ceil(n / 40)` keys.
pub proof fn law_units_go_forty_to_a_key(mine: Seq<Placed>, block: nat)
    ensures
        unit_chunks(mine, block).len() == (mine.len() + 39) / 40,
        forall|k: int| 0 <= k < unit_chunks(mine, block).len() ==> (#[trigger] unit_chunks(mine, block)[k]).0
            == "extrastartunits_"@ + decimal((block + k + 1) as nat),
    decreases mine.len(),
{
    if mine.len() > 0 {
        let c = unit_chunks(mine, block);
        if mine.len() > 40 {
            law_units_go_forty_to_a_key(mine.skip(40), block + 1);
            let rest = unit_chunks(mine.skip(40), block + 1);
            assert forall|k: int| 0 <= k < c.len() implies (#[trigger] c[k]).0 == "extrastartunits_"@
                + decimal((block + k + 1) as nat) by {
                if k > 0 {
                    assert(c[k] == rest[k - 1]);
                }
            }
        }
    }
}

// ----------------------------------------------------- terminated values -----

/// After every `=`, a `;` comes before any `}`: the engine splits an
/// assignment at its first `=` and reads to the `;`, and a value the section
/// closes around is an error. An `=` inside a value - base64 pads with it -
/// is covered too, since its value ends at the same `;`.
pub open spec fn values_terminated(t: Seq<char>) -> bool {
    forall|i: int|
        0 <= i < t.len() && #[trigger] t[i] == '=' ==> exists|j: int|
            i < j < t.len() && t[j] == ';' && forall|k: int| i < k < j ==> #[trigger] t[k] != '}'
}

/// Text with no `=` in it has nothing to terminate.
proof fn lemma_no_assignment(t: Seq<char>)
    requires
        forall|i: int| 0 <= i < t.len() ==> #[trigger] t[i] != '=',
    ensures
        values_terminated(t),
{
}

#[verifier::spinoff_prover]
proof fn lemma_terminated_concat(a: Seq<char>, b: Seq<char>)
    requires
        values_terminated(a),
        values_terminated(b),
    ensures
        values_terminated(a + b),
{
    let t = a + b;
    assert forall|i: int| 0 <= i < t.len() && #[trigger] t[i] == '=' implies exists|j: int|
        i < j < t.len() && t[j] == ';' && forall|k: int| i < k < j ==> #[trigger] t[k] != '}' by {
        if i < a.len() {
            vstd::seq::axiom_seq_add_index1(a, b, i);
            assert(a[i] == '=');
            let j = choose|j: int|
                i < j < a.len() && a[j] == ';' && forall|k: int| i < k < j ==> #[trigger] a[k] != '}';
            vstd::seq::axiom_seq_add_index1(a, b, j);
            assert forall|k: int| i < k < j implies #[trigger] t[k] != '}' by {
                vstd::seq::axiom_seq_add_index1(a, b, k);
            }
        } else {
            let ib = i - a.len();
            vstd::seq::axiom_seq_add_index2(a, b, i);
            assert(b[ib] == '=');
            let jb = choose|j: int|
                ib < j < b.len() && b[j] == ';' && forall|k: int| ib < k < j ==> #[trigger] b[k] != '}';
            vstd::seq::axiom_seq_add_index2(a, b, jb + a.len());
            assert forall|k: int| i < k < jb + a.len() implies #[trigger] t[k] != '}' by {
                vstd::seq::axiom_seq_add_index2(a, b, k);
                assert(b[k - a.len()] != '}');
            }
        }
    }
}

proof fn lemma_key_line_terminated(indent: Seq<char>, k: Seq<char>, v: Seq<char>)
    requires
        no_equals(indent),
        no_equals(k),
        no_braces(indent),
        no_braces(k),
        no_braces(v),
    ensures
        values_terminated(key_line(indent, k, v)),
{
    let t = key_line(indent, k, v);
    let n = t.len();
    let head = indent + k;
    let eq = seq!['='];
    let end = seq![';', '\n'];
    lemma_no_braces_concat(indent, k);
    lemma_no_braces_concat(head, eq);
    lemma_no_braces_concat(head + eq, v);
    assert(t =~= head + eq + v + end);
    assert(t[n - 2] == ';');
    assert forall|m: int| 0 <= m < n - 2 implies #[trigger] t[m] != '}' by {
        assert(t[m] == (head + eq + v)[m]);
    }
    assert forall|i: int| 0 <= i < n && #[trigger] t[i] == '=' implies exists|j: int|
        i < j < n && t[j] == ';' && forall|m: int| i < m < j ==> #[trigger] t[m] != '}' by {
        if i < head.len() {
            if i < indent.len() {
                assert(t[i] == indent[i]);
            } else {
                assert(t[i] == k[i - indent.len()]);
            }
        }
        assert(i < n - 2);
        assert(forall|m: int| i < m < n - 2 ==> #[trigger] t[m] != '}');
    }
}

proof fn lemma_option_lines_terminated(indent: Seq<char>, ps: Seq<(Seq<char>, Seq<char>)>)
    requires
        no_equals(indent),
        no_braces(indent),
        pairs_free(ps),
    ensures
        values_terminated(option_lines(indent, ps)),
    decreases ps.len(),
{
    if ps.len() == 0 {
        lemma_no_assignment(option_lines(indent, ps));
    } else {
        assert forall|i: int| 0 <= i < ps.drop_last().len() implies no_braces(
            #[trigger] ps.drop_last()[i].0,
        ) && no_braces(ps.drop_last()[i].1) && no_equals(ps.drop_last()[i].0) by {
            assert(ps.drop_last()[i] == ps[i]);
            assert(no_braces(ps[i].0) && no_braces(ps[i].1) && no_equals(ps[i].0));
        }
        lemma_option_lines_terminated(indent, ps.drop_last());
        assert(no_braces(ps[ps.len() - 1].0) && no_braces(ps[ps.len() - 1].1) && no_equals(
            ps[ps.len() - 1].0,
        ));
        let last = ps[ps.len() - 1];
        lemma_key_line_terminated(indent, last.0, last.1);
        lemma_terminated_concat(option_lines(indent, ps.drop_last()), key_line(indent, last.0, last.1));
    }
}

/// A section header `<open>N]` and the line that opens it holds no `=`.
proof fn lemma_header_terminated(open: Seq<char>, n: nat)
    requires
        no_equals(open),
    ensures
        values_terminated(open + decimal(n) + "]\n\t{\n"@),
{
    lemma_script_literals();
    lemma_decimal_no_equals(n);
    lemma_no_equals_concat(open, decimal(n));
    lemma_no_equals_concat(open + decimal(n), "]\n\t{\n"@);
    lemma_no_assignment(open + decimal(n) + "]\n\t{\n"@);
}

proof fn lemma_game_terminated(s: Scenario, player: Seq<char>)
    ensures
        values_terminated(game_section(s, player)),
{
    lemma_script_literals();
    let t = "\t"@;
    lemma_escaped_no_braces(s.map@);
    lemma_escaped_no_braces(s.game@);
    lemma_escaped_no_braces(player);
    let h = "[GAME]\n{\n"@;
    lemma_no_assignment(h);
    lemma_key_line_terminated(t, "Mapname"@, escaped(s.map@));
    lemma_key_line_terminated(t, "GameType"@, escaped(s.game@));
    lemma_key_line_terminated(t, "MyPlayerName"@, escaped(player));
    lemma_key_line_terminated(t, "IsHost"@, "1"@);
    lemma_key_line_terminated(t, "OnlyLocal"@, "1"@);
    lemma_key_line_terminated(t, "StartPosType"@, "2"@);
    lemma_key_line_terminated(t, "GameStartDelay"@, "0"@);
    lemma_key_line_terminated(t, "NumRestrictions"@, "0"@);
    let k1 = key_line(t, "Mapname"@, escaped(s.map@));
    let k2 = key_line(t, "GameType"@, escaped(s.game@));
    let k3 = key_line(t, "MyPlayerName"@, escaped(player));
    let k4 = key_line(t, "IsHost"@, "1"@);
    let k5 = key_line(t, "OnlyLocal"@, "1"@);
    let k6 = key_line(t, "StartPosType"@, "2"@);
    let k7 = key_line(t, "GameStartDelay"@, "0"@);
    let k8 = key_line(t, "NumRestrictions"@, "0"@);
    lemma_terminated_concat(h, k1);
    lemma_terminated_concat(h + k1, k2);
    lemma_terminated_concat(h + k1 + k2, k3);
    lemma_terminated_concat(h + k1 + k2 + k3, k4);
    lemma_terminated_concat(h + k1 + k2 + k3 + k4, k5);
    lemma_terminated_concat(h + k1 + k2 + k3 + k4 + k5, k6);
    lemma_terminated_concat(h + k1 + k2 + k3 + k4 + k5 + k6, k7);
    lemma_terminated_concat(h + k1 + k2 + k3 + k4 + k5 + k6 + k7, k8);
}

proof fn lemma_modoptions_terminated(s: Scenario)
    ensures
        values_terminated(modoptions_section(s)),
{
    lemma_script_literals();
    let h = "\t[MODOPTIONS]\n\t{\n"@;
    let k = key_line("\t\t"@, "noelo"@, "1"@);
    let lines = option_lines("\t\t"@, modoptions_spec(s));
    lemma_no_assignment(h);
    lemma_no_assignment("\t}\n"@);
    lemma_key_line_terminated("\t\t"@, "noelo"@, "1"@);
    lemma_modoptions_free(s);
    lemma_option_lines_terminated("\t\t"@, modoptions_spec(s));
    lemma_terminated_concat(h, k);
    lemma_terminated_concat(h + k, lines);
    lemma_terminated_concat(h + k + lines, "\t}\n"@);
}

proof fn lemma_player_terminated(s: Scenario, player: Seq<char>)
    ensures
        values_terminated(player_section(s, player)),
{
    lemma_script_literals();
    let h = "\t[PLAYER0]\n\t{\n"@;
    lemma_escaped_no_braces(player);
    lemma_decimal_no_braces(human_team(s.teams@) as nat);
    let k1 = key_line("\t\t"@, "Name"@, escaped(player));
    let k2 = key_line("\t\t"@, "Team"@, decimal(human_team(s.teams@) as nat));
    lemma_no_assignment(h);
    lemma_no_assignment("\t}\n"@);
    lemma_key_line_terminated("\t\t"@, "Name"@, escaped(player));
    lemma_key_line_terminated("\t\t"@, "Team"@, decimal(human_team(s.teams@) as nat));
    lemma_terminated_concat(h, k1);
    lemma_terminated_concat(h + k1, k2);
    lemma_terminated_concat(h + k1 + k2, "\t}\n"@);
}

proof fn lemma_ai_terminated(i: nat, t: Team, ai: Seq<char>)
    ensures
        values_terminated(ai_section(i, t, ai)),
{
    lemma_script_literals();
    let h = "\t[AI"@ + decimal(i) + "]\n\t{\n"@;
    lemma_header_terminated("\t[AI"@, i);
    lemma_decimal_no_braces(t.id as nat);
    lemma_no_braces_concat("AI "@, decimal(t.id as nat));
    lemma_escaped_no_braces(ai);
    lemma_no_assignment("\t}\n"@);
    lemma_key_line_terminated("\t\t"@, "Name"@, "AI "@ + decimal(t.id as nat));
    lemma_key_line_terminated("\t\t"@, "ShortName"@, escaped(ai));
    lemma_key_line_terminated("\t\t"@, "Team"@, decimal(t.id as nat));
    lemma_key_line_terminated("\t\t"@, "Host"@, "0"@);
    let k1 = key_line("\t\t"@, "Name"@, "AI "@ + decimal(t.id as nat));
    let k2 = key_line("\t\t"@, "ShortName"@, escaped(ai));
    let k3 = key_line("\t\t"@, "Team"@, decimal(t.id as nat));
    let k4 = key_line("\t\t"@, "Host"@, "0"@);
    lemma_terminated_concat(h, k1);
    lemma_terminated_concat(h + k1, k2);
    lemma_terminated_concat(h + k1 + k2, k3);
    lemma_terminated_concat(h + k1 + k2 + k3, k4);
    lemma_terminated_concat(h + k1 + k2 + k3 + k4, "\t}\n"@);
}

proof fn lemma_ai_sections_terminated(teams: Seq<Team>, i: nat)
    ensures
        values_terminated(ai_sections(teams, i)),
    decreases teams.len(),
{
    if teams.len() == 0 {
        lemma_no_assignment(ai_sections(teams, i));
    } else {
        lemma_ai_sections_terminated(teams.drop_last(), i);
        match teams.last().ai {
            Some(a) => {
                lemma_ai_terminated(i + ai_count(teams.drop_last()), teams.last(), a@);
                lemma_terminated_concat(
                    ai_sections(teams.drop_last(), i),
                    ai_section(i + ai_count(teams.drop_last()), teams.last(), a@),
                );
            },
            None => {},
        }
    }
}

proof fn lemma_team_terminated(s: Scenario, t: Team)
    ensures
        values_terminated(team_section(s, t)),
{
    lemma_script_literals();
    let h = "\t[TEAM"@ + decimal(t.id as nat) + "]\n\t{\n"@;
    lemma_header_terminated("\t[TEAM"@, t.id as nat);
    lemma_decimal_no_braces(t.ally as nat);
    lemma_escaped_no_braces(t.colour@);
    lemma_no_assignment("\t}\n"@);
    let k1 = key_line("\t\t"@, "TeamLeader"@, "0"@);
    let k2 = key_line("\t\t"@, "AllyTeam"@, decimal(t.ally as nat));
    let k3 = key_line("\t\t"@, "RGBColor"@, escaped(t.colour@));
    let chunks = unit_chunks(team_units(s.units@, t.id), 0);
    let lines = option_lines("\t\t"@, chunks);
    lemma_key_line_terminated("\t\t"@, "TeamLeader"@, "0"@);
    lemma_key_line_terminated("\t\t"@, "AllyTeam"@, decimal(t.ally as nat));
    lemma_key_line_terminated("\t\t"@, "RGBColor"@, escaped(t.colour@));
    lemma_unit_chunks_free(team_units(s.units@, t.id), 0);
    lemma_option_lines_terminated("\t\t"@, chunks);
    lemma_terminated_concat(h, k1);
    lemma_terminated_concat(h + k1, k2);
    lemma_terminated_concat(h + k1 + k2, k3);
    lemma_terminated_concat(h + k1 + k2 + k3, lines);
    lemma_terminated_concat(h + k1 + k2 + k3 + lines, "\t}\n"@);
}

proof fn lemma_team_sections_terminated(s: Scenario, teams: Seq<Team>)
    ensures
        values_terminated(team_sections(s, teams)),
    decreases teams.len(),
{
    if teams.len() == 0 {
        lemma_no_assignment(team_sections(s, teams));
    } else {
        lemma_team_sections_terminated(s, teams.drop_last());
        lemma_team_terminated(s, teams.last());
        lemma_terminated_concat(team_sections(s, teams.drop_last()), team_section(s, teams.last()));
    }
}

proof fn lemma_ally_sections_terminated(allies: Seq<u32>)
    ensures
        values_terminated(ally_sections(allies)),
    decreases allies.len(),
{
    if allies.len() == 0 {
        lemma_no_assignment(ally_sections(allies));
    } else {
        lemma_script_literals();
        let a = allies.last();
        lemma_ally_sections_terminated(allies.drop_last());
        let h = "\t[ALLYTEAM"@ + decimal(a as nat) + "]\n\t{\n"@;
        lemma_header_terminated("\t[ALLYTEAM"@, a as nat);
        lemma_no_assignment("\t}\n"@);
        let k = key_line("\t\t"@, "NumAllies"@, "0"@);
        lemma_key_line_terminated("\t\t"@, "NumAllies"@, "0"@);
        lemma_terminated_concat(h, k);
        lemma_terminated_concat(h + k, "\t}\n"@);
        assert(ally_section(a) == h + k + "\t}\n"@);
        lemma_terminated_concat(ally_sections(allies.drop_last()), ally_section(a));
    }
}

/// In every script the writer produces, each value is terminated by a `;`
/// before its section closes: the engine splits an assignment at its first
/// `=` and reads to the `;`, and no value - escaped text, a numeral or a
/// base64 payload with its `=` padding - can hold a `;` or a `}`.
pub proof fn law_scripts_terminate_every_value(s: Scenario, player: Seq<char>)
    ensures
        values_terminated(script_text(s, player)),
{
    lemma_script_literals();
    let g = game_section(s, player);
    let m = modoptions_section(s);
    let p = player_section(s, player);
    let a = ai_sections(s.teams@, 0);
    let t = team_sections(s, s.teams@);
    let y = ally_sections(allies_of(s.teams@));
    lemma_game_terminated(s, player);
    lemma_modoptions_terminated(s);
    lemma_player_terminated(s, player);
    lemma_ai_sections_terminated(s.teams@, 0);
    lemma_team_sections_terminated(s, s.teams@);
    lemma_ally_sections_terminated(allies_of(s.teams@));
    lemma_no_assignment("}\n"@);
    lemma_terminated_concat(g, m);
    lemma_terminated_concat(g + m, p);
    lemma_terminated_concat(g + m + p, a);
    lemma_terminated_concat(g + m + p + a, t);
    lemma_terminated_concat(g + m + p + a + t, y);
    lemma_terminated_concat(g + m + p + a + t + y, "}\n"@);
}

// ------------------------------------------------------------- payloads -----

/// The first `n` characters can travel through Zero-K's decoder unescaped.
pub open spec fn wire_upto(s: Seq<char>, n: int) -> bool
    decreases n,
{
    if n <= 0 {
        true
    } else {
        wire_char(s[n - 1]) && wire_upto(s, n - 1)
    }
}

proof fn lemma_wire_upto(s: Seq<char>, n: int)
    requires
        wire_upto(s, n),
    ensures
        forall|i: int| 0 <= i < n ==> wire_char(#[trigger] s[i]),
    decreases n,
{
    if n > 0 {
        lemma_wire_upto(s, n - 1);
    }
}

/// The field names the payloads are written with are wire-safe text.
proof fn lemma_payload_literals()
    ensures
        wire_text("description"@),
        wire_text("victoryByTime"@),
        wire_text("satisfyUntilTime"@),
        wire_text("comparisionType"@),
        wire_text("targetNumber"@),
        wire_text("unitTypes"@),
        wire_text("satisfyByTime"@),
        wire_text("countRemovedUnits"@),
        wire_text("satisfyOnce"@),
        wire_text("lockUnitsOnSatisfy"@),
        wire_text("enemyUnitTypes"@),
        wire_text("onlyCountRemovedUnits"@),
        wire_text("name"@),
        wire_text("x"@),
        wire_text("z"@),
        wire_text("facing"@),
{
    assert(wire_text("description"@)) by {
        reveal_strlit("description");
        reveal_with_fuel(wire_upto, 12);
        lemma_wire_upto("description"@, 11);
    }
    assert(wire_text("victoryByTime"@)) by {
        reveal_strlit("victoryByTime");
        reveal_with_fuel(wire_upto, 14);
        lemma_wire_upto("victoryByTime"@, 13);
    }
    assert(wire_text("satisfyUntilTime"@)) by {
        reveal_strlit("satisfyUntilTime");
        reveal_with_fuel(wire_upto, 17);
        lemma_wire_upto("satisfyUntilTime"@, 16);
    }
    assert(wire_text("comparisionType"@)) by {
        reveal_strlit("comparisionType");
        reveal_with_fuel(wire_upto, 16);
        lemma_wire_upto("comparisionType"@, 15);
    }
    assert(wire_text("targetNumber"@)) by {
        reveal_strlit("targetNumber");
        reveal_with_fuel(wire_upto, 13);
        lemma_wire_upto("targetNumber"@, 12);
    }
    assert(wire_text("unitTypes"@)) by {
        reveal_strlit("unitTypes");
        reveal_with_fuel(wire_upto, 10);
        lemma_wire_upto("unitTypes"@, 9);
    }
    assert(wire_text("satisfyByTime"@)) by {
        reveal_strlit("satisfyByTime");
        reveal_with_fuel(wire_upto, 14);
        lemma_wire_upto("satisfyByTime"@, 13);
    }
    assert(wire_text("countRemovedUnits"@)) by {
        reveal_strlit("countRemovedUnits");
        reveal_with_fuel(wire_upto, 18);
        lemma_wire_upto("countRemovedUnits"@, 17);
    }
    assert(wire_text("satisfyOnce"@)) by {
        reveal_strlit("satisfyOnce");
        reveal_with_fuel(wire_upto, 12);
        lemma_wire_upto("satisfyOnce"@, 11);
    }
    assert(wire_text("lockUnitsOnSatisfy"@)) by {
        reveal_strlit("lockUnitsOnSatisfy");
        reveal_with_fuel(wire_upto, 19);
        lemma_wire_upto("lockUnitsOnSatisfy"@, 18);
    }
    assert(wire_text("enemyUnitTypes"@)) by {
        reveal_strlit("enemyUnitTypes");
        reveal_with_fuel(wire_upto, 15);
        lemma_wire_upto("enemyUnitTypes"@, 14);
    }
    assert(wire_text("onlyCountRemovedUnits"@)) by {
        reveal_strlit("onlyCountRemovedUnits");
        reveal_with_fuel(wire_upto, 22);
        lemma_wire_upto("onlyCountRemovedUnits"@, 21);
    }
    assert(wire_text("name"@)) by {
        reveal_strlit("name");
        reveal_with_fuel(wire_upto, 5);
        lemma_wire_upto("name"@, 4);
    }
    assert(wire_text("x"@)) by {
        reveal_strlit("x");
        reveal_with_fuel(wire_upto, 2);
        lemma_wire_upto("x"@, 1);
    }
    assert(wire_text("z"@)) by {
        reveal_strlit("z");
        reveal_with_fuel(wire_upto, 2);
        lemma_wire_upto("z"@, 1);
    }
    assert(wire_text("facing"@)) by {
        reveal_strlit("facing");
        reveal_with_fuel(wire_upto, 7);
        lemma_wire_upto("facing"@, 6);
    }
}

/// Lua text the decoder reads back exactly: every character wire-safe.
pub open spec fn survives(t: Seq<char>) -> bool {
    game_decode(encode_utf8(encoded(t))) == encode_utf8(t)
}

proof fn lemma_wire_survives(t: Seq<char>)
    requires
        wire_text(t),
    ensures
        survives(t),
{
    law_wire_text_survives_the_decoder(t);
}

proof fn lemma_wire3(a: Seq<char>, b: Seq<char>, c: Seq<char>)
    requires
        wire_text(a),
        wire_text(b),
        wire_text(c),
    ensures
        wire_text(a + b + c),
{
    lemma_wire_concat(a, b);
    lemma_wire_concat(a + b, c);
}

proof fn lemma_field_wire(name: Seq<char>, v: Seq<char>)
    requires
        wire_text(name),
        wire_text(v),
    ensures
        wire_text(field(name, v)),
{
    assert(wire_text(seq!['=']));
    assert(wire_text(seq![',']));
    lemma_wire3(name, seq!['='], v);
    lemma_wire_concat(name + seq!['='] + v, seq![',']);
}

proof fn lemma_str_wire(s: Seq<char>)
    ensures
        wire_text(str_text(s)),
{
    lemma_escaped_wire(encode_utf8(s));
    assert(wire_text(seq!['"']));
    lemma_wire3(seq!['"'], escaped_bytes(encode_utf8(s)), seq!['"']);
}

proof fn lemma_indexed_wire(items: Seq<Seq<char>>)
    requires
        forall|i: int| 0 <= i < items.len() ==> wire_text(#[trigger] items[i]),
    ensures
        wire_text(indexed_entries(items)),
    decreases items.len(),
{
    if items.len() > 0 {
        let init = items.drop_last();
        assert forall|i: int| 0 <= i < init.len() implies wire_text(#[trigger] init[i]) by {
            assert(init[i] == items[i]);
        }
        lemma_indexed_wire(init);
        let k = items.len() as i64;
        let last = items[items.len() - 1];
        assert(wire_text(last));
        lemma_int_text_wire(k as int);
        assert(wire_text(seq!['[']));
        assert(wire_text(seq![']', '=']));
        assert(wire_text(seq![',']));
        lemma_wire3(seq!['['], int_text(k as int), seq![']', '=']);
        lemma_wire3(seq!['['] + int_text(k as int) + seq![']', '='], last, seq![',']);
        assert(entry_text(Key::Index(k), last) == seq!['['] + int_text(k as int) + seq![']', '=']
            + last + seq![',']);
        lemma_wire_concat(indexed_entries(init), entry_text(Key::Index(k), last));
    }
}

proof fn lemma_list_wire(items: Seq<Seq<char>>)
    requires
        forall|i: int| 0 <= i < items.len() ==> wire_text(#[trigger] items[i]),
    ensures
        wire_text(list_text(items)),
{
    lemma_indexed_wire(items);
    assert(wire_text(seq!['{']));
    assert(wire_text(seq!['}']));
    lemma_wire3(seq!['{'], indexed_entries(items), seq!['}']);
}

proof fn lemma_names_wire(names: Seq<Seq<char>>)
    ensures
        wire_text(names_text(names)),
{
    let items = names.map_values(|n: Seq<char>| str_text(n));
    assert forall|i: int| 0 <= i < items.len() implies wire_text(#[trigger] items[i]) by {
        lemma_str_wire(names[i]);
    }
    lemma_list_wire(items);
}

proof fn lemma_goal_wire(o: Objective)
    ensures
        wire_text(goal_text(o)),
{
    lemma_payload_literals();
    lemma_str_wire(o.description@);
    let d = field("description"@, str_text(o.description@));
    lemma_field_wire("description"@, str_text(o.description@));
    let t = bool_text(true);
    assert(wire_text(t));
    lemma_int_text_wire(1);
    lemma_int_text_wire(2);
    lemma_int_text_wire(0);
    let body = goal_body(o.goal);
    assert(wire_text(body)) by {
        match o.goal {
            Goal::WinBefore { seconds } => {
                lemma_int_text_wire(seconds as int);
                lemma_field_wire("victoryByTime"@, int_text(seconds as int));
            },
            Goal::SurviveUntil { seconds, units } => {
                lemma_int_text_wire(seconds as int);
                lemma_field_wire("satisfyUntilTime"@, int_text(seconds as int));
                lemma_field_wire("comparisionType"@, int_text(1));
                lemma_field_wire("targetNumber"@, int_text(1));
                lemma_names_wire(views(units@));
                lemma_field_wire("unitTypes"@, names_text(views(units@)));
                lemma_wire3(
                    field("satisfyUntilTime"@, int_text(seconds as int)),
                    field("comparisionType"@, int_text(1)),
                    field("targetNumber"@, int_text(1)),
                );
                assert(wire_text(Seq::<char>::empty()));
                let head = field("satisfyUntilTime"@, int_text(seconds as int)) + field(
                    "comparisionType"@,
                    int_text(1),
                ) + field("targetNumber"@, int_text(1));
                if units@.len() > 0 {
                    lemma_wire_concat(head, field("unitTypes"@, names_text(views(units@))));
                } else {
                    lemma_wire_concat(head, Seq::<char>::empty());
                }
            },
            Goal::BuildBy { unit, count, seconds } => {
                lemma_int_text_wire(seconds as int);
                lemma_int_text_wire(count as int);
                lemma_names_wire(seq![unit@]);
                let f1 = field("satisfyByTime"@, int_text(seconds as int));
                let f2 = field("countRemovedUnits"@, t);
                let f3 = field("comparisionType"@, int_text(1));
                let f4 = field("targetNumber"@, int_text(count as int));
                let f5 = field("unitTypes"@, names_text(seq![unit@]));
                lemma_field_wire("satisfyByTime"@, int_text(seconds as int));
                lemma_field_wire("countRemovedUnits"@, t);
                lemma_field_wire("comparisionType"@, int_text(1));
                lemma_field_wire("targetNumber"@, int_text(count as int));
                lemma_field_wire("unitTypes"@, names_text(seq![unit@]));
                lemma_wire3(f1, f2, f3);
                lemma_wire3(f1 + f2 + f3, f4, f5);
            },
            Goal::HaveAtOnce { unit, count } => {
                lemma_int_text_wire(count as int);
                lemma_names_wire(seq![unit@]);
                let f1 = field("satisfyOnce"@, t);
                let f2 = field("lockUnitsOnSatisfy"@, t);
                let f3 = field("comparisionType"@, int_text(1));
                let f4 = field("targetNumber"@, int_text(count as int));
                let f5 = field("unitTypes"@, names_text(seq![unit@]));
                lemma_field_wire("satisfyOnce"@, t);
                lemma_field_wire("lockUnitsOnSatisfy"@, t);
                lemma_field_wire("comparisionType"@, int_text(1));
                lemma_field_wire("targetNumber"@, int_text(count as int));
                lemma_field_wire("unitTypes"@, names_text(seq![unit@]));
                lemma_wire3(f1, f2, f3);
                lemma_wire3(f1 + f2 + f3, f4, f5);
            },
            Goal::DestroyAllBy { unit, seconds } => {
                lemma_int_text_wire(seconds as int);
                lemma_names_wire(seq![unit@]);
                let f1 = field("satisfyByTime"@, int_text(seconds as int));
                let f2 = field("comparisionType"@, int_text(2));
                let f3 = field("targetNumber"@, int_text(0));
                let f4 = field("enemyUnitTypes"@, names_text(seq![unit@]));
                lemma_field_wire("satisfyByTime"@, int_text(seconds as int));
                lemma_field_wire("comparisionType"@, int_text(2));
                lemma_field_wire("targetNumber"@, int_text(0));
                lemma_field_wire("enemyUnitTypes"@, names_text(seq![unit@]));
                lemma_wire3(f1, f2, f3);
                lemma_wire_concat(f1 + f2 + f3, f4);
            },
            Goal::KillCount { unit, count } => {
                lemma_int_text_wire(count as int);
                lemma_names_wire(seq![unit@]);
                let f1 = field("satisfyOnce"@, t);
                let f2 = field("onlyCountRemovedUnits"@, t);
                let f3 = field("comparisionType"@, int_text(1));
                let f4 = field("targetNumber"@, int_text(count as int));
                let f5 = field("enemyUnitTypes"@, names_text(seq![unit@]));
                lemma_field_wire("satisfyOnce"@, t);
                lemma_field_wire("onlyCountRemovedUnits"@, t);
                lemma_field_wire("comparisionType"@, int_text(1));
                lemma_field_wire("targetNumber"@, int_text(count as int));
                lemma_field_wire("enemyUnitTypes"@, names_text(seq![unit@]));
                lemma_wire3(f1, f2, f3);
                lemma_wire3(f1 + f2 + f3, f4, f5);
            },
        }
    }
    assert(wire_text(seq!['{']));
    assert(wire_text(seq!['}']));
    lemma_wire3(seq!['{'], d, body);
    lemma_wire_concat(seq!['{'] + d + body, seq!['}']);
}

/// A placed unit's position is a numeral; so is a feature's.
pub open spec fn placed_ok(u: Placed) -> bool {
    is_numeral(u.x@) && is_numeral(u.z@)
}

pub open spec fn feature_ok(f: Feature) -> bool {
    is_numeral(f.x@) && is_numeral(f.z@)
}

proof fn lemma_placed_wire(u: Placed)
    requires
        placed_ok(u),
    ensures
        wire_text(placed_text(u)),
{
    lemma_payload_literals();
    lemma_str_wire(u.unit@);
    lemma_numeral_wire(u.x@);
    lemma_numeral_wire(u.z@);
    let f1 = field("name"@, str_text(u.unit@));
    let f2 = field("x"@, u.x@);
    let f3 = field("z"@, u.z@);
    lemma_field_wire("name"@, str_text(u.unit@));
    lemma_field_wire("x"@, u.x@);
    lemma_field_wire("z"@, u.z@);
    assert(wire_text(seq!['{']));
    assert(wire_text(seq!['}']));
    lemma_wire3(seq!['{'], f1, f2);
    lemma_wire3(seq!['{'] + f1 + f2, f3, seq!['}']);
}

proof fn lemma_feature_wire(f: Feature)
    requires
        feature_ok(f),
    ensures
        wire_text(feature_text(f)),
{
    lemma_payload_literals();
    lemma_str_wire(f.name@);
    lemma_numeral_wire(f.x@);
    lemma_numeral_wire(f.z@);
    let f1 = field("name"@, str_text(f.name@));
    let f2 = field("x"@, f.x@);
    let f3 = field("z"@, f.z@);
    lemma_field_wire("name"@, str_text(f.name@));
    lemma_field_wire("x"@, f.x@);
    lemma_field_wire("z"@, f.z@);
    let f4: Seq<char> = match f.facing {
        Some(k) => field("facing"@, int_text(k as int)),
        None => Seq::<char>::empty(),
    };
    match f.facing {
        Some(k) => {
            lemma_int_text_wire(k as int);
            lemma_field_wire("facing"@, int_text(k as int));
        },
        None => {},
    }
    assert(wire_text(f4));
    assert(wire_text(seq!['{']));
    assert(wire_text(seq!['}']));
    lemma_wire3(seq!['{'], f1, f2);
    lemma_wire3(seq!['{'] + f1 + f2, f3, f4);
    lemma_wire_concat(seq!['{'] + f1 + f2 + f3 + f4, seq!['}']);
}

/// Every payload a scenario travels in comes out of Zero-K's faulty decoder
/// as exactly the Lua text that went in: the objectives, the features, the
/// briefing, and each team's placed units, whatever names, descriptions and
/// text in whatever language they hold. The positions need only be numerals,
/// which is all a `Numeral` can be made to hold.
pub proof fn law_every_payload_survives_the_decoder(s: Scenario)
    requires
        forall|i: int| 0 <= i < s.features@.len() ==> feature_ok(#[trigger] s.features@[i]),
    ensures
        survives(goals_text(s.goals@)),
        survives(features_text(s.features@)),
        s.briefing matches Some(text) ==> survives(briefing_text(s.name@, text@)),
{
    lemma_payload_literals();
    let goals = s.goals@.map_values(|o: Objective| goal_text(o));
    assert forall|i: int| 0 <= i < goals.len() implies wire_text(#[trigger] goals[i]) by {
        lemma_goal_wire(s.goals@[i]);
    }
    lemma_list_wire(goals);
    lemma_wire_survives(goals_text(s.goals@));
    let features = s.features@.map_values(|f: Feature| feature_text(f));
    assert forall|i: int| 0 <= i < features.len() implies wire_text(#[trigger] features[i]) by {
        lemma_feature_wire(s.features@[i]);
    }
    lemma_list_wire(features);
    lemma_wire_survives(features_text(s.features@));
    match s.briefing {
        Some(text) => {
            lemma_str_wire(s.name@);
            lemma_str_wire(text@);
            let f1 = field("name"@, str_text(s.name@));
            let f2 = field("description"@, str_text(text@));
            lemma_field_wire("name"@, str_text(s.name@));
            lemma_field_wire("description"@, str_text(text@));
            assert(wire_text(seq!['{']));
            assert(wire_text(seq!['}']));
            lemma_wire3(seq!['{'], f1, f2);
            lemma_wire_concat(seq!['{'] + f1 + f2, seq!['}']);
            lemma_wire_survives(briefing_text(s.name@, text@));
        },
        None => {},
    }
}

/// The placed units' payloads survive too: any list of placed units whose
/// positions are numerals - each `extrastartunits_N` value holds one - comes
/// out of Zero-K's decoder as exactly its Lua text.
pub proof fn law_placed_units_survive_the_decoder(units: Seq<Placed>)
    requires
        forall|i: int| 0 <= i < units.len() ==> placed_ok(#[trigger] units[i]),
    ensures
        survives(list_text(units.map_values(|u: Placed| placed_text(u)))),
{
    let items = units.map_values(|u: Placed| placed_text(u));
    assert forall|i: int| 0 <= i < items.len() implies wire_text(#[trigger] items[i]) by {
        lemma_placed_wire(units[i]);
    }
    lemma_list_wire(items);
    lemma_wire_survives(list_text(items));
}

} // verus!
