//! Zero-K scenarios, and the start script they compile to.
//!
//! A Zero-K scenario's most portable form is a start script, not a file
//! format. The engine reads `script.txt`; units, teams, AIs and modoptions are
//! all expressible there against unmodified Zero-K, with no archive to build
//! and no server to publish to. So "Test" is not a preview: it writes a script
//! and launches the real game into it.
//!
//! The writer escapes rather than refuses. A scenario name is the author's
//! own, and losing their semicolon beats refusing to launch - so delimiters
//! are removed and everything else is kept.
use vstd::prelude::*;
use vstd::utf8::*;

use crate::customkey::{
    self, base64_text, encode, entry_text, lua_string_text, table_text, value_text, Key, Numeral,
    Table, Value,
};
use crate::text::{chars_of, decimal, decimal_string, int_text, is_space, is_space_exec, push_decimal};

verus! {

broadcast use vstd::string::group_string_axioms;

// ------------------------------------------------------------- the model -----

/// One unit placed on the map.
pub struct Placed {
    /// Zero-K's unit name, e.g. `cloakraid`. Not validated here - the engine
    /// is the authority on what exists.
    pub unit: String,
    pub team: u32,
    /// Map position in elmos, as the numeral the script carries.
    pub x: Numeral,
    pub z: Numeral,
}

/// A team in the scenario. Team 0 is the player unless `ai` says otherwise.
pub struct Team {
    pub id: u32,
    pub ally: u32,
    /// None for the human player; otherwise the AI's short name.
    pub ai: Option<String>,
    /// "1 0 0". Left to the caller so the editor and the game agree on colours.
    pub colour: String,
}

/// A wreck, rock or other feature placed on the map.
///
/// Zero-K resurrects a feature whose name ends in `_dead` back into the unit
/// it came from, so placing `armcom_dead` leaves a reclaimable wreck.
pub struct Feature {
    pub name: String,
    pub x: Numeral,
    pub z: Numeral,
    /// 0-3. Random if absent, which is what Zero-K does for scenery.
    pub facing: Option<u32>,
}

/// What an author is actually trying to say, rather than the fields it takes.
///
/// Zero-K's objectives are unit-count comparisons over time windows, and the
/// useful combinations of their fields are not guessable from the names.
/// Each of these compiles to a combination read out of Zero-K's own
/// annotated reference.
pub enum Goal {
    /// Keep at least one of these alive to the deadline.
    SurviveUntil { seconds: u32, units: Vec<String> },
    /// Produce this many, counting ones that died on the way.
    BuildBy { unit: String, count: u32, seconds: u32 },
    /// Have this many at one moment. The satisfying set is frozen so
    /// overbuilding afterwards cannot pad it.
    HaveAtOnce { unit: String, count: u32 },
    /// None of the enemy's left by the deadline.
    DestroyAllBy { unit: String, seconds: u32 },
    /// Kill this many, however long it takes.
    KillCount { unit: String, count: u32 },
    /// Win the match before the clock runs out.
    WinBefore { seconds: u32 },
}

/// One objective: what the player is told, and what the game checks.
pub struct Objective {
    pub description: String,
    pub goal: Goal,
}

pub struct Scenario {
    pub name: String,
    pub map: String,
    pub game: String,
    pub teams: Vec<Team>,
    pub units: Vec<Placed>,
    /// Free-text objectives, shown in the briefing alongside the checked ones.
    pub objectives: Vec<String>,
    /// Objectives the game actually evaluates.
    pub goals: Vec<Objective>,
    pub features: Vec<Feature>,
    /// Shown before the match starts, in Zero-K's briefing window.
    pub briefing: Option<String>,
}

// ------------------------------------------------------------ escaping -----

/// The characters that would change a script's shape.
pub open spec fn is_delimiter(c: char) -> bool {
    c == ';' || c == '{' || c == '}' || c == '\n' || c == '\r'
}

/// A value with every delimiter removed and everything else kept, in order.
pub open spec fn escaped(s: Seq<char>) -> Seq<char>
    decreases s.len(),
{
    if s.len() == 0 {
        seq![]
    } else if is_delimiter(s.last()) {
        escaped(s.drop_last())
    } else {
        escaped(s.drop_last()).push(s.last())
    }
}

/// Anything a script value cannot contain.
///
/// This escapes rather than refuses: a scenario name is the author's to
/// choose. Delimiters are the exception - they change the script's shape, so
/// they are removed rather than represented.
fn escape(value: &str) -> (r: String)
    ensures
        r@ == escaped(value@),
{
    let cs = chars_of(value);
    let mut out = String::new();
    let mut i: usize = 0;
    while i < cs.len()
        invariant
            i <= cs@.len(),
            cs@ == value@,
            out@ == escaped(cs@.subrange(0, i as int)),
        decreases cs@.len() - i,
    {
        let c = cs[i];
        assert(cs@.subrange(0, i + 1).drop_last() =~= cs@.subrange(0, i as int));
        if !(c == ';' || c == '{' || c == '}' || c == '\n' || c == '\r') {
            out.push(c);
        }
        i = i + 1;
    }
    assert(cs@.subrange(0, cs@.len() as int) =~= cs@);
    out
}

/// One `key=value;` line.
pub open spec fn key_line(indent: Seq<char>, k: Seq<char>, v: Seq<char>) -> Seq<char> {
    indent + k + seq!['='] + v + seq![';', '\n']
}

fn key(out: &mut String, indent: &str, k: &str, v: &str)
    ensures
        final(out)@ == old(out)@ + key_line(indent@, k@, v@),
{
    out.push_str(indent);
    out.push_str(k);
    out.push('=');
    out.push_str(v);
    out.push(';');
    out.push('\n');
    assert(final(out)@ =~= old(out)@ + key_line(indent@, k@, v@));
}

// ------------------------------------------------------------ problems -----

/// Nothing but whitespace: what `trim().is_empty()` tests.
pub open spec fn is_blank(s: Seq<char>) -> bool {
    forall|i: int| 0 <= i < s.len() ==> is_space(#[trigger] s[i])
}

pub fn blank(s: &str) -> (r: bool)
    ensures
        r == is_blank(s@),
{
    let cs = chars_of(s);
    let mut i: usize = 0;
    while i < cs.len()
        invariant
            i <= cs@.len(),
            cs@ == s@,
            forall|k: int| 0 <= k < i ==> is_space(#[trigger] cs@[k]),
        decreases cs@.len() - i,
    {
        if !is_space_exec(cs[i]) {
            return false;
        }
        i = i + 1;
    }
    true
}

pub open spec fn has_player(s: Scenario) -> bool {
    exists|i: int| 0 <= i < s.teams@.len() && #[trigger] s.teams@[i].ai is None
}

/// Every team is on the same side.
pub open spec fn one_sided(s: Scenario) -> bool {
    forall|i: int, j: int|
        0 <= i < s.teams@.len() && 0 <= j < s.teams@.len() ==> #[trigger] s.teams@[i].ally
            == #[trigger] s.teams@[j].ally
}

/// A placed unit whose team is not in the scenario.
pub open spec fn orphaned(s: Scenario, u: Placed) -> bool {
    forall|j: int| 0 <= j < s.teams@.len() ==> #[trigger] s.teams@[j].id != u.team
}

/// The first of the first `n` units that is orphaned, if any.
pub open spec fn first_orphan(s: Scenario, n: nat) -> Option<int>
    decreases n,
{
    if n == 0 {
        None
    } else {
        match first_orphan(s, (n - 1) as nat) {
            Some(i) => Some(i),
            None => if (n - 1) < s.units@.len() && orphaned(s, s.units@[n - 1]) {
                Some(n - 1)
            } else {
                None
            },
        }
    }
}

pub open spec fn orphan_problem(u: Placed) -> Seq<char> {
    "A "@ + u.unit@ + " belongs to team "@ + decimal(u.team as nat) + ", which does not exist."@
}

/// What is wrong with a scenario, in the order the editor lists it.
pub open spec fn problems_spec(s: Scenario) -> Seq<Seq<char>> {
    (if is_blank(s.map@) {
        seq!["No map chosen."@]
    } else {
        seq![]
    }) + (if s.teams@.len() == 0 {
        seq!["No teams."@]
    } else {
        seq![]
    }) + (if !has_player(s) {
        seq!["No player team - somebody has to be you."@]
    } else {
        seq![]
    }) + (if s.teams@.len() > 0 && one_sided(s) {
        seq!["Every team is on the same side, so the game ends immediately."@]
    } else {
        seq![]
    }) + (match first_orphan(s, s.units@.len()) {
        Some(i) => seq![orphan_problem(s.units@[i])],
        None => seq![],
    }) + (if s.units@.len() == 0 {
        seq!["Nothing placed yet."@]
    } else {
        seq![]
    })
}

/// The views of a list of strings.
pub open spec fn views(v: Seq<String>) -> Seq<Seq<char>> {
    v.map_values(|x: String| x@)
}

fn push_line(out: &mut Vec<String>, line: &str)
    ensures
        views(final(out)@) == views(old(out)@).push(line@),
{
    out.push(line.to_string());
    assert(views(final(out)@) =~= views(old(out)@).push(line@));
}

fn find_orphan(s: &Scenario) -> (r: Option<usize>)
    ensures
        r matches Some(i) ==> first_orphan(*s, s.units@.len()) == Some(i as int) && i
            < s.units@.len(),
        r is None ==> first_orphan(*s, s.units@.len()) is None,
{
    let mut i: usize = 0;
    while i < s.units.len()
        invariant
            i <= s.units@.len(),
            first_orphan(*s, i as nat) is None,
        decreases s.units@.len() - i,
    {
        let team = s.units[i].team;
        let mut found = false;
        let mut j: usize = 0;
        while j < s.teams.len()
            invariant
                j <= s.teams@.len(),
                team == s.units@[i as int].team,
                found <==> exists|k: int| 0 <= k < j && #[trigger] s.teams@[k].id == team,
            decreases s.teams@.len() - j,
        {
            if s.teams[j].id == team {
                found = true;
            }
            j = j + 1;
        }
        if !found {
            assert(orphaned(*s, s.units@[i as int]));
            assert(first_orphan(*s, (i + 1) as nat) == Some(i as int));
            let mut k: usize = i + 1;
            while k < s.units.len()
                invariant
                    i < k <= s.units@.len(),
                    first_orphan(*s, k as nat) == Some(i as int),
                decreases s.units@.len() - k,
            {
                k = k + 1;
            }
            return Some(i);
        }
        let ghost w = choose|k: int| 0 <= k < s.teams@.len() && s.teams@[k].id == team;
        assert(!orphaned(*s, s.units@[i as int])) by {
            assert(s.teams@[w].id == team);
        }
        i = i + 1;
    }
    None
}

/// What is wrong with this scenario, in sentences a person can act on.
///
/// Returned rather than thrown so the editor can show a count before Test is
/// pressed: an invalid scenario should be visible while it is being made.
pub fn problems(s: &Scenario) -> (r: Vec<String>)
    ensures
        views(r@) == problems_spec(*s),
{
    let mut out: Vec<String> = Vec::new();
    let ghost p = problems_spec(*s);
    if blank(s.map.as_str()) {
        push_line(&mut out, "No map chosen.");
    }
    if s.teams.len() == 0 {
        push_line(&mut out, "No teams.");
    }
    let mut player = false;
    let mut same = true;
    let mut i: usize = 0;
    while i < s.teams.len()
        invariant
            i <= s.teams@.len(),
            player <==> exists|k: int| 0 <= k < i && #[trigger] s.teams@[k].ai is None,
            same <==> forall|k: int| 0 <= k < i ==> #[trigger] s.teams@[k].ally == s.teams@[0].ally,
        decreases s.teams@.len() - i,
    {
        if s.teams[i].ai.is_none() {
            player = true;
        }
        if s.teams[i].ally != s.teams[0].ally {
            same = false;
        }
        i = i + 1;
    }
    if !player {
        push_line(&mut out, "No player team - somebody has to be you.");
    }
    proof {
        if s.teams@.len() > 0 {
            if same {
                assert(one_sided(*s));
            } else {
                let k = choose|k: int| 0 <= k < s.teams@.len() && #[trigger] s.teams@[k].ally != s.teams@[0].ally;
                assert(s.teams@[k].ally != s.teams@[0].ally);
                assert(!one_sided(*s));
            }
        }
    }
    if s.teams.len() > 0 && same {
        push_line(&mut out, "Every team is on the same side, so the game ends immediately.");
    }
    match find_orphan(s) {
        Some(i) => {
            let u = &s.units[i];
            let mut line = "A ".to_string();
            line.push_str(u.unit.as_str());
            line.push_str(" belongs to team ");
            push_decimal(&mut line, u.team as u64);
            line.push_str(", which does not exist.");
            assert(line@ =~= orphan_problem(s.units@[i as int]));
            let ghost before = views(out@);
            out.push(line);
            assert(views(out@) =~= before.push(orphan_problem(s.units@[i as int])));
        },
        None => {},
    }
    if s.units.len() == 0 {
        push_line(&mut out, "Nothing placed yet.");
    }
    assert(views(out@) =~= problems_spec(*s));
    out
}


// ----------------------------------------------------------- objectives -----

/// `name=value,` inside a Lua table literal.
pub open spec fn field(name: Seq<char>, v: Seq<char>) -> Seq<char> {
    name + seq!['='] + v + seq![',']
}

/// A string as Lua reads it from the payload.
pub open spec fn str_text(s: Seq<char>) -> Seq<char> {
    lua_string_text(encode_utf8(s))
}

/// Entries `[1]=..,[2]=..,` for a list of already written values.
pub open spec fn indexed_entries(items: Seq<Seq<char>>) -> Seq<char>
    decreases items.len(),
{
    if items.len() == 0 {
        seq![]
    } else {
        indexed_entries(items.drop_last()) + entry_text(
            Key::Index(items.len() as i64),
            items.last(),
        )
    }
}

/// A Lua array of already written values.
pub open spec fn list_text(items: Seq<Seq<char>>) -> Seq<char> {
    seq!['{'] + indexed_entries(items) + seq!['}']
}

/// A list of unit names as the Lua array Zero-K expects.
pub open spec fn names_text(names: Seq<Seq<char>>) -> Seq<char> {
    list_text(names.map_values(|n: Seq<char>| str_text(n)))
}

proof fn lemma_indexed_push(items: Seq<Seq<char>>, x: Seq<char>)
    ensures
        indexed_entries(items.push(x)) == indexed_entries(items) + entry_text(
            Key::Index((items.len() + 1) as i64),
            x,
        ),
{
    assert(items.push(x).drop_last() =~= items);
}

/// Zero-K's comparison constants, from `mission_galaxy_campaign_battle.lua`.
pub open spec fn at_least() -> Seq<char> {
    int_text(1)
}

pub open spec fn at_most() -> Seq<char> {
    int_text(2)
}

/// The fields each author-facing goal compiles to.
pub open spec fn goal_body(g: Goal) -> Seq<char> {
    match g {
        Goal::WinBefore { seconds } => field("victoryByTime"@, int_text(seconds as int)),
        Goal::SurviveUntil { seconds, units } => field(
            "satisfyUntilTime"@,
            int_text(seconds as int),
        ) + field("comparisionType"@, at_least()) + field("targetNumber"@, int_text(1)) + if units@.len()
            > 0 {
            field("unitTypes"@, names_text(views(units@)))
        } else {
            Seq::<char>::empty()
        },
        Goal::BuildBy { unit, count, seconds } => field("satisfyByTime"@, int_text(seconds as int))
            + field("countRemovedUnits"@, customkey::bool_text(true)) + field(
            "comparisionType"@,
            at_least(),
        ) + field("targetNumber"@, int_text(count as int)) + field(
            "unitTypes"@,
            names_text(seq![unit@]),
        ),
        Goal::HaveAtOnce { unit, count } => field("satisfyOnce"@, customkey::bool_text(true))
            + field("lockUnitsOnSatisfy"@, customkey::bool_text(true)) + field(
            "comparisionType"@,
            at_least(),
        ) + field("targetNumber"@, int_text(count as int)) + field(
            "unitTypes"@,
            names_text(seq![unit@]),
        ),
        Goal::DestroyAllBy { unit, seconds } => field(
            "satisfyByTime"@,
            int_text(seconds as int),
        ) + field("comparisionType"@, at_most()) + field("targetNumber"@, int_text(0)) + field(
            "enemyUnitTypes"@,
            names_text(seq![unit@]),
        ),
        Goal::KillCount { unit, count } => field("satisfyOnce"@, customkey::bool_text(true)) + field(
            "onlyCountRemovedUnits"@,
            customkey::bool_text(true),
        ) + field("comparisionType"@, at_least()) + field("targetNumber"@, int_text(count as int))
            + field("enemyUnitTypes"@, names_text(seq![unit@])),
    }
}

/// One objective, as the Lua table Zero-K evaluates.
pub open spec fn goal_text(o: Objective) -> Seq<char> {
    seq!['{'] + field("description"@, str_text(o.description@)) + goal_body(o.goal) + seq!['}']
}

/// A list of unit names as the Lua array Zero-K expects.
fn unit_list(names: &Vec<String>) -> (r: Value)
    requires
        names@.len() < i64::MAX,
    ensures
        value_text(r) == names_text(views(names@)),
{
    let mut list = Table::new();
    let mut i: usize = 0;
    let ghost items = views(names@).map_values(|n: Seq<char>| str_text(n));
    while i < names.len()
        invariant
            i <= names@.len(),
            names@.len() < i64::MAX,
            items == views(names@).map_values(|n: Seq<char>| str_text(n)),
            list@.len() == i,
            list.body() == indexed_entries(items.subrange(0, i as int)),
        decreases names@.len() - i,
    {
        list.push(customkey::s(names[i].as_str()));
        proof {
            assert(items.subrange(0, i + 1) =~= items.subrange(0, i as int).push(items[i as int]));
            lemma_indexed_push(items.subrange(0, i as int), items[i as int]);
        }
        i = i + 1;
    }
    assert(items.subrange(0, names@.len() as int) =~= items);
    customkey::t(list)
}

fn one_name(unit: &String) -> (r: Vec<String>)
    ensures
        r@.len() == 1,
        views(r@) == seq![unit@],
{
    let v = vec![unit.clone()];
    assert(views(v@) =~= seq![unit@]);
    v
}

pub open spec fn goal_ok(g: Goal) -> bool {
    g matches Goal::SurviveUntil { units, .. } ==> units@.len() < i64::MAX
}

fn set_field(table: &mut Table, name: &str, v: Value)
    ensures
        final(table).body() == old(table).body() + field(name@, value_text(v)),
{
    table.set(name, v);
    assert(final(table).body() =~= old(table).body() + field(name@, value_text(v)));
}

fn set_num(table: &mut Table, name: &str, v: i64)
    ensures
        final(table).body() == old(table).body() + field(name@, int_text(v as int)),
{
    set_field(table, name, customkey::n(v));
}

fn set_true(table: &mut Table, name: &str)
    ensures
        final(table).body() == old(table).body() + field(name@, customkey::bool_text(true)),
{
    set_field(table, name, customkey::b(true));
}

fn set_units(table: &mut Table, name: &str, unit: &String)
    ensures
        final(table).body() == old(table).body() + field(name@, names_text(seq![unit@])),
{
    set_field(table, name, unit_list(&one_name(unit)));
}

fn survive_fields(table: &mut Table, seconds: u32, units: &Vec<String>)
    requires
        units@.len() < i64::MAX,
    ensures
        final(table).body() == old(table).body() + goal_body(
            Goal::SurviveUntil { seconds, units: *units },
        ),
{
    set_num(table, "satisfyUntilTime", seconds as i64);
    set_num(table, "comparisionType", 1);
    set_num(table, "targetNumber", 1);
    if units.len() > 0 {
        set_field(table, "unitTypes", unit_list(units));
    }
    assert(final(table).body() =~= old(table).body() + goal_body(
        Goal::SurviveUntil { seconds, units: *units },
    ));
}

fn build_fields(table: &mut Table, unit: &String, count: u32, seconds: u32)
    ensures
        final(table).body() == old(table).body() + goal_body(
            Goal::BuildBy { unit: *unit, count, seconds },
        ),
{
    set_num(table, "satisfyByTime", seconds as i64);
    // Units that died on the way still count, or "build 5" would mean "have 5
    // simultaneously" and fail for an unrelated reason.
    set_true(table, "countRemovedUnits");
    set_num(table, "comparisionType", 1);
    set_num(table, "targetNumber", count as i64);
    set_units(table, "unitTypes", unit);
    assert(final(table).body() =~= old(table).body() + goal_body(
        Goal::BuildBy { unit: *unit, count, seconds },
    ));
}

fn have_fields(table: &mut Table, unit: &String, count: u32)
    ensures
        final(table).body() == old(table).body() + goal_body(Goal::HaveAtOnce { unit: *unit, count }),
{
    set_true(table, "satisfyOnce");
    // Freeze the satisfying set, so building more afterwards cannot be used
    // to paper over losses.
    set_true(table, "lockUnitsOnSatisfy");
    set_num(table, "comparisionType", 1);
    set_num(table, "targetNumber", count as i64);
    set_units(table, "unitTypes", unit);
    assert(final(table).body() =~= old(table).body() + goal_body(
        Goal::HaveAtOnce { unit: *unit, count },
    ));
}

fn destroy_fields(table: &mut Table, unit: &String, seconds: u32)
    ensures
        final(table).body() == old(table).body() + goal_body(
            Goal::DestroyAllBy { unit: *unit, seconds },
        ),
{
    set_num(table, "satisfyByTime", seconds as i64);
    set_num(table, "comparisionType", 2);
    set_num(table, "targetNumber", 0);
    set_units(table, "enemyUnitTypes", unit);
    assert(final(table).body() =~= old(table).body() + goal_body(
        Goal::DestroyAllBy { unit: *unit, seconds },
    ));
}

fn kill_fields(table: &mut Table, unit: &String, count: u32)
    ensures
        final(table).body() == old(table).body() + goal_body(Goal::KillCount { unit: *unit, count }),
{
    set_true(table, "satisfyOnce");
    // Only the dead count, which is what makes this "kill" rather than "have".
    set_true(table, "onlyCountRemovedUnits");
    set_num(table, "comparisionType", 1);
    set_num(table, "targetNumber", count as i64);
    set_units(table, "enemyUnitTypes", unit);
    assert(final(table).body() =~= old(table).body() + goal_body(
        Goal::KillCount { unit: *unit, count },
    ));
}

/// One objective, as the field combination Zero-K evaluates.
///
/// Each combination is taken from the worked examples in Zero-K's own
/// `sample_planet.lua`, the only place the interactions between `satisfy*`,
/// `countRemovedUnits` and `lockUnitsOnSatisfy` are written down.
fn goal_fields(objective: &Objective) -> (r: Table)
    requires
        goal_ok(objective.goal),
    ensures
        table_text(r) == goal_text(*objective),
{
    let mut table = Table::new();
    set_field(&mut table, "description", customkey::s(objective.description.as_str()));
    let ghost head = table.body();
    match &objective.goal {
        Goal::WinBefore { seconds } => {
            // The one objective that is not a unit count.
            set_num(&mut table, "victoryByTime", *seconds as i64);
        },
        Goal::SurviveUntil { seconds, units } => survive_fields(&mut table, *seconds, units),
        Goal::BuildBy { unit, count, seconds } => build_fields(&mut table, unit, *count, *seconds),
        Goal::HaveAtOnce { unit, count } => have_fields(&mut table, unit, *count),
        Goal::DestroyAllBy { unit, seconds } => destroy_fields(&mut table, unit, *seconds),
        Goal::KillCount { unit, count } => kill_fields(&mut table, unit, *count),
    }
    assert(table.body() == head + goal_body(objective.goal));
    assert(table_text(table) =~= goal_text(*objective));
    table
}


// ----------------------------------------------------------- modoptions -----

/// A Lua table literal as it travels in a start script value.
pub open spec fn encoded(text: Seq<char>) -> Seq<char> {
    base64_text(encode_utf8(text))
}

pub open spec fn goals_text(goals: Seq<Objective>) -> Seq<char> {
    list_text(goals.map_values(|o: Objective| goal_text(o)))
}

pub open spec fn feature_text(f: Feature) -> Seq<char> {
    seq!['{'] + field("name"@, str_text(f.name@)) + field("x"@, f.x@) + field("z"@, f.z@) + match f.facing {
        Some(k) => field("facing"@, int_text(k as int)),
        None => Seq::<char>::empty(),
    } + seq!['}']
}

pub open spec fn features_text(fs: Seq<Feature>) -> Seq<char> {
    list_text(fs.map_values(|f: Feature| feature_text(f)))
}

pub open spec fn briefing_text(name: Seq<char>, text: Seq<char>) -> Seq<char> {
    seq!['{'] + field("name"@, str_text(name)) + field("description"@, str_text(text)) + seq!['}']
}

/// The mission modoptions a scenario compiles to, in order.
pub open spec fn modoptions_spec(s: Scenario) -> Seq<(Seq<char>, Seq<char>)> {
    seq![("singleplayercampaignbattleid"@, "splaunch"@)] + (if s.goals@.len() > 0 {
        seq![
            ("bonusobjectiveconfig"@, encoded(goals_text(s.goals@))),
            ("objectiveconfig"@, encoded(goals_text(s.goals@))),
        ]
    } else {
        seq![]
    }) + (if s.features@.len() > 0 {
        seq![("featurestospawn"@, encoded(features_text(s.features@)))]
    } else {
        seq![]
    }) + match s.briefing {
        Some(text) => if !is_blank(text@) {
            seq![("planetmissioninformationtext"@, encoded(briefing_text(s.name@, text@)))]
        } else {
            seq![]
        },
        None => seq![],
    }
}

/// The views of a list of `(key, value)` pairs.
pub open spec fn pair_views(v: Seq<(String, String)>) -> Seq<(Seq<char>, Seq<char>)> {
    v.map_values(|p: (String, String)| (p.0@, p.1@))
}

/// The lengths a scenario's lists can have: each becomes a Lua array whose
/// 1-based indices are 64-bit integers.
pub open spec fn within_limits(s: Scenario) -> bool {
    &&& s.goals@.len() < i64::MAX
    &&& s.features@.len() < i64::MAX
    &&& forall|i: int| 0 <= i < s.goals@.len() ==> goal_ok(#[trigger] s.goals@[i].goal)
}

fn push_pair(out: &mut Vec<(String, String)>, k: &str, v: String)
    ensures
        pair_views(final(out)@) == pair_views(old(out)@).push((k@, v@)),
{
    out.push((k.to_string(), v));
    assert(pair_views(final(out)@) =~= pair_views(old(out)@).push((k@, v@)));
}

fn goals_table(goals: &Vec<Objective>) -> (r: Table)
    requires
        goals@.len() < i64::MAX,
        forall|i: int| 0 <= i < goals@.len() ==> goal_ok(#[trigger] goals@[i].goal),
    ensures
        table_text(r) == goals_text(goals@),
{
    let mut list = Table::new();
    let ghost items = goals@.map_values(|o: Objective| goal_text(o));
    let mut i: usize = 0;
    while i < goals.len()
        invariant
            i <= goals@.len(),
            goals@.len() < i64::MAX,
            forall|k: int| 0 <= k < goals@.len() ==> goal_ok(#[trigger] goals@[k].goal),
            items == goals@.map_values(|o: Objective| goal_text(o)),
            list@.len() == i,
            list.body() == indexed_entries(items.subrange(0, i as int)),
        decreases goals@.len() - i,
    {
        let entry = goal_fields(&goals[i]);
        list.push(customkey::t(entry));
        proof {
            assert(items.subrange(0, i + 1) =~= items.subrange(0, i as int).push(items[i as int]));
            lemma_indexed_push(items.subrange(0, i as int), items[i as int]);
        }
        i = i + 1;
    }
    assert(items.subrange(0, goals@.len() as int) =~= items);
    list
}

fn feature_entry(f: &Feature) -> (r: Table)
    ensures
        table_text(r) == feature_text(*f),
{
    let mut entry = Table::new();
    set_field(&mut entry, "name", customkey::s(f.name.as_str()));
    set_field(&mut entry, "x", Value::Num(f.x.clone_numeral()));
    set_field(&mut entry, "z", Value::Num(f.z.clone_numeral()));
    if let Some(facing) = f.facing {
        set_num(&mut entry, "facing", facing as i64);
    }
    assert(table_text(entry) =~= feature_text(*f));
    entry
}

fn features_table(features: &Vec<Feature>) -> (r: Table)
    requires
        features@.len() < i64::MAX,
    ensures
        table_text(r) == features_text(features@),
{
    let mut list = Table::new();
    let ghost items = features@.map_values(|f: Feature| feature_text(f));
    let mut i: usize = 0;
    while i < features.len()
        invariant
            i <= features@.len(),
            features@.len() < i64::MAX,
            items == features@.map_values(|f: Feature| feature_text(f)),
            list@.len() == i,
            list.body() == indexed_entries(items.subrange(0, i as int)),
        decreases features@.len() - i,
    {
        let entry = feature_entry(&features[i]);
        list.push(customkey::t(entry));
        proof {
            assert(items.subrange(0, i + 1) =~= items.subrange(0, i as int).push(items[i as int]));
            lemma_indexed_push(items.subrange(0, i as int), items[i as int]);
        }
        i = i + 1;
    }
    assert(items.subrange(0, features@.len() as int) =~= items);
    list
}

/// The mission modoptions for a scenario, as `(key, encoded value)` pairs.
///
/// Zero-K's mission engine lives in the base game and is armed by a single
/// modoption, so a scenario needs no archive.
pub fn mission_modoptions(s: &Scenario) -> (r: Vec<(String, String)>)
    requires
        within_limits(*s),
    ensures
        pair_views(r@) == modoptions_spec(*s),
{
    let mut out: Vec<(String, String)> = Vec::new();
    // Arms the mission engine. The value is only an identifier; the campaign
    // reports results against it, and nothing is listening for ours.
    push_pair(&mut out, "singleplayercampaignbattleid", "splaunch".to_string());
    let ghost first = pair_views(out@);
    if s.goals.len() > 0 {
        let list = goals_table(&s.goals);
        // Both keys: one drives the panel the player reads, the other the
        // evaluation.
        let encoded = encode(&list);
        push_pair(&mut out, "bonusobjectiveconfig", encoded.clone());
        push_pair(&mut out, "objectiveconfig", encoded);
    }
    let ghost second = pair_views(out@);
    if s.features.len() > 0 {
        let list = features_table(&s.features);
        push_pair(&mut out, "featurestospawn", encode(&list));
    }
    let ghost third = pair_views(out@);
    // The briefing window titles itself from `name` and needs a description,
    // so it is only worth sending when there is something to read.
    match &s.briefing {
        Some(text) => {
            if !blank(text.as_str()) {
                let mut info = Table::new();
                set_field(&mut info, "name", customkey::s(s.name.as_str()));
                set_field(&mut info, "description", customkey::s(text.as_str()));
                assert(table_text(info) =~= briefing_text(s.name@, text@));
                push_pair(&mut out, "planetmissioninformationtext", encode(&info));
            }
        },
        None => {},
    }
    assert(pair_views(out@) =~= modoptions_spec(*s));
    out
}

// -------------------------------------------------------- placed units -----

/// A team's placed units, in the order they were placed.
pub open spec fn team_units(units: Seq<Placed>, team: u32) -> Seq<Placed>
    decreases units.len(),
{
    if units.len() == 0 {
        seq![]
    } else if units.last().team == team {
        team_units(units.drop_last(), team).push(units.last())
    } else {
        team_units(units.drop_last(), team)
    }
}

pub open spec fn placed_text(u: Placed) -> Seq<char> {
    seq!['{'] + field("name"@, str_text(u.unit@)) + field("x"@, u.x@) + field("z"@, u.z@) + seq!['}']
}

/// Zero-K's own script builder puts forty units to a key; a start script
/// value has a length limit.
pub open spec fn block_size() -> nat {
    40
}

/// The `extrastartunits_N` keys for a team's units, numbered from
/// `block + 1`.
pub open spec fn unit_chunks(mine: Seq<Placed>, block: nat) -> Seq<(Seq<char>, Seq<char>)>
    decreases mine.len(),
{
    if mine.len() == 0 {
        seq![]
    } else {
        let n: int = if mine.len() < block_size() {
            mine.len() as int
        } else {
            block_size() as int
        };
        seq![
            (
                "extrastartunits_"@ + decimal(block + 1),
                encoded(list_text(mine.take(n).map_values(|u: Placed| placed_text(u)))),
            ),
        ] + if mine.len() > block_size() {
            unit_chunks(mine.skip(block_size() as int), block + 1)
        } else {
            seq![]
        }
    }
}

fn placed_entry(u: &Placed) -> (r: Table)
    ensures
        table_text(r) == placed_text(*u),
{
    let mut entry = Table::new();
    set_field(&mut entry, "name", customkey::s(u.unit.as_str()));
    set_field(&mut entry, "x", Value::Num(u.x.clone_numeral()));
    set_field(&mut entry, "z", Value::Num(u.z.clone_numeral()));
    assert(table_text(entry) =~= placed_text(*u));
    entry
}

/// The units at the given positions of the scenario.
pub open spec fn at_indices(units: Seq<Placed>, idx: Seq<usize>) -> Seq<Placed> {
    idx.map_values(|k: usize| units[k as int])
}

/// A team's placed units, as the custom keys Zero-K reads them from.
fn start_unit_keys(s: &Scenario, team: u32) -> (r: Vec<(String, String)>)
    ensures
        pair_views(r@) == unit_chunks(team_units(s.units@, team), 0),
{
    let ghost units = s.units@;
    let mut idx: Vec<usize> = Vec::new();
    let mut i: usize = 0;
    while i < s.units.len()
        invariant
            i <= units.len(),
            units == s.units@,
            forall|k: int| 0 <= k < idx@.len() ==> #[trigger] idx@[k] < units.len(),
            at_indices(units, idx@) == team_units(units.subrange(0, i as int), team),
        decreases units.len() - i,
    {
        assert(units.subrange(0, i + 1).drop_last() =~= units.subrange(0, i as int));
        if s.units[i].team == team {
            let ghost before = idx@;
            idx.push(i);
            assert(at_indices(units, idx@) =~= at_indices(units, before).push(units[i as int]));
        }
        i = i + 1;
    }
    assert(units.subrange(0, units.len() as int) =~= units);
    let ghost mine = at_indices(units, idx@);
    let mut out: Vec<(String, String)> = Vec::new();
    let mut pos: usize = 0;
    let mut block: usize = 0;
    assert(mine.skip(0) =~= mine);
    while pos < idx.len()
        invariant
            units == s.units@,
            mine == at_indices(units, idx@),
            forall|k: int| 0 <= k < idx@.len() ==> #[trigger] idx@[k] < units.len(),
            pos <= idx@.len(),
            block <= pos,
            unit_chunks(mine, 0) == pair_views(out@) + unit_chunks(mine.skip(pos as int), block as nat),
        decreases idx@.len() - pos,
    {
        let count = idx.len();
        let left = count - pos;
        let take: usize = if left < 40 {
            left
        } else {
            40
        };
        let ghost rest = mine.skip(pos as int);
        let ghost items = rest.take(take as int).map_values(|u: Placed| placed_text(u));
        let mut list = Table::new();
        let mut j: usize = 0;
        while j < take
            invariant
                take <= 40,
                count == idx@.len(),
                pos + take <= count,
                units == s.units@,
                mine == at_indices(units, idx@),
                rest == mine.skip(pos as int),
                forall|k: int| 0 <= k < idx@.len() ==> #[trigger] idx@[k] < units.len(),
                items == rest.take(take as int).map_values(|u: Placed| placed_text(u)),
                j <= take,
                list@.len() == j,
                list.body() == indexed_entries(items.subrange(0, j as int)),
            decreases take - j,
        {
            assert(pos + j < idx@.len());
            let at: usize = pos + j;
            let entry = placed_entry(&s.units[idx[at]]);
            list.push(customkey::t(entry));
            proof {
                assert(rest[j as int] == units[idx@[pos + j] as int]);
                assert(items[j as int] == placed_text(rest[j as int]));
                assert(items.subrange(0, j + 1) =~= items.subrange(0, j as int).push(
                    items[j as int],
                ));
                lemma_indexed_push(items.subrange(0, j as int), items[j as int]);
            }
            j = j + 1;
        }
        assert(items.subrange(0, take as int) =~= items);
        let mut name = "extrastartunits_".to_string();
        push_decimal(&mut name, (block + 1) as u64);
        let value = encode(&list);
        let ghost before = pair_views(out@);
        out.push((name, value));
        proof {
            assert(pair_views(out@) =~= before.push(
                ("extrastartunits_"@ + decimal((block + 1) as nat), encoded(list_text(items))),
            ));
            if left > 40 {
                assert(rest.skip(40) =~= mine.skip(pos + 40));
            } else {
                assert(mine.skip(pos + take) =~= Seq::<Placed>::empty());
            }
        }
        pos = pos + take;
        block = block + 1;
    }
    assert(mine.skip(pos as int) =~= Seq::<Placed>::empty());
    assert(pair_views(out@) =~= unit_chunks(mine, 0));
    out
}


// -------------------------------------------------------------- script -----

/// The team the human plays: the first one without an AI.
pub open spec fn human_team(teams: Seq<Team>) -> u32
    decreases teams.len(),
{
    if teams.len() == 0 {
        0
    } else if teams[0].ai is None {
        teams[0].id
    } else {
        human_team(teams.drop_first())
    }
}

/// `key=value;` lines, one per pair.
pub open spec fn option_lines(indent: Seq<char>, ps: Seq<(Seq<char>, Seq<char>)>) -> Seq<char>
    decreases ps.len(),
{
    if ps.len() == 0 {
        seq![]
    } else {
        option_lines(indent, ps.drop_last()) + key_line(indent, ps.last().0, ps.last().1)
    }
}

pub open spec fn game_section(s: Scenario, player: Seq<char>) -> Seq<char> {
    "[GAME]\n{\n"@ + key_line("\t"@, "Mapname"@, escaped(s.map@)) + key_line(
        "\t"@,
        "GameType"@,
        escaped(s.game@),
    ) + key_line("\t"@, "MyPlayerName"@, escaped(player)) + key_line("\t"@, "IsHost"@, "1"@)
        + key_line("\t"@, "OnlyLocal"@, "1"@) + key_line("\t"@, "StartPosType"@, "2"@) + key_line(
        "\t"@,
        "GameStartDelay"@,
        "0"@,
    ) + key_line("\t"@, "NumRestrictions"@, "0"@)
}

pub open spec fn modoptions_section(s: Scenario) -> Seq<char> {
    "\t[MODOPTIONS]\n\t{\n"@ + key_line("\t\t"@, "noelo"@, "1"@) + option_lines(
        "\t\t"@,
        modoptions_spec(s),
    ) + "\t}\n"@
}

pub open spec fn player_section(s: Scenario, player: Seq<char>) -> Seq<char> {
    "\t[PLAYER0]\n\t{\n"@ + key_line("\t\t"@, "Name"@, escaped(player)) + key_line(
        "\t\t"@,
        "Team"@,
        decimal(human_team(s.teams@) as nat),
    ) + "\t}\n"@
}

pub open spec fn ai_section(i: nat, t: Team, ai: Seq<char>) -> Seq<char> {
    "\t[AI"@ + decimal(i) + "]\n\t{\n"@ + key_line(
        "\t\t"@,
        "Name"@,
        "AI "@ + decimal(t.id as nat),
    ) + key_line("\t\t"@, "ShortName"@, escaped(ai)) + key_line(
        "\t\t"@,
        "Team"@,
        decimal(t.id as nat),
    ) + key_line("\t\t"@, "Host"@, "0"@) + "\t}\n"@
}

/// One section per AI team, numbered from `i` in the order the teams are
/// listed.
pub open spec fn ai_sections(teams: Seq<Team>, i: nat) -> Seq<char>
    decreases teams.len(),
{
    if teams.len() == 0 {
        seq![]
    } else {
        match teams.last().ai {
            Some(a) => ai_sections(teams.drop_last(), i) + ai_section(
                i + ai_count(teams.drop_last()),
                teams.last(),
                a@,
            ),
            None => ai_sections(teams.drop_last(), i),
        }
    }
}

pub open spec fn ai_count(teams: Seq<Team>) -> nat
    decreases teams.len(),
{
    if teams.len() == 0 {
        0
    } else {
        ai_count(teams.drop_last()) + if teams.last().ai is Some {
            1nat
        } else {
            0nat
        }
    }
}

pub open spec fn team_section(s: Scenario, t: Team) -> Seq<char> {
    "\t[TEAM"@ + decimal(t.id as nat) + "]\n\t{\n"@ + key_line("\t\t"@, "TeamLeader"@, "0"@)
        + key_line("\t\t"@, "AllyTeam"@, decimal(t.ally as nat)) + key_line(
        "\t\t"@,
        "RGBColor"@,
        escaped(t.colour@),
    ) + option_lines("\t\t"@, unit_chunks(team_units(s.units@, t.id), 0)) + "\t}\n"@
}

pub open spec fn team_sections(s: Scenario, teams: Seq<Team>) -> Seq<char>
    decreases teams.len(),
{
    if teams.len() == 0 {
        seq![]
    } else {
        team_sections(s, teams.drop_last()) + team_section(s, teams.last())
    }
}

/// `a` added to an ascending list of distinct values, unless already there.
pub open spec fn insert_sorted(xs: Seq<u32>, a: u32) -> Seq<u32>
    decreases xs.len(),
{
    if xs.len() == 0 {
        seq![a]
    } else if xs[0] == a {
        xs
    } else if a < xs[0] {
        seq![a] + xs
    } else {
        seq![xs[0]] + insert_sorted(xs.drop_first(), a)
    }
}

/// The allyteams in use, ascending, each once.
pub open spec fn allies_of(teams: Seq<Team>) -> Seq<u32>
    decreases teams.len(),
{
    if teams.len() == 0 {
        seq![]
    } else {
        insert_sorted(allies_of(teams.drop_last()), teams.last().ally)
    }
}

pub open spec fn ally_section(a: u32) -> Seq<char> {
    "\t[ALLYTEAM"@ + decimal(a as nat) + "]\n\t{\n"@ + key_line("\t\t"@, "NumAllies"@, "0"@)
        + "\t}\n"@
}

pub open spec fn ally_sections(allies: Seq<u32>) -> Seq<char>
    decreases allies.len(),
{
    if allies.len() == 0 {
        seq![]
    } else {
        ally_sections(allies.drop_last()) + ally_section(allies.last())
    }
}

/// The start script a valid scenario compiles to.
pub open spec fn script_text(s: Scenario, player: Seq<char>) -> Seq<char> {
    game_section(s, player) + modoptions_section(s) + player_section(s, player) + ai_sections(
        s.teams@,
        0,
    ) + team_sections(s, s.teams@) + ally_sections(allies_of(s.teams@)) + "}\n"@
}

fn push_option_lines(out: &mut String, indent: &str, ps: &Vec<(String, String)>)
    ensures
        final(out)@ == old(out)@ + option_lines(indent@, pair_views(ps@)),
{
    let ghost start = out@;
    let mut i: usize = 0;
    while i < ps.len()
        invariant
            i <= ps@.len(),
            start == old(out)@,
            out@ == start + option_lines(indent@, pair_views(ps@.subrange(0, i as int))),
        decreases ps@.len() - i,
    {
        key(out, indent, ps[i].0.as_str(), ps[i].1.as_str());
        proof {
            let p = pair_views(ps@.subrange(0, i + 1));
            assert(p.drop_last() =~= pair_views(ps@.subrange(0, i as int)));
            assert(p.last() == (ps@[i as int].0@, ps@[i as int].1@));
        }
        i = i + 1;
    }
    assert(ps@.subrange(0, ps@.len() as int) =~= ps@);
}

fn write_game_section(out: &mut String, s: &Scenario, player: &str)
    ensures
        final(out)@ == old(out)@ + game_section(*s, player@),
{
    out.push_str("[GAME]\n{\n");
    key(out, "\t", "Mapname", escape(s.map.as_str()).as_str());
    key(out, "\t", "GameType", escape(s.game.as_str()).as_str());
    key(out, "\t", "MyPlayerName", escape(player).as_str());
    // Local, hosted by us, nobody to wait for.
    key(out, "\t", "IsHost", "1");
    key(out, "\t", "OnlyLocal", "1");
    key(out, "\t", "StartPosType", "2");
    key(out, "\t", "GameStartDelay", "0");
    key(out, "\t", "NumRestrictions", "0");
    assert(final(out)@ =~= old(out)@ + game_section(*s, player@));
}

fn write_modoptions_section(out: &mut String, s: &Scenario)
    requires
        within_limits(*s),
    ensures
        final(out)@ == old(out)@ + modoptions_section(*s),
{
    out.push_str("\t[MODOPTIONS]\n\t{\n");
    // Nothing a scenario does should count towards anybody's rating.
    key(out, "\t\t", "noelo", "1");
    // The mission engine, its objectives, features and briefing. Not escaped:
    // these are base64 of our own making and contain no delimiter.
    let options = mission_modoptions(s);
    push_option_lines(out, "\t\t", &options);
    out.push_str("\t}\n");
    assert(final(out)@ =~= old(out)@ + modoptions_section(*s));
}

fn human(teams: &Vec<Team>) -> (r: u32)
    ensures
        r == human_team(teams@),
{
    let mut i: usize = 0;
    assert(teams@.skip(0) =~= teams@);
    while i < teams.len()
        invariant
            i <= teams@.len(),
            human_team(teams@) == human_team(teams@.skip(i as int)),
        decreases teams@.len() - i,
    {
        assert(teams@.skip(i as int).drop_first() =~= teams@.skip(i + 1));
        if teams[i].ai.is_none() {
            return teams[i].id;
        }
        i = i + 1;
    }
    assert(teams@.skip(i as int) =~= Seq::<Team>::empty());
    0
}

fn write_player_section(out: &mut String, s: &Scenario, player: &str)
    ensures
        final(out)@ == old(out)@ + player_section(*s, player@),
{
    // The human. One player, always index 0, on the first non-AI team.
    let id = human(&s.teams);
    out.push_str("\t[PLAYER0]\n\t{\n");
    key(out, "\t\t", "Name", escape(player).as_str());
    key(out, "\t\t", "Team", decimal_string(id as u64).as_str());
    out.push_str("\t}\n");
    assert(final(out)@ =~= old(out)@ + player_section(*s, player@));
}

fn write_ai_section(out: &mut String, i: u64, t: &Team, ai: &String)
    ensures
        final(out)@ == old(out)@ + ai_section(i as nat, *t, ai@),
{
    out.push_str("\t[AI");
    push_decimal(out, i);
    out.push_str("]\n\t{\n");
    let mut name = "AI ".to_string();
    push_decimal(&mut name, t.id as u64);
    key(out, "\t\t", "Name", name.as_str());
    key(out, "\t\t", "ShortName", escape(ai.as_str()).as_str());
    key(out, "\t\t", "Team", decimal_string(t.id as u64).as_str());
    key(out, "\t\t", "Host", "0");
    out.push_str("\t}\n");
    assert(final(out)@ =~= old(out)@ + ai_section(i as nat, *t, ai@));
}

proof fn lemma_ai_count_bound(teams: Seq<Team>)
    ensures
        ai_count(teams) <= teams.len(),
    decreases teams.len(),
{
    if teams.len() > 0 {
        lemma_ai_count_bound(teams.drop_last());
    }
}

fn write_ai_sections(out: &mut String, teams: &Vec<Team>)
    ensures
        final(out)@ == old(out)@ + ai_sections(teams@, 0),
{
    let ghost start = out@;
    let mut i: usize = 0;
    let mut n: u64 = 0;
    while i < teams.len()
        invariant
            i <= teams@.len(),
            start == old(out)@,
            n == ai_count(teams@.subrange(0, i as int)),
            out@ == start + ai_sections(teams@.subrange(0, i as int), 0),
        decreases teams@.len() - i,
    {
        let ghost pre = teams@.subrange(0, i as int);
        assert(teams@.subrange(0, i + 1).drop_last() =~= pre);
        proof {
            lemma_ai_count_bound(pre);
        }
        match &teams[i].ai {
            Some(ai) => {
                write_ai_section(out, n, &teams[i], ai);
                n = n + 1;
            },
            None => {},
        }
        i = i + 1;
        assert(out@ =~= start + ai_sections(teams@.subrange(0, i as int), 0));
    }
    assert(teams@.subrange(0, teams@.len() as int) =~= teams@);
}

fn write_team_section(out: &mut String, s: &Scenario, t: &Team)
    ensures
        final(out)@ == old(out)@ + team_section(*s, *t),
{
    out.push_str("\t[TEAM");
    push_decimal(out, t.id as u64);
    out.push_str("]\n\t{\n");
    key(out, "\t\t", "TeamLeader", "0");
    key(out, "\t\t", "AllyTeam", decimal_string(t.ally as u64).as_str());
    key(out, "\t\t", "RGBColor", escape(t.colour.as_str()).as_str());
    // Placed units ride on the team that owns them, which is how Zero-K knows
    // whose they are without a field saying so.
    let keys = start_unit_keys(s, t.id);
    push_option_lines(out, "\t\t", &keys);
    out.push_str("\t}\n");
    assert(final(out)@ =~= old(out)@ + team_section(*s, *t));
}

fn write_team_sections(out: &mut String, s: &Scenario)
    ensures
        final(out)@ == old(out)@ + team_sections(*s, s.teams@),
{
    let ghost start = out@;
    let mut i: usize = 0;
    while i < s.teams.len()
        invariant
            i <= s.teams@.len(),
            start == old(out)@,
            out@ == start + team_sections(*s, s.teams@.subrange(0, i as int)),
        decreases s.teams@.len() - i,
    {
        assert(s.teams@.subrange(0, i + 1).drop_last() =~= s.teams@.subrange(0, i as int));
        write_team_section(out, s, &s.teams[i]);
        i = i + 1;
        assert(out@ =~= start + team_sections(*s, s.teams@.subrange(0, i as int)));
    }
    assert(s.teams@.subrange(0, s.teams@.len() as int) =~= s.teams@);
}

/// Adds `a` to an ascending list of distinct values.
fn insert_ally(xs: &mut Vec<u32>, a: u32)
    ensures
        final(xs)@ == insert_sorted(old(xs)@, a),
{
    let mut i: usize = 0;
    assert(old(xs)@.skip(0) =~= old(xs)@);
    assert(old(xs)@.subrange(0, 0) + old(xs)@ =~= old(xs)@);
    while i < xs.len()
        invariant
            i <= old(xs)@.len(),
            xs@ == old(xs)@,
            insert_sorted(old(xs)@, a) == old(xs)@.subrange(0, i as int) + insert_sorted(
                old(xs)@.skip(i as int),
                a,
            ),
            forall|k: int| 0 <= k < i ==> #[trigger] old(xs)@[k] != a && old(xs)@[k] < a,
        decreases old(xs)@.len() - i,
    {
        let ghost rest = old(xs)@.skip(i as int);
        if xs[i] == a {
            assert(old(xs)@.subrange(0, i as int) + rest =~= old(xs)@);
            return ;
        }
        if a < xs[i] {
            xs.insert(i, a);
            assert(final(xs)@ =~= old(xs)@.subrange(0, i as int) + (seq![a] + rest));
            return ;
        }
        assert(rest.drop_first() =~= old(xs)@.skip(i + 1));
        assert(old(xs)@.subrange(0, i + 1) =~= old(xs)@.subrange(0, i as int) + seq![rest[0]]);
        i = i + 1;
    }
    assert(old(xs)@.skip(i as int) =~= Seq::<u32>::empty());
    xs.push(a);
    assert(final(xs)@ =~= old(xs)@.subrange(0, i as int) + seq![a]);
}

fn allies(teams: &Vec<Team>) -> (r: Vec<u32>)
    ensures
        r@ == allies_of(teams@),
{
    let mut out: Vec<u32> = Vec::new();
    let mut i: usize = 0;
    while i < teams.len()
        invariant
            i <= teams@.len(),
            out@ == allies_of(teams@.subrange(0, i as int)),
        decreases teams@.len() - i,
    {
        assert(teams@.subrange(0, i + 1).drop_last() =~= teams@.subrange(0, i as int));
        insert_ally(&mut out, teams[i].ally);
        i = i + 1;
    }
    assert(teams@.subrange(0, teams@.len() as int) =~= teams@);
    out
}

fn write_ally_sections(out: &mut String, teams: &Vec<Team>)
    ensures
        final(out)@ == old(out)@ + ally_sections(allies_of(teams@)),
{
    let list = allies(teams);
    let ghost start = out@;
    let mut i: usize = 0;
    while i < list.len()
        invariant
            i <= list@.len(),
            start == old(out)@,
            out@ == start + ally_sections(list@.subrange(0, i as int)),
        decreases list@.len() - i,
    {
        assert(list@.subrange(0, i + 1).drop_last() =~= list@.subrange(0, i as int));
        out.push_str("\t[ALLYTEAM");
        push_decimal(out, list[i] as u64);
        out.push_str("]\n\t{\n");
        key(out, "\t\t", "NumAllies", "0");
        out.push_str("\t}\n");
        i = i + 1;
        assert(out@ =~= start + ally_sections(list@.subrange(0, i as int)));
    }
    assert(list@.subrange(0, list@.len() as int) =~= list@);
}

/// Compile to a Spring start script.
///
/// The shape is taken from a real one: `_missionScript.txt` inside Zero-K's
/// own `User Interface Tutorial r22.sdz`, which is what the old mission editor
/// emitted and what the engine still reads. A scenario with a problem does not
/// compile, and the first problem is the reason given.
pub fn write_script(s: &Scenario, player: &str) -> (r: Result<String, String>)
    requires
        within_limits(*s),
    ensures
        match r {
            Ok(x) => problems_spec(*s).len() == 0 && x@ == script_text(*s, player@),
            Err(e) => problems_spec(*s).len() > 0 && e@ == problems_spec(*s)[0],
        },
{
    let found = problems(s);
    if found.len() > 0 {
        let first = found[0].clone();
        return Err(first);
    }
    let mut out = String::new();
    write_game_section(&mut out, s, player);
    write_modoptions_section(&mut out, s);
    write_player_section(&mut out, s, player);
    write_ai_sections(&mut out, &s.teams);
    write_team_sections(&mut out, s);
    write_ally_sections(&mut out, &s.teams);
    out.push_str("}\n");
    assert(out@ =~= script_text(*s, player@));
    Ok(out)
}

} // verus!
