//! Zero-K's "custom key" transport, and the two decoder faults it has.
//!
//! Zero-K passes structured mission data - objectives, features, briefing
//! text, placed units - through start script values, which can only hold flat
//! strings. Its encoding is a Lua table literal, base64'd:
//!
//! ```text
//! UsefulTableToCustomKey(t) = Base64Encode(TableToString(t))
//! CustomKeyToUsefulTable(s) = loadstring("return " .. Base64Decode(s:gsub('_','=')))
//! ```
//!
//! Two things in that pair are broken:
//!
//! 1. The encoder is URL-safe base64, so sextet 63 emits `_`. The decoder
//!    rewrites `_` to `=` *before* decoding, and `=` is absent from its
//!    alphabet, so it reads as end-of-data. A `?` at the wrong offset
//!    truncates the payload, the truncated literal does not parse, and the
//!    mission loses every objective at once.
//! 2. The last byte of each triple is assembled with `... % 192`, which zeroes
//!    the top two bits when both are set, so every byte >= 0xC0 (every UTF-8
//!    lead byte) is corrupted.
//!
//! Both faults are properties of the bytes on the wire, so nothing that can
//! trigger them is put there: every risky byte is written as a three-digit Lua
//! decimal escape (`\195`), which is plain ASCII in transport and becomes the
//! same byte again when Lua parses it. `law_payload_survives_the_decoder`
//! states the result over every well-formed table.
use vstd::prelude::*;
use vstd::utf8::*;

use crate::text::{
    chars_of, decimal, digit_char, digits_value, int_text, is_digit, lemma_decimal_digits, push_int,
};

verus! {

broadcast use vstd::string::group_string_axioms;

// ------------------------------------------------------------- values -----

/// A Lua number as the text Lua will read: an optional minus sign, digits,
/// and at most one decimal point between digits.
pub struct Numeral {
    text: String,
}

impl View for Numeral {
    type V = Seq<char>;

    closed spec fn view(&self) -> Seq<char> {
        self.text@
    }
}

/// A numeral without its sign.
pub open spec fn unsigned_part(s: Seq<char>) -> Seq<char> {
    if s.len() > 0 && s[0] == '-' {
        s.drop_first()
    } else {
        s
    }
}

/// Digits, with at most one decimal point, and a digit at each end.
pub open spec fn is_unsigned_numeral(u: Seq<char>) -> bool {
    &&& u.len() >= 1
    &&& is_digit(u[0])
    &&& is_digit(u.last())
    &&& forall|i: int| 0 <= i < u.len() ==> is_digit(#[trigger] u[i]) || u[i] == '.'
    &&& forall|i: int, j: int| 0 <= i < j < u.len() && #[trigger] u[i] == '.' ==> #[trigger] u[j] != '.'
}

/// The shape of a Lua numeral that needs no exponent.
pub open spec fn is_numeral(s: Seq<char>) -> bool {
    is_unsigned_numeral(unsigned_part(s))
}

impl Numeral {
    /// A numeral always has the shape of one.
    #[verifier::type_invariant]
    spec fn well_formed(self) -> bool {
        is_numeral(self.text@)
    }

    /// An integer, written without a decimal point so that the game reads it
    /// back as an integer.
    pub fn integer(v: i64) -> (r: Numeral)
        ensures
            r@ == int_text(v as int),
            is_numeral(r@),
    {
        let mut text = String::new();
        push_int(&mut text, v);
        proof {
            lemma_decimal_digits(if v < 0 {
                (-v) as nat
            } else {
                v as nat
            });
            assert(text@ =~= int_text(v as int));
            if v < 0 {
                assert(text@.drop_first() =~= decimal((-v) as nat));
            }
        }
        Numeral { text }
    }

    /// The numeral as written.
    pub fn text(&self) -> (r: &str)
        ensures
            r@ == self@,
            is_numeral(r@),
    {
        proof {
            use_type_invariant(self);
        }
        self.text.as_str()
    }

    /// The same numeral again.
    pub fn clone_numeral(&self) -> (r: Numeral)
        ensures
            r@ == self@,
    {
        proof {
            use_type_invariant(self);
        }
        Numeral { text: self.text.clone() }
    }

    /// A numeral already written out, accepted only when it has the shape
    /// of one.
    pub fn parse(text: &str) -> (r: Option<Numeral>)
        ensures
            r is Some <==> is_numeral(text@),
            r matches Some(n) ==> n@ == text@,
    {
        let cs = chars_of(text);
        let ghost s = text@;
        let start: usize = if cs.len() > 0 && cs[0] == '-' {
            1
        } else {
            0
        };
        let ghost u = unsigned_part(s);
        assert(u =~= s.subrange(start as int, s.len() as int));
        if start >= cs.len() {
            return None;
        }
        if !(cs[start] >= '0' && cs[start] <= '9') || !(cs[cs.len() - 1] >= '0' && cs[cs.len()
            - 1] <= '9') {
            return None;
        }
        let mut seen_point = false;
        let mut i: usize = start;
        while i < cs.len()
            invariant
                start <= i <= cs@.len(),
                cs@ == s,
                s == text@,
                u == unsigned_part(s),
                u =~= s.subrange(start as int, s.len() as int),
                forall|k: int| 0 <= k < i - start ==> is_digit(#[trigger] u[k]) || u[k] == '.',
                forall|k: int, j: int|
                    0 <= k < j < i - start && #[trigger] u[k] == '.' ==> #[trigger] u[j] != '.',
                seen_point <==> exists|k: int| 0 <= k < i - start && u[k] == '.',
            decreases cs@.len() - i,
        {
            let c = cs[i];
            if c == '.' {
                if seen_point {
                    proof {
                        let k = choose|k: int| 0 <= k < i - start && u[k] == '.';
                        assert(u[k] == '.' && u[i - start] == '.');
                        assert(!is_unsigned_numeral(u));
                    }
                    return None;
                }
                seen_point = true;
                assert(u[i - start] == '.');
            } else if !(c >= '0' && c <= '9') {
                assert(u[i - start] == c);
                assert(!(is_digit(u[i - start]) || u[i - start] == '.'));
                assert(!is_unsigned_numeral(u));
                return None;
            }
            i = i + 1;
        }
        Some(Numeral { text: text.to_string() })
    }
}

/// A Lua value, as far as this transport is concerned.
pub enum Value {
    Str(String),
    Num(Numeral),
    Bool(bool),
    Table(Table),
}

/// The key of one table entry: a 1-based array index or a bare name.
pub enum Key {
    Index(i64),
    Name(String),
}

/// An ordered Lua table.
///
/// Ordered rather than a map because the output is compared in tests, and a
/// payload that reshuffles between runs is one nobody can diff.
pub struct Table {
    entries: Vec<(Key, Value)>,
}

impl View for Table {
    type V = Seq<(Key, Value)>;

    closed spec fn view(&self) -> Seq<(Key, Value)> {
        self.entries@
    }
}

// ------------------------------------------------------- the Lua text -----

/// Is this byte safe to put on the wire unescaped? `?` triggers fault 1,
/// anything >= 0x80 fault 2, quote and backslash would end or escape the Lua
/// string, and control bytes would end the start script line.
pub open spec fn safe_byte_spec(b: u8) -> bool {
    0x20 <= b < 0x7F && b != 0x3F && b != 0x22 && b != 0x5C
}

/// One byte inside a Lua string: itself when safe, a three-digit decimal
/// escape otherwise.
pub open spec fn byte_text(b: u8) -> Seq<char> {
    if safe_byte_spec(b) {
        seq![b as char]
    } else {
        seq!['\\', digit_char(b as int / 100), digit_char((b as int / 10) % 10), digit_char(b as int % 10)]
    }
}

pub open spec fn escaped_bytes(bs: Seq<u8>) -> Seq<char>
    decreases bs.len(),
{
    if bs.len() == 0 {
        seq![]
    } else {
        byte_text(bs[0]) + escaped_bytes(bs.drop_first())
    }
}

/// A Lua string literal of the given UTF-8 bytes.
pub open spec fn lua_string_text(bs: Seq<u8>) -> Seq<char> {
    seq!['"'] + escaped_bytes(bs) + seq!['"']
}

pub open spec fn key_text(k: Key) -> Seq<char> {
    match k {
        Key::Index(i) => seq!['['] + int_text(i as int) + seq![']', '='],
        Key::Name(n) => n@ + seq!['='],
    }
}

pub open spec fn entry_text(k: Key, value: Seq<char>) -> Seq<char> {
    key_text(k) + value + seq![',']
}

pub open spec fn bool_text(b: bool) -> Seq<char> {
    if b {
        seq!['t', 'r', 'u', 'e']
    } else {
        seq!['f', 'a', 'l', 's', 'e']
    }
}

/// How a value is written in a Lua table literal: `[i]=` for numeric keys,
/// the bare name otherwise, a trailing comma on every entry, no whitespace.
pub open spec fn value_text(v: Value) -> Seq<char>
    decreases v, 0nat,
{
    match v {
        Value::Str(s) => lua_string_text(encode_utf8(s@)),
        Value::Num(n) => n@,
        Value::Bool(b) => bool_text(b),
        Value::Table(t) => seq!['{'] + entries_text(t, t@.len()) + seq!['}'],
    }
}

/// The first `n` entries of a table, written out.
pub open spec fn entries_text(t: Table, n: nat) -> Seq<char>
    decreases t, n,
{
    if n == 0 || n > t@.len() {
        seq![]
    } else {
        entries_text(t, (n - 1) as nat) + entry_text(t@[n - 1].0, value_text(t@[n - 1].1))
    }
}

pub open spec fn table_text(t: Table) -> Seq<char> {
    seq!['{'] + entries_text(t, t@.len()) + seq!['}']
}


/// The table's body followed by one more entry is the body of the table with
/// that entry appended.
proof fn lemma_entries_text_push(t: Table, t2: Table, k: Key, v: Value)
    requires
        t2@ == t@.push((k, v)),
    ensures
        entries_text(t2, t2@.len()) == entries_text(t, t@.len()) + entry_text(k, value_text(v)),
{
    assert(t@.subrange(0, t@.len() as int) =~= t2@.subrange(0, t@.len() as int));
    lemma_entries_text_prefix(t, t2, t@.len());
}

/// Entries that two tables share are written the same way.
proof fn lemma_entries_text_prefix(t: Table, t2: Table, n: nat)
    requires
        n <= t@.len(),
        n <= t2@.len(),
        t@.subrange(0, n as int) == t2@.subrange(0, n as int),
    ensures
        entries_text(t, n) == entries_text(t2, n),
    decreases n,
{
    if n > 0 {
        assert(t@.subrange(0, n - 1) =~= t@.subrange(0, n as int).subrange(0, n - 1));
        assert(t2@.subrange(0, n - 1) =~= t2@.subrange(0, n as int).subrange(0, n - 1));
        lemma_entries_text_prefix(t, t2, (n - 1) as nat);
        assert(t@[n - 1] == t@.subrange(0, n as int)[n - 1]);
        assert(t2@[n - 1] == t2@.subrange(0, n as int)[n - 1]);
    }
}

impl Table {
    /// The entries written out, without the braces.
    pub open spec fn body(self) -> Seq<char> {
        entries_text(self, self@.len())
    }

    pub fn new() -> (r: Table)
        ensures
            r@ == Seq::<(Key, Value)>::empty(),
            r.body() == Seq::<char>::empty(),
    {
        Table { entries: Vec::new() }
    }

    /// `name = value`
    pub fn set(&mut self, name: &str, value: Value) -> (r: &mut Self)
        ensures
            (*r)@.len() == old(self)@.len() + 1,
            (*r)@.subrange(0, old(self)@.len() as int) == old(self)@,
            (*r)@[old(self)@.len() as int].1 == value,
            (*r)@[old(self)@.len() as int].0 matches Key::Name(k) && k@ == name@,
            (*r).body() == old(self).body() + name@ + seq!['='] + value_text(value) + seq![','],
            *final(self) == *final(r),
    {
        let ghost old_t = *self;
        self.entries.push((Key::Name(name.to_string()), value));
        proof {
            lemma_entries_text_push(old_t, *self, self@.last().0, value);
            assert(self@.subrange(0, old_t@.len() as int) =~= old_t@);
        }
        self
    }

    /// `[i] = value`, for the 1-based arrays Zero-K indexes objectives by.
    pub fn set_index(&mut self, i: i64, value: Value) -> (r: &mut Self)
        ensures
            (*r)@ == old(self)@.push((Key::Index(i), value)),
            (*r).body() == old(self).body() + entry_text(Key::Index(i), value_text(value)),
            *final(self) == *final(r),
    {
        let ghost old_t = *self;
        self.entries.push((Key::Index(i), value));
        proof {
            lemma_entries_text_push(old_t, *self, Key::Index(i), value);
        }
        self
    }

    /// Append at the next 1-based index.
    pub fn push(&mut self, value: Value) -> (r: &mut Self)
        requires
            old(self)@.len() < i64::MAX,
        ensures
            (*r)@ == old(self)@.push((Key::Index((old(self)@.len() + 1) as i64), value)),
            (*r).body() == old(self).body() + entry_text(
                Key::Index((old(self)@.len() + 1) as i64),
                value_text(value),
            ),
            *final(self) == *final(r),
    {
        let next = self.entries.len() as i64 + 1;
        self.set_index(next, value)
    }
}

/// `str_value("x")`, since `Value::Str("x".into())` reads badly in a wall of
/// objective fields.
pub fn s(v: &str) -> (r: Value)
    ensures
        r matches Value::Str(x) && x@ == v@,
{
    Value::Str(v.to_string())
}

/// An integer-valued number.
pub fn n(v: i64) -> (r: Value)
    ensures
        r matches Value::Num(x) && x@ == int_text(v as int) && is_numeral(x@),
{
    Value::Num(Numeral::integer(v))
}

pub fn b(v: bool) -> (r: Value)
    ensures
        r == Value::Bool(v),
{
    Value::Bool(v)
}

pub fn t(v: Table) -> (r: Value)
    ensures
        r == Value::Table(v),
{
    Value::Table(v)
}

fn safe_byte(byte: u8) -> (r: bool)
    ensures
        r == safe_byte_spec(byte),
{
    0x20 <= byte && byte < 0x7F && byte != 0x3Fu8 && byte != 0x22u8 && byte != 0x5Cu8
}

proof fn lemma_escaped_bytes_push(bs: Seq<u8>, x: u8)
    ensures
        escaped_bytes(bs.push(x)) == escaped_bytes(bs) + byte_text(x),
    decreases bs.len(),
{
    if bs.len() == 0 {
        assert(bs.push(x).drop_first() =~= Seq::<u8>::empty());
        assert(escaped_bytes(Seq::<u8>::empty()) == Seq::<char>::empty());
        assert(escaped_bytes(bs) == Seq::<char>::empty());
        assert(escaped_bytes(bs.push(x)) =~= byte_text(x));
    } else {
        assert(bs.push(x).drop_first() =~= bs.drop_first().push(x));
        lemma_escaped_bytes_push(bs.drop_first(), x);
        assert(escaped_bytes(bs.push(x)) =~= escaped_bytes(bs) + byte_text(x));
    }
}

/// A Lua string literal whose transport bytes cannot trip either decoder
/// fault. Escapes are always three digits, so a following digit cannot be
/// absorbed into the escape: Lua reads at most three, and `\0631` must stay
/// `?` then `1`.
fn push_lua_string(out: &mut String, value: &str)
    ensures
        final(out)@ == old(out)@ + lua_string_text(encode_utf8(value@)),
{
    let bytes = value.as_bytes();
    let ghost bs = bytes@;
    out.push('"');
    let ghost start = out@;
    let mut i: usize = 0;
    while i < bytes.len()
        invariant
            i <= bs.len(),
            bs == bytes@,
            out@ == start + escaped_bytes(bs.subrange(0, i as int)),
        decreases bs.len() - i,
    {
        let byte = bytes[i];
        if safe_byte(byte) {
            out.push(byte as char);
        } else {
            out.push('\\');
            out.push(((byte / 100) + 48) as char);
            out.push((((byte / 10) % 10) + 48) as char);
            out.push(((byte % 10) + 48) as char);
        }
        proof {
            assert(bs.subrange(0, i + 1) =~= bs.subrange(0, i as int).push(byte));
            lemma_escaped_bytes_push(bs.subrange(0, i as int), byte);
        }
        i = i + 1;
        assert(out@ =~= start + escaped_bytes(bs.subrange(0, i as int)));
    }
    out.push('"');
    assert(bs.subrange(0, bs.len() as int) =~= bs);
    assert(out@ =~= old(out)@ + lua_string_text(encode_utf8(value@)));
}

fn write_value(out: &mut String, value: &Value)
    ensures
        final(out)@ == old(out)@ + value_text(*value),
    decreases *value, 0nat,
{
    match value {
        Value::Str(v) => push_lua_string(out, v.as_str()),
        Value::Num(v) => {
            out.push_str(v.text.as_str());
        },
        Value::Bool(v) => {
            if *v {
                out.push_str("true");
                proof {
                    reveal_strlit("true");
                }
            } else {
                out.push_str("false");
                proof {
                    reveal_strlit("false");
                }
            }
        },
        Value::Table(v) => write_table(out, v),
    }
    assert(final(out)@ =~= old(out)@ + value_text(*value));
}

fn write_table(out: &mut String, table: &Table)
    ensures
        final(out)@ == old(out)@ + table_text(*table),
    decreases *table, 1nat,
{
    out.push('{');
    let ghost start = out@;
    let mut i: usize = 0;
    while i < table.entries.len()
        invariant
            i <= table@.len(),
            out@ == start + entries_text(*table, i as nat),
        decreases table@.len() - i,
    {
        let (key, value) = &table.entries[i];
        match key {
            Key::Index(k) => {
                out.push('[');
                push_int(out, *k);
                out.push(']');
                out.push('=');
            },
            Key::Name(name) => {
                out.push_str(name.as_str());
                out.push('=');
            },
        }
        write_value(out, value);
        out.push(',');
        i = i + 1;
        assert(out@ =~= start + entries_text(*table, i as nat));
    }
    out.push('}');
    assert(out@ =~= old(out)@ + table_text(*table));
}

/// The Lua literal, before base64. Exposed for tests and for showing an
/// author what their scenario compiles to.
pub fn to_lua(table: &Table) -> (r: String)
    ensures
        r@ == table_text(*table),
{
    let mut out = String::new();
    write_table(&mut out, table);
    assert(out@ =~= table_text(*table));
    out
}


// ------------------------------------------------------------ base64 -----

/// Zero-K's alphabet: URL-safe, `-` for 62 and `_` for 63, with `=` used
/// for padding.
pub open spec fn sextet_char(v: u8) -> char {
    if v < 26 {
        (v + 65) as char
    } else if v < 52 {
        (v + 71) as char
    } else if v < 62 {
        (v - 4) as char
    } else if v == 62 {
        '-'
    } else {
        '_'
    }
}

pub open spec fn sextet0(b0: u8) -> u8 {
    b0 >> 2
}

pub open spec fn sextet1(b0: u8, b1: u8) -> u8 {
    ((b0 % 4) << 4) | (b1 >> 4)
}

pub open spec fn sextet2(b1: u8, b2: u8) -> u8 {
    ((b1 % 16) << 2) | (b2 >> 6)
}

pub open spec fn sextet3(b2: u8) -> u8 {
    b2 % 64
}

/// One group of up to three bytes (`left` of them real) as four characters.
pub open spec fn base64_group(b0: u8, b1: u8, b2: u8, left: int) -> Seq<char> {
    seq![
        sextet_char(sextet0(b0)),
        sextet_char(sextet1(b0, b1)),
        if left > 1 {
            sextet_char(sextet2(b1, b2))
        } else {
            '='
        },
        if left > 2 {
            sextet_char(sextet3(b2))
        } else {
            '='
        },
    ]
}

/// Zero-K's Base64Encode: standard apart from its alphabet.
pub open spec fn base64_text(d: Seq<u8>) -> Seq<char>
    decreases d.len(),
{
    if d.len() == 0 {
        seq![]
    } else if d.len() <= 3 {
        base64_group(
            d[0],
            if d.len() > 1 {
                d[1]
            } else {
                0
            },
            if d.len() > 2 {
                d[2]
            } else {
                0
            },
            d.len() as int,
        )
    } else {
        base64_group(d[0], d[1], d[2], 3) + base64_text(d.skip(3))
    }
}

fn sextet_char_exec(v: u8) -> (c: char)
    requires
        v < 64,
    ensures
        c == sextet_char(v),
{
    if v < 26 {
        (v + 65) as char
    } else if v < 52 {
        (v + 71) as char
    } else if v < 62 {
        (v - 4) as char
    } else if v == 62 {
        '-'
    } else {
        '_'
    }
}

proof fn lemma_sextets_in_range(b0: u8, b1: u8, b2: u8)
    ensures
        sextet0(b0) < 64,
        sextet1(b0, b1) < 64,
        sextet2(b1, b2) < 64,
        sextet3(b2) < 64,
{
    assert(b0 >> 2 < 64u8) by (bit_vector);
    assert(((b0 % 4) << 4) | (b1 >> 4) < 64u8) by (bit_vector);
    assert(((b1 % 16) << 2) | (b2 >> 6) < 64u8) by (bit_vector);
    assert(b2 % 64 < 64u8) by (bit_vector);
}

/// Zero-K's Base64Encode.
pub fn base64_encode(data: &[u8]) -> (r: String)
    ensures
        r@ == base64_text(data@),
{
    let mut out = String::new();
    if data.len() == 0 {
        return out;
    }
    let mut start: usize = 0;
    let ghost d = data@;
    assert(d.skip(0) =~= d);
    loop
        invariant_except_break
            base64_text(d) == out@ + base64_text(d.skip(start as int)),
        invariant
            d == data@,
            start < d.len(),
        ensures
            base64_text(d) == out@,
        decreases d.len() - start,
    {
        let left = data.len() - start;
        let b0 = data[start];
        let b1 = if left > 1 {
            data[start + 1]
        } else {
            0
        };
        let b2 = if left > 2 {
            data[start + 2]
        } else {
            0
        };
        let ghost rest = d.skip(start as int);
        proof {
            lemma_sextets_in_range(b0, b1, b2);
        }
        let ghost before = out@;
        out.push(sextet_char_exec(b0 >> 2));
        out.push(sextet_char_exec(((b0 % 4) << 4) | (b1 >> 4)));
        out.push(
            if left > 1 {
                sextet_char_exec(((b1 % 16) << 2) | (b2 >> 6))
            } else {
                '='
            },
        );
        out.push(
            if left > 2 {
                sextet_char_exec(b2 % 64)
            } else {
                '='
            },
        );
        proof {
            assert(out@ =~= before + base64_group(b0, b1, b2, left as int));
        }
        if left <= 3 {
            assert(base64_text(rest) == base64_group(b0, b1, b2, left as int));
            break ;
        }
        proof {
            assert(rest.skip(3) =~= d.skip(start + 3));
            assert(base64_text(rest) == base64_group(rest[0], rest[1], rest[2], 3) + base64_text(
                rest.skip(3),
            ));
        }
        start = start + 3;
    }
    out
}

/// Encode a table for a start script value.
pub fn encode(table: &Table) -> (r: String)
    ensures
        r@ == encode_text(*table),
{
    let lua = to_lua(table);
    base64_encode(lua.as_str().as_bytes())
}

// ------------------------------------------------ the game's decoder -----

/// Where a character sits in Zero-K's alphabet.
pub open spec fn alphabet_index(c: u8) -> Option<u32> {
    if 65 <= c <= 90 {
        Some((c - 65) as u32)
    } else if 97 <= c <= 122 {
        Some((c - 71) as u32)
    } else if 48 <= c <= 57 {
        Some((c + 4) as u32)
    } else if c == 45 {
        Some(62u32)
    } else if c == 95 {
        Some(63u32)
    } else {
        None
    }
}

/// `CustomKeyToUsefulTable` rewrites `_` to `=` before decoding.
pub open spec fn swapped(c: u8) -> u8 {
    if c == 95 {
        61u8
    } else {
        c
    }
}

/// The sextet the game reads at position `i`, if any.
pub open spec fn game_sextet(s: Seq<u8>, i: int) -> Option<u32> {
    if 0 <= i < s.len() {
        alphabet_index(swapped(s[i]))
    } else {
        None
    }
}

pub open spec fn first_byte(c0: u32, c1: u32) -> u8 {
    ((((c0 * 4) % 256) as u32) | (c1 / 16)) as u8
}

pub open spec fn second_byte(c1: u32, c2: u32) -> u8 {
    ((((c1 * 16) % 256) as u32) | ((c2 / 4) % 256)) as u8
}

/// The `% 192` is Zero-K's, and is fault 2.
pub open spec fn third_byte(c2: u32, c3: u32) -> u8 {
    (((((c2 * 64) % 256) % 192) as u32) | c3) as u8
}

pub open spec fn group_bytes(c0: u32, c1: u32, c2: Option<u32>, c3: Option<u32>) -> Seq<u8> {
    seq![first_byte(c0, c1)] + match c2 {
        Some(x2) => seq![second_byte(c1, x2)] + match c3 {
            Some(x3) => seq![third_byte(x2, x3)],
            None => Seq::<u8>::empty(),
        },
        None => Seq::<u8>::empty(),
    }
}

/// Zero-K's Base64Decode, including the `_` to `=` substitution that is
/// applied first: what the game actually runs, faults and all. A character
/// outside the alphabet - the `=` that a `_` has become among them - reads as
/// the end of the data: the bytes its group still yields are kept, and
/// nothing after it is decoded (fault 1).
pub open spec fn game_decode(s: Seq<u8>) -> Seq<u8>
    decreases s.len(),
{
    if s.len() == 0 {
        seq![]
    } else {
        match (game_sextet(s, 0), game_sextet(s, 1)) {
            (Some(c0), Some(c1)) => group_bytes(c0, c1, game_sextet(s, 2), game_sextet(s, 3)) + if s.len()
                <= 4 || game_sextet(s, 2) is None || game_sextet(s, 3) is None {
                Seq::<u8>::empty()
            } else {
                game_decode(s.skip(4))
            },
            _ => seq![],
        }
    }
}

fn alphabet_index_exec(c: u8) -> (r: Option<u32>)
    ensures
        r == alphabet_index(c),
{
    if 65 <= c && c <= 90 {
        Some((c - 65) as u32)
    } else if 97 <= c && c <= 122 {
        Some((c - 71) as u32)
    } else if 48 <= c && c <= 57 {
        Some((c + 4) as u32)
    } else if c == 45 {
        Some(62)
    } else if c == 95 {
        Some(63)
    } else {
        None
    }
}

fn sextet_at(sw: &Vec<u8>, pos: usize, k: usize) -> (r: Option<u32>)
    requires
        pos <= sw@.len(),
    ensures
        r == (if pos + k < sw@.len() {
            alphabet_index(sw@[pos + k])
        } else {
            None
        }),
{
    if k < sw.len() - pos {
        alphabet_index_exec(sw[pos + k])
    } else {
        None
    }
}

/// Zero-K's Base64Decode *including* the `_` -> `=` substitution that
/// `CustomKeyToUsefulTable` applies first: this is what the game actually
/// runs, faults and all. The first character outside the alphabet ends the
/// data, so a `?` that encodes to `_` cuts the payload short there. It
/// exists so that the encoder's output can be shown to survive it; nothing on
/// the way to the game depends on it.
pub fn decode_as_the_game_does(encoded: &str) -> (r: Vec<u8>)
    ensures
        r@ == game_decode(encode_utf8(encoded@)),
{
    let raw = encoded.as_bytes();
    let ghost s = raw@;
    let mut sw: Vec<u8> = Vec::new();
    let mut k: usize = 0;
    while k < raw.len()
        invariant
            k <= s.len(),
            s == raw@,
            sw@.len() == k,
            forall|j: int| 0 <= j < k ==> sw@[j] == swapped(#[trigger] s[j]),
        decreases s.len() - k,
    {
        let c = raw[k];
        sw.push(if c == 95 {
            61
        } else {
            c
        });
        k = k + 1;
    }
    let mut out: Vec<u8> = Vec::new();
    if sw.len() == 0 {
        return out;
    }
    let mut pos: usize = 0;
    assert(s.skip(0) =~= s);
    loop
        invariant_except_break
            game_decode(s) == out@ + game_decode(s.skip(pos as int)),
        invariant
            sw@.len() == s.len(),
            forall|j: int| 0 <= j < s.len() ==> sw@[j] == swapped(#[trigger] s[j]),
            pos < s.len(),
        ensures
            game_decode(s) == out@,
        decreases s.len() - pos,
    {
        let ghost rest = s.skip(pos as int);
        let c0 = sextet_at(&sw, pos, 0);
        let c1 = sextet_at(&sw, pos, 1);
        let c2 = sextet_at(&sw, pos, 2);
        let c3 = sextet_at(&sw, pos, 3);
        proof {
            assert forall|i: int| 0 <= i < 4 implies #[trigger] game_sextet(rest, i) == (if pos
                + i < sw@.len() {
                alphabet_index(sw@[pos + i])
            } else {
                None
            }) by {
                if pos + i < sw@.len() {
                    assert(rest[i] == s[pos + i]);
                }
            }
            assert(game_sextet(rest, 0) == c0);
            assert(game_sextet(rest, 1) == c1);
            assert(game_sextet(rest, 2) == c2);
            assert(game_sextet(rest, 3) == c3);
        }
        let (x0, x1) = match (c0, c1) {
            (Some(a), Some(b)) => (a, b),
            _ => {
                assert(game_decode(rest) == Seq::<u8>::empty());
                assert(out@ + Seq::<u8>::empty() =~= out@);
                break ;
            },
        };
        let ghost before = out@;
        out.push((((x0 * 4) % 256) | (x1 / 16)) as u8);
        if let Some(x2) = c2 {
            out.push((((x1 * 16) % 256) | ((x2 / 4) % 256)) as u8);
            if let Some(x3) = c3 {
                out.push(((((x2 * 64) % 256) % 192) | x3) as u8);
            }
        }
        proof {
            assert(out@ =~= before + group_bytes(x0, x1, c2, c3));
        }
        if sw.len() - pos <= 4 || c2.is_none() || c3.is_none() {
            assert(game_decode(rest) == group_bytes(x0, x1, c2, c3));
            break ;
        }
        proof {
            assert(rest.skip(4) =~= s.skip(pos + 4));
        }
        pos = pos + 4;
    }
    out
}


// -------------------------------------------------------------- laws -----

/// How Lua reads the body of a short string made of ASCII characters and
/// decimal escapes: a backslash takes up to three digits after it, greedily.
pub open spec fn lua_read(s: Seq<char>) -> Seq<u8>
    decreases s.len(),
{
    if s.len() == 0 {
        seq![]
    } else if s[0] == '\\' && s.len() >= 2 && is_digit(s[1]) {
        let k: int = if s.len() >= 3 && is_digit(s[2]) {
            if s.len() >= 4 && is_digit(s[3]) {
                3
            } else {
                2
            }
        } else {
            1
        };
        seq![digits_value(s.subrange(1, 1 + k)) as u8] + lua_read(s.skip(1 + k))
    } else {
        seq![s[0] as u8] + lua_read(s.skip(1))
    }
}

proof fn lemma_lua_read_byte(b: u8, rest: Seq<char>)
    ensures
        lua_read(byte_text(b) + rest) == seq![b] + lua_read(rest),
{
    let s = byte_text(b) + rest;
    if safe_byte_spec(b) {
        assert(s[0] == b as char);
        assert(s.skip(1) =~= rest);
    } else {
        let d2 = digit_char(b as int / 100);
        let d1 = digit_char((b as int / 10) % 10);
        let d0 = digit_char(b as int % 10);
        assert(s[0] == '\\' && s[1] == d2 && s[2] == d1 && s[3] == d0);
        assert(s.subrange(1, 4) =~= seq![d2, d1, d0]);
        assert(s.subrange(1, 4).drop_last() =~= seq![d2, d1]);
        assert(seq![d2, d1].drop_last() =~= seq![d2]);
        assert(seq![d2].drop_last() =~= Seq::<char>::empty());
        assert(0 <= b as int / 100 < 10);
        assert(0 <= (b as int / 10) % 10 < 10);
        assert(seq![d2].drop_last() =~= Seq::<char>::empty());
        assert(seq![d2].last() as int - 48 == b as int / 100);
        assert(digits_value(Seq::<char>::empty()) == 0);
        assert(digits_value(seq![d2]) == digits_value(seq![d2].drop_last()) * 10 + (seq![d2].last() as int - 48));
        assert(digits_value(seq![d2]) == b as int / 100);
        assert(digits_value(seq![d2, d1]) == (b as int / 100) * 10 + (b as int / 10) % 10);
        assert(((b / 100) * 10 + (b / 10) % 10) * 10 + b % 10 == b) by (bit_vector);
        assert(digits_value(seq![d2, d1, d0]) == b as int);
        assert(s.skip(4) =~= rest);
    }
}

/// Whatever bytes a string holds, the escaped text written for it reads
/// back, in Lua, as exactly those bytes: escapes are always three digits, so
/// a digit that follows one is never absorbed into it.
pub proof fn law_lua_string_reads_back(bs: Seq<u8>)
    ensures
        lua_read(escaped_bytes(bs)) == bs,
    decreases bs.len(),
{
    if bs.len() > 0 {
        law_lua_string_reads_back(bs.drop_first());
        lemma_lua_read_byte(bs[0], escaped_bytes(bs.drop_first()));
        assert(seq![bs[0]] + bs.drop_first() =~= bs);
    }
}

/// A byte that cannot trip either decoder fault wherever it lands.
pub open spec fn wire_byte(b: u8) -> bool {
    b < 0x7F && b != 0x3F
}

pub open spec fn wire_char(c: char) -> bool {
    0x20 <= (c as u32) < 0x7F && c != '?'
}

pub open spec fn wire_text(s: Seq<char>) -> bool {
    forall|i: int| 0 <= i < s.len() ==> wire_char(#[trigger] s[i])
}

pub open spec fn key_ok(k: Key) -> bool {
    match k {
        Key::Index(_) => true,
        Key::Name(n) => wire_text(n@),
    }
}

/// A value is well formed when every name in it is wire-safe text and
/// every number has the shape of a numeral.
pub open spec fn value_ok(v: Value) -> bool
    decreases v, 0nat,
{
    match v {
        Value::Num(x) => is_numeral(x@),
        Value::Table(t) => entries_ok(t, t@.len()),
        _ => true,
    }
}

pub open spec fn entries_ok(t: Table, n: nat) -> bool
    decreases t, n,
{
    if n == 0 || n > t@.len() {
        true
    } else {
        entries_ok(t, (n - 1) as nat) && key_ok(t@[n - 1].0) && value_ok(t@[n - 1].1)
    }
}

pub open spec fn table_ok(t: Table) -> bool {
    entries_ok(t, t@.len())
}

pub proof fn lemma_wire_concat(a: Seq<char>, b: Seq<char>)
    requires
        wire_text(a),
        wire_text(b),
    ensures
        wire_text(a + b),
{
    assert forall|i: int| 0 <= i < (a + b).len() implies wire_char(#[trigger] (a + b)[i]) by {
        if i < a.len() {
            assert((a + b)[i] == a[i]);
        } else {
            assert((a + b)[i] == b[i - a.len()]);
        }
    }
}

pub proof fn lemma_escaped_wire(bs: Seq<u8>)
    ensures
        wire_text(escaped_bytes(bs)),
    decreases bs.len(),
{
    if bs.len() > 0 {
        lemma_escaped_wire(bs.drop_first());
        let b = bs[0];
        assert(wire_text(byte_text(b)));
        lemma_wire_concat(byte_text(b), escaped_bytes(bs.drop_first()));
    }
}

pub proof fn lemma_int_text_wire(i: int)
    ensures
        wire_text(int_text(i)),
{
    let m: nat = if i < 0 {
        (-i) as nat
    } else {
        i as nat
    };
    lemma_decimal_digits(m);
    assert(wire_text(decimal(m)));
    if i < 0 {
        lemma_wire_concat(seq!['-'], decimal(m));
    }
}

pub proof fn lemma_numeral_wire(s: Seq<char>)
    requires
        is_numeral(s),
    ensures
        wire_text(s),
{
    let u = unsigned_part(s);
    assert(wire_text(u));
    if s.len() > 0 && s[0] == '-' {
        assert(s =~= seq!['-'] + u);
        lemma_wire_concat(seq!['-'], u);
    }
}

proof fn lemma_value_wire(v: Value)
    requires
        value_ok(v),
    ensures
        wire_text(value_text(v)),
    decreases v, 0nat,
{
    match v {
        Value::Str(x) => {
            lemma_escaped_wire(encode_utf8(x@));
            lemma_wire_concat(seq!['"'], escaped_bytes(encode_utf8(x@)));
            lemma_wire_concat(seq!['"'] + escaped_bytes(encode_utf8(x@)), seq!['"']);
        },
        Value::Num(x) => {
            lemma_numeral_wire(x@);
        },
        Value::Bool(x) => {
        },
        Value::Table(t) => {
            lemma_entries_wire(t, t@.len());
            lemma_wire_concat(seq!['{'], entries_text(t, t@.len()));
            lemma_wire_concat(seq!['{'] + entries_text(t, t@.len()), seq!['}']);
        },
    }
}

proof fn lemma_entries_wire(t: Table, n: nat)
    requires
        entries_ok(t, n),
    ensures
        wire_text(entries_text(t, n)),
    decreases t, n,
{
    if n > 0 && n <= t@.len() {
        lemma_entries_wire(t, (n - 1) as nat);
        let (k, v) = t@[n - 1];
        lemma_value_wire(v);
        let kt = key_text(k);
        match k {
            Key::Index(i) => {
                lemma_int_text_wire(i as int);
                lemma_wire_concat(seq!['['], int_text(i as int));
                lemma_wire_concat(seq!['['] + int_text(i as int), seq![']', '=']);
            },
            Key::Name(x) => {
                lemma_wire_concat(x@, seq!['=']);
            },
        }
        lemma_wire_concat(kt, value_text(v));
        lemma_wire_concat(kt + value_text(v), seq![',']);
        lemma_wire_concat(entries_text(t, (n - 1) as nat), entry_text(k, value_text(v)));
    }
}

proof fn lemma_wire_char_ascii(c: char)
    requires
        wire_char(c),
    ensures
        '\0' <= c <= '\u{7f}',
{
}

proof fn lemma_wire_ascii(s: Seq<char>)
    requires
        wire_text(s),
    ensures
        is_ascii_chars(s),
{
    assert forall|i: int| 0 <= i < s.len() implies '\0' <= #[trigger] s[i] <= '\u{7f}' by {
        lemma_wire_char_ascii(s[i]);
    }
}

/// The bytes of text made only of ASCII characters.
pub open spec fn ascii_bytes(s: Seq<char>) -> Seq<u8> {
    s.map_values(|c: char| c as u8)
}

proof fn lemma_ascii_bytes_concat(a: Seq<char>, b: Seq<char>)
    ensures
        ascii_bytes(a + b) == ascii_bytes(a) + ascii_bytes(b),
{
    assert(ascii_bytes(a + b) =~= ascii_bytes(a) + ascii_bytes(b));
}

proof fn lemma_group_decodes(b0: u8, b1: u8, b2: u8)
    requires
        wire_byte(b0),
        wire_byte(b1),
        wire_byte(b2),
    ensures
        sextet0(b0) < 63,
        sextet1(b0, b1) < 63,
        sextet2(b1, b2) < 63,
        sextet3(b2) < 63,
        first_byte(sextet0(b0) as u32, sextet1(b0, b1) as u32) == b0,
        second_byte(sextet1(b0, b1) as u32, sextet2(b1, b2) as u32) == b1,
        third_byte(sextet2(b1, b2) as u32, sextet3(b2) as u32) == b2,
{
    assert(b0 < 0x7F && b0 != 0x3F && b1 < 0x7F && b1 != 0x3F && b2 < 0x7F && b2 != 0x3F ==> {
        &&& (b0 >> 2) < 63u8
        &&& (((b0 % 4) << 4) | (b1 >> 4)) < 63u8
        &&& (((b1 % 16) << 2) | (b2 >> 6)) < 63u8
        &&& (b2 % 64) < 63u8
    }) by (bit_vector);
    assert(b0 < 0x7F && b1 < 0x7F ==> ((((((b0 >> 2) as u32) * 4) % 256) as u32) | (((((b0 % 4)
        << 4) | (b1 >> 4)) as u32) / 16)) as u8 == b0) by (bit_vector);
    assert(b1 < 0x7F && b2 < 0x7F ==> ((((((((b0 % 4) << 4) | (b1 >> 4)) as u32) * 16) % 256) as u32)
        | (((((b1 % 16) << 2) | (b2 >> 6)) as u32 / 4) % 256)) as u8 == b1) by (bit_vector);
    assert(b2 < 0x7F ==> ((((((((b1 % 16) << 2) | (b2 >> 6)) as u32) * 64) % 256) % 192) as u32
        | ((b2 % 64) as u32)) as u8 == b2) by (bit_vector);
}

proof fn lemma_sextet_char_reads_back(v: u8)
    requires
        v < 63,
    ensures
        alphabet_index(swapped(sextet_char(v) as u8)) == Some(v as u32),
        (sextet_char(v) as u32) < 0x80,
{
}

proof fn lemma_base64_ascii(d: Seq<u8>)
    ensures
        is_ascii_chars(base64_text(d)),
    decreases d.len(),
{
    if d.len() > 0 {
        let b0 = d[0];
        let b1: u8 = if d.len() > 1 {
            d[1]
        } else {
            0
        };
        let b2: u8 = if d.len() > 2 {
            d[2]
        } else {
            0
        };
        lemma_sextets_in_range(b0, b1, b2);
        let g = base64_group(b0, b1, b2, if d.len() > 3 {
            3
        } else {
            d.len() as int
        });
        assert(is_ascii_chars(g));
        if d.len() > 3 {
            lemma_base64_ascii(d.skip(3));
            assert(is_ascii_chars(g + base64_text(d.skip(3))));
        }
    }
}

/// Base64 of bytes that are all wire-safe goes through Zero-K's faulty
/// decoder unchanged.
pub proof fn law_wire_bytes_survive_the_decoder(d: Seq<u8>)
    requires
        forall|i: int| 0 <= i < d.len() ==> wire_byte(#[trigger] d[i]),
    ensures
        game_decode(ascii_bytes(base64_text(d))) == d,
    decreases d.len(),
{
    if d.len() > 0 {
        let left: int = if d.len() > 3 {
            3
        } else {
            d.len() as int
        };
        let b0 = d[0];
        let b1: u8 = if d.len() > 1 {
            d[1]
        } else {
            0
        };
        let b2: u8 = if d.len() > 2 {
            d[2]
        } else {
            0
        };
        lemma_group_decodes(b0, b1, b2);
        let g = base64_group(b0, b1, b2, left);
        let rest = if d.len() > 3 {
            base64_text(d.skip(3))
        } else {
            Seq::<char>::empty()
        };
        assert(base64_text(d) =~= g + rest);
        lemma_ascii_bytes_concat(g, rest);
        let x = ascii_bytes(g) + ascii_bytes(rest);
        lemma_sextet_char_reads_back(sextet0(b0));
        lemma_sextet_char_reads_back(sextet1(b0, b1));
        lemma_sextet_char_reads_back(sextet2(b1, b2));
        lemma_sextet_char_reads_back(sextet3(b2));
        assert(game_sextet(x, 0) == Some(sextet0(b0) as u32));
        assert(game_sextet(x, 1) == Some(sextet1(b0, b1) as u32));
        if left > 1 {
            assert(game_sextet(x, 2) == Some(sextet2(b1, b2) as u32));
        } else {
            assert(game_sextet(x, 2) == None::<u32>);
        }
        if left > 2 {
            assert(game_sextet(x, 3) == Some(sextet3(b2) as u32));
        } else {
            assert(game_sextet(x, 3) == None::<u32>);
        }
        if d.len() > 3 {
            law_wire_bytes_survive_the_decoder(d.skip(3));
            lemma_base64_ascii(d.skip(3));
            assert(x.skip(4) =~= ascii_bytes(rest));
            assert(rest.len() > 0);
            assert(seq![b0, b1, b2] + d.skip(3) =~= d);
        } else if d.len() == 3 {
            assert(seq![b0, b1, b2] =~= d);
        } else if d.len() == 2 {
            assert(seq![b0, b1] =~= d);
        } else {
            assert(seq![b0] =~= d);
        }
    }
}

/// Any text made of wire-safe characters survives the trip: what Zero-K's
/// decoder makes of its encoded form is exactly its bytes.
pub proof fn law_wire_text_survives_the_decoder(tt: Seq<char>)
    requires
        wire_text(tt),
    ensures
        game_decode(encode_utf8(base64_text(encode_utf8(tt)))) == encode_utf8(tt),
{
    lemma_wire_ascii(tt);
    is_ascii_chars_encode_utf8(tt);
    let d = encode_utf8(tt);
    assert(d =~= ascii_bytes(tt));
    assert forall|i: int| 0 <= i < d.len() implies wire_byte(#[trigger] d[i]) by {
        assert(wire_char(tt[i]));
    }
    lemma_base64_ascii(d);
    is_ascii_chars_encode_utf8(base64_text(d));
    assert(encode_utf8(base64_text(d)) =~= ascii_bytes(base64_text(d)));
    law_wire_bytes_survive_the_decoder(d);
}

/// Every well-formed table survives the trip: what Zero-K's decoder makes of
/// the encoded payload is exactly the bytes of the Lua literal. Question
/// marks, quotes, backslashes and text in any language included.
pub proof fn law_payload_survives_the_decoder(t: Table)
    requires
        table_ok(t),
    ensures
        game_decode(encode_utf8(base64_text(encode_utf8(table_text(t))))) == encode_utf8(
            table_text(t),
        ),
{
    lemma_entries_wire(t, t@.len());
    lemma_wire_concat(seq!['{'], entries_text(t, t@.len()));
    lemma_wire_concat(seq!['{'] + entries_text(t, t@.len()), seq!['}']);
    law_wire_text_survives_the_decoder(table_text(t));
}

/// Base64 of wire-safe bytes never holds `_`: no sextet of theirs is 63.
proof fn lemma_base64_no_underscore(d: Seq<u8>)
    requires
        forall|i: int| 0 <= i < d.len() ==> wire_byte(#[trigger] d[i]),
    ensures
        forall|i: int| 0 <= i < base64_text(d).len() ==> #[trigger] base64_text(d)[i] != '_',
    decreases d.len(),
{
    if d.len() > 0 {
        let b0 = d[0];
        let b1: u8 = if d.len() > 1 {
            d[1]
        } else {
            0
        };
        let b2: u8 = if d.len() > 2 {
            d[2]
        } else {
            0
        };
        lemma_group_decodes(b0, b1, b2);
        let g = base64_group(b0, b1, b2, if d.len() > 3 {
            3
        } else {
            d.len() as int
        });
        assert(forall|i: int| 0 <= i < g.len() ==> #[trigger] g[i] != '_');
        if d.len() > 3 {
            assert forall|i: int| 0 <= i < d.skip(3).len() implies wire_byte(#[trigger] d.skip(3)[i]) by {
                assert(d.skip(3)[i] == d[i + 3]);
            }
            lemma_base64_no_underscore(d.skip(3));
            let r = base64_text(d.skip(3));
            assert forall|i: int| 0 <= i < (g + r).len() implies #[trigger] (g + r)[i] != '_' by {
                if i >= g.len() {
                    assert((g + r)[i] == r[i - g.len()]);
                }
            }
        }
    }
}

/// What goes on the wire for a well-formed table is inert to both decoder
/// faults: its Lua text is printable ASCII with no `?` - every risky byte of
/// a string travels as a decimal escape - and its encoding never holds the
/// `_` that Zero-K would read as the end of the data.
pub proof fn law_payloads_are_printable_and_never_hold_an_underscore(t: Table)
    requires
        table_ok(t),
    ensures
        forall|i: int|
            0 <= i < table_text(t).len() ==> 0x20 <= (#[trigger] table_text(t)[i] as u32) <= 0x7E
                && table_text(t)[i] != '?',
        forall|i: int|
            0 <= i < encode_text(t).len() ==> #[trigger] encode_text(t)[i] != '_',
{
    let tt = table_text(t);
    lemma_entries_wire(t, t@.len());
    lemma_wire_concat(seq!['{'], entries_text(t, t@.len()));
    lemma_wire_concat(seq!['{'] + entries_text(t, t@.len()), seq!['}']);
    assert forall|i: int| 0 <= i < tt.len() implies 0x20 <= (#[trigger] tt[i] as u32) <= 0x7E
        && tt[i] != '?' by {
        assert(wire_char(tt[i]));
    }
    lemma_wire_ascii(tt);
    is_ascii_chars_encode_utf8(tt);
    let d = encode_utf8(tt);
    assert(d =~= ascii_bytes(tt));
    assert forall|i: int| 0 <= i < d.len() implies wire_byte(#[trigger] d[i]) by {
        assert(wire_char(tt[i]));
    }
    lemma_base64_no_underscore(d);
}

/// What `encode` writes for a table.
pub open spec fn encode_text(t: Table) -> Seq<char> {
    base64_text(encode_utf8(table_text(t)))
}

/// What fault 2 leaves of a byte in the third place of a group: its top
/// two bits cleared when both are set.
pub open spec fn third_as_read(z: u8) -> u8 {
    if z >= 0xC0 {
        (z - 0xC0) as u8
    } else {
        z
    }
}

/// Fault 2 on its own: three bytes whose encoding holds no `_` decode to the
/// first two unchanged and the third with its top two bits cleared when both
/// are set - any byte from `0xC0` up loses `0xC0`, every other comes through.
pub proof fn law_only_a_high_third_byte_is_corrupted(d: Seq<u8>)
    requires
        d.len() == 3,
        forall|i: int| 0 <= i < base64_text(d).len() ==> #[trigger] base64_text(d)[i] != '_',
    ensures
        game_decode(encode_utf8(base64_text(d))) == seq![d[0], d[1], third_as_read(d[2])],
{
    let (x, y, z) = (d[0], d[1], d[2]);
    let g = base64_text(d);
    assert(g == base64_group(x, y, z, 3));
    lemma_sextets_in_range(x, y, z);
    assert(g[0] != '_' && g[1] != '_' && g[2] != '_' && g[3] != '_');
    let (s0, s1, s2, s3) = (sextet0(x), sextet1(x, y), sextet2(y, z), sextet3(z));
    assert(s0 < 63 && s1 < 63 && s2 < 63 && s3 < 63);
    lemma_sextet_char_reads_back(s0);
    lemma_sextet_char_reads_back(s1);
    lemma_sextet_char_reads_back(s2);
    lemma_sextet_char_reads_back(s3);
    lemma_base64_ascii(d);
    is_ascii_chars_encode_utf8(g);
    let b = ascii_bytes(g);
    assert(encode_utf8(g) =~= b);
    assert(game_sextet(b, 0) == Some(s0 as u32));
    assert(game_sextet(b, 1) == Some(s1 as u32));
    assert(game_sextet(b, 2) == Some(s2 as u32));
    assert(game_sextet(b, 3) == Some(s3 as u32));
    assert(((((((x >> 2) as u32) * 4) % 256) as u32) | (((((x % 4) << 4) | (y >> 4)) as u32) / 16))
        as u8 == x) by (bit_vector);
    assert(((((((((x % 4) << 4) | (y >> 4)) as u32) * 16) % 256) as u32) | (((((y % 16) << 2) | (z
        >> 6)) as u32 / 4) % 256)) as u8 == y) by (bit_vector);
    assert(((((((((y % 16) << 2) | (z >> 6)) as u32) * 64) % 256) % 192) as u32 | ((z % 64) as u32))
        as u8 == if z >= 0xC0 {
        (z - 0xC0) as u8
    } else {
        z
    }) by (bit_vector);
    assert(group_bytes(s0 as u32, s1 as u32, Some(s2 as u32), Some(s3 as u32)) =~= seq![
        x,
        y,
        third_as_read(z),
    ]);
}

/// A character base64 can put on the wire: a letter, a digit, `-`, `_` or
/// the `=` of padding.
pub open spec fn base64_char(c: char) -> bool {
    ('A' <= c && c <= 'Z') || ('a' <= c && c <= 'z') || ('0' <= c && c <= '9') || c == '-' || c
        == '_' || c == '='
}

/// Base64 text is made of the alphabet and padding only.
pub proof fn lemma_base64_chars(d: Seq<u8>)
    ensures
        forall|i: int| 0 <= i < base64_text(d).len() ==> base64_char(#[trigger] base64_text(d)[i]),
    decreases d.len(),
{
    if d.len() > 0 {
        let b0 = d[0];
        let b1: u8 = if d.len() > 1 {
            d[1]
        } else {
            0
        };
        let b2: u8 = if d.len() > 2 {
            d[2]
        } else {
            0
        };
        lemma_sextets_in_range(b0, b1, b2);
        let g = base64_group(b0, b1, b2, if d.len() > 3 {
            3
        } else {
            d.len() as int
        });
        assert(forall|i: int| 0 <= i < g.len() ==> base64_char(#[trigger] g[i]));
        if d.len() > 3 {
            lemma_base64_chars(d.skip(3));
            let r = base64_text(d.skip(3));
            assert forall|i: int| 0 <= i < (g + r).len() implies base64_char(#[trigger] (g + r)[i]) by {
                if i >= g.len() {
                    assert((g + r)[i] == r[i - g.len()]);
                }
            }
        }
    }
}

} // verus!
