//! The map list.
//!
//! Standing alone there is no list of maps, so the catalogue comes from
//! Zero-K's own content service: one call, every featured and supported map,
//! with the `ResourceID` that addresses its page. The reply is SOAP, read here
//! by plain string scanning rather than with an XML parser for one call.
use vstd::prelude::*;

use crate::text::{
    chars_of, find_from, find_from_exec, lemma_find_from, lowered, lowered_exec, matches_at,
    parse_u32, parse_u32_spec, slice_chars, string_of, trim, trim_exec,
};

verus! {

broadcast use vstd::string::group_string_axioms;

pub struct CatalogueMap {
    pub name: String,
    pub resource_id: u32,
    /// Map width and height, in elmos, where the catalogue gives them.
    ///
    /// `None` when the catalogue does not say, so the caller can fall back
    /// visibly rather than silently adopting a wrong number.
    pub width_elmos: Option<u32>,
    pub height_elmos: Option<u32>,
}

impl View for CatalogueMap {
    type V = (Seq<char>, u32, Option<u32>, Option<u32>);

    open spec fn view(&self) -> (Seq<char>, u32, Option<u32>, Option<u32>) {
        (self.name@, self.resource_id, self.width_elmos, self.height_elmos)
    }
}

/// One side of a map, in elmos, from the catalogue's figure in map units of
/// 512 elmos. Anything that is not a whole number of units from 1 to 64 is
/// refused: the field is occasionally absent or zero, and a zero would put
/// every unit at the origin.
pub open spec fn side_spec(raw: Option<Seq<char>>) -> Option<u32> {
    match raw {
        None => None,
        Some(r) => match parse_u32_spec(trim(r)) {
            Some(units) => if 1 <= units <= 64 {
                Some((units * 512) as u32)
            } else {
                None
            },
            None => None,
        },
    }
}

/// One side of a map, in elmos, from the catalogue's map-unit figure.
pub fn side_elmos(raw: Option<&str>) -> (r: Option<u32>)
    ensures
        r == side_spec(
            match raw {
                Some(x) => Some(x@),
                None => None,
            },
        ),
        r matches Some(v) ==> 512 <= v <= 32768 && v % 512 == 0,
{
    match raw {
        None => None,
        Some(text) => {
            let cs = chars_of(text);
            let t = trim_exec(&cs);
            match parse_u32(&t) {
                Some(units) => if 1 <= units && units <= 64 {
                    Some(units * 512)
                } else {
                    None
                },
                None => None,
            }
        },
    }
}

// -------------------------------------------------------------- hosts -----

pub open spec fn starts_with(s: Seq<char>, p: Seq<char>) -> bool {
    p.len() <= s.len() && s.subrange(0, p.len() as int) == p
}

pub open spec fn ends_with(s: Seq<char>, p: Seq<char>) -> bool {
    p.len() <= s.len() && s.subrange(s.len() - p.len(), s.len() as int) == p
}

/// Everything before the first character that ends an authority.
pub open spec fn authority_of(s: Seq<char>) -> Seq<char>
    decreases s.len(),
{
    if s.len() == 0 || s[0] == '/' || s[0] == '?' || s[0] == '#' {
        seq![]
    } else {
        seq![s[0]] + authority_of(s.drop_first())
    }
}

/// Everything after the last `@`, or all of it when there is none.
pub open spec fn after_last_at(s: Seq<char>) -> Seq<char>
    decreases s.len(),
{
    if s.len() == 0 || s.last() == '@' {
        seq![]
    } else {
        after_last_at(s.drop_last()).push(s.last())
    }
}

/// Everything before the first `:`.
pub open spec fn before_port(s: Seq<char>) -> Seq<char>
    decreases s.len(),
{
    if s.len() == 0 || s[0] == ':' {
        seq![]
    } else {
        seq![s[0]] + before_port(s.drop_first())
    }
}

/// What follows the scheme, for the two schemes the service answers on.
pub open spec fn after_scheme(url: Seq<char>) -> Option<Seq<char>> {
    if starts_with(url, "https://"@) {
        Some(url.skip(8))
    } else if starts_with(url, "http://"@) {
        Some(url.skip(7))
    } else {
        None
    }
}

/// The host a URL names, lowercased, if it is an HTTP(S) URL.
pub open spec fn host_of(url: Seq<char>) -> Option<Seq<char>> {
    match after_scheme(url) {
        Some(rest) => Some(lowered(before_port(after_last_at(authority_of(rest))))),
        None => None,
    }
}

fn prefix_exec(s: &Vec<char>, p: &str) -> (r: bool)
    ensures
        r == starts_with(s@, p@),
{
    let pc = chars_of(p);
    if pc.len() > s.len() {
        return false;
    }
    let r = crate::text::matches_at_exec(s, &pc, 0);
    assert(r == starts_with(s@, p@)) by {
        assert(s@.subrange(0, pc@.len() as int) == s@.subrange(0, 0 + pc@.len() as int));
    }
    r
}

fn host_exec(url: &str) -> (r: Option<Vec<char>>)
    ensures
        r matches Some(h) ==> host_of(url@) == Some(h@),
        r is None ==> host_of(url@) is None,
{
    let cs = chars_of(url);
    let skip: usize = if prefix_exec(&cs, "https://") {
        proof {
            reveal_strlit("https://");
        }
        8
    } else if prefix_exec(&cs, "http://") {
        proof {
            reveal_strlit("http://");
        }
        7
    } else {
        return None;
    };
    let rest = slice_chars(&cs, skip, cs.len());
    assert(rest@ =~= cs@.skip(skip as int));
    // The authority: up to the first '/', '?' or '#'.
    let mut a: usize = 0;
    assert(rest@.skip(0) =~= rest@);
    assert(rest@.subrange(0, 0) + rest@ =~= rest@);
    while a < rest.len() && rest[a] != '/' && rest[a] != '?' && rest[a] != '#'
        invariant
            a <= rest@.len(),
            authority_of(rest@) == rest@.subrange(0, a as int) + authority_of(rest@.skip(a as int)),
        decreases rest@.len() - a,
    {
        assert(rest@.skip(a as int).drop_first() =~= rest@.skip(a + 1));
        assert(rest@.subrange(0, a + 1) =~= rest@.subrange(0, a as int) + seq![rest@[a as int]]);
        a = a + 1;
    }
    assert(authority_of(rest@.skip(a as int)) =~= Seq::<char>::empty());
    let authority = slice_chars(&rest, 0, a);
    // The host: after the last '@'.
    let mut b: usize = authority.len();
    assert(authority@.subrange(b as int, b as int) =~= Seq::<char>::empty());
    assert(authority@.subrange(0, b as int) =~= authority@);
    assert(after_last_at(authority@) =~= after_last_at(authority@.subrange(0, b as int))
        + authority@.subrange(b as int, authority@.len() as int));
    while b > 0 && authority[b - 1] != '@'
        invariant
            b <= authority@.len(),
            after_last_at(authority@) == after_last_at(authority@.subrange(0, b as int))
                + authority@.subrange(b as int, authority@.len() as int),
        decreases b,
    {
        assert(authority@.subrange(0, b as int).drop_last() =~= authority@.subrange(0, b - 1));
        assert(authority@.subrange(b - 1, authority@.len() as int) =~= seq![authority@[b - 1]]
            + authority@.subrange(b as int, authority@.len() as int));
        b = b - 1;
    }
    assert(authority@.subrange(0, b as int).len() == 0 || authority@.subrange(0, b as int).last()
        == '@');
    assert(after_last_at(authority@.subrange(0, b as int)) =~= Seq::<char>::empty());
    let host = slice_chars(&authority, b, authority.len());
    assert(host@ =~= after_last_at(authority@));
    // Without the port.
    let mut c: usize = 0;
    assert(host@.skip(0) =~= host@);
    assert(host@.subrange(0, 0) + host@ =~= host@);
    while c < host.len() && host[c] != ':'
        invariant
            c <= host@.len(),
            before_port(host@) == host@.subrange(0, c as int) + before_port(host@.skip(c as int)),
        decreases host@.len() - c,
    {
        assert(host@.skip(c as int).drop_first() =~= host@.skip(c + 1));
        assert(host@.subrange(0, c + 1) =~= host@.subrange(0, c as int) + seq![host@[c as int]]);
        c = c + 1;
    }
    assert(before_port(host@.skip(c as int)) =~= Seq::<char>::empty());
    let bare = slice_chars(&host, 0, c);
    assert(bare@ =~= before_port(host@));
    Some(lowered_exec(&bare))
}

/// Only Zero-K's own service, or a subdomain of it, is ever fetched from.
pub open spec fn allowed_host(h: Seq<char>) -> bool {
    h == "zero-k.info"@ || ends_with(h, ".zero-k.info"@)
}

fn ends_with_exec(s: &Vec<char>, p: &str) -> (r: bool)
    ensures
        r == ends_with(s@, p@),
{
    let pc = chars_of(p);
    if pc.len() > s.len() {
        return false;
    }
    let at = s.len() - pc.len();
    crate::text::matches_at_exec(s, &pc, at)
}

fn equals_exec(s: &Vec<char>, p: &str) -> (r: bool)
    ensures
        r == (s@ == p@),
{
    let pc = chars_of(p);
    if pc.len() != s.len() {
        return false;
    }
    let r = crate::text::matches_at_exec(s, &pc, 0);
    assert(s@.subrange(0, s@.len() as int) =~= s@);
    r
}

/// Whether a URL points at Zero-K's service: an `http` or `https` URL whose
/// host, after any credentials and before any port, is `zero-k.info` or one
/// of its subdomains.
pub fn host_allowed(url: &str) -> (r: bool)
    ensures
        r == (host_of(url@) matches Some(h) && allowed_host(h)),
{
    match host_exec(url) {
        Some(h) => equals_exec(&h, "zero-k.info") || ends_with_exec(&h, ".zero-k.info"),
        None => false,
    }
}

// ---------------------------------------------------------- the reply -----

pub open spec fn open_tag(local: Seq<char>) -> Seq<char> {
    "<a:"@ + local + ">"@
}

pub open spec fn close_tag(local: Seq<char>) -> Seq<char> {
    "</a:"@ + local + ">"@
}

/// The text of the first `<a:local>` element.
pub open spec fn element_spec(xml: Seq<char>, local: Seq<char>) -> Option<Seq<char>> {
    match find_from(xml, open_tag(local), 0) {
        None => None,
        Some(i) => {
            let start = i + open_tag(local).len();
            match find_from(xml, close_tag(local), start) {
                None => None,
                Some(e) => Some(xml.subrange(start, e)),
            }
        },
    }
}

fn tag(prefix: &str, local: &str) -> (r: Vec<char>)
    ensures
        r@ == prefix@ + local@ + ">"@,
{
    let mut s = prefix.to_string();
    s.push_str(local);
    s.push_str(">");
    chars_of(s.as_str())
}

fn element_text(xml: &Vec<char>, local: &str) -> (r: Option<Vec<char>>)
    ensures
        r matches Some(t) ==> element_spec(xml@, local@) == Some(t@),
        r is None ==> element_spec(xml@, local@) is None,
{
    let open = tag("<a:", local);
    let close = tag("</a:", local);
    let n = xml.len();
    match find_from_exec(xml, &open, 0) {
        None => None,
        Some(i) => {
            proof {
                lemma_find_from(xml@, open@, 0);
            }
            let start = i + open.len();
            match find_from_exec(xml, &close, start) {
                None => None,
                Some(e) => {
                    proof {
                        lemma_find_from(xml@, close@, start as int);
                    }
                    Some(slice_chars(xml, start, e))
                },
            }
        },
    }
}

/// Every non-overlapping occurrence of `pat`, leftmost first, replaced.
pub open spec fn replace_all(s: Seq<char>, pat: Seq<char>, rep: Seq<char>) -> Seq<char>
    decreases s.len(),
{
    if s.len() == 0 {
        seq![]
    } else if pat.len() > 0 && matches_at(s, pat, 0) {
        rep + replace_all(s.skip(pat.len() as int), pat, rep)
    } else {
        seq![s[0]] + replace_all(s.drop_first(), pat, rep)
    }
}

fn replace_exec(s: &Vec<char>, pat: &str, rep: &str) -> (r: Vec<char>)
    ensures
        r@ == replace_all(s@, pat@, rep@),
{
    let pc = chars_of(pat);
    let rc = chars_of(rep);
    let mut out: Vec<char> = Vec::new();
    let mut i: usize = 0;
    assert(s@.skip(0) =~= s@);
    while i < s.len()
        invariant
            i <= s@.len(),
            pc@ == pat@,
            rc@ == rep@,
            replace_all(s@, pat@, rep@) == out@ + replace_all(s@.skip(i as int), pat@, rep@),
        decreases s@.len() - i,
    {
        let ghost rest = s@.skip(i as int);
        let hit = pc.len() > 0 && crate::text::matches_at_exec(s, &pc, i);
        proof {
            if pc@.len() > 0 && i + pc@.len() <= s@.len() {
                assert(rest.subrange(0, pc@.len() as int) =~= s@.subrange(i as int, i + pc@.len()));
            }
        }
        if hit {
            let ghost before = out@;
            let mut k: usize = 0;
            while k < rc.len()
                invariant
                    k <= rc@.len(),
                    out@ == before + rc@.subrange(0, k as int),
                decreases rc@.len() - k,
            {
                out.push(rc[k]);
                k = k + 1;
                assert(out@ =~= before + rc@.subrange(0, k as int));
            }
            assert(rc@.subrange(0, rc@.len() as int) =~= rc@);
            assert(rest.skip(pc@.len() as int) =~= s@.skip(i + pc@.len()));
            i = i + pc.len();
        } else {
            out.push(s[i]);
            assert(rest.drop_first() =~= s@.skip(i + 1));
            i = i + 1;
        }
    }
    assert(s@.skip(i as int) =~= Seq::<char>::empty());
    out
}

/// The five entities XML escapes text with, undone in turn.
pub open spec fn unescape_spec(s: Seq<char>) -> Seq<char> {
    replace_all(
        replace_all(
            replace_all(
                replace_all(replace_all(s, "&amp;"@, "&"@), "&lt;"@, "<"@),
                "&gt;"@,
                ">"@,
            ),
            "&quot;"@,
            "\""@,
        ),
        "&apos;"@,
        "'"@,
    )
}

fn unescape(s: &Vec<char>) -> (r: Vec<char>)
    ensures
        r@ == unescape_spec(s@),
{
    let a = replace_exec(s, "&amp;", "&");
    let b = replace_exec(&a, "&lt;", "<");
    let c = replace_exec(&b, "&gt;", ">");
    let d = replace_exec(&c, "&quot;", "\"");
    replace_exec(&d, "&apos;", "'")
}

/// The catalogue entry one `MapItem` describes, when it names a map by a
/// non-empty name and a non-zero `ResourceID`.
pub open spec fn item_spec(item: Seq<char>) -> Option<(Seq<char>, u32, Option<u32>, Option<u32>)> {
    let name = element_spec(item, "Name"@);
    let id = match element_spec(item, "ResourceID"@) {
        Some(t) => parse_u32_spec(trim(t)),
        None => None,
    };
    match (name, id) {
        (Some(n), Some(rid)) => if unescape_spec(n).len() > 0 && rid != 0 {
            Some(
                (
                    unescape_spec(n),
                    rid,
                    side_spec(element_spec(item, "Width"@)),
                    side_spec(element_spec(item, "Height"@)),
                ),
            )
        } else {
            None
        },
        _ => None,
    }
}

pub open spec fn item_open() -> Seq<char> {
    "<a:MapItem>"@
}

pub open spec fn item_close() -> Seq<char> {
    "</a:MapItem>"@
}

/// A closing tag can never begin where an opening tag does.
pub proof fn lemma_item_tags_differ(xml: Seq<char>, at: int)
    requires
        matches_at(xml, item_open(), at),
    ensures
        !matches_at(xml, item_close(), at),
{
    reveal_strlit("<a:MapItem>");
    reveal_strlit("</a:MapItem>");
    if matches_at(xml, item_close(), at) {
        assert(xml.subrange(at, at + 11)[1] == xml[at + 1]);
        assert(xml.subrange(at, at + 12)[1] == xml[at + 1]);
    }
}

/// The entries of every `MapItem` from position `at` on, in order.
pub open spec fn catalogue_from(xml: Seq<char>, at: int) -> Seq<(Seq<char>, u32, Option<u32>, Option<u32>)>
    decreases xml.len() - at,
{
    if at < 0 {
        seq![]
    } else {
        match find_from(xml, item_open(), at) {
            None => seq![],
            Some(start) => match find_from(xml, item_close(), start) {
                None => seq![],
                Some(end) => {
                    proof {
                        lemma_find_from(xml, item_open(), at);
                        lemma_find_from(xml, item_close(), start);
                        lemma_item_tags_differ(xml, start);
                    }
                    (match item_spec(xml.subrange(start, end)) {
                        Some(e) => seq![e],
                        None => seq![],
                    }) + catalogue_from(xml, end)
                },
            },
        }
    }
}

pub open spec fn map_views(v: Seq<CatalogueMap>) -> Seq<(Seq<char>, u32, Option<u32>, Option<u32>)> {
    v.map_values(|m: CatalogueMap| m@)
}

fn side_of(item: &Vec<char>, local: &str) -> (r: Option<u32>)
    ensures
        r == side_spec(element_spec(item@, local@)),
{
    match element_text(item, local) {
        Some(t) => {
            let s = string_of(t.as_slice());
            side_elmos(Some(s.as_str()))
        },
        None => side_elmos(None),
    }
}

fn read_item(item: &Vec<char>) -> (r: Option<CatalogueMap>)
    ensures
        r matches Some(m) ==> item_spec(item@) == Some(m@),
        r is None ==> item_spec(item@) is None,
{
    let name = match element_text(item, "Name") {
        Some(t) => unescape(&t),
        None => return None,
    };
    let id = match element_text(item, "ResourceID") {
        Some(t) => match parse_u32(&trim_exec(&t)) {
            Some(v) => v,
            None => return None,
        },
        None => return None,
    };
    if name.len() == 0 || id == 0 {
        return None;
    }
    Some(
        CatalogueMap {
            name: string_of(name.as_slice()),
            resource_id: id,
            width_elmos: side_of(item, "Width"),
            height_elmos: side_of(item, "Height"),
        },
    )
}

/// Read the `MapItems` out of a `GetPublicCommunityInfo` response: each
/// with a non-empty name and a non-zero `ResourceID`, in the order given;
/// entries missing either are skipped rather than guessed.
pub fn parse_catalogue(xml: &str) -> (r: Vec<CatalogueMap>)
    ensures
        map_views(r@) == catalogue_from(xml@, 0),
{
    let x = chars_of(xml);
    let open = chars_of("<a:MapItem>");
    let close = chars_of("</a:MapItem>");
    let mut out: Vec<CatalogueMap> = Vec::new();
    let mut at: usize = 0;
    loop
        invariant_except_break
            catalogue_from(x@, 0) == map_views(out@) + catalogue_from(x@, at as int),
        invariant
            x@ == xml@,
            open@ == item_open(),
            close@ == item_close(),
            at <= x@.len(),
        ensures
            catalogue_from(x@, 0) == map_views(out@),
        decreases x@.len() - at,
    {
        let start = match find_from_exec(&x, &open, at) {
            Some(i) => i,
            None => break ,
        };
        let end = match find_from_exec(&x, &close, start) {
            Some(e) => e,
            None => break ,
        };
        proof {
            lemma_find_from(x@, item_open(), at as int);
            lemma_find_from(x@, item_close(), start as int);
            lemma_item_tags_differ(x@, start as int);
        }
        let item = slice_chars(&x, start, end);
        let ghost before = map_views(out@);
        match read_item(&item) {
            Some(m) => {
                out.push(m);
                assert(map_views(out@) =~= before + seq![m@]);
            },
            None => {
                assert(map_views(out@) =~= before + Seq::<(Seq<char>, u32, Option<u32>, Option<u32>)>::empty());
            },
        }
        at = end;
    }
    out
}

} // verus!
