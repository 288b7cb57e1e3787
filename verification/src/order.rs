//! Ordering by keys, the way Rust orders them, and a stable sort over it.
//!
//! Every list this crate orders is ordered by a key made of numbers and
//! strings: engine versions by their numeric and textual runs, builders by
//! rank then name, units by rank, group and title, and plain names. A key
//! here is a list of `(number, text)` pairs compared lexicographically, which
//! is how Rust compares a `Vec` of tuples of integers and `String`s: numbers
//! by value, text character by character (UTF-8 byte order and code point
//! order agree), and a proper prefix before what extends it.
use vstd::prelude::*;

verus! {

/// Text compared the way `str`'s `Ord` compares it.
pub open spec fn text_less(a: Seq<char>, b: Seq<char>) -> bool
    decreases a.len(),
{
    if a.len() == 0 {
        b.len() > 0
    } else if b.len() == 0 {
        false
    } else if a[0] != b[0] {
        (a[0] as u32) < (b[0] as u32)
    } else {
        text_less(a.drop_first(), b.drop_first())
    }
}

/// Keys compared lexicographically, pair by pair.
pub open spec fn key_less(a: Seq<(u64, Seq<char>)>, b: Seq<(u64, Seq<char>)>) -> bool
    decreases a.len(),
{
    if a.len() == 0 {
        b.len() > 0
    } else if b.len() == 0 {
        false
    } else if a[0].0 != b[0].0 {
        a[0].0 < b[0].0
    } else if a[0].1 != b[0].1 {
        text_less(a[0].1, b[0].1)
    } else {
        key_less(a.drop_first(), b.drop_first())
    }
}

/// The view of an executable key.
pub open spec fn key_view(k: Seq<(u64, Vec<char>)>) -> Seq<(u64, Seq<char>)> {
    k.map_values(|p: (u64, Vec<char>)| (p.0, p.1@))
}

pub fn text_less_exec(a: &Vec<char>, b: &Vec<char>) -> (r: bool)
    ensures
        r == text_less(a@, b@),
{
    let mut i: usize = 0;
    assert(a@.skip(0) =~= a@);
    assert(b@.skip(0) =~= b@);
    while i < a.len() && i < b.len() && a[i] == b[i]
        invariant
            i <= a@.len(),
            i <= b@.len(),
            text_less(a@, b@) == text_less(a@.skip(i as int), b@.skip(i as int)),
        decreases a@.len() - i,
    {
        assert(a@.skip(i as int).drop_first() =~= a@.skip(i + 1));
        assert(b@.skip(i as int).drop_first() =~= b@.skip(i + 1));
        i = i + 1;
    }
    if i == a.len() {
        i < b.len()
    } else if i == b.len() {
        false
    } else {
        (a[i] as u32) < (b[i] as u32)
    }
}

pub fn text_eq_exec(a: &Vec<char>, b: &Vec<char>) -> (r: bool)
    ensures
        r == (a@ == b@),
{
    if a.len() != b.len() {
        return false;
    }
    let mut i: usize = 0;
    while i < a.len()
        invariant
            i <= a@.len(),
            a@.len() == b@.len(),
            forall|k: int| 0 <= k < i ==> a@[k] == b@[k],
        decreases a@.len() - i,
    {
        if a[i] != b[i] {
            return false;
        }
        i = i + 1;
    }
    assert(a@ =~= b@);
    true
}

pub fn key_less_exec(a: &Vec<(u64, Vec<char>)>, b: &Vec<(u64, Vec<char>)>) -> (r: bool)
    ensures
        r == key_less(key_view(a@), key_view(b@)),
{
    let ghost ka = key_view(a@);
    let ghost kb = key_view(b@);
    let mut i: usize = 0;
    assert(ka.skip(0) =~= ka);
    assert(kb.skip(0) =~= kb);
    while i < a.len() && i < b.len()
        invariant
            i <= a@.len(),
            i <= b@.len(),
            ka == key_view(a@),
            kb == key_view(b@),
            key_less(ka, kb) == key_less(ka.skip(i as int), kb.skip(i as int)),
        decreases a@.len() - i,
    {
        if a[i].0 != b[i].0 {
            return a[i].0 < b[i].0;
        }
        if !text_eq_exec(&a[i].1, &b[i].1) {
            return text_less_exec(&a[i].1, &b[i].1);
        }
        assert(ka.skip(i as int).drop_first() =~= ka.skip(i + 1));
        assert(kb.skip(i as int).drop_first() =~= kb.skip(i + 1));
        i = i + 1;
    }
    i == a.len() && i < b.len()
}

/// Whether an item keyed `x` goes before one keyed `y`: ascending, or
/// newest first when `desc`.
pub open spec fn goes_before(x: Seq<(u64, Seq<char>)>, y: Seq<(u64, Seq<char>)>, desc: bool) -> bool {
    if desc {
        key_less(y, x)
    } else {
        key_less(x, y)
    }
}

pub fn goes_before_exec(x: &Vec<(u64, Vec<char>)>, y: &Vec<(u64, Vec<char>)>, desc: bool) -> (r: bool)
    ensures
        r == goes_before(key_view(x@), key_view(y@), desc),
{
    if desc {
        key_less_exec(y, x)
    } else {
        key_less_exec(x, y)
    }
}

/// Insertion into a sorted list, after everything that does not go after it.
pub open spec fn insert_keyed<T>(s: Seq<(Seq<(u64, Seq<char>)>, T)>, x: (Seq<(u64, Seq<char>)>, T), desc: bool) -> Seq<(Seq<(u64, Seq<char>)>, T)>
    decreases s.len(),
{
    if s.len() == 0 {
        seq![x]
    } else if goes_before(x.0, s[0].0, desc) {
        seq![x] + s
    } else {
        seq![s[0]] + insert_keyed(s.drop_first(), x, desc)
    }
}

/// A stable sort by key: items with equal keys keep their order.
pub open spec fn sorted_keyed<T>(s: Seq<(Seq<(u64, Seq<char>)>, T)>, desc: bool) -> Seq<(Seq<(u64, Seq<char>)>, T)>
    decreases s.len(),
{
    if s.len() == 0 {
        seq![]
    } else {
        insert_keyed(sorted_keyed(s.drop_last(), desc), s.last(), desc)
    }
}

pub open spec fn keyed_view<T>(s: Seq<(Vec<(u64, Vec<char>)>, T)>) -> Seq<(Seq<(u64, Seq<char>)>, T)> {
    s.map_values(|p: (Vec<(u64, Vec<char>)>, T)| (key_view(p.0@), p.1))
}

proof fn lemma_insert_at<T>(s: Seq<(Seq<(u64, Seq<char>)>, T)>, x: (Seq<(u64, Seq<char>)>, T), desc: bool, p: int)
    requires
        0 <= p <= s.len(),
        forall|k: int| 0 <= k < p ==> !goes_before(x.0, #[trigger] s[k].0, desc),
        p < s.len() ==> goes_before(x.0, s[p].0, desc),
    ensures
        insert_keyed(s, x, desc) == s.take(p) + seq![x] + s.skip(p),
    decreases p,
{
    if p == 0 {
        if s.len() == 0 {
            assert(s.take(0) + seq![x] + s.skip(0) =~= seq![x]);
        } else {
            assert(s.take(0) + seq![x] + s.skip(0) =~= seq![x] + s);
        }
    } else {
        let t = s.drop_first();
        assert forall|k: int| 0 <= k < p - 1 implies !goes_before(x.0, #[trigger] t[k].0, desc) by {
            assert(t[k] == s[k + 1]);
        }
        if p - 1 < t.len() {
            assert(t[p - 1] == s[p]);
        }
        lemma_insert_at(t, x, desc, p - 1);
        assert(!goes_before(x.0, s[0].0, desc));
        assert(seq![s[0]] + (t.take(p - 1) + seq![x] + t.skip(p - 1)) =~= s.take(p) + seq![x]
            + s.skip(p));
    }
}

/// A stable sort of keyed items, ascending or newest first.
pub fn sort_keyed<T>(items: Vec<(Vec<(u64, Vec<char>)>, T)>, desc: bool) -> (r: Vec<(Vec<(u64, Vec<char>)>, T)>)
    ensures
        keyed_view(r@) == sorted_keyed(keyed_view(items@), desc),
{
    let ghost all = keyed_view(items@);
    let mut rest = items;
    let mut out: Vec<(Vec<(u64, Vec<char>)>, T)> = Vec::new();
    let ghost n = all.len();
    let mut i: usize = 0;
    let total = rest.len();
    assert(all.take(0) =~= Seq::<(Seq<(u64, Seq<char>)>, T)>::empty());
    while rest.len() > 0
        invariant
            i <= n,
            i + rest@.len() == total,
            n == all.len(),
            keyed_view(rest@) == all.skip(i as int),
            keyed_view(out@) == sorted_keyed(all.take(i as int), desc),
        decreases rest@.len(),
    {
        let ghost before = keyed_view(out@);
        let ghost old_rest = rest@;
        let x = rest.remove(0);
        let ghost xv = (key_view(x.0@), x.1);
        assert(all.skip(i as int).len() > 0);
        assert(i < n);
        assert(rest@ =~= old_rest.drop_first());
        assert(keyed_view(rest@) =~= keyed_view(old_rest).drop_first());
        assert(keyed_view(rest@) =~= all.skip(i + 1));
        assert(keyed_view(old_rest)[0] == xv);
        assert(all[i as int] == xv) by {
            assert(all.skip(i as int)[0] == all[i as int]);
        }
        let mut p: usize = 0;
        while p < out.len() && !goes_before_exec(&x.0, &out[p].0, desc)
            invariant
                p <= out@.len(),
                before == keyed_view(out@),
                xv.0 == key_view(x.0@),
                forall|k: int| 0 <= k < p ==> !goes_before(xv.0, #[trigger] before[k].0, desc),
            decreases out@.len() - p,
        {
            p = p + 1;
        }
        proof {
            lemma_insert_at(before, xv, desc, p as int);
        }
        out.insert(p, x);
        proof {
            assert(keyed_view(out@) =~= before.take(p as int) + seq![xv] + before.skip(p as int));
            assert(all.take(i + 1).drop_last() =~= all.take(i as int));
            assert(all.take(i + 1).last() == xv);
        }
        i = i + 1;
    }
    assert(all.take(i as int) =~= all) by {
        assert(all.skip(i as int).len() == 0);
    }
    out
}

/// The same keyed items, each item passed through `f`.
pub open spec fn map_items<A, B>(s: Seq<(Seq<(u64, Seq<char>)>, A)>, f: spec_fn(A) -> B) -> Seq<(Seq<(u64, Seq<char>)>, B)> {
    s.map_values(|p: (Seq<(u64, Seq<char>)>, A)| (p.0, f(p.1)))
}

proof fn lemma_insert_map<A, B>(s: Seq<(Seq<(u64, Seq<char>)>, A)>, x: (Seq<(u64, Seq<char>)>, A), f: spec_fn(A) -> B, desc: bool)
    ensures
        insert_keyed(map_items(s, f), (x.0, f(x.1)), desc) == map_items(insert_keyed(s, x, desc), f),
    decreases s.len(),
{
    if s.len() == 0 {
        assert(map_items(seq![x], f) =~= seq![(x.0, f(x.1))]);
    } else if goes_before(x.0, s[0].0, desc) {
        assert(map_items(seq![x] + s, f) =~= seq![(x.0, f(x.1))] + map_items(s, f));
    } else {
        lemma_insert_map(s.drop_first(), x, f, desc);
        assert(map_items(s, f).drop_first() =~= map_items(s.drop_first(), f));
        assert(map_items(seq![s[0]] + insert_keyed(s.drop_first(), x, desc), f) =~= seq![
            (s[0].0, f(s[0].1)),
        ] + map_items(insert_keyed(s.drop_first(), x, desc), f));
    }
}

/// Sorting by key does not look at the items: passing them through any
/// function before or after the sort gives the same list.
pub proof fn lemma_sorted_map<A, B>(s: Seq<(Seq<(u64, Seq<char>)>, A)>, f: spec_fn(A) -> B, desc: bool)
    ensures
        sorted_keyed(map_items(s, f), desc) == map_items(sorted_keyed(s, desc), f),
    decreases s.len(),
{
    if s.len() > 0 {
        lemma_sorted_map(s.drop_last(), f, desc);
        assert(map_items(s, f).drop_last() =~= map_items(s.drop_last(), f));
        lemma_insert_map(sorted_keyed(s.drop_last(), desc), s.last(), f, desc);
    } else {
        assert(map_items(s, f) =~= Seq::<(Seq<(u64, Seq<char>)>, B)>::empty());
    }
}

// ------------------------------------------------------------ the order -----

pub proof fn lemma_text_less_asym(a: Seq<char>, b: Seq<char>)
    ensures
        text_less(a, b) ==> !text_less(b, a),
    decreases a.len(),
{
    if a.len() > 0 && b.len() > 0 && a[0] == b[0] {
        lemma_text_less_asym(a.drop_first(), b.drop_first());
    }
}

pub proof fn lemma_text_less_trans(a: Seq<char>, b: Seq<char>, c: Seq<char>)
    ensures
        text_less(a, b) && text_less(b, c) ==> text_less(a, c),
    decreases a.len(),
{
    if a.len() > 0 && b.len() > 0 && c.len() > 0 && a[0] == b[0] && b[0] == c[0] {
        lemma_text_less_trans(a.drop_first(), b.drop_first(), c.drop_first());
    }
}

pub proof fn lemma_text_less_irrefl(a: Seq<char>)
    ensures
        !text_less(a, a),
    decreases a.len(),
{
    if a.len() > 0 {
        lemma_text_less_irrefl(a.drop_first());
    }
}

pub proof fn lemma_text_less_total(a: Seq<char>, b: Seq<char>)
    ensures
        a != b ==> text_less(a, b) || text_less(b, a),
    decreases a.len(),
{
    if a.len() > 0 && b.len() > 0 && a[0] == b[0] {
        lemma_text_less_total(a.drop_first(), b.drop_first());
        if a.drop_first() == b.drop_first() {
            assert(a =~= seq![a[0]] + a.drop_first());
            assert(b =~= seq![b[0]] + b.drop_first());
        }
    } else if a.len() == 0 && b.len() == 0 {
        assert(a =~= b);
    } else if a.len() > 0 && b.len() > 0 {
        vstd::utf8::char_u32_cast(a[0], a[0] as u32);
        vstd::utf8::char_u32_cast(b[0], b[0] as u32);
        assert((a[0] as u32) != (b[0] as u32));
    }
}

proof fn lemma_key_less_asym(a: Seq<(u64, Seq<char>)>, b: Seq<(u64, Seq<char>)>)
    ensures
        key_less(a, b) ==> !key_less(b, a),
    decreases a.len(),
{
    if a.len() > 0 && b.len() > 0 && a[0].0 == b[0].0 {
        if a[0].1 != b[0].1 {
            lemma_text_less_asym(a[0].1, b[0].1);
        } else {
            lemma_key_less_asym(a.drop_first(), b.drop_first());
        }
    }
}

proof fn lemma_key_less_trans(a: Seq<(u64, Seq<char>)>, b: Seq<(u64, Seq<char>)>, c: Seq<(u64, Seq<char>)>)
    ensures
        key_less(a, b) && key_less(b, c) ==> key_less(a, c),
    decreases a.len(),
{
    if a.len() > 0 && b.len() > 0 && c.len() > 0 && a[0].0 == b[0].0 && b[0].0 == c[0].0 {
        lemma_text_less_trans(a[0].1, b[0].1, c[0].1);
        lemma_text_less_asym(a[0].1, b[0].1);
        lemma_text_less_asym(b[0].1, c[0].1);
        lemma_text_less_irrefl(a[0].1);
        if a[0].1 == b[0].1 && b[0].1 == c[0].1 {
            lemma_key_less_trans(a.drop_first(), b.drop_first(), c.drop_first());
        }
    }
}

proof fn lemma_goes_before(x: Seq<(u64, Seq<char>)>, y: Seq<(u64, Seq<char>)>, z: Seq<(u64, Seq<char>)>, desc: bool)
    ensures
        goes_before(x, y, desc) ==> !goes_before(y, x, desc),
        goes_before(x, y, desc) && goes_before(y, z, desc) ==> goes_before(x, z, desc),
{
    lemma_key_less_asym(x, y);
    lemma_key_less_asym(y, x);
    lemma_key_less_trans(x, y, z);
    lemma_key_less_trans(z, y, x);
}

/// No item goes before one listed ahead of it: ascending, or newest first
/// when `desc`.
pub open spec fn ordered<T>(s: Seq<(Seq<(u64, Seq<char>)>, T)>, desc: bool) -> bool {
    forall|i: int, j: int| 0 <= i < j < s.len() ==> !goes_before(#[trigger] s[j].0, #[trigger] s[i].0, desc)
}

proof fn lemma_insert_contents<T>(s: Seq<(Seq<(u64, Seq<char>)>, T)>, x: (Seq<(u64, Seq<char>)>, T), desc: bool)
    ensures
        insert_keyed(s, x, desc).to_multiset() == s.to_multiset().insert(x),
        insert_keyed(s, x, desc).len() == s.len() + 1,
    decreases s.len(),
{
    broadcast use vstd::seq_lib::group_to_multiset_ensures;
    if s.len() == 0 {
        assert(seq![x] =~= Seq::<(Seq<(u64, Seq<char>)>, T)>::empty().push(x));
    } else if goes_before(x.0, s[0].0, desc) {
        vstd::seq_lib::lemma_multiset_commutative(seq![x], s);
        assert(seq![x] =~= Seq::<(Seq<(u64, Seq<char>)>, T)>::empty().push(x));
    } else {
        let t = s.drop_first();
        lemma_insert_contents(t, x, desc);
        vstd::seq_lib::lemma_multiset_commutative(seq![s[0]], insert_keyed(t, x, desc));
        vstd::seq_lib::lemma_multiset_commutative(seq![s[0]], t);
        assert(seq![s[0]] + t =~= s);
        assert(seq![s[0]] =~= Seq::<(Seq<(u64, Seq<char>)>, T)>::empty().push(s[0]));
    }
}

proof fn lemma_insert_ordered<T>(s: Seq<(Seq<(u64, Seq<char>)>, T)>, x: (Seq<(u64, Seq<char>)>, T), desc: bool)
    requires
        ordered(s, desc),
    ensures
        ordered(insert_keyed(s, x, desc), desc),
    decreases s.len(),
{
    broadcast use vstd::seq_lib::group_to_multiset_ensures;
    let r = insert_keyed(s, x, desc);
    if s.len() == 0 {
    } else if goes_before(x.0, s[0].0, desc) {
        assert forall|i: int, j: int| 0 <= i < j < r.len() implies !goes_before(
            #[trigger] r[j].0,
            #[trigger] r[i].0,
            desc,
        ) by {
            if i == 0 {
                assert(r[j] == s[j - 1]);
                lemma_goes_before(x.0, s[0].0, s[0].0, desc);
                lemma_goes_before(s[j - 1].0, x.0, s[0].0, desc);
                if j - 1 > 0 {
                    assert(!goes_before(s[j - 1].0, s[0].0, desc));
                }
            } else {
                assert(r[i] == s[i - 1] && r[j] == s[j - 1]);
            }
        }
    } else {
        let t = s.drop_first();
        assert forall|i: int, j: int| 0 <= i < j < t.len() implies !goes_before(
            #[trigger] t[j].0,
            #[trigger] t[i].0,
            desc,
        ) by {
            assert(t[i] == s[i + 1] && t[j] == s[j + 1]);
        }
        lemma_insert_ordered(t, x, desc);
        lemma_insert_contents(t, x, desc);
        let q = insert_keyed(t, x, desc);
        assert forall|i: int, j: int| 0 <= i < j < r.len() implies !goes_before(
            #[trigger] r[j].0,
            #[trigger] r[i].0,
            desc,
        ) by {
            if i == 0 {
                let y = q[j - 1];
                assert(r[j] == y);
                assert(q.to_multiset().contains(y));
                assert(t.to_multiset().insert(x).contains(y));
                if y != x {
                    assert(t.to_multiset().contains(y));
                    assert(t.contains(y));
                    let k = choose|k: int| 0 <= k < t.len() && t[k] == y;
                    assert(s[k + 1] == y);
                    assert(!goes_before(s[k + 1].0, s[0].0, desc));
                }
            } else {
                assert(r[i] == q[i - 1] && r[j] == q[j - 1]);
            }
        }
    }
}

/// Sorting loses nothing and adds nothing: the same items, each as often.
pub proof fn law_sorting_reorders_only<T>(s: Seq<(Seq<(u64, Seq<char>)>, T)>, desc: bool)
    ensures
        sorted_keyed(s, desc).to_multiset() == s.to_multiset(),
        sorted_keyed(s, desc).len() == s.len(),
    decreases s.len(),
{
    broadcast use vstd::seq_lib::group_to_multiset_ensures;
    if s.len() > 0 {
        law_sorting_reorders_only(s.drop_last(), desc);
        lemma_insert_contents(sorted_keyed(s.drop_last(), desc), s.last(), desc);
        assert(s.drop_last().push(s.last()) =~= s);
    }
}

/// What the sort gives back is in key order: no item goes before one
/// listed ahead of it.
pub proof fn law_sorting_orders<T>(s: Seq<(Seq<(u64, Seq<char>)>, T)>, desc: bool)
    ensures
        ordered(sorted_keyed(s, desc), desc),
    decreases s.len(),
{
    if s.len() > 0 {
        law_sorting_orders(s.drop_last(), desc);
        lemma_insert_ordered(sorted_keyed(s.drop_last(), desc), s.last(), desc);
    }
}

// ------------------------------------------------- the order, as Rust's -----

/// Text is ordered as `str` orders it: a proper prefix comes before what
/// extends it, and otherwise the first differing character decides, by code
/// point.
pub proof fn law_text_order_is_strs(a: Seq<char>, t: Seq<char>, b: Seq<char>, i: int)
    ensures
        t.len() > 0 ==> text_less(a, a + t) && !text_less(a + t, a),
        !text_less(a, a),
        0 <= i < a.len() && i < b.len() && a.take(i) == b.take(i) && (a[i] as u32) < (b[i] as u32)
            ==> text_less(a, b) && !text_less(b, a),
    decreases a.len(),
{
    lemma_text_less_irrefl(a);
    if a.len() > 0 {
        assert((a + t).drop_first() =~= a.drop_first() + t);
        assert((a + t)[0] == a[0]);
        if i > 0 && i < a.len() && i < b.len() && a.take(i) == b.take(i) {
            assert(a[0] == a.take(i)[0] && b[0] == b.take(i)[0]);
            assert(a.drop_first().take(i - 1) =~= a.take(i).drop_first());
            assert(b.drop_first().take(i - 1) =~= b.take(i).drop_first());
            assert(a.drop_first()[i - 1] == a[i] && b.drop_first()[i - 1] == b[i]);
        }
        law_text_order_is_strs(a.drop_first(), t, b.drop_first(), i - 1);
    } else {
        assert(a + t =~= t);
    }
    if 0 <= i < a.len() && i < b.len() && a.take(i) == b.take(i) && (a[i] as u32) < (b[i] as u32) {
        lemma_text_less_asym(a, b);
    }
}

/// Keys are ordered as Rust orders a `Vec` of `(u64, String)`: a proper
/// prefix comes before what extends it; otherwise the first differing pair
/// decides, by its number first and its text second.
pub proof fn law_key_order_is_vecs(a: Seq<(u64, Seq<char>)>, t: Seq<(u64, Seq<char>)>, b: Seq<(u64, Seq<char>)>, i: int)
    ensures
        t.len() > 0 ==> key_less(a, a + t) && !key_less(a + t, a),
        0 <= i < a.len() && i < b.len() && a.take(i) == b.take(i) && (a[i].0 < b[i].0 || (a[i].0
            == b[i].0 && text_less(a[i].1, b[i].1))) ==> key_less(a, b) && !key_less(b, a),
    decreases a.len(),
{
    if a.len() > 0 {
        assert((a + t).drop_first() =~= a.drop_first() + t);
        assert((a + t)[0] == a[0]);
        lemma_text_less_irrefl(a[0].1);
        if i > 0 && i < a.len() && i < b.len() && a.take(i) == b.take(i) {
            assert(a[0] == a.take(i)[0] && b[0] == b.take(i)[0]);
            assert(a.drop_first().take(i - 1) =~= a.take(i).drop_first());
            assert(b.drop_first().take(i - 1) =~= b.take(i).drop_first());
            assert(a.drop_first()[i - 1] == a[i] && b.drop_first()[i - 1] == b[i]);
        }
        if i == 0 && i < b.len() {
            lemma_text_less_irrefl(b[0].1);
        }
        law_key_order_is_vecs(a.drop_first(), t, b.drop_first(), i - 1);
    } else {
        assert(a + t =~= t);
    }
    if 0 <= i < a.len() && i < b.len() && a.take(i) == b.take(i) && (a[i].0 < b[i].0 || (a[i].0
        == b[i].0 && text_less(a[i].1, b[i].1))) {
        lemma_key_less_asym(a, b);
    }
}

} // verus!
