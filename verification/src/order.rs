//! Draw order for one segment: every shape that exists before or after an
//! event, ordered by layer and then by name, each paired with its records on
//! either side.

use vstd::prelude::*;
use crate::reconcile::ShapeKey;
use crate::text::chars_of;

verus! {

/// Character-by-character order of two strings, shorter first on a tie. This
/// is the order of `String`: UTF-8 bytes sort as their code points do.
pub open spec fn chars_lt(a: Seq<char>, b: Seq<char>) -> bool
    decreases a.len(),
{
    if a.len() == 0 {
        b.len() > 0
    } else if b.len() == 0 {
        false
    } else if (a[0] as u32) < (b[0] as u32) {
        true
    } else if (a[0] as u32) > (b[0] as u32) {
        false
    } else {
        chars_lt(a.drop_first(), b.drop_first())
    }
}

/// Whether `a` sorts strictly before `b`.
pub fn str_lt(a: &str, b: &str) -> (r: bool)
    ensures
        r == chars_lt(a@, b@),
{
    let x = chars_of(a);
    let y = chars_of(b);
    let mut i: usize = 0;
    proof {
        assert(x@.skip(0) =~= x@);
        assert(y@.skip(0) =~= y@);
    }
    while i < x.len() && i < y.len()
        invariant
            x@ == a@,
            y@ == b@,
            i <= x.len(),
            i <= y.len(),
            chars_lt(a@, b@) == chars_lt(x@.skip(i as int), y@.skip(i as int)),
        decreases x.len() - i,
    {
        proof {
            assert(x@.skip(i as int).drop_first() =~= x@.skip(i + 1));
            assert(y@.skip(i as int).drop_first() =~= y@.skip(i + 1));
        }
        if (x[i] as u32) < (y[i] as u32) {
            return true;
        }
        if (x[i] as u32) > (y[i] as u32) {
            return false;
        }
        i += 1;
    }
    i == x.len() && i < y.len()
}

/// A shape's place in the draw order: its layer, then its name.
pub open spec fn key_of(s: ShapeKey) -> (int, Seq<char>) {
    (s.layer as int, s.item@)
}

/// Whether key `a` may be drawn no later than key `b`.
pub open spec fn key_le(a: (int, Seq<char>), b: (int, Seq<char>)) -> bool {
    a.0 < b.0 || (a.0 == b.0 && !chars_lt(b.1, a.1))
}

/// `x` placed into a list sorted by `key_le`, after every entry that may be
/// drawn no later than it, so that entries with equal keys keep their order.
pub open spec fn insert_stable(x: (int, Seq<char>), t: Seq<(int, Seq<char>)>) -> Seq<(int, Seq<char>)>
    decreases t.len(),
{
    if t.len() == 0 {
        seq![x]
    } else if key_le(t.last(), x) {
        t.push(x)
    } else {
        insert_stable(x, t.drop_last()).push(t.last())
    }
}

/// The keys sorted by layer and name, equal keys keeping their order.
pub open spec fn sort_stable(s: Seq<(int, Seq<char>)>) -> Seq<(int, Seq<char>)>
    decreases s.len(),
{
    if s.len() == 0 {
        s
    } else {
        insert_stable(s.last(), sort_stable(s.drop_last()))
    }
}

/// Runs of neighbouring entries with the same name reduced to their first.
pub open spec fn dedup_items(s: Seq<(int, Seq<char>)>) -> Seq<(int, Seq<char>)>
    decreases s.len(),
{
    if s.len() == 0 {
        s
    } else {
        let d = dedup_items(s.drop_last());
        if d.len() > 0 && d.last().1 == s.last().1 {
            d
        } else {
            d.push(s.last())
        }
    }
}

/// The keys of the shapes after an event, then of those before it.
pub open spec fn segment_keys(before: Seq<ShapeKey>, after: Seq<ShapeKey>) -> Seq<(int, Seq<char>)> {
    (after + before).map_values(|s: ShapeKey| key_of(s))
}

/// The order shapes are drawn in for one segment: by layer, then by name,
/// one entry per run of equal names.
pub open spec fn draw_keys(before: Seq<ShapeKey>, after: Seq<ShapeKey>) -> Seq<(int, Seq<char>)> {
    dedup_items(sort_stable(segment_keys(before, after)))
}

/// The last position of a shape named `item`, the record that stands for the
/// name when names repeat.
pub open spec fn last_named(list: Seq<ShapeKey>, item: Seq<char>) -> Option<int>
    decreases list.len(),
{
    if list.len() == 0 {
        None
    } else if list.last().item@ == item {
        Some(list.len() - 1)
    } else {
        last_named(list.drop_last(), item)
    }
}

/// One drawn item: where its record sits before the event and after it. An
/// item with no record before is entering; with none after, leaving.
#[derive(Clone, Copy, Debug, PartialEq, Eq, Structural)]
pub struct Pairing {
    pub before: Option<usize>,
    pub after: Option<usize>,
}

/// A pairing agrees with the record lookups for a name.
pub open spec fn pairs(p: Pairing, before: Seq<ShapeKey>, after: Seq<ShapeKey>, item: Seq<char>) -> bool {
    &&& match last_named(before, item) {
        Some(i) => p.before == Some(i as usize),
        None => p.before is None,
    }
    &&& match last_named(after, item) {
        Some(i) => p.after == Some(i as usize),
        None => p.after is None,
    }
}

/// The key of position `k` of the shapes after, then before, an event.
fn combined_key<'a>(before: &'a Vec<ShapeKey>, after: &'a Vec<ShapeKey>, k: usize) -> (r: (i32, &'a str))
    requires
        k < after.len() + before.len(),
    ensures
        (r.0 as int, r.1@) == segment_keys(before@, after@)[k as int],
{
    if k < after.len() {
        (after[k].layer, after[k].item.as_str())
    } else {
        (before[k - after.len()].layer, before[k - after.len()].item.as_str())
    }
}

fn key_le_of(a: (i32, &str), b: (i32, &str)) -> (r: bool)
    ensures
        r == key_le((a.0 as int, a.1@), (b.0 as int, b.1@)),
{
    a.0 < b.0 || (a.0 == b.0 && !str_lt(b.1, a.1))
}

/// The keys of a list of positions.
pub open spec fn keys_at(keys: Seq<(int, Seq<char>)>, idx: Seq<usize>) -> Seq<(int, Seq<char>)> {
    idx.map_values(|k: usize| keys[k as int])
}

/// Inserting at the position a scan from the end finds is the stable insert.
proof fn lemma_insert_at(x: (int, Seq<char>), t: Seq<(int, Seq<char>)>, p: int)
    requires
        0 <= p <= t.len(),
        forall|q: int| p <= q < t.len() ==> !key_le(#[trigger] t[q], x),
        p > 0 ==> key_le(t[p - 1], x),
    ensures
        insert_stable(x, t) == t.subrange(0, p).push(x) + t.subrange(p, t.len() as int),
    decreases t.len(),
{
    if t.len() == 0 {
        assert(seq![x] =~= t.subrange(0, p).push(x) + t.subrange(p, t.len() as int));
    } else if p == t.len() {
        assert(t.push(x) =~= t.subrange(0, p).push(x) + t.subrange(p, t.len() as int));
    } else {
        assert(!key_le(t.last(), x));
        let u = t.drop_last();
        lemma_insert_at(x, u, p);
        assert(insert_stable(x, u).push(t.last()) =~= t.subrange(0, p).push(x) + t.subrange(p, t.len() as int));
    }
}

/// The draw order of one segment: every shape that exists before or after the
/// event (records after it first), sorted by layer and then by name with
/// equal keys keeping that order, neighbours of the same name reduced to the
/// first; each paired with the last record of its name on either side.
pub fn draw_order(before: &Vec<ShapeKey>, after: &Vec<ShapeKey>) -> (r: Vec<Pairing>)
    requires
        after.len() + before.len() <= usize::MAX,
    ensures
        r.len() == draw_keys(before@, after@).len(),
        forall|i: int| 0 <= i < r.len() ==> pairs(#[trigger] r[i], before@, after@, draw_keys(before@, after@)[i].1),
{
    let ghost keys = segment_keys(before@, after@);
    let n = after.len() + before.len();
    // Stable insertion sort of positions by key.
    let mut sorted: Vec<usize> = Vec::new();
    let mut k: usize = 0;
    while k < n
        invariant
            n == after.len() + before.len(),
            keys == segment_keys(before@, after@),
            keys.len() == n,
            k <= n,
            forall|q: int| 0 <= q < sorted.len() ==> sorted[q] < n,
            keys_at(keys, sorted@) == sort_stable(keys.take(k as int)),
        decreases n - k,
    {
        let x = combined_key(before, after, k);
        let mut p = sorted.len();
        while p > 0 && !key_le_of(combined_key(before, after, sorted[p - 1]), x)
            invariant
                n == after.len() + before.len(),
                keys == segment_keys(before@, after@),
                k < n,
                (x.0 as int, x.1@) == keys[k as int],
                p <= sorted.len(),
                forall|q: int| 0 <= q < sorted.len() ==> sorted[q] < n,
                forall|q: int| p <= q < sorted.len() ==> !key_le(#[trigger] keys_at(keys, sorted@)[q], keys[k as int]),
            decreases p,
        {
            p -= 1;
        }
        proof {
            let t = keys_at(keys, sorted@);
            lemma_insert_at(keys[k as int], t, p as int);
            assert(keys.take(k + 1).drop_last() =~= keys.take(k as int));
        }
        let ghost old_sorted = sorted@;
        sorted.insert(p, k);
        proof {
            let t = keys_at(keys, old_sorted);
            assert(keys_at(keys, sorted@) =~= t.subrange(0, p as int).push(keys[k as int]) + t.subrange(p as int, t.len() as int));
        }
        k += 1;
    }
    proof {
        assert(keys.take(n as int) =~= keys);
    }
    let ghost sorted_keys = keys_at(keys, sorted@);
    // Reduce runs of the same name to their first entry.
    let mut kept: Vec<usize> = Vec::new();
    let mut i: usize = 0;
    while i < sorted.len()
        invariant
            n == after.len() + before.len(),
            keys == segment_keys(before@, after@),
            keys.len() == n,
            sorted_keys == keys_at(keys, sorted@),
            forall|q: int| 0 <= q < sorted.len() ==> sorted[q] < n,
            forall|q: int| 0 <= q < kept.len() ==> kept[q] < n,
            i <= sorted.len(),
            keys_at(keys, kept@) == dedup_items(sorted_keys.take(i as int)),
        decreases sorted.len() - i,
    {
        proof {
            assert(sorted_keys.take(i + 1).drop_last() =~= sorted_keys.take(i as int));
        }
        let cur = combined_key(before, after, sorted[i]);
        let keep = if kept.len() == 0 {
            true
        } else {
            let last = combined_key(before, after, kept[kept.len() - 1]);
            !crate::text::str_eq(last.1, cur.1)
        };
        if keep {
            kept.push(sorted[i]);
            proof {
                assert(keys_at(keys, kept@) =~= dedup_items(sorted_keys.take(i as int)).push(sorted_keys[i as int]));
            }
        }
        i += 1;
    }
    proof {
        assert(sorted_keys.take(sorted.len() as int) =~= sorted_keys);
    }
    let mut out: Vec<Pairing> = Vec::new();
    let mut j: usize = 0;
    while j < kept.len()
        invariant
            n == after.len() + before.len(),
            keys == segment_keys(before@, after@),
            keys.len() == n,
            forall|q: int| 0 <= q < kept.len() ==> kept[q] < n,
            keys_at(keys, kept@) == draw_keys(before@, after@),
            j <= kept.len(),
            out.len() == j,
            forall|q: int| 0 <= q < j ==> pairs(#[trigger] out[q], before@, after@, draw_keys(before@, after@)[q].1),
        decreases kept.len() - j,
    {
        let name = combined_key(before, after, kept[j]).1;
        let p = Pairing { before: last_index_named(before, name), after: last_index_named(after, name) };
        out.push(p);
        proof {
            assert(keys_at(keys, kept@)[j as int] == keys[kept[j as int] as int]);
        }
        j += 1;
    }
    out
}

/// The last position of a record named `item`.
pub fn last_index_named(list: &Vec<ShapeKey>, item: &str) -> (r: Option<usize>)
    ensures
        match last_named(list@, item@) {
            Some(i) => r == Some(i as usize),
            None => r is None,
        },
{
    let mut i = list.len();
    proof {
        assert(list@.take(i as int) =~= list@);
    }
    while i > 0
        invariant
            i <= list.len(),
            last_named(list@, item@) == last_named(list@.take(i as int), item@),
        decreases i,
    {
        proof {
            assert(list@.take(i as int).drop_last() =~= list@.take(i - 1));
        }
        if crate::text::str_eq(list[i - 1].item.as_str(), item) {
            return Some(i - 1);
        }
        i -= 1;
    }
    None
}


proof fn lemma_insert_keeps(x: (int, Seq<char>), t: Seq<(int, Seq<char>)>)
    ensures
        insert_stable(x, t).contains(x),
        forall|i: int| 0 <= i < t.len() ==> insert_stable(x, t).contains(#[trigger] t[i]),
    decreases t.len(),
{
    if t.len() == 0 {
        assert(insert_stable(x, t)[0] == x);
    } else if key_le(t.last(), x) {
        assert(insert_stable(x, t)[t.len() as int] == x);
        assert forall|i: int| 0 <= i < t.len() implies insert_stable(x, t).contains(#[trigger] t[i]) by {
            assert(insert_stable(x, t)[i] == t[i]);
        }
    } else {
        let u = t.drop_last();
        lemma_insert_keeps(x, u);
        let w = insert_stable(x, u);
        let j = choose|j: int| 0 <= j < w.len() && w[j] == x;
        assert(insert_stable(x, t)[j] == x);
        assert forall|i: int| 0 <= i < t.len() implies insert_stable(x, t).contains(#[trigger] t[i]) by {
            if i == t.len() - 1 {
                assert(insert_stable(x, t)[w.len() as int] == t[i]);
            } else {
                assert(u[i] == t[i]);
                let j2 = choose|j2: int| 0 <= j2 < w.len() && w[j2] == u[i];
                assert(insert_stable(x, t)[j2] == t[i]);
            }
        }
    }
}

proof fn lemma_sort_keeps(s: Seq<(int, Seq<char>)>)
    ensures
        forall|i: int| 0 <= i < s.len() ==> sort_stable(s).contains(#[trigger] s[i]),
    decreases s.len(),
{
    if s.len() > 0 {
        let u = s.drop_last();
        lemma_sort_keeps(u);
        lemma_insert_keeps(s.last(), sort_stable(u));
        assert forall|i: int| 0 <= i < s.len() implies sort_stable(s).contains(#[trigger] s[i]) by {
            if i < s.len() - 1 {
                assert(u[i] == s[i]);
                let t = sort_stable(u);
                let j = choose|j: int| 0 <= j < t.len() && t[j] == u[i];
                assert(insert_stable(s.last(), t).contains(t[j]));
            }
        }
    }
}

proof fn lemma_dedup_keeps_names(s: Seq<(int, Seq<char>)>)
    ensures
        forall|i: int| 0 <= i < s.len() ==> exists|j: int| 0 <= j < dedup_items(s).len() && #[trigger] dedup_items(s)[j].1 == (#[trigger] s[i]).1,
    decreases s.len(),
{
    if s.len() > 0 {
        let u = s.drop_last();
        lemma_dedup_keeps_names(u);
        let d = dedup_items(u);
        let e = dedup_items(s);
        assert(e.len() >= d.len());
        assert forall|j: int| 0 <= j < d.len() implies e[j] == d[j] by {}
        assert forall|i: int| 0 <= i < s.len() implies exists|j: int| 0 <= j < e.len() && #[trigger] e[j].1 == (#[trigger] s[i]).1 by {
            if i < s.len() - 1 {
                assert(u[i] == s[i]);
                let j = choose|j: int| 0 <= j < d.len() && #[trigger] d[j].1 == u[i].1;
                assert(e[j] == d[j]);
                assert(e[j].1 == s[i].1);
            } else if d.len() > 0 && d.last().1 == s.last().1 {
                assert(e[d.len() - 1] == d.last());
                assert(e[d.len() - 1].1 == s[i].1);
            } else {
                assert(e[d.len() as int] == s.last());
                assert(e[d.len() as int].1 == s[i].1);
            }
        }
    }
}

/// Every shape that exists before or after an event is drawn in its segment:
/// whichever list a name comes from, some entry of the draw order bears it.
pub proof fn law_every_item_drawn(before: Seq<ShapeKey>, after: Seq<ShapeKey>, item: Seq<char>)
    requires
        (exists|j: int| 0 <= j < before.len() && #[trigger] before[j].item@ == item)
            || (exists|j: int| 0 <= j < after.len() && #[trigger] after[j].item@ == item),
    ensures
        exists|i: int| 0 <= i < draw_keys(before, after).len() && #[trigger] draw_keys(before, after)[i].1 == item,
{
    let keys = segment_keys(before, after);
    let k: int = if exists|j: int| 0 <= j < after.len() && #[trigger] after[j].item@ == item {
        choose|j: int| 0 <= j < after.len() && #[trigger] after[j].item@ == item
    } else {
        let j = choose|j: int| 0 <= j < before.len() && #[trigger] before[j].item@ == item;
        after.len() + j
    };
    assert(keys[k].1 == item);
    lemma_sort_keeps(keys);
    let sorted = sort_stable(keys);
    let m = choose|m: int| 0 <= m < sorted.len() && sorted[m] == keys[k];
    lemma_dedup_keeps_names(sorted);
    let d = dedup_items(sorted);
    let i = choose|i: int| 0 <= i < d.len() && #[trigger] d[i].1 == sorted[m].1;
    assert(draw_keys(before, after)[i].1 == item);
}

/// A character's `u32` code is its scalar value.
proof fn lemma_char_code(c: char)
    ensures
        (c as u32) as int == c as int,
{
}

/// Character order is a strict total order on strings: never both ways, and
/// one way or the other for different strings.
proof fn lemma_chars_lt_strict(a: Seq<char>, b: Seq<char>)
    ensures
        !(chars_lt(a, b) && chars_lt(b, a)),
        a != b ==> chars_lt(a, b) || chars_lt(b, a),
    decreases a.len(),
{
    if a.len() > 0 && b.len() > 0 {
        lemma_chars_lt_strict(a.drop_first(), b.drop_first());
        if (a[0] as u32) == (b[0] as u32) {
            lemma_char_code(a[0]);
            lemma_char_code(b[0]);
            if a.drop_first() == b.drop_first() {
                assert(a =~= seq![a[0]] + a.drop_first());
                assert(b =~= seq![b[0]] + b.drop_first());
            }
        }
    } else if a.len() == 0 && b.len() == 0 {
        assert(a =~= b);
    }
}

/// Character order is transitive.
proof fn lemma_chars_lt_trans(a: Seq<char>, b: Seq<char>, c: Seq<char>)
    requires
        chars_lt(a, b),
        chars_lt(b, c),
    ensures
        chars_lt(a, c),
    decreases a.len(),
{
    if a.len() > 0 && b.len() > 0 && c.len() > 0 {
        if (a[0] as u32) == (b[0] as u32) && (b[0] as u32) == (c[0] as u32) {
            lemma_chars_lt_trans(a.drop_first(), b.drop_first(), c.drop_first());
        }
    }
}

/// Draw keys are totally preordered: any two compare one way or the other,
/// and the comparison chains.
proof fn lemma_key_le_total(a: (int, Seq<char>), b: (int, Seq<char>))
    ensures
        key_le(a, b) || key_le(b, a),
{
    lemma_chars_lt_strict(a.1, b.1);
}

proof fn lemma_key_le_trans(a: (int, Seq<char>), b: (int, Seq<char>), c: (int, Seq<char>))
    requires
        key_le(a, b),
        key_le(b, c),
    ensures
        key_le(a, c),
{
    if a.0 == b.0 && b.0 == c.0 && chars_lt(c.1, a.1) {
        lemma_chars_lt_strict(a.1, b.1);
        if a.1 == b.1 {
            assert(chars_lt(c.1, b.1));
        } else {
            assert(chars_lt(a.1, b.1));
            lemma_chars_lt_trans(c.1, a.1, b.1);
        }
    }
}

/// Keys in draw order: each may be drawn no later than every one after it.
pub open spec fn keys_sorted(s: Seq<(int, Seq<char>)>) -> bool {
    forall|i: int, j: int| 0 <= i < j < s.len() ==> key_le(#[trigger] s[i], #[trigger] s[j])
}

/// Inserting below a bound keeps everything below it.
proof fn lemma_insert_below(x: (int, Seq<char>), t: Seq<(int, Seq<char>)>, y: (int, Seq<char>))
    requires
        key_le(x, y),
        forall|i: int| 0 <= i < t.len() ==> key_le(#[trigger] t[i], y),
    ensures
        forall|k: int| 0 <= k < insert_stable(x, t).len() ==> key_le(#[trigger] insert_stable(x, t)[k], y),
    decreases t.len(),
{
    if t.len() > 0 && !key_le(t.last(), x) {
        let u = t.drop_last();
        lemma_insert_below(x, u, y);
        let w = insert_stable(x, u);
        assert forall|k: int| 0 <= k < insert_stable(x, t).len() implies key_le(#[trigger] insert_stable(x, t)[k], y) by {
            if k < w.len() {
                assert(insert_stable(x, t)[k] == w[k]);
            } else {
                assert(insert_stable(x, t)[k] == t[t.len() - 1]);
            }
        }
    } else if t.len() > 0 {
        assert forall|k: int| 0 <= k < insert_stable(x, t).len() implies key_le(#[trigger] insert_stable(x, t)[k], y) by {
            if k < t.len() {
                assert(insert_stable(x, t)[k] == t[k]);
            }
        }
    }
}

proof fn lemma_insert_sorted(x: (int, Seq<char>), t: Seq<(int, Seq<char>)>)
    requires
        keys_sorted(t),
    ensures
        keys_sorted(insert_stable(x, t)),
    decreases t.len(),
{
    if t.len() == 0 {
    } else if key_le(t.last(), x) {
        let r = insert_stable(x, t);
        assert forall|i: int, j: int| 0 <= i < j < r.len() implies key_le(#[trigger] r[i], #[trigger] r[j]) by {
            if j == t.len() {
                if i < t.len() - 1 {
                    lemma_key_le_trans(t[i], t.last(), x);
                }
            }
        }
    } else {
        let u = t.drop_last();
        lemma_insert_sorted(x, u);
        lemma_key_le_total(t.last(), x);
        lemma_insert_below(x, u, t.last());
        let w = insert_stable(x, u);
        let r = insert_stable(x, t);
        assert forall|i: int, j: int| 0 <= i < j < r.len() implies key_le(#[trigger] r[i], #[trigger] r[j]) by {
            if j < w.len() {
                assert(r[i] == w[i] && r[j] == w[j]);
            } else {
                assert(r[j] == t.last());
                assert(r[i] == w[i]);
            }
        }
    }
}

proof fn lemma_sort_sorted(s: Seq<(int, Seq<char>)>)
    ensures
        keys_sorted(sort_stable(s)),
    decreases s.len(),
{
    if s.len() > 0 {
        lemma_sort_sorted(s.drop_last());
        lemma_insert_sorted(s.last(), sort_stable(s.drop_last()));
    }
}

/// Reducing runs keeps every entry below a bound that bounded them all.
proof fn lemma_dedup_below(s: Seq<(int, Seq<char>)>, y: (int, Seq<char>))
    requires
        forall|i: int| 0 <= i < s.len() ==> key_le(#[trigger] s[i], y),
    ensures
        forall|k: int| 0 <= k < dedup_items(s).len() ==> key_le(#[trigger] dedup_items(s)[k], y),
    decreases s.len(),
{
    if s.len() > 0 {
        let u = s.drop_last();
        assert forall|i: int| 0 <= i < u.len() implies key_le(#[trigger] u[i], y) by {
            assert(u[i] == s[i]);
        }
        lemma_dedup_below(u, y);
        let d = dedup_items(u);
        assert forall|k: int| 0 <= k < dedup_items(s).len() implies key_le(#[trigger] dedup_items(s)[k], y) by {
            if k < d.len() {
                assert(dedup_items(s)[k] == d[k]);
            } else {
                assert(dedup_items(s)[k] == s.last());
            }
        }
    }
}

proof fn lemma_dedup_sorted(s: Seq<(int, Seq<char>)>)
    requires
        keys_sorted(s),
    ensures
        keys_sorted(dedup_items(s)),
    decreases s.len(),
{
    if s.len() > 0 {
        let u = s.drop_last();
        assert(keys_sorted(u)) by {
            assert forall|i: int, j: int| 0 <= i < j < u.len() implies key_le(#[trigger] u[i], #[trigger] u[j]) by {
                assert(u[i] == s[i] && u[j] == s[j]);
            }
        }
        lemma_dedup_sorted(u);
        assert forall|i: int| 0 <= i < u.len() implies key_le(#[trigger] u[i], s.last()) by {
            assert(u[i] == s[i]);
            assert(s.last() == s[s.len() - 1]);
        }
        lemma_dedup_below(u, s.last());
        let d = dedup_items(u);
        let r = dedup_items(s);
        assert forall|i: int, j: int| 0 <= i < j < r.len() implies key_le(#[trigger] r[i], #[trigger] r[j]) by {
            if j < d.len() {
                assert(r[i] == d[i] && r[j] == d[j]);
            } else {
                assert(r[j] == s.last());
                assert(r[i] == d[i]);
            }
        }
    }
}

/// Shapes are drawn by layer and then by name: along the draw order of a
/// segment, each entry's layer is at most the next one's, and within a layer
/// the names never go backwards.
pub proof fn law_draw_order_sorted(before: Seq<ShapeKey>, after: Seq<ShapeKey>)
    ensures
        keys_sorted(draw_keys(before, after)),
{
    let keys = segment_keys(before, after);
    lemma_sort_sorted(keys);
    lemma_dedup_sorted(sort_stable(keys));
}

/// No two neighbours in the draw order bear the same name.
pub proof fn law_draw_order_no_repeats(before: Seq<ShapeKey>, after: Seq<ShapeKey>)
    ensures
        forall|i: int| 0 <= i < draw_keys(before, after).len() - 1
            ==> (#[trigger] draw_keys(before, after)[i]).1 != draw_keys(before, after)[i + 1].1,
{
    lemma_dedup_distinct_neighbours(sort_stable(segment_keys(before, after)));
}

proof fn lemma_dedup_distinct_neighbours(s: Seq<(int, Seq<char>)>)
    ensures
        forall|i: int| 0 <= i < dedup_items(s).len() - 1 ==> (#[trigger] dedup_items(s)[i]).1 != dedup_items(s)[i + 1].1,
    decreases s.len(),
{
    if s.len() > 0 {
        let u = s.drop_last();
        lemma_dedup_distinct_neighbours(u);
        let d = dedup_items(u);
        let r = dedup_items(s);
        assert forall|i: int| 0 <= i < r.len() - 1 implies (#[trigger] r[i]).1 != r[i + 1].1 by {
            if i + 1 < d.len() {
                assert(r[i] == d[i] && r[i + 1] == d[i + 1]);
            } else {
                assert(r[i] == d.last());
            }
        }
    }
}

proof fn lemma_insert_from(x: (int, Seq<char>), t: Seq<(int, Seq<char>)>)
    ensures
        forall|k: int| 0 <= k < insert_stable(x, t).len()
            ==> #[trigger] insert_stable(x, t)[k] == x || t.contains(insert_stable(x, t)[k]),
    decreases t.len(),
{
    if t.len() > 0 {
        let r = insert_stable(x, t);
        if key_le(t.last(), x) {
            assert forall|k: int| 0 <= k < r.len() implies #[trigger] r[k] == x || t.contains(r[k]) by {
                if k < t.len() {
                    assert(r[k] == t[k]);
                }
            }
        } else {
            let u = t.drop_last();
            lemma_insert_from(x, u);
            let w = insert_stable(x, u);
            assert forall|k: int| 0 <= k < r.len() implies #[trigger] r[k] == x || t.contains(r[k]) by {
                if k < w.len() {
                    assert(r[k] == w[k]);
                    if w[k] != x {
                        let j = choose|j: int| 0 <= j < u.len() && u[j] == w[k];
                        assert(t[j] == u[j]);
                    }
                } else {
                    assert(r[k] == t[t.len() - 1]);
                }
            }
        }
    }
}

proof fn lemma_sort_from(s: Seq<(int, Seq<char>)>)
    ensures
        forall|k: int| 0 <= k < sort_stable(s).len() ==> s.contains(#[trigger] sort_stable(s)[k]),
    decreases s.len(),
{
    if s.len() > 0 {
        let u = s.drop_last();
        lemma_sort_from(u);
        lemma_insert_from(s.last(), sort_stable(u));
        let w = sort_stable(u);
        let r = sort_stable(s);
        assert forall|k: int| 0 <= k < r.len() implies s.contains(#[trigger] r[k]) by {
            if r[k] == s.last() {
                assert(s[s.len() - 1] == r[k]);
            } else {
                let m = choose|m: int| 0 <= m < w.len() && w[m] == r[k];
                let j = choose|j: int| 0 <= j < u.len() && u[j] == w[m];
                assert(s[j] == u[j]);
            }
        }
    }
}

proof fn lemma_dedup_from(s: Seq<(int, Seq<char>)>)
    ensures
        forall|k: int| 0 <= k < dedup_items(s).len() ==> s.contains(#[trigger] dedup_items(s)[k]),
    decreases s.len(),
{
    if s.len() > 0 {
        let u = s.drop_last();
        lemma_dedup_from(u);
        let d = dedup_items(u);
        let r = dedup_items(s);
        assert forall|k: int| 0 <= k < r.len() implies s.contains(#[trigger] r[k]) by {
            if k < d.len() {
                assert(r[k] == d[k]);
                let j = choose|j: int| 0 <= j < u.len() && u[j] == d[k];
                assert(s[j] == u[j]);
            } else {
                assert(r[k] == s[s.len() - 1]);
            }
        }
    }
}

/// Nothing is drawn that was not there: every name in a segment's draw order
/// is the name of a shape after the event or before it.
pub proof fn law_drawn_items_exist(before: Seq<ShapeKey>, after: Seq<ShapeKey>)
    ensures
        forall|i: int| 0 <= i < draw_keys(before, after).len() ==> {
            let name = (#[trigger] draw_keys(before, after)[i]).1;
            (exists|j: int| 0 <= j < after.len() && after[j].item@ == name)
                || (exists|j: int| 0 <= j < before.len() && before[j].item@ == name)
        },
{
    let keys = segment_keys(before, after);
    let sorted = sort_stable(keys);
    lemma_sort_from(keys);
    lemma_dedup_from(sorted);
    let d = draw_keys(before, after);
    assert forall|i: int| 0 <= i < d.len() implies {
        let name = (#[trigger] d[i]).1;
        (exists|j: int| 0 <= j < after.len() && after[j].item@ == name)
            || (exists|j: int| 0 <= j < before.len() && before[j].item@ == name)
    } by {
        let m = choose|m: int| 0 <= m < sorted.len() && sorted[m] == d[i];
        let k = choose|k: int| 0 <= k < keys.len() && keys[k] == sorted[m];
        let all = after + before;
        assert(keys[k] == key_of(all[k]));
        if k < after.len() {
            assert(all[k] == after[k]);
        } else {
            assert(all[k] == before[k - after.len()]);
        }
    }
}

proof fn lemma_last_named_found(list: Seq<ShapeKey>, item: Seq<char>, j: int)
    requires
        0 <= j < list.len(),
        list[j].item@ == item,
    ensures
        last_named(list, item) is Some,
    decreases list.len(),
{
    if list.last().item@ != item {
        lemma_last_named_found(list.drop_last(), item, j);
    }
}

/// Every drawn item has a record on at least one side of the event: it moved
/// (both), entered (after only) or left (before only), never neither.
pub proof fn law_drawn_items_are_paired(before: Seq<ShapeKey>, after: Seq<ShapeKey>)
    ensures
        forall|i: int| 0 <= i < draw_keys(before, after).len() ==> {
            let name = (#[trigger] draw_keys(before, after)[i]).1;
            last_named(before, name) is Some || last_named(after, name) is Some
        },
{
    law_drawn_items_exist(before, after);
    let d = draw_keys(before, after);
    assert forall|i: int| 0 <= i < d.len() implies {
        let name = (#[trigger] d[i]).1;
        last_named(before, name) is Some || last_named(after, name) is Some
    } by {
        let name = d[i].1;
        if exists|j: int| 0 <= j < after.len() && after[j].item@ == name {
            let j = choose|j: int| 0 <= j < after.len() && after[j].item@ == name;
            lemma_last_named_found(after, name, j);
        } else {
            let j = choose|j: int| 0 <= j < before.len() && before[j].item@ == name;
            lemma_last_named_found(before, name, j);
        }
    }
}

} // verus!
