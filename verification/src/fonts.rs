//! The font registry: embedded fonts in priority order, each covering some
//! Unicode ranges, and the per-character choice of which font draws what.

use vstd::prelude::*;

verus! {

/// Identifies a registered font.
#[derive(Clone, Copy, Debug, PartialEq, Eq, Hash, Structural)]
pub struct FontId(pub u16);

/// A registered font: its name, its font-file bytes and the inclusive
/// Unicode ranges it covers.
pub struct FontEntry {
    pub id: FontId,
    pub name: String,
    pub data: Vec<u8>,
    pub ranges: Vec<(u32, u32)>,
}

/// Whether a Unicode scalar value has the White_Space property (what
/// `char::is_whitespace` tests).
pub open spec fn is_white_space(cp: u32) -> bool {
    (0x9 <= cp <= 0xD) || cp == 0x20 || cp == 0x85 || cp == 0xA0 || cp == 0x1680
        || (0x2000 <= cp <= 0x200A) || cp == 0x2028 || cp == 0x2029 || cp == 0x202F
        || cp == 0x205F || cp == 0x3000
}

/// Whether `ch` is whitespace in the Unicode sense.
pub fn is_whitespace(ch: char) -> (r: bool)
    ensures
        r == is_white_space(ch as u32),
{
    let cp = ch as u32;
    (0x9 <= cp && cp <= 0xD) || cp == 0x20 || cp == 0x85 || cp == 0xA0 || cp == 0x1680
        || (0x2000 <= cp && cp <= 0x200A) || cp == 0x2028 || cp == 0x2029 || cp == 0x202F
        || cp == 0x205F || cp == 0x3000
}

/// Whether a font's ranges include the code point.
pub open spec fn covers(e: FontEntry, cp: u32) -> bool {
    exists|k: int| 0 <= k < e.ranges.len() && (#[trigger] e.ranges[k]).0 <= cp <= e.ranges[k].1
}

/// Whether a font draws `ch`: it covers the character, or the character is
/// whitespace, which every font draws.
pub open spec fn draws(e: FontEntry, ch: char) -> bool {
    is_white_space(ch as u32) || covers(e, ch as u32)
}

/// The position of the first font that draws `ch`.
pub open spec fn first_drawing(entries: Seq<FontEntry>, ch: char) -> Option<int>
    decreases entries.len(),
{
    if entries.len() == 0 {
        None
    } else {
        match first_drawing(entries.drop_last(), ch) {
            Some(i) => Some(i),
            None => if draws(entries.last(), ch) { Some(entries.len() - 1) } else { None },
        }
    }
}

/// The position of the first font registered under `id`.
pub open spec fn first_with_id(entries: Seq<FontEntry>, id: FontId) -> Option<int>
    decreases entries.len(),
{
    if entries.len() == 0 {
        None
    } else {
        match first_with_id(entries.drop_last(), id) {
            Some(i) => Some(i),
            None => if entries.last().id == id { Some(entries.len() - 1) } else { None },
        }
    }
}

/// The font that draws `ch`: the first that draws it, else the first font,
/// else `FontId(0)` when there are no fonts at all.
pub open spec fn chosen_font(entries: Seq<FontEntry>, ch: char) -> FontId {
    match first_drawing(entries, ch) {
        Some(i) => entries[i].id,
        None => if entries.len() > 0 { entries[0].id } else { FontId(0) },
    }
}

/// All registered fonts, highest priority first.
pub struct FontRegistry {
    entries: Vec<FontEntry>,
}

fn range_covers(e: &FontEntry, cp: u32) -> (r: bool)
    ensures
        r == covers(*e, cp),
{
    let mut k: usize = 0;
    while k < e.ranges.len()
        invariant
            k <= e.ranges.len(),
            forall|k2: int| 0 <= k2 < k ==> !((#[trigger] e.ranges[k2]).0 <= cp <= e.ranges[k2].1),
        decreases e.ranges.len() - k,
    {
        if e.ranges[k].0 <= cp && cp <= e.ranges[k].1 {
            return true;
        }
        k += 1;
    }
    false
}

/// The first of `entries` satisfying a condition, found by a scan that
/// stopped at `i` with no earlier match.
proof fn lemma_first_found_drawing(entries: Seq<FontEntry>, ch: char, i: int, n: int)
    requires
        0 <= i < n <= entries.len(),
        first_drawing(entries.take(i), ch) is None,
        draws(entries[i], ch),
    ensures
        first_drawing(entries.take(n), ch) == Some(i),
    decreases n - i,
{
    if n == i + 1 {
        assert(entries.take(n).drop_last() =~= entries.take(i));
    } else {
        lemma_first_found_drawing(entries, ch, i, n - 1);
        assert(entries.take(n).drop_last() =~= entries.take(n - 1));
    }
}

proof fn lemma_first_found_id(entries: Seq<FontEntry>, id: FontId, i: int, n: int)
    requires
        0 <= i < n <= entries.len(),
        first_with_id(entries.take(i), id) is None,
        entries[i].id == id,
    ensures
        first_with_id(entries.take(n), id) == Some(i),
    decreases n - i,
{
    if n == i + 1 {
        assert(entries.take(n).drop_last() =~= entries.take(i));
    } else {
        lemma_first_found_id(entries, id, i, n - 1);
        assert(entries.take(n).drop_last() =~= entries.take(n - 1));
    }
}

impl FontRegistry {
    /// A registry of `entries`, in priority order.
    pub fn new(entries: Vec<FontEntry>) -> (r: Self)
        ensures
            r.fonts() == entries@,
    {
        FontRegistry { entries }
    }

    /// The registered fonts, in priority order.
    pub closed spec fn fonts(&self) -> Seq<FontEntry> {
        self.entries@
    }

    fn position_of(&self, id: FontId) -> (r: Option<usize>)
        ensures
            match first_with_id(self.fonts(), id) {
                Some(i) => 0 <= i < self.entries.len() && r == Some(i as usize),
                None => r is None,
            },
    {
        let mut i: usize = 0;
        while i < self.entries.len()
            invariant
                i <= self.entries.len(),
                first_with_id(self.entries@.take(i as int), id) is None,
            decreases self.entries.len() - i,
        {
            proof {
                assert(self.entries@.take(i + 1).drop_last() =~= self.entries@.take(i as int));
            }
            if self.entries[i].id == id {
                proof {
                    lemma_first_found_id(self.entries@, id, i as int, self.entries.len() as int);
                    assert(self.entries@.take(self.entries.len() as int) =~= self.entries@);
                }
                return Some(i);
            }
            i += 1;
        }
        proof {
            assert(self.entries@.take(self.entries.len() as int) =~= self.entries@);
        }
        None
    }

    /// The font-file bytes of the font registered under `id`; empty when no
    /// font has that id.
    pub fn data(&self, id: FontId) -> (r: &[u8])
        ensures
            match first_with_id(self.fonts(), id) {
                Some(i) => r@ == self.fonts()[i].data@,
                None => r@.len() == 0,
            },
    {
        match self.position_of(id) {
            Some(i) => self.entries[i].data.as_slice(),
            None => &[],
        }
    }

    /// The name of the font registered under `id`; empty when no font has
    /// that id.
    pub fn name(&self, id: FontId) -> (r: &str)
        ensures
            match first_with_id(self.fonts(), id) {
                Some(i) => r@ == self.fonts()[i].name@,
                None => r@ == ""@,
            },
    {
        match self.position_of(id) {
            Some(i) => self.entries[i].name.as_str(),
            None => "",
        }
    }

    /// How many fonts are registered.
    pub fn len(&self) -> (r: usize)
        ensures
            r == self.fonts().len(),
    {
        self.entries.len()
    }

    /// The ids of all fonts, in priority order.
    pub fn ids(&self) -> (r: Vec<FontId>)
        ensures
            r.len() == self.fonts().len(),
            forall|i: int| 0 <= i < r.len() ==> r[i] == #[trigger] self.fonts()[i].id,
    {
        let mut r: Vec<FontId> = Vec::new();
        let mut i: usize = 0;
        while i < self.entries.len()
            invariant
                i <= self.entries.len(),
                r.len() == i,
                forall|j: int| 0 <= j < i ==> r[j] == #[trigger] self.entries@[j].id,
            decreases self.entries.len() - i,
        {
            r.push(self.entries[i].id);
            i += 1;
        }
        r
    }

    /// The highest-priority font that covers `ch`; whitespace goes to the
    /// first font. With no font covering it, the first font, or `FontId(0)`
    /// in an empty registry.
    pub fn char_font(&self, ch: char) -> (r: FontId)
        ensures
            r == chosen_font(self.fonts(), ch),
    {
        let cp = ch as u32;
        let ws = is_whitespace(ch);
        let mut i: usize = 0;
        while i < self.entries.len()
            invariant
                i <= self.entries.len(),
                ws == is_white_space(ch as u32),
                cp == ch as u32,
                first_drawing(self.entries@.take(i as int), ch) is None,
            decreases self.entries.len() - i,
        {
            proof {
                assert(self.entries@.take(i + 1).drop_last() =~= self.entries@.take(i as int));
            }
            if ws || range_covers(&self.entries[i], cp) {
                proof {
                    lemma_first_found_drawing(self.entries@, ch, i as int, self.entries.len() as int);
                    assert(self.entries@.take(self.entries.len() as int) =~= self.entries@);
                }
                return self.entries[i].id;
            }
            i += 1;
        }
        proof {
            assert(self.entries@.take(self.entries.len() as int) =~= self.entries@);
        }
        if self.entries.len() > 0 {
            self.entries[0].id
        } else {
            FontId(0)
        }
    }

    /// Whether the font registered under `id` draws `ch`; false for an id no
    /// font has.
    pub fn font_has(&self, id: FontId, ch: char) -> (r: bool)
        ensures
            match first_with_id(self.fonts(), id) {
                Some(i) => r == draws(self.fonts()[i], ch),
                None => !r,
            },
    {
        match self.position_of(id) {
            Some(i) => is_whitespace(ch) || range_covers(&self.entries[i], ch as u32),
            None => false,
        }
    }
}

/// The first font that draws `ch` is found: it draws it, and no font before
/// it does.
proof fn lemma_first_drawing(entries: Seq<FontEntry>, ch: char)
    ensures
        match first_drawing(entries, ch) {
            Some(i) => 0 <= i < entries.len() && draws(entries[i], ch)
                && forall|j: int| 0 <= j < i ==> !draws(#[trigger] entries[j], ch),
            None => forall|j: int| 0 <= j < entries.len() ==> !draws(#[trigger] entries[j], ch),
        },
    decreases entries.len(),
{
    if entries.len() > 0 {
        let u = entries.drop_last();
        lemma_first_drawing(u, ch);
        assert forall|j: int| 0 <= j < u.len() implies u[j] == entries[j] by {}
    }
}

/// A character goes to the highest-priority font that draws it: that font
/// draws it and none registered before it does. When no font draws it, it
/// goes to the first font.
pub proof fn law_char_font_is_first_that_draws(entries: Seq<FontEntry>, ch: char)
    ensures
        (exists|i: int| 0 <= i < entries.len() && draws(#[trigger] entries[i], ch)) ==> exists|i: int| {
            &&& 0 <= i < entries.len()
            &&& draws(entries[i], ch)
            &&& chosen_font(entries, ch) == entries[i].id
            &&& forall|j: int| 0 <= j < i ==> !draws(#[trigger] entries[j], ch)
        },
        (forall|i: int| 0 <= i < entries.len() ==> !draws(#[trigger] entries[i], ch)) && entries.len() > 0
            ==> chosen_font(entries, ch) == entries[0].id,
{
    lemma_first_drawing(entries, ch);
    if exists|i: int| 0 <= i < entries.len() && draws(#[trigger] entries[i], ch) {
        let i = first_drawing(entries, ch)->0;
        assert(draws(entries[i], ch));
    }
}

/// Whitespace always goes to the first font, whatever the fonts cover.
pub proof fn law_whitespace_takes_first_font(entries: Seq<FontEntry>, ch: char)
    requires
        entries.len() > 0,
        is_white_space(ch as u32),
    ensures
        chosen_font(entries, ch) == entries[0].id,
{
    lemma_first_drawing(entries, ch);
    assert(draws(entries[0], ch));
}

/// Whether some range of `r` holds the code point `c`.
pub open spec fn in_ranges(r: Seq<(u32, u32)>, c: u32) -> bool {
    exists|k: int| 0 <= k < r.len() && (#[trigger] r[k]).0 <= c <= r[k].1
}

/// Ranges in their one plain form: none empty, in increasing order, and a gap
/// between any two, so each is a longest run of consecutive code points.
pub open spec fn plain_ranges(r: Seq<(u32, u32)>) -> bool {
    &&& forall|k: int| 0 <= k < r.len() ==> (#[trigger] r[k]).0 <= r[k].1
    &&& forall|j: int, k: int| 0 <= j < k < r.len() ==> (#[trigger] r[j]).1 + 1 < (#[trigger] r[k]).0
}

/// Each element below the next.
pub open spec fn increasing(s: Seq<u32>) -> bool {
    forall|j: int, k: int| 0 <= j < k < s.len() ==> s[j] < s[k]
}

proof fn lemma_contains_push(s: Seq<u32>, p: u32, c: u32)
    ensures
        s.push(p).contains(c) <==> (s.contains(c) || c == p),
{
    if s.contains(c) {
        let k = choose|k: int| 0 <= k < s.len() && s[k] == c;
        assert(s.push(p)[k] == c);
    }
    if c == p {
        assert(s.push(p)[s.len() as int] == c);
    }
    if s.push(p).contains(c) {
        let k = choose|k: int| 0 <= k < s.push(p).len() && s.push(p)[k] == c;
        if k < s.len() {
            assert(s[k] == c);
        }
    }
}

proof fn lemma_contains_insert(s: Seq<u32>, pos: int, p: u32, c: u32)
    requires
        0 <= pos <= s.len(),
    ensures
        s.insert(pos, p).contains(c) <==> (s.contains(c) || c == p),
{
    s.insert_ensures(pos, p);
    let t = s.insert(pos, p);
    if s.contains(c) {
        let k = choose|k: int| 0 <= k < s.len() && s[k] == c;
        if k < pos {
            assert(t[k] == c);
        } else {
            assert(t[k + 1] == c);
        }
    }
    if c == p {
        assert(t[pos] == c);
    }
    if t.contains(c) {
        let k = choose|k: int| 0 <= k < t.len() && t[k] == c;
        if k < pos {
            assert(s[k] == c);
        } else if k > pos {
            assert(t[(k - 1) + 1] == s[k - 1]);
            assert(s[k - 1] == c);
        }
    }
}

/// The distinct points, in increasing order.
fn increasing_points(points: &Vec<u32>) -> (s: Vec<u32>)
    ensures
        increasing(s@),
        forall|c: u32| s@.contains(c) <==> points@.contains(c),
{
    let mut s: Vec<u32> = Vec::new();
    let mut i: usize = 0;
    while i < points.len()
        invariant
            i <= points.len(),
            increasing(s@),
            forall|c: u32| s@.contains(c) <==> points@.take(i as int).contains(c),
        decreases points.len() - i,
    {
        let p = points[i];
        proof {
            assert(points@.take(i + 1) =~= points@.take(i as int).push(p));
        }
        if s.len() == 0 || s[s.len() - 1] < p {
            let ghost before = s@;
            s.push(p);
            proof {
                assert forall|c: u32| s@.contains(c) <==> points@.take(i + 1).contains(c) by {
                    lemma_contains_push(points@.take(i as int), p, c);
                    lemma_contains_push(before, p, c);
                }
            }
            i = i + 1;
            continue;
        }
        let mut pos: usize = 0;
        while pos < s.len() && s[pos] < p
            invariant
                pos <= s.len(),
                forall|k: int| 0 <= k < pos ==> s@[k] < p,
            decreases s.len() - pos,
        {
            pos = pos + 1;
        }
        let ghost before = s@;
        proof {
            assert(points@.take(i + 1) =~= points@.take(i as int).push(p));
        }
        if pos < s.len() && s[pos] == p {
            proof {
                assert forall|c: u32| s@.contains(c) <==> points@.take(i + 1).contains(c) by {
                    lemma_contains_push(points@.take(i as int), p, c);
                    if c == p {
                        assert(s@[pos as int] == c);
                    }
                }
            }
        } else {
            s.insert(pos, p);
            proof {
                before.insert_ensures(pos as int, p);
                assert forall|j: int, k: int| 0 <= j < k < s@.len() implies s@[j] < s@[k] by {
                    if k < pos {
                    } else if k == pos {
                        assert(s@[j] == before[j]);
                    } else if j < pos {
                        assert(s@[k] == before[k - 1]);
                        assert(before[pos as int] > p);
                    } else if j == pos {
                        assert(s@[k] == before[k - 1]);
                        assert(before[pos as int] > p);
                    } else {
                        assert(s@[j] == before[j - 1]);
                        assert(s@[k] == before[k - 1]);
                    }
                }
                assert forall|c: u32| s@.contains(c) <==> points@.take(i + 1).contains(c) by {
                    lemma_contains_push(points@.take(i as int), p, c);
                    lemma_contains_insert(before, pos as int, p, c);
                }
            }
        }
        i = i + 1;
    }
    proof {
        assert(points@.take(points.len() as int) =~= points@);
    }
    s
}

/// The plain ranges of increasing points.
fn ranges_of_increasing(s: &Vec<u32>) -> (r: Vec<(u32, u32)>)
    requires
        increasing(s@),
    ensures
        plain_ranges(r@),
        forall|c: u32| in_ranges(r@, c) <==> s@.contains(c),
{
    let mut r: Vec<(u32, u32)> = Vec::new();
    let mut i: usize = 0;
    while i < s.len()
        invariant
            i <= s.len(),
            increasing(s@),
            plain_ranges(r@),
            forall|c: u32| in_ranges(r@, c) <==> s@.take(i as int).contains(c),
            i > 0 ==> r.len() > 0 && r@.last().1 == s@[i - 1],
            i == 0 ==> r.len() == 0,
        decreases s.len() - i,
    {
        let p = s[i];
        let n = r.len();
        let ghost before = r@;
        proof {
            assert(s@.take(i + 1) =~= s@.take(i as int).push(p));
            if i > 0 {
                assert(s@[i - 1] < p);
            }
        }
        if n > 0 && r[n - 1].1 + 1 == p {
            let lo = r[n - 1].0;
            r.set(n - 1, (lo, p));
            proof {
                assert forall|j: int, k: int| 0 <= j < k < r@.len() implies (#[trigger] r@[j]).1 + 1 < (#[trigger] r@[k]).0 by {
                    assert(before[j].1 + 1 < before[k].0);
                }
                assert forall|c: u32| in_ranges(r@, c) <==> s@.take(i + 1).contains(c) by {
                    lemma_contains_push(s@.take(i as int), p, c);
                    if in_ranges(r@, c) {
                        let k = choose|k: int| 0 <= k < r@.len() && (#[trigger] r@[k]).0 <= c <= r@[k].1;
                        if k < n - 1 {
                            assert(before[k] == r@[k]);
                            assert(in_ranges(before, c));
                        } else if c < p {
                            assert(before[k].0 <= c <= before[k].1);
                            assert(in_ranges(before, c));
                        }
                    }
                    if in_ranges(before, c) {
                        let k = choose|k: int| 0 <= k < before.len() && (#[trigger] before[k]).0 <= c <= before[k].1;
                        assert(r@[k].0 <= c <= r@[k].1);
                    }
                    if c == p {
                        assert(r@[n - 1].0 <= c <= r@[n - 1].1);
                    }
                }
            }
        } else {
            r.push((p, p));
            proof {
                assert forall|j: int, k: int| 0 <= j < k < r@.len() implies (#[trigger] r@[j]).1 + 1 < (#[trigger] r@[k]).0 by {
                    if k == n {
                        if j < n - 1 {
                            assert(before[j].1 + 1 < before[n - 1].0);
                        }
                    } else {
                        assert(before[j].1 + 1 < before[k].0);
                    }
                }
                assert forall|c: u32| in_ranges(r@, c) <==> s@.take(i + 1).contains(c) by {
                    lemma_contains_push(s@.take(i as int), p, c);
                    if in_ranges(r@, c) {
                        let k = choose|k: int| 0 <= k < r@.len() && (#[trigger] r@[k]).0 <= c <= r@[k].1;
                        if k < n {
                            assert(before[k] == r@[k]);
                            assert(in_ranges(before, c));
                        }
                    }
                    if in_ranges(before, c) {
                        let k = choose|k: int| 0 <= k < before.len() && (#[trigger] before[k]).0 <= c <= before[k].1;
                        assert(r@[k].0 <= c <= r@[k].1);
                    }
                    if c == p {
                        assert(r@[n as int].0 <= c <= r@[n as int].1);
                    }
                }
            }
        }
        i = i + 1;
    }
    proof {
        assert(s@.take(s.len() as int) =~= s@);
    }
    r
}

/// The Unicode ranges that a font's code points make: sorted, merged, each
/// the longest run of consecutive code points, and covering exactly the
/// points given, whatever their order and however often each occurs.
pub fn code_point_ranges(points: &Vec<u32>) -> (r: Vec<(u32, u32)>)
    ensures
        plain_ranges(r@),
        forall|c: u32| in_ranges(r@, c) <==> points@.contains(c),
{
    let s = increasing_points(points);
    ranges_of_increasing(&s)
}

/// What `ttf-parser` reads from a font file's character map: for each
/// subtable in the file's order, whether it maps Unicode and the code points
/// it maps, in the order the subtable lists them; `None` when the bytes do
/// not parse as a font.
pub uninterp spec fn font_cmap(bytes: Seq<u8>) -> Option<Seq<(bool, Seq<u32>)>>;

/// The plain view of subtables read from a character map.
pub open spec fn subtables_view(v: Seq<(bool, Vec<u32>)>) -> Seq<(bool, Seq<u32>)> {
    v.map_values(|e: (bool, Vec<u32>)| (e.0, e.1@))
}

/// Read a font's character map with `ttf-parser` (`Face::parse` with index
/// 0, `tables().cmap`, each subtable's `is_unicode` and `codepoints`).
/// Claimed: the result is a function of the bytes alone, `font_cmap`. The
/// crate forbids unsafe code and states that it must not panic. A face
/// without a character map reads as no subtables.
#[verifier::external_body]
fn read_cmap(bytes: &[u8]) -> (r: Option<Vec<(bool, Vec<u32>)>>)
    ensures
        match r {
            Some(v) => font_cmap(bytes@) == Some(subtables_view(v@)),
            None => font_cmap(bytes@) is None,
        },
{
    let face = ttf_parser::Face::parse(bytes, 0).ok()?;
    let mut out = Vec::new();
    if let Some(cmap) = face.tables().cmap {
        for subtable in cmap.subtables {
            let mut points = Vec::new();
            subtable.codepoints(|cp| points.push(cp));
            out.push((subtable.is_unicode(), points));
        }
    }
    Some(out)
}

/// Whether some Unicode subtable maps the code point `c`.
pub open spec fn unicode_maps(subs: Seq<(bool, Seq<u32>)>, c: u32) -> bool {
    exists|k: int| 0 <= k < subs.len() && (#[trigger] subs[k]).0 && subs[k].1.contains(c)
}

/// Gathering one more code point of a subtable keeps the gathered points
/// those before it and the subtable's points so far.
proof fn lemma_gather_one(now: Seq<u32>, mid: Seq<u32>, before: Seq<u32>, sub: Seq<u32>, j: int, x: u32)
    requires
        0 <= j < sub.len(),
        x == sub[j],
        now == mid.push(x),
        forall|c: u32| mid.contains(c) <==> (before.contains(c) || sub.take(j).contains(c)),
    ensures
        forall|c: u32| now.contains(c) <==> (before.contains(c) || sub.take(j + 1).contains(c)),
{
    assert(sub.take(j + 1) =~= sub.take(j).push(x));
    assert forall|c: u32| now.contains(c) <==> (before.contains(c) || sub.take(j + 1).contains(c)) by {
        lemma_contains_push(mid, x, c);
        lemma_contains_push(sub.take(j), x, c);
    }
}

/// Gathering subtable `k` (its points when it maps Unicode, none otherwise)
/// onto the points of the subtables before it gives the points of the
/// subtables up to it.
proof fn lemma_gather_step(now: Seq<u32>, before: Seq<u32>, sv: Seq<(bool, Seq<u32>)>, k: int)
    requires
        0 <= k < sv.len(),
        forall|c: u32| before.contains(c) <==> unicode_maps(sv.take(k), c),
        sv[k].0 ==> forall|c: u32| now.contains(c) <==> (before.contains(c) || sv[k].1.contains(c)),
        !sv[k].0 ==> now == before,
    ensures
        forall|c: u32| now.contains(c) <==> unicode_maps(sv.take(k + 1), c),
{
    assert forall|c: u32| now.contains(c) <==> unicode_maps(sv.take(k + 1), c) by {
        let t = sv.take(k + 1);
        assert(t[k] == sv[k]);
        if unicode_maps(sv.take(k), c) {
            let q = choose|q: int| 0 <= q < sv.take(k).len() && (#[trigger] sv.take(k)[q]).0 && sv.take(k)[q].1.contains(c);
            assert(t[q] == sv.take(k)[q]);
        }
        if unicode_maps(t, c) {
            let q = choose|q: int| 0 <= q < t.len() && (#[trigger] t[q]).0 && t[q].1.contains(c);
            if q < k {
                assert(sv.take(k)[q] == t[q]);
            }
        }
        if sv[k].0 && sv[k].1.contains(c) {
            assert(t[k].0 && t[k].1.contains(c));
        }
    }
}

/// The Unicode ranges a font file covers: the plain ranges of every code
/// point its Unicode character-map subtables map; `None` when the bytes do
/// not parse as a font.
pub fn font_coverage(bytes: &[u8]) -> (r: Option<Vec<(u32, u32)>>)
    ensures
        match font_cmap(bytes@) {
            None => r is None,
            Some(subs) => r matches Some(ranges) && plain_ranges(ranges@)
                && forall|c: u32| in_ranges(ranges@, c) <==> unicode_maps(subs, c),
        },
{
    let subs = match read_cmap(bytes) {
        Some(v) => v,
        None => return None,
    };
    let ghost sv = subtables_view(subs@);
    let mut points: Vec<u32> = Vec::new();
    let mut k: usize = 0;
    while k < subs.len()
        invariant
            k <= subs.len(),
            sv == subtables_view(subs@),
            forall|c: u32| points@.contains(c) <==> unicode_maps(sv.take(k as int), c),
        decreases subs.len() - k,
    {
        let ghost before = points@;
        proof {
            assert(sv[k as int] == (subs@[k as int].0, subs@[k as int].1@));
        }
        if subs[k].0 {
            let sub = &subs[k].1;
            let mut j: usize = 0;
            while j < sub.len()
                invariant
                    j <= sub.len(),
                    forall|c: u32| points@.contains(c) <==> (before.contains(c) || sub@.take(j as int).contains(c)),
                decreases sub.len() - j,
            {
                let ghost mid = points@;
                let x = sub[j];
                points.push(x);
                proof {
                    lemma_gather_one(points@, mid, before, sub@, j as int, x);
                }
                j = j + 1;
            }
            proof {
                assert(sub@.take(sub.len() as int) =~= sub@);
                assert(sub@ == subs@[k as int].1@);
                assert(j == sub.len());
                assert forall|c: u32| points@.contains(c) <==> (before.contains(c) || subs@[k as int].1@.contains(c)) by {
                    assert(points@.contains(c) <==> (before.contains(c) || sub@.take(j as int).contains(c)));
                }
            }
        }
        proof {
            lemma_gather_step(points@, before, sv, k as int);
        }
        k = k + 1;
    }
    proof {
        assert(sv.take(subs.len() as int) =~= sv);
    }
    Some(code_point_ranges(&points))
}

} // verus!
