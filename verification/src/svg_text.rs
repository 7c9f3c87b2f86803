//! The labels of an imported SVG: its `<text>` elements, read from the parsed
//! document with the placement and colour they inherit, or refused when their
//! layout is one that cannot be drawn faithfully.

use vstd::prelude::*;
use crate::math::{FormulaError, css_colour, parse_css_colour, trim_bounds, trimmed};
use crate::text::{chars_of, append, debug_quoted, debug_text, owned, str_eq};

verus! {

broadcast use vstd::string::group_string_axioms;

/// An attribute of an element: its namespace, if any, its local name and its
/// value.
pub struct SvgAttr {
    pub namespace: Option<String>,
    pub name: String,
    pub value: String,
}

/// One node of a parsed SVG document, as it stands in document order.
pub struct SvgNode {
    /// The element's local name; empty for a node that is not an element.
    pub tag: String,
    /// Whether the node is character data.
    pub is_text: bool,
    /// The node's text, where it has one.
    pub text: Option<String>,
    /// The element's attributes, in order.
    pub attrs: Vec<SvgAttr>,
    /// The position of the parent node; `None` for the document root.
    pub parent: Option<usize>,
}

/// A label read from an SVG, before its numbers are read as numbers.
pub struct SvgLabel {
    /// The label's text, trimmed.
    pub content: String,
    /// The leading digits, points and minus signs of the inherited `x`, `y`
    /// and `font-size` attributes; `None` where no ancestor sets one.
    pub x: Option<String>,
    pub y: Option<String>,
    pub size: Option<String>,
    /// The inherited `fill`, where it reads as `#rgb` or `#rrggbb`.
    pub fill: Option<(u8, u8, u8)>,
    /// The inherited `text-anchor`, `start` when none is set.
    pub anchor: String,
}

/// What `roxmltree` makes of an SVG source: its nodes in document order, or
/// its error message.
pub uninterp spec fn svg_document(svg: Seq<char>) -> Result<Seq<SvgNode>, Seq<char>>;

/// Parse an SVG source with `roxmltree::Document::parse` and list its nodes
/// (`Document::descendants`, which visits every node in document order), each
/// with its local tag name, whether it is text, its `text()`, its attributes
/// and the `NodeId` of its parent, which is its position in that order.
/// Claimed: the result is a function of the source alone, `svg_document`;
/// an error carries the crate's message; and a parent always comes before its
/// children (`roxmltree` appends each node after its parent).
#[verifier::external_body]
fn svg_parse(svg: &str) -> (r: Result<Vec<SvgNode>, String>)
    ensures
        match r {
            Ok(nodes) => svg_document(svg@) == Ok::<Seq<SvgNode>, Seq<char>>(nodes@)
                && forall|k: int| 0 <= k < nodes.len() && (#[trigger] nodes@[k]).parent is Some
                    ==> nodes@[k].parent->0 < k,
            Err(e) => svg_document(svg@) == Err::<Seq<SvgNode>, Seq<char>>(e@),
        },
{
    let doc = roxmltree::Document::parse(svg).map_err(|e| e.to_string())?;
    Ok(doc.descendants().map(|n| SvgNode {
        tag: n.tag_name().name().to_string(),
        is_text: n.is_text(),
        text: n.text().map(|t| t.to_string()),
        attrs: n.attributes().map(|a| SvgAttr {
            namespace: a.namespace().map(|s| s.to_string()),
            name: a.name().to_string(),
            value: a.value().to_string(),
        }).collect(),
        parent: n.parent().map(|p| p.id().get_usize()),
    }).collect())
}

/// Parse an SVG source into its nodes. A source that does not parse is an
/// `Svg` error carrying the parser's message.
pub fn parse_svg_nodes(svg: &str) -> (r: Result<Vec<SvgNode>, FormulaError>)
    ensures
        match svg_document(svg@) {
            Ok(nodes) => r matches Ok(v) && v@ == nodes,
            Err(m) => r matches Err(FormulaError::Svg(e)) && e@ == m,
        },
        r matches Ok(v) ==> forall|k: int| 0 <= k < v.len() && (#[trigger] v@[k]).parent is Some
            ==> v@[k].parent->0 < k,
{
    match svg_parse(svg) {
        Ok(nodes) => Ok(nodes),
        Err(m) => Err(FormulaError::Svg(m)),
    }
}

/// The value of the first attribute in no namespace with this name.
pub open spec fn attr_in(attrs: Seq<SvgAttr>, name: Seq<char>) -> Option<Seq<char>>
    decreases attrs.len(),
{
    if attrs.len() == 0 {
        None
    } else if attrs[0].namespace is None && attrs[0].name@ == name {
        Some(attrs[0].value@)
    } else {
        attr_in(attrs.drop_first(), name)
    }
}

/// The value node `j` or its nearest ancestor that sets `name` gives it,
/// trimmed: presentation attributes inherit.
pub open spec fn inherited_attr(nodes: Seq<SvgNode>, j: int, name: Seq<char>) -> Option<Seq<char>>
    decreases j,
{
    if !(0 <= j < nodes.len()) {
        None
    } else {
        match attr_in(nodes[j].attrs@, name) {
            Some(v) => Some(trimmed(v)),
            None => match nodes[j].parent {
                Some(p) => if p < j {
                    inherited_attr(nodes, p as int, name)
                } else {
                    None
                },
                None => None,
            },
        }
    }
}

/// Whether node `a` is node `j` or one of its ancestors.
pub open spec fn within(nodes: Seq<SvgNode>, a: int, j: int) -> bool
    decreases j,
{
    if j == a {
        true
    } else if !(0 <= j < nodes.len()) {
        false
    } else {
        match nodes[j].parent {
            Some(p) => if p < j {
                within(nodes, a, p as int)
            } else {
                false
            },
            None => false,
        }
    }
}

/// The text of the text nodes among the first `n` nodes that lie within
/// node `a`, in document order.
pub open spec fn texts_under(nodes: Seq<SvgNode>, a: int, n: int) -> Seq<char>
    decreases n,
{
    if n <= 0 {
        Seq::empty()
    } else {
        let prev = texts_under(nodes, a, n - 1);
        let j = n - 1;
        if j < nodes.len() && nodes[j].is_text && within(nodes, a, j) {
            match nodes[j].text {
                Some(t) => prev + t@,
                None => prev,
            }
        } else {
            prev
        }
    }
}

/// The text of a label element: all the character data inside it, trimmed.
pub open spec fn label_content(nodes: Seq<SvgNode>, k: int) -> Seq<char> {
    trimmed(texts_under(nodes, k, nodes.len() as int))
}

/// A character that can start a plain number: a digit, a point or a minus.
pub open spec fn numeric_char(c: char) -> bool {
    ('0' <= c && c <= '9') || c == '.' || c == '-'
}

/// How many characters `s` starts with that can belong to a plain number.
pub open spec fn numeric_run(s: Seq<char>) -> nat
    decreases s.len(),
{
    if s.len() > 0 && numeric_char(s[0]) {
        1 + numeric_run(s.drop_first())
    } else {
        0
    }
}

/// The number at the start of a length such as `12`, `12px` or `12pt`.
pub open spec fn number_prefix(s: Seq<char>) -> Seq<char> {
    s.take(numeric_run(s) as int)
}

/// The number an inherited length attribute starts with, if one is set.
pub open spec fn number_attr(nodes: Seq<SvgNode>, k: int, name: Seq<char>) -> Option<Seq<char>> {
    match inherited_attr(nodes, k, name) {
        Some(v) => Some(number_prefix(v)),
        None => None,
    }
}

/// An optional string as characters.
pub open spec fn opt_chars(o: Option<String>) -> Option<Seq<char>> {
    match o {
        Some(s) => Some(s@),
        None => None,
    }
}

/// `l` is the label the element at `k` reads as.
pub open spec fn label_is(l: SvgLabel, nodes: Seq<SvgNode>, k: int) -> bool {
    &&& l.content@ == label_content(nodes, k)
    &&& opt_chars(l.x) == number_attr(nodes, k, "x"@)
    &&& opt_chars(l.y) == number_attr(nodes, k, "y"@)
    &&& opt_chars(l.size) == number_attr(nodes, k, "font-size"@)
    &&& l.fill == match inherited_attr(nodes, k, "fill"@) {
        Some(v) => css_colour(v),
        None => None,
    }
    &&& l.anchor@ == match inherited_attr(nodes, k, "text-anchor"@) {
        Some(v) => v,
        None => "start"@,
    }
}

/// The refusal for text laid out along a path or in spans.
pub open spec fn layout_message() -> Seq<char> {
    "this SVG lays out text in a way Codimate cannot read (tspan or textPath) — export it with text converted to outlines"@
}

/// The refusal for a label under a transform, naming the label.
pub open spec fn turned_message(content: Seq<char>) -> Seq<char> {
    "this SVG turns the label "@ + debug_text(content)
        + ", and Codimate cannot draw turned text — export it with text converted to outlines"@
}

/// Reading the label elements from position `k` on, with the positions of the
/// labels read so far in `found`: a `text` element with no text is passed
/// over; one under a transform is refused, naming it; the rest become
/// labels.
pub open spec fn labels_from(nodes: Seq<SvgNode>, k: int, found: Seq<int>) -> Result<Seq<int>, Seq<char>>
    decreases nodes.len() - k,
{
    if k < 0 || k >= nodes.len() {
        Ok(found)
    } else if nodes[k].tag@ != "text"@ || label_content(nodes, k).len() == 0 {
        labels_from(nodes, k + 1, found)
    } else if inherited_attr(nodes, k, "transform"@) is Some {
        Err(turned_message(label_content(nodes, k)))
    } else {
        labels_from(nodes, k + 1, found.push(k))
    }
}

/// Whether any element is a `tspan` or a `textPath`.
pub open spec fn has_text_layout(nodes: Seq<SvgNode>) -> bool {
    exists|k: int| 0 <= k < nodes.len() && (#[trigger] nodes[k].tag@ == "tspan"@ || nodes[k].tag@ == "textPath"@)
}

/// What reading an SVG's labels comes to: a refusal when text is laid out in
/// spans or along a path, else the positions of the label elements in
/// document order, or the refusal of the first turned label.
pub open spec fn svg_labels(nodes: Seq<SvgNode>) -> Result<Seq<int>, Seq<char>> {
    if has_text_layout(nodes) {
        Err(layout_message())
    } else {
        labels_from(nodes, 0, Seq::empty())
    }
}

fn attr_value<'a>(n: &'a SvgNode, name: &str) -> (r: Option<&'a str>)
    ensures
        match attr_in(n.attrs@, name@) {
            Some(v) => r matches Some(s) && s@ == v,
            None => r is None,
        },
{
    let mut i: usize = 0;
    proof {
        assert(n.attrs@.skip(0) =~= n.attrs@);
    }
    while i < n.attrs.len()
        invariant
            i <= n.attrs.len(),
            attr_in(n.attrs@.skip(i as int), name@) == attr_in(n.attrs@, name@),
        decreases n.attrs.len() - i,
    {
        proof {
            assert(n.attrs@.skip(i as int).drop_first() =~= n.attrs@.skip(i + 1));
            assert(n.attrs@.skip(i as int)[0] == n.attrs@[i as int]);
        }
        let a = &n.attrs[i];
        if a.namespace.is_none() && str_eq(a.name.as_str(), name) {
            return Some(a.value.as_str());
        }
        i += 1;
    }
    None
}

/// `s` with whitespace trimmed from both ends.
fn trim_text(s: &str) -> (r: String)
    ensures
        r@ == trimmed(s@),
{
    let (lo, hi) = trim_bounds(s);
    owned(s.substring_char(lo, hi))
}

fn inherited_value(nodes: &Vec<SvgNode>, j: usize, name: &str) -> (r: Option<String>)
    requires
        j < nodes.len(),
    ensures
        opt_chars(r) == inherited_attr(nodes@, j as int, name@),
{
    let mut cur = j;
    loop
        invariant
            cur < nodes.len(),
            inherited_attr(nodes@, cur as int, name@) == inherited_attr(nodes@, j as int, name@),
        decreases cur,
    {
        match attr_value(&nodes[cur], name) {
            Some(v) => {
                return Some(trim_text(v));
            },
            None => match nodes[cur].parent {
                Some(p) => {
                    if p < cur {
                        cur = p;
                    } else {
                        return None;
                    }
                },
                None => {
                    return None;
                },
            },
        }
    }
}

fn is_within(nodes: &Vec<SvgNode>, a: usize, j: usize) -> (r: bool)
    requires
        j < nodes.len(),
    ensures
        r == within(nodes@, a as int, j as int),
{
    let mut cur = j;
    loop
        invariant
            cur < nodes.len(),
            within(nodes@, a as int, cur as int) == within(nodes@, a as int, j as int),
        decreases cur,
    {
        if cur == a {
            return true;
        }
        match nodes[cur].parent {
            Some(p) => {
                if p < cur {
                    cur = p;
                } else {
                    return false;
                }
            },
            None => {
                return false;
            },
        }
    }
}

fn label_text(nodes: &Vec<SvgNode>, k: usize) -> (r: String)
    ensures
        r@ == texts_under(nodes@, k as int, nodes.len() as int),
{
    let mut r = owned("");
    proof {
        reveal_strlit("");
    }
    let mut j: usize = 0;
    while j < nodes.len()
        invariant
            j <= nodes.len(),
            r@ == texts_under(nodes@, k as int, j as int),
        decreases nodes.len() - j,
    {
        if nodes[j].is_text && is_within(nodes, k, j) {
            match &nodes[j].text {
                Some(t) => {
                    r = append(r, t.as_str());
                },
                None => {},
            }
        }
        j += 1;
    }
    r
}

proof fn lemma_numeric_run(s: Seq<char>, m: int)
    requires
        0 <= m <= s.len(),
        forall|q: int| 0 <= q < m ==> numeric_char(#[trigger] s[q]),
        m == s.len() || !numeric_char(s[m]),
    ensures
        numeric_run(s) == m,
    decreases m,
{
    if m > 0 {
        let t = s.drop_first();
        assert forall|q: int| 0 <= q < m - 1 implies numeric_char(#[trigger] t[q]) by {
            assert(t[q] == s[q + 1]);
        }
        if m < s.len() {
            assert(t[m - 1] == s[m]);
        }
        lemma_numeric_run(t, m - 1);
    }
}

/// A character that can belong to a plain number written in a length: an
/// ASCII digit, a decimal point or a minus sign.
pub open spec fn number_char(c: char) -> bool {
    (48 <= c as u32 <= 57) || c as u32 == 46 || c as u32 == 45
}

proof fn lemma_number_char(c: char)
    ensures
        number_char(c) ==> numeric_char(c),
{
    if 48 <= c as u32 <= 57 {
        assert('0' <= c && c <= '9');
    }
}

/// The number read from a length is its longest prefix of digits, points and
/// minus signs: a length written as such a prefix followed by anything that
/// does not start with one of them (a unit, say, or nothing) reads as that
/// prefix, so `-12px` reads as `-12` and `0.5em` as `0.5`.
pub proof fn law_length_number_is_leading_digits(num: Seq<char>, unit: Seq<char>)
    requires
        forall|q: int| 0 <= q < num.len() ==> number_char(#[trigger] num[q]),
        unit.len() == 0 || !number_char(unit[0]),
    ensures
        number_prefix(num + unit) == num,
{
    let s = num + unit;
    assert forall|q: int| 0 <= q < num.len() implies numeric_char(#[trigger] s[q]) by {
        assert(s[q] == num[q]);
        lemma_number_char(num[q]);
    }
    if unit.len() > 0 {
        assert(s[num.len() as int] == unit[0]);
    }
    lemma_numeric_run(s, num.len() as int);
    assert(s.take(num.len() as int) =~= num);
}

fn is_numeric_char(c: char) -> (r: bool)
    ensures
        r == numeric_char(c),
{
    ('0' <= c && c <= '9') || c == '.' || c == '-'
}

fn number_text(s: &str) -> (r: String)
    ensures
        r@ == number_prefix(s@),
{
    let c = chars_of(s);
    let mut m: usize = 0;
    while m < c.len() && is_numeric_char(c[m])
        invariant
            c@ == s@,
            m <= c.len(),
            forall|q: int| 0 <= q < m ==> numeric_char(#[trigger] c@[q]),
        decreases c.len() - m,
    {
        m += 1;
    }
    proof {
        lemma_numeric_run(s@, m as int);
        assert(s@.take(m as int) =~= s@.subrange(0, m as int));
    }
    owned(s.substring_char(0, m))
}

fn number_value(nodes: &Vec<SvgNode>, k: usize, name: &str) -> (r: Option<String>)
    requires
        k < nodes.len(),
    ensures
        opt_chars(r) == number_attr(nodes@, k as int, name@),
{
    match inherited_value(nodes, k, name) {
        Some(v) => Some(number_text(v.as_str())),
        None => None,
    }
}

fn layout_refusal() -> (r: FormulaError)
    ensures
        r matches FormulaError::SvgText(m) && m@ == layout_message(),
{
    FormulaError::SvgText(owned("this SVG lays out text in a way Codimate cannot read (tspan or textPath) — export it with text converted to outlines"))
}

/// Read an SVG's `<text>` elements in document order. A `tspan` or
/// `textPath` anywhere is refused; a label with no text is passed over; a
/// label under a transform is refused, naming it, since turned text cannot
/// be drawn. Each label keeps its trimmed text and the placement, size,
/// colour and anchor it inherits from the nearest element that sets them.
pub fn read_svg_labels(nodes: &Vec<SvgNode>) -> (r: Result<Vec<SvgLabel>, FormulaError>)
    ensures
        match svg_labels(nodes@) {
            Err(m) => r matches Err(FormulaError::SvgText(e)) && e@ == m,
            Ok(ks) => r matches Ok(labels) && labels.len() == ks.len()
                && forall|i: int| 0 <= i < ks.len() ==> label_is(#[trigger] labels@[i], nodes@, ks[i]),
        },
{
    let mut q: usize = 0;
    while q < nodes.len()
        invariant
            q <= nodes.len(),
            forall|k: int| 0 <= k < q ==> !(#[trigger] nodes@[k].tag@ == "tspan"@ || nodes@[k].tag@ == "textPath"@),
        decreases nodes.len() - q,
    {
        let tag = nodes[q].tag.as_str();
        if str_eq(tag, "tspan") || str_eq(tag, "textPath") {
            proof {
                assert(nodes@[q as int].tag@ == "tspan"@ || nodes@[q as int].tag@ == "textPath"@);
            }
            return Err(layout_refusal());
        }
        q += 1;
    }
    let ghost mut found: Seq<int> = Seq::empty();
    let mut labels: Vec<SvgLabel> = Vec::new();
    let mut k: usize = 0;
    while k < nodes.len()
        invariant
            !has_text_layout(nodes@),
            k <= nodes.len(),
            labels_from(nodes@, k as int, found) == svg_labels(nodes@),
            labels.len() == found.len(),
            forall|i: int| 0 <= i < found.len() ==> label_is(#[trigger] labels@[i], nodes@, found[i]),
        decreases nodes.len() - k,
    {
        if str_eq(nodes[k].tag.as_str(), "text") {
            let raw = label_text(nodes, k);
            let content = trim_text(raw.as_str());
            if !content.as_str().is_empty() {
                if inherited_value(nodes, k, "transform").is_some() {
                    let m = append(owned("this SVG turns the label "), debug_quoted(content.as_str()).as_str());
                    let m = append(m, ", and Codimate cannot draw turned text — export it with text converted to outlines");
                    return Err(FormulaError::SvgText(m));
                }
                let fill_raw = inherited_value(nodes, k, "fill");
                let fill = match fill_raw {
                    Some(v) => parse_css_colour(v.as_str()),
                    None => None,
                };
                let anchor = match inherited_value(nodes, k, "text-anchor") {
                    Some(v) => v,
                    None => owned("start"),
                };
                let label = SvgLabel {
                    content,
                    x: number_value(nodes, k, "x"),
                    y: number_value(nodes, k, "y"),
                    size: number_value(nodes, k, "font-size"),
                    fill,
                    anchor,
                };
                labels.push(label);
                proof {
                    found = found.push(k as int);
                }
            }
        }
        k += 1;
    }
    Ok(labels)
}

/// Positions that are increasing, each a `text` element with some text.
pub open spec fn label_positions(nodes: Seq<SvgNode>, ks: Seq<int>) -> bool {
    &&& forall|i: int, j: int| 0 <= i < j < ks.len() ==> #[trigger] ks[i] < #[trigger] ks[j]
    &&& forall|i: int| 0 <= i < ks.len() ==> 0 <= #[trigger] ks[i] < nodes.len()
        && nodes[ks[i]].tag@ == "text"@ && label_content(nodes, ks[i]).len() > 0
}

proof fn lemma_labels_from(nodes: Seq<SvgNode>, k: int, found: Seq<int>)
    requires
        0 <= k,
        label_positions(nodes, found),
        forall|i: int| 0 <= i < found.len() ==> #[trigger] found[i] < k,
    ensures
        labels_from(nodes, k, found) matches Ok(ks) ==> label_positions(nodes, ks),
    decreases nodes.len() - k,
{
    if k < nodes.len() {
        if !(nodes[k].tag@ != "text"@ || label_content(nodes, k).len() == 0)
            && inherited_attr(nodes, k, "transform"@) is None {
            let next = found.push(k);
            assert(label_positions(nodes, next)) by {
                assert forall|i: int, j: int| 0 <= i < j < next.len() implies #[trigger] next[i] < #[trigger] next[j] by {
                    if j < found.len() {
                        assert(next[i] == found[i] && next[j] == found[j]);
                    } else {
                        assert(next[i] == found[i]);
                    }
                }
                assert forall|i: int| 0 <= i < next.len() implies 0 <= #[trigger] next[i] < nodes.len()
                    && nodes[next[i]].tag@ == "text"@ && label_content(nodes, next[i]).len() > 0 by {
                    if i < found.len() {
                        assert(next[i] == found[i]);
                    }
                }
            }
            assert forall|i: int| 0 <= i < next.len() implies #[trigger] next[i] < k + 1 by {
                if i < found.len() {
                    assert(next[i] == found[i]);
                }
            }
            lemma_labels_from(nodes, k + 1, next);
        } else {
            lemma_labels_from(nodes, k + 1, found);
        }
    }
}

/// Labels come out in document order, one per `text` element that has some
/// text, never twice.
pub proof fn law_labels_in_document_order(nodes: Seq<SvgNode>)
    ensures
        svg_labels(nodes) matches Ok(ks) ==> label_positions(nodes, ks),
{
    if !has_text_layout(nodes) {
        lemma_labels_from(nodes, 0, Seq::empty());
    }
}

} // verus!
