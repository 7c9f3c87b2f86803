//! Column arrangements: which columns and layers an arrangement names, and the
//! authoring mistakes that stop it from being laid out.

use vstd::prelude::*;
use crate::text::{append, owned, str_eq};

verus! {

/// How a routed connection runs between two layers.
#[derive(Clone, Copy, Debug, PartialEq, Eq, Structural)]
pub enum EdgeKind {
    Vertical,
    ResidualLeft,
    ResidualRight,
    Cross,
}

/// Lays columns out side by side, each a stack of layers.
#[derive(Clone, Copy, Debug)]
pub struct ColumnsArrangement;

/// Why an arrangement cannot be laid out.
#[derive(Clone, Debug, PartialEq, Eq)]
pub enum ArrangeError {
    EmptyColumn { column: String },
    UnknownColumn { column: String },
    UnknownLayer { column: String, layer: String },
}

/// An arrangement mistake, by the names it involves.
pub enum ArrangeProblem {
    EmptyColumn(Seq<char>),
    UnknownColumn(Seq<char>),
    UnknownLayer(Seq<char>, Seq<char>),
}

/// The mistake an error reports.
pub open spec fn problem_of(e: ArrangeError) -> ArrangeProblem {
    match e {
        ArrangeError::EmptyColumn { column } => ArrangeProblem::EmptyColumn(column@),
        ArrangeError::UnknownColumn { column } => ArrangeProblem::UnknownColumn(column@),
        ArrangeError::UnknownLayer { column, layer } => ArrangeProblem::UnknownLayer(column@, layer@),
    }
}

/// The message an error reads as.
pub open spec fn arrange_message(e: ArrangeError) -> Seq<char> {
    match e {
        ArrangeError::EmptyColumn { column } => "column '"@ + column@ + "' has no layers"@,
        ArrangeError::UnknownColumn { column } => "unknown column '"@ + column@ + "'"@,
        ArrangeError::UnknownLayer { column, layer } => "unknown layer '"@ + layer@ + "' in column '"@
            + column@ + "'"@,
    }
}

impl ArrangeError {
    /// The error as a sentence.
    pub fn message(&self) -> (r: String)
        ensures
            r@ == arrange_message(*self),
    {
        match self {
            ArrangeError::EmptyColumn { column } => append(append(owned("column '"), column.as_str()), "' has no layers"),
            ArrangeError::UnknownColumn { column } => append(append(owned("unknown column '"), column.as_str()), "'"),
            ArrangeError::UnknownLayer { column, layer } => {
                let m = append(append(owned("unknown layer '"), layer.as_str()), "' in column '");
                append(append(m, column.as_str()), "'")
            },
        }
    }
}

/// What the checks read of a column: its id and its layer ids, top down as
/// authored.
pub struct ColumnNames {
    pub id: String,
    pub layers: Vec<String>,
}

/// What the checks read of an edge: the column and layer at each end.
pub struct EdgeNames {
    pub from_col: String,
    pub from_layer: String,
    pub to_col: String,
    pub to_layer: String,
}

/// Where an edge's ends stand, by position: the source column and its layer,
/// then the target column and its layer.
#[derive(Clone, Copy, Debug, PartialEq, Eq)]
pub struct EdgeEnds {
    pub from_col: usize,
    pub from_layer: usize,
    pub to_col: usize,
    pub to_layer: usize,
}

/// `k` is the position of the first layer of `col` with this id.
pub open spec fn first_layer(col: ColumnNames, id: Seq<char>, k: int) -> bool {
    &&& 0 <= k < col.layers.len()
    &&& col.layers[k]@ == id
    &&& forall|j: int| 0 <= j < k ==> col.layers[j]@ != id
}

/// `ends` are where edge `e` runs in `cols`: the first column and, in it,
/// the first layer carrying each name the edge gives.
pub open spec fn ends_of(cols: Seq<ColumnNames>, e: EdgeNames, ends: EdgeEnds) -> bool {
    &&& column_at(cols, e.from_col@) == Some(ends.from_col as int)
    &&& column_at(cols, e.to_col@) == Some(ends.to_col as int)
    &&& first_layer(cols[ends.from_col as int], e.from_layer@, ends.from_layer as int)
    &&& first_layer(cols[ends.to_col as int], e.to_layer@, ends.to_layer as int)
}

/// The first column with this id.
pub open spec fn column_at(cols: Seq<ColumnNames>, id: Seq<char>) -> Option<int>
    decreases cols.len(),
{
    if cols.len() == 0 {
        None
    } else {
        match column_at(cols.drop_last(), id) {
            Some(i) => Some(i),
            None => if cols.last().id@ == id { Some(cols.len() - 1) } else { None },
        }
    }
}

/// Whether a column has a layer with this id.
pub open spec fn has_layer(col: ColumnNames, id: Seq<char>) -> bool {
    exists|k: int| 0 <= k < col.layers.len() && #[trigger] col.layers[k]@ == id
}

/// The first mistake in one edge: its source column, its target column, its
/// source layer, its target layer, checked in that order.
pub open spec fn edge_problem(cols: Seq<ColumnNames>, e: EdgeNames) -> Option<ArrangeProblem> {
    match (column_at(cols, e.from_col@), column_at(cols, e.to_col@)) {
        (None, _) => Some(ArrangeProblem::UnknownColumn(e.from_col@)),
        (Some(_), None) => Some(ArrangeProblem::UnknownColumn(e.to_col@)),
        (Some(f), Some(t)) => if !has_layer(cols[f], e.from_layer@) {
            Some(ArrangeProblem::UnknownLayer(cols[f].id@, e.from_layer@))
        } else if !has_layer(cols[t], e.to_layer@) {
            Some(ArrangeProblem::UnknownLayer(cols[t].id@, e.to_layer@))
        } else {
            None
        },
    }
}

/// The first empty column.
pub open spec fn first_empty(cols: Seq<ColumnNames>) -> Option<int>
    decreases cols.len(),
{
    if cols.len() == 0 {
        None
    } else {
        match first_empty(cols.drop_last()) {
            Some(i) => Some(i),
            None => if cols.last().layers.len() == 0 { Some(cols.len() - 1) } else { None },
        }
    }
}

/// The first mistake among the edges, in order.
pub open spec fn edges_problem(cols: Seq<ColumnNames>, edges: Seq<EdgeNames>) -> Option<ArrangeProblem>
    decreases edges.len(),
{
    if edges.len() == 0 {
        None
    } else {
        match edges_problem(cols, edges.drop_last()) {
            Some(p) => Some(p),
            None => edge_problem(cols, edges.last()),
        }
    }
}

/// The first mistake in an arrangement: an empty column (columns in order),
/// then the first edge that names a column or layer that is not there.
pub open spec fn arrangement_problem(cols: Seq<ColumnNames>, edges: Seq<EdgeNames>) -> Option<ArrangeProblem> {
    match first_empty(cols) {
        Some(i) => Some(ArrangeProblem::EmptyColumn(cols[i].id@)),
        None => edges_problem(cols, edges),
    }
}

fn find_column(cols: &Vec<ColumnNames>, id: &str) -> (r: Option<usize>)
    ensures
        match column_at(cols@, id@) {
            Some(i) => 0 <= i < cols.len() && r == Some(i as usize),
            None => r is None,
        },
{
    let mut i: usize = 0;
    while i < cols.len()
        invariant
            i <= cols.len(),
            column_at(cols@.take(i as int), id@) is None,
        decreases cols.len() - i,
    {
        proof {
            assert(cols@.take(i + 1).drop_last() =~= cols@.take(i as int));
        }
        if str_eq(cols[i].id.as_str(), id) {
            proof {
                lemma_column_at_extends(cols@, id@, i as int, cols.len() as int);
                assert(cols@.take(cols.len() as int) =~= cols@);
            }
            return Some(i);
        }
        i += 1;
    }
    proof {
        assert(cols@.take(cols.len() as int) =~= cols@);
    }
    None
}

proof fn lemma_column_at_extends(cols: Seq<ColumnNames>, id: Seq<char>, i: int, n: int)
    requires
        0 <= i < n <= cols.len(),
        column_at(cols.take(i), id) is None,
        cols[i].id@ == id,
    ensures
        column_at(cols.take(n), id) == Some(i),
    decreases n - i,
{
    if n == i + 1 {
        assert(cols.take(n).drop_last() =~= cols.take(i));
    } else {
        lemma_column_at_extends(cols, id, i, n - 1);
        assert(cols.take(n).drop_last() =~= cols.take(n - 1));
    }
}

fn find_layer(col: &ColumnNames, id: &str) -> (r: Option<usize>)
    ensures
        match r {
            Some(k) => first_layer(*col, id@, k as int),
            None => !has_layer(*col, id@),
        },
{
    let mut k: usize = 0;
    while k < col.layers.len()
        invariant
            k <= col.layers.len(),
            forall|k2: int| 0 <= k2 < k ==> col.layers@[k2]@ != id@,
        decreases col.layers.len() - k,
    {
        if str_eq(col.layers[k].as_str(), id) {
            return Some(k);
        }
        k += 1;
    }
    None
}

fn clone_text(s: &String) -> (r: String)
    ensures
        r@ == s@,
{
    owned(s.as_str())
}

/// Check an arrangement before laying it out: every column has a layer, and
/// every edge names columns and layers that exist. The first mistake is
/// reported: empty columns first, in order, then edges in order, each edge
/// checked source column, target column, source layer, target layer. When
/// there is none, where each edge runs, in the order of the edges.
pub fn check_arrangement(cols: &Vec<ColumnNames>, edges: &Vec<EdgeNames>) -> (r: Result<Vec<EdgeEnds>, ArrangeError>)
    ensures
        match arrangement_problem(cols@, edges@) {
            None => r matches Ok(ends) && ends.len() == edges.len()
                && forall|k: int| 0 <= k < edges.len() ==> ends_of(cols@, edges@[k], #[trigger] ends@[k]),
            Some(p) => r matches Err(e) && problem_of(e) == p,
        },
{
    let mut i: usize = 0;
    while i < cols.len()
        invariant
            i <= cols.len(),
            first_empty(cols@.take(i as int)) is None,
        decreases cols.len() - i,
    {
        proof {
            assert(cols@.take(i + 1).drop_last() =~= cols@.take(i as int));
        }
        if cols[i].layers.len() == 0 {
            proof {
                lemma_first_empty_extends(cols@, i as int, cols.len() as int);
                assert(cols@.take(cols.len() as int) =~= cols@);
            }
            return Err(ArrangeError::EmptyColumn { column: clone_text(&cols[i].id) });
        }
        i += 1;
    }
    proof {
        assert(cols@.take(cols.len() as int) =~= cols@);
    }
    let mut ends: Vec<EdgeEnds> = Vec::new();
    let mut k: usize = 0;
    while k < edges.len()
        invariant
            first_empty(cols@) is None,
            k <= edges.len(),
            edges_problem(cols@, edges@.take(k as int)) is None,
            ends.len() == k,
            forall|j: int| 0 <= j < k ==> ends_of(cols@, edges@[j], #[trigger] ends@[j]),
        decreases edges.len() - k,
    {
        proof {
            assert(edges@.take(k + 1).drop_last() =~= edges@.take(k as int));
            lemma_edges_problem_prefix(cols@, edges@, k as int);
        }
        let e = &edges[k];
        let f = match find_column(cols, e.from_col.as_str()) {
            Some(f) => f,
            None => return Err(ArrangeError::UnknownColumn { column: clone_text(&e.from_col) }),
        };
        let t = match find_column(cols, e.to_col.as_str()) {
            Some(t) => t,
            None => return Err(ArrangeError::UnknownColumn { column: clone_text(&e.to_col) }),
        };
        let fl = match find_layer(&cols[f], e.from_layer.as_str()) {
            Some(l) => l,
            None => {
                return Err(
                    ArrangeError::UnknownLayer { column: clone_text(&cols[f].id), layer: clone_text(&e.from_layer) },
                );
            },
        };
        let tl = match find_layer(&cols[t], e.to_layer.as_str()) {
            Some(l) => l,
            None => {
                return Err(
                    ArrangeError::UnknownLayer { column: clone_text(&cols[t].id), layer: clone_text(&e.to_layer) },
                );
            },
        };
        ends.push(EdgeEnds { from_col: f, from_layer: fl, to_col: t, to_layer: tl });
        k += 1;
    }
    proof {
        assert(edges@.take(edges.len() as int) =~= edges@);
    }
    Ok(ends)
}

proof fn lemma_first_empty_extends(cols: Seq<ColumnNames>, i: int, n: int)
    requires
        0 <= i < n <= cols.len(),
        first_empty(cols.take(i)) is None,
        cols[i].layers.len() == 0,
    ensures
        first_empty(cols.take(n)) == Some(i),
    decreases n - i,
{
    if n == i + 1 {
        assert(cols.take(n).drop_last() =~= cols.take(i));
    } else {
        lemma_first_empty_extends(cols, i, n - 1);
        assert(cols.take(n).drop_last() =~= cols.take(n - 1));
    }
}

/// With no mistake in the first `k` edges, the first mistake overall is edge
/// `k`'s, if it has one, or a later one's.
proof fn lemma_edges_problem_prefix(cols: Seq<ColumnNames>, edges: Seq<EdgeNames>, k: int)
    requires
        0 <= k < edges.len(),
        edges_problem(cols, edges.take(k)) is None,
    ensures
        edge_problem(cols, edges[k]) is Some ==> edges_problem(cols, edges) == edge_problem(cols, edges[k]),
    decreases edges.len() - k,
{
    if edge_problem(cols, edges[k]) is Some {
        lemma_edges_problem_extends(cols, edges, k, edges.len() as int);
        assert(edges.take(edges.len() as int) =~= edges);
    }
}

proof fn lemma_edges_problem_extends(cols: Seq<ColumnNames>, edges: Seq<EdgeNames>, k: int, n: int)
    requires
        0 <= k < n <= edges.len(),
        edges_problem(cols, edges.take(k)) is None,
        edge_problem(cols, edges[k]) is Some,
    ensures
        edges_problem(cols, edges.take(n)) == edge_problem(cols, edges[k]),
    decreases n - k,
{
    if n == k + 1 {
        assert(edges.take(n).drop_last() =~= edges.take(k));
    } else {
        lemma_edges_problem_extends(cols, edges, k, n - 1);
        assert(edges.take(n).drop_last() =~= edges.take(n - 1));
    }
}

} // verus!
