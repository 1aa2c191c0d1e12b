//! The table extractor: locates the roster table in a flattened document,
//! skips the header row, and reads each remaining row's name and score
//! cells into `(raw name, raw score)` pairs.
//!
//! Two table-location strategies exist, chosen by [`TableLocator`]. Rows
//! with fewer than three cells, and rows whose trimmed name is empty, are
//! skipped with a warning; a score cell without a usable numeric token
//! rejects the whole document with a parse error (this build's documented
//! policy, rather than a zero default).
use vstd::prelude::*;
use vstd::string::StrSliceExecFns;
use vstd::string::StringExecFns;

use crate::dom::{dom_view, DomNode, DomNodeV, NodeData, NodeDataV};
use crate::num::{abs_int, scan_micros, scan_score, MAX_ABS_MICROS};
use crate::text::{str_eq, trim, trim_spec};
use crate::{RosterError, Warning};

verus! {

/// How the roster table is located in the document.
#[derive(Clone, Copy, PartialEq, Eq, Debug)]
pub enum TableLocator {
    /// The first table nested under the third paragraph child of the body
    /// element. This is the default strategy.
    ThirdParagraphTable,
    /// The first table anywhere in the document.
    FirstTable,
}

/// One extracted row: the trimmed raw name and the score in micro-units.
pub struct RawEntry {
    pub name: String,
    pub micros: i64,
}

pub ghost struct RawEntryV {
    pub name: Seq<char>,
    pub micros: int,
}

impl View for RawEntry {
    type V = RawEntryV;

    open spec fn view(&self) -> RawEntryV {
        RawEntryV { name: self.name@, micros: self.micros as int }
    }
}

pub open spec fn entries_view(v: Seq<RawEntry>) -> Seq<RawEntryV> {
    v.map_values(|e: RawEntry| e@)
}

/// Whether node `k` is an element with the given tag, at the given depth
/// if one is asked for.
pub open spec fn node_matches(dom: Seq<DomNodeV>, k: int, tag: Seq<char>, depth: Option<int>) -> bool {
    &&& 0 <= k < dom.len()
    &&& match dom[k].data {
        NodeDataV::Element { tag: t } => t == tag,
        _ => false,
    }
    &&& match depth {
        Some(d) => dom[k].depth == d,
        None => true,
    }
}

/// End of the subtree of a node with depth `d`, scanning from `j`: the
/// first later position whose depth does not exceed `d`.
pub open spec fn subtree_end_from(dom: Seq<DomNodeV>, d: int, j: int) -> int
    decreases dom.len() - j,
{
    if j < 0 || j >= dom.len() {
        dom.len() as int
    } else if dom[j].depth <= d {
        j
    } else {
        subtree_end_from(dom, d, j + 1)
    }
}

/// End (exclusive) of the subtree rooted at node `i`.
pub open spec fn subtree_end(dom: Seq<DomNodeV>, i: int) -> int {
    subtree_end_from(dom, dom[i].depth, i + 1)
}

/// First element with the given tag (and depth, if asked) in `[from, end)`.
pub open spec fn find_elem(
    dom: Seq<DomNodeV>,
    from: int,
    end: int,
    tag: Seq<char>,
    depth: Option<int>,
) -> Option<int>
    decreases end - from,
{
    if from >= end {
        None
    } else if node_matches(dom, from, tag, depth) {
        Some(from)
    } else {
        find_elem(dom, from + 1, end, tag, depth)
    }
}

/// All elements with the given tag (and depth, if asked) in `[from, j)`,
/// in document order.
pub open spec fn elems_in(
    dom: Seq<DomNodeV>,
    from: int,
    j: int,
    tag: Seq<char>,
    depth: Option<int>,
) -> Seq<int>
    decreases j - from,
{
    if j <= from {
        Seq::empty()
    } else if node_matches(dom, j - 1, tag, depth) {
        elems_in(dom, from, j - 1, tag, depth).push(j - 1)
    } else {
        elems_in(dom, from, j - 1, tag, depth)
    }
}

/// The concatenated text of the text nodes in `[from, j)`, in document
/// order.
pub open spec fn texts_in(dom: Seq<DomNodeV>, from: int, j: int) -> Seq<char>
    decreases j - from,
{
    if j <= from {
        Seq::empty()
    } else {
        texts_in(dom, from, j - 1) + (match dom[j - 1].data {
            NodeDataV::Text { content } => content,
            _ => Seq::empty(),
        })
    }
}

/// Every collected element index lies in the scanned range.
pub proof fn lemma_elems_range(
    dom: Seq<DomNodeV>,
    from: int,
    j: int,
    tag: Seq<char>,
    depth: Option<int>,
)
    ensures
        forall|k: int|
            0 <= k < elems_in(dom, from, j, tag, depth).len() ==> from <= #[trigger] elems_in(
                dom,
                from,
                j,
                tag,
                depth,
            )[k] < j && node_matches(dom, elems_in(dom, from, j, tag, depth)[k], tag, depth),
    decreases j - from,
{
    if j > from {
        lemma_elems_range(dom, from, j - 1, tag, depth);
        let prev = elems_in(dom, from, j - 1, tag, depth);
        let cur = elems_in(dom, from, j, tag, depth);
        if node_matches(dom, j - 1, tag, depth) {
            assert(cur == prev.push(j - 1));
            assert forall|k: int|
                0 <= k < cur.len() implies from <= #[trigger] cur[k] < j && node_matches(
                dom,
                cur[k],
                tag,
                depth,
            ) by {
                if k < prev.len() {
                    assert(cur[k] == prev[k]);
                } else {
                    assert(cur[k] == j - 1);
                }
            }
        }
    }
}

/// Where the roster table stands, under the chosen strategy.
pub open spec fn locate_table(dom: Seq<DomNodeV>, loc: TableLocator) -> Option<int> {
    match loc {
        TableLocator::FirstTable => find_elem(dom, 0, dom.len() as int, "table"@, None),
        TableLocator::ThirdParagraphTable => match find_elem(
            dom,
            0,
            dom.len() as int,
            "body"@,
            None,
        ) {
            None => None,
            Some(b) => {
                let bend = subtree_end(dom, b);
                let ps = elems_in(dom, b + 1, bend, "p"@, Some(dom[b].depth + 1));
                if ps.len() < 3 {
                    None
                } else {
                    find_elem(dom, ps[2] + 1, subtree_end(dom, ps[2]), "table"@, None)
                }
            },
        },
    }
}

/// What reading one data row yields.
pub ghost enum RowOutcomeV {
    /// Fewer than three cells: the row is skipped with a warning.
    Short,
    /// The name cell is empty after trimming: skipped with a warning.
    NoName,
    /// A usable row.
    Entry { name: Seq<char>, micros: int },
    /// The score cell has no numeric token in the fixed-point range: the
    /// whole document is rejected.
    BadScore,
}

/// The name text of a row: the text of the first anchor element nested in
/// the name cell if there is one, the cell's own text otherwise.
pub open spec fn row_name_text(dom: Seq<DomNodeV>, name_td: int) -> Seq<char> {
    let tend = subtree_end(dom, name_td);
    match find_elem(dom, name_td + 1, tend, "a"@, None) {
        Some(a) => texts_in(dom, a + 1, subtree_end(dom, a)),
        None => texts_in(dom, name_td + 1, tend),
    }
}

/// Reading the data row rooted at node `r`: its cells are the `td`
/// elements of its subtree; the name stands in the second and the score in
/// the third.
pub open spec fn row_outcome(dom: Seq<DomNodeV>, r: int) -> RowOutcomeV {
    let rend = subtree_end(dom, r);
    let tds = elems_in(dom, r + 1, rend, "td"@, None);
    if tds.len() < 3 {
        RowOutcomeV::Short
    } else {
        let name = trim_spec(row_name_text(dom, tds[1]));
        if name.len() == 0 {
            RowOutcomeV::NoName
        } else {
            let stext = texts_in(dom, tds[2] + 1, subtree_end(dom, tds[2]));
            match scan_micros(stext) {
                Option::None => RowOutcomeV::BadScore,
                Option::Some(v) => if abs_int(v) <= MAX_ABS_MICROS {
                    RowOutcomeV::Entry { name, micros: v }
                } else {
                    RowOutcomeV::BadScore
                },
            }
        }
    }
}

/// Result of reading the first `k` rows of the table (the first row is the
/// header and contributes nothing).
pub open spec fn rows_result(dom: Seq<DomNodeV>, rows: Seq<int>, k: int) -> Result<
    (Seq<RawEntryV>, Seq<Warning>),
    RosterError,
>
    decreases k,
{
    if k <= 1 {
        Ok((Seq::empty(), Seq::empty()))
    } else {
        match rows_result(dom, rows, k - 1) {
            Err(e) => Err(e),
            Ok((es, ws)) => match row_outcome(dom, rows[k - 1]) {
                RowOutcomeV::Short => Ok((es, ws.push(Warning::RowTooShort(rows[k - 1] as usize)))),
                RowOutcomeV::NoName => Ok((es, ws.push(Warning::EmptyName(rows[k - 1] as usize)))),
                RowOutcomeV::BadScore => Err(RosterError::Parse),
                RowOutcomeV::Entry { name, micros } => Ok(
                    (es.push(RawEntryV { name, micros }), ws),
                ),
            },
        }
    }
}

/// The rows of the located table: its `tr` descendants, in document
/// order; the first is the header.
pub open spec fn table_rows(dom: Seq<DomNodeV>, loc: TableLocator) -> Seq<int> {
    match locate_table(dom, loc) {
        None => Seq::empty(),
        Some(t) => elems_in(dom, t + 1, subtree_end(dom, t), "tr"@, None),
    }
}

/// What extraction yields on a whole document: the extracted entries and
/// the rows skipped along the way, or the error that rejects the document.
pub open spec fn spec_extract(dom: Seq<DomNodeV>, loc: TableLocator) -> Result<
    (Seq<RawEntryV>, Seq<Warning>),
    RosterError,
> {
    match locate_table(dom, loc) {
        None => Err(RosterError::Structure),
        Some(t) => {
            let rows = table_rows(dom, loc);
            if rows.len() == 0 {
                Err(RosterError::Structure)
            } else {
                match rows_result(dom, rows, rows.len() as int) {
                    Err(e) => Err(e),
                    Ok((es, ws)) => if es.len() == 0 {
                        Err(RosterError::EmptyResult)
                    } else {
                        Ok((es, ws))
                    },
                }
            }
        },
    }
}

/// Every entry a row run yields came from a row whose outcome it is, so
/// its magnitude is within the fixed-point range.
pub proof fn lemma_rows_result_bounds(dom: Seq<DomNodeV>, rows: Seq<int>, k: int)
    ensures
        match rows_result(dom, rows, k) {
            Ok((es, ws)) => forall|j: int|
                0 <= j < es.len() ==> abs_int(#[trigger] es[j].micros) <= MAX_ABS_MICROS,
            Err(e) => true,
        },
    decreases k,
{
    if k > 1 {
        lemma_rows_result_bounds(dom, rows, k - 1);
    }
}

/// Every extracted entry's magnitude is within the fixed-point range.
pub proof fn lemma_extract_bounds(dom: Seq<DomNodeV>, loc: TableLocator)
    ensures
        match spec_extract(dom, loc) {
            Ok((es, ws)) => forall|j: int|
                0 <= j < es.len() ==> abs_int(#[trigger] es[j].micros) <= MAX_ABS_MICROS,
            Err(e) => true,
        },
{
    if spec_extract(dom, loc) is Ok {
        match locate_table(dom, loc) {
            None => {},
            Some(t) => {
                let rows = elems_in(dom, t + 1, subtree_end(dom, t), "tr"@, None);
                lemma_rows_result_bounds(dom, rows, rows.len() as int);
            },
        }
    }
}

/// Whether node `k` of the flattened document is an element with this tag,
/// at this depth if one is asked for.
fn node_matches_exec(dom: &Vec<DomNode>, k: usize, tag: &str, depth: Option<usize>) -> (r: bool)
    requires
        k < dom@.len(),
    ensures
        r == node_matches(
            dom_view(dom@),
            k as int,
            tag@,
            match depth {
                Some(d) => Some(d as int),
                None => None,
            },
        ),
{
    let dep_ok = match depth {
        Some(d) => dom[k].depth == d,
        None => true,
    };
    match &dom[k].data {
        NodeData::Element { tag: t } => dep_ok && str_eq(t.as_str(), tag),
        _ => false,
    }
}

/// End (exclusive) of the subtree rooted at node `i`.
fn subtree_end_exec(dom: &Vec<DomNode>, i: usize) -> (r: usize)
    requires
        i < dom@.len(),
    ensures
        r == subtree_end(dom_view(dom@), i as int),
        i < r <= dom@.len(),
{
    let ghost v = dom_view(dom@);
    let d = dom[i].depth;
    let n = dom.len();
    let mut j: usize = i + 1;
    while j < n && dom[j].depth > d
        invariant
            n == dom@.len(),
            i < j <= n,
            d == dom@[i as int].depth,
            v == dom_view(dom@),
            subtree_end_from(v, d as int, i + 1) == subtree_end_from(v, d as int, j as int),
        decreases n - j,
    {
        j += 1;
    }
    j
}

/// All elements with this tag (and depth) in `[from, end)`, in document
/// order.
fn elems_in_exec(dom: &Vec<DomNode>, from: usize, end: usize, tag: &str, depth: Option<usize>) -> (r:
    Vec<usize>)
    requires
        from <= end <= dom@.len(),
    ensures
        r@.map_values(|u: usize| u as int) == elems_in(
            dom_view(dom@),
            from as int,
            end as int,
            tag@,
            match depth {
                Some(d) => Some(d as int),
                None => None,
            },
        ),
{
    let ghost v = dom_view(dom@);
    let ghost dep = match depth {
        Some(d) => Some(d as int),
        None => None,
    };
    let mut r: Vec<usize> = Vec::new();
    assert(r@.map_values(|u: usize| u as int) =~= elems_in(v, from as int, from as int, tag@, dep));
    for j in from..end
        invariant
            from <= j <= end <= dom@.len(),
            v == dom_view(dom@),
            dep == match depth {
                Some(d) => Some(d as int),
                None => None,
            },
            r@.map_values(|u: usize| u as int) == elems_in(v, from as int, j as int, tag@, dep),
    {
        if node_matches_exec(dom, j, tag, depth) {
            r.push(j);
            assert(r@.map_values(|u: usize| u as int) =~= elems_in(
                v,
                from as int,
                j + 1,
                tag@,
                dep,
            ));
        } else {
            assert(r@.map_values(|u: usize| u as int) =~= elems_in(
                v,
                from as int,
                j + 1,
                tag@,
                dep,
            ));
        }
    }
    r
}

/// First element with this tag (and depth) in `[from, end)`.
fn find_elem_exec(dom: &Vec<DomNode>, from: usize, end: usize, tag: &str, depth: Option<usize>) -> (r:
    Option<usize>)
    requires
        from <= end <= dom@.len(),
    ensures
        ({
            let dep = match depth {
                Some(d) => Some(d as int),
                None => None,
            };
            match r {
                Some(i) => from <= i < end && find_elem(dom_view(dom@), from as int, end as int, tag@, dep)
                    == Some(i as int),
                None => find_elem(dom_view(dom@), from as int, end as int, tag@, dep) is None,
            }
        }),
{
    let ghost v = dom_view(dom@);
    let ghost dep = match depth {
        Some(d) => Some(d as int),
        None => None,
    };
    let mut j: usize = from;
    while j < end
        invariant
            from <= j <= end <= dom@.len(),
            v == dom_view(dom@),
            dep == match depth {
                Some(d) => Some(d as int),
                None => None,
            },
            find_elem(v, from as int, end as int, tag@, dep) == find_elem(
                v,
                j as int,
                end as int,
                tag@,
                dep,
            ),
        decreases end - j,
    {
        if node_matches_exec(dom, j, tag, depth) {
            return Some(j);
        }
        j += 1;
    }
    None
}

/// The concatenated text of the text nodes in `[from, end)`.
fn texts_in_exec(dom: &Vec<DomNode>, from: usize, end: usize) -> (r: String)
    requires
        from <= end <= dom@.len(),
    ensures
        r@ == texts_in(dom_view(dom@), from as int, end as int),
{
    let ghost v = dom_view(dom@);
    let mut r = String::new();
    assert(r@ =~= texts_in(v, from as int, from as int));
    for j in from..end
        invariant
            from <= j <= end <= dom@.len(),
            v == dom_view(dom@),
            r@ == texts_in(v, from as int, j as int),
    {
        match &dom[j].data {
            NodeData::Text { content } => {
                r.append(content.as_str());
            },
            _ => {},
        }
    }
    r
}

/// Where the roster table stands, under the chosen strategy.
fn locate_table_exec(dom: &Vec<DomNode>, loc: TableLocator) -> (r: Option<usize>)
    ensures
        match r {
            Some(t) => locate_table(dom_view(dom@), loc) == Some(t as int) && t < dom@.len(),
            None => locate_table(dom_view(dom@), loc) is None,
        },
{
    let n = dom.len();
    match loc {
        TableLocator::FirstTable => find_elem_exec(dom, 0, n, "table", None),
        TableLocator::ThirdParagraphTable => {
            let b = match find_elem_exec(dom, 0, n, "body", None) {
                Some(b) => b,
                None => {
                    return None;
                },
            };
            let bend = subtree_end_exec(dom, b);
            let ghost dd = dom_view(dom@)[b as int].depth + 1;
            if dom[b].depth >= usize::MAX {
                // depths are bounded by the node count, so this cannot
                // happen on a parsed document; handled to stay total
                proof {
                    assert(dd > usize::MAX);
                    lemma_elems_range(dom_view(dom@), b + 1, bend as int, "p"@, Some(dd));
                    assert(forall|k: int|
                        0 <= k < dom_view(dom@).len() ==> #[trigger] dom_view(dom@)[k].depth
                            <= usize::MAX);
                    assert(elems_in(dom_view(dom@), b + 1, bend as int, "p"@, Some(dd)).len()
                        == 0) by {
                        let es = elems_in(dom_view(dom@), b + 1, bend as int, "p"@, Some(dd));
                        if es.len() > 0 {
                            assert(node_matches(dom_view(dom@), es[0], "p"@, Some(dd)));
                        }
                    }
                }
                return None;
            }
            let ps = elems_in_exec(dom, b + 1, bend, "p", Some(dom[b].depth + 1));
            proof {
                lemma_elems_range(dom_view(dom@), b + 1, bend as int, "p"@, Some(dd));
            }
            if ps.len() < 3 {
                return None;
            }
            let p3 = ps[2];
            assert(ps@.map_values(|u: usize| u as int)[2] == p3 as int);
            let pend = subtree_end_exec(dom, p3);
            find_elem_exec(dom, p3 + 1, pend, "table", None)
        },
    }
}

/// Reads the data row rooted at node `r`.
fn read_row(dom: &Vec<DomNode>, r: usize) -> (out: (Option<RawEntry>, Option<Warning>))
    requires
        r < dom@.len(),
    ensures
        match row_outcome(dom_view(dom@), r as int) {
            RowOutcomeV::Short => out == (
                Option::<RawEntry>::None,
                Some(Warning::RowTooShort(r)),
            ),
            RowOutcomeV::NoName => out == (Option::<RawEntry>::None, Some(Warning::EmptyName(r))),
            RowOutcomeV::BadScore => out == (
                Option::<RawEntry>::None,
                Option::<Warning>::None,
            ),
            RowOutcomeV::Entry { name, micros } => out.1 is None && match out.0 {
                Some(e) => e@ == RawEntryV { name, micros },
                None => false,
            },
        },
{
    let ghost v = dom_view(dom@);
    let rend = subtree_end_exec(dom, r);
    let tds = elems_in_exec(dom, r + 1, rend, "td", None);
    proof {
        lemma_elems_range(v, r + 1, rend as int, "td"@, None);
    }
    if tds.len() < 3 {
        return (None, Some(Warning::RowTooShort(r)));
    }
    let name_td = tds[1];
    assert(tds@.map_values(|u: usize| u as int)[1] == name_td as int);
    let tend = subtree_end_exec(dom, name_td);
    let name_text = match find_elem_exec(dom, name_td + 1, tend, "a", None) {
        Some(a) => {
            let aend = subtree_end_exec(dom, a);
            texts_in_exec(dom, a + 1, aend)
        },
        None => texts_in_exec(dom, name_td + 1, tend),
    };
    let name = trim(name_text.as_str());
    if name.unicode_len() == 0 {
        assert(name@.len() == 0);
        return (None, Some(Warning::EmptyName(r)));
    }
    let score_td = tds[2];
    assert(tds@.map_values(|u: usize| u as int)[2] == score_td as int);
    let send = subtree_end_exec(dom, score_td);
    let stext = texts_in_exec(dom, score_td + 1, send);
    match scan_score(stext.as_str()) {
        Some(micros) => (Some(RawEntry { name, micros }), None),
        None => (None, None),
    }
}

/// If some row rejects the document, reading more rows still rejects it.
proof fn lemma_rows_err_persists(dom: Seq<DomNodeV>, rows: Seq<int>, k1: int, k2: int)
    requires
        k1 <= k2,
        rows_result(dom, rows, k1) is Err,
    ensures
        rows_result(dom, rows, k2) == rows_result(dom, rows, k1),
    decreases k2 - k1,
{
    if k1 < k2 {
        lemma_rows_err_persists(dom, rows, k1, k2 - 1);
    }
}

/// Extracts the data rows of the roster table of a flattened document.
///
/// On success the entries are the usable rows in document order, each with
/// its trimmed raw name and its score in micro-units, together with one
/// warning for each skipped row. The document is rejected with
/// `Structure` when no table is found under the chosen strategy or the
/// table has no rows at all, with `Parse` when a data row with three cells
/// and a name has no usable numeric score token, and with `EmptyResult`
/// when no usable row remains.
#[verifier::loop_isolation(false)]
pub fn extract_rows(dom: &Vec<DomNode>, loc: TableLocator) -> (r: Result<
    (Vec<RawEntry>, Vec<Warning>),
    RosterError,
>)
    ensures
        match r {
            Ok((es, ws)) => spec_extract(dom_view(dom@), loc) == Ok::<
                (Seq<RawEntryV>, Seq<Warning>),
                RosterError,
            >((entries_view(es@), ws@)),
            Err(e) => spec_extract(dom_view(dom@), loc) == Err::<
                (Seq<RawEntryV>, Seq<Warning>),
                RosterError,
            >(e),
        },
{
    let ghost v = dom_view(dom@);
    let t = match locate_table_exec(dom, loc) {
        Some(t) => t,
        None => {
            return Err(RosterError::Structure);
        },
    };
    let tend = subtree_end_exec(dom, t);
    let rows = elems_in_exec(dom, t + 1, tend, "tr", None);
    let ghost rows_i = elems_in(v, t + 1, tend as int, "tr"@, None);
    proof {
        lemma_elems_range(v, t + 1, tend as int, "tr"@, None);
    }
    let nrows = rows.len();
    if nrows == 0 {
        return Err(RosterError::Structure);
    }
    let mut es: Vec<RawEntry> = Vec::new();
    let mut ws: Vec<Warning> = Vec::new();
    let mut k: usize = 1;
    assert(rows_result(v, rows_i, 1) == Ok::<(Seq<RawEntryV>, Seq<Warning>), RosterError>(
        (Seq::empty(), Seq::empty()),
    ));
    assert(entries_view(es@) =~= Seq::<RawEntryV>::empty());
    assert(ws@ =~= Seq::<Warning>::empty());
    while k < nrows
        invariant
            1 <= k <= nrows,
            nrows == rows@.len(),
            rows@.map_values(|u: usize| u as int) == rows_i,
            forall|j: int|
                0 <= j < rows_i.len() ==> 0 <= #[trigger] rows_i[j] && node_matches(
                    v,
                    rows_i[j],
                    "tr"@,
                    None,
                ),
            v == dom_view(dom@),
            rows_result(v, rows_i, k as int) == Ok::<(Seq<RawEntryV>, Seq<Warning>), RosterError>(
                (entries_view(es@), ws@),
            ),
        decreases nrows - k,
    {
        let rr = rows[k];
        assert(rows@.map_values(|u: usize| u as int)[k as int] == rr as int);
        assert(node_matches(v, rr as int, "tr"@, None));
        let ghost es0 = es@;
        let ghost ws0 = ws@;
        let (entry, warn) = read_row(dom, rr);
        match (entry, warn) {
            (Some(e), _) => {
                let ghost ev = e@;
                es.push(e);
                assert(entries_view(es@) =~= entries_view(es0).push(ev));
            },
            (None, Some(w)) => {
                ws.push(w);
                assert(ws@ =~= ws0.push(w));
            },
            (None, None) => {
                proof {
                    assert(rows_result(v, rows_i, k + 1) == Err::<
                        (Seq<RawEntryV>, Seq<Warning>),
                        RosterError,
                    >(RosterError::Parse));
                    lemma_rows_err_persists(v, rows_i, k + 1, rows_i.len() as int);
                }
                return Err(RosterError::Parse);
            },
        }
        assert((rr as int) as usize == rr);
        k += 1;
    }
    if es.len() == 0 {
        return Err(RosterError::EmptyResult);
    }
    Ok((es, ws))
}

} // verus!
