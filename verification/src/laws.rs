//! The library's general laws, stated and proved once and for all.
//!
//! Each proof function here is part of the library's stated behavior; the
//! laws that are single-function properties stand as `ensures` clauses of
//! the functions themselves (`add_file`'s replacement semantics,
//! `rankings`' sort order).
use vstd::prelude::*;

use crate::dom::DomNodeV;
use crate::extract::{
    locate_table, row_outcome, rows_result, spec_extract, table_rows, TableLocator,
};
use crate::num::{std_micros, STD_SCALE};
use crate::store::{
    avg_spec, file_wf, find_label_from, lemma_find_label_props, lemma_qmax_is_max,
    lemma_rank_antisym, lemma_rank_total, rank_leq, ranking_sorted, scores_of, spec_add, sum_seq,
    FileResultV, RankEntryV,
};

verus! {

proof fn lemma_rows_all_entries(dom: Seq<DomNodeV>, rows: Seq<int>, k: int)
    requires
        k <= rows.len(),
        forall|t: int| 1 <= t < k ==> row_outcome(dom, #[trigger] rows[t]) is Entry,
    ensures
        match rows_result(dom, rows, k) {
            Ok((es, ws)) => es.len() == if k <= 1 {
                0
            } else {
                k - 1
            } && ws.len() == 0,
            Err(_) => false,
        },
    decreases k,
{
    if k > 1 {
        lemma_rows_all_entries(dom, rows, k - 1);
    }
}

/// On a well-formed table — one whose data rows each have at least three
/// cells, a non-empty trimmed name and a usable score token, which is what
/// a row outcome of `Entry` says — extraction succeeds and yields exactly
/// one entry per data row, the header row contributing nothing.
pub proof fn lemma_extractor_counts_rows(dom: Seq<DomNodeV>, loc: TableLocator)
    requires
        locate_table(dom, loc) is Some,
        table_rows(dom, loc).len() >= 2,
        forall|k: int|
            1 <= k < table_rows(dom, loc).len() ==> row_outcome(
                dom,
                #[trigger] table_rows(dom, loc)[k],
            ) is Entry,
    ensures
        match spec_extract(dom, loc) {
            Ok((es, ws)) => es.len() == table_rows(dom, loc).len() - 1 && ws.len() == 0,
            Err(_) => false,
        },
{
    let rows = table_rows(dom, loc);
    lemma_rows_all_entries(dom, rows, rows.len() as int);
}

/// The qualifying maximum of a stored file is the largest raw score among
/// its (non-ignored) entries, some entry attains it, and every entry that
/// attains it has a standardized score of exactly 100 points — or of zero
/// in the degenerate case of a zero maximum.
pub proof fn lemma_qualifying_max_law(f: FileResultV)
    requires
        file_wf(f),
    ensures
        forall|e: int| 0 <= e < f.entries.len() ==> (#[trigger] f.entries[e]).raw <= f.qmax,
        exists|e: int| 0 <= e < f.entries.len() && (#[trigger] f.entries[e]).raw == f.qmax,
        forall|e: int|
            0 <= e < f.entries.len() && (#[trigger] f.entries[e]).raw == f.qmax ==> std_micros(
                f.entries[e].raw,
                f.qmax,
            ) == if f.qmax == 0 {
                0
            } else {
                STD_SCALE as int
            },
{
    lemma_qmax_is_max(f.entries);
    assert forall|e: int|
        0 <= e < f.entries.len() && (#[trigger] f.entries[e]).raw == f.qmax implies std_micros(
        f.entries[e].raw,
        f.qmax,
    ) == if f.qmax == 0 {
        0
    } else {
        STD_SCALE as int
    } by {
        if f.qmax != 0 {
            crate::num::lemma_std_of_max(f.qmax);
        }
    }
}

/// Taking one element out of a sum leaves the sum of the rest.
pub proof fn lemma_sum_remove(s: Seq<int>, i: int)
    requires
        0 <= i < s.len(),
    ensures
        sum_seq(s) == sum_seq(s.remove(i)) + s[i],
    decreases s.len(),
{
    if i == s.len() - 1 {
        assert(s.remove(i) =~= s.drop_last());
    } else {
        let d = s.drop_last();
        lemma_sum_remove(d, i);
        assert(s.remove(i).drop_last() =~= d.remove(i));
        assert(s.remove(i).last() == s.last());
    }
}

/// Two sequences holding the same multiset of values have the same sum.
pub proof fn lemma_sum_multiset(a: Seq<int>, b: Seq<int>)
    requires
        a.to_multiset() == b.to_multiset(),
    ensures
        sum_seq(a) == sum_seq(b),
    decreases a.len(),
{
    a.to_multiset_ensures();
    b.to_multiset_ensures();
    if a.len() > 0 {
        let x = a.last();
        assert(a.to_multiset().count(x) > 0) by {
            assert(a.contains(x)) by {
                assert(a[a.len() - 1] == x);
            }
        }
        assert(b.contains(x));
        let i = choose|i: int| 0 <= i < b.len() && b[i] == x;
        let a1 = a.drop_last();
        let b1 = b.remove(i);
        a1.to_multiset_ensures();
        assert(a =~= a1.push(x));
        assert(a.to_multiset() =~= a1.to_multiset().insert(x));
        assert(a1.to_multiset() =~= a.to_multiset().remove(x));
        assert(b1.to_multiset() =~= b.to_multiset().remove(x));
        lemma_sum_multiset(a1, b1);
        lemma_sum_remove(b, i);
    } else {
        assert(b.len() == 0);
    }
}

/// An identity's average standardized score depends only on the multiset
/// of its standardized scores over the files that hold it — the order of
/// the files, and anything about the files that do not hold it, does not
/// matter.
pub proof fn lemma_avg_depends_on_multiset(
    files1: Seq<FileResultV>,
    files2: Seq<FileResultV>,
    id: Seq<char>,
)
    requires
        scores_of(files1, id).to_multiset() == scores_of(files2, id).to_multiset(),
    ensures
        avg_spec(files1, id) == avg_spec(files2, id),
{
    let a = scores_of(files1, id);
    let b = scores_of(files2, id);
    a.to_multiset_ensures();
    b.to_multiset_ensures();
    assert(a.len() == b.len());
    lemma_sum_multiset(a, b);
}

/// The ranked summary is reproducible: of rankings holding the same
/// lines, only one is sorted by the ranking order, since equal averages
/// are broken deterministically by the identity.
pub proof fn lemma_ranking_deterministic(s1: Seq<RankEntryV>, s2: Seq<RankEntryV>)
    requires
        ranking_sorted(s1),
        ranking_sorted(s2),
        s1.to_multiset() == s2.to_multiset(),
    ensures
        s1 == s2,
    decreases s1.len(),
{
    s1.to_multiset_ensures();
    s2.to_multiset_ensures();
    if s1.len() == 0 {
        assert(s2.len() == 0);
        assert(s1 =~= s2);
    } else {
        let x = s1[0];
        let y = s2[0];
        assert(s1.contains(x) && s2.contains(y));
        assert(s2.to_multiset().count(x) > 0);
        assert(s1.to_multiset().count(y) > 0);
        let i = choose|i: int| 0 <= i < s2.len() && s2[i] == x;
        let j = choose|j: int| 0 <= j < s1.len() && s1[j] == y;
        assert(rank_leq(y, x)) by {
            if i > 0 {
                assert(rank_leq(s2[0], s2[i]));
            } else {
                lemma_rank_total(y, x);
                if !rank_leq(y, x) {
                    lemma_rank_antisym(x, y);
                }
            }
        }
        assert(rank_leq(x, y)) by {
            if j > 0 {
                assert(rank_leq(s1[0], s1[j]));
            } else {
                lemma_rank_total(x, y);
                if !rank_leq(x, y) {
                    lemma_rank_antisym(y, x);
                }
            }
        }
        lemma_rank_antisym(x, y);
        let t1 = s1.drop_first();
        let t2 = s2.drop_first();
        assert(t1 =~= s1.remove(0));
        assert(t2 =~= s2.remove(0));
        assert(t1.to_multiset() == s1.to_multiset().remove(x));
        assert(t2.to_multiset() == s2.to_multiset().remove(x));
        assert(ranking_sorted(t1)) by {
            assert(forall|p: int, q: int|
                0 <= p < q < t1.len() ==> t1[p] == s1[p + 1] && t1[q] == s1[q + 1]);
        }
        assert(ranking_sorted(t2)) by {
            assert(forall|p: int, q: int|
                0 <= p < q < t2.len() ==> t2[p] == s2[p + 1] && t2[q] == s2[q + 1]);
        }
        lemma_ranking_deterministic(t1, t2);
        assert(s1 =~= s2) by {
            assert(forall|k: int| 1 <= k < s1.len() ==> s1[k] == t1[k - 1] && s2[k] == t2[k - 1]);
        }
    }
}

/// Adding a document under a label that is already stored replaces that
/// file's result in place: the file order keeps its length and its
/// labels. Under a fresh label the result is appended and the earlier
/// files stand unchanged.
pub proof fn lemma_add_file_order(files: Seq<FileResultV>, fr: FileResultV)
    ensures
        match find_label_from(files, 0, fr.label) {
            Some(_) => spec_add(files, fr).len() == files.len() && forall|k: int|
                0 <= k < files.len() ==> (#[trigger] spec_add(files, fr)[k]).label
                    == files[k].label,
            None => spec_add(files, fr).len() == files.len() + 1 && forall|k: int|
                0 <= k < files.len() ==> #[trigger] spec_add(files, fr)[k] == files[k],
        },
{
    lemma_find_label_props(files, 0, fr.label);
}

} // verus!
