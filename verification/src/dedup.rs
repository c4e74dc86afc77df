//! Keep-first deduplication of rows: for each distinct row-value tuple the
//! earliest occurrence survives, in its original position relative to the
//! other survivors.
use vstd::prelude::*;
use crate::table::{Table, clone_names, clone_row, row_eq};

verus! {

/// Keep-first deduplication of a sequence of rows, as a mathematical
/// function: scan left to right, keep a row only if no equal row came
/// before it.
pub open spec fn dedup_rows(rows: Seq<Seq<Seq<char>>>) -> Seq<Seq<Seq<char>>>
    decreases rows.len(),
{
    if rows.len() == 0 {
        Seq::empty()
    } else {
        let d = dedup_rows(rows.drop_last());
        if d.contains(rows.last()) {
            d
        } else {
            d.push(rows.last())
        }
    }
}

/// A row value survives deduplication exactly when it occurs in the input.
pub proof fn lemma_dedup_membership(rows: Seq<Seq<Seq<char>>>)
    ensures
        forall|x: Seq<Seq<char>>| #[trigger] dedup_rows(rows).contains(x) <==> rows.contains(x),
    decreases rows.len(),
{
    if rows.len() == 0 {
    } else {
        let prefix = rows.drop_last();
        let e = rows.last();
        let d = dedup_rows(prefix);
        lemma_dedup_membership(prefix);
        assert forall|x: Seq<Seq<char>>| #[trigger] dedup_rows(rows).contains(x) implies rows.contains(x) by {
            if d.contains(x) {
                let k = choose|k: int| 0 <= k < prefix.len() && prefix[k] == x;
                assert(rows[k] == x);
            } else {
                assert(dedup_rows(rows) == d.push(e));
                let k = choose|k: int| 0 <= k < d.push(e).len() && d.push(e)[k] == x;
                if k < d.len() {
                    assert(d.contains(x));
                } else {
                    assert(rows[rows.len() - 1] == x);
                }
            }
        }
        assert forall|x: Seq<Seq<char>>| rows.contains(x) implies #[trigger] dedup_rows(rows).contains(x) by {
            let k = choose|k: int| 0 <= k < rows.len() && rows[k] == x;
            if k < rows.len() - 1 {
                assert(prefix[k] == x);
                assert(prefix.contains(x));
                assert(d.contains(x));
                if !d.contains(e) {
                    let m = choose|m: int| 0 <= m < d.len() && d[m] == x;
                    assert(d.push(e)[m] == x);
                }
            } else {
                assert(x == e);
                if d.contains(e) {
                } else {
                    assert(d.push(e)[d.len() as int] == e);
                }
            }
        }
    }
}

/// Deduplication leaves no two equal rows behind.
pub proof fn lemma_dedup_no_duplicates(rows: Seq<Seq<Seq<char>>>)
    ensures
        dedup_rows(rows).no_duplicates(),
    decreases rows.len(),
{
    if rows.len() == 0 {
    } else {
        let prefix = rows.drop_last();
        let e = rows.last();
        let d = dedup_rows(prefix);
        lemma_dedup_no_duplicates(prefix);
        if !d.contains(e) {
            assert forall|i: int, j: int|
                0 <= i < d.push(e).len() && 0 <= j < d.push(e).len() && i != j
                implies d.push(e)[i] != d.push(e)[j] by {
                if i < d.len() && j < d.len() {
                } else if j == d.len() {
                    assert(d.push(e)[i] == d[i]);
                    if d[i] == e {
                        assert(d.contains(e));
                    }
                } else {
                    assert(d.push(e)[j] == d[j]);
                    if d[j] == e {
                        assert(d.contains(e));
                    }
                }
            }
        }
    }
}

/// Deduplicating a sequence without duplicates gives it back unchanged.
pub proof fn lemma_dedup_of_distinct_identity(rows: Seq<Seq<Seq<char>>>)
    requires
        rows.no_duplicates(),
    ensures
        dedup_rows(rows) == rows,
    decreases rows.len(),
{
    if rows.len() == 0 {
        assert(dedup_rows(rows) =~= rows);
    } else {
        let prefix = rows.drop_last();
        let e = rows.last();
        assert(prefix.no_duplicates());
        lemma_dedup_of_distinct_identity(prefix);
        if prefix.contains(e) {
            let k = choose|k: int| 0 <= k < prefix.len() && prefix[k] == e;
            assert(rows[k] == rows[rows.len() - 1]);
            assert(false);
        }
        assert(dedup_rows(rows) == prefix.push(e));
        assert(prefix.push(e) =~= rows);
    }
}

/// Deduplicating twice is the same as deduplicating once.
pub proof fn lemma_dedup_idempotent(rows: Seq<Seq<Seq<char>>>)
    ensures
        dedup_rows(dedup_rows(rows)) == dedup_rows(rows),
{
    lemma_dedup_no_duplicates(rows);
    lemma_dedup_of_distinct_identity(dedup_rows(rows));
}

/// Two sequences with the same deduplication still agree after both are
/// extended by the same rows.
pub proof fn lemma_dedup_extend_eq(x1: Seq<Seq<Seq<char>>>, x2: Seq<Seq<Seq<char>>>, y: Seq<Seq<Seq<char>>>)
    requires
        dedup_rows(x1) == dedup_rows(x2),
    ensures
        dedup_rows(x1 + y) == dedup_rows(x2 + y),
    decreases y.len(),
{
    if y.len() == 0 {
        assert(x1 + y =~= x1);
        assert(x2 + y =~= x2);
    } else {
        let y2 = y.drop_last();
        let e = y.last();
        lemma_dedup_extend_eq(x1, x2, y2);
        assert(x1 + y =~= (x1 + y2).push(e));
        assert(x2 + y =~= (x2 + y2).push(e));
        assert((x1 + y2).push(e).drop_last() =~= x1 + y2);
        assert((x2 + y2).push(e).drop_last() =~= x2 + y2);
    }
}

/// Deduplicating a prefix early does not change the final result.
pub proof fn lemma_dedup_of_dedup_prefix(x: Seq<Seq<Seq<char>>>, y: Seq<Seq<Seq<char>>>)
    ensures
        dedup_rows(dedup_rows(x) + y) == dedup_rows(x + y),
{
    lemma_dedup_idempotent(x);
    lemma_dedup_extend_eq(dedup_rows(x), x, y);
}

/// Deduplicating an appended suffix early does not change the final result.
pub proof fn lemma_dedup_of_dedup_suffix(x: Seq<Seq<Seq<char>>>, y: Seq<Seq<Seq<char>>>)
    ensures
        dedup_rows(x + dedup_rows(y)) == dedup_rows(x + y),
    decreases y.len(),
{
    if y.len() == 0 {
        assert(dedup_rows(y) =~= y);
    } else {
        let y2 = y.drop_last();
        let e = y.last();
        let d = dedup_rows(y2);
        lemma_dedup_of_dedup_suffix(x, y2);
        lemma_dedup_membership(y2);
        lemma_dedup_membership(x + y2);
        lemma_dedup_membership(x + dedup_rows(y2));
        assert(x + y =~= (x + y2).push(e));
        assert((x + y2).push(e).drop_last() =~= x + y2);
        if d.contains(e) {
            assert(dedup_rows(y) == d);
            assert(y2.contains(e));
            let k = choose|k: int| 0 <= k < y2.len() && y2[k] == e;
            assert((x + y2)[x.len() + k] == e);
            assert((x + y2).contains(e));
            assert(dedup_rows((x + y2).push(e)) == dedup_rows(x + y2));
        } else {
            assert(dedup_rows(y) == d.push(e));
            assert(x + dedup_rows(y) =~= (x + d).push(e));
            assert((x + d).push(e).drop_last() =~= x + d);
            if (x + y2).contains(e) {
                let k = choose|k: int| 0 <= k < (x + y2).len() && (x + y2)[k] == e;
                if k < x.len() {
                    assert((x + d)[k] == e);
                    assert((x + d).contains(e));
                } else {
                    assert(y2[k - x.len()] == e);
                    assert(y2.contains(e));
                    assert(false);
                }
                assert(dedup_rows(x + dedup_rows(y)) == dedup_rows(x + d));
                assert(dedup_rows(x + y) == dedup_rows(x + y2));
            } else {
                if (x + d).contains(e) {
                    let k = choose|k: int| 0 <= k < (x + d).len() && (x + d)[k] == e;
                    if k < x.len() {
                        assert((x + y2)[k] == e);
                        assert(false);
                    } else {
                        assert(d[k - x.len()] == e);
                        assert(false);
                    }
                }
                assert(dedup_rows(x + dedup_rows(y)) == dedup_rows(x + d).push(e));
                assert(dedup_rows(x + y) == dedup_rows(x + y2).push(e));
            }
        }
    }
}

/// Position `i` holds the first occurrence of its row value: no equal row
/// stands anywhere before it.
pub open spec fn first_occ_at(rows: Seq<Seq<Seq<char>>>, i: int) -> bool {
    0 <= i < rows.len() && forall|k: int| 0 <= k < i ==> rows[k] != rows[i]
}

/// The position of the first occurrence of row value `x`.
pub open spec fn first_index_of(rows: Seq<Seq<Seq<char>>>, x: Seq<Seq<char>>) -> int {
    choose|i: int| first_occ_at(rows, i) && rows[i] == x
}

/// For a row value that occurs at all, `first_index_of` names the one
/// position that is a first occurrence of it.
pub proof fn lemma_first_index_of(rows: Seq<Seq<Seq<char>>>, x: Seq<Seq<char>>)
    requires
        rows.contains(x),
    ensures
        first_occ_at(rows, first_index_of(rows, x)),
        rows[first_index_of(rows, x)] == x,
        forall|i: int| first_occ_at(rows, i) && rows[i] == x ==> i == first_index_of(rows, x),
{
    rows.index_of_first_ensures(x);
    let w = rows.index_of_first(x).unwrap();
    assert(first_occ_at(rows, w) && rows[w] == x);
    let c = first_index_of(rows, x);
    assert(first_occ_at(rows, c) && rows[c] == x);
    assert forall|i: int| first_occ_at(rows, i) && rows[i] == x implies i == c by {
        if i < c {
            assert(rows[i] != rows[c]);
        } else if c < i {
            assert(rows[c] != rows[i]);
        }
    }
}

/// Keep-first invariant: the rows that survive deduplication are exactly
/// the first occurrences of the distinct row values, and they come out in
/// the order of those first occurrences.
pub proof fn lemma_dedup_keep_first(rows: Seq<Seq<Seq<char>>>)
    ensures
        dedup_rows(rows).no_duplicates(),
        forall|x: Seq<Seq<char>>| #[trigger] dedup_rows(rows).contains(x) <==> rows.contains(x),
        forall|j: int|
            0 <= j < dedup_rows(rows).len() ==> first_occ_at(
                rows,
                first_index_of(rows, #[trigger] dedup_rows(rows)[j]),
            ) && rows[first_index_of(rows, dedup_rows(rows)[j])] == dedup_rows(rows)[j],
        forall|j1: int, j2: int|
            0 <= j1 < j2 < dedup_rows(rows).len() ==> first_index_of(
                rows,
                #[trigger] dedup_rows(rows)[j1],
            ) < first_index_of(rows, #[trigger] dedup_rows(rows)[j2]),
    decreases rows.len(),
{
    lemma_dedup_no_duplicates(rows);
    lemma_dedup_membership(rows);
    if rows.len() == 0 {
    } else {
        let prefix = rows.drop_last();
        let e = rows.last();
        let d = dedup_rows(prefix);
        lemma_dedup_keep_first(prefix);
        lemma_dedup_membership(prefix);
        // A first occurrence within the prefix is a first occurrence in the
        // whole, at the same position.
        assert forall|x: Seq<Seq<char>>| prefix.contains(x) implies first_index_of(rows, x)
            == first_index_of(prefix, x) && rows.contains(x) && first_occ_at(
            rows,
            first_index_of(rows, x),
        ) && rows[first_index_of(rows, x)] == x by {
            lemma_first_index_of(prefix, x);
            let i = first_index_of(prefix, x);
            assert(rows[i] == prefix[i]);
            assert(rows.contains(x));
            lemma_first_index_of(rows, x);
            assert forall|k: int| 0 <= k < i implies rows[k] != rows[i] by {
                assert(prefix[k] != prefix[i]);
            }
            assert(first_occ_at(rows, i));
        }
        assert forall|j: int| 0 <= j < d.len() implies prefix.contains(d[j]) by {
            assert(d.contains(d[j]));
        }
        if d.contains(e) {
            assert(dedup_rows(rows) == d);
        } else {
            assert(dedup_rows(rows) == d.push(e));
            assert(!prefix.contains(e));
            // The appended row's first occurrence is the last position.
            assert(rows[rows.len() - 1] == e);
            assert(rows.contains(e));
            lemma_first_index_of(rows, e);
            assert forall|k: int| 0 <= k < rows.len() - 1 implies rows[k] != e by {
                assert(prefix[k] == rows[k]);
                if rows[k] == e {
                    assert(prefix.contains(e));
                }
            }
            assert(first_occ_at(rows, rows.len() - 1));
            assert(first_index_of(rows, e) == rows.len() - 1);
            assert forall|j: int| 0 <= j < d.len() implies first_index_of(rows, d.push(e)[j])
                < rows.len() - 1 by {
                assert(d.push(e)[j] == d[j]);
                lemma_first_index_of(prefix, d[j]);
                assert(first_index_of(prefix, d[j]) < prefix.len());
            }
        }
    }
}

/// Whether a list of rows holds a row with the given values.
pub fn rows_contain(rows: &Vec<Vec<String>>, r: &Vec<String>) -> (found: bool)
    ensures
        found == rows.deep_view().contains(r.deep_view()),
{
    let mut i: usize = 0;
    while i < rows.len()
        invariant
            i <= rows@.len(),
            forall|k: int| 0 <= k < i ==> rows.deep_view()[k] != r.deep_view(),
        decreases rows@.len() - i,
    {
        if row_eq(&rows[i], r) {
            proof {
                assert(rows.deep_view()[i as int] == r.deep_view());
            }
            return true;
        }
        proof {
            assert(rows.deep_view()[i as int] == rows@[i as int].deep_view());
        }
        i += 1;
    }
    proof {
        if rows.deep_view().contains(r.deep_view()) {
            let k = choose|k: int| 0 <= k < rows.deep_view().len() && rows.deep_view()[k] == r.deep_view();
            assert(rows.deep_view()[k] != r.deep_view());
        }
    }
    false
}

/// Keep-first deduplication of rows, keeping for each distinct row-value
/// tuple the first occurrence in the given order.
pub fn unique_keep_first(rows: &Vec<Vec<String>>) -> (out: Vec<Vec<String>>)
    ensures
        out.deep_view() == dedup_rows(rows.deep_view()),
{
    let mut out: Vec<Vec<String>> = Vec::new();
    let mut i: usize = 0;
    while i < rows.len()
        invariant
            i <= rows@.len(),
            out.deep_view() == dedup_rows(rows.deep_view().take(i as int)),
        decreases rows@.len() - i,
    {
        let r = &rows[i];
        proof {
            assert(rows.deep_view().take(i + 1).drop_last() =~= rows.deep_view().take(i as int));
            assert(rows.deep_view().take(i + 1).last() == rows.deep_view()[i as int]);
            assert(rows@[i as int].deep_view() == rows.deep_view()[i as int]);
        }
        if !rows_contain(&out, r) {
            let c = clone_row(r);
            out.push(c);
            proof {
                assert(out.deep_view() =~= dedup_rows(rows.deep_view().take(i as int)).push(
                    rows.deep_view()[i as int]));
            }
        }
        i += 1;
    }
    proof {
        assert(rows.deep_view().take(rows.deep_view().len() as int) =~= rows.deep_view());
    }
    out
}

/// Keep-first deduplication of a whole table: the column names stay as
/// they are, the rows are deduplicated.
pub fn dedup_table(t: &Table) -> (out: Table)
    ensures
        out@.names == t@.names,
        out@.rows == dedup_rows(t@.rows),
        t.wf() ==> out.wf(),
{
    let names = clone_names(&t.names);
    let rows = unique_keep_first(&t.rows);
    proof {
        lemma_dedup_membership(t@.rows);
        if t.wf() {
            assert forall|i: int| 0 <= i < dedup_rows(t@.rows).len()
                implies (#[trigger] dedup_rows(t@.rows)[i]).len() == t@.names.len() by {
                assert(dedup_rows(t@.rows).contains(dedup_rows(t@.rows)[i]));
                let k = choose|k: int| 0 <= k < t@.rows.len() && t@.rows[k] == dedup_rows(t@.rows)[i];
            }
        }
    }
    Table { names, rows }
}

} // verus!
