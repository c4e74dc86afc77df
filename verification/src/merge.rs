//! Folding tables together: append the next table's rows to the
//! accumulator, then deduplicate with the keep-first policy. Both the
//! chunk reducer and the global merger are this one fold.
use vstd::prelude::*;
use crate::table::{Table, TableModel, clone_names, clone_row, clone_table, row_eq};
use crate::errors::{ErrorModel, MergeError};
use crate::dedup::{
    dedup_rows, lemma_dedup_membership, lemma_dedup_of_dedup_prefix, unique_keep_first,
};

verus! {

/// Model of one fold step: the next table must have the same column
/// names; its rows are appended and the result deduplicated keep-first.
pub open spec fn extend_model(acc: TableModel, next: TableModel) -> Result<TableModel, ErrorModel> {
    if acc.names != next.names {
        Err(ErrorModel::MergeFailure { expected: acc.names, found: next.names })
    } else {
        Ok(TableModel { names: acc.names, rows: dedup_rows(acc.rows + next.rows) })
    }
}

/// Model of folding a list of tables into an accumulator, left to right.
pub open spec fn fold_from(acc: TableModel, ts: Seq<TableModel>) -> Result<TableModel, ErrorModel>
    decreases ts.len(),
{
    if ts.len() == 0 {
        Ok(acc)
    } else {
        match extend_model(acc, ts[0]) {
            Ok(acc2) => fold_from(acc2, ts.skip(1)),
            Err(e) => Err(e),
        }
    }
}

/// All rows of a list of tables, in order.
pub open spec fn concat_rows(ts: Seq<TableModel>) -> Seq<Seq<Seq<char>>>
    decreases ts.len(),
{
    if ts.len() == 0 {
        Seq::empty()
    } else {
        ts[0].rows + concat_rows(ts.skip(1))
    }
}

/// The model of a result value.
pub open spec fn table_res_model(r: Result<Table, MergeError>) -> Result<TableModel, ErrorModel> {
    match r {
        Ok(t) => Ok(t@),
        Err(e) => Err(e@),
    }
}

/// The fold succeeds exactly when every table carries the accumulator's
/// column names; then the result holds those names and the keep-first
/// deduplication of all rows in order.
pub proof fn lemma_fold_from_characterization(acc: TableModel, ts: Seq<TableModel>)
    ensures
        fold_from(acc, ts) is Ok <==> (forall|i: int| 0 <= i < ts.len() ==> (#[trigger] ts[i]).names
            == acc.names),
        (forall|i: int| 0 <= i < ts.len() ==> (#[trigger] ts[i]).names == acc.names) ==> fold_from(
            acc,
            ts,
        ) == Ok::<TableModel, ErrorModel>(
            TableModel {
                names: acc.names,
                rows: if ts.len() == 0 {
                    acc.rows
                } else {
                    dedup_rows(acc.rows + concat_rows(ts))
                },
            },
        ),
    decreases ts.len(),
{
    if ts.len() == 0 {
    } else {
        if acc.names == ts[0].names {
            let acc2 = TableModel { names: acc.names, rows: dedup_rows(acc.rows + ts[0].rows) };
            assert(extend_model(acc, ts[0]) == Ok::<TableModel, ErrorModel>(acc2));
            lemma_fold_from_characterization(acc2, ts.skip(1));
            assert forall|i: int| 0 <= i < ts.len() implies ((#[trigger] ts[i]).names == acc.names
                <==> (i == 0 || ts.skip(1)[i - 1].names == acc2.names)) by {
                if i > 0 {
                    assert(ts.skip(1)[i - 1] == ts[i]);
                }
            }
            if forall|i: int| 0 <= i < ts.len() ==> (#[trigger] ts[i]).names == acc.names {
                assert(forall|i: int|
                    0 <= i < ts.skip(1).len() ==> (#[trigger] ts.skip(1)[i]).names == acc2.names);
                if ts.len() == 1 {
                    assert(ts.skip(1).len() == 0);
                    assert(concat_rows(ts) =~= ts[0].rows + concat_rows(ts.skip(1)));
                    assert(ts[0].rows + Seq::<Seq<Seq<char>>>::empty() =~= ts[0].rows);
                    assert(fold_from(acc, ts) == Ok::<TableModel, ErrorModel>(acc2));
                } else {
                    lemma_dedup_of_dedup_prefix(acc.rows + ts[0].rows, concat_rows(ts.skip(1)));
                    assert(dedup_rows(acc2.rows + concat_rows(ts.skip(1))) == dedup_rows(
                        (acc.rows + ts[0].rows) + concat_rows(ts.skip(1)),
                    ));
                    assert((acc.rows + ts[0].rows) + concat_rows(ts.skip(1)) =~= acc.rows
                        + concat_rows(ts));
                }
            } else {
                if ts[0].names == acc.names {
                    if fold_from(acc, ts) is Ok {
                        let j = choose|j: int|
                            0 <= j < ts.len() && (#[trigger] ts[j]).names != acc.names;
                        assert(ts.skip(1)[j - 1].names != acc2.names);
                        assert(!(fold_from(acc2, ts.skip(1)) is Ok));
                    }
                }
            }
        } else {
            assert(!(fold_from(acc, ts) is Ok));
            assert(ts[0].names != acc.names);
        }
    }
}

/// Append `next`'s rows to `acc` and deduplicate keep-first; the column
/// names must agree, else the fold fails.
pub fn extend_dedup(acc: &Table, next: &Table) -> (r: Result<Table, MergeError>)
    ensures
        table_res_model(r) == extend_model(acc@, next@),
        acc.wf() && next.wf() && r is Ok ==> r.unwrap().wf(),
{
    if !row_eq(&acc.names, &next.names) {
        return Err(
            MergeError::MergeFailure {
                expected: clone_names(&acc.names),
                found: clone_names(&next.names),
            },
        );
    }
    let mut combined: Vec<Vec<String>> = Vec::new();
    let mut i: usize = 0;
    while i < acc.rows.len()
        invariant
            i <= acc.rows@.len(),
            combined@.len() == i,
            acc.rows.deep_view().len() == acc.rows@.len(),
            combined.deep_view() == acc.rows.deep_view().take(i as int),
        decreases acc.rows@.len() - i,
    {
        let c = clone_row(&acc.rows[i]);
        proof {
            assert(acc.rows@[i as int].deep_view() == acc.rows.deep_view()[i as int]);
        }
        combined.push(c);
        proof {
            assert(combined.deep_view() =~= acc.rows.deep_view().take(i + 1));
        }
        i += 1;
    }
    let mut j: usize = 0;
    while j < next.rows.len()
        invariant
            j <= next.rows@.len(),
            combined@.len() == acc.rows@.len() + j,
            acc.rows.deep_view().len() == acc.rows@.len(),
            next.rows.deep_view().len() == next.rows@.len(),
            combined.deep_view() == (acc.rows.deep_view() + next.rows.deep_view()).take(
                acc.rows@.len() + j,
            ),
        decreases next.rows@.len() - j,
    {
        let c = clone_row(&next.rows[j]);
        proof {
            assert(next.rows@[j as int].deep_view() == next.rows.deep_view()[j as int]);
        }
        combined.push(c);
        proof {
            assert((acc.rows.deep_view() + next.rows.deep_view())[acc.rows@.len() + j]
                == next.rows.deep_view()[j as int]);
            assert(combined.deep_view() =~= (acc.rows.deep_view() + next.rows.deep_view()).take(
                acc.rows@.len() + j + 1,
            ));
        }
        j += 1;
    }
    proof {
        assert((acc.rows.deep_view() + next.rows.deep_view()).take(
            acc.rows@.len() + next.rows@.len() as int,
        ) =~= acc.rows.deep_view() + next.rows.deep_view());
    }
    let rows = unique_keep_first(&combined);
    let names = clone_names(&acc.names);
    let out = Table { names, rows };
    proof {
        assert(out@ =~= TableModel {
            names: acc@.names,
            rows: dedup_rows(acc@.rows + next@.rows),
        });
        if acc.wf() && next.wf() {
            lemma_dedup_membership(combined.deep_view());
            assert forall|k: int| 0 <= k < out@.rows.len() implies (#[trigger] out@.rows[k]).len()
                == out@.names.len() by {
                assert(out@.rows.contains(out@.rows[k]));
                let m = choose|m: int|
                    0 <= m < combined.deep_view().len() && combined.deep_view()[m] == out@.rows[k];
                if m < acc.rows@.len() {
                    assert(combined.deep_view()[m] == acc@.rows[m]);
                } else {
                    assert(combined.deep_view()[m] == next@.rows[m - acc.rows@.len()]);
                }
            }
        }
    }
    Ok(out)
}

/// The global merger and the chunk reducer: seed with the first table,
/// then fold each later table in with `extend_dedup`.
pub fn merge_tables(tables: &Vec<Table>) -> (r: Result<Table, MergeError>)
    requires
        tables@.len() >= 1,
    ensures
        table_res_model(r) == fold_from(tables@[0]@, tables.deep_view().skip(1)),
        (forall|i: int| 0 <= i < tables@.len() ==> #[trigger] tables@[i].wf()) && r is Ok
            ==> r.unwrap().wf(),
{
    let mut acc = clone_table(&tables[0]);
    let ghost all = tables.deep_view();
    let mut i: usize = 1;
    proof {
        assert(all.skip(1).skip(0) =~= all.skip(1));
        assert(tables@[0].wf() ==> acc.wf());
    }
    while i < tables.len()
        invariant
            1 <= i <= tables@.len(),
            all == tables.deep_view(),
            all.len() == tables@.len(),
            fold_from(tables@[0]@, all.skip(1)) == fold_from(acc@, all.skip(i as int)),
            (forall|k: int| 0 <= k < tables@.len() ==> #[trigger] tables@[k].wf()) ==> acc.wf(),
        decreases tables@.len() - i,
    {
        let next = &tables[i];
        proof {
            assert(all.skip(i as int)[0] == tables@[i as int]@);
            assert(all.skip(i as int).len() > 0);
        }
        match extend_dedup(&acc, next) {
            Ok(a2) => {
                proof {
                    assert(all.skip(i as int).skip(1) =~= all.skip(i + 1));
                }
                acc = a2;
            },
            Err(e) => {
                proof {
                    assert(fold_from(acc@, all.skip(i as int)) == Err::<TableModel, ErrorModel>(e@));
                }
                return Err(e);
            },
        }
        i += 1;
    }
    proof {
        assert(all.skip(tables@.len() as int).len() == 0);
    }
    Ok(acc)
}

} // verus!
