//! Column projection: restrict a table to a requested subset of columns,
//! kept in the table's own column order, failing loudly when a requested
//! column is absent.
use vstd::prelude::*;
use crate::table::{Table, TableModel, clone_names};
use crate::errors::{ErrorModel, MergeError};
use crate::merge::table_res_model;

verus! {

/// Project one positionally aligned sequence (a row, or the names
/// themselves): keep exactly the positions whose column name is in the
/// requested set, in the original order.
pub open spec fn proj_seq(
    xs: Seq<Seq<char>>,
    names: Seq<Seq<char>>,
    sel: Seq<Seq<char>>,
) -> Seq<Seq<char>>
    decreases names.len(),
{
    if names.len() == 0 || xs.len() == 0 {
        Seq::empty()
    } else {
        (if sel.contains(names[0]) {
            seq![xs[0]]
        } else {
            Seq::empty()
        }) + proj_seq(xs.skip(1), names.skip(1), sel)
    }
}

/// Model of projection: with any requested column missing the run fails,
/// reporting the missing names in request order and all available names;
/// otherwise exactly the requested columns survive, in table order.
pub open spec fn project_model(t: TableModel, sel: Seq<Seq<char>>, path: Seq<char>) -> Result<
    TableModel,
    ErrorModel,
> {
    if exists|j: int| 0 <= j < sel.len() && !t.names.contains(#[trigger] sel[j]) {
        Err(
            ErrorModel::MissingColumn {
                path,
                missing: sel.filter(|s: Seq<char>| !t.names.contains(s)),
                available: t.names,
            },
        )
    } else {
        Ok(
            TableModel {
                names: proj_seq(t.names, t.names, sel),
                rows: Seq::new(t.rows.len(), |i: int| proj_seq(t.rows[i], t.names, sel)),
            },
        )
    }
}

/// The projected names are exactly the names that are both present and
/// requested, still without duplicates.
pub proof fn lemma_proj_names(names: Seq<Seq<char>>, sel: Seq<Seq<char>>)
    requires
        names.no_duplicates(),
    ensures
        forall|x: Seq<char>| #[trigger] proj_seq(names, names, sel).contains(x) <==> (
        names.contains(x) && sel.contains(x)),
        proj_seq(names, names, sel).no_duplicates(),
    decreases names.len(),
{
    if names.len() == 0 {
    } else {
        let tail = names.skip(1);
        assert(tail.no_duplicates());
        lemma_proj_names(tail, sel);
        let p = proj_seq(names, names, sel);
        let pt = proj_seq(tail, tail, sel);
        assert(p == (if sel.contains(names[0]) {
            seq![names[0]]
        } else {
            Seq::<Seq<char>>::empty()
        }) + pt);
        assert forall|x: Seq<char>| #[trigger] p.contains(x) implies (names.contains(x)
            && sel.contains(x)) by {
            let k = choose|k: int| 0 <= k < p.len() && p[k] == x;
            if sel.contains(names[0]) {
                if k == 0 {
                    assert(names.contains(names[0]));
                } else {
                    assert(pt[k - 1] == x);
                    assert(pt.contains(x));
                    let m = choose|m: int| 0 <= m < tail.len() && tail[m] == x;
                    assert(names[m + 1] == x);
                }
            } else {
                assert(pt[k] == x);
                assert(pt.contains(x));
                let m = choose|m: int| 0 <= m < tail.len() && tail[m] == x;
                assert(names[m + 1] == x);
            }
        }
        assert forall|x: Seq<char>| names.contains(x) && sel.contains(x) implies #[trigger] p
            .contains(x) by {
            let k = choose|k: int| 0 <= k < names.len() && names[k] == x;
            if k == 0 {
                assert(p[0] == x);
            } else {
                assert(tail[k - 1] == x);
                assert(tail.contains(x));
                assert(pt.contains(x));
                let m = choose|m: int| 0 <= m < pt.len() && pt[m] == x;
                if sel.contains(names[0]) {
                    assert(p[m + 1] == x);
                } else {
                    assert(p[m] == x);
                }
            }
        }
        assert forall|a: int, b: int| 0 <= a < b < p.len() implies p[a] != p[b] by {
            if sel.contains(names[0]) {
                if a == 0 {
                    assert(p[b] == pt[b - 1]);
                    assert(pt.contains(pt[b - 1]));
                    if pt[b - 1] == names[0] {
                        let m = choose|m: int| 0 <= m < tail.len() && tail[m] == names[0];
                        assert(names[m + 1] == names[0]);
                    }
                } else {
                    assert(p[a] == pt[a - 1] && p[b] == pt[b - 1]);
                }
            } else {
                assert(p[a] == pt[a] && p[b] == pt[b]);
            }
        }
    }
}

/// A row projects to as many values as the names do.
pub proof fn lemma_proj_len(xs: Seq<Seq<char>>, names: Seq<Seq<char>>, sel: Seq<Seq<char>>)
    requires
        xs.len() == names.len(),
    ensures
        proj_seq(xs, names, sel).len() == proj_seq(names, names, sel).len(),
    decreases names.len(),
{
    if names.len() == 0 {
    } else {
        lemma_proj_len(xs.skip(1), names.skip(1), sel);
        lemma_proj_len(names.skip(1), names.skip(1), sel);
    }
}

/// Whether a name stands in the list.
pub fn contains_name(names: &Vec<String>, s: &String) -> (found: bool)
    ensures
        found == names.deep_view().contains(s@),
{
    let mut i: usize = 0;
    while i < names.len()
        invariant
            i <= names@.len(),
            forall|k: int| 0 <= k < i ==> names.deep_view()[k] != s@,
        decreases names@.len() - i,
    {
        if names[i].eq(s) {
            proof {
                assert(names.deep_view()[i as int] == s@);
            }
            return true;
        }
        proof {
            assert(names@[i as int]@ == names.deep_view()[i as int]);
        }
        i += 1;
    }
    proof {
        if names.deep_view().contains(s@) {
            let k = choose|k: int| 0 <= k < names.deep_view().len() && names.deep_view()[k] == s@;
            assert(names.deep_view()[k] != s@);
        }
    }
    false
}

/// One filter step: pushing an element onto a sequence extends the filter
/// result by that element exactly when the predicate holds of it.
pub proof fn lemma_filter_push<A>(s: Seq<A>, pred: spec_fn(A) -> bool, x: A)
    ensures
        s.push(x).filter(pred) == s.filter(pred) + (if pred(x) {
            seq![x]
        } else {
            Seq::<A>::empty()
        }),
{
    reveal(Seq::filter);
    assert(s.push(x).drop_last() =~= s);
    assert(s.push(x).last() == x);
    if pred(x) {
        assert(s.filter(pred).push(x) =~= s.filter(pred) + seq![x]);
    } else {
        assert(s.filter(pred) =~= s.filter(pred) + Seq::<A>::empty());
    }
}

/// Whatever the filter keeps came from the sequence.
pub proof fn lemma_filter_membership<A>(s: Seq<A>, pred: spec_fn(A) -> bool)
    ensures
        forall|i: int|
            0 <= i < s.filter(pred).len() ==> s.contains(#[trigger] s.filter(pred)[i]),
    decreases s.len(),
{
    reveal(Seq::filter);
    if s.len() == 0 {
    } else {
        let dl = s.drop_last();
        lemma_filter_membership(dl, pred);
        assert forall|i: int|
            0 <= i < s.filter(pred).len() implies s.contains(#[trigger] s.filter(pred)[i]) by {
            if i < dl.filter(pred).len() {
                assert(dl.filter(pred)[i] == s.filter(pred)[i]);
                assert(dl.contains(dl.filter(pred)[i]));
                let k = choose|k: int| 0 <= k < dl.len() && dl[k] == dl.filter(pred)[i];
                assert(s[k] == s.filter(pred)[i]);
            } else {
                assert(s.filter(pred)[i] == s.last());
                assert(s[s.len() - 1] == s.last());
            }
        }
    }
}

/// A filter whose predicate holds everywhere keeps everything.
pub proof fn lemma_filter_all<A>(s: Seq<A>, pred: spec_fn(A) -> bool)
    requires
        forall|i: int| 0 <= i < s.len() ==> pred(#[trigger] s[i]),
    ensures
        s.filter(pred) == s,
    decreases s.len(),
{
    reveal(Seq::filter);
    if s.len() == 0 {
        assert(s.filter(pred) =~= s);
    } else {
        let dl = s.drop_last();
        assert(forall|i: int| 0 <= i < dl.len() ==> pred(#[trigger] dl[i]));
        lemma_filter_all(dl, pred);
        assert(pred(s.last()));
        assert(dl.push(s.last()) =~= s);
    }
}

/// Project one value list (a row, or the names themselves) by the
/// precomputed keep flags.
fn project_vals(
    xs: &Vec<String>,
    keep: &Vec<bool>,
    Ghost(names): Ghost<Seq<Seq<char>>>,
    Ghost(sel): Ghost<Seq<Seq<char>>>,
) -> (out: Vec<String>)
    requires
        keep@.len() == names.len(),
        xs@.len() == names.len(),
        forall|k: int| 0 <= k < names.len() ==> keep@[k] == sel.contains(#[trigger] names[k]),
    ensures
        out.deep_view() == proj_seq(xs.deep_view(), names, sel),
{
    let mut out: Vec<String> = Vec::new();
    let mut k: usize = 0;
    proof {
        assert(xs.deep_view().skip(0) =~= xs.deep_view());
        assert(names.skip(0) =~= names);
        assert(Seq::<Seq<char>>::empty() + proj_seq(xs.deep_view(), names, sel) =~= proj_seq(
            xs.deep_view(),
            names,
            sel,
        ));
    }
    while k < xs.len()
        invariant
            k <= names.len(),
            xs.deep_view().len() == xs@.len() == names.len(),
            keep@.len() == names.len(),
            forall|m: int| 0 <= m < names.len() ==> keep@[m] == sel.contains(#[trigger] names[m]),
            proj_seq(xs.deep_view(), names, sel) == out.deep_view() + proj_seq(
                xs.deep_view().skip(k as int),
                names.skip(k as int),
                sel,
            ),
        decreases xs@.len() - k,
    {
        proof {
            assert(xs.deep_view().skip(k as int)[0] == xs.deep_view()[k as int]);
            assert(names.skip(k as int)[0] == names[k as int]);
            assert(xs.deep_view().skip(k as int).skip(1) =~= xs.deep_view().skip(k + 1));
            assert(names.skip(k as int).skip(1) =~= names.skip(k + 1));
        }
        if keep[k] {
            let ghost prev = out.deep_view();
            let v = xs[k].clone();
            proof {
                assert(xs@[k as int]@ == xs.deep_view()[k as int]);
            }
            out.push(v);
            proof {
                assert(out.deep_view() =~= prev.push(xs.deep_view()[k as int]));
                assert((prev + seq![xs.deep_view()[k as int]]) + proj_seq(
                    xs.deep_view().skip(k + 1),
                    names.skip(k + 1),
                    sel,
                ) =~= prev.push(xs.deep_view()[k as int]) + proj_seq(
                    xs.deep_view().skip(k + 1),
                    names.skip(k + 1),
                    sel,
                ));
                assert(prev + (seq![xs.deep_view()[k as int]] + proj_seq(
                    xs.deep_view().skip(k + 1),
                    names.skip(k + 1),
                    sel,
                )) =~= (prev + seq![xs.deep_view()[k as int]]) + proj_seq(
                    xs.deep_view().skip(k + 1),
                    names.skip(k + 1),
                    sel,
                ));
            }
        } else {
            proof {
                assert(out.deep_view() + (Seq::<Seq<char>>::empty() + proj_seq(
                    xs.deep_view().skip(k + 1),
                    names.skip(k + 1),
                    sel,
                )) =~= out.deep_view() + proj_seq(xs.deep_view().skip(k + 1), names.skip(k + 1), sel));
            }
        }
        k += 1;
    }
    proof {
        assert(xs.deep_view().skip(names.len() as int) =~= Seq::<Seq<char>>::empty());
        assert(names.skip(names.len() as int) =~= Seq::<Seq<char>>::empty());
        assert(out.deep_view() + Seq::<Seq<char>>::empty() =~= out.deep_view());
    }
    out
}

/// Restrict the table to the requested columns, kept in the table's own
/// column order. If any requested column is absent the whole run fails,
/// reporting the missing and the available names.
pub fn project(t: &Table, select: &Vec<String>, path: &str) -> (r: Result<Table, MergeError>)
    requires
        t.wf(),
        select@.len() >= 1,
    ensures
        table_res_model(r) == project_model(t@, select.deep_view(), path@),
        r is Ok ==> r.unwrap().wf(),
{
    let ghost sel = select.deep_view();
    let ghost names = t@.names;
    // Collect the requested names that are absent, in request order.
    let mut missing: Vec<String> = Vec::new();
    let mut i: usize = 0;
    proof {
        assert(sel.take(0) =~= Seq::<Seq<char>>::empty());
        reveal(Seq::filter);
    }
    while i < select.len()
        invariant
            i <= select@.len(),
            sel == select.deep_view(),
            names == t@.names,
            sel.len() == select@.len(),
            missing.deep_view() == sel.take(i as int).filter(
                |s: Seq<char>| !names.contains(s),
            ),
        decreases select@.len() - i,
    {
        let present = contains_name(&t.names, &select[i]);
        proof {
            assert(select@[i as int]@ == sel[i as int]);
            assert(sel.take(i + 1) =~= sel.take(i as int).push(sel[i as int]));
            lemma_filter_push(sel.take(i as int), |s: Seq<char>| !names.contains(s), sel[i as int]);
        }
        if !present {
            let ghost prev = missing.deep_view();
            let m = select[i].clone();
            missing.push(m);
            proof {
                assert(missing.deep_view() =~= prev.push(sel[i as int]));
                assert(prev.push(sel[i as int]) =~= prev + seq![sel[i as int]]);
            }
        } else {
            proof {
                assert(missing.deep_view() + Seq::<Seq<char>>::empty() =~= missing.deep_view());
            }
        }
        i += 1;
    }
    proof {
        assert(sel.take(sel.len() as int) =~= sel);
    }
    if missing.len() > 0 {
        proof {
            sel.filter_lemma(|s: Seq<char>| !names.contains(s));
            lemma_filter_membership(sel, |s: Seq<char>| !names.contains(s));
            let x = sel.filter(|s: Seq<char>| !names.contains(s))[0];
            assert(!names.contains(x));
            assert(sel.contains(x));
            let j = choose|j: int| 0 <= j < sel.len() && sel[j] == x;
            assert(!names.contains(sel[j]));
        }
        return Err(
            MergeError::MissingColumn {
                path: path.to_owned(),
                missing,
                available: clone_names(&t.names),
            },
        );
    }
    proof {
        assert forall|j: int| 0 <= j < sel.len() implies names.contains(#[trigger] sel[j]) by {
            sel.filter_lemma(|s: Seq<char>| !names.contains(s));
            if !names.contains(sel[j]) {
                assert(sel.filter(|s: Seq<char>| !names.contains(s)).contains(sel[j]));
            }
        }
    }
    // Precompute, for each column, whether it is requested.
    let mut keep: Vec<bool> = Vec::new();
    let mut k: usize = 0;
    while k < t.names.len()
        invariant
            k <= t.names@.len(),
            names == t@.names,
            names.len() == t.names@.len(),
            sel == select.deep_view(),
            keep@.len() == k,
            forall|m: int| 0 <= m < k ==> keep@[m] == sel.contains(#[trigger] names[m]),
        decreases t.names@.len() - k,
    {
        let p = contains_name(select, &t.names[k]);
        proof {
            assert(t.names@[k as int]@ == names[k as int]);
        }
        keep.push(p);
        k += 1;
    }
    let new_names = project_vals(&t.names, &keep, Ghost(names), Ghost(sel));
    let mut new_rows: Vec<Vec<String>> = Vec::new();
    let mut j: usize = 0;
    while j < t.rows.len()
        invariant
            j <= t.rows@.len(),
            t.wf(),
            names == t@.names,
            names.len() == t.names@.len(),
            sel == select.deep_view(),
            keep@.len() == names.len(),
            forall|m: int| 0 <= m < names.len() ==> keep@[m] == sel.contains(#[trigger] names[m]),
            new_rows.deep_view() == Seq::new(j as nat, |m: int| proj_seq(t@.rows[m], names, sel)),
        decreases t.rows@.len() - j,
    {
        proof {
            assert(t@.rows[j as int].len() == names.len());
            assert(t.rows@[j as int].deep_view() == t@.rows[j as int]);
        }
        let pr = project_vals(&t.rows[j], &keep, Ghost(names), Ghost(sel));
        let ghost prev = new_rows.deep_view();
        let ghost prd = pr.deep_view();
        new_rows.push(pr);
        proof {
            assert(new_rows.deep_view() =~= prev.push(prd));
            assert(prev.push(prd) =~= Seq::new(
                (j + 1) as nat,
                |m: int| proj_seq(t@.rows[m], names, sel),
            ));
        }
        j += 1;
    }
    let out = Table { names: new_names, rows: new_rows };
    proof {
        assert(out@ =~= project_model(t@, sel, path@)->Ok_0);
        lemma_proj_names(names, sel);
        assert(names.contains(sel[0]) && sel.contains(sel[0]));
        assert(out@.names.contains(sel[0]));
        assert forall|m: int| 0 <= m < out@.rows.len() implies (#[trigger] out@.rows[m]).len()
            == out@.names.len() by {
            lemma_proj_len(t@.rows[m], names, sel);
        }
    }
    Ok(out)
}

} // verus!
