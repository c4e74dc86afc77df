//! Header normalization and provenance tagging, applied right after a
//! file is loaded so that every later stage sees canonical column names.
use vstd::prelude::*;
use crate::table::{Table, TableModel, clone_row};
use crate::text::{chars_to_string, remove_all, remove_occurrences, to_chars};

verus! {

/// A column name with every `.` character stripped: such characters are
/// disallowed by downstream consumers.
pub open spec fn strip_dots(s: Seq<char>) -> Seq<char>
    decreases s.len(),
{
    if s.len() == 0 {
        s
    } else if s[0] == '.' {
        strip_dots(s.skip(1))
    } else {
        seq![s[0]] + strip_dots(s.skip(1))
    }
}

/// Strip every `.` from one column name.
pub fn normalize_name(s: &str) -> (out: String)
    ensures
        out@ == strip_dots(s@),
{
    let v = to_chars(s);
    let mut out: Vec<char> = Vec::new();
    let mut i: usize = 0;
    proof {
        assert(v@.skip(0) =~= v@);
        assert(Seq::<char>::empty() + strip_dots(v@) =~= strip_dots(v@));
    }
    while i < v.len()
        invariant
            v@ == s@,
            i <= v@.len(),
            strip_dots(s@) == out@ + strip_dots(v@.skip(i as int)),
        decreases v@.len() - i,
    {
        proof {
            assert(v@.skip(i as int)[0] == v@[i as int]);
            assert(v@.skip(i as int).skip(1) =~= v@.skip(i + 1));
        }
        let c = v[i];
        if c != '.' {
            proof {
                assert((out@ + seq![v@[i as int]]) + strip_dots(v@.skip(i + 1)) =~= out@ + (
                seq![v@[i as int]] + strip_dots(v@.skip(i + 1))));
            }
            out.push(c);
        }
        i += 1;
    }
    proof {
        assert(v@.skip(v@.len() as int) =~= Seq::<char>::empty());
        assert(out@ + Seq::<char>::empty() =~= out@);
    }
    chars_to_string(&out)
}

/// All column names with their `.` characters stripped, in order.
pub fn normalize_names(names: &Vec<String>) -> (out: Vec<String>)
    ensures
        out.deep_view() == names.deep_view().map_values(|n: Seq<char>| strip_dots(n)),
{
    let mut out: Vec<String> = Vec::new();
    let mut i: usize = 0;
    while i < names.len()
        invariant
            i <= names@.len(),
            out@.len() == i,
            out.deep_view() == names.deep_view().take(i as int).map_values(
                |n: Seq<char>| strip_dots(n),
            ),
        decreases names@.len() - i,
    {
        let s = normalize_name(names[i].as_str());
        proof {
            assert(names@[i as int]@ == names.deep_view()[i as int]);
        }
        let ghost prev = out.deep_view();
        let ghost sd = s@;
        out.push(s);
        proof {
            assert(out.deep_view() =~= prev.push(sd));
            assert(prev.push(sd) =~= names.deep_view().take(i + 1).map_values(
                |n: Seq<char>| strip_dots(n),
            ));
        }
        i += 1;
    }
    proof {
        assert(names.deep_view().take(names@.len() as int) =~= names.deep_view());
    }
    out
}

/// Whether all names are distinct.
pub fn names_unique(names: &Vec<String>) -> (b: bool)
    ensures
        b == names.deep_view().no_duplicates(),
{
    let n = names.len();
    let mut i: usize = 0;
    while i < n
        invariant
            n == names@.len(),
            i <= n,
            forall|p: int, q: int|
                0 <= p < q < n && p < i ==> names.deep_view()[p] != names.deep_view()[q],
        decreases n - i,
    {
        let mut j: usize = i + 1;
        while j < n
            invariant
                n == names@.len(),
                i < j || i + 1 == j,
                i < n,
                i + 1 <= j <= n,
                forall|q: int| i < q < j ==> names.deep_view()[i as int] != names.deep_view()[q],
            decreases n - j,
        {
            if names[i] == names[j] {
                proof {
                    assert(names.deep_view()[i as int] == names.deep_view()[j as int]);
                }
                return false;
            }
            proof {
                assert(names@[i as int]@ == names.deep_view()[i as int]);
                assert(names@[j as int]@ == names.deep_view()[j as int]);
            }
            j += 1;
        }
        i += 1;
    }
    proof {
        assert(names.deep_view().no_duplicates());
    }
    true
}

/// The experiment tag derived from a file name: every `-transcripts` and
/// every `-tpms.tsv` removed.
pub open spec fn tag_of(name: Seq<char>) -> Seq<char> {
    remove_all(remove_all(name, "-transcripts"@), "-tpms.tsv"@)
}

/// Derive the experiment tag from a file name.
pub fn experiment_tag(name: &str) -> (out: String)
    ensures
        out@ == tag_of(name@),
{
    proof {
        reveal_strlit("-transcripts");
        reveal_strlit("-tpms.tsv");
    }
    let step = remove_occurrences(name, "-transcripts");
    remove_occurrences(step.as_str(), "-tpms.tsv")
}

/// The name of the provenance column.
pub open spec fn experiment_column() -> Seq<char> {
    "experiment"@
}

/// The position of the one column with the given name.
pub open spec fn column_index(names: Seq<Seq<char>>, name: Seq<char>) -> int {
    choose|k: int| 0 <= k < names.len() && names[k] == name
}

/// Model of provenance tagging: if a column named `experiment` already
/// exists its values are replaced by the tag, otherwise such a column is
/// appended, holding the tag in every row.
pub open spec fn provenance_model(t: TableModel, tag: Seq<char>) -> TableModel {
    if t.names.contains(experiment_column()) {
        let k = column_index(t.names, experiment_column());
        TableModel {
            names: t.names,
            rows: Seq::new(t.rows.len(), |i: int| t.rows[i].update(k, tag)),
        }
    } else {
        TableModel {
            names: t.names.push(experiment_column()),
            rows: Seq::new(t.rows.len(), |i: int| t.rows[i].push(tag)),
        }
    }
}

/// Tag every row of the table with the experiment the file stands for.
pub fn with_provenance(t: Table, tag: &str) -> (out: Table)
    requires
        t.wf(),
    ensures
        out@ == provenance_model(t@, tag@),
        out.wf(),
{
    let ghost tm = t@;
    let e: String = "experiment".to_owned();
    proof {
        assert(e@ == experiment_column());
    }
    let mut found: Option<usize> = None;
    let mut k: usize = 0;
    while k < t.names.len()
        invariant
            k <= t.names@.len(),
            t.names.deep_view().len() == t.names@.len(),
            e@ == experiment_column(),
            found is None ==> forall|m: int|
                0 <= m < k ==> t.names.deep_view()[m] != experiment_column(),
            match found {
                Some(f) => 0 <= f < t.names@.len() && t.names.deep_view()[f as int]
                    == experiment_column(),
                None => true,
            },
        decreases t.names@.len() - k,
    {
        if found.is_none() && t.names[k] == e {
            proof {
                assert(t.names.deep_view()[k as int] == experiment_column());
            }
            found = Some(k);
        }
        proof {
            assert(t.names@[k as int]@ == t.names.deep_view()[k as int]);
        }
        k += 1;
    }
    match found {
        Some(f) => {
            proof {
                assert(tm.names.contains(experiment_column()));
                assert forall|m: int|
                    0 <= m < tm.names.len() && tm.names[m] == experiment_column() implies m
                    == f as int by {
                    if m != f as int {
                        assert(tm.names[m] != tm.names[f as int]);
                    }
                }
                assert(column_index(tm.names, experiment_column()) == f as int);
            }
            let mut rows: Vec<Vec<String>> = Vec::new();
            let mut i: usize = 0;
            let names = t.names;
            let old_rows = t.rows;
            while i < old_rows.len()
                invariant
                    tm.wf(),
                    i <= old_rows@.len(),
                    rows@.len() == i,
                    tm.rows == old_rows.deep_view(),
                    (f as int) < tm.names.len(),
                    rows.deep_view() == Seq::new(
                        i as nat,
                        |m: int| tm.rows[m].update(f as int, tag@),
                    ),
                decreases old_rows@.len() - i,
            {
                proof {
                    assert(tm.rows[i as int].len() == tm.names.len());
                }
                let mut r = clone_row(&old_rows[i]);
                proof {
                    assert(old_rows@[i as int].deep_view() == tm.rows[i as int]);
                    assert(r@.len() == r.deep_view().len());
                }
                let tv: String = tag.to_owned();
                r[f] = tv;
                proof {
                    assert(r.deep_view() =~= tm.rows[i as int].update(f as int, tag@));
                }
                let ghost prev = rows.deep_view();
                let ghost rd = r.deep_view();
                rows.push(r);
                proof {
                    assert(rows.deep_view() =~= prev.push(rd));
                    assert(prev.push(rd) =~= Seq::new(
                        (i + 1) as nat,
                        |m: int| tm.rows[m].update(f as int, tag@),
                    ));
                }
                i += 1;
            }
            let out = Table { names, rows };
            proof {
                assert(out@.rows =~= provenance_model(tm, tag@).rows);
                assert(out@ =~= provenance_model(tm, tag@));
            }
            out
        },
        None => {
            proof {
                if tm.names.contains(experiment_column()) {
                    let m = choose|m: int|
                        0 <= m < tm.names.len() && tm.names[m] == experiment_column();
                    assert(t.names.deep_view()[m] != experiment_column());
                }
            }
            let mut names = t.names;
            names.push(e);
            let mut rows: Vec<Vec<String>> = Vec::new();
            let mut i: usize = 0;
            let old_rows = t.rows;
            while i < old_rows.len()
                invariant
                    tm.wf(),
                    i <= old_rows@.len(),
                    rows@.len() == i,
                    tm.rows == old_rows.deep_view(),
                    rows.deep_view() == Seq::new(i as nat, |m: int| tm.rows[m].push(tag@)),
                decreases old_rows@.len() - i,
            {
                let mut r = clone_row(&old_rows[i]);
                proof {
                    assert(old_rows@[i as int].deep_view() == tm.rows[i as int]);
                }
                let tv: String = tag.to_owned();
                r.push(tv);
                proof {
                    assert(r.deep_view() =~= tm.rows[i as int].push(tag@));
                }
                let ghost prev = rows.deep_view();
                let ghost rd = r.deep_view();
                rows.push(r);
                proof {
                    assert(rows.deep_view() =~= prev.push(rd));
                    assert(prev.push(rd) =~= Seq::new((i + 1) as nat, |m: int| tm.rows[m].push(tag@)));
                }
                i += 1;
            }
            let out = Table { names, rows };
            proof {
                assert(out@.names =~= provenance_model(tm, tag@).names);
                assert(out@.rows =~= provenance_model(tm, tag@).rows);
                assert(out@ =~= provenance_model(tm, tag@));
                assert forall|p: int, q: int|
                    0 <= p < q < out@.names.len() implies out@.names[p] != out@.names[q] by {
                    if q < tm.names.len() {
                    } else {
                        assert(out@.names[q] == experiment_column());
                        if tm.names[p] == experiment_column() {
                            assert(tm.names.contains(experiment_column()));
                        }
                    }
                }
            }
            out
        },
    }
}

} // verus!
