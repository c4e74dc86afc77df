//! The in-memory table: an ordered list of named columns, stored row-major,
//! every row exactly one value per column, column names unique.
use vstd::prelude::*;

verus! {

/// Mathematical model of a table: column names and rows, all as
/// sequences of characters.
#[verifier::ext_equal]
pub struct TableModel {
    pub names: Seq<Seq<char>>,
    pub rows: Seq<Seq<Seq<char>>>,
}

/// An in-memory table. `names` holds the column names in output order;
/// `rows` holds the data row-major, each row positionally aligned with
/// `names`.
pub struct Table {
    pub names: Vec<String>,
    pub rows: Vec<Vec<String>>,
}

impl View for Table {
    type V = TableModel;

    open spec fn view(&self) -> TableModel {
        TableModel { names: self.names.deep_view(), rows: self.rows.deep_view() }
    }
}

impl DeepView for Table {
    type V = TableModel;

    open spec fn deep_view(&self) -> TableModel {
        self.view()
    }
}

impl TableModel {
    /// Well-formedness: at least one column, unique column names, and
    /// every row has exactly one value per column.
    pub open spec fn wf(self) -> bool {
        &&& self.names.len() >= 1
        &&& (forall|i: int, j: int|
            0 <= i < j < self.names.len() ==> self.names[i] != self.names[j])
        &&& (forall|i: int|
            0 <= i < self.rows.len() ==> (#[trigger] self.rows[i]).len() == self.names.len())
    }
}

impl Table {
    pub open spec fn wf(&self) -> bool {
        self@.wf()
    }
}

/// Whether two rows hold the same values.
pub fn row_eq(a: &Vec<String>, b: &Vec<String>) -> (r: bool)
    ensures
        r == (a.deep_view() == b.deep_view()),
{
    if a.len() != b.len() {
        assert(a.deep_view().len() == a@.len());
        assert(b.deep_view().len() == b@.len());
        return false;
    }
    let n = a.len();
    let mut i: usize = 0;
    while i < n
        invariant
            n == a@.len() == b@.len(),
            i <= n,
            forall|k: int| 0 <= k < i ==> a.deep_view()[k] == b.deep_view()[k],
        decreases n - i,
    {
        if !(a[i] == b[i]) {
            assert(a.deep_view()[i as int] != b.deep_view()[i as int]);
            return false;
        }
        i += 1;
    }
    proof {
        assert(a.deep_view() =~= b.deep_view());
    }
    true
}

/// A copy of a row with the same values.
pub fn clone_row(r: &Vec<String>) -> (c: Vec<String>)
    ensures
        c.deep_view() == r.deep_view(),
{
    let mut c: Vec<String> = Vec::new();
    let mut i: usize = 0;
    while i < r.len()
        invariant
            i <= r@.len(),
            c@.len() == i,
            forall|k: int| 0 <= k < i ==> c.deep_view()[k] == r.deep_view()[k],
        decreases r@.len() - i,
    {
        c.push(r[i].clone());
        i += 1;
    }
    proof {
        assert(c.deep_view() =~= r.deep_view());
    }
    c
}

/// A copy of a table with the same names and rows.
pub fn clone_table(t: &Table) -> (c: Table)
    ensures
        c@ == t@,
{
    let names = clone_names(&t.names);
    let mut rows: Vec<Vec<String>> = Vec::new();
    let mut j: usize = 0;
    while j < t.rows.len()
        invariant
            j <= t.rows@.len(),
            rows@.len() == j,
            rows.deep_view() == t.rows.deep_view().take(j as int),
        decreases t.rows@.len() - j,
    {
        let r = clone_row(&t.rows[j]);
        proof {
            assert(t.rows[j as int].deep_view() == t.rows.deep_view()[j as int]);
        }
        rows.push(r);
        proof {
            assert(rows.deep_view() =~= t.rows.deep_view().take(j + 1));
        }
        j += 1;
    }
    let c = Table { names, rows };
    proof {
        assert(c.rows.deep_view() =~= t.rows.deep_view());
        assert(c@ =~= t@);
    }
    c
}

/// A copy of a list of strings with the same values.
pub fn clone_names(ns: &Vec<String>) -> (c: Vec<String>)
    ensures
        c.deep_view() == ns.deep_view(),
{
    clone_row(ns)
}

} // verus!
