//! The consolidation pipeline: input files are partitioned into
//! bounded-size batches; each batch streams through loading, header
//! normalization, provenance tagging and projection, and is folded into
//! one deduplicated table; the batch tables are folded into the final
//! table by the same keep-first fold.
use vstd::prelude::*;
use crate::table::{Table, TableModel};
use crate::errors::{ErrorModel, MergeError};
use crate::codec::{parse_content, parse_model};
use crate::headers::{
    names_unique, normalize_names, experiment_tag, provenance_model, strip_dots, tag_of,
    with_provenance,
};
use crate::merge::{fold_from, merge_tables, table_res_model};
use crate::project::{project, project_model};
use crate::text::to_chars;

verus! {

/// Mathematical model of one input: its (base) file name and its textual
/// content.
pub struct FileModel {
    pub name: Seq<char>,
    pub content: Seq<char>,
}

/// One input file, already read: its (base) file name, from which the
/// delimiter and the experiment tag are derived, and its content.
pub struct InputFile {
    pub name: String,
    pub content: String,
}

impl View for InputFile {
    type V = FileModel;

    open spec fn view(&self) -> FileModel {
        FileModel { name: self.name@, content: self.content@ }
    }
}

impl DeepView for InputFile {
    type V = FileModel;

    open spec fn deep_view(&self) -> FileModel {
        self.view()
    }
}

/// The field delimiter a file name calls for: tab for a `.tsv` file,
/// comma for anything else.
pub open spec fn delim_of(name: Seq<char>) -> char {
    if name.len() >= 4 && name.subrange(name.len() - 4, name.len() as int) == ".tsv"@ {
        '\t'
    } else {
        ','
    }
}

/// Pick the delimiter from the file name.
pub fn delim_for(name: &str) -> (d: char)
    ensures
        d == delim_of(name@),
{
    let v = to_chars(name);
    proof {
        reveal_strlit(".tsv");
    }
    let n = v.len();
    if n >= 4 && v[n - 4] == '.' && v[n - 3] == 't' && v[n - 2] == 's' && v[n - 1] == 'v' {
        proof {
            assert(name@.subrange(name@.len() - 4, name@.len() as int) =~= ".tsv"@);
        }
        '\t'
    } else {
        proof {
            if name@.len() >= 4 && name@.subrange(name@.len() - 4, name@.len() as int) == ".tsv"@ {
                assert(name@.subrange(name@.len() - 4, name@.len() as int)[0] == name@[name@.len()
                    - 4]);
                assert(name@.subrange(name@.len() - 4, name@.len() as int)[1] == name@[name@.len()
                    - 3]);
                assert(name@.subrange(name@.len() - 4, name@.len() as int)[2] == name@[name@.len()
                    - 2]);
                assert(name@.subrange(name@.len() - 4, name@.len() as int)[3] == name@[name@.len()
                    - 1]);
            }
        }
        ','
    }
}

/// Model of loading one file: parse it with the delimiter its name calls
/// for, strip `.` from the column names (duplicate names after stripping
/// are malformed), tag every row with the file's experiment, and project
/// to the requested columns.
pub open spec fn load_model(f: FileModel, sel: Seq<Seq<char>>) -> Result<TableModel, ErrorModel> {
    match parse_model(f.content, delim_of(f.name), f.name) {
        Err(e) => Err(e),
        Ok(t0) => {
            let names2 = t0.names.map_values(|n: Seq<char>| strip_dots(n));
            if !names2.no_duplicates() {
                Err(ErrorModel::MalformedInput { path: f.name })
            } else {
                project_model(
                    provenance_model(TableModel { names: names2, rows: t0.rows }, tag_of(f.name)),
                    sel,
                    f.name,
                )
            }
        },
    }
}

/// Load one file and project it to the requested columns.
pub fn load_and_project(file: &InputFile, select: &Vec<String>) -> (r: Result<Table, MergeError>)
    requires
        select@.len() >= 1,
    ensures
        table_res_model(r) == load_model(file@, select.deep_view()),
        r is Ok ==> r.unwrap().wf(),
{
    let d = delim_for(file.name.as_str());
    match parse_content(file.content.as_str(), d, file.name.as_str()) {
        Err(e) => Err(e),
        Ok(t0) => {
            let names2 = normalize_names(&t0.names);
            if !names_unique(&names2) {
                return Err(MergeError::MalformedInput { path: file.name.clone() });
            }
            let t1 = Table { names: names2, rows: t0.rows };
            proof {
                assert(t1@.names.len() == t0@.names.len());
                assert(t1.wf());
            }
            let tag = experiment_tag(file.name.as_str());
            let t2 = with_provenance(t1, tag.as_str());
            project(&t2, select, file.name.as_str())
        },
    }
}

/// Folding a list of tables: the first seeds the accumulator, every later
/// one is appended and deduplicated. An empty list cannot be folded.
pub open spec fn fold_tables(ts: Seq<TableModel>) -> Result<TableModel, ErrorModel> {
    if ts.len() == 0 {
        Err(ErrorModel::MergeFailure { expected: Seq::empty(), found: Seq::empty() })
    } else {
        fold_from(ts[0], ts.skip(1))
    }
}

/// Model of loading a list of files, failing at the first file that
/// cannot be loaded or projected.
pub open spec fn loads_model(fs: Seq<FileModel>, sel: Seq<Seq<char>>) -> Result<
    Seq<TableModel>,
    ErrorModel,
>
    decreases fs.len(),
{
    if fs.len() == 0 {
        Ok(Seq::empty())
    } else {
        match load_model(fs[0], sel) {
            Err(e) => Err(e),
            Ok(t) => match loads_model(fs.skip(1), sel) {
                Err(e) => Err(e),
                Ok(ts) => Ok(seq![t] + ts),
            },
        }
    }
}

/// Model of one batch: load every file of the batch, then fold the
/// projected tables into one deduplicated table.
pub open spec fn batch_model(fs: Seq<FileModel>, sel: Seq<Seq<char>>) -> Result<
    TableModel,
    ErrorModel,
> {
    match loads_model(fs, sel) {
        Err(e) => Err(e),
        Ok(ts) => fold_tables(ts),
    }
}

/// Model of processing all batches in order: the files are partitioned
/// into consecutive batches of at most `c` files each.
pub open spec fn run_batches(fs: Seq<FileModel>, sel: Seq<Seq<char>>, c: int) -> Result<
    Seq<TableModel>,
    ErrorModel,
>
    decreases fs.len() when c >= 1
{
    if fs.len() == 0 {
        Ok(Seq::empty())
    } else {
        let k = if c <= fs.len() {
            c
        } else {
            fs.len() as int
        };
        match batch_model(fs.take(k), sel) {
            Err(e) => Err(e),
            Ok(t) => match run_batches(fs.skip(k), sel, c) {
                Err(e) => Err(e),
                Ok(ts) => Ok(seq![t] + ts),
            },
        }
    }
}

/// Model of the whole run: no input files means nothing processed and no
/// output table; otherwise every batch is reduced and the batch tables
/// are folded into the final table.
pub open spec fn run_model(fs: Seq<FileModel>, sel: Seq<Seq<char>>, c: int) -> Result<
    Option<TableModel>,
    ErrorModel,
> {
    if fs.len() == 0 {
        Ok(None)
    } else {
        match run_batches(fs, sel, c) {
            Err(e) => Err(e),
            Ok(bts) => match fold_tables(bts) {
                Err(e) => Err(e),
                Ok(t) => Ok(Some(t)),
            },
        }
    }
}

/// The tables the files load to, assuming every load succeeds.
pub open spec fn loaded_tables(fs: Seq<FileModel>, sel: Seq<Seq<char>>) -> Seq<TableModel> {
    Seq::new(fs.len(), |i: int| load_model(fs[i], sel)->Ok_0)
}

/// The one table a successful run of at least one file can produce: the
/// first file's projected column names; the first file's rows verbatim
/// when it is the only file, else the keep-first deduplication of every
/// file's projected rows in file order.
pub open spec fn canonical_model(fs: Seq<FileModel>, sel: Seq<Seq<char>>) -> TableModel {
    let lt = loaded_tables(fs, sel);
    TableModel {
        names: lt[0].names,
        rows: if fs.len() == 1 {
            lt[0].rows
        } else {
            crate::dedup::dedup_rows(crate::merge::concat_rows(lt))
        },
    }
}

/// Loading a list succeeds exactly when every file loads, and then gives
/// the loaded tables in order.
proof fn lemma_loads_model_char(fs: Seq<FileModel>, sel: Seq<Seq<char>>)
    ensures
        loads_model(fs, sel) is Ok <==> (forall|i: int|
            0 <= i < fs.len() ==> load_model(#[trigger] fs[i], sel) is Ok),
        loads_model(fs, sel) is Ok ==> loads_model(fs, sel)->Ok_0 == loaded_tables(fs, sel),
        loads_model(fs, sel) is Err ==> exists|i: int|
            0 <= i < fs.len() && load_model(#[trigger] fs[i], sel) is Err,
    decreases fs.len(),
{
    if fs.len() == 0 {
        assert(loads_model(fs, sel)->Ok_0 =~= loaded_tables(fs, sel));
    } else {
        let tail = fs.skip(1);
        lemma_loads_model_char(tail, sel);
        assert(forall|i: int| 0 <= i < tail.len() ==> #[trigger] tail[i] == fs[i + 1]);
        if load_model(fs[0], sel) is Ok && loads_model(tail, sel) is Ok {
            assert(seq![load_model(fs[0], sel)->Ok_0] + loaded_tables(tail, sel)
                =~= loaded_tables(fs, sel));
            assert forall|i: int| 0 <= i < fs.len() implies load_model(
                #[trigger] fs[i],
                sel,
            ) is Ok by {
                if i > 0 {
                    assert(tail[i - 1] == fs[i]);
                    assert(load_model(tail[i - 1], sel) is Ok);
                }
            }
        } else if load_model(fs[0], sel) is Err {
            assert(load_model(fs[0], sel) is Err);
            assert(loads_model(fs, sel) is Err);
        } else {
            assert(loads_model(tail, sel) is Err);
            let i = choose|i: int|
                0 <= i < tail.len() && load_model(#[trigger] tail[i], sel) is Err;
            assert(fs[i + 1] == tail[i]);
            assert(load_model(fs[i + 1], sel) is Err);
            assert(loads_model(fs, sel) is Err);
        }
    }
}

/// Concatenated rows split over list concatenation.
proof fn lemma_concat_rows_add(a: Seq<TableModel>, b: Seq<TableModel>)
    ensures
        crate::merge::concat_rows(a + b) == crate::merge::concat_rows(a)
            + crate::merge::concat_rows(b),
    decreases a.len(),
{
    if a.len() == 0 {
        assert(a + b =~= b);
        assert(crate::merge::concat_rows(a) + crate::merge::concat_rows(b)
            =~= crate::merge::concat_rows(b));
    } else {
        lemma_concat_rows_add(a.skip(1), b);
        assert((a + b)[0] == a[0]);
        assert((a + b).skip(1) =~= a.skip(1) + b);
        assert(a[0].rows + (crate::merge::concat_rows(a.skip(1)) + crate::merge::concat_rows(b))
            =~= (a[0].rows + crate::merge::concat_rows(a.skip(1)))
            + crate::merge::concat_rows(b));
    }
}

/// Folding at least one table succeeds exactly when all tables share the
/// first one's column names; the result then carries those names and the
/// keep-first deduplication of all rows (the seed's rows verbatim when it
/// stands alone).
proof fn lemma_fold_tables_char(ts: Seq<TableModel>)
    requires
        ts.len() >= 1,
    ensures
        fold_tables(ts) is Ok <==> (forall|i: int|
            0 <= i < ts.len() ==> (#[trigger] ts[i]).names == ts[0].names),
        (forall|i: int| 0 <= i < ts.len() ==> (#[trigger] ts[i]).names == ts[0].names)
            ==> fold_tables(ts) == Ok::<TableModel, ErrorModel>(
            TableModel {
                names: ts[0].names,
                rows: if ts.len() == 1 {
                    ts[0].rows
                } else {
                    crate::dedup::dedup_rows(crate::merge::concat_rows(ts))
                },
            },
        ),
{
    crate::merge::lemma_fold_from_characterization(ts[0], ts.skip(1));
    assert forall|i: int|
        1 <= i < ts.len() implies ts.skip(1)[i - 1] == ts[i] by {}
    if forall|i: int| 0 <= i < ts.len() ==> (#[trigger] ts[i]).names == ts[0].names {
        assert(forall|i: int|
            0 <= i < ts.skip(1).len() ==> (#[trigger] ts.skip(1)[i]).names == ts[0].names);
        if ts.len() > 1 {
            assert(crate::merge::concat_rows(ts) == ts[0].rows + crate::merge::concat_rows(
                ts.skip(1),
            ));
        }
    } else {
        let j = choose|j: int| 0 <= j < ts.len() && (#[trigger] ts[j]).names != ts[0].names;
        assert(ts.skip(1)[j - 1].names != ts[0].names);
        assert(!(fold_from(ts[0], ts.skip(1)) is Ok));
    }
}

/// When every file loads and every loaded table carries the same column
/// names, every chunking succeeds, every batch table carries those names,
/// and deduplicating all batch rows gives the same as deduplicating all
/// file rows; with a single batch, the batch table is already canonical.
proof fn lemma_run_batches_canonical(fs: Seq<FileModel>, sel: Seq<Seq<char>>, c: int)
    requires
        c >= 1,
        forall|i: int| 0 <= i < fs.len() ==> load_model(#[trigger] fs[i], sel) is Ok,
        forall|i: int|
            0 <= i < fs.len() ==> (load_model(#[trigger] fs[i], sel)->Ok_0).names == (load_model(
                fs[0],
                sel,
            )->Ok_0).names,
    ensures
        run_batches(fs, sel, c) is Ok,
        run_batches(fs, sel, c)->Ok_0.len() >= 1 <==> fs.len() >= 1,
        run_batches(fs, sel, c)->Ok_0.len() == 1 <==> 1 <= fs.len() <= c,
        forall|j: int|
            0 <= j < run_batches(fs, sel, c)->Ok_0.len() ==> (#[trigger] run_batches(
                fs,
                sel,
                c,
            )->Ok_0[j]).names == (load_model(fs[0], sel)->Ok_0).names,
        fs.len() >= 1 ==> crate::dedup::dedup_rows(
            crate::merge::concat_rows(run_batches(fs, sel, c)->Ok_0),
        ) == crate::dedup::dedup_rows(crate::merge::concat_rows(loaded_tables(fs, sel))),
        1 <= fs.len() <= c ==> run_batches(fs, sel, c)->Ok_0 == seq![canonical_model(fs, sel)],
    decreases fs.len(),
{
    let lt = loaded_tables(fs, sel);
    if fs.len() == 0 {
    } else {
        let k = if c <= fs.len() {
            c
        } else {
            fs.len() as int
        };
        let head = fs.take(k);
        let tail = fs.skip(k);
        assert(forall|i: int| 0 <= i < head.len() ==> head[i] == fs[i]);
        assert(forall|i: int| 0 <= i < tail.len() ==> tail[i] == fs[i + k]);
        lemma_loads_model_char(head, sel);
        assert(loads_model(head, sel) is Ok);
        let hlt = loaded_tables(head, sel);
        assert(hlt =~= lt.take(k));
        lemma_fold_tables_char(hlt);
        assert(forall|i: int| 0 <= i < hlt.len() ==> (#[trigger] hlt[i]).names == hlt[0].names);
        let bt = fold_tables(hlt)->Ok_0;
        assert(batch_model(head, sel) == Ok::<TableModel, ErrorModel>(bt));
        lemma_run_batches_canonical(tail, sel, c);
        let rest = run_batches(tail, sel, c)->Ok_0;
        assert(run_batches(fs, sel, c) == Ok::<Seq<TableModel>, ErrorModel>(seq![bt] + rest));
        let bts = seq![bt] + rest;
        assert(bts[0] == bt);
        assert(forall|j: int| 1 <= j < bts.len() ==> bts[j] == rest[j - 1]);
        if tail.len() == 0 {
            // A single batch holds every file.
            assert(bts =~= seq![bt]);
            assert(head =~= fs);
            assert(hlt =~= lt);
            assert(bts.skip(1) =~= Seq::<TableModel>::empty());
            assert(crate::merge::concat_rows(bts) =~= bt.rows + crate::merge::concat_rows(
                bts.skip(1),
            ));
            assert(bt.rows + Seq::<Seq<Seq<char>>>::empty() =~= bt.rows);
            if fs.len() == 1 {
                assert(bt =~= canonical_model(fs, sel));
                crate::dedup::lemma_dedup_idempotent(crate::merge::concat_rows(lt));
                assert(crate::merge::concat_rows(lt) =~= lt[0].rows + crate::merge::concat_rows(
                    lt.skip(1),
                ));
                assert(lt.skip(1) =~= Seq::<TableModel>::empty());
                assert(lt[0].rows + Seq::<Seq<Seq<char>>>::empty() =~= lt[0].rows);
                crate::dedup::lemma_dedup_idempotent(lt[0].rows);
            } else {
                assert(bt.rows == crate::dedup::dedup_rows(crate::merge::concat_rows(lt)));
                crate::dedup::lemma_dedup_idempotent(crate::merge::concat_rows(lt));
                assert(bt =~= canonical_model(fs, sel));
            }
        } else {
            // At least two batches: normalize the pieces one at a time.
            assert(fs.len() > c >= 1);
            assert(tail.len() >= 1);
            let tlt = loaded_tables(tail, sel);
            assert(tlt =~= lt.skip(k));
            let x = crate::merge::concat_rows(lt.take(k));
            let y = crate::merge::concat_rows(bts.skip(1));
            let yr = crate::merge::concat_rows(tlt);
            assert(bts.skip(1) =~= rest);
            // The first piece: the batch table's rows deduplicate to the
            // batch's raw rows.
            assert(crate::merge::concat_rows(bts) == bt.rows + y);
            if k == 1 {
                assert(bt.rows == hlt[0].rows);
                assert(crate::merge::concat_rows(hlt) =~= hlt[0].rows
                    + crate::merge::concat_rows(hlt.skip(1)));
                assert(hlt.skip(1) =~= Seq::<TableModel>::empty());
                assert(hlt[0].rows + Seq::<Seq<Seq<char>>>::empty() =~= hlt[0].rows);
                assert(bt.rows == x);
            } else {
                assert(bt.rows == crate::dedup::dedup_rows(x));
                crate::dedup::lemma_dedup_of_dedup_prefix(x, y);
            }
            assert(crate::dedup::dedup_rows(bt.rows + y) == crate::dedup::dedup_rows(x + y));
            // The remaining pieces: replace the batch rows by the raw rows.
            crate::dedup::lemma_dedup_of_dedup_suffix(x, y);
            crate::dedup::lemma_dedup_of_dedup_suffix(x, yr);
            assert(crate::dedup::dedup_rows(y) == crate::dedup::dedup_rows(yr));
            assert(crate::dedup::dedup_rows(x + y) == crate::dedup::dedup_rows(x + yr));
            lemma_concat_rows_add(lt.take(k), tlt);
            assert(lt.take(k) + tlt =~= lt);
            assert(x + yr == crate::merge::concat_rows(lt));
        }
    }
}

/// A successful chunked run forces every file to load and every loaded
/// table to carry the first file's column names.
proof fn lemma_run_batches_ok_names(fs: Seq<FileModel>, sel: Seq<Seq<char>>, c: int)
    requires
        c >= 1,
        run_batches(fs, sel, c) is Ok,
    ensures
        forall|i: int| 0 <= i < fs.len() ==> load_model(#[trigger] fs[i], sel) is Ok,
        forall|i: int|
            0 <= i < fs.len() ==> exists|j: int|
                0 <= j < run_batches(fs, sel, c)->Ok_0.len() && (load_model(
                    #[trigger] fs[i],
                    sel,
                )->Ok_0).names == run_batches(fs, sel, c)->Ok_0[j].names,
        run_batches(fs, sel, c)->Ok_0.len() >= 1 <==> fs.len() >= 1,
    decreases fs.len(),
{
    if fs.len() == 0 {
    } else {
        let k = if c <= fs.len() {
            c
        } else {
            fs.len() as int
        };
        let head = fs.take(k);
        let tail = fs.skip(k);
        assert(forall|i: int| 0 <= i < head.len() ==> head[i] == fs[i]);
        assert(forall|i: int| 0 <= i < tail.len() ==> tail[i] == fs[i + k]);
        assert(batch_model(head, sel) is Ok);
        lemma_loads_model_char(head, sel);
        let hlt = loads_model(head, sel)->Ok_0;
        assert(hlt == loaded_tables(head, sel));
        assert(fold_tables(hlt) is Ok);
        lemma_fold_tables_char(hlt);
        let bt = fold_tables(hlt)->Ok_0;
        lemma_run_batches_ok_names(tail, sel, c);
        let rest = run_batches(tail, sel, c)->Ok_0;
        let bts = run_batches(fs, sel, c)->Ok_0;
        assert(bts == seq![bt] + rest);
        assert(bts[0] == bt);
        assert(forall|j: int| 1 <= j < bts.len() ==> bts[j] == rest[j - 1]);
        assert forall|i: int| 0 <= i < fs.len() implies load_model(#[trigger] fs[i], sel)
            is Ok by {
            if i < k {
                assert(head[i] == fs[i]);
                assert(load_model(head[i], sel) is Ok);
            } else {
                assert(tail[i - k] == fs[i]);
                assert(load_model(tail[i - k], sel) is Ok);
            }
        }
        assert forall|i: int| 0 <= i < fs.len() implies exists|j: int|
            0 <= j < bts.len() && (load_model(#[trigger] fs[i], sel)->Ok_0).names
                == bts[j].names by {
            if i < k {
                assert(hlt[i] == load_model(fs[i], sel)->Ok_0);
                assert(hlt[i].names == hlt[0].names);
                assert(bt.names == hlt[0].names);
                assert(bts[0].names == (load_model(fs[i], sel)->Ok_0).names);
            } else {
                assert(tail[i - k] == fs[i]);
                let j = choose|j: int|
                    0 <= j < rest.len() && (load_model(tail[i - k], sel)->Ok_0).names
                        == rest[j].names;
                assert(bts[j + 1].names == (load_model(fs[i], sel)->Ok_0).names);
            }
        }
    }
}

/// Batching transparency: with the batch size having no say in the file
/// order, a run that succeeds under one chunk size gives the identical
/// result under any other chunk size.
pub proof fn lemma_batching_transparency(
    fs: Seq<FileModel>,
    sel: Seq<Seq<char>>,
    c1: int,
    c2: int,
)
    requires
        c1 >= 1,
        c2 >= 1,
        run_model(fs, sel, c1) is Ok,
    ensures
        run_model(fs, sel, c2) == run_model(fs, sel, c1),
{
    if fs.len() == 0 {
    } else {
        assert(run_batches(fs, sel, c1) is Ok);
        lemma_run_batches_ok_names(fs, sel, c1);
        let bts = run_batches(fs, sel, c1)->Ok_0;
        assert(fold_tables(bts) is Ok);
        lemma_fold_tables_char(bts);
        // Every loaded table carries the first file's names.
        assert forall|i: int|
            0 <= i < fs.len() implies (load_model(#[trigger] fs[i], sel)->Ok_0).names
            == (load_model(fs[0], sel)->Ok_0).names by {
            let j = choose|j: int|
                0 <= j < bts.len() && (load_model(fs[i], sel)->Ok_0).names == bts[j].names;
            let j0 = choose|j: int|
                0 <= j < bts.len() && (load_model(fs[0], sel)->Ok_0).names == bts[j].names;
            assert(bts[j].names == bts[0].names);
            assert(bts[j0].names == bts[0].names);
        }
        lemma_run_model_canonical(fs, sel, c1);
        lemma_run_model_canonical(fs, sel, c2);
    }
}

/// Under the conditions that make a run succeed — every file loads, and
/// all loaded tables share the first file's column names — the run yields
/// the canonical table whatever the chunk size: the first file's rows
/// verbatim when it stands alone, else the keep-first deduplication of
/// every file's projected rows in argument order.
pub proof fn lemma_run_model_canonical(fs: Seq<FileModel>, sel: Seq<Seq<char>>, c: int)
    requires
        c >= 1,
        fs.len() >= 1,
        forall|i: int| 0 <= i < fs.len() ==> load_model(#[trigger] fs[i], sel) is Ok,
        forall|i: int|
            0 <= i < fs.len() ==> (load_model(#[trigger] fs[i], sel)->Ok_0).names == (load_model(
                fs[0],
                sel,
            )->Ok_0).names,
    ensures
        run_model(fs, sel, c) == Ok::<Option<TableModel>, ErrorModel>(
            Some(canonical_model(fs, sel)),
        ),
{
    lemma_run_batches_canonical(fs, sel, c);
    let bts = run_batches(fs, sel, c)->Ok_0;
    let lt = loaded_tables(fs, sel);
    lemma_fold_tables_char(bts);
    assert(bts[0].names == (load_model(fs[0], sel)->Ok_0).names);
    assert(lt[0] == load_model(fs[0], sel)->Ok_0);
    if bts.len() == 1 {
        assert(fs.len() <= c);
        assert(bts == seq![canonical_model(fs, sel)]);
        assert(fold_tables(bts) == Ok::<TableModel, ErrorModel>(bts[0]));
    } else {
        assert(fs.len() >= 2);
        assert(fold_tables(bts) == Ok::<TableModel, ErrorModel>(
            TableModel {
                names: bts[0].names,
                rows: crate::dedup::dedup_rows(crate::merge::concat_rows(bts)),
            },
        ));
        assert(crate::dedup::dedup_rows(crate::merge::concat_rows(bts))
            == crate::dedup::dedup_rows(crate::merge::concat_rows(lt)));
        assert(fold_tables(bts)->Ok_0 =~= canonical_model(fs, sel));
    }
}

/// Provenance tagging keeps the column names distinct.
proof fn lemma_provenance_names(t: TableModel, tag: Seq<char>)
    requires
        t.names.no_duplicates(),
    ensures
        provenance_model(t, tag).names.no_duplicates(),
{
    let e = crate::headers::experiment_column();
    if !t.names.contains(e) {
        let p = t.names.push(e);
        assert forall|a: int, b: int| 0 <= a < b < p.len() implies p[a] != p[b] by {
            if b == t.names.len() {
                assert(p[a] == t.names[a]);
                if t.names[a] == e {
                    assert(t.names.contains(e));
                }
            }
        }
    }
}

/// Every row a table in the concatenation holds is a row of one of them.
proof fn lemma_concat_rows_membership(ts: Seq<TableModel>, r: Seq<Seq<char>>)
    requires
        crate::merge::concat_rows(ts).contains(r),
    ensures
        exists|i: int| 0 <= i < ts.len() && (#[trigger] ts[i]).rows.contains(r),
    decreases ts.len(),
{
    if ts.len() == 0 {
    } else {
        let k = choose|k: int|
            0 <= k < crate::merge::concat_rows(ts).len() && crate::merge::concat_rows(ts)[k] == r;
        if k < ts[0].rows.len() {
            assert(ts[0].rows[k] == r);
            assert(ts[0].rows.contains(r));
        } else {
            assert(crate::merge::concat_rows(ts.skip(1))[k - ts[0].rows.len()] == r);
            assert(crate::merge::concat_rows(ts.skip(1)).contains(r));
            lemma_concat_rows_membership(ts.skip(1), r);
            let i = choose|i: int|
                0 <= i < ts.skip(1).len() && (#[trigger] ts.skip(1)[i]).rows.contains(r);
            assert(ts[i + 1].rows.contains(r));
        }
    }
}

/// Column subset correctness: every column name of a successful run's
/// table is one of the requested names, and every row of that table is a
/// projected row of one of the input files.
pub proof fn lemma_output_columns_requested(
    fs: Seq<FileModel>,
    sel: Seq<Seq<char>>,
    c: int,
    t: TableModel,
)
    requires
        c >= 1,
        run_model(fs, sel, c) == Ok::<Option<TableModel>, ErrorModel>(Some(t)),
    ensures
        forall|j: int| 0 <= j < t.names.len() ==> sel.contains(#[trigger] t.names[j]),
        forall|r: Seq<Seq<char>>| #[trigger] t.rows.contains(r) ==> exists|i: int|
            0 <= i < fs.len() && (load_model(#[trigger] fs[i], sel)->Ok_0).rows.contains(r),
{
    assert(fs.len() >= 1);
    assert(run_batches(fs, sel, c) is Ok);
    lemma_run_batches_ok_names(fs, sel, c);
    let bts = run_batches(fs, sel, c)->Ok_0;
    assert(fold_tables(bts) is Ok);
    lemma_fold_tables_char(bts);
    assert forall|i: int|
        0 <= i < fs.len() implies (load_model(#[trigger] fs[i], sel)->Ok_0).names == (load_model(
        fs[0],
        sel,
    )->Ok_0).names by {
        let j = choose|j: int|
            0 <= j < bts.len() && (load_model(fs[i], sel)->Ok_0).names == bts[j].names;
        let j0 = choose|j: int|
            0 <= j < bts.len() && (load_model(fs[0], sel)->Ok_0).names == bts[j].names;
        assert(bts[j].names == bts[0].names);
        assert(bts[j0].names == bts[0].names);
    }
    lemma_run_model_canonical(fs, sel, c);
    let lt = loaded_tables(fs, sel);
    assert(t == canonical_model(fs, sel));
    // The names come out of the first file's projection, whose results all
    // stand in the requested set.
    assert(load_model(fs[0], sel) is Ok);
    let t0 = parse_model(fs[0].content, delim_of(fs[0].name), fs[0].name)->Ok_0;
    let names2 = t0.names.map_values(|n: Seq<char>| strip_dots(n));
    let pt = provenance_model(TableModel { names: names2, rows: t0.rows }, tag_of(fs[0].name));
    lemma_provenance_names(TableModel { names: names2, rows: t0.rows }, tag_of(fs[0].name));
    crate::project::lemma_proj_names(pt.names, sel);
    assert(t.names == crate::project::proj_seq(pt.names, pt.names, sel));
    assert forall|j: int| 0 <= j < t.names.len() implies sel.contains(#[trigger] t.names[j]) by {
        assert(crate::project::proj_seq(pt.names, pt.names, sel).contains(t.names[j]));
    }
    // Every surviving row is a projected row of some input file.
    assert forall|r: Seq<Seq<char>>| #[trigger] t.rows.contains(r) implies exists|i: int|
        0 <= i < fs.len() && (load_model(#[trigger] fs[i], sel)->Ok_0).rows.contains(r) by {
        if fs.len() == 1 {
            assert(t.rows == lt[0].rows);
            assert(lt[0] == load_model(fs[0], sel)->Ok_0);
        } else {
            crate::dedup::lemma_dedup_membership(crate::merge::concat_rows(lt));
            assert(crate::merge::concat_rows(lt).contains(r));
            lemma_concat_rows_membership(lt, r);
            let i = choose|i: int| 0 <= i < lt.len() && (#[trigger] lt[i]).rows.contains(r);
            assert(lt[i] == load_model(fs[i], sel)->Ok_0);
        }
    }
}

/// The model of the run's result value.
pub open spec fn run_res_model(r: Result<Option<Table>, MergeError>) -> Result<
    Option<TableModel>,
    ErrorModel,
> {
    match r {
        Ok(None) => Ok(None),
        Ok(Some(t)) => Ok(Some(t@)),
        Err(e) => Err(e@),
    }
}

/// The whole consolidation run: partition the input files into batches of
/// at most `chunksize`, reduce each batch to one deduplicated table, and
/// fold the batch tables into the final table. Zero input files yield no
/// table at all.
///
/// Files are processed in the order given, within a batch and across
/// batches, so under the keep-first policy the earliest-listed file wins
/// a duplicate.
pub fn run_pipeline(files: &Vec<InputFile>, select: &Vec<String>, chunksize: usize) -> (r: Result<
    Option<Table>,
    MergeError,
>)
    requires
        chunksize >= 1,
        select@.len() >= 1,
    ensures
        run_res_model(r) == run_model(files.deep_view(), select.deep_view(), chunksize as int),
        r matches Ok(Some(t)) ==> t.wf(),
{
    let n = files.len();
    if n == 0 {
        return Ok(None);
    }
    let ghost fm = files.deep_view();
    let ghost sel = select.deep_view();
    let ghost c = chunksize as int;
    let mut batch_tables: Vec<Table> = Vec::new();
    let mut start: usize = 0;
    proof {
        assert(fm.skip(0) =~= fm);
    }
    while start < n
        invariant
            chunksize >= 1,
            c == chunksize as int,
            select@.len() >= 1,
            sel == select.deep_view(),
            fm == files.deep_view(),
            fm.len() == n == files@.len(),
            n >= 1,
            start <= n,
            start > 0 ==> batch_tables@.len() >= 1,
            forall|m: int| 0 <= m < batch_tables@.len() ==> #[trigger] batch_tables@[m].wf(),
            run_batches(fm, sel, c) == match run_batches(fm.skip(start as int), sel, c) {
                Ok(rest) => Ok::<Seq<TableModel>, ErrorModel>(batch_tables.deep_view() + rest),
                Err(e) => Err(e),
            },
        decreases n - start,
    {
        let end = if chunksize < n - start {
            start + chunksize
        } else {
            n
        };
        let ghost k = end - start as int;
        proof {
            assert(k == if c <= fm.skip(start as int).len() {
                c
            } else {
                fm.skip(start as int).len() as int
            });
            assert(fm.skip(start as int).take(k) =~= fm.subrange(start as int, end as int));
            assert(fm.skip(start as int).skip(k) =~= fm.skip(end as int));
        }
        let ghost batch = fm.subrange(start as int, end as int);
        let mut loaded: Vec<Table> = Vec::new();
        let mut idx: usize = start;
        proof {
            assert(fm.subrange(start as int, end as int) =~= fm.subrange(start as int, end as int));
        }
        while idx < end
            invariant
                chunksize >= 1,
                c == chunksize as int,
                select@.len() >= 1,
                sel == select.deep_view(),
                fm == files.deep_view(),
                fm.len() == n == files@.len(),
                start <= idx <= end <= files@.len(),
                start < end,
                start > 0 ==> batch_tables@.len() >= 1,
                forall|m: int| 0 <= m < batch_tables@.len() ==> #[trigger] batch_tables@[m].wf(),
                run_batches(fm, sel, c) == match run_batches(fm.skip(start as int), sel, c) {
                    Ok(rest) => Ok::<Seq<TableModel>, ErrorModel>(batch_tables.deep_view() + rest),
                    Err(e) => Err(e),
                },
                end - start == if c <= fm.skip(start as int).len() {
                    c
                } else {
                    fm.skip(start as int).len() as int
                },
                batch == fm.skip(start as int).take(end - start as int),
                batch == fm.subrange(start as int, end as int),
                fm.skip(start as int).skip(end - start as int) == fm.skip(end as int),
                loaded@.len() == idx - start,
                forall|m: int| 0 <= m < loaded@.len() ==> #[trigger] loaded@[m].wf(),
                loads_model(batch, sel) == match loads_model(
                    fm.subrange(idx as int, end as int),
                    sel,
                ) {
                    Ok(rest) => Ok::<Seq<TableModel>, ErrorModel>(loaded.deep_view() + rest),
                    Err(e) => Err(e),
                },
            decreases end - idx,
        {
            proof {
                assert(fm.subrange(idx as int, end as int)[0] == fm[idx as int]);
                assert(fm.subrange(idx as int, end as int).skip(1) =~= fm.subrange(
                    idx + 1,
                    end as int,
                ));
                assert(files@[idx as int].deep_view() == fm[idx as int]);
            }
            match load_and_project(&files[idx], select) {
                Err(e) => {
                    proof {
                        assert(loads_model(batch, sel) == Err::<Seq<TableModel>, ErrorModel>(e@));
                        assert(run_batches(fm.skip(start as int), sel, c) == Err::<
                            Seq<TableModel>,
                            ErrorModel,
                        >(e@));
                    }
                    return Err(e);
                },
                Ok(t) => {
                    let ghost prev = loaded.deep_view();
                    let ghost tv = t@;
                    loaded.push(t);
                    proof {
                        assert(loaded.deep_view() =~= prev.push(tv));
                        assert forall|rest: Seq<TableModel>|
                            prev.push(tv) + rest =~= prev + (seq![tv] + rest) by {
                        }
                    }
                },
            }
            idx += 1;
        }
        proof {
            assert(fm.subrange(end as int, end as int) =~= Seq::<FileModel>::empty());
            assert(loaded.deep_view() + Seq::<TableModel>::empty() =~= loaded.deep_view());
            assert(loads_model(batch, sel) == Ok::<Seq<TableModel>, ErrorModel>(
                loaded.deep_view(),
            ));
            assert(loaded.deep_view()[0] == loaded@[0]@);
        }
        match merge_tables(&loaded) {
            Err(e) => {
                proof {
                    assert(fold_tables(loaded.deep_view()) == Err::<TableModel, ErrorModel>(e@));
                    assert(run_batches(fm.skip(start as int), sel, c) == Err::<
                        Seq<TableModel>,
                        ErrorModel,
                    >(e@));
                }
                return Err(e);
            },
            Ok(bt) => {
                let ghost prevb = batch_tables.deep_view();
                let ghost btv = bt@;
                proof {
                    assert(fold_tables(loaded.deep_view()) == Ok::<TableModel, ErrorModel>(btv));
                    assert(batch_model(batch, sel) == Ok::<TableModel, ErrorModel>(btv));
                }
                batch_tables.push(bt);
                proof {
                    assert(batch_tables.deep_view() =~= prevb.push(btv));
                    assert forall|rest: Seq<TableModel>|
                        prevb.push(btv) + rest =~= prevb + (seq![btv] + rest) by {
                    }
                }
            },
        }
        start = end;
    }
    proof {
        assert(fm.skip(n as int) =~= Seq::<FileModel>::empty());
        assert(batch_tables.deep_view() + Seq::<TableModel>::empty() =~= batch_tables.deep_view());
        assert(run_batches(fm, sel, c) == Ok::<Seq<TableModel>, ErrorModel>(
            batch_tables.deep_view(),
        ));
        assert(batch_tables.deep_view()[0] == batch_tables@[0]@);
    }
    match merge_tables(&batch_tables) {
        Err(e) => {
            proof {
                assert(fold_tables(batch_tables.deep_view()) == Err::<TableModel, ErrorModel>(e@));
            }
            Err(e)
        },
        Ok(t) => {
            proof {
                assert(fold_tables(batch_tables.deep_view()) == Ok::<TableModel, ErrorModel>(t@));
            }
            Ok(Some(t))
        },
    }
}

} // verus!
