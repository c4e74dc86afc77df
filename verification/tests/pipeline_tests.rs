use tabmerge::errors::MergeError;
use tabmerge::pipeline::{run_pipeline, InputFile};
use tabmerge::table::Table;

fn file(name: &str, content: &str) -> InputFile {
    InputFile { name: name.to_string(), content: content.to_string() }
}

fn sel(names: &[&str]) -> Vec<String> {
    names.iter().map(|s| s.to_string()).collect()
}

fn expect_table(r: Result<Option<Table>, MergeError>) -> Table {
    match r {
        Ok(Some(t)) => t,
        Ok(None) => panic!("expected a table, got none"),
        Err(e) => panic!("expected a table, got an error: {:?}", e),
    }
}

#[test]
fn empty_input_produces_no_table() {
    let files: Vec<InputFile> = Vec::new();
    let r = run_pipeline(&files, &sel(&["gene"]), 100);
    match r {
        Ok(None) => {}
        _ => panic!("zero inputs must give no output table"),
    }
}

#[test]
fn single_file_single_column() {
    let files = vec![file("a.csv", "gene,count\ng1,10\ng2,20\n")];
    let t = expect_table(run_pipeline(&files, &sel(&["gene"]), 100));
    assert_eq!(t.names, sel(&["gene"]));
    assert_eq!(t.rows, vec![sel(&["g1"]), sel(&["g2"])]);
}

#[test]
fn keep_first_across_files() {
    // Two files share the key; the first file's occurrence survives.
    let a = file("a.csv", "id,v\n1,x\n");
    let b = file("b.csv", "id,v\n1,y\n");
    let t = expect_table(run_pipeline(&vec![a, b], &sel(&["id"]), 100));
    assert_eq!(t.names, sel(&["id"]));
    assert_eq!(t.rows, vec![sel(&["1"])]);
}

#[test]
fn full_tuple_dedup_keeps_distinct_rows() {
    // Dedup compares the whole projected tuple: rows differing in any
    // projected column both survive, in first-seen order.
    let a = file("a.csv", "id,v\n1,x\n");
    let b = file("b.csv", "id,v\n1,y\n1,x\n");
    let t = expect_table(run_pipeline(&vec![a, b], &sel(&["id", "v"]), 100));
    assert_eq!(t.names, sel(&["id", "v"]));
    assert_eq!(t.rows, vec![sel(&["1", "x"]), sel(&["1", "y"])]);
}

#[test]
fn column_subset_in_table_order() {
    // The output keeps the table's own column order, not the request's.
    let a = file("a.csv", "x,y,z\n1,2,3\n");
    let t = expect_table(run_pipeline(&vec![a], &sel(&["z", "x"]), 100));
    assert_eq!(t.names, sel(&["x", "z"]));
    assert_eq!(t.rows, vec![sel(&["1", "3"])]);
}

#[test]
fn header_normalization_strips_dots() {
    let a = file("a.csv", "gene.id,count\ng1,5\n");
    let t = expect_table(run_pipeline(&vec![a], &sel(&["geneid"]), 100));
    assert_eq!(t.names, sel(&["geneid"]));
    assert_eq!(t.rows, vec![sel(&["g1"])]);
}

#[test]
fn missing_column_is_fatal() {
    let a = file("a.csv", "gene,count\ng1,5\n");
    let r = run_pipeline(&vec![a], &sel(&["nope"]), 100);
    match r {
        Err(MergeError::MissingColumn { path, missing, available }) => {
            assert_eq!(path, "a.csv".to_string());
            assert_eq!(missing, sel(&["nope"]));
            // The available names include the provenance column.
            assert_eq!(available, sel(&["gene", "count", "experiment"]));
        }
        _ => panic!("selecting an absent column must abort the run"),
    }
}

#[test]
fn batching_is_transparent() {
    let mk = || {
        vec![
            file("a.csv", "id,v\n1,x\n2,y\n"),
            file("b.csv", "id,v\n1,x\n3,z\n"),
            file("c.csv", "id,v\n3,z\n4,w\n"),
        ]
    };
    let one = expect_table(run_pipeline(&mk(), &sel(&["id", "v"]), 1));
    let all = expect_table(run_pipeline(&mk(), &sel(&["id", "v"]), 3));
    let big = expect_table(run_pipeline(&mk(), &sel(&["id", "v"]), 100));
    assert_eq!(one.names, all.names);
    assert_eq!(one.rows, all.rows);
    assert_eq!(one.names, big.names);
    assert_eq!(one.rows, big.rows);
    assert_eq!(
        one.rows,
        vec![
            sel(&["1", "x"]),
            sel(&["2", "y"]),
            sel(&["3", "z"]),
            sel(&["4", "w"]),
        ]
    );
}

#[test]
fn provenance_column_can_be_selected() {
    let a = file("liver-tpms.tsv", "gene\tcount\ng1\t5\n");
    let t = expect_table(run_pipeline(&vec![a], &sel(&["gene", "experiment"]), 100));
    assert_eq!(t.names, sel(&["gene", "experiment"]));
    assert_eq!(t.rows, vec![sel(&["g1", "liver"])]);
}

#[test]
fn provenance_distinguishes_equal_rows() {
    // With the provenance column projected, equal data rows from different
    // files are different tuples and both survive.
    let a = file("a.csv", "id\n1\n");
    let b = file("b.csv", "id\n1\n");
    let t = expect_table(run_pipeline(&vec![a, b], &sel(&["id", "experiment"]), 100));
    assert_eq!(t.rows, vec![sel(&["1", "a.csv"]), sel(&["1", "b.csv"])]);
}

#[test]
fn tsv_extension_selects_tab_delimiter() {
    let a = file("a.tsv", "gene\tcount\ng1\t7\n");
    let t = expect_table(run_pipeline(&vec![a], &sel(&["count"]), 100));
    assert_eq!(t.rows, vec![sel(&["7"])]);
}

#[test]
fn mismatched_headers_fail_the_merge() {
    // Projection keeps each table's own column order, so the two files
    // project to differently ordered column sets.
    let a = file("a.csv", "id,v\n1,x\n");
    let b = file("b.csv", "v,id\n y,1\n");
    let r = run_pipeline(&vec![a, b], &sel(&["id", "v"]), 100);
    match r {
        Err(MergeError::MergeFailure { .. }) => {}
        _ => panic!("incompatible column sets must fail the merge"),
    }
}

#[test]
fn empty_content_is_malformed() {
    let a = file("a.csv", "");
    let r = run_pipeline(&vec![a], &sel(&["id"]), 100);
    match r {
        Err(MergeError::MalformedInput { path }) => assert_eq!(path, "a.csv".to_string()),
        _ => panic!("a file without a header row is malformed"),
    }
}

#[test]
fn duplicate_headers_are_malformed() {
    let a = file("a.csv", "id,id\n1,2\n");
    let r = run_pipeline(&vec![a], &sel(&["id"]), 100);
    assert!(matches!(r, Err(MergeError::MalformedInput { .. })));
}

#[test]
fn normalization_collision_is_malformed() {
    // "a.b" normalizes to "ab", colliding with the existing "ab" column.
    let a = file("a.csv", "a.b,ab\n1,2\n");
    let r = run_pipeline(&vec![a], &sel(&["ab"]), 100);
    assert!(matches!(r, Err(MergeError::MalformedInput { .. })));
}

#[test]
fn short_rows_are_skipped() {
    let a = file("a.csv", "id,v\n1,x\nbroken\n2,y\n");
    let t = expect_table(run_pipeline(&vec![a], &sel(&["id", "v"]), 100));
    assert_eq!(t.rows, vec![sel(&["1", "x"]), sel(&["2", "y"])]);
}

#[test]
fn first_error_in_file_order_wins() {
    let a = file("a.csv", "");
    let b = file("b.csv", "id\n1\n");
    let r = run_pipeline(&vec![a, b], &sel(&["id"]), 1);
    match r {
        Err(MergeError::MalformedInput { path }) => assert_eq!(path, "a.csv".to_string()),
        _ => panic!("the first failing file must decide the error"),
    }
}
