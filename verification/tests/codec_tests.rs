use tabmerge::codec::{parse_content, write_table};
use tabmerge::dedup::dedup_table;
use tabmerge::headers::{experiment_tag, normalize_name};
use tabmerge::table::Table;

fn strs(names: &[&str]) -> Vec<String> {
    names.iter().map(|s| s.to_string()).collect()
}

fn table(names: &[&str], rows: &[&[&str]]) -> Table {
    Table { names: strs(names), rows: rows.iter().map(|r| strs(r)).collect() }
}

#[test]
fn writer_emits_header_and_rows() {
    let t = table(&["id", "v"], &[&["1", "x"], &["2", "y"]]);
    assert_eq!(write_table(&t), "id,v\n1,x\n2,y\n".to_string());
}

#[test]
fn writer_quotes_special_fields() {
    let t = table(&["a", "b"], &[&["x,y", "pla\"in"], &["line\nbreak", "ok"]]);
    assert_eq!(
        write_table(&t),
        "a,b\n\"x,y\",\"pla\"\"in\"\n\"line\nbreak\",ok\n".to_string()
    );
}

#[test]
fn parser_reads_plain_content() {
    let t = parse_content("id,v\n1,x\n2,y\n", ',', "p.csv").unwrap();
    assert_eq!(t.names, strs(&["id", "v"]));
    assert_eq!(t.rows, vec![strs(&["1", "x"]), strs(&["2", "y"])]);
}

#[test]
fn parser_reads_quoted_fields() {
    let t = parse_content("a,b\n\"x,y\",\"he said \"\"hi\"\"\"\n", ',', "p.csv").unwrap();
    assert_eq!(t.rows, vec![strs(&["x,y", "he said \"hi\""])]);
}

#[test]
fn parser_handles_missing_final_newline() {
    let t = parse_content("id\n1", ',', "p.csv").unwrap();
    assert_eq!(t.rows, vec![strs(&["1"])]);
}

#[test]
fn round_trip_preserves_names_and_values() {
    let t = table(
        &["id", "note"],
        &[
            &["1", "plain"],
            &["2", "comma, inside"],
            &["3", "quote \" inside"],
            &["4", "line\nbreak"],
            &["5", ""],
        ],
    );
    let text = write_table(&t);
    let back = parse_content(&text, ',', "round.csv").unwrap();
    assert_eq!(back.names, t.names);
    assert_eq!(back.rows, t.rows);
}

#[test]
fn round_trip_empty_table() {
    let t = table(&["only"], &[]);
    let back = parse_content(&write_table(&t), ',', "round.csv").unwrap();
    assert_eq!(back.names, t.names);
    assert_eq!(back.rows, t.rows);
}

#[test]
fn dedup_is_idempotent() {
    let t = table(&["id"], &[&["1"], &["2"], &["1"], &["3"], &["2"]]);
    let once = dedup_table(&t);
    let twice = dedup_table(&once);
    assert_eq!(once.rows, vec![strs(&["1"]), strs(&["2"]), strs(&["3"])]);
    assert_eq!(twice.names, once.names);
    assert_eq!(twice.rows, once.rows);
}

#[test]
fn normalize_name_strips_every_dot() {
    assert_eq!(normalize_name("gene.id"), "geneid".to_string());
    assert_eq!(normalize_name("a.b.c"), "abc".to_string());
    assert_eq!(normalize_name("clean"), "clean".to_string());
}

#[test]
fn experiment_tag_strips_known_suffixes() {
    assert_eq!(experiment_tag("liver-tpms.tsv"), "liver".to_string());
    assert_eq!(experiment_tag("brain-transcripts.csv"), "brain.csv".to_string());
    assert_eq!(experiment_tag("plain.csv"), "plain.csv".to_string());
}
