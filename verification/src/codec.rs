//! The delimited text format: serializing a table with a header row, and
//! parsing delimited content back into a table. Fields holding the
//! delimiter, a quote, or a line break are quoted, with inner quotes
//! doubled. Parsing is permissive: a data row whose field count differs
//! from the header's is skipped.
use vstd::prelude::*;
use crate::table::{Table, TableModel, clone_row};
use crate::errors::{ErrorModel, MergeError};
use crate::merge::table_res_model;
use crate::text::{chars_to_string, to_chars};

verus! {

/// Whether a field must be quoted to survive the trip through the format.
pub open spec fn needs_quote(f: Seq<char>, d: char) -> bool {
    f.contains(d) || f.contains('"') || f.contains('\n') || f.contains('\r')
}

/// A field's content with every quote doubled.
pub open spec fn esc(f: Seq<char>) -> Seq<char>
    decreases f.len(),
{
    if f.len() == 0 {
        f
    } else {
        (if f[0] == '"' {
            seq!['"', '"']
        } else {
            seq![f[0]]
        }) + esc(f.skip(1))
    }
}

/// One encoded field.
pub open spec fn enc_field(f: Seq<char>, d: char) -> Seq<char> {
    if needs_quote(f, d) {
        seq!['"'] + esc(f) + seq!['"']
    } else {
        f
    }
}

/// One encoded row: the fields, separated by the delimiter.
pub open spec fn enc_row(r: Seq<Seq<char>>, d: char) -> Seq<char>
    decreases r.len(),
{
    if r.len() == 0 {
        Seq::empty()
    } else if r.len() == 1 {
        enc_field(r[0], d)
    } else {
        enc_field(r[0], d) + seq![d] + enc_row(r.skip(1), d)
    }
}

/// Encoded rows, each followed by a line feed.
pub open spec fn enc_lines(rows: Seq<Seq<Seq<char>>>, d: char) -> Seq<char>
    decreases rows.len(),
{
    if rows.len() == 0 {
        Seq::empty()
    } else {
        enc_row(rows[0], d) + seq!['\n'] + enc_lines(rows.skip(1), d)
    }
}

/// A whole encoded table: the header row, then the data rows.
pub open spec fn enc_table(t: TableModel, d: char) -> Seq<char> {
    enc_lines(seq![t.names] + t.rows, d)
}

/// Decode an unquoted field: everything up to the delimiter or the end of
/// the line. Returns the field and the unconsumed rest.
pub open spec fn dec_raw(s: Seq<char>, d: char) -> (Seq<char>, Seq<char>)
    decreases s.len(),
{
    if s.len() == 0 {
        (Seq::empty(), s)
    } else if s[0] == d || s[0] == '\n' {
        (Seq::empty(), s)
    } else {
        let t = dec_raw(s.skip(1), d);
        (seq![s[0]] + t.0, t.1)
    }
}

/// Decode the inside of a quoted field, starting after the opening quote:
/// doubled quotes stand for one quote, a single quote closes the field.
/// Returns the content and the rest after the closing quote.
pub open spec fn dec_quoted(s: Seq<char>, d: char) -> (Seq<char>, Seq<char>)
    decreases s.len(),
{
    if s.len() == 0 {
        (Seq::empty(), s)
    } else if s[0] == '"' {
        if s.len() >= 2 && s[1] == '"' {
            let t = dec_quoted(s.skip(2), d);
            (seq!['"'] + t.0, t.1)
        } else {
            (Seq::empty(), s.skip(1))
        }
    } else {
        let t = dec_quoted(s.skip(1), d);
        (seq![s[0]] + t.0, t.1)
    }
}

/// Decode one field: quoted when it opens with a quote, raw otherwise.
/// Stray text after a closing quote is folded into the field.
pub open spec fn dec_field(s: Seq<char>, d: char) -> (Seq<char>, Seq<char>) {
    if s.len() > 0 && s[0] == '"' {
        let q = dec_quoted(s.skip(1), d);
        let g = dec_raw(q.1, d);
        (q.0 + g.0, g.1)
    } else {
        dec_raw(s, d)
    }
}

/// Decoding consumes, never invents: the rest is never longer than the
/// input.
pub proof fn lemma_dec_raw_len(s: Seq<char>, d: char)
    ensures
        dec_raw(s, d).1.len() <= s.len(),
    decreases s.len(),
{
    if s.len() == 0 || s[0] == d || s[0] == '\n' {
    } else {
        lemma_dec_raw_len(s.skip(1), d);
    }
}

pub proof fn lemma_dec_quoted_len(s: Seq<char>, d: char)
    ensures
        dec_quoted(s, d).1.len() <= s.len(),
    decreases s.len(),
{
    if s.len() == 0 {
    } else if s[0] == '"' {
        if s.len() >= 2 && s[1] == '"' {
            lemma_dec_quoted_len(s.skip(2), d);
        }
    } else {
        lemma_dec_quoted_len(s.skip(1), d);
    }
}

pub proof fn lemma_dec_field_len(s: Seq<char>, d: char)
    ensures
        dec_field(s, d).1.len() <= s.len(),
{
    if s.len() > 0 && s[0] == '"' {
        lemma_dec_quoted_len(s.skip(1), d);
        lemma_dec_raw_len(dec_quoted(s.skip(1), d).1, d);
    } else {
        lemma_dec_raw_len(s, d);
    }
}

/// After a field, the rest is empty or starts at a terminator.
pub proof fn lemma_dec_raw_rest(s: Seq<char>, d: char)
    ensures
        dec_raw(s, d).1.len() == 0 || dec_raw(s, d).1[0] == d || dec_raw(s, d).1[0] == '\n',
    decreases s.len(),
{
    if s.len() == 0 || s[0] == d || s[0] == '\n' {
    } else {
        lemma_dec_raw_rest(s.skip(1), d);
    }
}

pub proof fn lemma_dec_field_rest(s: Seq<char>, d: char)
    ensures
        dec_field(s, d).1.len() == 0 || dec_field(s, d).1[0] == d || dec_field(s, d).1[0] == '\n',
{
    if s.len() > 0 && s[0] == '"' {
        lemma_dec_raw_rest(dec_quoted(s.skip(1), d).1, d);
    } else {
        lemma_dec_raw_rest(s, d);
    }
}

/// Decode one row: fields separated by the delimiter, closed by a line
/// feed or the end of the input.
pub open spec fn dec_row(s: Seq<char>, d: char) -> (Seq<Seq<char>>, Seq<char>)
    decreases s.len(),
        via dec_row_decreases
{
    let t = dec_field(s, d);
    if t.1.len() > 0 && t.1[0] == d {
        let rr = dec_row(t.1.skip(1), d);
        (seq![t.0] + rr.0, rr.1)
    } else if t.1.len() > 0 && t.1[0] == '\n' {
        (seq![t.0], t.1.skip(1))
    } else {
        (seq![t.0], t.1)
    }
}

#[via_fn]
proof fn dec_row_decreases(s: Seq<char>, d: char) {
    lemma_dec_field_len(s, d);
}

/// A row consumes at least its terminator.
pub proof fn lemma_dec_row_len(s: Seq<char>, d: char)
    ensures
        dec_row(s, d).1.len() <= s.len(),
        s.len() > 0 ==> dec_row(s, d).1.len() < s.len(),
    decreases s.len(),
{
    lemma_dec_field_len(s, d);
    lemma_dec_field_rest(s, d);
    let t = dec_field(s, d);
    if t.1.len() > 0 && t.1[0] == d {
        lemma_dec_row_len(t.1.skip(1), d);
    }
}

/// Decode every row of the content.
pub open spec fn dec_rows(s: Seq<char>, d: char) -> Seq<Seq<Seq<char>>>
    decreases s.len(),
        via dec_rows_decreases
{
    if s.len() == 0 {
        Seq::empty()
    } else {
        let t = dec_row(s, d);
        seq![t.0] + dec_rows(t.1, d)
    }
}

#[via_fn]
proof fn dec_rows_decreases(s: Seq<char>, d: char) {
    lemma_dec_row_len(s, d);
}

/// Model of parsing: empty content has no header row and is malformed;
/// duplicate column names are malformed; data rows whose field count
/// differs from the header's are skipped.
pub open spec fn parse_model(s: Seq<char>, d: char, path: Seq<char>) -> Result<
    TableModel,
    ErrorModel,
> {
    let rows = dec_rows(s, d);
    if rows.len() == 0 {
        Err(ErrorModel::MalformedInput { path })
    } else if !rows[0].no_duplicates() {
        Err(ErrorModel::MalformedInput { path })
    } else {
        Ok(
            TableModel {
                names: rows[0],
                rows: rows.skip(1).filter(|r: Seq<Seq<char>>| r.len() == rows[0].len()),
            },
        )
    }
}

/// Escaping distributes over concatenation.
pub proof fn lemma_esc_add(a: Seq<char>, b: Seq<char>)
    ensures
        esc(a + b) == esc(a) + esc(b),
    decreases a.len(),
{
    if a.len() == 0 {
        assert(a + b =~= b);
        assert(esc(a) + esc(b) =~= esc(b));
    } else {
        lemma_esc_add(a.skip(1), b);
        assert((a + b).skip(1) =~= a.skip(1) + b);
        assert((a + b)[0] == a[0]);
        assert(((if a[0] == '"' {
            seq!['"', '"']
        } else {
            seq![a[0]]
        }) + esc(a.skip(1))) + esc(b) =~= (if a[0] == '"' {
            seq!['"', '"']
        } else {
            seq![a[0]]
        }) + (esc(a.skip(1)) + esc(b)));
    }
}

/// Escaping one character.
pub proof fn lemma_esc_singleton(c: char)
    ensures
        esc(seq![c]) == if c == '"' {
            seq!['"', '"']
        } else {
            seq![c]
        },
{
    reveal_with_fuel(esc, 2);
    assert(seq![c].skip(1) =~= Seq::<char>::empty());
    if c == '"' {
        assert(seq!['"', '"'] + Seq::<char>::empty() =~= seq!['"', '"']);
    } else {
        assert(seq![c] + Seq::<char>::empty() =~= seq![c]);
    }
}

/// One more field on a row.
pub proof fn lemma_enc_row_snoc(r: Seq<Seq<char>>, f: Seq<char>, d: char)
    requires
        r.len() >= 1,
    ensures
        enc_row(r.push(f), d) == enc_row(r, d) + seq![d] + enc_field(f, d),
    decreases r.len(),
{
    if r.len() == 1 {
        reveal_with_fuel(enc_row, 2);
        assert(r.push(f)[0] == r[0]);
        assert(r.push(f).skip(1) =~= seq![f]);
        assert(enc_row(seq![f], d) == enc_field(f, d));
        assert(enc_field(r[0], d) + seq![d] + enc_field(f, d) =~= enc_field(r[0], d) + (seq![d]
            + enc_field(f, d)));
        assert(enc_row(r.push(f), d) =~= enc_row(r, d) + seq![d] + enc_field(f, d));
    } else {
        lemma_enc_row_snoc(r.skip(1), f, d);
        assert(r.push(f).skip(1) =~= r.skip(1).push(f));
        assert(r.push(f)[0] == r[0]);
        assert(enc_field(r[0], d) + seq![d] + (enc_row(r.skip(1), d) + seq![d] + enc_field(f, d))
            =~= (enc_field(r[0], d) + seq![d] + enc_row(r.skip(1), d)) + seq![d] + enc_field(
            f,
            d,
        ));
    }
}

/// One more row on the encoded lines.
pub proof fn lemma_enc_lines_snoc(rows: Seq<Seq<Seq<char>>>, r: Seq<Seq<char>>, d: char)
    ensures
        enc_lines(rows.push(r), d) == enc_lines(rows, d) + enc_row(r, d) + seq!['\n'],
    decreases rows.len(),
{
    if rows.len() == 0 {
        reveal_with_fuel(enc_lines, 2);
        assert(rows.push(r)[0] == r);
        assert(rows.push(r).skip(1) =~= Seq::<Seq<Seq<char>>>::empty());
        assert(enc_lines(rows.push(r), d) =~= enc_lines(rows, d) + enc_row(r, d) + seq!['\n']);
    } else {
        lemma_enc_lines_snoc(rows.skip(1), r, d);
        assert(rows.push(r).skip(1) =~= rows.skip(1).push(r));
        assert(rows.push(r)[0] == rows[0]);
        assert(enc_row(rows[0], d) + seq!['\n'] + (enc_lines(rows.skip(1), d) + enc_row(r, d)
            + seq!['\n']) =~= (enc_row(rows[0], d) + seq!['\n'] + enc_lines(rows.skip(1), d))
            + enc_row(r, d) + seq!['\n']);
    }
}

/// Whether the field must be quoted.
fn field_needs_quote(f: &Vec<char>, d: char) -> (b: bool)
    ensures
        b == needs_quote(f@, d),
{
    let mut i: usize = 0;
    while i < f.len()
        invariant
            i <= f@.len(),
            forall|k: int|
                0 <= k < i ==> f@[k] != d && f@[k] != '"' && f@[k] != '\n' && f@[k] != '\r',
        decreases f@.len() - i,
    {
        let c = f[i];
        if c == d || c == '"' || c == '\n' || c == '\r' {
            return true;
        }
        i += 1;
    }
    proof {
        if needs_quote(f@, d) {
            if f@.contains(d) {
                let k = choose|k: int| 0 <= k < f@.len() && f@[k] == d;
            } else if f@.contains('"') {
                let k = choose|k: int| 0 <= k < f@.len() && f@[k] == '"';
            } else if f@.contains('\n') {
                let k = choose|k: int| 0 <= k < f@.len() && f@[k] == '\n';
            } else {
                let k = choose|k: int| 0 <= k < f@.len() && f@[k] == '\r';
            }
        }
    }
    false
}

/// Append one encoded field.
fn push_field(out: &mut Vec<char>, f: &Vec<char>, d: char)
    ensures
        final(out)@ == old(out)@ + enc_field(f@, d),
{
    let ghost base = out@;
    if !field_needs_quote(f, d) {
        let mut i: usize = 0;
        proof {
            assert(base + f@.take(0) =~= base);
        }
        while i < f.len()
            invariant
                i <= f@.len(),
                out@ == base + f@.take(i as int),
            decreases f@.len() - i,
        {
            let c = f[i];
            out.push(c);
            proof {
                assert(out@ =~= base + f@.take(i + 1));
            }
            i += 1;
        }
        proof {
            assert(f@.take(f@.len() as int) =~= f@);
        }
    } else {
        out.push('"');
        let mut i: usize = 0;
        proof {
            assert(out@ =~= base + seq!['"'] + esc(f@.take(0)));
        }
        while i < f.len()
            invariant
                i <= f@.len(),
                out@ == base + seq!['"'] + esc(f@.take(i as int)),
            decreases f@.len() - i,
        {
            let c = f[i];
            proof {
                assert(f@.take(i + 1) =~= f@.take(i as int) + seq![f@[i as int]]);
                lemma_esc_add(f@.take(i as int), seq![f@[i as int]]);
                lemma_esc_singleton(f@[i as int]);
            }
            if c == '"' {
                out.push('"');
                out.push('"');
                proof {
                    assert(out@ =~= base + seq!['"'] + esc(f@.take(i + 1)));
                }
            } else {
                out.push(c);
                proof {
                    assert(out@ =~= base + seq!['"'] + esc(f@.take(i + 1)));
                }
            }
            i += 1;
        }
        out.push('"');
        proof {
            assert(f@.take(f@.len() as int) =~= f@);
            assert(out@ =~= base + (seq!['"'] + esc(f@) + seq!['"']));
        }
    }
}

/// Append one encoded row.
fn push_row(out: &mut Vec<char>, r: &Vec<String>, d: char)
    requires
        r@.len() >= 1,
    ensures
        final(out)@ == old(out)@ + enc_row(r.deep_view(), d),
{
    let ghost base = out@;
    let ghost rd = r.deep_view();
    let f0 = to_chars(r[0].as_str());
    proof {
        assert(r@[0]@ == rd[0]);
    }
    push_field(out, &f0, d);
    let mut i: usize = 1;
    proof {
        if rd.len() == 1 {
        } else {
            assert(rd.take(1) =~= seq![rd[0]]);
            assert(enc_row(seq![rd[0]], d) == enc_field(rd[0], d));
        }
        assert(rd.take(1) =~= seq![rd[0]]);
        assert(enc_row(rd.take(1), d) == enc_field(rd[0], d));
    }
    while i < r.len()
        invariant
            1 <= i <= r@.len(),
            rd == r.deep_view(),
            rd.len() == r@.len(),
            out@ == base + enc_row(rd.take(i as int), d),
        decreases r@.len() - i,
    {
        out.push(d);
        let fi = to_chars(r[i].as_str());
        proof {
            assert(r@[i as int]@ == rd[i as int]);
        }
        push_field(out, &fi, d);
        proof {
            assert(rd.take(i + 1) =~= rd.take(i as int).push(rd[i as int]));
            lemma_enc_row_snoc(rd.take(i as int), rd[i as int], d);
            assert(out@ =~= base + (enc_row(rd.take(i as int), d) + seq![d] + enc_field(
                rd[i as int],
                d,
            )));
        }
        i += 1;
    }
    proof {
        assert(rd.take(rd.len() as int) =~= rd);
    }
}

/// Serialize the table as comma-delimited text: a header row with the
/// column names, then one line per row, each line closed by a line feed;
/// fields holding a comma, a quote or a line break are quoted.
pub fn write_table(t: &Table) -> (out: String)
    requires
        t.wf(),
    ensures
        out@ == enc_table(t@, ','),
{
    let mut buf: Vec<char> = Vec::new();
    let ghost names = t@.names;
    let ghost rows = t@.rows;
    push_row(&mut buf, &t.names, ',');
    buf.push('\n');
    let mut i: usize = 0;
    proof {
        assert(buf@ =~= enc_row(names, ',') + seq!['\n'] + enc_lines(rows.take(0), ','));
    }
    while i < t.rows.len()
        invariant
            t.wf(),
            i <= t.rows@.len(),
            names == t@.names,
            rows == t@.rows,
            rows.len() == t.rows@.len(),
            buf@ == enc_row(names, ',') + seq!['\n'] + enc_lines(rows.take(i as int), ','),
        decreases t.rows@.len() - i,
    {
        proof {
            assert(t@.rows[i as int].len() == names.len());
            assert(t.rows@[i as int].deep_view() == rows[i as int]);
        }
        push_row(&mut buf, &t.rows[i], ',');
        buf.push('\n');
        proof {
            assert(rows.take(i + 1) =~= rows.take(i as int).push(rows[i as int]));
            lemma_enc_lines_snoc(rows.take(i as int), rows[i as int], ',');
            assert(buf@ =~= enc_row(names, ',') + seq!['\n'] + (enc_lines(rows.take(i as int), ',')
                + enc_row(rows[i as int], ',') + seq!['\n']));
        }
        i += 1;
    }
    proof {
        assert(rows.take(rows.len() as int) =~= rows);
        assert((seq![names] + rows)[0] == names);
        assert((seq![names] + rows).skip(1) =~= rows);
        assert(enc_table(t@, ',') == enc_row(names, ',') + seq!['\n'] + enc_lines(rows, ','));
    }
    chars_to_string(&buf)
}

/// Decoding a quoted body undoes the escaping, and stops exactly at the
/// closing quote.
proof fn lemma_dec_quoted_of_esc(f: Seq<char>, rest: Seq<char>, d: char)
    requires
        rest.len() == 0 || rest[0] != '"',
    ensures
        dec_quoted(esc(f) + seq!['"'] + rest, d) == (f, rest),
    decreases f.len(),
{
    let s = esc(f) + seq!['"'] + rest;
    if f.len() == 0 {
        assert(s =~= seq!['"'] + rest);
        assert(s[0] == '"');
        if s.len() >= 2 {
            assert(s[1] == rest[0]);
        }
        assert(s.skip(1) =~= rest);
        assert(dec_quoted(s, d).0 =~= f);
    } else if f[0] == '"' {
        lemma_dec_quoted_of_esc(f.skip(1), rest, d);
        assert(esc(f) == seq!['"', '"'] + esc(f.skip(1)));
        assert(s =~= seq!['"', '"'] + (esc(f.skip(1)) + seq!['"'] + rest));
        assert(s[0] == '"' && s[1] == '"' && s.len() >= 2);
        assert(s.skip(2) =~= esc(f.skip(1)) + seq!['"'] + rest);
        assert(seq!['"'] + f.skip(1) =~= f);
    } else {
        lemma_dec_quoted_of_esc(f.skip(1), rest, d);
        assert(esc(f) == seq![f[0]] + esc(f.skip(1)));
        assert(s[0] == f[0]);
        assert(s.skip(1) =~= esc(f.skip(1)) + seq!['"'] + rest);
        assert(seq![f[0]] + f.skip(1) =~= f);
    }
}

/// Decoding an unquoted field stops exactly at the terminator.
proof fn lemma_dec_raw_of(f: Seq<char>, rest: Seq<char>, d: char)
    requires
        !f.contains(d),
        !f.contains('\n'),
        rest.len() == 0 || rest[0] == d || rest[0] == '\n',
    ensures
        dec_raw(f + rest, d) == (f, rest),
    decreases f.len(),
{
    let s = f + rest;
    if f.len() == 0 {
        assert(s =~= rest);
        assert(dec_raw(s, d).0 =~= f);
    } else {
        assert(f.contains(f[0]));
        assert(f[0] != d && f[0] != '\n');
        assert(s[0] == f[0]);
        assert forall|k: int| 0 <= k < f.skip(1).len() implies f.skip(1)[k] != d && f.skip(1)[k]
            != '\n' by {
            assert(f.skip(1)[k] == f[k + 1]);
            if f[k + 1] == d {
                assert(f.contains(d));
            }
            if f[k + 1] == '\n' {
                assert(f.contains('\n'));
            }
        }
        if f.skip(1).contains(d) {
            let k = choose|k: int| 0 <= k < f.skip(1).len() && f.skip(1)[k] == d;
        }
        if f.skip(1).contains('\n') {
            let k = choose|k: int| 0 <= k < f.skip(1).len() && f.skip(1)[k] == '\n';
        }
        lemma_dec_raw_of(f.skip(1), rest, d);
        assert(s.skip(1) =~= f.skip(1) + rest);
        assert(seq![f[0]] + f.skip(1) =~= f);
    }
}

/// Decoding an encoded field gives the field back and stops exactly at
/// the terminator.
proof fn lemma_dec_field_of_enc(f: Seq<char>, rest: Seq<char>, d: char)
    requires
        d != '"',
        d != '\n',
        rest.len() == 0 || rest[0] == d || rest[0] == '\n',
    ensures
        dec_field(enc_field(f, d) + rest, d) == (f, rest),
{
    let s = enc_field(f, d) + rest;
    if needs_quote(f, d) {
        assert(s =~= seq!['"'] + (esc(f) + seq!['"'] + rest));
        assert(s[0] == '"');
        assert(s.skip(1) =~= esc(f) + seq!['"'] + rest);
        lemma_dec_quoted_of_esc(f, rest, d);
        assert(dec_raw(rest, d) == (Seq::<char>::empty(), rest));
        assert(f + Seq::<char>::empty() =~= f);
    } else {
        assert(s =~= f + rest);
        if f.len() > 0 {
            assert(f.contains(f[0]));
            assert(f[0] != '"');
            assert(s[0] == f[0]);
        } else {
            assert(s =~= rest);
        }
        lemma_dec_raw_of(f, rest, d);
    }
}

/// Decoding an encoded row gives the row back and consumes its line feed.
proof fn lemma_dec_row_of_enc(r: Seq<Seq<char>>, rest: Seq<char>, d: char)
    requires
        r.len() >= 1,
        d != '"',
        d != '\n',
    ensures
        dec_row(enc_row(r, d) + seq!['\n'] + rest, d) == (r, rest),
    decreases r.len(),
{
    let s = enc_row(r, d) + seq!['\n'] + rest;
    if r.len() == 1 {
        assert(s =~= enc_field(r[0], d) + (seq!['\n'] + rest));
        lemma_dec_field_of_enc(r[0], seq!['\n'] + rest, d);
        let t = dec_field(s, d);
        assert(t.0 == r[0] && t.1 == seq!['\n'] + rest);
        assert(t.1[0] == '\n');
        assert(t.1.skip(1) =~= rest);
        assert(seq![t.0] =~= r);
    } else {
        lemma_dec_row_of_enc(r.skip(1), rest, d);
        assert(s =~= enc_field(r[0], d) + (seq![d] + (enc_row(r.skip(1), d) + seq!['\n'] + rest)));
        let rest1 = seq![d] + (enc_row(r.skip(1), d) + seq!['\n'] + rest);
        lemma_dec_field_of_enc(r[0], rest1, d);
        let t = dec_field(s, d);
        assert(t.0 == r[0] && t.1 == rest1);
        assert(t.1[0] == d);
        assert(t.1.skip(1) =~= enc_row(r.skip(1), d) + seq!['\n'] + rest);
        assert(seq![r[0]] + r.skip(1) =~= r);
    }
}

/// Decoding encoded lines gives every row back.
proof fn lemma_dec_rows_of_enc(rows: Seq<Seq<Seq<char>>>, d: char)
    requires
        forall|i: int| 0 <= i < rows.len() ==> (#[trigger] rows[i]).len() >= 1,
        d != '"',
        d != '\n',
    ensures
        dec_rows(enc_lines(rows, d), d) == rows,
    decreases rows.len(),
{
    if rows.len() == 0 {
        assert(dec_rows(enc_lines(rows, d), d) =~= rows);
    } else {
        let tail = rows.skip(1);
        assert(forall|i: int| 0 <= i < tail.len() ==> (#[trigger] tail[i]).len() >= 1);
        lemma_dec_rows_of_enc(tail, d);
        let s = enc_lines(rows, d);
        assert(s == enc_row(rows[0], d) + seq!['\n'] + enc_lines(tail, d));
        assert(s.len() > 0);
        lemma_dec_row_of_enc(rows[0], enc_lines(tail, d), d);
        assert(dec_row(s, d) == (rows[0], enc_lines(tail, d)));
        assert(seq![rows[0]] + tail =~= rows);
    }
}

/// Round trip: parsing what the writer produced yields the very same
/// table, and on a table whose names are already normalized (no `.`
/// characters) the header normalization of a re-load changes nothing.
pub proof fn lemma_write_read_round_trip(t: TableModel, path: Seq<char>)
    requires
        t.wf(),
        forall|k: int| 0 <= k < t.names.len() ==> !(#[trigger] t.names[k]).contains('.'),
    ensures
        parse_model(enc_table(t, ','), ',', path) == Ok::<TableModel, ErrorModel>(t),
        t.names.map_values(|n: Seq<char>| crate::headers::strip_dots(n)) == t.names,
{
    let all = seq![t.names] + t.rows;
    assert forall|i: int| 0 <= i < all.len() implies (#[trigger] all[i]).len() >= 1 by {
        if i == 0 {
            assert(all[0] == t.names);
        } else {
            assert(all[i] == t.rows[i - 1]);
        }
    }
    lemma_dec_rows_of_enc(all, ',');
    let rows = dec_rows(enc_table(t, ','), ',');
    assert(rows == all);
    assert(rows[0] == t.names);
    assert(rows.skip(1) =~= t.rows);
    let pred = |r: Seq<Seq<char>>| r.len() == rows[0].len();
    assert(forall|i: int| 0 <= i < t.rows.len() ==> pred(#[trigger] t.rows[i]));
    crate::project::lemma_filter_all(t.rows, pred);
    assert(parse_model(enc_table(t, ','), ',', path)->Ok_0 =~= t);
    assert forall|k: int| 0 <= k < t.names.len() implies crate::headers::strip_dots(
        #[trigger] t.names[k],
    ) == t.names[k] by {
        lemma_strip_dots_noop(t.names[k]);
    }
    assert(t.names.map_values(|n: Seq<char>| crate::headers::strip_dots(n)) =~= t.names);
}

/// Stripping dots from a name without dots changes nothing.
proof fn lemma_strip_dots_noop(s: Seq<char>)
    requires
        !s.contains('.'),
    ensures
        crate::headers::strip_dots(s) == s,
    decreases s.len(),
{
    if s.len() == 0 {
    } else {
        assert(s.contains(s[0]));
        assert(s[0] != '.');
        if s.skip(1).contains('.') {
            let k = choose|k: int| 0 <= k < s.skip(1).len() && s.skip(1)[k] == '.';
            assert(s[k + 1] == '.');
            assert(s.contains('.'));
        }
        lemma_strip_dots_noop(s.skip(1));
        assert(seq![s[0]] + s.skip(1) =~= s);
    }
}

/// Read an unquoted field starting at `i`; returns the field and the
/// position of the unconsumed rest.
fn dec_raw_exec(v: &Vec<char>, i: usize, d: char) -> (r: (Vec<char>, usize))
    requires
        i <= v@.len(),
    ensures
        r.0@ == dec_raw(v@.skip(i as int), d).0,
        v@.skip(r.1 as int) == dec_raw(v@.skip(i as int), d).1,
        i <= r.1 <= v@.len(),
    decreases v@.len() - i,
{
    if i == v.len() {
        proof {
            assert(v@.skip(i as int) =~= Seq::<char>::empty());
        }
        (Vec::new(), i)
    } else {
        let c = v[i];
        proof {
            assert(v@.skip(i as int)[0] == v@[i as int]);
            assert(v@.skip(i as int).skip(1) =~= v@.skip(i + 1));
        }
        if c == d || c == '\n' {
            (Vec::new(), i)
        } else {
            let (mut f, j) = dec_raw_exec(v, i + 1, d);
            let ghost fv = f@;
            f.insert(0, c);
            proof {
                assert(f@ =~= seq![v@[i as int]] + fv);
            }
            (f, j)
        }
    }
}

/// Read the inside of a quoted field starting at `i` (just after the
/// opening quote); returns the content and the position after the
/// closing quote.
fn dec_quoted_exec(v: &Vec<char>, i: usize, d: char) -> (r: (Vec<char>, usize))
    requires
        i <= v@.len(),
    ensures
        r.0@ == dec_quoted(v@.skip(i as int), d).0,
        v@.skip(r.1 as int) == dec_quoted(v@.skip(i as int), d).1,
        i <= r.1 <= v@.len(),
    decreases v@.len() - i,
{
    if i == v.len() {
        proof {
            assert(v@.skip(i as int) =~= Seq::<char>::empty());
        }
        (Vec::new(), i)
    } else {
        let c = v[i];
        proof {
            assert(v@.skip(i as int)[0] == v@[i as int]);
            assert(v@.skip(i as int).skip(1) =~= v@.skip(i + 1));
        }
        if c == '"' {
            if i + 1 < v.len() && v[i + 1] == '"' {
                proof {
                    assert(v@.skip(i as int)[1] == v@[i + 1]);
                    assert(v@.skip(i as int).skip(2) =~= v@.skip(i + 2));
                }
                let (mut f, j) = dec_quoted_exec(v, i + 2, d);
                let ghost fv = f@;
                f.insert(0, '"');
                proof {
                    assert(f@ =~= seq!['"'] + fv);
                }
                (f, j)
            } else {
                proof {
                    if v@.skip(i as int).len() >= 2 {
                        assert(v@.skip(i as int)[1] == v@[i + 1]);
                    }
                }
                (Vec::new(), i + 1)
            }
        } else {
            let (mut f, j) = dec_quoted_exec(v, i + 1, d);
            let ghost fv = f@;
            f.insert(0, c);
            proof {
                assert(f@ =~= seq![v@[i as int]] + fv);
            }
            (f, j)
        }
    }
}

/// Read one field starting at `i`.
fn dec_field_exec(v: &Vec<char>, i: usize, d: char) -> (r: (Vec<char>, usize))
    requires
        i <= v@.len(),
    ensures
        r.0@ == dec_field(v@.skip(i as int), d).0,
        v@.skip(r.1 as int) == dec_field(v@.skip(i as int), d).1,
        i <= r.1 <= v@.len(),
{
    if i < v.len() && v[i] == '"' {
        proof {
            assert(v@.skip(i as int)[0] == v@[i as int]);
            assert(v@.skip(i as int).skip(1) =~= v@.skip(i + 1));
        }
        let (mut q, j) = dec_quoted_exec(v, i + 1, d);
        let (mut g, j2) = dec_raw_exec(v, j, d);
        let ghost qv = q@;
        let ghost gv = g@;
        q.append(&mut g);
        proof {
            assert(q@ == qv + gv);
        }
        (q, j2)
    } else {
        proof {
            if i < v@.len() {
                assert(v@.skip(i as int)[0] == v@[i as int]);
            } else {
                assert(v@.skip(i as int) =~= Seq::<char>::empty());
            }
        }
        dec_raw_exec(v, i, d)
    }
}

/// Read one row starting at `i`; returns the row's fields and the
/// position after the row's terminator.
fn dec_row_exec(v: &Vec<char>, i: usize, d: char) -> (r: (Vec<String>, usize))
    requires
        i <= v@.len(),
    ensures
        r.0.deep_view() == dec_row(v@.skip(i as int), d).0,
        v@.skip(r.1 as int) == dec_row(v@.skip(i as int), d).1,
        i <= r.1 <= v@.len(),
    decreases v@.len() - i,
{
    let (f, j) = dec_field_exec(v, i, d);
    let fs = chars_to_string(&f);
    let ghost t = dec_field(v@.skip(i as int), d);
    if j < v.len() && v[j] == d {
        proof {
            assert(t.1[0] == v@[j as int]);
            assert(t.1.skip(1) =~= v@.skip(j + 1));
        }
        let (mut rr, j2) = dec_row_exec(v, j + 1, d);
        let ghost rrv = rr.deep_view();
        rr.insert(0, fs);
        proof {
            assert(rr.deep_view() =~= seq![t.0] + rrv);
        }
        (rr, j2)
    } else if j < v.len() && v[j] == '\n' {
        proof {
            assert(t.1[0] == v@[j as int]);
            assert(t.1.skip(1) =~= v@.skip(j + 1));
        }
        let mut row: Vec<String> = Vec::new();
        row.push(fs);
        proof {
            assert(row.deep_view() =~= seq![t.0]);
        }
        (row, j + 1)
    } else {
        proof {
            if j < v@.len() {
                assert(t.1[0] == v@[j as int]);
            } else {
                assert(t.1 =~= Seq::<char>::empty());
            }
        }
        let mut row: Vec<String> = Vec::new();
        row.push(fs);
        proof {
            assert(row.deep_view() =~= seq![t.0]);
        }
        (row, j)
    }
}

/// A row always has at least one field.
pub proof fn lemma_dec_row_width(s: Seq<char>, d: char)
    ensures
        dec_row(s, d).0.len() >= 1,
{
}

/// Read every row of the content.
fn dec_rows_exec(v: &Vec<char>, i: usize, d: char) -> (out: Vec<Vec<String>>)
    requires
        i <= v@.len(),
    ensures
        out.deep_view() == dec_rows(v@.skip(i as int), d),
    decreases v@.len() - i,
{
    if i == v.len() {
        proof {
            assert(v@.skip(i as int) =~= Seq::<char>::empty());
        }
        Vec::new()
    } else {
        proof {
            lemma_dec_row_len(v@.skip(i as int), d);
        }
        let (row, j) = dec_row_exec(v, i, d);
        let mut rest = dec_rows_exec(v, j, d);
        let ghost rv = rest.deep_view();
        rest.insert(0, row);
        proof {
            assert(rest.deep_view() =~= seq![row.deep_view()] + rv);
        }
        rest
    }
}

/// Parse delimited content with a header row into a table. Empty content
/// and duplicate column names are malformed; a data row whose field count
/// differs from the header's is skipped.
pub fn parse_content(content: &str, delim: char, path: &str) -> (r: Result<Table, MergeError>)
    ensures
        table_res_model(r) == parse_model(content@, delim, path@),
        r is Ok ==> r.unwrap().wf(),
{
    let v = to_chars(content);
    proof {
        assert(v@.skip(0) =~= v@);
    }
    let all = dec_rows_exec(&v, 0, delim);
    let ghost rows_m = dec_rows(content@, delim);
    if all.len() == 0 {
        return Err(MergeError::MalformedInput { path: path.to_owned() });
    }
    let names = clone_row(&all[0]);
    proof {
        assert(all@[0].deep_view() == rows_m[0]);
    }
    if !crate::headers::names_unique(&names) {
        return Err(MergeError::MalformedInput { path: path.to_owned() });
    }
    let width = names.len();
    proof {
        assert(names.deep_view().len() == names@.len());
    }
    let mut rows: Vec<Vec<String>> = Vec::new();
    let mut k: usize = 1;
    let ghost pred = |r: Seq<Seq<char>>| r.len() == rows_m[0].len();
    proof {
        assert(rows_m.subrange(1, 1) =~= Seq::<Seq<Seq<char>>>::empty());
        reveal(Seq::filter);
    }
    while k < all.len()
        invariant
            1 <= k <= all@.len(),
            rows_m == all.deep_view(),
            rows_m.len() == all@.len(),
            width == rows_m[0].len(),
            pred == (|r: Seq<Seq<char>>| r.len() == rows_m[0].len()),
            rows.deep_view() == rows_m.subrange(1, k as int).filter(pred),
        decreases all@.len() - k,
    {
        proof {
            assert(all@[k as int].deep_view() == rows_m[k as int]);
            assert(rows_m.subrange(1, k + 1) =~= rows_m.subrange(1, k as int).push(
                rows_m[k as int],
            ));
            crate::project::lemma_filter_push(rows_m.subrange(1, k as int), pred, rows_m[k as int]);
        }
        if all[k].len() == width {
            let c = clone_row(&all[k]);
            let ghost prev = rows.deep_view();
            rows.push(c);
            proof {
                assert(rows.deep_view() =~= prev.push(rows_m[k as int]));
                assert(prev.push(rows_m[k as int]) =~= prev + seq![rows_m[k as int]]);
            }
        } else {
            proof {
                assert(rows.deep_view() + Seq::<Seq<Seq<char>>>::empty() =~= rows.deep_view());
            }
        }
        k += 1;
    }
    proof {
        assert(rows_m.subrange(1, rows_m.len() as int) =~= rows_m.skip(1));
    }
    let out = Table { names, rows };
    proof {
        assert(out@ =~= parse_model(content@, delim, path@)->Ok_0);
        if content@.len() > 0 {
            lemma_dec_row_width(content@, delim);
        }
        assert(out@.names.len() >= 1);
        rows_m.skip(1).filter_lemma(pred);
        assert forall|m: int| 0 <= m < out@.rows.len() implies (#[trigger] out@.rows[m]).len()
            == out@.names.len() by {
            assert(pred(rows_m.skip(1).filter(pred)[m]));
        }
    }
    Ok(out)
}

} // verus!
