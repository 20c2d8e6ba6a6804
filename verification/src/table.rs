//! The tables the command line prints: columns padded to the widest cell,
//! two spaces apart.
use vstd::prelude::*;
use vstd::string::*;
use vstd::utf8::encode_utf8;

use crate::cli::keys_sorted;
use crate::node::{NodeInspection, NodeSummary};
use crate::text::{decimal, decimal_string, owned, push_char, texts};

verus! {

/// The rows of a table by their texts.
pub open spec fn rows_text(rows: Seq<Vec<String>>) -> Seq<Seq<Seq<char>>> {
    rows.map_values(|r: Vec<String>| texts(r@))
}

/// The length of a text in UTF-8 bytes, as `str::len` gives it.
pub open spec fn byte_len(s: Seq<char>) -> nat {
    (encode_utf8(s).len() as usize) as nat
}

/// The width of column `c`: the byte length of its longest cell.
pub open spec fn col_width(rows: Seq<Seq<Seq<char>>>, c: int) -> nat
    decreases rows.len(),
{
    if rows.len() == 0 {
        0
    } else {
        let w = col_width(rows.drop_last(), c);
        let last = rows.last();
        let x = if 0 <= c < last.len() {
            byte_len(last[c])
        } else {
            0
        };
        if x > w {
            x
        } else {
            w
        }
    }
}

/// A cell left-aligned in `w` characters (`{:<w$}`): spaces after it up to
/// `w` characters, none if it is that long already.
pub open spec fn padded(v: Seq<char>, w: nat) -> Seq<char> {
    if v.len() < w {
        v + Seq::new((w - v.len()) as nat, |i: int| ' ')
    } else {
        v
    }
}

/// The first `i` cells of `row`, each padded to its column's width, two
/// spaces between cells.
pub open spec fn render_cells(row: Seq<Seq<char>>, rows: Seq<Seq<Seq<char>>>, i: int) -> Seq<char>
    decreases i,
{
    if i <= 0 {
        seq![]
    } else {
        render_cells(row, rows, i - 1) + (if i - 1 > 0 {
            seq![' ', ' ']
        } else {
            seq![]
        }) + padded(row[i - 1], col_width(rows, i - 1))
    }
}

/// The first `k` rows of the table, each ended by a newline.
pub open spec fn render_rows(rows: Seq<Seq<Seq<char>>>, k: int) -> Seq<char>
    decreases k,
{
    if k <= 0 {
        seq![]
    } else {
        render_rows(rows, k - 1) + render_cells(rows[k - 1], rows, rows[k - 1].len() as int) + seq!['\n']
    }
}

/// The whole table as printed.
pub open spec fn rendered(rows: Seq<Seq<Seq<char>>>) -> Seq<char> {
    render_rows(rows, rows.len() as int)
}

/// `key=value`.
pub open spec fn label_text(l: (String, String)) -> Seq<char> {
    l.0@ + "="@ + l.1@
}

/// The labels as `key=value`, comma-separated.
pub open spec fn labels_text(labels: Seq<(String, String)>) -> Seq<char>
    decreases labels.len(),
{
    if labels.len() == 0 {
        seq![]
    } else if labels.len() == 1 {
        label_text(labels[0])
    } else {
        labels_text(labels.drop_last()) + ","@ + label_text(labels.last())
    }
}

pub open spec fn node_row(n: NodeSummary) -> Seq<Seq<char>> {
    seq![n.name@, n.provider@, n.host@, n.user@, decimal(n.port as nat), labels_text(n.labels@)]
}

/// The rows of a node listing: a header, then one row per node.
pub open spec fn node_rows(nodes: Seq<NodeSummary>) -> Seq<Seq<Seq<char>>> {
    seq![seq!["NAME"@, "PROVIDER"@, "HOST"@, "USER"@, "PORT"@, "LABELS"@]] + nodes.map_values(
        |n: NodeSummary| node_row(n),
    )
}

pub open spec fn text_or_empty(v: Option<String>) -> Seq<char> {
    match v {
        Some(s) => s@,
        None => seq![],
    }
}

pub open spec fn number_or_empty(v: Option<u64>) -> Seq<char> {
    match v {
        Some(n) => decimal(n as nat),
        None => seq![],
    }
}

/// The rows of an inspection: a header, then one row per field, empty where
/// nothing was found.
pub open spec fn inspection_rows(i: NodeInspection) -> Seq<Seq<Seq<char>>> {
    seq![
        seq!["FIELD"@, "VALUE"@],
        seq!["name"@, i.name@],
        seq!["hostname"@, text_or_empty(i.hostname)],
        seq!["os"@, text_or_empty(i.os)],
        seq!["arch"@, text_or_empty(i.arch)],
        seq!["cpu_cores"@, number_or_empty(
            match i.cpu_cores {
                Some(c) => Some(c as u64),
                None => None,
            },
        )],
        seq!["memory_total_mb"@, number_or_empty(i.memory_total_mb)],
        seq!["disk_total_mb"@, number_or_empty(i.disk_total_mb)],
        seq!["uptime"@, text_or_empty(i.uptime)],
    ]
}

/// The width of column `c` of the table.
fn column_width(rows: &Vec<Vec<String>>, c: usize) -> (w: usize)
    ensures
        w as nat == col_width(rows_text(rows@), c as int),
{
    let mut acc: usize = 0;
    let mut k: usize = 0;
    let ghost all = rows_text(rows@);
    assert(all.subrange(0, 0) =~= Seq::<Seq<Seq<char>>>::empty());
    while k < rows.len()
        invariant
            k <= rows@.len(),
            all == rows_text(rows@),
            acc as nat == col_width(all.subrange(0, k as int), c as int),
        decreases rows.len() - k,
    {
        let ghost p = all.subrange(0, k + 1);
        assert(p.drop_last() =~= all.subrange(0, k as int));
        assert(p.last() == texts(rows@[k as int]@));
        let x: usize = if c < rows[k].len() {
            let cell = rows[k][c].as_str();
            assert(p.last()[c as int] == rows@[k as int]@[c as int]@);
            cell.len()
        } else {
            0
        };
        if x > acc {
            acc = x;
        }
        k += 1;
    }
    assert(all.subrange(0, rows@.len() as int) =~= all);
    acc
}

/// Appends `v` padded to `w` characters.
fn push_padded(out: &mut String, v: &String, w: usize)
    ensures
        final(out)@ == old(out)@ + padded(v@, w as nat),
{
    out.append(v.as_str());
    let mut n = v.as_str().unicode_len();
    let ghost start = out@;
    assert(start =~= old(out)@ + v@);
    while n < w
        invariant
            v@.len() <= n <= w || (n == v@.len() && n >= w),
            out@ == start + Seq::new((n - v@.len()) as nat, |i: int| ' '),
        decreases w - n,
    {
        push_char(out, ' ');
        assert(out@ =~= start + Seq::new((n + 1 - v@.len()) as nat, |i: int| ' '));
        n += 1;
    }
    proof {
        if v@.len() >= w as nat {
            assert(out@ =~= start);
        } else {
            assert(n == w);
        }
    }
}

/// The table as printed: every row on its own line, each cell padded to
/// the widest cell of its column, two spaces between cells.
pub fn print_rows(rows: &Vec<Vec<String>>) -> (r: String)
    ensures
        r@ == rendered(rows_text(rows@)),
{
    let ghost all = rows_text(rows@);
    let mut out = String::new();
    let mut k: usize = 0;
    while k < rows.len()
        invariant
            k <= rows@.len(),
            all == rows_text(rows@),
            out@ == render_rows(all, k as int),
        decreases rows.len() - k,
    {
        let row = &rows[k];
        let ghost rv = all[k as int];
        assert(rv == texts(row@));
        let ghost base = out@;
        let mut i: usize = 0;
        while i < row.len()
            invariant
                i <= row@.len(),
                all == rows_text(rows@),
                rv == texts(row@),
                out@ == base + render_cells(rv, all, i as int),
            decreases row.len() - i,
        {
            let ghost before = out@;
            if i > 0 {
                out.append("  ");
                proof {
                    reveal_strlit("  ");
                }
            }
            let w = column_width(rows, i);
            push_padded(&mut out, &row[i], w);
            assert(rv[i as int] == row@[i as int]@);
            assert(out@ =~= base + render_cells(rv, all, i + 1));
            i += 1;
        }
        push_char(&mut out, '\n');
        assert(out@ =~= render_rows(all, k + 1));
        k += 1;
    }
    out
}

/// Adds the row `name`, `value`.
pub fn add_field(rows: &mut Vec<Vec<String>>, name: &str, value: String)
    ensures
        rows_text(final(rows)@) == rows_text(old(rows)@).push(seq![name@, value@]),
{
    let mut row: Vec<String> = Vec::new();
    row.push(owned(name));
    row.push(value);
    let ghost rv = texts(row@);
    assert(rv =~= seq![name@, row@[1]@]);
    rows.push(row);
    assert(rows_text(rows@) =~= rows_text(old(rows)@).push(rv));
}

fn labels_string(labels: &Vec<(String, String)>) -> (r: String)
    ensures
        r@ == labels_text(labels@),
{
    let mut out = String::new();
    let mut i: usize = 0;
    assert(labels@.subrange(0, 0) =~= Seq::<(String, String)>::empty());
    while i < labels.len()
        invariant
            i <= labels@.len(),
            out@ == labels_text(labels@.subrange(0, i as int)),
        decreases labels.len() - i,
    {
        let ghost p = labels@.subrange(0, i + 1);
        assert(p.drop_last() =~= labels@.subrange(0, i as int));
        assert(p.last() == labels@[i as int]);
        if i > 0 {
            out.append(",");
        }
        out.append(labels[i].0.as_str());
        out.append("=");
        out.append(labels[i].1.as_str());
        proof {
            if i == 0 {
                assert(out@ =~= label_text(p[0]));
            } else {
                assert(out@ =~= labels_text(p.drop_last()) + ","@ + label_text(p.last()));
            }
        }
        i += 1;
    }
    assert(labels@.subrange(0, labels@.len() as int) =~= labels@);
    out
}

/// The listing of `nodes` as printed: name, provider, host, user, port and
/// labels of each node under a header. Each node's labels are in increasing
/// order of key, as `SshProvider::list_nodes` gives them.
pub fn print_nodes(nodes: &[NodeSummary]) -> (r: String)
    requires
        forall|i: int| 0 <= i < nodes@.len() ==> keys_sorted(#[trigger] nodes@[i].labels@),
    ensures
        r@ == rendered(node_rows(nodes@)),
{
    let mut rows: Vec<Vec<String>> = Vec::new();
    let mut header: Vec<String> = Vec::new();
    header.push(owned("NAME"));
    header.push(owned("PROVIDER"));
    header.push(owned("HOST"));
    header.push(owned("USER"));
    header.push(owned("PORT"));
    header.push(owned("LABELS"));
    assert(texts(header@) =~= seq!["NAME"@, "PROVIDER"@, "HOST"@, "USER"@, "PORT"@, "LABELS"@]);
    rows.push(header);
    let ghost target = node_rows(nodes@);
    assert(rows_text(rows@) =~= target.subrange(0, 1));
    let mut i: usize = 0;
    while i < nodes.len()
        invariant
            i <= nodes@.len(),
            target == node_rows(nodes@),
            rows_text(rows@) == target.subrange(0, i + 1),
        decreases nodes.len() - i,
    {
        let node = &nodes[i];
        let mut row: Vec<String> = Vec::new();
        row.push(node.name.clone());
        row.push(node.provider.clone());
        row.push(node.host.clone());
        row.push(node.user.clone());
        row.push(decimal_string(node.port as u64));
        row.push(labels_string(&node.labels));
        assert(texts(row@) =~= node_row(nodes@[i as int]));
        let ghost before = rows_text(rows@);
        rows.push(row);
        assert(rows_text(rows@) =~= before.push(node_row(nodes@[i as int])));
        assert(target[i + 1] == node_row(nodes@[i as int]));
        assert(rows_text(rows@) =~= target.subrange(0, i + 2));
        i += 1;
    }
    assert(target.subrange(0, (nodes@.len() + 1) as int) =~= target);
    print_rows(&rows)
}

fn text_field(v: &Option<String>) -> (r: String)
    ensures
        r@ == text_or_empty(*v),
{
    match v {
        Some(s) => s.clone(),
        None => String::new(),
    }
}

fn number_field(v: Option<u64>) -> (r: String)
    ensures
        r@ == number_or_empty(v),
{
    match v {
        Some(n) => decimal_string(n),
        None => String::new(),
    }
}

/// The inspection as printed: one row per field under a header.
pub fn print_inspection(inspection: &NodeInspection) -> (r: String)
    ensures
        r@ == rendered(inspection_rows(*inspection)),
{
    let mut rows: Vec<Vec<String>> = Vec::new();
    let mut header: Vec<String> = Vec::new();
    header.push(owned("FIELD"));
    header.push(owned("VALUE"));
    assert(texts(header@) =~= seq!["FIELD"@, "VALUE"@]);
    rows.push(header);
    assert(rows_text(rows@) =~= seq![seq!["FIELD"@, "VALUE"@]]);
    add_field(&mut rows, "name", inspection.name.clone());
    add_field(&mut rows, "hostname", text_field(&inspection.hostname));
    add_field(&mut rows, "os", text_field(&inspection.os));
    add_field(&mut rows, "arch", text_field(&inspection.arch));
    let cores = match inspection.cpu_cores {
        Some(c) => Some(c as u64),
        None => None,
    };
    add_field(&mut rows, "cpu_cores", number_field(cores));
    add_field(&mut rows, "memory_total_mb", number_field(inspection.memory_total_mb));
    add_field(&mut rows, "disk_total_mb", number_field(inspection.disk_total_mb));
    add_field(&mut rows, "uptime", text_field(&inspection.uptime));
    assert(rows_text(rows@) =~~= inspection_rows(*inspection));
    print_rows(&rows)
}

/// The width of a line of the table that has `i` cells: the widths of the
/// first `i` columns, two spaces between them.
pub open spec fn table_width(rows: Seq<Seq<Seq<char>>>, i: int) -> int
    decreases i,
{
    if i <= 0 {
        0
    } else {
        table_width(rows, i - 1) + (if i - 1 > 0 {
            2int
        } else {
            0int
        }) + col_width(rows, i - 1)
    }
}

proof fn lemma_col_width_covers(rows: Seq<Seq<Seq<char>>>, c: int, k: int)
    requires
        0 <= k < rows.len(),
        0 <= c < rows[k].len(),
    ensures
        col_width(rows, c) >= byte_len(rows[k][c]),
    decreases rows.len(),
{
    if k < rows.len() - 1 {
        lemma_col_width_covers(rows.drop_last(), c, k);
        assert(rows.drop_last()[k] == rows[k]);
    }
}

proof fn lemma_bytes_cover_chars(s: Seq<char>)
    ensures
        encode_utf8(s).len() >= s.len(),
    decreases s.len(),
{
    if s.len() > 0 {
        lemma_bytes_cover_chars(s.drop_first());
    }
}

/// Columns line up: every row is printed exactly as wide, in characters, as
/// its columns together, so rows with the same number of cells are printed
/// equally wide. (A column is as wide as its longest cell in bytes, which is
/// never fewer than that cell's characters.)
pub proof fn law_rows_align(rows: Seq<Seq<Seq<char>>>, k: int)
    requires
        0 <= k < rows.len(),
        forall|c: int|
            0 <= c < rows[k].len() ==> encode_utf8(#[trigger] rows[k][c]).len() <= usize::MAX,
    ensures
        render_cells(rows[k], rows, rows[k].len() as int).len() == table_width(
            rows,
            rows[k].len() as int,
        ),
{
    lemma_cells_width(rows, k, rows[k].len() as int);
}

proof fn lemma_cells_width(rows: Seq<Seq<Seq<char>>>, k: int, i: int)
    requires
        0 <= k < rows.len(),
        0 <= i <= rows[k].len(),
        forall|c: int|
            0 <= c < rows[k].len() ==> encode_utf8(#[trigger] rows[k][c]).len() <= usize::MAX,
    ensures
        render_cells(rows[k], rows, i).len() == table_width(rows, i),
    decreases i,
{
    if i > 0 {
        lemma_cells_width(rows, k, i - 1);
        let v = rows[k][i - 1];
        assert(encode_utf8(v).len() <= usize::MAX);
        lemma_bytes_cover_chars(v);
        lemma_col_width_covers(rows, i - 1, k);
        assert(byte_len(v) >= v.len());
    }
}

} // verus!
