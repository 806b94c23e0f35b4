//! The snapshot row format: one record per row, columns exactly
//! `author, created_utc, permalink, subreddit`, first row a header naming
//! them. Fields holding a comma, a quote or a line break are quoted, with
//! quotes doubled. Reading skips malformed rows and keeps the valid ones;
//! writing then reading a record set gives the same set back.

use vstd::prelude::*;

use crate::nodeset::{lemma_to_set_push, NodeSet};
use crate::nodestructs::{Node, NodeView};
use crate::strutil::{
    dec_str, lemma_dec_round_trip, parse_dec, parse_u64, push_char, strings_view, u64_to_string,
};

verus! {

/// Whether `c` forces a field to be quoted.
pub open spec fn is_special(c: char) -> bool {
    c == ',' || c == '"' || c == '\n' || c == '\r'
}

/// Whether `s` must be written quoted.
pub open spec fn needs_quoting(s: Seq<char>) -> bool {
    exists|i: int| 0 <= i < s.len() && is_special(#[trigger] s[i])
}

/// `s` with every quote doubled.
pub open spec fn escape_quotes(s: Seq<char>) -> Seq<char>
    decreases s.len(),
{
    if s.len() == 0 {
        Seq::<char>::empty()
    } else if s.first() == '"' {
        seq!['"', '"'] + escape_quotes(s.drop_first())
    } else {
        seq![s.first()] + escape_quotes(s.drop_first())
    }
}

/// One field as written: bare, or quoted with quotes doubled.
pub open spec fn enc_field(s: Seq<char>) -> Seq<char> {
    if needs_quoting(s) {
        seq!['"'] + escape_quotes(s) + seq!['"']
    } else {
        s
    }
}

/// One row as written: the encoded fields, comma-separated, ending in a
/// line break.
pub open spec fn enc_fields_row(fs: Seq<Seq<char>>) -> Seq<char>
    decreases fs.len(),
{
    if fs.len() == 0 {
        Seq::<char>::empty()
    } else if fs.len() == 1 {
        enc_field(fs.first()) + seq!['\n']
    } else {
        enc_field(fs.first()) + seq![','] + enc_fields_row(fs.drop_first())
    }
}

/// The column names, in their significant order.
pub open spec fn header_fields() -> Seq<Seq<char>> {
    seq!["author"@, "created_utc"@, "permalink"@, "subreddit"@]
}

/// The four cells a record is written as.
pub open spec fn record_of_node(n: NodeView) -> Seq<Seq<char>> {
    seq![n.author, dec_str(n.created_utc), n.permalink, n.subreddit]
}

/// The rows for a record sequence.
pub open spec fn enc_rows(ns: Seq<NodeView>) -> Seq<char>
    decreases ns.len(),
{
    if ns.len() == 0 {
        Seq::<char>::empty()
    } else {
        enc_fields_row(record_of_node(ns.first())) + enc_rows(ns.drop_first())
    }
}

/// The whole file for a record sequence: header row, then one row per
/// record in order.
pub open spec fn save_spec(ns: Seq<NodeView>) -> Seq<char> {
    enc_fields_row(header_fields()) + enc_rows(ns)
}

/// The row reader's state machine: `cur` is the cell read so far,
/// `fields` the finished cells of the current row, `in_q` whether inside
/// a quoted cell, `after_q` whether just past a quote inside one (a
/// doubled quote or the closing quote). Returns the records of `text`.
pub open spec fn scan(
    text: Seq<char>,
    cur: Seq<char>,
    fields: Seq<Seq<char>>,
    in_q: bool,
    after_q: bool,
) -> Seq<Seq<Seq<char>>>
    decreases text.len(),
{
    if text.len() == 0 {
        if fields.len() == 0 && cur.len() == 0 && !in_q && !after_q {
            Seq::<Seq<Seq<char>>>::empty()
        } else {
            seq![fields.push(cur)]
        }
    } else {
        let c = text.first();
        let rest = text.drop_first();
        if in_q && !after_q {
            if c == '"' {
                scan(rest, cur, fields, true, true)
            } else {
                scan(rest, cur.push(c), fields, true, false)
            }
        } else if in_q && after_q {
            if c == '"' {
                scan(rest, cur.push('"'), fields, true, false)
            } else if c == ',' {
                scan(rest, Seq::<char>::empty(), fields.push(cur), false, false)
            } else if c == '\n' {
                seq![fields.push(cur)] + scan(
                    rest,
                    Seq::<char>::empty(),
                    Seq::<Seq<char>>::empty(),
                    false,
                    false,
                )
            } else {
                scan(rest, cur.push(c), fields, false, false)
            }
        } else {
            if c == ',' {
                scan(rest, Seq::<char>::empty(), fields.push(cur), false, false)
            } else if c == '\n' {
                seq![fields.push(cur)] + scan(
                    rest,
                    Seq::<char>::empty(),
                    Seq::<Seq<char>>::empty(),
                    false,
                    false,
                )
            } else if c == '"' && cur.len() == 0 {
                scan(rest, cur, fields, true, false)
            } else {
                scan(rest, cur.push(c), fields, false, false)
            }
        }
    }
}

/// The records of `text`, split at unquoted line breaks.
pub open spec fn split_csv_records(text: Seq<char>) -> Seq<Seq<Seq<char>>> {
    scan(text, Seq::<char>::empty(), Seq::<Seq<char>>::empty(), false, false)
}

/// The record a row stands for: four cells with a numeric creation time;
/// anything else is malformed and skipped.
pub open spec fn row_to_node(r: Seq<Seq<char>>) -> Option<NodeView> {
    if r.len() == 4 {
        match parse_dec(r[1]) {
            Some(t) => Some(
                NodeView { author: r[0], created_utc: t, permalink: r[2], subreddit: r[3] },
            ),
            None => None,
        }
    } else {
        None
    }
}

/// The well-formed records among `rs`, in order.
pub open spec fn rows_to_nodes(rs: Seq<Seq<Seq<char>>>) -> Seq<NodeView>
    decreases rs.len(),
{
    if rs.len() == 0 {
        Seq::<NodeView>::empty()
    } else {
        match row_to_node(rs.first()) {
            Some(n) => seq![n] + rows_to_nodes(rs.drop_first()),
            None => rows_to_nodes(rs.drop_first()),
        }
    }
}

/// What loading `text` yields: every well-formed record after the header
/// row, in order.
pub open spec fn load_spec(text: Seq<char>) -> Seq<NodeView> {
    let rs = split_csv_records(text);
    if rs.len() == 0 {
        Seq::<NodeView>::empty()
    } else {
        rows_to_nodes(rs.drop_first())
    }
}

/// Scanning an unquoted cell's characters just accumulates them.
proof fn lemma_scan_unquoted(f: Seq<char>, rest: Seq<char>, cur: Seq<char>, fields: Seq<Seq<char>>)
    requires
        forall|i: int| 0 <= i < f.len() ==> !is_special(#[trigger] f[i]),
    ensures
        scan(f + rest, cur, fields, false, false) == scan(rest, cur + f, fields, false, false),
    decreases f.len(),
{
    if f.len() == 0 {
        assert(f + rest =~= rest);
        assert(cur + f =~= cur);
    } else {
        let c = f.first();
        assert(!is_special(c));
        assert((f + rest).first() == c);
        assert((f + rest).drop_first() =~= f.drop_first() + rest);
        assert(forall|i: int|
            0 <= i < f.drop_first().len() ==> !is_special(#[trigger] f.drop_first()[i]));
        lemma_scan_unquoted(f.drop_first(), rest, cur.push(c), fields);
        assert(cur.push(c) + f.drop_first() =~= cur + f);
    }
}

/// Scanning a quoted cell's doubled characters, then the closing quote,
/// accumulates the original characters and ends just past a quote.
proof fn lemma_scan_in_quotes(f: Seq<char>, rest: Seq<char>, cur: Seq<char>, fields: Seq<Seq<char>>)
    ensures
        scan(escape_quotes(f) + (seq!['"'] + rest), cur, fields, true, false) == scan(
            rest,
            cur + f,
            fields,
            true,
            true,
        ),
    decreases f.len(),
{
    if f.len() == 0 {
        assert(escape_quotes(f) + (seq!['"'] + rest) =~= seq!['"'] + rest);
        assert((seq!['"'] + rest).first() == '"');
        assert((seq!['"'] + rest).drop_first() =~= rest);
        assert(cur + f =~= cur);
        assert(scan(seq!['"'] + rest, cur, fields, true, false) == scan(
            rest,
            cur,
            fields,
            true,
            true,
        ));
    } else {
        let c = f.first();
        let text = escape_quotes(f) + (seq!['"'] + rest);
        if c == '"' {
            assert(escape_quotes(f) =~= seq!['"', '"'] + escape_quotes(f.drop_first()));
            assert(text.first() == '"');
            let text1 = text.drop_first();
            assert(text1 =~= seq!['"'] + (escape_quotes(f.drop_first()) + (seq!['"'] + rest)));
            assert(text1.first() == '"');
            assert(text1.drop_first() =~= escape_quotes(f.drop_first()) + (seq!['"'] + rest));
            lemma_scan_in_quotes(f.drop_first(), rest, cur.push('"'), fields);
            assert(cur.push('"') + f.drop_first() =~= cur + f);
            assert(scan(text, cur, fields, true, false) == scan(text1, cur, fields, true, true));
            assert(scan(text1, cur, fields, true, true) == scan(
                text1.drop_first(),
                cur.push('"'),
                fields,
                true,
                false,
            ));
            assert(scan(text1.drop_first(), cur.push('"'), fields, true, false) == scan(
                rest,
                cur + f,
                fields,
                true,
                true,
            ));
        } else {
            assert(escape_quotes(f) =~= seq![c] + escape_quotes(f.drop_first()));
            assert(text.first() == c);
            assert(text.drop_first() =~= escape_quotes(f.drop_first()) + (seq!['"'] + rest));
            lemma_scan_in_quotes(f.drop_first(), rest, cur.push(c), fields);
            assert(cur.push(c) + f.drop_first() =~= cur + f);
            assert(scan(text, cur, fields, true, false) == scan(
                text.drop_first(),
                cur.push(c),
                fields,
                true,
                false,
            ));
            assert(scan(text.drop_first(), cur.push(c), fields, true, false) == scan(
                rest,
                cur + f,
                fields,
                true,
                true,
            ));
        }
    }
}

/// Scanning one written row prepends exactly its cells as one record.
proof fn lemma_scan_row(fs: Seq<Seq<char>>, fields: Seq<Seq<char>>, rest: Seq<char>)
    requires
        fs.len() >= 1,
    ensures
        scan(enc_fields_row(fs) + rest, Seq::<char>::empty(), fields, false, false) == seq![
            fields + fs,
        ] + scan(rest, Seq::<char>::empty(), Seq::<Seq<char>>::empty(), false, false),
    decreases fs.len(),
{
    let f = fs.first();
    let empty_cur = Seq::<char>::empty();
    let tail: Seq<char> = if fs.len() == 1 {
        seq!['\n']
    } else {
        seq![','] + enc_fields_row(fs.drop_first())
    };
    assert(enc_fields_row(fs) =~= enc_field(f) + tail);
    if needs_quoting(f) {
        let text = enc_fields_row(fs) + rest;
        assert(text =~= seq!['"'] + (escape_quotes(f) + (seq!['"'] + (tail + rest))));
        assert(text.first() == '"');
        assert(text.drop_first() =~= escape_quotes(f) + (seq!['"'] + (tail + rest)));
        lemma_scan_in_quotes(f, tail + rest, empty_cur, fields);
        assert(empty_cur + f =~= f);
        // Now in the just-past-a-quote state, looking at the separator.
        if fs.len() == 1 {
            assert((tail + rest).first() == '\n');
            assert((tail + rest).drop_first() =~= rest);
            assert(fields.push(f) =~= fields + fs) by {
                assert(fs =~= seq![f]);
            }
        } else {
            assert((tail + rest).first() == ',');
            assert((tail + rest).drop_first() =~= enc_fields_row(fs.drop_first()) + rest);
            lemma_scan_row(fs.drop_first(), fields.push(f), rest);
            assert(fields.push(f) + fs.drop_first() =~= fields + fs);
        }
    } else {
        assert(enc_fields_row(fs) + rest =~= f + (tail + rest));
        lemma_scan_unquoted(f, tail + rest, empty_cur, fields);
        assert(empty_cur + f =~= f);
        if fs.len() == 1 {
            assert((tail + rest).first() == '\n');
            assert((tail + rest).drop_first() =~= rest);
            assert(fields.push(f) =~= fields + fs) by {
                assert(fs =~= seq![f]);
            }
        } else {
            assert((tail + rest).first() == ',');
            assert((tail + rest).drop_first() =~= enc_fields_row(fs.drop_first()) + rest);
            lemma_scan_row(fs.drop_first(), fields.push(f), rest);
            assert(fields.push(f) + fs.drop_first() =~= fields + fs);
        }
    }
}

/// The records of a record sequence, each as its four cells.
pub open spec fn records_of(ns: Seq<NodeView>) -> Seq<Seq<Seq<char>>>
    decreases ns.len(),
{
    if ns.len() == 0 {
        Seq::<Seq<Seq<char>>>::empty()
    } else {
        seq![record_of_node(ns.first())] + records_of(ns.drop_first())
    }
}

/// Scanning the written rows gives back exactly the records.
proof fn lemma_scan_rows(ns: Seq<NodeView>)
    ensures
        scan(enc_rows(ns), Seq::<char>::empty(), Seq::<Seq<char>>::empty(), false, false)
            == records_of(ns),
    decreases ns.len(),
{
    if ns.len() == 0 {
    } else {
        let fs = record_of_node(ns.first());
        lemma_scan_row(fs, Seq::<Seq<char>>::empty(), enc_rows(ns.drop_first()));
        assert(Seq::<Seq<char>>::empty() + fs =~= fs);
        lemma_scan_rows(ns.drop_first());
        assert(seq![fs] + records_of(ns.drop_first()) =~= records_of(ns));
    }
}

/// A record's own row reads back as the record.
proof fn lemma_row_node_round_trip(n: NodeView)
    ensures
        row_to_node(record_of_node(n)) == Some(n),
{
    lemma_dec_round_trip(n.created_utc);
    let r = record_of_node(n);
    assert(r[1] == dec_str(n.created_utc));
    assert(row_to_node(r) == Some(
        NodeView {
            author: n.author,
            created_utc: n.created_utc,
            permalink: n.permalink,
            subreddit: n.subreddit,
        },
    ));
}

/// The records of a record sequence read back as the sequence.
proof fn lemma_rows_to_nodes_of_records(ns: Seq<NodeView>)
    ensures
        rows_to_nodes(records_of(ns)) == ns,
    decreases ns.len(),
{
    if ns.len() == 0 {
        assert(rows_to_nodes(records_of(ns)) =~= ns);
    } else {
        lemma_row_node_round_trip(ns.first());
        let rs = records_of(ns);
        assert(rs.first() == record_of_node(ns.first()));
        assert(rs.drop_first() =~= records_of(ns.drop_first()));
        lemma_rows_to_nodes_of_records(ns.drop_first());
        assert(seq![ns.first()] + ns.drop_first() =~= ns);
    }
}

/// Round trip: loading what was saved yields the same records in the
/// same order, for every record sequence.
pub proof fn lemma_save_load_round_trip(ns: Seq<NodeView>)
    ensures
        load_spec(save_spec(ns)) == ns,
{
    lemma_scan_row(header_fields(), Seq::<Seq<char>>::empty(), enc_rows(ns));
    assert(Seq::<Seq<char>>::empty() + header_fields() =~= header_fields());
    lemma_scan_rows(ns);
    let rs = split_csv_records(save_spec(ns));
    assert(rs =~= seq![header_fields()] + records_of(ns));
    assert(rs.drop_first() =~= records_of(ns));
    lemma_rows_to_nodes_of_records(ns);
}

/// Escaping distributes over appending one character.
proof fn lemma_escape_push(s: Seq<char>, c: char)
    ensures
        escape_quotes(s.push(c)) == escape_quotes(s) + (if c == '"' {
            seq!['"', '"']
        } else {
            seq![c]
        }),
    decreases s.len(),
{
    let enc: Seq<char> = if c == '"' {
        seq!['"', '"']
    } else {
        seq![c]
    };
    if s.len() == 0 {
        assert(s.push(c).first() == c);
        assert(s.push(c).drop_first() =~= Seq::<char>::empty());
        assert(escape_quotes(s.push(c).drop_first()) =~= Seq::<char>::empty());
        assert(escape_quotes(s.push(c)) =~= enc);
        assert(escape_quotes(s) + enc =~= enc);
    } else {
        assert(s.push(c).first() == s.first());
        assert(s.push(c).drop_first() =~= s.drop_first().push(c));
        lemma_escape_push(s.drop_first(), c);
        if s.first() == '"' {
            assert(seq!['"', '"'] + (escape_quotes(s.drop_first()) + enc) =~= (seq!['"', '"']
                + escape_quotes(s.drop_first())) + enc);
        } else {
            assert(seq![s.first()] + (escape_quotes(s.drop_first()) + enc) =~= (seq![s.first()]
                + escape_quotes(s.drop_first())) + enc);
        }
    }
}

/// A record appended to a row list appends its well-formed reading.
proof fn lemma_rows_to_nodes_push(rs: Seq<Seq<Seq<char>>>, r: Seq<Seq<char>>)
    ensures
        rows_to_nodes(rs.push(r)) == rows_to_nodes(rs) + (match row_to_node(r) {
            Some(n) => seq![n],
            None => Seq::<NodeView>::empty(),
        }),
    decreases rs.len(),
{
    let tail: Seq<NodeView> = match row_to_node(r) {
        Some(n) => seq![n],
        None => Seq::<NodeView>::empty(),
    };
    if rs.len() == 0 {
        assert(rs.push(r).first() == r);
        assert(rs.push(r).drop_first() =~= Seq::<Seq<Seq<char>>>::empty());
        assert(rows_to_nodes(rs.push(r).drop_first()) =~= Seq::<NodeView>::empty());
        assert(rows_to_nodes(rs.push(r)) =~= tail);
        assert(rows_to_nodes(rs) + tail =~= tail);
    } else {
        assert(rs.push(r).first() == rs.first());
        assert(rs.push(r).drop_first() =~= rs.drop_first().push(r));
        lemma_rows_to_nodes_push(rs.drop_first(), r);
        match row_to_node(rs.first()) {
            Some(n) => {
                assert(seq![n] + (rows_to_nodes(rs.drop_first()) + tail) =~= (seq![n]
                    + rows_to_nodes(rs.drop_first())) + tail);
            },
            None => {},
        }
    }
}

/// Whether `f` must be written quoted.
fn field_needs_quoting(f: &str) -> (r: bool)
    ensures
        r == needs_quoting(f@),
{
    let n = f.unicode_len();
    for i in 0..n
        invariant
            n == f@.len(),
            forall|j: int| 0 <= j < i ==> !is_special(#[trigger] f@[j]),
    {
        let c = f.get_char(i);
        if c == ',' || c == '"' || c == '\n' || c == '\r' {
            assert(is_special(f@[i as int]));
            return true;
        }
    }
    false
}

/// Appends one cell, quoted when it needs quoting.
fn encode_field(f: &str, out: &mut String)
    ensures
        final(out)@ == old(out)@ + enc_field(f@),
{
    let n = f.unicode_len();
    if !field_needs_quoting(f) {
        out.append(f);
    } else {
        push_char(out, '"');
        for i in 0..n
            invariant
                n == f@.len(),
                needs_quoting(f@),
                out@ =~= old(out)@ + (seq!['"'] + escape_quotes(f@.take(i as int))),
        {
            proof {
                lemma_escape_push(f@.take(i as int), f@[i as int]);
                assert(f@.take(i + 1) =~= f@.take(i as int).push(f@[i as int]));
            }
            let c = f.get_char(i);
            if c == '"' {
                push_char(out, '"');
                push_char(out, '"');
            } else {
                push_char(out, c);
            }
            assert(out@ =~= old(out)@ + (seq!['"'] + escape_quotes(f@.take(i + 1))));
        }
        assert(f@.take(n as int) =~= f@);
        push_char(out, '"');
        assert(out@ =~= old(out)@ + (seq!['"'] + escape_quotes(f@) + seq!['"']));
        assert(seq!['"'] + escape_quotes(f@) + seq!['"'] =~= enc_field(f@));
    }
}

/// Appends one row: the cells, comma-separated, ending in a line break.
fn write_fields_row(fields: &Vec<String>, out: &mut String)
    requires
        fields@.len() >= 1,
    ensures
        final(out)@ == old(out)@ + enc_fields_row(strings_view(fields@)),
{
    let n = fields.len();
    let ghost fs = strings_view(fields@);
    proof {
        assert(fs.skip(0) =~= fs);
    }
    for i in 0..n
        invariant
            n == fields@.len(),
            fs == strings_view(fields@),
            out@ + enc_fields_row(fs.skip(i as int)) =~= old(out)@ + enc_fields_row(fs),
    {
        proof {
            assert(fs.skip(i as int).first() == fs[i as int]);
            assert(fs[i as int] == fields@[i as int]@);
            assert(fs.skip(i as int).drop_first() =~= fs.skip(i + 1));
        }
        let ghost before = out@;
        encode_field(fields[i].as_str(), out);
        if i + 1 < n {
            push_char(out, ',');
            assert(out@ =~= before + (enc_field(fs[i as int]) + seq![',']));
            assert(enc_fields_row(fs.skip(i as int)) =~= (enc_field(fs[i as int]) + seq![','])
                + enc_fields_row(fs.skip(i + 1)));
        } else {
            push_char(out, '\n');
            assert(fs.skip(i as int).len() == 1);
            assert(out@ =~= before + (enc_field(fs[i as int]) + seq!['\n']));
            assert(enc_fields_row(fs.skip(i as int)) =~= enc_field(fs[i as int]) + seq!['\n']);
            assert(fs.skip(i + 1) =~= Seq::<Seq<char>>::empty());
        }
    }
    proof {
        assert(fs.skip(n as int) =~= Seq::<Seq<char>>::empty());
        assert(out@ + Seq::<char>::empty() =~= out@);
    }
}

/// Writes the whole record set: header row, then one row per record in
/// insertion order.
pub fn write_nodes(nodes: &NodeSet) -> (r: String)
    requires
        nodes.wf(),
    ensures
        r@ == save_spec(nodes.as_seq()),
{
    let mut header: Vec<String> = Vec::new();
    header.push("author".to_owned());
    header.push("created_utc".to_owned());
    header.push("permalink".to_owned());
    header.push("subreddit".to_owned());
    assert(strings_view(header@) =~= header_fields());
    let mut out = String::new();
    write_fields_row(&header, &mut out);
    let ghost hdr = enc_fields_row(header_fields());
    assert(out@ =~= hdr);
    let n = nodes.len();
    proof {
        assert(nodes.as_seq().skip(0) =~= nodes.as_seq());
    }
    for i in 0..n
        invariant
            n == nodes.as_seq().len(),
            nodes.wf(),
            out@ + enc_rows(nodes.as_seq().skip(i as int)) =~= hdr + enc_rows(nodes.as_seq()),
    {
        proof {
            assert(nodes.as_seq().skip(i as int).first() == nodes.as_seq()[i as int]);
            assert(nodes.as_seq().skip(i as int).drop_first() =~= nodes.as_seq().skip(i + 1));
        }
        let node = nodes.get(i);
        let mut row: Vec<String> = Vec::new();
        row.push(node.author.clone());
        row.push(u64_to_string(node.created_utc));
        row.push(node.permalink.clone());
        row.push(node.subreddit.clone());
        assert(strings_view(row@) =~= record_of_node(nodes.as_seq()[i as int]));
        let ghost before = out@;
        write_fields_row(&row, &mut out);
        assert(out@ =~= before + enc_fields_row(record_of_node(nodes.as_seq()[i as int])));
        assert(enc_rows(nodes.as_seq().skip(i as int)) =~= enc_fields_row(
            record_of_node(nodes.as_seq()[i as int]),
        ) + enc_rows(nodes.as_seq().skip(i + 1)));
    }
    proof {
        assert(nodes.as_seq().skip(n as int) =~= Seq::<NodeView>::empty());
        assert(out@ + Seq::<char>::empty() =~= out@);
        assert(out@ =~= save_spec(nodes.as_seq()));
    }
    out
}

/// The records after the header row, where there is one.
pub open spec fn tail_records(rs: Seq<Seq<Seq<char>>>) -> Seq<Seq<Seq<char>>> {
    if rs.len() == 0 {
        rs
    } else {
        rs.drop_first()
    }
}

/// The integer values of a position list.
pub open spec fn usize_seq_as_ints(s: Seq<usize>) -> Seq<int> {
    s.map_values(|p: usize| p as int)
}

/// The positions, counted from `k`, of the malformed rows of `rs`.
pub open spec fn bad_positions_from(rs: Seq<Seq<Seq<char>>>, k: int) -> Seq<int>
    decreases rs.len(),
{
    if rs.len() == 0 {
        Seq::<int>::empty()
    } else if row_to_node(rs.first()) is None {
        seq![k] + bad_positions_from(rs.drop_first(), k + 1)
    } else {
        bad_positions_from(rs.drop_first(), k + 1)
    }
}

/// The record positions, counted after the header row, of the malformed
/// rows of `text`.
pub open spec fn malformed_positions(text: Seq<char>) -> Seq<int> {
    bad_positions_from(tail_records(split_csv_records(text)), 0)
}

/// A record appended to a row list appends its position exactly when it
/// is malformed.
proof fn lemma_bad_positions_push(rs: Seq<Seq<Seq<char>>>, r: Seq<Seq<char>>, k: int)
    ensures
        bad_positions_from(rs.push(r), k) == bad_positions_from(rs, k) + (if row_to_node(r)
            is None {
            seq![k + rs.len() as int]
        } else {
            Seq::<int>::empty()
        }),
    decreases rs.len(),
{
    let tail: Seq<int> = if row_to_node(r) is None {
        seq![k + rs.len() as int]
    } else {
        Seq::<int>::empty()
    };
    if rs.len() == 0 {
        assert(rs.push(r).first() == r);
        assert(rs.push(r).drop_first() =~= Seq::<Seq<Seq<char>>>::empty());
        assert(bad_positions_from(rs.push(r).drop_first(), k + 1) =~= Seq::<int>::empty());
        assert(bad_positions_from(rs.push(r), k) =~= tail);
        assert(bad_positions_from(rs, k) + tail =~= tail);
    } else {
        assert(rs.push(r).first() == rs.first());
        assert(rs.push(r).drop_first() =~= rs.drop_first().push(r));
        lemma_bad_positions_push(rs.drop_first(), r, k + 1);
        if row_to_node(rs.first()) is None {
            assert(seq![k] + (bad_positions_from(rs.drop_first(), k + 1) + tail) =~= (seq![k]
                + bad_positions_from(rs.drop_first(), k + 1)) + tail);
        }
    }
}

/// Reads one finished row as a record, where it is well formed.
fn convert_row(fields: &Vec<String>) -> (r: Option<Node>)
    ensures
        match r {
            Some(node) => row_to_node(strings_view(fields@)) == Some(node@),
            None => row_to_node(strings_view(fields@)) is None,
        },
{
    proof {
        assert(forall|k: int|
            0 <= k < fields@.len() ==> strings_view(fields@)[k] == #[trigger] fields@[k]@);
    }
    if fields.len() == 4 {
        match parse_u64(fields[1].as_str()) {
            Some(t) => Some(
                Node {
                    author: fields[0].clone(),
                    created_utc: t,
                    permalink: fields[2].clone(),
                    subreddit: fields[3].clone(),
                },
            ),
            None => None,
        }
    } else {
        None
    }
}

/// Reads every well-formed record of `text`, skipping the header row and
/// malformed rows, into a deduplicated set, and reports each malformed
/// row's record position (counted after the header) so a caller can log
/// what was skipped.
pub fn read_nodes_report(text: &str) -> (r: (NodeSet, Vec<usize>))
    ensures
        r.0.wf(),
        r.0@ == load_spec(text@).to_set(),
        usize_seq_as_ints(r.1@) == malformed_positions(text@),
{
    let n = text.unicode_len();
    let mut out = NodeSet::new();
    let mut bad: Vec<usize> = Vec::new();
    let mut tail_idx: usize = 0;
    let mut cur = String::new();
    let mut fields: Vec<String> = Vec::new();
    let mut in_q = false;
    let mut after_q = false;
    let mut header_done = false;
    let ghost mut recs: Seq<Seq<Seq<char>>> = Seq::empty();
    proof {
        assert(text@.skip(0) =~= text@);
        assert(strings_view(fields@) =~= Seq::<Seq<char>>::empty());
        assert(recs + scan(text@, cur@, strings_view(fields@), false, false) =~= scan(
            text@,
            cur@,
            strings_view(fields@),
            false,
            false,
        ));
        assert(rows_to_nodes(tail_records(recs)).to_set() =~= Set::<NodeView>::empty());
        assert(usize_seq_as_ints(bad@) =~= Seq::<int>::empty());
        assert(bad_positions_from(tail_records(recs), 0) =~= Seq::<int>::empty());
    }
    for i in 0..n
        invariant
            n == text@.len(),
            split_csv_records(text@) == recs + scan(
                text@.skip(i as int),
                cur@,
                strings_view(fields@),
                in_q,
                after_q,
            ),
            after_q ==> in_q,
            header_done <==> recs.len() > 0,
            recs.len() <= i,
            tail_idx == tail_records(recs).len(),
            usize_seq_as_ints(bad@) == bad_positions_from(tail_records(recs), 0),
            out.wf(),
            out@ == rows_to_nodes(tail_records(recs)).to_set(),
    {
        let ghost rest = text@.skip(i as int);
        proof {
            assert(rest.first() == text@[i as int]);
            assert(rest.drop_first() =~= text@.skip(i + 1));
        }
        let c = text.get_char(i);
        if in_q && !after_q {
            if c == '"' {
                after_q = true;
            } else {
                push_char(&mut cur, c);
            }
        } else if in_q && after_q {
            if c == '"' {
                push_char(&mut cur, '"');
                after_q = false;
            } else if c == ',' {
                let ghost prev_fields = strings_view(fields@);
                let ghost prev_cur = cur@;
                fields.push(cur);
                cur = String::new();
                in_q = false;
                after_q = false;
                assert(strings_view(fields@) =~= prev_fields.push(prev_cur));
            } else if c == '\n' {
                {
                let ghost prev_fields = strings_view(fields@);
                let ghost prev_cur = cur@;
                fields.push(cur);
                assert(strings_view(fields@) =~= prev_fields.push(prev_cur));
                let ghost rec = prev_fields.push(prev_cur);
                if header_done {
                    match convert_row(&fields) {
                        Some(node) => {
                            out.insert(node);
                        },
                        None => {
                            bad.push(tail_idx);
                        },
                    }
                    proof {
                        lemma_bad_positions_push(tail_records(recs), rec, 0);
                        assert(usize_seq_as_ints(bad@) =~= bad_positions_from(
                            tail_records(recs).push(rec),
                            0,
                        ));
                    }
                    tail_idx = tail_idx + 1;
                } else {
                    header_done = true;
                }
                proof {
                    assert(recs + (seq![rec] + scan(
                        text@.skip(i + 1),
                        Seq::<char>::empty(),
                        Seq::<Seq<char>>::empty(),
                        false,
                        false,
                    )) =~= recs.push(rec) + scan(
                        text@.skip(i + 1),
                        Seq::<char>::empty(),
                        Seq::<Seq<char>>::empty(),
                        false,
                        false,
                    ));
                    if recs.len() == 0 {
                        assert(tail_records(recs.push(rec)) =~= Seq::<Seq<Seq<char>>>::empty());
                        assert(rows_to_nodes(tail_records(recs.push(rec))).to_set() =~= Set::<
                            NodeView,
                        >::empty());
                        assert(bad_positions_from(tail_records(recs.push(rec)), 0) =~= Seq::<
                            int,
                        >::empty());
                    } else {
                        assert(tail_records(recs.push(rec)) =~= tail_records(recs).push(rec));
                        lemma_rows_to_nodes_push(tail_records(recs), rec);
                        match row_to_node(rec) {
                            Some(nv) => {
                                assert(rows_to_nodes(tail_records(recs).push(rec))
                                    =~= rows_to_nodes(tail_records(recs)).push(nv));
                                lemma_to_set_push(rows_to_nodes(tail_records(recs)), nv);
                            },
                            None => {
                                assert(rows_to_nodes(tail_records(recs).push(rec))
                                    =~= rows_to_nodes(tail_records(recs)));
                            },
                        }
                    }
                    recs = recs.push(rec);
                }
                fields = Vec::new();
                cur = String::new();
                in_q = false;
                after_q = false;
                assert(strings_view(fields@) =~= Seq::<Seq<char>>::empty());
            }
            } else {
                push_char(&mut cur, c);
                in_q = false;
                after_q = false;
            }
        } else {
            if c == ',' {
                let ghost prev_fields = strings_view(fields@);
                let ghost prev_cur = cur@;
                fields.push(cur);
                cur = String::new();
                assert(strings_view(fields@) =~= prev_fields.push(prev_cur));
            } else if c == '\n' {
                {
                let ghost prev_fields = strings_view(fields@);
                let ghost prev_cur = cur@;
                fields.push(cur);
                assert(strings_view(fields@) =~= prev_fields.push(prev_cur));
                let ghost rec = prev_fields.push(prev_cur);
                if header_done {
                    match convert_row(&fields) {
                        Some(node) => {
                            out.insert(node);
                        },
                        None => {
                            bad.push(tail_idx);
                        },
                    }
                    proof {
                        lemma_bad_positions_push(tail_records(recs), rec, 0);
                        assert(usize_seq_as_ints(bad@) =~= bad_positions_from(
                            tail_records(recs).push(rec),
                            0,
                        ));
                    }
                    tail_idx = tail_idx + 1;
                } else {
                    header_done = true;
                }
                proof {
                    assert(recs + (seq![rec] + scan(
                        text@.skip(i + 1),
                        Seq::<char>::empty(),
                        Seq::<Seq<char>>::empty(),
                        false,
                        false,
                    )) =~= recs.push(rec) + scan(
                        text@.skip(i + 1),
                        Seq::<char>::empty(),
                        Seq::<Seq<char>>::empty(),
                        false,
                        false,
                    ));
                    if recs.len() == 0 {
                        assert(tail_records(recs.push(rec)) =~= Seq::<Seq<Seq<char>>>::empty());
                        assert(rows_to_nodes(tail_records(recs.push(rec))).to_set() =~= Set::<
                            NodeView,
                        >::empty());
                        assert(bad_positions_from(tail_records(recs.push(rec)), 0) =~= Seq::<
                            int,
                        >::empty());
                    } else {
                        assert(tail_records(recs.push(rec)) =~= tail_records(recs).push(rec));
                        lemma_rows_to_nodes_push(tail_records(recs), rec);
                        match row_to_node(rec) {
                            Some(nv) => {
                                assert(rows_to_nodes(tail_records(recs).push(rec))
                                    =~= rows_to_nodes(tail_records(recs)).push(nv));
                                lemma_to_set_push(rows_to_nodes(tail_records(recs)), nv);
                            },
                            None => {
                                assert(rows_to_nodes(tail_records(recs).push(rec))
                                    =~= rows_to_nodes(tail_records(recs)));
                            },
                        }
                    }
                    recs = recs.push(rec);
                }
                fields = Vec::new();
                cur = String::new();
                in_q = false;
                after_q = false;
                assert(strings_view(fields@) =~= Seq::<Seq<char>>::empty());
            }
            } else if c == '"' && cur.as_str().is_empty() {
                in_q = true;
                after_q = false;
            } else {
                push_char(&mut cur, c);
            }
        }
    }
    proof {
        assert(text@.skip(n as int) =~= Seq::<char>::empty());
    }
    if fields.len() == 0 && cur.as_str().is_empty() && !in_q && !after_q {
        proof {
            assert(strings_view(fields@).len() == 0);
            assert(scan(Seq::<char>::empty(), cur@, strings_view(fields@), in_q, after_q)
                =~= Seq::<Seq<Seq<char>>>::empty());
            assert(recs + Seq::<Seq<Seq<char>>>::empty() =~= recs);
        }
    } else {
        let ghost prev_fields = strings_view(fields@);
        let ghost prev_cur = cur@;
        fields.push(cur);
        assert(strings_view(fields@) =~= prev_fields.push(prev_cur));
        let ghost rec = prev_fields.push(prev_cur);
        if header_done {
            match convert_row(&fields) {
                Some(node) => {
                    out.insert(node);
                },
                None => {
                    bad.push(tail_idx);
                },
            }
            proof {
                lemma_bad_positions_push(tail_records(recs), rec, 0);
                assert(usize_seq_as_ints(bad@) =~= bad_positions_from(
                    tail_records(recs).push(rec),
                    0,
                ));
            }
        } else {
            header_done = true;
        }
        proof {
            assert(scan(Seq::<char>::empty(), prev_cur, prev_fields, in_q, after_q) =~= seq![rec]);
            assert(recs + seq![rec] =~= recs.push(rec));
            if recs.len() == 0 {
                assert(tail_records(recs.push(rec)) =~= Seq::<Seq<Seq<char>>>::empty());
                assert(rows_to_nodes(tail_records(recs.push(rec))).to_set() =~= Set::<
                    NodeView,
                >::empty());
                assert(bad_positions_from(tail_records(recs.push(rec)), 0) =~= Seq::<
                    int,
                >::empty());
            } else {
                assert(tail_records(recs.push(rec)) =~= tail_records(recs).push(rec));
                lemma_rows_to_nodes_push(tail_records(recs), rec);
                match row_to_node(rec) {
                    Some(nv) => {
                        assert(rows_to_nodes(tail_records(recs).push(rec)) =~= rows_to_nodes(
                            tail_records(recs),
                        ).push(nv));
                        lemma_to_set_push(rows_to_nodes(tail_records(recs)), nv);
                    },
                    None => {
                        assert(rows_to_nodes(tail_records(recs).push(rec)) =~= rows_to_nodes(
                            tail_records(recs),
                        ));
                    },
                }
            }
            recs = recs.push(rec);
        }
    }
    proof {
        let rs = split_csv_records(text@);
        assert(rs == recs);
        if rs.len() == 0 {
            assert(load_spec(text@).to_set() =~= Set::<NodeView>::empty());
        } else {
            assert(tail_records(recs) =~= rs.drop_first());
        }
    }
    (out, bad)
}

/// Reads every well-formed record of `text`, skipping the header row and
/// malformed rows, into a deduplicated set.
pub fn read_nodes(text: &str) -> (r: NodeSet)
    ensures
        r.wf(),
        r@ == load_spec(text@).to_set(),
{
    let report = read_nodes_report(text);
    report.0
}

} // verus!
