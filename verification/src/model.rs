use vstd::prelude::*;

use crate::bytes::copy_bytes;
use crate::lines::{dv, join, join_lines};
use crate::scan::{header_shape, is_blank_line, is_comment_line, is_entry_line, is_header_line,
    kv_shape, trimmed};

verus! {

/// One key/value entry of a table, together with the surface syntax that
/// travels with it when it is relocated: the comment block directly above it,
/// the raw text of its own line (plus continuation lines when the value spans
/// several lines), and the blank lines that follow it.
pub struct Entry {
    /// Comment lines directly above the entry.
    pub leading: Vec<Vec<u8>>,
    /// The raw line holding `key = value`, followed by any continuation lines.
    pub raws: Vec<Vec<u8>>,
    /// The key text, trimmed.
    pub key: Vec<u8>,
    /// The value text of the first line, trimmed (it includes a trailing
    /// comment when one stands on the same line).
    pub val: Vec<u8>,
    /// Blank lines directly after the entry.
    pub blanks: Vec<Vec<u8>>,
}

/// The contents of one table (or of the top of the document, before the
/// first header): entries in order, plus the surface lines that belong to
/// no entry.
pub struct Body {
    /// Lines before the first entry that attach to no entry.
    pub opening: Vec<Vec<u8>>,
    /// The entries, in document order.
    pub entries: Vec<Entry>,
    /// Comment lines after the last entry that attach to no entry.
    pub trailing: Vec<Vec<u8>>,
}

/// A named table: its header line, the comment block directly above the
/// header, and its contents.
pub struct Table {
    /// Comment lines directly above the header; they move with the table.
    pub leading: Vec<Vec<u8>>,
    /// The raw header line, e.g. `[dependencies]`.
    pub header: Vec<u8>,
    /// The name between the brackets, trimmed.
    pub name: Vec<u8>,
    pub body: Body,
}

/// A whole manifest document: what stands before the first header, the
/// tables in order, and whether the text ends with a newline.
pub struct Document {
    pub root: Body,
    pub tables: Vec<Table>,
    pub final_newline: bool,
}

/// Mathematical model of an `Entry`.
pub ghost struct EntryM {
    pub leading: Seq<Seq<u8>>,
    pub raws: Seq<Seq<u8>>,
    pub key: Seq<u8>,
    pub val: Seq<u8>,
    pub blanks: Seq<Seq<u8>>,
}

/// Mathematical model of a `Body`.
pub ghost struct BodyM {
    pub opening: Seq<Seq<u8>>,
    pub entries: Seq<EntryM>,
    pub trailing: Seq<Seq<u8>>,
}

/// Mathematical model of a `Table`.
pub ghost struct TableM {
    pub leading: Seq<Seq<u8>>,
    pub header: Seq<u8>,
    pub name: Seq<u8>,
    pub body: BodyM,
}

/// Mathematical model of a `Document`.
pub ghost struct DocM {
    pub root: BodyM,
    pub tables: Seq<TableM>,
    pub final_newline: bool,
}

impl View for Entry {
    type V = EntryM;

    open spec fn view(&self) -> EntryM {
        EntryM {
            leading: dv(self.leading@),
            raws: dv(self.raws@),
            key: self.key@,
            val: self.val@,
            blanks: dv(self.blanks@),
        }
    }
}

impl View for Body {
    type V = BodyM;

    open spec fn view(&self) -> BodyM {
        BodyM {
            opening: dv(self.opening@),
            entries: self.entries@.map_values(|e: Entry| e@),
            trailing: dv(self.trailing@),
        }
    }
}

impl View for Table {
    type V = TableM;

    open spec fn view(&self) -> TableM {
        TableM {
            leading: dv(self.leading@),
            header: self.header@,
            name: self.name@,
            body: self.body@,
        }
    }
}

impl View for Document {
    type V = DocM;

    open spec fn view(&self) -> DocM {
        DocM {
            root: self.root@,
            tables: self.tables@.map_values(|t: Table| t@),
            final_newline: self.final_newline,
        }
    }
}

/// The lines an entry contributes to the document, in order.
pub open spec fn entry_lines(e: EntryM) -> Seq<Seq<u8>> {
    e.leading + e.raws + e.blanks
}

/// The lines of a run of entries.
pub open spec fn entries_lines(es: Seq<EntryM>) -> Seq<Seq<u8>>
    decreases es.len(),
{
    if es.len() == 0 {
        Seq::empty()
    } else {
        entries_lines(es.drop_last()) + entry_lines(es.last())
    }
}

/// The lines of a body.
pub open spec fn body_lines(b: BodyM) -> Seq<Seq<u8>> {
    b.opening + entries_lines(b.entries) + b.trailing
}

/// The lines of a table, header included.
pub open spec fn table_lines(t: TableM) -> Seq<Seq<u8>> {
    t.leading + seq![t.header] + body_lines(t.body)
}

/// The lines of a run of tables.
pub open spec fn tables_lines(ts: Seq<TableM>) -> Seq<Seq<u8>>
    decreases ts.len(),
{
    if ts.len() == 0 {
        Seq::empty()
    } else {
        tables_lines(ts.drop_last()) + table_lines(ts.last())
    }
}

/// Every line of the document, in order.
pub open spec fn doc_lines(d: DocM) -> Seq<Seq<u8>> {
    body_lines(d.root) + tables_lines(d.tables)
}

/// The exact text a document stands for: its lines joined by newlines, with
/// a trailing newline when the original had one.
pub open spec fn doc_text(d: DocM) -> Seq<u8> {
    join(doc_lines(d)) + if d.final_newline && doc_lines(d).len() > 0 {
        seq![10u8]
    } else {
        Seq::<u8>::empty()
    }
}


/// Every line is a comment line.
pub open spec fn comment_lines(ls: Seq<Seq<u8>>) -> bool {
    forall|k: int| 0 <= k < ls.len() ==> is_comment_line(#[trigger] ls[k])
}

/// Every line is blank or a comment.
pub open spec fn soft_lines(ls: Seq<Seq<u8>>) -> bool {
    forall|k: int| 0 <= k < ls.len() ==> is_blank_line(#[trigger] ls[k]) || is_comment_line(ls[k])
}

/// A well-formed entry: the attached comment block holds only comment
/// lines, the first raw line is a key/value line whose first `=` splits it
/// into exactly this entry's `key` and `val` (both trimmed), and the
/// trailing lines are blank lines or detached comments.
pub open spec fn entry_wf(e: EntryM) -> bool {
    &&& comment_lines(e.leading)
    &&& e.raws.len() >= 1
    &&& is_entry_line(e.raws[0])
    &&& kv_shape(trimmed(e.raws[0]), e.key, e.val)
    &&& soft_lines(e.blanks)
}

/// A well-formed body: free-standing lines are blank or comments, and every
/// entry is well formed.
pub open spec fn body_wf(b: BodyM) -> bool {
    &&& soft_lines(b.opening)
    &&& comment_lines(b.trailing)
    &&& forall|k: int| 0 <= k < b.entries.len() ==> entry_wf(#[trigger] b.entries[k])
}

/// A well-formed table: its header is a header line whose bracketed,
/// trimmed content is exactly this table's `name`.
pub open spec fn table_wf(t: TableM) -> bool {
    &&& comment_lines(t.leading)
    &&& is_header_line(t.header)
    &&& header_shape(trimmed(t.header), t.name)
    &&& body_wf(t.body)
}

/// A well-formed document: what the parser promises of its structure, over
/// and above reproducing the text. Entries, keys, values, names and the
/// classification of every surface line are pinned to the raw lines.
pub open spec fn doc_wf(d: DocM) -> bool {
    &&& body_wf(d.root)
    &&& forall|k: int| 0 <= k < d.tables.len() ==> table_wf(#[trigger] d.tables[k])
}

/// Appending one entry at the end extends the line sequence at the end.
pub proof fn lemma_entries_lines_push(es: Seq<EntryM>, e: EntryM)
    ensures
        entries_lines(es.push(e)) == entries_lines(es) + entry_lines(e),
{
    assert(es.push(e).drop_last() =~= es);
    assert(es.push(e).last() == e);
}

/// Appending one table at the end extends the line sequence at the end.
pub proof fn lemma_tables_lines_push(ts: Seq<TableM>, t: TableM)
    ensures
        tables_lines(ts.push(t)) == tables_lines(ts) + table_lines(t),
{
    assert(ts.push(t).drop_last() =~= ts);
    assert(ts.push(t).last() == t);
}

/// Prefix form of `entries_lines`, used by loops that walk the entries.
pub proof fn lemma_entries_lines_take(es: Seq<EntryM>, i: int)
    requires
        0 <= i < es.len(),
    ensures
        entries_lines(es.take(i + 1)) == entries_lines(es.take(i)) + entry_lines(es[i]),
{
    assert(es.take(i + 1).drop_last() =~= es.take(i));
    assert(es.take(i + 1).last() == es[i]);
}

/// Prefix form of `tables_lines`.
pub proof fn lemma_tables_lines_take(ts: Seq<TableM>, i: int)
    requires
        0 <= i < ts.len(),
    ensures
        tables_lines(ts.take(i + 1)) == tables_lines(ts.take(i)) + table_lines(ts[i]),
{
    assert(ts.take(i + 1).drop_last() =~= ts.take(i));
    assert(ts.take(i + 1).last() == ts[i]);
}

/// Append copies of all lines of `src` to `dst`.
pub fn push_all(dst: &mut Vec<Vec<u8>>, src: &Vec<Vec<u8>>)
    ensures
        dv(final(dst)@) == dv(old(dst)@) + dv(src@),
{
    let mut i: usize = 0;
    proof {
        assert(dv(dst@) =~= dv(dst@) + dv(src@).take(0));
    }
    while i < src.len()
        invariant
            i <= src.len(),
            dv(dst@) == dv(old(dst)@) + dv(src@).take(i as int),
        decreases src.len() - i,
    {
        let line = copy_bytes(&src[i]);
        proof {
            assert(dv(dst@.push(line)) =~= dv(dst@).push(line@));
            assert(dv(src@).take(i + 1) =~= dv(src@).take(i as int).push(src@[i as int]@));
            assert((dv(old(dst)@) + dv(src@).take(i as int)).push(src@[i as int]@) =~= dv(old(dst)@)
                + dv(src@).take(i + 1));
        }
        dst.push(line);
        i = i + 1;
    }
    proof {
        assert(dv(src@).take(src@.len() as int) =~= dv(src@));
    }
}

/// Append the lines of one entry to `dst`.
pub fn push_entry_lines(dst: &mut Vec<Vec<u8>>, e: &Entry)
    ensures
        dv(final(dst)@) == dv(old(dst)@) + entry_lines(e@),
{
    push_all(dst, &e.leading);
    push_all(dst, &e.raws);
    push_all(dst, &e.blanks);
    proof {
        assert(dv(dst@) =~= dv(old(dst)@) + entry_lines(e@));
    }
}

/// Append the lines of one body to `dst`.
pub fn push_body_lines(dst: &mut Vec<Vec<u8>>, b: &Body)
    ensures
        dv(final(dst)@) == dv(old(dst)@) + body_lines(b@),
{
    push_all(dst, &b.opening);
    let ghost mid0 = dv(dst@);
    let mut i: usize = 0;
    proof {
        assert(mid0 =~= mid0 + entries_lines(b@.entries.take(0)));
    }
    while i < b.entries.len()
        invariant
            i <= b.entries.len(),
            b@.entries.len() == b.entries@.len(),
            forall|k: int|
                0 <= k < b.entries@.len() ==> b@.entries[k] == #[trigger] b.entries@[k]@,
            dv(dst@) == mid0 + entries_lines(b@.entries.take(i as int)),
        decreases b.entries.len() - i,
    {
        let ghost before = dv(dst@);
        push_entry_lines(dst, &b.entries[i]);
        proof {
            lemma_entries_lines_take(b@.entries, i as int);
            assert((mid0 + entries_lines(b@.entries.take(i as int)))
                + entry_lines(b@.entries[i as int]) =~= mid0 + entries_lines(
                b@.entries.take(i + 1),
            ));
        }
        i = i + 1;
    }
    proof {
        assert(b@.entries.take(b@.entries.len() as int) =~= b@.entries);
    }
    push_all(dst, &b.trailing);
    proof {
        assert(dv(dst@) =~= dv(old(dst)@) + body_lines(b@));
    }
}

/// Append the lines of one table to `dst`.
pub fn push_table_lines(dst: &mut Vec<Vec<u8>>, t: &Table)
    ensures
        dv(final(dst)@) == dv(old(dst)@) + table_lines(t@),
{
    push_all(dst, &t.leading);
    let header = copy_bytes(&t.header);
    proof {
        assert(dv(dst@.push(header)) =~= dv(dst@).push(header@));
    }
    dst.push(header);
    push_body_lines(dst, &t.body);
    proof {
        assert(dv(dst@) =~= dv(old(dst)@) + table_lines(t@));
    }
}

/// All lines of the document, as a list of byte strings.
pub fn collect_lines(d: &Document) -> (r: Vec<Vec<u8>>)
    ensures
        dv(r@) == doc_lines(d@),
{
    let mut out: Vec<Vec<u8>> = Vec::new();
    proof {
        assert(dv(out@) =~= Seq::<Seq<u8>>::empty());
    }
    push_body_lines(&mut out, &d.root);
    let ghost mid0 = dv(out@);
    let mut i: usize = 0;
    proof {
        assert(mid0 =~= mid0 + tables_lines(d@.tables.take(0)));
    }
    while i < d.tables.len()
        invariant
            i <= d.tables.len(),
            d@.tables.len() == d.tables@.len(),
            forall|k: int| 0 <= k < d.tables@.len() ==> d@.tables[k] == #[trigger] d.tables@[k]@,
            dv(out@) == mid0 + tables_lines(d@.tables.take(i as int)),
        decreases d.tables.len() - i,
    {
        push_table_lines(&mut out, &d.tables[i]);
        proof {
            lemma_tables_lines_take(d@.tables, i as int);
            assert((mid0 + tables_lines(d@.tables.take(i as int)))
                + table_lines(d@.tables[i as int]) =~= mid0 + tables_lines(
                d@.tables.take(i + 1),
            ));
        }
        i = i + 1;
    }
    proof {
        assert(d@.tables.take(d@.tables.len() as int) =~= d@.tables);
        assert(dv(out@) =~= doc_lines(d@));
    }
    out
}

/// Turn a document back into text. With no edits between parsing and
/// serializing, the result is byte-identical to the input (the round-trip
/// guarantee carried by `parse`).
pub fn serialize(d: &Document) -> (r: Vec<u8>)
    ensures
        r@ == doc_text(d@),
{
    let lines = collect_lines(d);
    let r = join_lines(&lines, d.final_newline);
    proof {
        assert(r@ =~= doc_text(d@));
    }
    r
}

} // verus!
