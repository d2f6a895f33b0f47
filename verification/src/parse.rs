use vstd::prelude::*;

use crate::bytes::copy_bytes;
use crate::lines::{dv, join, lemma_join_push, split_lines};
use crate::model::{
    body_lines, body_wf, comment_lines, doc_lines, doc_text, doc_wf, entries_lines, entry_lines,
    entry_wf, lemma_entries_lines_push, lemma_tables_lines_push, soft_lines, table_lines, table_wf,
    tables_lines, Body, BodyM, DocM, Document, Entry, Table, TableM,
};
use crate::model::push_all;
use crate::scan::{
    find_eq, header_name, header_shape, is_blank_line, is_comment_line, is_entry_line,
    is_header_line, kv_shape, scan_open, scan_start, scan_value, trim_bounds, trimmed, trimmed_copy,
    ParseError, ParseErrorKind,
};

verus! {

/// The model of an optional body.
pub open spec fn root_m(o: Option<Body>) -> Option<BodyM> {
    match o {
        Option::Some(b) => Option::Some(b@),
        Option::None => Option::None,
    }
}

/// The lines consumed so far by the parser: the finished root body, the
/// finished tables, the open table's leading comments and header, the open
/// body, and the pending comment block.
pub open spec fn built_lines(
    root: Option<BodyM>,
    tables: Seq<TableM>,
    lead: Seq<Seq<u8>>,
    header: Seq<u8>,
    cur: BodyM,
    pend: Seq<Seq<u8>>,
) -> Seq<Seq<u8>> {
    match root {
        Option::None => body_lines(cur) + pend,
        Option::Some(r) => body_lines(r) + tables_lines(tables) + lead + seq![header] + body_lines(
            cur,
        ) + pend,
    }
}

/// Attach a blank line (and the comment block above it) to the body: to the
/// last entry's trailing blanks when the body has entries, else to the
/// body's opening lines.
fn attach_blank(cur: &mut Body, pending: Vec<Vec<u8>>, line: Vec<u8>)
    requires
        old(cur).trailing@.len() == 0,
        body_wf(old(cur)@),
        comment_lines(dv(pending@)),
        is_blank_line(line@),
    ensures
        final(cur).trailing@.len() == 0,
        body_lines(final(cur)@) == body_lines(old(cur)@) + dv(pending@) + seq![line@],
        final(cur)@.entries.len() == old(cur)@.entries.len(),
        body_wf(final(cur)@),
{
    let ghost pm = dv(pending@);
    let ghost lm = line@;
    let ghost b0 = old(cur)@;
    if cur.entries.len() == 0 {
        push_all(&mut cur.opening, &pending);
        proof {
            assert(dv(cur.opening@.push(line)) =~= dv(cur.opening@).push(lm));
        }
        cur.opening.push(line);
        proof {
            assert(entries_lines(cur@.entries) =~= Seq::<Seq<u8>>::empty());
            assert(body_lines(cur@) =~= body_lines(b0) + pm + seq![lm]);
            assert(cur@.opening =~= b0.opening + pm + seq![lm]);
            assert forall|k: int|
                0 <= k < cur@.opening.len() implies is_blank_line(#[trigger] cur@.opening[k])
                || is_comment_line(cur@.opening[k]) by {
                if k < b0.opening.len() {
                    assert(cur@.opening[k] == b0.opening[k]);
                } else if k < b0.opening.len() + pm.len() {
                    assert(cur@.opening[k] == pm[k - b0.opening.len()]);
                } else {
                    assert(cur@.opening[k] == lm);
                }
            }
            assert(body_wf(cur@));
        }
    } else {
        let ghost es0 = b0.entries;
        let e_opt = cur.entries.pop();
        match e_opt {
            Option::Some(mut e) => {
                proof {
                    assert(cur@.entries =~= es0.drop_last());
                    assert(e@ == es0.last());
                }
                let ghost em0 = e@;
                push_all(&mut e.blanks, &pending);
                proof {
                    assert(dv(e.blanks@.push(line)) =~= dv(e.blanks@).push(lm));
                }
                e.blanks.push(line);
                let ghost em1 = e@;
                proof {
                    assert(em1.blanks =~= em0.blanks + pm + seq![lm]);
                    assert(entry_lines(em1) =~= entry_lines(em0) + pm + seq![lm]);
                }
                cur.entries.push(e);
                proof {
                    assert(cur@.entries =~= es0.drop_last().push(em1));
                    lemma_entries_lines_push(es0.drop_last(), em1);
                    assert(entries_lines(es0) == entries_lines(es0.drop_last()) + entry_lines(
                        es0.last(),
                    ));
                    assert(entries_lines(cur@.entries) =~= entries_lines(es0) + pm + seq![lm]);
                    assert(body_lines(cur@) =~= body_lines(b0) + pm + seq![lm]);
                    assert(entry_wf(em0));
                    assert forall|k: int|
                        0 <= k < em1.blanks.len() implies is_blank_line(#[trigger] em1.blanks[k])
                        || is_comment_line(em1.blanks[k]) by {
                        if k < em0.blanks.len() {
                            assert(em1.blanks[k] == em0.blanks[k]);
                        } else if k < em0.blanks.len() + pm.len() {
                            assert(em1.blanks[k] == pm[k - em0.blanks.len()]);
                        } else {
                            assert(em1.blanks[k] == lm);
                        }
                    }
                    assert(entry_wf(em1));
                    assert forall|k: int|
                        0 <= k < cur@.entries.len() implies entry_wf(
                        #[trigger] cur@.entries[k],
                    ) by {
                        if k < es0.len() - 1 {
                            assert(cur@.entries[k] == es0[k]);
                        } else {
                            assert(cur@.entries[k] == em1);
                        }
                    }
                    assert(body_wf(cur@));
                }
            },
            Option::None => {
                proof {
                    assert(false);
                }
            },
        }
    }
}

/// Append a finished entry to the body.
fn push_entry(cur: &mut Body, e: Entry)
    requires
        old(cur).trailing@.len() == 0,
        body_wf(old(cur)@),
        entry_wf(e@),
    ensures
        final(cur).trailing@.len() == 0,
        body_lines(final(cur)@) == body_lines(old(cur)@) + entry_lines(e@),
        final(cur)@.entries.len() == old(cur)@.entries.len() + 1,
        body_wf(final(cur)@),
{
    let ghost b0 = old(cur)@;
    let ghost em = e@;
    cur.entries.push(e);
    proof {
        assert(cur@.entries =~= b0.entries.push(em));
        lemma_entries_lines_push(b0.entries, em);
        assert(body_lines(cur@) =~= body_lines(b0) + entry_lines(em));
        assert forall|k: int|
            0 <= k < cur@.entries.len() implies entry_wf(#[trigger] cur@.entries[k]) by {
            if k < b0.entries.len() {
                assert(cur@.entries[k] == b0.entries[k]);
            } else {
                assert(cur@.entries[k] == em);
            }
        }
        assert(body_wf(cur@));
    }
}

/// A fresh, empty body.
fn empty_body() -> (r: Body)
    ensures
        r@.opening.len() == 0,
        r@.entries.len() == 0,
        r@.trailing.len() == 0,
        body_lines(r@) == Seq::<Seq<u8>>::empty(),
        r.trailing@.len() == 0,
        body_wf(r@),
{
    let b = Body { opening: Vec::new(), entries: Vec::new(), trailing: Vec::new() };
    proof {
        assert(entries_lines(b@.entries) =~= Seq::<Seq<u8>>::empty());
        assert(body_lines(b@) =~= Seq::<Seq<u8>>::empty());
    }
    b
}


/// Assemble the finished document from the parser's state.
fn finish(
    root: Option<Body>,
    tables: Vec<Table>,
    cur_leading: Vec<Vec<u8>>,
    cur_header: Vec<u8>,
    cur_name: Vec<u8>,
    cur: Body,
    pending: Vec<Vec<u8>>,
    fnl: bool,
) -> (d: Document)
    requires
        cur.trailing@.len() == 0,
        root_m(root) == Option::<BodyM>::None ==> tables@.len() == 0,
        body_wf(cur@),
        comment_lines(dv(pending@)),
        forall|k: int| 0 <= k < tables@.len() ==> table_wf(#[trigger] tables@[k]@),
        (match root_m(root) {
            Option::Some(rb) => body_wf(rb),
            Option::None => true,
        }),
        root_m(root) is Some ==> comment_lines(dv(cur_leading@)) && is_header_line(cur_header@)
            && header_shape(trimmed(cur_header@), cur_name@),
    ensures
        d@.final_newline == fnl,
        doc_lines(d@) == built_lines(
            root_m(root),
            tables@.map_values(|t: Table| t@),
            dv(cur_leading@),
            cur_header@,
            cur@,
            dv(pending@),
        ),
        doc_wf(d@),
{
    let ghost c0 = cur@;
    let ghost pm = dv(pending@);
    let mut cur = cur;
    push_all(&mut cur.trailing, &pending);
    proof {
        assert(body_lines(cur@) =~= body_lines(c0) + pm);
        assert(cur@.trailing =~= pm);
        assert(body_wf(cur@));
    }
    let ghost tm0 = tables@.map_values(|t: Table| t@);
    match root {
        Option::None => {
            let d = Document { root: cur, tables, final_newline: fnl };
            proof {
                assert(tables_lines(d@.tables) =~= Seq::<Seq<u8>>::empty());
                assert(doc_lines(d@) =~= body_lines(c0) + pm);
                assert(d@.tables.len() == 0);
                assert(doc_wf(d@));
            }
            d
        },
        Option::Some(r) => {
            let t = Table { leading: cur_leading, header: cur_header, name: cur_name, body: cur };
            let ghost tmv = t@;
            let mut ts = tables;
            ts.push(t);
            proof {
                assert(ts@.map_values(|t2: Table| t2@) =~= tm0.push(tmv));
                lemma_tables_lines_push(tm0, tmv);
            }
            let d = Document { root: r, tables: ts, final_newline: fnl };
            proof {
                assert(table_lines(tmv) =~= tmv.leading + seq![tmv.header] + (body_lines(c0) + pm));
                assert(doc_lines(d@) =~= body_lines(r@) + tables_lines(tm0) + tmv.leading + seq![
                    tmv.header,
                ] + body_lines(c0) + pm);
                assert(table_wf(tmv));
                assert forall|k: int|
                    0 <= k < d@.tables.len() implies table_wf(#[trigger] d@.tables[k]) by {
                    assert(d@.tables[k] == ts@[k]@);
                    if k < tables@.len() {
                        assert(ts@[k] == tables@[k]);
                    } else {
                        assert(ts@[k]@ == tmv);
                    }
                }
                assert(doc_wf(d@));
            }
            d
        },
    }
}

/// From the split of the text into segments, the document whose lines are
/// the content segments stands for the text itself.
proof fn lemma_doc_text_from_lines(d: DocM, segs: Seq<Seq<u8>>, text: Seq<u8>, nlines: int)
    requires
        segs.len() >= 1,
        join(segs) == text,
        doc_lines(d) == segs.take(nlines),
        if segs.len() >= 2 && segs.last().len() == 0 {
            nlines == segs.len() - 1 && d.final_newline
        } else if segs.len() == 1 && segs[0].len() == 0 {
            nlines == 0 && !d.final_newline
        } else {
            nlines == segs.len() && !d.final_newline
        },
    ensures
        doc_text(d) == text,
{
    let line_seq = segs.take(nlines);
    if segs.len() >= 2 && segs.last().len() == 0 {
        assert(segs.last() =~= Seq::<u8>::empty());
        assert(segs =~= line_seq.push(segs.last()));
        lemma_join_push(line_seq, segs.last());
        assert(join(line_seq) + seq![10u8] + segs.last() =~= join(line_seq) + seq![10u8]);
        assert(doc_text(d) =~= text);
    } else if segs.len() == 1 && segs[0].len() == 0 {
        assert(line_seq.len() == 0);
        assert(join(segs) == segs[0]);
        assert(text.len() == 0);
        assert(doc_text(d) =~= text);
    } else {
        assert(line_seq =~= segs);
        assert(doc_text(d) =~= text);
    }
}

/// Parse manifest text into a lossless document.
///
/// The grammar is line-shaped: a line is blank, a comment (`#`), a table
/// header (`[name]` or `[[name]]`), or a `key = value` entry whose value may
/// continue over further lines while a bracket group or multi-line string is
/// open. Comments directly above an entry, blank lines after it, and raw
/// line text all survive in the document.
///
/// Round trip: when parsing succeeds, serializing the document unchanged
/// reproduces the input byte for byte. The document is also well formed
/// (`doc_wf`): every line is classified — free-standing lines are blank or
/// comments, each table's `name` is the bracketed content of its header
/// line, and each entry's `key` and `val` are the trimmed parts of its
/// first raw line around the first `=`.
#[verifier::rlimit(100)]
pub fn parse(text: &Vec<u8>) -> (r: Result<Document, ParseError>)
    ensures
        r matches Ok(d) ==> doc_text(d@) == text@ && doc_wf(d@),
{
    let segs = split_lines(text);
    let n = segs.len();
    let last_empty = segs[n - 1].len() == 0;
    let (nlines, fnl): (usize, bool) = if n >= 2 && last_empty {
        (n - 1, true)
    } else if n == 1 && last_empty {
        (0, false)
    } else {
        (n, false)
    };
    let ghost line_seq = dv(segs@).take(nlines as int);

    let mut root: Option<Body> = Option::None;
    let mut tables: Vec<Table> = Vec::new();
    let mut cur_leading: Vec<Vec<u8>> = Vec::new();
    let mut cur_header: Vec<u8> = Vec::new();
    let mut cur_name: Vec<u8> = Vec::new();
    let mut cur: Body = empty_body();
    let mut pending: Vec<Vec<u8>> = Vec::new();
    let mut i: usize = 0;

    proof {
        assert(built_lines(
            root_m(root),
            tables@.map_values(|t: Table| t@),
            dv(cur_leading@),
            cur_header@,
            cur@,
            dv(pending@),
        ) =~= line_seq.take(0));
    }
    while i < nlines
        invariant
            i <= nlines,
            nlines <= segs@.len(),
            line_seq == dv(segs@).take(nlines as int),
            cur.trailing@.len() == 0,
            root_m(root) == Option::<BodyM>::None ==> tables@.len() == 0,
            body_wf(cur@),
            comment_lines(dv(pending@)),
            forall|k: int| 0 <= k < tables@.len() ==> table_wf(#[trigger] tables@[k]@),
            (match root_m(root) {
                Option::Some(rb) => body_wf(rb),
                Option::None => true,
            }),
            root_m(root) is Some ==> comment_lines(dv(cur_leading@)) && is_header_line(cur_header@)
                && header_shape(trimmed(cur_header@), cur_name@),
            built_lines(
                root_m(root),
                tables@.map_values(|t: Table| t@),
                dv(cur_leading@),
                cur_header@,
                cur@,
                dv(pending@),
            ) == line_seq.take(i as int),
        decreases nlines - i,
    {
        let ghost built0 = built_lines(
            root_m(root),
            tables@.map_values(|t: Table| t@),
            dv(cur_leading@),
            cur_header@,
            cur@,
            dv(pending@),
        );
        let line = copy_bytes(&segs[i]);
        let ghost lm = line@;
        proof {
            assert(lm == line_seq[i as int]);
            assert(line_seq.take(i + 1) =~= line_seq.take(i as int).push(lm));
        }
        let (lo, hi) = trim_bounds(&line);
        if lo == hi {
            // blank line
            let ghost pm = dv(pending@);
            let ghost c0 = cur@;
            proof {
                assert(trimmed(lm) =~= Seq::<u8>::empty());
                assert(is_blank_line(lm));
            }
            attach_blank(&mut cur, pending, line);
            pending = Vec::new();
            proof {
                assert(dv(pending@) =~= Seq::<Seq<u8>>::empty());
                assert(built_lines(
                    root_m(root),
                    tables@.map_values(|t: Table| t@),
                    dv(cur_leading@),
                    cur_header@,
                    cur@,
                    dv(pending@),
                ) =~= built0.push(lm));
            }
            i = i + 1;
        } else if line[lo] == 35 {
            // comment line
            let ghost pm0 = dv(pending@);
            proof {
                assert(dv(pending@.push(line)) =~= dv(pending@).push(lm));
                assert(trimmed(lm)[0] == lm[lo as int]);
                assert(is_comment_line(lm));
            }
            pending.push(line);
            proof {
                assert forall|k: int|
                    0 <= k < dv(pending@).len() implies is_comment_line(
                    #[trigger] dv(pending@)[k],
                ) by {
                    if k < pm0.len() {
                        assert(dv(pending@)[k] == pm0[k]);
                    } else {
                        assert(dv(pending@)[k] == lm);
                    }
                }
            }
            proof {
                assert(built_lines(
                    root_m(root),
                    tables@.map_values(|t: Table| t@),
                    dv(cur_leading@),
                    cur_header@,
                    cur@,
                    dv(pending@),
                ) =~= built0.push(lm));
            }
            i = i + 1;
        } else if line[lo] == 91 {
            // table header: finish the open body, start a new table
            let name = match header_name(&line, lo, hi) {
                Ok(nm) => nm,
                Err(k) => {
                    return Err(ParseError { line: i + 1, kind: k });
                },
            };
            let ghost tm0 = tables@.map_values(|t: Table| t@);
            let ghost c0 = cur@;
            let ghost pm = dv(pending@);
            if root.is_none() {
                root = Option::Some(cur);
            } else {
                let t = Table {
                    leading: cur_leading,
                    header: cur_header,
                    name: cur_name,
                    body: cur,
                };
                proof {
                    assert(t@.body == c0);
                }
                let ghost tmv = t@;
                let ghost tbl0 = tables@;
                tables.push(t);
                proof {
                    assert(tables@.map_values(|t2: Table| t2@) =~= tm0.push(tmv));
                    lemma_tables_lines_push(tm0, tmv);
                    assert(table_wf(tmv));
                    assert forall|k: int|
                        0 <= k < tables@.len() implies table_wf(#[trigger] tables@[k]@) by {
                        if k < tbl0.len() {
                            assert(tables@[k] == tbl0[k]);
                        } else {
                            assert(tables@[k]@ == tmv);
                        }
                    }
                }
                cur_leading = Vec::new();
                cur_header = Vec::new();
                cur_name = Vec::new();
            }
            cur = empty_body();
            cur_leading = pending;
            pending = Vec::new();
            cur_header = line;
            cur_name = name;
            proof {
                assert(dv(pending@) =~= Seq::<Seq<u8>>::empty());
                assert(trimmed(lm) == lm.subrange(lo as int, hi as int));
                assert(trimmed(lm)[0] == lm[lo as int]);
                assert(is_header_line(cur_header@));
                assert(header_shape(trimmed(cur_header@), cur_name@));
                assert(built_lines(
                    root_m(root),
                    tables@.map_values(|t: Table| t@),
                    dv(cur_leading@),
                    cur_header@,
                    cur@,
                    dv(pending@),
                ) =~= built0.push(lm));
            }
            i = i + 1;
        } else {
            // key = value entry, possibly spanning several lines
            let eq = match find_eq(&line, lo, hi) {
                Some(p) => p,
                None => {
                    return Err(ParseError { line: i + 1, kind: ParseErrorKind::MissingEquals });
                },
            };
            let key = trimmed_copy(&line, lo, eq);
            let val = trimmed_copy(&line, eq + 1, hi);
            let st0 = scan_start();
            let mut stc = match scan_value(st0, &line, eq + 1) {
                Ok(s) => s,
                Err(k) => {
                    return Err(ParseError { line: i + 1, kind: k });
                },
            };
            let mut raws: Vec<Vec<u8>> = Vec::new();
            let ghost start_i = i as int;
            proof {
                assert(dv(raws@.push(line)) =~= dv(raws@).push(lm));
                assert(dv(raws@).len() == 0);
            }
            raws.push(line);
            i = i + 1;
            proof {
                assert(dv(raws@) =~= line_seq.subrange(start_i, i as int));
            }
            let mut open = scan_open(&stc);
            while open
                invariant
                    stc.depth <= crate::scan::MAX_DEPTH,
                    0 <= start_i < i <= nlines,
                    nlines <= segs@.len(),
                    line_seq == dv(segs@).take(nlines as int),
                    dv(raws@) == line_seq.subrange(start_i, i as int),
                decreases nlines - i,
            {
                if i >= nlines {
                    return Err(ParseError { line: i, kind: ParseErrorKind::UnclosedValue });
                }
                let cont = copy_bytes(&segs[i]);
                let ghost cm = cont@;
                proof {
                    assert(dv(segs@).len() == segs@.len());
                    assert(line_seq.len() == nlines as int);
                    assert(cm == line_seq[i as int]);
                }
                stc = match scan_value(stc, &cont, 0) {
                    Ok(s) => s,
                    Err(k) => {
                        return Err(ParseError { line: i + 1, kind: k });
                    },
                };
                open = scan_open(&stc);
                proof {
                    assert(dv(raws@.push(cont)) =~= dv(raws@).push(cm));
                    let a = line_seq.subrange(start_i, i as int + 1);
                    let b = line_seq.subrange(start_i, i as int).push(cm);
                    assert(a.len() == b.len());
                    assert forall|k: int| 0 <= k < a.len() implies a[k] == b[k] by {
                        assert(a[k] == line_seq[start_i + k]);
                        if k < i as int - start_i {
                            assert(b[k] == line_seq[start_i + k]);
                        } else {
                            assert(b[k] == cm);
                        }
                    }
                    assert(a =~= b);
                }
                raws.push(cont);
                i = i + 1;
            }
            let ghost pm = dv(pending@);
            let ghost rm = dv(raws@);
            let e = Entry { leading: pending, raws, key, val, blanks: Vec::new() };
            pending = Vec::new();
            proof {
                assert(e@.leading == pm);
                assert(e@.raws == rm);
                assert(dv(e.blanks@) =~= Seq::<Seq<u8>>::empty());
                assert(entry_lines(e@) =~= pm + rm);
                // the first raw line is the key/value line itself
                assert(rm.len() >= 1);
                assert(rm[0] == lm);
                let t = trimmed(lm);
                assert(t == lm.subrange(lo as int, hi as int));
                assert(t[0] == lm[lo as int]);
                assert(is_entry_line(lm));
                // the first `=` of the trimmed line splits key from value
                assert(t[eq - lo] == lm[eq as int]);
                assert(t.contains(61)) by {
                    assert(t[eq - lo] == 61);
                }
                t.index_of_first_ensures(61);
                let p = t.index_of_first(61).unwrap();
                assert(p == eq - lo) by {
                    if p < eq - lo {
                        assert(t[p] == lm[lo + p]);
                        assert(lm[lo + p] != 61);
                    }
                    if p > eq - lo {
                        assert(t[eq - lo] != 61);
                    }
                }
                assert(t.take(p) =~= lm.subrange(lo as int, eq as int));
                assert(t.skip(p + 1) =~= lm.subrange(eq as int + 1, hi as int));
                assert(e@.key == trimmed(t.take(p)));
                assert(e@.val == trimmed(t.skip(p + 1)));
                assert(kv_shape(t, e@.key, e@.val));
                assert(entry_wf(e@));
            }
            let ghost c0 = cur@;
            push_entry(&mut cur, e);
            proof {
                assert(dv(pending@) =~= Seq::<Seq<u8>>::empty());
                assert(line_seq.take(start_i) + line_seq.subrange(start_i, i as int)
                    =~= line_seq.take(i as int));
                assert(built_lines(
                    root_m(root),
                    tables@.map_values(|t: Table| t@),
                    dv(cur_leading@),
                    cur_header@,
                    cur@,
                    dv(pending@),
                ) =~= line_seq.take(i as int));
            }
        }
    }
    let doc = finish(root, tables, cur_leading, cur_header, cur_name, cur, pending, fnl);
    proof {
        assert(line_seq.take(nlines as int) =~= line_seq);
        lemma_doc_text_from_lines(doc@, dv(segs@), text@, nlines as int);
    }
    Ok(doc)
}

} // verus!
