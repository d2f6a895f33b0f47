use vstd::prelude::*;

use crate::bytes::copy_bytes;
use crate::model::{Body, BodyM, DocM, Document, Entry, EntryM, Table, TableM};

verus! {

/// Is `v` exactly one single-quoted literal string, single-line, with no
/// quote character or backslash inside? Only such values can change quote
/// style without changing meaning.
pub open spec fn is_plain_literal(v: Seq<u8>) -> bool {
    v.len() >= 2 && v[0] == 39 && v[v.len() - 1] == 39 && (forall|i: int|
        0 < i < v.len() - 1 ==> #[trigger] v[i] != 39 && v[i] != 34 && v[i] != 92)
}

/// The canonical spelling of a value: a plain literal string is rewritten
/// to the preferred double-quote style; anything else is kept as written.
pub open spec fn canon_val(v: Seq<u8>) -> Seq<u8> {
    if is_plain_literal(v) {
        seq![34u8] + v.subrange(1, v.len() - 1) + seq![34u8]
    } else {
        v
    }
}

/// The canonical form of a single-line entry: no indentation, one space on
/// each side of `=`, the value in canonical spelling.
pub open spec fn kv_line(key: Seq<u8>, val: Seq<u8>) -> Seq<u8> {
    key + seq![32u8, 61u8, 32u8] + canon_val(val)
}

/// An entry after formatting: a single-line entry is rewritten in canonical
/// form; a multi-line entry keeps its raw lines; runs of blank lines
/// collapse to one truly empty line.
pub open spec fn fmt_entry_spec(e: EntryM) -> EntryM {
    EntryM {
        leading: e.leading,
        raws: if e.raws.len() == 1 {
            seq![kv_line(e.key, e.val)]
        } else {
            e.raws
        },
        key: e.key,
        val: e.val,
        blanks: if e.blanks.len() > 0 {
            seq![Seq::<u8>::empty()]
        } else {
            Seq::<Seq<u8>>::empty()
        },
    }
}

pub open spec fn fmt_body_spec(b: BodyM) -> BodyM {
    BodyM {
        opening: b.opening,
        entries: b.entries.map_values(|e: EntryM| fmt_entry_spec(e)),
        trailing: b.trailing,
    }
}

pub open spec fn fmt_table_spec(t: TableM) -> TableM {
    TableM { leading: t.leading, header: t.header, name: t.name, body: fmt_body_spec(t.body) }
}

/// A document after the format engine: every body formatted, and the text
/// ends with a newline.
pub open spec fn fmt_doc_spec(d: DocM) -> DocM {
    DocM {
        root: fmt_body_spec(d.root),
        tables: d.tables.map_values(|t: TableM| fmt_table_spec(t)),
        final_newline: true,
    }
}

/// Formatting is idempotent: applying the format engine to its own output
/// changes nothing.
pub proof fn lemma_fmt_idempotent(d: DocM)
    ensures
        fmt_doc_spec(fmt_doc_spec(d)) == fmt_doc_spec(d),
{
    let d1 = fmt_doc_spec(d);
    let d2 = fmt_doc_spec(d1);
    assert(d2.root.entries =~= d1.root.entries);
    assert(d2.root == d1.root);
    assert forall|k: int| 0 <= k < d1.tables.len() implies #[trigger] d2.tables[k]
        == d1.tables[k] by {
        let t = d.tables[k];
        assert(d1.tables[k] == fmt_table_spec(t));
        assert(d2.tables[k] == fmt_table_spec(fmt_table_spec(t)));
        assert(fmt_table_spec(fmt_table_spec(t)).body.entries =~= fmt_table_spec(t).body.entries);
        assert(fmt_table_spec(fmt_table_spec(t)).body == fmt_table_spec(t).body);
    }
    assert(d2.tables =~= d1.tables);
}

/// Canonical spelling of one value.
fn canon_val_exec(v: &Vec<u8>) -> (r: Vec<u8>)
    ensures
        r@ == canon_val(v@),
{
    let n = v.len();
    if n < 2 || v[0] != 39 || v[n - 1] != 39 {
        proof {
            assert(!is_plain_literal(v@));
        }
        return copy_bytes(v);
    }
    let mut i: usize = 1;
    while i < n - 1
        invariant
            1 <= i <= n - 1,
            n == v@.len(),
            n >= 2,
            forall|q: int| 0 < q < i ==> #[trigger] v@[q] != 39 && v@[q] != 34 && v@[q] != 92,
        decreases n - i,
    {
        if v[i] == 39 || v[i] == 34 || v[i] == 92 {
            proof {
                assert(!(v@[i as int] != 39 && v@[i as int] != 34 && v@[i as int] != 92));
                assert(!is_plain_literal(v@));
            }
            return copy_bytes(v);
        }
        i = i + 1;
    }
    proof {
        assert(is_plain_literal(v@));
    }
    let mut out: Vec<u8> = Vec::new();
    out.push(34);
    let mut j: usize = 1;
    proof {
        assert(out@ =~= seq![34u8] + v@.subrange(1, 1));
    }
    while j < n - 1
        invariant
            1 <= j <= n - 1,
            n == v@.len(),
            n >= 2,
            out@ == seq![34u8] + v@.subrange(1, j as int),
        decreases n - j,
    {
        proof {
            assert(v@.subrange(1, j as int + 1) =~= v@.subrange(1, j as int).push(v@[j as int]));
            assert((seq![34u8] + v@.subrange(1, j as int)).push(v@[j as int]) =~= seq![34u8]
                + v@.subrange(1, j as int + 1));
        }
        out.push(v[j]);
        j = j + 1;
    }
    proof {
        assert(out@ =~= seq![34u8] + v@.subrange(1, n as int - 1));
        assert(out@.push(34u8) =~= canon_val(v@));
    }
    out.push(34);
    out
}

/// Format one entry in place.
fn fmt_entry(e: &mut Entry)
    ensures
        final(e)@ == fmt_entry_spec(old(e)@),
{
    if e.raws.len() == 1 {
        let mut line = copy_bytes(&e.key);
        line.push(32);
        line.push(61);
        line.push(32);
        let cv = canon_val_exec(&e.val);
        let mut ci: usize = 0;
        while ci < cv.len()
            invariant
                ci <= cv@.len(),
                line@ == old(e)@.key + seq![32u8, 61u8, 32u8] + cv@.take(ci as int),
                cv@ == canon_val(old(e)@.val),
            decreases cv.len() - ci,
        {
            proof {
                assert((old(e)@.key + seq![32u8, 61u8, 32u8] + cv@.take(ci as int)).push(
                    cv@[ci as int],
                ) =~= old(e)@.key + seq![32u8, 61u8, 32u8] + cv@.take(ci as int + 1));
            }
            line.push(cv[ci]);
            ci = ci + 1;
        }
        proof {
            assert(cv@.take(cv@.len() as int) =~= cv@);
            assert(line@ =~= kv_line(old(e)@.key, old(e)@.val));
        }
        let mut raws: Vec<Vec<u8>> = Vec::new();
        raws.push(line);
        e.raws = raws;
        proof {
            assert(e@.raws =~= seq![kv_line(old(e)@.key, old(e)@.val)]);
        }
    }
    if e.blanks.len() > 0 {
        let mut blanks: Vec<Vec<u8>> = Vec::new();
        blanks.push(Vec::new());
        e.blanks = blanks;
        proof {
            assert(e@.blanks =~= seq![Seq::<u8>::empty()]);
        }
    }
    proof {
        let tgt = fmt_entry_spec(old(e)@);
        assert(e@.leading =~= tgt.leading);
        assert(e@.raws =~= tgt.raws);
        assert(e@.blanks =~= tgt.blanks);
        assert(e@ == tgt);
    }
}

/// Format a body in place.
fn fmt_body(b: &mut Body)
    ensures
        final(b)@ == fmt_body_spec(old(b)@),
{
    let ghost es0 = old(b)@.entries;
    let ghost target = es0.map_values(|e: EntryM| fmt_entry_spec(e));
    let n = b.entries.len();
    let mut out: Vec<Entry> = Vec::new();
    let mut taken: Vec<Entry> = Vec::new();
    core::mem::swap(&mut b.entries, &mut taken);
    let mut i: usize = 0;
    proof {
        crate::sort::lemma_ems_index(taken@);
        assert(crate::sort::ems(out@) =~= target.take(0));
        assert(crate::sort::ems(taken@) =~= es0.skip(0));
    }
    while taken.len() > 0
        invariant
            i <= es0.len(),
            es0.len() == n as int,
            target == es0.map_values(|e: EntryM| fmt_entry_spec(e)),
            crate::sort::ems(taken@) == es0.skip(i as int),
            taken@.len() == es0.len() - i,
            crate::sort::ems(out@) == target.take(i as int),
        decreases taken@.len(),
    {
        let ghost pre = taken@;
        let mut e = taken.remove(0);
        proof {
            pre.remove_ensures(0);
            crate::sort::lemma_ems_index(pre);
            crate::sort::lemma_ems_index(taken@);
            assert(crate::sort::ems(pre)[0] == es0.skip(i as int)[0]);
            assert(e@ == es0[i as int]);
            assert(crate::sort::ems(taken@) =~= es0.skip(i as int + 1));
        }
        fmt_entry(&mut e);
        let ghost outp = crate::sort::ems(out@);
        out.push(e);
        proof {
            crate::sort::lemma_ems_index(out@);
            assert(target[i as int] == fmt_entry_spec(es0[i as int]));
            assert(crate::sort::ems(out@) =~= outp.push(target[i as int]));
            assert(target.take(i as int + 1) =~= target.take(i as int).push(target[i as int]));
        }
        i = i + 1;
    }
    proof {
        assert(target.take(target.len() as int) =~= target);
    }
    b.entries = out;
    proof {
        assert(b@ == fmt_body_spec(old(b)@));
    }
}

/// Format a whole document in place: canonical entry lines, collapsed blank
/// runs, and a final newline.
pub fn fmt_doc(d: &mut Document)
    ensures
        final(d)@ == fmt_doc_spec(old(d)@),
{
    let ghost d0 = old(d)@;
    fmt_body(&mut d.root);
    let ghost ts0 = d0.tables;
    let ghost target = ts0.map_values(|t: TableM| fmt_table_spec(t));
    let n = d.tables.len();
    let mut out: Vec<Table> = Vec::new();
    let mut taken: Vec<Table> = Vec::new();
    core::mem::swap(&mut d.tables, &mut taken);
    let mut i: usize = 0;
    proof {
        crate::sort::lemma_tsm_index(taken@);
        assert(crate::sort::tsm(out@) =~= target.take(0));
        assert(crate::sort::tsm(taken@) =~= ts0.skip(0));
    }
    while taken.len() > 0
        invariant
            i <= ts0.len(),
            ts0.len() == n as int,
            target == ts0.map_values(|t: TableM| fmt_table_spec(t)),
            crate::sort::tsm(taken@) == ts0.skip(i as int),
            taken@.len() == ts0.len() - i,
            crate::sort::tsm(out@) == target.take(i as int),
        decreases taken@.len(),
    {
        let ghost pre = taken@;
        let mut t = taken.remove(0);
        proof {
            pre.remove_ensures(0);
            crate::sort::lemma_tsm_index(pre);
            crate::sort::lemma_tsm_index(taken@);
            assert(crate::sort::tsm(pre)[0] == ts0.skip(i as int)[0]);
            assert(t@ == ts0[i as int]);
            assert(crate::sort::tsm(taken@) =~= ts0.skip(i as int + 1));
        }
        fmt_body(&mut t.body);
        proof {
            assert(t@ == fmt_table_spec(ts0[i as int]));
        }
        let ghost outp = crate::sort::tsm(out@);
        out.push(t);
        proof {
            crate::sort::lemma_tsm_index(out@);
            assert(crate::sort::tsm(out@) =~= outp.push(target[i as int]));
            assert(target.take(i as int + 1) =~= target.take(i as int).push(target[i as int]));
        }
        i = i + 1;
    }
    proof {
        assert(target.take(target.len() as int) =~= target);
    }
    d.tables = out;
    d.final_newline = true;
    proof {
        assert(d@ == fmt_doc_spec(d0));
    }
}

} // verus!
