use vstd::prelude::*;

use crate::bytes::bytes_le;
use crate::lines::dv;
use crate::matcher::{is_sortable, matcher_sortable, Matcher, MatcherM};
use crate::model::{BodyM, DocM, Document, Entry, EntryM, Table, TableM};
use crate::sort_core::{
    insert_sorted, lemma_insert_pos, lemma_sort_props, lemma_sorted_id, sorted_by, stable_sort,
};

verus! {

/// The models of a run of entries.
pub open spec fn ems(s: Seq<Entry>) -> Seq<EntryM> {
    s.map_values(|e: Entry| e@)
}

/// The models of a run of tables.
pub open spec fn tsm(s: Seq<Table>) -> Seq<TableM> {
    s.map_values(|t: Table| t@)
}

/// The models of a run of groups.
pub open spec fn gsm(s: Seq<Vec<Entry>>) -> Seq<Seq<EntryM>> {
    s.map_values(|g: Vec<Entry>| ems(g@))
}

/// The sort key of an entry: its literal key text, compared byte-wise.
pub open spec fn ekey() -> spec_fn(EntryM) -> Seq<u8> {
    |e: EntryM| e.key
}

/// The sort key of a group: the key of its first entry.
pub open spec fn gkey() -> spec_fn(Seq<EntryM>) -> Seq<u8> {
    |g: Seq<EntryM>|
        if g.len() > 0 {
            g[0].key
        } else {
            Seq::<u8>::empty()
        }
}


/// Index form of `ems`.
pub proof fn lemma_ems_index(s: Seq<Entry>)
    ensures
        ems(s).len() == s.len(),
        forall|q: int| 0 <= q < s.len() ==> ems(s)[q] == (#[trigger] s[q])@,
{
}

/// Index form of the group model map.
pub proof fn lemma_gsm_index(s: Seq<Vec<Entry>>)
    ensures
        gsm(s).len() == s.len(),
        forall|q: int| 0 <= q < s.len() ==> gsm(s)[q] == ems((#[trigger] s[q])@),
{
}

/// Stable sort of a table's entries by key, in place.
pub fn sort_entries(v: &mut Vec<Entry>)
    ensures
        ems(final(v)@) == stable_sort(ems(old(v)@), ekey()),
{
    let ghost orig = ems(old(v)@);
    let ghost kf = ekey();
    if v.len() <= 1 {
        proof {
            if orig.len() == 1 {
                assert(orig.drop_last().len() == 0);
                assert(stable_sort(orig, kf) == insert_sorted(
                    stable_sort(orig.drop_last(), kf),
                    orig.last(),
                    kf,
                ));
                assert(stable_sort(orig, kf) =~= orig);
            }
            assert(ems(v@) =~= stable_sort(orig, kf));
        }
        return;
    }
    let mut i: usize = 1;
    proof {
        lemma_sort_props(orig.take(1), kf);
        lemma_sorted_id(orig.take(1), kf);
        assert(ems(v@) =~= stable_sort(orig.take(1), kf) + orig.skip(1));
    }
    while i < v.len()
        invariant
            1 <= i <= v@.len(),
            v@.len() == orig.len(),
            kf == ekey(),
            ems(v@) == stable_sort(orig.take(i as int), kf) + orig.skip(i as int),
        decreases v@.len() - i,
    {
        proof {
            lemma_sort_props(orig.take(i as int), kf);
        }
        let ghost srt = stable_sort(orig.take(i as int), kf);
        let ghost pre = v@;
        let e = v.remove(i);
        proof {
            pre.remove_ensures(i as int);
            lemma_ems_index(pre);
            lemma_ems_index(v@);
            assert(ems(pre)[i as int] == pre[i as int]@);
            assert(ems(pre)[i as int] == orig.skip(i as int)[0]);
            assert(e@ == orig[i as int]);
            assert(ems(v@) =~= srt + orig.skip(i as int + 1));
        }
        let mut j: usize = i;
        loop
            invariant
                0 <= j <= i < orig.len(),
                srt.len() == i,
                kf == ekey(),
                ems(v@) == srt + orig.skip(i as int + 1),
                v@.len() + 1 == orig.len(),
                forall|k: int| j <= k < i ==> !crate::bytes::lex_le(kf(#[trigger] srt[k]), kf(e@)),
            ensures
                0 <= j <= i,
                forall|k: int| j <= k < i ==> !crate::bytes::lex_le(kf(#[trigger] srt[k]), kf(e@)),
                j > 0 ==> crate::bytes::lex_le(kf(srt[j - 1]), kf(e@)),
            decreases j,
        {
            if j == 0 {
                break;
            }
            proof {
                assert(ems(v@)[j - 1] == srt[j - 1]);
                assert(v@[j - 1]@ == srt[j - 1]);
            }
            if bytes_le(&v[j - 1].key, &e.key) {
                break;
            }
            j = j - 1;
        }
        proof {
            let p = lemma_insert_pos(srt, e@, kf);
            if p < j as int {
                assert(!crate::bytes::lex_le(kf(srt[j - 1]), kf(e@)));
                assert(false);
            }
            if p > j as int {
                assert(!crate::bytes::lex_le(kf(srt[p - 1]), kf(e@)));
                assert(false);
            }
            assert(p == j as int);
        }
        let ghost pre2 = v@;
        v.insert(j, e);
        proof {
            pre2.insert_ensures(j as int, e);
            lemma_ems_index(pre2);
            lemma_ems_index(v@);
            assert(ems(v@) =~= srt.take(j as int) + seq![e@] + srt.skip(j as int) + orig.skip(
                i as int + 1,
            ));
            assert(insert_sorted(srt, e@, kf) =~= srt.take(j as int) + seq![e@] + srt.skip(
                j as int,
            ));
            assert(orig.take(i as int + 1).drop_last() =~= orig.take(i as int));
            assert(orig.take(i as int + 1).last() == orig[i as int]);
            assert(stable_sort(orig.take(i as int + 1), kf) == insert_sorted(srt, e@, kf));
            assert(ems(v@) =~= stable_sort(orig.take(i as int + 1), kf) + orig.skip(i as int + 1));
        }
        i = i + 1;
    }
    proof {
        assert(orig.take(orig.len() as int) =~= orig);
        assert(orig.skip(orig.len() as int).len() == 0);
        assert(ems(v@) =~= stable_sort(orig, kf));
    }
}

/// The groups of a run of entries: maximal runs not separated by a blank
/// line. An entry starts a new group exactly when it is first or its
/// predecessor carries trailing blank lines.
pub open spec fn groups(s: Seq<EntryM>) -> Seq<Seq<EntryM>>
    decreases s.len(),
{
    if s.len() == 0 {
        Seq::empty()
    } else {
        let g = groups(s.drop_last());
        if s.len() == 1 || s[s.len() - 2].blanks.len() > 0 {
            g.push(seq![s.last()])
        } else {
            g.update(g.len() - 1, g.last().push(s.last()))
        }
    }
}

/// Concatenation of groups back into one run.
pub open spec fn flat(gs: Seq<Seq<EntryM>>) -> Seq<EntryM>
    decreases gs.len(),
{
    if gs.len() == 0 {
        Seq::empty()
    } else {
        flat(gs.drop_last()) + gs.last()
    }
}

/// Grouping splits without loss: flattening the groups restores the run,
/// every group is non-empty, no entry inside a group except its last
/// carries trailing blanks, and a non-empty run has at least one group.
pub proof fn lemma_groups_flat(s: Seq<EntryM>)
    ensures
        s.len() > 0 ==> groups(s).len() > 0,
        flat(groups(s)) == s,
        forall|k: int| 0 <= k < groups(s).len() ==> (#[trigger] groups(s)[k]).len() > 0,
        forall|k: int, j: int|
            0 <= k < groups(s).len() && 0 <= j < groups(s)[k].len() - 1 ==> (#[trigger] groups(
                s,
            )[k][j]).blanks.len() == 0,
    decreases s.len(),
{
    if s.len() == 0 {
        assert(flat(groups(s)) =~= s);
    } else {
        let dl = s.drop_last();
        lemma_groups_flat(dl);
        let g = groups(dl);
        if s.len() == 1 || s[s.len() - 2].blanks.len() > 0 {
            let g2 = g.push(seq![s.last()]);
            assert(g2.drop_last() =~= g);
            assert(flat(g2) == flat(g) + seq![s.last()]);
            assert(flat(g2) =~= s);
            assert forall|k: int, j: int|
                0 <= k < g2.len() && 0 <= j < g2[k].len() - 1 implies (#[trigger] g2[k][j]).blanks.len()
                == 0 by {
                if k < g.len() {
                    assert(g2[k] == g[k]);
                }
            }
        } else {
            assert(dl.len() > 0);
            assert(g.len() > 0);
            let g2 = g.update(g.len() - 1, g.last().push(s.last()));
            assert(g2.drop_last() =~= g.drop_last());
            assert(g2.last() == g.last().push(s.last()));
            assert(flat(g2) == flat(g.drop_last()) + g.last().push(s.last()));
            assert(flat(g) == flat(g.drop_last()) + g.last());
            assert(flat(g2) =~= flat(g) + seq![s.last()]);
            assert(flat(g2) =~= s);
            // the entry the last group absorbed sits before one with no blanks
            assert(flat(g).last() == g.last().last());
            assert(g.last().last() == dl.last());
            assert(dl.last() == s[s.len() - 2]);
            assert forall|k: int, j: int|
                0 <= k < g2.len() && 0 <= j < g2[k].len() - 1 implies (#[trigger] g2[k][j]).blanks.len()
                == 0 by {
                if k < g.len() - 1 {
                    assert(g2[k] == g[k]);
                } else {
                    assert(g2[k] == g.last().push(s.last()));
                    if j < g.last().len() - 1 {
                        assert(g2[k][j] == g.last()[j]);
                    } else {
                        assert(g2[k][j] == g.last().last());
                    }
                }
            }
        }
    }
}

/// Grouped stable sort: groups move as wholes, ordered by the key of each
/// group's first entry; entries inside a group never permute.
pub open spec fn grouped_sort(s: Seq<EntryM>) -> Seq<EntryM> {
    flat(stable_sort(groups(s), gkey()))
}

/// Split a run of entries into its blank-separated groups.
fn split_groups(v: Vec<Entry>) -> (gs: Vec<Vec<Entry>>)
    ensures
        gsm(gs@) == groups(ems(v@)),
        forall|k: int| 0 <= k < gs@.len() ==> (#[trigger] gs@[k]@).len() > 0,
{
    let ghost orig = ems(v@);
    let n0 = v.len();
    proof {
        lemma_ems_index(v@);
    }
    let mut v = v;
    let mut gs: Vec<Vec<Entry>> = Vec::new();
    let mut cur: Vec<Entry> = Vec::new();
    let mut prev_blank = false;
    let mut k: usize = 0;
    proof {
        assert(ems(v@) =~= orig.skip(0));
        assert(groups(orig.take(0)) =~= Seq::<Seq<EntryM>>::empty());
    }
    while v.len() > 0
        invariant
            k <= orig.len(),
            orig.len() == n0 as int,
            ems(v@) == orig.skip(k as int),
            v@.len() == orig.len() - k,
            k == 0 ==> gs@.len() == 0 && cur@.len() == 0,
            k > 0 ==> cur@.len() > 0 && gsm(gs@).push(ems(cur@))
                == groups(orig.take(k as int)),
            k > 0 ==> prev_blank == (orig[k as int - 1].blanks.len() > 0),
            forall|j: int| 0 <= j < gs@.len() ==> (#[trigger] gs@[j]@).len() > 0,
        decreases v@.len(),
    {
        let ghost pre = v@;
        let e = v.remove(0);
        proof {
            pre.remove_ensures(0);
            lemma_ems_index(pre);
            lemma_ems_index(v@);
            assert(ems(pre)[0] == pre[0]@);
            assert(ems(pre)[0] == orig.skip(k as int)[0]);
            assert(e@ == orig[k as int]);
            assert(ems(v@) =~= orig.skip(k as int + 1));
            assert(orig.take(k as int + 1).drop_last() =~= orig.take(k as int));
            assert(orig.take(k as int + 1).last() == orig[k as int]);
        }
        let ghost gsm0 = gsm(gs@);
        let ghost curm0 = ems(cur@);
        if k > 0 && prev_blank {
            proof {
                lemma_gsm_index(gs@);
            }
            gs.push(cur);
            cur = Vec::new();
            proof {
                lemma_gsm_index(gs@);
                assert(gsm(gs@) =~= gsm0.push(curm0));
            }
        }
        prev_blank = e.blanks.len() > 0;
        let ghost em = e@;
        let ghost curm1 = ems(cur@);
        cur.push(e);
        proof {
            lemma_ems_index(cur@);
            lemma_gsm_index(gs@);
            assert(ems(cur@) =~= curm1.push(em));
            if k == 0 {
                assert(orig.take(1).drop_last() =~= Seq::<EntryM>::empty());
                assert(orig.take(1).last() == em);
                assert(groups(Seq::<EntryM>::empty()) =~= Seq::<Seq<EntryM>>::empty());
                assert(groups(orig.take(1)) =~= Seq::<Seq<EntryM>>::empty().push(seq![em]));
                assert(ems(cur@) =~= seq![em]);
                assert(gsm(gs@).push(ems(cur@)) =~= groups(
                    orig.take(1),
                ));
            } else if orig[k as int - 1].blanks.len() > 0 {
                assert(groups(orig.take(k as int + 1)) =~= groups(orig.take(k as int)).push(
                    seq![em],
                ));
                assert(ems(cur@) =~= seq![em]);
                assert(gsm(gs@).push(ems(cur@)) =~= groups(
                    orig.take(k as int + 1),
                ));
            } else {
                let g = groups(orig.take(k as int));
                assert(g == gsm0.push(curm0));
                assert(g.len() > 0);
                assert(groups(orig.take(k as int + 1)) == g.update(g.len() - 1, g.last().push(em)));
                assert(g.update(g.len() - 1, g.last().push(em)) =~= gsm0.push(curm0.push(em)));
                assert(gsm(gs@).push(ems(cur@)) =~= groups(
                    orig.take(k as int + 1),
                ));
            }
        }
        k = k + 1;
    }
    if cur.len() > 0 {
        let ghost gsm0 = gsm(gs@);
        let ghost curm0 = ems(cur@);
        gs.push(cur);
        proof {
            lemma_gsm_index(gs@);
            assert(gsm(gs@) =~= gsm0.push(curm0));
            assert(orig.take(k as int) =~= orig);
        }
    } else {
        proof {
            assert(k == 0);
            assert(orig.len() == 0);
            assert(groups(orig) =~= Seq::<Seq<EntryM>>::empty());
            assert(gsm(gs@) =~= groups(orig));
        }
    }
    gs
}

/// Stable sort of the groups by the key of each group's first entry.
fn sort_groups(gs: &mut Vec<Vec<Entry>>)
    requires
        forall|k: int| 0 <= k < old(gs)@.len() ==> (#[trigger] old(gs)@[k]@).len() > 0,
    ensures
        gsm(final(gs)@) == stable_sort(
            gsm(old(gs)@),
            gkey(),
        ),
{
    let ghost orig = gsm(old(gs)@);
    let ghost kf = gkey();
    if gs.len() <= 1 {
        proof {
            if orig.len() == 1 {
                assert(orig.drop_last().len() == 0);
                assert(stable_sort(orig, kf) == insert_sorted(
                    stable_sort(orig.drop_last(), kf),
                    orig.last(),
                    kf,
                ));
                assert(stable_sort(orig, kf) =~= orig);
            }
            assert(gsm(gs@) =~= stable_sort(orig, kf));
        }
        return;
    }
    let mut i: usize = 1;
    proof {
        lemma_sort_props(orig.take(1), kf);
        lemma_sorted_id(orig.take(1), kf);
        assert(gsm(gs@) =~= stable_sort(orig.take(1), kf)
            + orig.skip(1));
    }
    while i < gs.len()
        invariant
            1 <= i <= gs@.len(),
            gs@.len() == orig.len(),
            kf == gkey(),
            gsm(gs@) == stable_sort(orig.take(i as int), kf)
                + orig.skip(i as int),
            forall|k: int| 0 <= k < orig.len() ==> (#[trigger] orig[k]).len() > 0,
            forall|k: int| 0 <= k < gs@.len() ==> (#[trigger] gs@[k]@).len() > 0,
        decreases gs@.len() - i,
    {
        proof {
            lemma_sort_props(orig.take(i as int), kf);
        }
        let ghost srt = stable_sort(orig.take(i as int), kf);
        let ghost pre = gs@;
        let e = gs.remove(i);
        proof {
            pre.remove_ensures(i as int);
            lemma_gsm_index(pre);
            lemma_gsm_index(gs@);
            assert(gsm(pre)[i as int] == ems(pre[i as int]@));
            assert(gsm(pre)[i as int] == orig.skip(i as int)[0]);
            assert(ems(e@) == orig[i as int]);
            assert(gsm(gs@) =~= srt + orig.skip(i as int + 1));
            assert(e@.len() > 0) by {
                assert(ems(e@).len() == orig[i as int].len());
            }
        }
        let mut j: usize = i;
        loop
            invariant
                0 <= j <= i < orig.len(),
                srt.len() == i,
                kf == gkey(),
                e@.len() > 0,
                ems(e@) == orig[i as int],
                gsm(gs@) == srt + orig.skip(i as int + 1),
                forall|k: int| 0 <= k < gs@.len() ==> (#[trigger] gs@[k]@).len() > 0,
                forall|k: int|
                    j <= k < i ==> !crate::bytes::lex_le(kf(#[trigger] srt[k]), kf(ems(e@))),
            ensures
                0 <= j <= i,
                forall|k: int|
                    j <= k < i ==> !crate::bytes::lex_le(kf(#[trigger] srt[k]), kf(ems(e@))),
                j > 0 ==> crate::bytes::lex_le(kf(srt[j - 1]), kf(ems(e@))),
            decreases j,
        {
            if j == 0 {
                break;
            }
            proof {
                lemma_gsm_index(gs@);
                assert(gsm(gs@)[j - 1] == srt[j - 1]);
                assert(ems(gs@[j - 1]@) == srt[j - 1]);
                assert(gs@[j - 1]@.len() > 0);
                assert(srt[j - 1].len() > 0);
                assert(ems(gs@[j - 1]@)[0] == gs@[j - 1]@[0]@);
                assert(kf(srt[j - 1]) == gs@[j - 1]@[0]@.key);
                assert(kf(ems(e@)) == e@[0]@.key);
            }
            if bytes_le(&gs[j - 1][0].key, &e[0].key) {
                break;
            }
            j = j - 1;
        }
        proof {
            let p = lemma_insert_pos(srt, ems(e@), kf);
            if p < j as int {
                assert(!crate::bytes::lex_le(kf(srt[j - 1]), kf(ems(e@))));
                assert(false);
            }
            if p > j as int {
                assert(!crate::bytes::lex_le(kf(srt[p - 1]), kf(ems(e@))));
                assert(false);
            }
            assert(p == j as int);
        }
        let ghost pre2 = gs@;
        gs.insert(j, e);
        proof {
            pre2.insert_ensures(j as int, e);
            lemma_gsm_index(pre2);
            lemma_gsm_index(gs@);
            assert(gsm(gs@) =~= srt.take(j as int) + seq![ems(e@)]
                + srt.skip(j as int) + orig.skip(i as int + 1));
            assert(insert_sorted(srt, ems(e@), kf) =~= srt.take(j as int) + seq![ems(e@)]
                + srt.skip(j as int));
            assert(orig.take(i as int + 1).drop_last() =~= orig.take(i as int));
            assert(orig.take(i as int + 1).last() == orig[i as int]);
            assert(stable_sort(orig.take(i as int + 1), kf) == insert_sorted(srt, ems(e@), kf));
            assert(gsm(gs@) =~= stable_sort(
                orig.take(i as int + 1),
                kf,
            ) + orig.skip(i as int + 1));
        }
        i = i + 1;
    }
    proof {
        assert(orig.take(orig.len() as int) =~= orig);
        assert(orig.skip(orig.len() as int).len() == 0);
        assert(gsm(gs@) =~= stable_sort(orig, kf));
    }
}

/// Flatten the groups back into one run of entries.
fn flatten_groups(gs: Vec<Vec<Entry>>) -> (r: Vec<Entry>)
    ensures
        ems(r@) == flat(gsm(gs@)),
{
    let ghost gm = gsm(gs@);
    let ng = gs.len();
    proof {
        lemma_gsm_index(gs@);
    }
    let mut gs = gs;
    let mut out: Vec<Entry> = Vec::new();
    let mut t: usize = 0;
    proof {
        assert(ems(out@) =~= flat(gm.take(0)));
    }
    while gs.len() > 0
        invariant
            t <= gm.len(),
            gm.len() == ng as int,
            gsm(gs@) == gm.skip(t as int),
            gs@.len() == gm.len() - t,
            ems(out@) == flat(gm.take(t as int)),
        decreases gs@.len(),
    {
        let ghost pre = gs@;
        let mut g = gs.remove(0);
        proof {
            pre.remove_ensures(0);
            lemma_gsm_index(pre);
            lemma_gsm_index(gs@);
            assert(gsm(pre)[0] == ems(pre[0]@));
            assert(gsm(pre)[0] == gm.skip(t as int)[0]);
            assert(ems(g@) == gm[t as int]);
            assert(gsm(gs@) =~= gm.skip(t as int + 1));
        }
        let ghost gmt = ems(g@);
        let nge = g.len();
        proof {
            assert(gmt.len() == nge as int);
        }
        let mut c: usize = 0;
        proof {
            assert(ems(out@) =~= flat(gm.take(t as int)) + gmt.take(0));
        }
        while g.len() > 0
            invariant
                c <= gmt.len(),
                gmt.len() == nge as int,
                ems(g@) == gmt.skip(c as int),
                g@.len() == gmt.len() - c,
                ems(out@) == flat(gm.take(t as int)) + gmt.take(c as int),
            decreases g@.len(),
        {
            let ghost gpre = g@;
            let e = g.remove(0);
            proof {
                gpre.remove_ensures(0);
                lemma_ems_index(gpre);
                lemma_ems_index(g@);
                lemma_ems_index(out@);
                assert(ems(gpre)[0] == gpre[0]@);
                assert(ems(gpre)[0] == gmt.skip(c as int)[0]);
                assert(e@ == gmt[c as int]);
                assert(ems(g@) =~= gmt.skip(c as int + 1));
                assert(ems(out@.push(e)) =~= ems(out@).push(e@));
                assert(gmt.take(c as int + 1) =~= gmt.take(c as int).push(gmt[c as int]));
                assert((flat(gm.take(t as int)) + gmt.take(c as int)).push(gmt[c as int]) =~= flat(
                    gm.take(t as int),
                ) + gmt.take(c as int + 1));
            }
            out.push(e);
            c = c + 1;
        }
        proof {
            assert(gmt.take(gmt.len() as int) =~= gmt);
            assert(gm.take(t as int + 1).drop_last() =~= gm.take(t as int));
            assert(gm.take(t as int + 1).last() == gm[t as int]);
            assert(flat(gm.take(t as int + 1)) == flat(gm.take(t as int)) + gm[t as int]);
        }
        t = t + 1;
    }
    proof {
        assert(gm.take(gm.len() as int) =~= gm);
    }
    out
}


/// Flattening distributes over concatenation of group sequences.
pub proof fn lemma_flat_concat(a: Seq<Seq<EntryM>>, b: Seq<Seq<EntryM>>)
    ensures
        flat(a + b) == flat(a) + flat(b),
    decreases b.len(),
{
    if b.len() == 0 {
        assert(a + b =~= a);
        assert(flat(a) + flat(b) =~= flat(a));
    } else {
        assert((a + b).drop_last() =~= a + b.drop_last());
        assert((a + b).last() == b.last());
        lemma_flat_concat(a, b.drop_last());
        assert(flat(a + b) =~= flat(a) + (flat(b.drop_last()) + b.last()));
        assert(flat(b) == flat(b.drop_last()) + b.last());
    }
}

/// Sorting the groups only permutes the flattened entries.
proof fn lemma_flat_of_sort(gs: Seq<Seq<EntryM>>)
    ensures
        flat(stable_sort(gs, gkey())).to_multiset() == flat(gs).to_multiset(),
    decreases gs.len(),
{
    if gs.len() == 0 {
    } else {
        let kf = gkey();
        let dl = gs.drop_last();
        let g = gs.last();
        lemma_flat_of_sort(dl);
        let s1 = stable_sort(dl, kf);
        let p = lemma_insert_pos(s1, g, kf);
        let a = s1.take(p);
        let b = s1.skip(p);
        assert(stable_sort(gs, kf) == insert_sorted(s1, g, kf));
        assert(insert_sorted(s1, g, kf) =~= (a + seq![g]) + b);
        lemma_flat_concat(a + seq![g], b);
        lemma_flat_concat(a, seq![g]);
        assert(flat(seq![g]) =~= g) by {
            assert(seq![g].drop_last() =~= Seq::<Seq<EntryM>>::empty());
            assert(seq![g].last() == g);
            assert(flat(Seq::<Seq<EntryM>>::empty()) =~= Seq::<EntryM>::empty());
        }
        assert(s1 =~= a + b);
        lemma_flat_concat(a, b);
        let fa = flat(a);
        let fb = flat(b);
        vstd::seq_lib::lemma_multiset_commutative(fa + g, fb);
        vstd::seq_lib::lemma_multiset_commutative(fa, g);
        vstd::seq_lib::lemma_multiset_commutative(fa, fb);
        assert(flat(stable_sort(gs, kf)) =~= (fa + g) + fb);
        assert(flat(stable_sort(gs, kf)).to_multiset() =~= (fa + fb).to_multiset().add(
            g.to_multiset(),
        ));
        assert(flat(gs) == flat(dl) + g);
        vstd::seq_lib::lemma_multiset_commutative(flat(dl), g);
        assert(flat(gs).to_multiset() =~= flat(dl).to_multiset().add(g.to_multiset()));
        assert(flat(stable_sort(gs, kf)).to_multiset() =~= flat(gs).to_multiset());
    }
}

/// Permutation law for grouped sorting: the multiset of entries — key,
/// value and attached surface text — is unchanged; only order moves.
pub proof fn lemma_grouped_sort_permutation(s: Seq<EntryM>)
    ensures
        grouped_sort(s).to_multiset() == s.to_multiset(),
{
    lemma_groups_flat(s);
    lemma_flat_of_sort(groups(s));
}

/// Grouped sorting moves groups as wholes: the output is the flattening of
/// a permutation of the original groups, ordered by each group's first
/// key, and the entries inside each group are untouched.
pub proof fn lemma_grouped_sort_moves_whole_groups(s: Seq<EntryM>)
    ensures
        grouped_sort(s) == flat(stable_sort(groups(s), gkey())),
        stable_sort(groups(s), gkey()).to_multiset() == groups(s).to_multiset(),
        sorted_by(stable_sort(groups(s), gkey()), gkey()),
{
    lemma_sort_props(groups(s), gkey());
}


/// Appending one whole group to a run of entries: when the run ends with
/// trailing blanks the group stands apart; otherwise it merges into the
/// run's last group.
proof fn lemma_groups_append_group(x: Seq<EntryM>, g: Seq<EntryM>)
    requires
        g.len() > 0,
        forall|j: int| 0 <= j < g.len() - 1 ==> (#[trigger] g[j]).blanks.len() == 0,
    ensures
        groups(x + g) == if x.len() == 0 {
            seq![g]
        } else if x.last().blanks.len() > 0 {
            groups(x).push(g)
        } else {
            groups(x).update(groups(x).len() - 1, groups(x).last() + g)
        },
    decreases g.len(),
{
    lemma_groups_flat(x);
    if g.len() == 1 {
        let e = g[0];
        let st = x + g;
        assert(st.drop_last() =~= x);
        assert(st.last() == e);
        if x.len() == 0 {
            assert(groups(st) =~= seq![g]) by {
                assert(seq![st.last()] =~= g);
                assert(groups(Seq::<EntryM>::empty()) =~= Seq::<Seq<EntryM>>::empty());
            }
        } else {
            assert(st[st.len() - 2] == x.last());
            if x.last().blanks.len() > 0 {
                assert(seq![st.last()] =~= g);
                assert(groups(st) =~= groups(x).push(g));
            } else {
                assert(groups(x).last().push(e) =~= groups(x).last() + g);
                assert(groups(st) =~= groups(x).update(
                    groups(x).len() - 1,
                    groups(x).last() + g,
                ));
            }
        }
    } else {
        let g0 = g.drop_last();
        let e = g.last();
        assert forall|j: int| 0 <= j < g0.len() - 1 implies (#[trigger] g0[j]).blanks.len()
            == 0 by {
            assert(g0[j] == g[j]);
        }
        lemma_groups_append_group(x, g0);
        let st = x + g;
        let st0 = x + g0;
        assert(st.drop_last() =~= st0);
        assert(st.last() == e);
        assert(st.len() >= 2);
        assert(st[st.len() - 2] == g[g.len() - 2]) by {
            assert(st[st.len() - 2] == st0.last());
            assert(st0.last() == g0.last());
        }
        assert(g[g.len() - 2].blanks.len() == 0);
        let gg = groups(st0);
        assert(groups(st) == gg.update(gg.len() - 1, gg.last().push(e)));
        if x.len() == 0 {
            assert(gg == seq![g0]);
            assert(gg.update(gg.len() - 1, gg.last().push(e)) =~= seq![g]) by {
                assert(g0.push(e) =~= g);
            }
        } else if x.last().blanks.len() > 0 {
            assert(gg == groups(x).push(g0));
            assert(gg.update(gg.len() - 1, gg.last().push(e)) =~= groups(x).push(g)) by {
                assert(gg.last() == g0);
                assert(g0.push(e) =~= g);
            }
        } else {
            let gx = groups(x);
            assert(gg == gx.update(gx.len() - 1, gx.last() + g0));
            assert(gx.len() > 0);
            assert(gg.last() == gx.last() + g0);
            assert(gg.update(gg.len() - 1, gg.last().push(e)) =~= gx.update(
                gx.len() - 1,
                gx.last() + g,
            )) by {
                assert((gx.last() + g0).push(e) =~= gx.last() + g);
            }
        }
    }
}

/// Splitting the flattening of sorted, well-formed groups can only merge
/// neighbours, so the groups that come back are still ordered by first
/// key, each first entry being the first entry of one of the given groups.
proof fn lemma_groups_of_sorted_flat(gs: Seq<Seq<EntryM>>)
    requires
        forall|k: int| 0 <= k < gs.len() ==> (#[trigger] gs[k]).len() > 0,
        forall|k: int, j: int|
            0 <= k < gs.len() && 0 <= j < gs[k].len() - 1 ==> (#[trigger] gs[k][j]).blanks.len()
                == 0,
        sorted_by(gs, gkey()),
    ensures
        sorted_by(groups(flat(gs)), gkey()),
        forall|k: int|
            0 <= k < groups(flat(gs)).len() ==> (#[trigger] groups(flat(gs))[k]).len() > 0,
        forall|k: int|
            0 <= k < groups(flat(gs)).len() ==> exists|j: int|
                0 <= j < gs.len() && (#[trigger] groups(flat(gs))[k])[0] == (#[trigger] gs[j])[0],
    decreases gs.len(),
{
    let kf = gkey();
    if gs.len() == 0 {
        assert(flat(gs).len() == 0);
        assert(groups(flat(gs)) =~= Seq::<Seq<EntryM>>::empty());
    } else {
        let h = gs.drop_last();
        let g = gs.last();
        assert forall|k: int| 0 <= k < h.len() implies (#[trigger] h[k]).len() > 0 by {
            assert(h[k] == gs[k]);
        }
        assert forall|k: int, j: int|
            0 <= k < h.len() && 0 <= j < h[k].len() - 1 implies (#[trigger] h[k][j]).blanks.len()
            == 0 by {
            assert(h[k] == gs[k]);
        }
        assert(sorted_by(h, kf)) by {
            assert forall|a: int, b: int|
                0 <= a < b < h.len() implies crate::bytes::lex_le(
                kf(#[trigger] h[a]),
                kf(#[trigger] h[b]),
            ) by {
                assert(h[a] == gs[a]);
                assert(h[b] == gs[b]);
            }
        }
        lemma_groups_of_sorted_flat(h);
        assert(flat(gs) == flat(h) + g);
        lemma_groups_append_group(flat(h), g);
        let fh = flat(h);
        let res = groups(flat(gs));
        let gp = groups(fh);
        if fh.len() == 0 {
            assert(res == seq![g]);
            assert(res[0][0] == gs[gs.len() - 1][0]);
        } else {
            assert(h.len() > 0);
            lemma_groups_flat(fh);
            assert(gp.len() > 0);
            assert(fh.last() == h.last().last()) by {
                assert(fh == flat(h.drop_last()) + h.last());
            }
            if fh.last().blanks.len() > 0 {
                assert(res == gp.push(g));
                assert forall|a: int, b: int|
                    0 <= a < b < res.len() implies crate::bytes::lex_le(
                    kf(#[trigger] res[a]),
                    kf(#[trigger] res[b]),
                ) by {
                    if b < gp.len() {
                        assert(res[a] == gp[a]);
                        assert(res[b] == gp[b]);
                    } else {
                        assert(res[a] == gp[a]);
                        assert(res[b] == g);
                        let j = choose|j: int| 0 <= j < h.len() && gp[a][0] == h[j][0];
                        assert(gp[a].len() > 0);
                        assert(kf(gp[a]) == gp[a][0].key);
                        assert(h[j] == gs[j]);
                        assert(crate::bytes::lex_le(kf(gs[j]), kf(gs[gs.len() - 1])));
                    }
                }
                assert forall|k: int|
                    0 <= k < res.len() implies exists|j: int|
                    0 <= j < gs.len() && (#[trigger] res[k])[0] == (#[trigger] gs[j])[0] by {
                    if k < gp.len() {
                        assert(res[k] == gp[k]);
                        let j = choose|j: int| 0 <= j < h.len() && gp[k][0] == h[j][0];
                        assert(h[j] == gs[j]);
                        assert(res[k][0] == gs[j][0]);
                    } else {
                        assert(res[k] == g);
                        assert(res[k][0] == gs[gs.len() - 1][0]);
                    }
                }
            } else {
                assert(res == gp.update(gp.len() - 1, gp.last() + g));
                assert(gp.last().len() > 0);
                assert((gp.last() + g)[0] == gp.last()[0]);
                assert forall|a: int, b: int|
                    0 <= a < b < res.len() implies crate::bytes::lex_le(
                    kf(#[trigger] res[a]),
                    kf(#[trigger] res[b]),
                ) by {
                    assert(res[a].len() > 0 && res[b].len() > 0);
                    assert(res[a][0] == gp[a][0]);
                    assert(res[b][0] == gp[b][0]);
                    assert(crate::bytes::lex_le(kf(gp[a]), kf(gp[b])));
                }
                assert forall|k: int|
                    0 <= k < res.len() implies exists|j: int|
                    0 <= j < gs.len() && (#[trigger] res[k])[0] == (#[trigger] gs[j])[0] by {
                    assert(res[k][0] == gp[k][0]);
                    let j = choose|j: int| 0 <= j < h.len() && gp[k][0] == h[j][0];
                    assert(h[j] == gs[j]);
                    assert(res[k][0] == gs[j][0]);
                }
                assert forall|k: int| 0 <= k < res.len() implies (#[trigger] res[k]).len() > 0 by {
                    if k < gp.len() - 1 {
                        assert(res[k] == gp[k]);
                    }
                }
            }
        }
    }
}

/// Grouped sorting is idempotent: sorting the groups of its own output
/// changes nothing, because that output's groups are already in first-key
/// order.
pub proof fn lemma_grouped_sort_idempotent(s: Seq<EntryM>)
    ensures
        grouped_sort(grouped_sort(s)) == grouped_sort(s),
{
    let kf = gkey();
    let gs0 = groups(s);
    lemma_groups_flat(s);
    lemma_sort_props(gs0, kf);
    let gs1 = stable_sort(gs0, kf);
    // the sorted groups are the same groups, so they stay non-empty and
    // internally free of blanks
    gs1.to_multiset_ensures();
    gs0.to_multiset_ensures();
    assert forall|k: int| 0 <= k < gs1.len() implies (#[trigger] gs1[k]).len() > 0 && (forall|
        j: int,
    |
        0 <= j < gs1[k].len() - 1 ==> (#[trigger] gs1[k][j]).blanks.len() == 0) by {
        assert(gs1.contains(gs1[k]));
        assert(gs1.to_multiset().count(gs1[k]) > 0);
        assert(gs0.to_multiset().count(gs1[k]) > 0);
        assert(gs0.contains(gs1[k]));
        let j0 = choose|j0: int| 0 <= j0 < gs0.len() && gs0[j0] == gs1[k];
        assert(gs0[j0].len() > 0);
    }
    lemma_groups_of_sorted_flat(gs1);
    let s1 = flat(gs1);
    assert(grouped_sort(s) == s1);
    lemma_groups_flat(s1);
    lemma_sorted_id(groups(s1), kf);
    assert(grouped_sort(s1) == flat(groups(s1)));
    assert(grouped_sort(s1) == s1);
}

/// Grouped stable sort of a table's entries, in place at the level of the
/// owning vector.
pub fn sort_entries_grouped(v: &mut Vec<Entry>)
    ensures
        ems(final(v)@) == grouped_sort(ems(old(v)@)),
{
    let ghost orig = ems(old(v)@);
    let mut taken: Vec<Entry> = Vec::new();
    core::mem::swap(v, &mut taken);
    let mut gs = split_groups(taken);
    proof {
        lemma_groups_flat(orig);
    }
    sort_groups(&mut gs);
    let out = flatten_groups(gs);
    *v = out;
}


/// The predicate selecting tables named `n`.
pub open spec fn name_is(n: Seq<u8>) -> spec_fn(TableM) -> bool {
    |t: TableM| t.name == n
}

/// The predicate selecting tables not named `n`.
pub open spec fn name_not(n: Seq<u8>) -> spec_fn(TableM) -> bool {
    |t: TableM| t.name != n
}

/// The table-order policy: tables whose name appears in `order` come first,
/// in the order of that list (same-named tables keep their relative order);
/// all others follow in their original relative order.
pub open spec fn reorder(ts: Seq<TableM>, order: Seq<Seq<u8>>) -> Seq<TableM>
    decreases order.len(),
{
    if order.len() == 0 {
        ts
    } else {
        ts.filter(name_is(order[0])) + reorder(ts.filter(name_not(order[0])), order.drop_first())
    }
}

/// Index form of `tsm`.
pub proof fn lemma_tsm_index(s: Seq<Table>)
    ensures
        tsm(s).len() == s.len(),
        forall|q: int| 0 <= q < s.len() ==> tsm(s)[q] == (#[trigger] s[q])@,
{
}

/// Apply the table-order policy to the document's tables.
fn reorder_tables(ts: Vec<Table>, order: &Vec<Vec<u8>>) -> (r: Vec<Table>)
    ensures
        tsm(r@) == reorder(tsm(ts@), dv(order@)),
{
    let ghost torder = dv(order@);
    let ghost ts0 = tsm(ts@);
    let mut rest = ts;
    let mut out: Vec<Table> = Vec::new();
    let mut k: usize = 0;
    proof {
        assert(torder.skip(0) =~= torder);
        assert(tsm(out@) =~= Seq::<TableM>::empty());
        assert(Seq::<TableM>::empty() + reorder(tsm(rest@), torder) =~= reorder(ts0, torder));
    }
    while k < order.len()
        invariant
            k <= torder.len(),
            torder.len() == order@.len(),
            torder == dv(order@),
            tsm(out@) + reorder(tsm(rest@), torder.skip(k as int)) == reorder(ts0, torder),
        decreases order.len() - k,
    {
        let ghost rk = tsm(rest@);
        let ghost nk = torder[k as int];
        let nrest = rest.len();
        proof {
            lemma_tsm_index(rest@);
            assert(rk.len() == nrest as int);
            assert(torder.skip(k as int)[0] == nk);
            assert(torder.skip(k as int).drop_first() =~= torder.skip(k as int + 1));
            assert(reorder(rk, torder.skip(k as int)) == rk.filter(name_is(nk)) + reorder(
                rk.filter(name_not(nk)),
                torder.skip(k as int + 1),
            ));
        }
        let mut rest2: Vec<Table> = Vec::new();
        let mut c: usize = 0;
        let ghost out0 = tsm(out@);
        proof {
            reveal(Seq::filter);
            assert(rk.take(0).filter(name_is(nk)) =~= Seq::<TableM>::empty());
            assert(rk.take(0).filter(name_not(nk)) =~= Seq::<TableM>::empty());
            assert(tsm(out@) =~= out0 + rk.take(0).filter(name_is(nk)));
            assert(tsm(rest2@) =~= rk.take(0).filter(name_not(nk)));
        }
        while rest.len() > 0
            invariant
                c <= rk.len(),
                rk.len() == nrest as int,
                k < order@.len(),
                nk == order@[k as int]@,
                tsm(rest@) == rk.skip(c as int),
                rest@.len() == rk.len() - c,
                tsm(out@) == out0 + rk.take(c as int).filter(name_is(nk)),
                tsm(rest2@) == rk.take(c as int).filter(name_not(nk)),
            decreases rest@.len(),
        {
            let ghost pre = rest@;
            let t = rest.remove(0);
            proof {
                pre.remove_ensures(0);
                lemma_tsm_index(pre);
                lemma_tsm_index(rest@);
                assert(tsm(pre)[0] == rk.skip(c as int)[0]);
                assert(t@ == rk[c as int]);
                assert(tsm(rest@) =~= rk.skip(c as int + 1));
                assert(rk.take(c as int + 1).drop_last() =~= rk.take(c as int));
                assert(rk.take(c as int + 1).last() == rk[c as int]);
                reveal(Seq::filter);
            }
            if crate::bytes::bytes_eq(&t.name, &order[k]) {
                let ghost outp = tsm(out@);
                out.push(t);
                proof {
                    lemma_tsm_index(out@);
                    assert(tsm(out@) =~= outp.push(rk[c as int]));
                    assert(name_is(nk)(rk[c as int]));
                    assert(rk.take(c as int + 1).filter(name_is(nk)) =~= rk.take(
                        c as int,
                    ).filter(name_is(nk)).push(rk[c as int]));
                    assert(rk.take(c as int + 1).filter(name_not(nk)) =~= rk.take(
                        c as int,
                    ).filter(name_not(nk)));
                    assert(tsm(out@) =~= out0 + rk.take(c as int + 1).filter(name_is(nk)));
                }
            } else {
                let ghost r2p = tsm(rest2@);
                rest2.push(t);
                proof {
                    lemma_tsm_index(rest2@);
                    assert(tsm(rest2@) =~= r2p.push(rk[c as int]));
                    assert(name_not(nk)(rk[c as int]));
                    assert(rk.take(c as int + 1).filter(name_not(nk)) =~= rk.take(
                        c as int,
                    ).filter(name_not(nk)).push(rk[c as int]));
                    assert(rk.take(c as int + 1).filter(name_is(nk)) =~= rk.take(
                        c as int,
                    ).filter(name_is(nk)));
                }
            }
            c = c + 1;
        }
        rest = rest2;
        proof {
            assert(rk.take(rk.len() as int) =~= rk);
            assert((out0 + rk.filter(name_is(nk))) + reorder(
                rk.filter(name_not(nk)),
                torder.skip(k as int + 1),
            ) =~= out0 + (rk.filter(name_is(nk)) + reorder(
                rk.filter(name_not(nk)),
                torder.skip(k as int + 1),
            )));
        }
        k = k + 1;
    }
    // what is left keeps its original relative order
    proof {
        assert(torder.skip(torder.len() as int).len() == 0);
        assert(reorder(tsm(rest@), torder.skip(torder.len() as int)) == tsm(rest@));
    }
    let ghost outf = tsm(out@);
    let ghost restf = tsm(rest@);
    let nrest2 = rest.len();
    proof {
        lemma_tsm_index(rest@);
    }
    let mut out = out;
    let mut rest = rest;
    let mut c2: usize = 0;
    proof {
        assert(tsm(out@) =~= outf + restf.take(0));
    }
    while rest.len() > 0
        invariant
            c2 <= restf.len(),
            restf.len() == nrest2 as int,
            tsm(rest@) == restf.skip(c2 as int),
            rest@.len() == restf.len() - c2,
            tsm(out@) == outf + restf.take(c2 as int),
        decreases rest@.len(),
    {
        let ghost pre = rest@;
        let t = rest.remove(0);
        proof {
            pre.remove_ensures(0);
            lemma_tsm_index(pre);
            lemma_tsm_index(rest@);
            assert(tsm(pre)[0] == restf.skip(c2 as int)[0]);
            assert(t@ == restf[c2 as int]);
            assert(tsm(rest@) =~= restf.skip(c2 as int + 1));
        }
        let ghost outp = tsm(out@);
        out.push(t);
        proof {
            lemma_tsm_index(out@);
            assert(tsm(out@) =~= outp.push(restf[c2 as int]));
            assert(restf.take(c2 as int + 1) =~= restf.take(c2 as int).push(restf[c2 as int]));
            assert((outf + restf.take(c2 as int)).push(restf[c2 as int]) =~= outf + restf.take(
                c2 as int + 1,
            ));
        }
        c2 = c2 + 1;
    }
    proof {
        assert(restf.take(restf.len() as int) =~= restf);
        assert(tsm(out@) =~= reorder(ts0, torder));
    }
    out
}


/// A sequence every element of which satisfies the predicate filters to
/// itself.
proof fn lemma_all_pos_filter_id(s: Seq<TableM>, p: spec_fn(TableM) -> bool)
    requires
        forall|i: int| 0 <= i < s.len() ==> p(#[trigger] s[i]),
    ensures
        s.filter(p) == s,
    decreases s.len(),
{
    reveal(Seq::filter);
    if s.len() > 0 {
        lemma_all_pos_filter_id(s.drop_last(), p);
        assert(s.filter(p) =~= s);
    }
}

/// Reordering introduces no tables: every element of the result is an
/// element of the input, so a property of all inputs holds of all outputs.
proof fn lemma_reorder_elements(ts: Seq<TableM>, order: Seq<Seq<u8>>, q: spec_fn(TableM) -> bool)
    requires
        forall|i: int| 0 <= i < ts.len() ==> q(#[trigger] ts[i]),
    ensures
        forall|i: int| 0 <= i < reorder(ts, order).len() ==> q(#[trigger] reorder(ts, order)[i]),
    decreases order.len(),
{
    if order.len() == 0 {
    } else {
        let a = ts.filter(name_is(order[0]));
        let x = ts.filter(name_not(order[0]));
        assert forall|i: int| 0 <= i < a.len() implies q(#[trigger] a[i]) by {
            ts.lemma_filter_contains_rev(name_is(order[0]), a[i]);
            let j = choose|j: int| 0 <= j < ts.len() && ts[j] == a[i];
            assert(q(ts[j]));
        }
        assert forall|i: int| 0 <= i < x.len() implies q(#[trigger] x[i]) by {
            ts.lemma_filter_contains_rev(name_not(order[0]), x[i]);
            let j = choose|j: int| 0 <= j < ts.len() && ts[j] == x[i];
            assert(q(ts[j]));
        }
        lemma_reorder_elements(x, order.drop_first(), q);
        let b = reorder(x, order.drop_first());
        assert forall|i: int|
            0 <= i < reorder(ts, order).len() implies q(#[trigger] reorder(ts, order)[i]) by {
            if i < a.len() {
                assert(reorder(ts, order)[i] == a[i]);
            } else {
                assert(reorder(ts, order)[i] == b[i - a.len()]);
            }
        }
    }
}

/// The table-order policy is idempotent: applying it to its own output
/// changes nothing.
#[verifier::rlimit(100)]
pub proof fn lemma_reorder_idempotent(ts: Seq<TableM>, order: Seq<Seq<u8>>)
    ensures
        reorder(reorder(ts, order), order) == reorder(ts, order),
    decreases order.len(),
{
    if order.len() == 0 {
    } else {
        let n0 = order[0];
        let a = ts.filter(name_is(n0));
        let x = ts.filter(name_not(n0));
        let b = reorder(x, order.drop_first());
        let r = reorder(ts, order);
        assert(r == a + b);
        Seq::filter_distributes_over_add(a, b, name_is(n0));
        Seq::filter_distributes_over_add(a, b, name_not(n0));
        // a is all matches; b holds no match
        assert forall|i: int| 0 <= i < a.len() implies name_is(n0)(#[trigger] a[i]) by {
            ts.lemma_filter_pred(name_is(n0), i);
        }
        lemma_all_pos_filter_id(a, name_is(n0));
        assert forall|i: int| 0 <= i < x.len() implies name_not(n0)(#[trigger] x[i]) by {
            ts.lemma_filter_pred(name_not(n0), i);
        }
        lemma_reorder_elements(x, order.drop_first(), name_not(n0));
        assert forall|i: int| 0 <= i < b.len() implies !name_is(n0)(#[trigger] b[i]) by {
            assert(name_not(n0)(b[i]));
        }
        b.lemma_all_neg_filter_empty(name_is(n0));
        assert forall|i: int| 0 <= i < a.len() implies !name_not(n0)(#[trigger] a[i]) by {
            assert(name_is(n0)(a[i]));
        }
        a.lemma_all_neg_filter_empty(name_not(n0));
        assert forall|i: int| 0 <= i < b.len() implies name_not(n0)(#[trigger] b[i]) by {}
        lemma_all_pos_filter_id(b, name_not(n0));
        assert(r.filter(name_is(n0)) =~= a);
        assert(r.filter(name_not(n0)) =~= b);
        // b reorders to itself under the remaining list
        lemma_reorder_idempotent(x, order.drop_first());
        assert(reorder(r, order) == r.filter(name_is(n0)) + reorder(
            r.filter(name_not(n0)),
            order.drop_first(),
        ));
        assert(reorder(r, order) =~= a + b);
    }
}

/// The entries of a table after sorting, under the chosen mode.
pub open spec fn sort_entries_spec(es: Seq<EntryM>, grouped: bool) -> Seq<EntryM> {
    if grouped {
        grouped_sort(es)
    } else {
        stable_sort(es, ekey())
    }
}

/// A body after sorting: only the entry order changes.
pub open spec fn sort_body_spec(b: BodyM, grouped: bool) -> BodyM {
    BodyM { opening: b.opening, entries: sort_entries_spec(b.entries, grouped), trailing: b.trailing }
}

/// A table after sorting: its body sorts exactly when the matcher marks its
/// name sortable.
pub open spec fn sort_table_spec(m: MatcherM, t: TableM, grouped: bool) -> TableM {
    if is_sortable(m, t.name) {
        TableM { leading: t.leading, header: t.header, name: t.name, body: sort_body_spec(t.body, grouped) }
    } else {
        t
    }
}

/// The per-table sort, as a function value for mapping.
pub open spec fn sort_table_fn(m: MatcherM, grouped: bool) -> spec_fn(TableM) -> TableM {
    |t: TableM| sort_table_spec(m, t, grouped)
}

/// A document after the sort engine: tables reordered by the table-order
/// policy, each sortable table's entries sorted; everything else untouched.
pub open spec fn sort_doc_spec(d: DocM, m: MatcherM, grouped: bool, order: Seq<Seq<u8>>) -> DocM {
    DocM {
        root: d.root,
        tables: reorder(d.tables, order).map_values(sort_table_fn(m, grouped)),
        final_newline: d.final_newline,
    }
}


/// Filtering by a name test commutes with sorting each table, because
/// sorting a table keeps its name.
proof fn lemma_filter_sort_commute(
    ts: Seq<TableM>,
    m: MatcherM,
    grouped: bool,
    p: spec_fn(TableM) -> bool,
)
    requires
        forall|t: TableM| #[trigger] p(sort_table_fn(m, grouped)(t)) == p(t),
    ensures
        ts.map_values(sort_table_fn(m, grouped)).filter(p) == ts.filter(p).map_values(
            sort_table_fn(m, grouped),
        ),
    decreases ts.len(),
{
    reveal(Seq::filter);
    let f = sort_table_fn(m, grouped);
    if ts.len() == 0 {
        assert(ts.map_values(f).filter(p) =~= ts.filter(p).map_values(f));
    } else {
        let dl = ts.drop_last();
        lemma_filter_sort_commute(dl, m, grouped, p);
        assert(ts.map_values(f).drop_last() =~= dl.map_values(f));
        assert(ts.map_values(f).last() == f(ts.last()));
        if p(ts.last()) {
            assert(ts.filter(p) == dl.filter(p).push(ts.last()));
            assert(ts.filter(p).map_values(f) =~= dl.filter(p).map_values(f).push(f(ts.last())));
            assert(ts.map_values(f).filter(p) =~= dl.map_values(f).filter(p).push(f(ts.last())));
        } else {
            assert(ts.filter(p) == dl.filter(p));
            assert(ts.map_values(f).filter(p) =~= dl.map_values(f).filter(p));
        }
    }
}

/// The table-order policy sees only names, which sorting keeps, so it
/// commutes with sorting each table.
proof fn lemma_reorder_sort_commute(ts: Seq<TableM>, order: Seq<Seq<u8>>, m: MatcherM, grouped: bool)
    ensures
        reorder(ts.map_values(sort_table_fn(m, grouped)), order) == reorder(ts, order).map_values(
            sort_table_fn(m, grouped),
        ),
    decreases order.len(),
{
    let f = sort_table_fn(m, grouped);
    if order.len() == 0 {
    } else {
        let n0 = order[0];
        assert forall|t: TableM| #[trigger] name_is(n0)(f(t)) == name_is(n0)(t) by {}
        assert forall|t: TableM| #[trigger] name_not(n0)(f(t)) == name_not(n0)(t) by {}
        lemma_filter_sort_commute(ts, m, grouped, name_is(n0));
        lemma_filter_sort_commute(ts, m, grouped, name_not(n0));
        lemma_reorder_sort_commute(ts.filter(name_not(n0)), order.drop_first(), m, grouped);
        assert(reorder(ts.map_values(f), order) == ts.map_values(f).filter(name_is(n0)) + reorder(
            ts.map_values(f).filter(name_not(n0)),
            order.drop_first(),
        ));
        assert(reorder(ts, order).map_values(f) =~= ts.filter(name_is(n0)).map_values(f) + reorder(
            ts.filter(name_not(n0)),
            order.drop_first(),
        ).map_values(f));
        assert(reorder(ts.map_values(f), order) =~= reorder(ts, order).map_values(f));
    }
}

/// Sorting a table twice equals sorting it once, in either mode.
proof fn lemma_sort_table_idempotent(m: MatcherM, t: TableM, grouped: bool)
    ensures
        sort_table_spec(m, sort_table_spec(m, t, grouped), grouped) == sort_table_spec(
            m,
            t,
            grouped,
        ),
{
    if is_sortable(m, t.name) {
        if grouped {
            lemma_grouped_sort_idempotent(t.body.entries);
        } else {
            crate::sort_core::lemma_sort_idempotent(t.body.entries, ekey());
        }
    }
}

/// Idempotence of the sort engine: sorting a document twice, under one
/// matcher, one mode and one table-order list, equals sorting it once.
pub proof fn lemma_sort_doc_idempotent(d: DocM, m: MatcherM, grouped: bool, order: Seq<Seq<u8>>)
    ensures
        sort_doc_spec(sort_doc_spec(d, m, grouped, order), m, grouped, order) == sort_doc_spec(
            d,
            m,
            grouped,
            order,
        ),
{
    let f = sort_table_fn(m, grouped);
    let r1 = reorder(d.tables, order);
    let t1 = r1.map_values(f);
    lemma_reorder_sort_commute(r1, order, m, grouped);
    lemma_reorder_idempotent(d.tables, order);
    assert(reorder(t1, order) == reorder(r1, order).map_values(f));
    assert(reorder(r1, order) == r1);
    assert forall|i: int| 0 <= i < r1.len() implies #[trigger] t1.map_values(f)[i] == t1[i] by {
        lemma_sort_table_idempotent(m, r1[i], grouped);
    }
    assert(t1.map_values(f) =~= t1);
    assert(sort_doc_spec(sort_doc_spec(d, m, grouped, order), m, grouped, order).tables =~= t1);
}

/// Run the sort engine over a document.
pub fn sort_doc(d: Document, m: &Matcher, grouped: bool, order: &Vec<Vec<u8>>) -> (r: Document)
    ensures
        r@ == sort_doc_spec(d@, m@, grouped, dv(order@)),
{
    let ghost d0 = d@;
    let Document { root, tables, final_newline } = d;
    let mut ts = reorder_tables(tables, order);
    let ghost tr = tsm(ts@);
    let ghost target = tr.map_values(|t: TableM| sort_table_spec(m@, t, grouped));
    let nts = ts.len();
    let mut out: Vec<Table> = Vec::new();
    let mut i: usize = 0;
    proof {
        assert(tsm(out@) =~= target.take(0));
    }
    while ts.len() > 0
        invariant
            i <= tr.len(),
            tr.len() == nts as int,
            target == tr.map_values(|t: TableM| sort_table_spec(m@, t, grouped)),
            tsm(ts@) == tr.skip(i as int),
            ts@.len() == tr.len() - i,
            tsm(out@) == target.take(i as int),
        decreases ts@.len(),
    {
        let ghost pre = ts@;
        let mut t = ts.remove(0);
        proof {
            pre.remove_ensures(0);
            lemma_tsm_index(pre);
            lemma_tsm_index(ts@);
            assert(tsm(pre)[0] == tr.skip(i as int)[0]);
            assert(t@ == tr[i as int]);
            assert(tsm(ts@) =~= tr.skip(i as int + 1));
        }
        let ghost tm0 = t@;
        if matcher_sortable(m, &t.name) {
            if grouped {
                sort_entries_grouped(&mut t.body.entries);
            } else {
                sort_entries(&mut t.body.entries);
            }
            proof {
                assert(t@.body.entries == sort_entries_spec(tm0.body.entries, grouped));
                assert(t@ == sort_table_spec(m@, tm0, grouped));
            }
        } else {
            proof {
                assert(t@ == sort_table_spec(m@, tm0, grouped));
            }
        }
        let ghost outp = tsm(out@);
        out.push(t);
        proof {
            lemma_tsm_index(out@);
            assert(target[i as int] == sort_table_spec(m@, tr[i as int], grouped));
            assert(tsm(out@) =~= outp.push(target[i as int]));
            assert(target.take(i as int + 1) =~= target.take(i as int).push(target[i as int]));
        }
        i = i + 1;
    }
    proof {
        assert(target.take(target.len() as int) =~= target);
    }
    let r = Document { root, tables: out, final_newline };
    proof {
        assert(r@.tables == tsm(out@));
        assert(r@ == sort_doc_spec(d0, m@, grouped, dv(order@)));
    }
    r
}

} // verus!
