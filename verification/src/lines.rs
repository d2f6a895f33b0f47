use vstd::prelude::*;

verus! {

/// View of a list of byte-string lines as a sequence of byte sequences.
pub open spec fn dv(s: Seq<Vec<u8>>) -> Seq<Seq<u8>> {
    s.map_values(|v: Vec<u8>| v@)
}

/// Join lines with a single newline byte between them (no trailing newline).
pub open spec fn join(ls: Seq<Seq<u8>>) -> Seq<u8>
    decreases ls.len(),
{
    if ls.len() == 0 {
        Seq::empty()
    } else if ls.len() == 1 {
        ls[0]
    } else {
        join(ls.drop_last()) + seq![10u8] + ls.last()
    }
}

/// Unfolding `join` over a line appended at the end.
pub proof fn lemma_join_push(x: Seq<Seq<u8>>, y: Seq<u8>)
    ensures
        join(x.push(y)) == if x.len() == 0 {
            y
        } else {
            join(x) + seq![10u8] + y
        },
{
    assert(x.push(y).drop_last() =~= x);
    assert(x.push(y).last() == y);
    if x.len() == 0 {
        assert(x.push(y)[0] == y);
    }
}

/// No newline byte occurs in `s`.
pub open spec fn no_nl(s: Seq<u8>) -> bool {
    forall|j: int| 0 <= j < s.len() ==> s[j] != 10
}

/// Split `text` at every newline byte. The result always has at least one
/// segment; joining the segments with newlines restores the text exactly.
pub fn split_lines(text: &Vec<u8>) -> (r: Vec<Vec<u8>>)
    ensures
        r@.len() >= 1,
        join(dv(r@)) == text@,
        forall|k: int| 0 <= k < r@.len() ==> no_nl(#[trigger] r@[k]@),
{
    let mut out: Vec<Vec<u8>> = Vec::new();
    let mut cur: Vec<u8> = Vec::new();
    let mut i: usize = 0;
    while i < text.len()
        invariant
            i <= text.len(),
            no_nl(cur@),
            forall|k: int| 0 <= k < out@.len() ==> no_nl(#[trigger] out@[k]@),
            if out@.len() == 0 {
                cur@ == text@.take(i as int)
            } else {
                join(dv(out@)) + seq![10u8] + cur@ == text@.take(i as int)
            },
        decreases text.len() - i,
    {
        let b = text[i];
        if b == 10 {
            proof {
                lemma_join_push(dv(out@), cur@);
                assert(dv(out@.push(cur)) =~= dv(out@).push(cur@));
                if out@.len() == 0 {
                    assert(join(dv(out@.push(cur))) + seq![10u8] + Seq::<u8>::empty() =~= text@.take(
                        i + 1,
                    ));
                } else {
                    assert(join(dv(out@.push(cur))) + seq![10u8] + Seq::<u8>::empty() =~= text@.take(
                        i + 1,
                    ));
                }
            }
            out.push(cur);
            cur = Vec::new();
        } else {
            proof {
                if out@.len() == 0 {
                    assert(cur@.push(b) =~= text@.take(i + 1));
                } else {
                    assert(join(dv(out@)) + seq![10u8] + cur@.push(b) =~= text@.take(i + 1));
                }
            }
            cur.push(b);
        }
        i = i + 1;
    }
    proof {
        assert(text@.take(text@.len() as int) =~= text@);
        lemma_join_push(dv(out@), cur@);
        assert(dv(out@.push(cur)) =~= dv(out@).push(cur@));
    }
    out.push(cur);
    out
}

/// Join lines back into text, proved against `join`.
pub fn join_lines(ls: &Vec<Vec<u8>>, final_newline: bool) -> (r: Vec<u8>)
    ensures
        r@ == join(dv(ls@)) + if final_newline && ls@.len() > 0 {
            seq![10u8]
        } else {
            Seq::<u8>::empty()
        },
{
    let mut out: Vec<u8> = Vec::new();
    let mut i: usize = 0;
    while i < ls.len()
        invariant
            i <= ls.len(),
            out@ == join(dv(ls@).take(i as int)),
        decreases ls.len() - i,
    {
        if i > 0 {
            proof {
                assert(out@.push(10u8) =~= join(dv(ls@).take(i as int)) + seq![10u8]
                    + Seq::<u8>::empty());
            }
            out.push(10);
        } else {
            proof {
                assert(out@ =~= join(dv(ls@).take(i as int)) + Seq::<u8>::empty()
                    + Seq::<u8>::empty());
            }
        }
        let mut j: usize = 0;
        let line = &ls[i];
        while j < line.len()
            invariant
                j <= line.len(),
                i < ls.len(),
                line == ls[i as int],
                out@ == join(dv(ls@).take(i as int)) + if i == 0 {
                    Seq::<u8>::empty()
                } else {
                    seq![10u8]
                } + line@.take(j as int),
            decreases line.len() - j,
        {
            let b = line[j];
            proof {
                assert(out@.push(b) =~= join(dv(ls@).take(i as int)) + if i == 0 {
                    Seq::<u8>::empty()
                } else {
                    seq![10u8]
                } + line@.take(j + 1));
            }
            out.push(b);
            j = j + 1;
        }
        proof {
            assert(line@.take(line@.len() as int) =~= line@);
            assert(dv(ls@).take(i + 1).drop_last() =~= dv(ls@).take(i as int));
            assert(dv(ls@).take(i + 1).last() == line@);
            if i == 0 {
                assert(out@ =~= join(dv(ls@).take(i + 1)));
            } else {
                assert(out@ =~= join(dv(ls@).take(i + 1)));
            }
        }
        i = i + 1;
    }
    proof {
        assert(dv(ls@).take(ls@.len() as int) =~= dv(ls@));
    }
    if final_newline && ls.len() > 0 {
        proof {
            assert(out@.push(10u8) =~= join(dv(ls@)) + seq![10u8]);
        }
        out.push(10);
    }
    out
}

} // verus!
