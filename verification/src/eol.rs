use vstd::prelude::*;

verus! {

/// The byte form of one line ending.
pub open spec fn eol_sep(crlf: bool) -> Seq<u8> {
    if crlf {
        seq![13u8, 10u8]
    } else {
        seq![10u8]
    }
}

/// Normalization of line endings: every `\r\n` pair and every bare `\n`
/// is rewritten to the chosen convention; all other bytes pass through.
pub open spec fn eol_norm(t: Seq<u8>, crlf: bool) -> Seq<u8>
    decreases t.len(),
{
    if t.len() == 0 {
        Seq::empty()
    } else if t[0] == 13 && t.len() >= 2 && t[1] == 10 {
        eol_sep(crlf) + eol_norm(t.skip(2), crlf)
    } else if t[0] == 10 {
        eol_sep(crlf) + eol_norm(t.skip(1), crlf)
    } else {
        seq![t[0]] + eol_norm(t.skip(1), crlf)
    }
}

/// Does `t` contain a `\r\n` pair? Used to auto-detect the input convention.
pub open spec fn has_crlf(t: Seq<u8>) -> bool {
    exists|i: int| 0 <= i && i + 1 < t.len() && #[trigger] t[i] == 13 && t[i + 1] == 10
}

/// Every newline byte in `t` is immediately preceded by a carriage return:
/// the text uses `\r\n` line endings throughout.
pub open spec fn uses_crlf(t: Seq<u8>) -> bool {
    forall|i: int| 0 <= i < t.len() && #[trigger] t[i] == 10 ==> i > 0 && t[i - 1] == 13
}

/// Normalizing toward `\r\n` yields text that uses `\r\n` throughout.
pub proof fn lemma_eol_norm_uses(t: Seq<u8>)
    ensures
        uses_crlf(eol_norm(t, true)),
    decreases t.len(),
{
    let crlf = true;
    if t.len() == 0 {
    } else if t[0] == 13 && t.len() >= 2 && t[1] == 10 {
        lemma_eol_norm_uses(t.skip(2));
        let rest = eol_norm(t.skip(2), crlf);
        let out = eol_sep(crlf) + rest;
        let k = eol_sep(crlf).len() as int;
        assert forall|i: int|
            0 <= i < out.len() && #[trigger] out[i] == 10 implies i > 0 && out[i - 1] == 13 by {
            if i >= k {
                assert(out[i] == rest[i - k]);
                if i - k > 0 {
                    assert(out[i - 1] == rest[i - k - 1]);
                }
            }
        }
    } else if t[0] == 10 {
        lemma_eol_norm_uses(t.skip(1));
        let rest = eol_norm(t.skip(1), crlf);
        let out = eol_sep(crlf) + rest;
        let k = eol_sep(crlf).len() as int;
        assert forall|i: int|
            0 <= i < out.len() && #[trigger] out[i] == 10 implies i > 0 && out[i - 1] == 13 by {
            if i >= k {
                assert(out[i] == rest[i - k]);
                if i - k > 0 {
                    assert(out[i - 1] == rest[i - k - 1]);
                }
            }
        }
    } else {
        lemma_eol_norm_uses(t.skip(1));
        let rest = eol_norm(t.skip(1), crlf);
        let out = seq![t[0]] + rest;
        assert forall|i: int|
            0 <= i < out.len() && #[trigger] out[i] == 10 implies i > 0 && out[i - 1] == 13 by {
            if i >= 1 {
                assert(out[i] == rest[i - 1]);
                if i - 1 > 0 {
                    assert(out[i - 1] == rest[i - 2]);
                }
                if i - 1 == 0 {
                    assert(rest[0] == 10 ==> false) by {
                        assert(uses_crlf(rest));
                    }
                }
            }
        }
    }
}

/// Executable line-ending normalization, proved against `eol_norm`.
pub fn apply_eol(t: &Vec<u8>, crlf: bool) -> (r: Vec<u8>)
    ensures
        r@ == eol_norm(t@, crlf),
{
    let mut out: Vec<u8> = Vec::new();
    let mut i: usize = 0;
    proof {
        assert(t@.skip(0) =~= t@);
        assert(Seq::<u8>::empty() + eol_norm(t@, crlf) =~= eol_norm(t@, crlf));
    }
    while i < t.len()
        invariant
            i <= t.len(),
            eol_norm(t@, crlf) == out@ + eol_norm(t@.skip(i as int), crlf),
        decreases t.len() - i,
    {
        let b = t[i];
        proof {
            assert(t@.skip(i as int)[0] == t@[i as int]);
            if i + 1 < t.len() {
                assert(t@.skip(i as int)[1] == t@[i as int + 1]);
            }
            assert(t@.skip(i as int).skip(1) =~= t@.skip(i as int + 1));
            if i + 2 <= t.len() {
                assert(t@.skip(i as int).skip(2) =~= t@.skip(i as int + 2));
            }
        }
        if b == 13 && i + 1 < t.len() && t[i + 1] == 10 {
            if crlf {
                proof {
                    assert(out@.push(13u8).push(10u8) =~= out@ + eol_sep(true));
                    assert((out@ + eol_sep(crlf)) + eol_norm(t@.skip(i as int + 2), crlf) =~= out@
                        + (eol_sep(crlf) + eol_norm(t@.skip(i as int + 2), crlf)));
                }
                out.push(13);
                out.push(10);
            } else {
                proof {
                    assert(out@.push(10u8) =~= out@ + eol_sep(false));
                    assert((out@ + eol_sep(crlf)) + eol_norm(t@.skip(i as int + 2), crlf) =~= out@
                        + (eol_sep(crlf) + eol_norm(t@.skip(i as int + 2), crlf)));
                }
                out.push(10);
            }
            i = i + 2;
        } else if b == 10 {
            if crlf {
                proof {
                    assert(out@.push(13u8).push(10u8) =~= out@ + eol_sep(true));
                    assert((out@ + eol_sep(crlf)) + eol_norm(t@.skip(i as int + 1), crlf) =~= out@
                        + (eol_sep(crlf) + eol_norm(t@.skip(i as int + 1), crlf)));
                }
                out.push(13);
                out.push(10);
            } else {
                proof {
                    assert(out@.push(10u8) =~= out@ + eol_sep(false));
                    assert((out@ + eol_sep(crlf)) + eol_norm(t@.skip(i as int + 1), crlf) =~= out@
                        + (eol_sep(crlf) + eol_norm(t@.skip(i as int + 1), crlf)));
                }
                out.push(10);
            }
            i = i + 1;
        } else {
            proof {
                assert(out@.push(b) =~= out@ + seq![b]);
                assert((out@ + seq![b]) + eol_norm(t@.skip(i as int + 1), crlf) =~= out@ + (seq![b]
                    + eol_norm(t@.skip(i as int + 1), crlf)));
            }
            out.push(b);
            i = i + 1;
        }
    }
    proof {
        assert(t@.skip(t@.len() as int).len() == 0);
        assert(out@ + eol_norm(t@.skip(t@.len() as int), crlf) =~= out@);
    }
    out
}

/// Does the text contain a `\r\n` pair? Proved against `has_crlf`.
pub fn detect_crlf(t: &Vec<u8>) -> (r: bool)
    ensures
        r == has_crlf(t@),
{
    if t.len() < 2 {
        return false;
    }
    let mut i: usize = 0;
    while i + 1 < t.len()
        invariant
            i + 1 <= t.len(),
            forall|k: int| 0 <= k && k < i ==> !(#[trigger] t@[k] == 13 && t@[k + 1] == 10),
        decreases t.len() - i,
    {
        if t[i] == 13 && t[i + 1] == 10 {
            return true;
        }
        i = i + 1;
    }
    false
}

} // verus!
