use vstd::prelude::*;

verus! {

/// Bytes counted as horizontal whitespace when trimming a line:
/// space, tab, and carriage return.
pub open spec fn is_ws(b: u8) -> bool {
    b == 32 || b == 9 || b == 13
}

/// Executable test matching `is_ws`.
pub fn ws(b: u8) -> (r: bool)
    ensures
        r == is_ws(b),
{
    b == 32 || b == 9 || b == 13
}

/// Byte-wise lexicographic order: the order used to compare sort keys.
pub open spec fn lex_le(a: Seq<u8>, b: Seq<u8>) -> bool
    decreases a.len(),
{
    if a.len() == 0 {
        true
    } else if b.len() == 0 {
        false
    } else if a[0] < b[0] {
        true
    } else if a[0] > b[0] {
        false
    } else {
        lex_le(a.skip(1), b.skip(1))
    }
}

/// `lex_le` is total: any two byte strings are comparable.
pub proof fn lemma_lex_le_total(a: Seq<u8>, b: Seq<u8>)
    ensures
        lex_le(a, b) || lex_le(b, a),
    decreases a.len(),
{
    if a.len() != 0 && b.len() != 0 && a[0] == b[0] {
        lemma_lex_le_total(a.skip(1), b.skip(1));
    }
}

/// `lex_le` is transitive.
pub proof fn lemma_lex_le_trans(a: Seq<u8>, b: Seq<u8>, c: Seq<u8>)
    requires
        lex_le(a, b),
        lex_le(b, c),
    ensures
        lex_le(a, c),
    decreases a.len(),
{
    if a.len() != 0 && b.len() != 0 && c.len() != 0 {
        if a[0] == b[0] && b[0] == c[0] {
            lemma_lex_le_trans(a.skip(1), b.skip(1), c.skip(1));
        }
    }
}

/// Executable lexicographic comparison, proved against `lex_le`.
pub fn bytes_le(a: &Vec<u8>, b: &Vec<u8>) -> (r: bool)
    ensures
        r == lex_le(a@, b@),
{
    let mut i: usize = 0;
    proof {
        assert(a@.skip(0) =~= a@);
        assert(b@.skip(0) =~= b@);
    }
    loop
        invariant
            i <= a.len(),
            i <= b.len(),
            lex_le(a@, b@) == lex_le(a@.skip(i as int), b@.skip(i as int)),
        decreases a.len() - i,
    {
        if i >= a.len() {
            assert(a@.skip(i as int).len() == 0);
            return true;
        }
        if i >= b.len() {
            assert(b@.skip(i as int).len() == 0);
            assert(a@.skip(i as int).len() != 0);
            return false;
        }
        assert(a@.skip(i as int)[0] == a@[i as int]);
        assert(b@.skip(i as int)[0] == b@[i as int]);
        if a[i] < b[i] {
            return true;
        }
        if a[i] > b[i] {
            return false;
        }
        proof {
            assert(a@.skip(i as int).skip(1) =~= a@.skip(i as int + 1));
            assert(b@.skip(i as int).skip(1) =~= b@.skip(i as int + 1));
        }
        i = i + 1;
    }
}

/// Executable byte-string equality, proved against view equality.
pub fn bytes_eq(a: &Vec<u8>, b: &Vec<u8>) -> (r: bool)
    ensures
        r == (a@ == b@),
{
    if a.len() != b.len() {
        return false;
    }
    let mut i: usize = 0;
    while i < a.len()
        invariant
            i <= a.len(),
            a.len() == b.len(),
            forall|k: int| 0 <= k < i ==> a@[k] == b@[k],
        decreases a.len() - i,
    {
        if a[i] != b[i] {
            return false;
        }
        i = i + 1;
    }
    proof {
        assert(a@ =~= b@);
    }
    true
}

/// Fresh copy of a byte string.
pub fn copy_bytes(v: &Vec<u8>) -> (r: Vec<u8>)
    ensures
        r@ == v@,
{
    let mut out: Vec<u8> = Vec::new();
    let mut i: usize = 0;
    while i < v.len()
        invariant
            i <= v.len(),
            out@ =~= v@.subrange(0, i as int),
        decreases v.len() - i,
    {
        out.push(v[i]);
        i = i + 1;
    }
    proof {
        assert(out@ =~= v@);
    }
    out
}

/// Does `a` end with `suf`?
pub fn ends_with(a: &Vec<u8>, suf: &Vec<u8>) -> (r: bool)
    ensures
        r == suf@.is_suffix_of(a@),
{
    if suf.len() > a.len() {
        return false;
    }
    let off = a.len() - suf.len();
    let mut i: usize = 0;
    while i < suf.len()
        invariant
            i <= suf.len(),
            suf.len() <= a.len(),
            off == a.len() - suf.len(),
            forall|k: int| 0 <= k < i ==> a@[off + k] == suf@[k],
        decreases suf.len() - i,
    {
        if a[off + i] != suf[i] {
            assert(!(suf@ =~= a@.subrange(a@.len() - suf@.len(), a@.len() as int)));
            return false;
        }
        i = i + 1;
    }
    proof {
        assert(suf@ =~= a@.subrange(a@.len() - suf@.len(), a@.len() as int));
    }
    true
}

} // verus!
