use vstd::prelude::*;

use crate::bytes::ws;

verus! {

/// Why a document was rejected.
#[derive(Clone, Copy, Debug, PartialEq, Eq, Structural)]
pub enum ParseErrorKind {
    /// A line that is not blank, not a comment, not a header, and has no `=`.
    MissingEquals,
    /// A single-line string was still open at the end of its line.
    UnterminatedString,
    /// A `]` or `}` with no matching opener.
    UnexpectedCloser,
    /// A header line whose brackets or trailer are malformed.
    BadHeader,
    /// A multi-line value still open at the end of the document.
    UnclosedValue,
}

/// A rejected document: the first offending line (1-based) and the reason.
/// The whole input is rejected; parsing does not recover.
#[derive(Clone, Copy, Debug, PartialEq, Eq, Structural)]
pub struct ParseError {
    pub line: usize,
    pub kind: ParseErrorKind,
}

/// Where a scan of a value stands: inside which kind of string, and how many
/// `[`/`{` groups are open.
#[derive(Clone, Copy, Debug, PartialEq, Eq, Structural)]
pub enum Mode {
    Normal,
    Basic,
    Literal,
    MlBasic,
    MlLiteral,
}

#[derive(Clone, Copy, Debug, PartialEq, Eq, Structural)]
pub struct ScanSt {
    pub mode: Mode,
    pub depth: usize,
}

/// The scan state at the start of a value.
pub fn scan_start() -> (r: ScanSt)
    ensures
        r.mode == Mode::Normal && r.depth == 0,
{
    ScanSt { mode: Mode::Normal, depth: 0 }
}

/// Does this state demand a continuation line?
pub fn scan_open(st: &ScanSt) -> (r: bool)
    ensures
        r == (st.mode != Mode::Normal || st.depth > 0),
{
    match st.mode {
        Mode::Normal => st.depth > 0,
        _ => true,
    }
}

/// Nesting deeper than this is rejected rather than tracked.
pub const MAX_DEPTH: usize = 1000000;

/// Scan the bytes of one line from `start` on, carrying the string/bracket
/// state across lines of a multi-line value. A `#` outside any string ends
/// the scan of the line (comment). A single-line string still open at the
/// end of the line is an error; a multi-line string or an open bracket
/// group carries over to the next line.
pub fn scan_value(st0: ScanSt, s: &Vec<u8>, start: usize) -> (r: Result<ScanSt, ParseErrorKind>)
    requires
        st0.depth <= MAX_DEPTH,
    ensures
        r matches Ok(st2) ==> st2.depth <= MAX_DEPTH,
{
    let mut mode = st0.mode;
    let mut depth = st0.depth;
    let mut i: usize = start;
    loop
        invariant
            depth <= MAX_DEPTH,
        decreases s.len() - i,
    {
        if i >= s.len() {
            break;
        }
        let b = s[i];
        match mode {
            Mode::Normal => {
                if b == 35 {
                    // '#': comment to end of line
                    break;
                } else if b == 91 || b == 123 {
                    // '[' or '{'
                    if depth >= MAX_DEPTH {
                        return Err(ParseErrorKind::UnexpectedCloser);
                    }
                    depth = depth + 1;
                    i = i + 1;
                } else if b == 93 || b == 125 {
                    // ']' or '}'
                    if depth == 0 {
                        return Err(ParseErrorKind::UnexpectedCloser);
                    }
                    depth = depth - 1;
                    i = i + 1;
                } else if b == 34 {
                    // '"'
                    if s.len() - i > 2 && s[i + 1] == 34 && s[i + 2] == 34 {
                        mode = Mode::MlBasic;
                        i = i + 3;
                    } else {
                        mode = Mode::Basic;
                        i = i + 1;
                    }
                } else if b == 39 {
                    // '\''
                    if s.len() - i > 2 && s[i + 1] == 39 && s[i + 2] == 39 {
                        mode = Mode::MlLiteral;
                        i = i + 3;
                    } else {
                        mode = Mode::Literal;
                        i = i + 1;
                    }
                } else {
                    i = i + 1;
                }
            },
            Mode::Basic => {
                if b == 92 {
                    // skip the escaped byte
                    i = i + 1;
                    if i < s.len() {
                        i = i + 1;
                    }
                } else if b == 34 {
                    mode = Mode::Normal;
                    i = i + 1;
                } else {
                    i = i + 1;
                }
            },
            Mode::Literal => {
                if b == 39 {
                    mode = Mode::Normal;
                }
                i = i + 1;
            },
            Mode::MlBasic => {
                if b == 92 {
                    i = i + 1;
                    if i < s.len() {
                        i = i + 1;
                    }
                } else if b == 34 && s.len() - i > 2 && s[i + 1] == 34 && s[i + 2] == 34 {
                    mode = Mode::Normal;
                    i = i + 3;
                } else {
                    i = i + 1;
                }
            },
            Mode::MlLiteral => {
                if b == 39 && s.len() - i > 2 && s[i + 1] == 39 && s[i + 2] == 39 {
                    mode = Mode::Normal;
                    i = i + 3;
                } else {
                    i = i + 1;
                }
            },
        }
    }
    if matches!(mode, Mode::Basic) || matches!(mode, Mode::Literal) {
        return Err(ParseErrorKind::UnterminatedString);
    }
    Ok(ScanSt { mode, depth })
}


/// Leading whitespace removed.
pub open spec fn trim_front(s: Seq<u8>) -> Seq<u8>
    decreases s.len(),
{
    if s.len() > 0 && crate::bytes::is_ws(s[0]) {
        trim_front(s.skip(1))
    } else {
        s
    }
}

/// Trailing whitespace removed.
pub open spec fn trim_back(s: Seq<u8>) -> Seq<u8>
    decreases s.len(),
{
    if s.len() > 0 && crate::bytes::is_ws(s.last()) {
        trim_back(s.drop_last())
    } else {
        s
    }
}

/// Surrounding whitespace removed.
pub open spec fn trimmed(s: Seq<u8>) -> Seq<u8> {
    trim_back(trim_front(s))
}

/// A line with no content.
pub open spec fn is_blank_line(s: Seq<u8>) -> bool {
    trimmed(s).len() == 0
}

/// A comment line: the first content byte is `#`.
pub open spec fn is_comment_line(s: Seq<u8>) -> bool {
    trimmed(s).len() > 0 && trimmed(s)[0] == 35
}

/// A header line: the first content byte is `[`.
pub open spec fn is_header_line(s: Seq<u8>) -> bool {
    trimmed(s).len() > 0 && trimmed(s)[0] == 91
}

/// A key/value line: content that is neither a comment nor a header.
pub open spec fn is_entry_line(s: Seq<u8>) -> bool {
    trimmed(s).len() > 0 && trimmed(s)[0] != 35 && trimmed(s)[0] != 91
}

/// The shape of a well-formed header line `t` (already trimmed context is
/// not assumed: `t` is the trimmed line) carrying `name`: after the
/// opening bracket (or two), the name runs to the first `]`, trimmed.
pub open spec fn header_shape(t: Seq<u8>, name: Seq<u8>) -> bool {
    &&& t.len() > 0
    &&& t[0] == 91
    &&& ({
        let start: int = if t.len() > 1 && t[1] == 91 {
            2
        } else {
            1
        };
        match t.skip(start).index_of_first(93) {
            Option::Some(c) => name == trimmed(t.skip(start).take(c)),
            Option::None => false,
        }
    })
}

/// The shape of a well-formed key/value line `t` (trimmed) carrying `key`
/// and `val`: the first `=` splits it, both sides trimmed.
pub open spec fn kv_shape(t: Seq<u8>, key: Seq<u8>, val: Seq<u8>) -> bool {
    match t.index_of_first(61) {
        Option::Some(p) => key == trimmed(t.take(p)) && val == trimmed(t.skip(p + 1)),
        Option::None => false,
    }
}

/// When the first `k` bytes are whitespace and byte `k` is not,
/// front-trimming drops exactly those `k` bytes.
pub proof fn lemma_trim_front_skip(s: Seq<u8>, k: int)
    requires
        0 <= k <= s.len(),
        forall|j: int| 0 <= j < k ==> crate::bytes::is_ws(#[trigger] s[j]),
        k < s.len() ==> !crate::bytes::is_ws(s[k]),
    ensures
        trim_front(s) == s.skip(k),
    decreases k,
{
    if k == 0 {
        assert(s.skip(0) =~= s);
    } else {
        assert(crate::bytes::is_ws(s[0]));
        assert forall|j: int| 0 <= j < k - 1 implies crate::bytes::is_ws(#[trigger] s.skip(1)[j]) by {
            assert(s.skip(1)[j] == s[j + 1]);
        }
        if k - 1 < s.skip(1).len() {
            assert(s.skip(1)[k - 1] == s[k]);
        }
        lemma_trim_front_skip(s.skip(1), k - 1);
        assert(s.skip(1).skip(k - 1) =~= s.skip(k));
    }
}

/// When every byte from `h` on is whitespace and byte `h - 1` is not,
/// back-trimming keeps exactly the first `h` bytes.
pub proof fn lemma_trim_back_take(s: Seq<u8>, h: int)
    requires
        0 <= h <= s.len(),
        forall|j: int| h <= j < s.len() ==> crate::bytes::is_ws(#[trigger] s[j]),
        h > 0 ==> !crate::bytes::is_ws(s[h - 1]),
    ensures
        trim_back(s) == s.take(h),
    decreases s.len(),
{
    if h == s.len() {
        assert(s.take(h) =~= s);
    } else {
        assert(crate::bytes::is_ws(s.last()));
        assert forall|j: int|
            h <= j < s.drop_last().len() implies crate::bytes::is_ws(
            #[trigger] s.drop_last()[j],
        ) by {
            assert(s.drop_last()[j] == s[j]);
        }
        if h > 0 {
            assert(s.drop_last()[h - 1] == s[h - 1]);
        }
        lemma_trim_back_take(s.drop_last(), h);
        assert(s.drop_last().take(h) =~= s.take(h));
    }
}

/// The extent of the non-whitespace content of a line: everything before
/// `lo` and from `hi` on is whitespace, and when the line has any content,
/// its first and last bytes are not whitespace.
pub fn trim_bounds(s: &Vec<u8>) -> (r: (usize, usize))
    ensures
        r.0 <= r.1 <= s@.len(),
        forall|k: int| 0 <= k < r.0 ==> crate::bytes::is_ws(#[trigger] s@[k]),
        forall|k: int| r.1 <= k < s@.len() ==> crate::bytes::is_ws(#[trigger] s@[k]),
        r.0 < r.1 ==> !crate::bytes::is_ws(s@[r.0 as int]) && !crate::bytes::is_ws(
            s@[r.1 as int - 1],
        ),
        trimmed(s@) == s@.subrange(r.0 as int, r.1 as int),
{
    let mut lo: usize = 0;
    while lo < s.len() && ws(s[lo])
        invariant
            lo <= s@.len(),
            forall|k: int| 0 <= k < lo ==> crate::bytes::is_ws(#[trigger] s@[k]),
        decreases s.len() - lo,
    {
        lo = lo + 1;
    }
    if lo == s.len() {
        proof {
            lemma_trim_front_skip(s@, lo as int);
            assert(trim_front(s@).len() == 0);
            assert(trimmed(s@) =~= s@.subrange(lo as int, lo as int));
        }
        return (lo, lo);
    }
    let mut hi: usize = s.len();
    while hi > lo && ws(s[hi - 1])
        invariant
            lo <= hi <= s@.len(),
            forall|k: int| hi <= k < s@.len() ==> crate::bytes::is_ws(#[trigger] s@[k]),
        decreases hi,
    {
        hi = hi - 1;
    }
    proof {
        lemma_trim_front_skip(s@, lo as int);
        let t = s@.skip(lo as int);
        assert forall|j: int|
            hi - lo <= j < t.len() implies crate::bytes::is_ws(#[trigger] t[j]) by {
            assert(t[j] == s@[lo + j]);
        }
        assert(hi > lo);
        assert(t[hi - lo - 1] == s@[hi as int - 1]);
        lemma_trim_back_take(t, hi - lo);
        assert(t.take(hi - lo) =~= s@.subrange(lo as int, hi as int));
    }
    (lo, hi)
}

/// Copy `s[from..to]` with surrounding whitespace removed.
pub fn trimmed_copy(s: &Vec<u8>, from: usize, to: usize) -> (r: Vec<u8>)
    requires
        from <= to <= s@.len(),
    ensures
        r@ == trimmed(s@.subrange(from as int, to as int)),
{
    let ghost sub = s@.subrange(from as int, to as int);
    let mut lo = from;
    while lo < to && ws(s[lo])
        invariant
            from <= lo <= to <= s@.len(),
            forall|j: int| from <= j < lo ==> crate::bytes::is_ws(#[trigger] s@[j]),
        decreases to - lo,
    {
        lo = lo + 1;
    }
    if lo == to {
        proof {
            assert forall|j: int| 0 <= j < sub.len() implies crate::bytes::is_ws(
                #[trigger] sub[j],
            ) by {
                assert(sub[j] == s@[from + j]);
            }
            lemma_trim_front_skip(sub, sub.len() as int);
            assert(trim_front(sub).len() == 0);
            assert(trimmed(sub) =~= Seq::<u8>::empty());
        }
        return Vec::new();
    }
    let mut hi = to;
    while hi > lo && ws(s[hi - 1])
        invariant
            lo <= hi <= to <= s@.len(),
            forall|j: int| hi <= j < to ==> crate::bytes::is_ws(#[trigger] s@[j]),
        decreases hi,
    {
        hi = hi - 1;
    }
    let mut out: Vec<u8> = Vec::new();
    let mut i = lo;
    while i < hi
        invariant
            lo <= i <= hi <= s@.len(),
            out@ =~= s@.subrange(lo as int, i as int),
        decreases hi - i,
    {
        proof {
            assert(s@.subrange(lo as int, i as int).push(s@[i as int]) =~= s@.subrange(
                lo as int,
                i as int + 1,
            ));
        }
        out.push(s[i]);
        i = i + 1;
    }
    proof {
        assert forall|j: int|
            0 <= j < lo - from implies crate::bytes::is_ws(#[trigger] sub[j]) by {
            assert(sub[j] == s@[from + j]);
        }
        assert(sub[lo - from] == s@[lo as int]);
        lemma_trim_front_skip(sub, lo - from);
        let t = sub.skip(lo - from);
        assert forall|j: int|
            hi - lo <= j < t.len() implies crate::bytes::is_ws(#[trigger] t[j]) by {
            assert(t[j] == s@[lo + j]);
        }
        assert(hi > lo);
        assert(t[hi - lo - 1] == s@[hi as int - 1]);
        lemma_trim_back_take(t, hi - lo);
        assert(t.take(hi - lo) =~= s@.subrange(lo as int, hi as int));
        assert(out@ =~= trimmed(sub));
    }
    out
}

/// The position of the first `=` in `s[from..to]`, or `None` when there is
/// none. The first `=` on the line is the key/value separator.
pub fn find_eq(s: &Vec<u8>, from: usize, to: usize) -> (r: Option<usize>)
    requires
        from <= to <= s@.len(),
    ensures
        r matches Some(i) ==> from <= i < to && s@[i as int] == 61 && (forall|k: int|
            from <= k < i ==> s@[k] != 61),
        r is None ==> forall|k: int| from <= k < to ==> s@[k] != 61,
{
    let mut i = from;
    while i < to
        invariant
            from <= i <= to <= s@.len(),
            forall|k: int| from <= k < i ==> s@[k] != 61,
        decreases to - i,
    {
        if s[i] == 61 {
            return Some(i);
        }
        i = i + 1;
    }
    None
}

/// Read a header line `[name]` or `[[name]]`: the name runs from after
/// the opening bracket(s) to the first `]`, trimmed. After the closing
/// brackets only whitespace and an optional `#` comment may stand.
pub fn header_name(s: &Vec<u8>, lo: usize, hi: usize) -> (r: Result<Vec<u8>, ParseErrorKind>)
    requires
        lo < hi <= s@.len(),
        s@[lo as int] == 91,
    ensures
        r matches Ok(nm) ==> header_shape(s@.subrange(lo as int, hi as int), nm@),
{
    let dbl = lo + 1 < hi && s[lo + 1] == 91;
    let start = if dbl {
        lo + 2
    } else {
        lo + 1
    };
    // find the first ']'
    let mut i = start;
    while i < hi
        invariant
            start <= i <= hi <= s@.len(),
            forall|k: int| start <= k < i ==> s@[k] != 93,
        ensures
            start <= i <= hi,
            forall|k: int| start <= k < i ==> s@[k] != 93,
            i < hi ==> s@[i as int] == 93,
        decreases hi - i,
    {
        if s[i] == 93 {
            break;
        }
        i = i + 1;
    }
    if i >= hi {
        return Err(ParseErrorKind::BadHeader);
    }
    let close = i;
    let mut after = close + 1;
    if dbl {
        if after < hi && s[after] == 93 {
            after = after + 1;
        } else {
            return Err(ParseErrorKind::BadHeader);
        }
    }
    // only whitespace, then optionally a comment, may follow
    let mut j = after;
    while j < hi && ws(s[j])
        invariant
            after <= j <= hi <= s@.len(),
        decreases hi - j,
    {
        j = j + 1;
    }
    if j < hi && s[j] != 35 {
        return Err(ParseErrorKind::BadHeader);
    }
    let name = trimmed_copy(s, start, close);
    proof {
        let t = s@.subrange(lo as int, hi as int);
        assert(t[0] == s@[lo as int]);
        let st: int = if t.len() > 1 && t[1] == 91 {
            2
        } else {
            1
        };
        assert(t.len() > 1 ==> t[1] == s@[lo as int + 1]);
        assert(st == start - lo);
        let u = t.skip(st);
        assert forall|k: int| 0 <= k < u.len() implies u[k] == s@[start + k] by {}
        assert(u[close - start] == 93);
        assert(u.contains(93)) by {
            assert(u[close - start] == 93);
        }
        u.index_of_first_ensures(93);
        let c = u.index_of_first(93).unwrap();
        assert(c == close - start) by {
            if c < close - start {
                assert(s@[start + c] != 93);
            }
            if c > close - start {
                assert(u[close - start] != 93);
            }
        }
        assert(u.take(c) =~= s@.subrange(start as int, close as int));
        assert(name@ == trimmed(u.take(c)));
        assert(header_shape(t, name@));
    }
    Ok(name)
}

} // verus!
