use vstd::prelude::*;

use crate::bytes::{bytes_eq, ends_with};
use crate::lines::dv;
use vstd::string::StringSliceAdditionalSpecFns;

verus! {

/// The pluggable classifier: which tables are subject to sorting. A table
/// sorts when its name equals one of `tables` or ends with one of
/// `suffixes` (so `target.'cfg(unix)'.dependencies` sorts like
/// `dependencies`).
pub struct Matcher {
    pub tables: Vec<Vec<u8>>,
    pub suffixes: Vec<Vec<u8>>,
}

/// Mathematical model of a `Matcher`.
pub ghost struct MatcherM {
    pub tables: Seq<Seq<u8>>,
    pub suffixes: Seq<Seq<u8>>,
}

impl View for Matcher {
    type V = MatcherM;

    open spec fn view(&self) -> MatcherM {
        MatcherM { tables: dv(self.tables@), suffixes: dv(self.suffixes@) }
    }
}

/// Is a table with this name subject to sorting under matcher `m`?
pub open spec fn is_sortable(m: MatcherM, name: Seq<u8>) -> bool {
    (exists|j: int| 0 <= j < m.tables.len() && #[trigger] m.tables[j] == name) || (exists|j: int|
        0 <= j < m.suffixes.len() && (#[trigger] m.suffixes[j]).is_suffix_of(name))
}

/// Executable test, proved against `is_sortable`.
pub fn matcher_sortable(m: &Matcher, name: &Vec<u8>) -> (r: bool)
    ensures
        r == is_sortable(m@, name@),
{
    let mut j: usize = 0;
    while j < m.tables.len()
        invariant
            j <= m.tables@.len(),
            forall|k: int| 0 <= k < j ==> #[trigger] m@.tables[k] != name@,
        decreases m.tables.len() - j,
    {
        if bytes_eq(&m.tables[j], name) {
            proof {
                assert(m@.tables[j as int] == name@);
            }
            return true;
        }
        j = j + 1;
    }
    let mut j2: usize = 0;
    while j2 < m.suffixes.len()
        invariant
            j2 <= m.suffixes@.len(),
            forall|k: int| 0 <= k < j2 ==> !(#[trigger] m@.suffixes[k]).is_suffix_of(name@),
            forall|k: int| 0 <= k < m.tables@.len() ==> #[trigger] m@.tables[k] != name@,
        decreases m.suffixes.len() - j2,
    {
        if ends_with(name, &m.suffixes[j2]) {
            proof {
                assert((m@.suffixes[j2 as int]).is_suffix_of(name@));
            }
            return true;
        }
        j2 = j2 + 1;
    }
    false
}

/// A byte-string copy of a slice literal.
pub fn bvec(s: &[u8]) -> (r: Vec<u8>)
    ensures
        r@ == s@,
{
    let mut out: Vec<u8> = Vec::new();
    let mut i: usize = 0;
    while i < s.len()
        invariant
            i <= s@.len(),
            out@ =~= s@.take(i as int),
        decreases s.len() - i,
    {
        out.push(s[i]);
        i = i + 1;
    }
    proof {
        assert(s@.take(s@.len() as int) =~= s@);
    }
    out
}

/// The bytes of an ASCII string, character by character: the form in which
/// the matcher's table names are pinned down.
pub open spec fn ascii_bytes(s: Seq<char>) -> Seq<u8> {
    Seq::new(s.len(), |i: int| s[i] as u8)
}

/// For an ASCII string, the byte encoding is exactly its characters.
proof fn lemma_ascii_literal_bytes(s: &str)
    requires
        vstd::string::is_ascii(s),
    ensures
        s.spec_bytes() == ascii_bytes(s@),
{
    vstd::string::is_ascii_spec_bytes(s);
    assert(s.spec_bytes() =~= ascii_bytes(s@));
}

/// A byte-string copy of an ASCII string literal.
pub fn name_bytes(s: &str) -> (r: Vec<u8>)
    requires
        vstd::string::is_ascii(s),
    ensures
        r@ == ascii_bytes(s@),
{
    let r = bvec(s.as_bytes());
    proof {
        lemma_ascii_literal_bytes(s);
    }
    r
}

/// The manifest dialect's default matcher: exactly the dependency tables
/// and `features` sort, and any dotted table ending in a dependency-table
/// name (such as a `target` section's) sorts too.
pub fn default_matcher() -> (m: Matcher)
    ensures
        m@.tables == seq![
            ascii_bytes("dependencies"@),
            ascii_bytes("dev-dependencies"@),
            ascii_bytes("build-dependencies"@),
            ascii_bytes("features"@),
            ascii_bytes("workspace.dependencies"@),
            ascii_bytes("workspace.dev-dependencies"@),
            ascii_bytes("workspace.build-dependencies"@),
        ],
        m@.suffixes == seq![
            ascii_bytes(".dependencies"@),
            ascii_bytes(".dev-dependencies"@),
            ascii_bytes(".build-dependencies"@),
        ],
{
    proof {
        reveal_strlit("dependencies");
        reveal_strlit("dev-dependencies");
        reveal_strlit("build-dependencies");
        reveal_strlit("features");
        reveal_strlit("workspace.dependencies");
        reveal_strlit("workspace.dev-dependencies");
        reveal_strlit("workspace.build-dependencies");
        reveal_strlit(".dependencies");
        reveal_strlit(".dev-dependencies");
        reveal_strlit(".build-dependencies");
    }
    let mut tables: Vec<Vec<u8>> = Vec::new();
    tables.push(name_bytes("dependencies"));
    tables.push(name_bytes("dev-dependencies"));
    tables.push(name_bytes("build-dependencies"));
    tables.push(name_bytes("features"));
    tables.push(name_bytes("workspace.dependencies"));
    tables.push(name_bytes("workspace.dev-dependencies"));
    tables.push(name_bytes("workspace.build-dependencies"));
    let mut suffixes: Vec<Vec<u8>> = Vec::new();
    suffixes.push(name_bytes(".dependencies"));
    suffixes.push(name_bytes(".dev-dependencies"));
    suffixes.push(name_bytes(".build-dependencies"));
    let m = Matcher { tables, suffixes };
    proof {
        assert(m@.tables =~= seq![
            ascii_bytes("dependencies"@),
            ascii_bytes("dev-dependencies"@),
            ascii_bytes("build-dependencies"@),
            ascii_bytes("features"@),
            ascii_bytes("workspace.dependencies"@),
            ascii_bytes("workspace.dev-dependencies"@),
            ascii_bytes("workspace.build-dependencies"@),
        ]);
        assert(m@.suffixes =~= seq![
            ascii_bytes(".dependencies"@),
            ascii_bytes(".dev-dependencies"@),
            ascii_bytes(".build-dependencies"@),
        ]);
    }
    m
}

} // verus!
