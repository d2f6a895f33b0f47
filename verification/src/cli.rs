use vstd::prelude::*;

use crate::bytes::copy_bytes;
use crate::config::Config;
use crate::lines::dv;

verus! {

/// The command-line options, as plain values. The front end fills this in
/// and the library decides what they mean; flags win over the sidecar
/// configuration file.
pub struct Cli {
    /// Working directories (or manifest paths) to treat.
    pub cwd: Vec<Vec<u8>>,
    /// Report instead of rewriting; non-zero outcome when unsorted.
    pub check: bool,
    /// Print the rewritten text instead of writing it back.
    pub print: bool,
    /// Skip the format engine.
    pub no_format: bool,
    /// In check mode, also report formatting differences.
    pub check_format: bool,
    /// Treat every member of a workspace.
    pub workspace: bool,
    /// Keep blank-line groups together when sorting.
    pub grouped: bool,
    /// The table-order list, when given on the command line.
    pub order: Vec<Vec<u8>>,
}

/// A fresh copy of a list of byte strings.
pub fn copy_lines(v: &Vec<Vec<u8>>) -> (r: Vec<Vec<u8>>)
    ensures
        dv(r@) == dv(v@),
{
    let mut out: Vec<Vec<u8>> = Vec::new();
    let mut i: usize = 0;
    proof {
        assert(dv(out@) =~= dv(v@).take(0));
    }
    while i < v.len()
        invariant
            i <= v@.len(),
            dv(out@) == dv(v@).take(i as int),
        decreases v.len() - i,
    {
        let line = copy_bytes(&v[i]);
        proof {
            assert(dv(out@.push(line)) =~= dv(out@).push(line@));
            assert(dv(v@).take(i + 1) =~= dv(v@).take(i as int).push(v@[i as int]@));
        }
        out.push(line);
        i = i + 1;
    }
    proof {
        assert(dv(v@).take(v@.len() as int) =~= dv(v@));
    }
    out
}

impl Cli {
    /// The configuration in force once the flags are applied over the
    /// sidecar configuration: an explicit `--order` list replaces the
    /// file's table order, and each boolean flag can only switch its
    /// option on.
    pub fn apply(&self, c: Config) -> (r: Config)
        ensures
            r@.table_order == if self.order@.len() > 0 {
                dv(self.order@)
            } else {
                c@.table_order
            },
            r@.grouped == (c@.grouped || self.grouped),
            r@.no_format == (c@.no_format || self.no_format),
            r@.check_format == (c@.check_format || self.check_format),
            r@.crlf == c@.crlf,
    {
        let mut c = c;
        if self.order.len() > 0 {
            c.table_order = copy_lines(&self.order);
        }
        c.grouped = c.grouped || self.grouped;
        c.no_format = c.no_format || self.no_format;
        c.check_format = c.check_format || self.check_format;
        c
    }
}

} // verus!
