use vstd::prelude::*;

use crate::bytes::{bytes_eq, ws};
use crate::lines::dv;
use crate::matcher::{ascii_bytes, name_bytes};
use crate::model::{doc_text, doc_wf, DocM, Document, EntryM};
use crate::parse::parse;
use crate::scan::ParseError;

verus! {

/// The engine's configuration. `table_order` names the tables that should
/// come first, in order; `grouped` keeps blank-line groups together when
/// sorting; `crlf` forces a line-ending convention, or, when unset, the
/// input's own convention is kept; `no_format` skips the format engine;
/// `check_format` reports formatting differences in check mode.
pub struct Config {
    pub table_order: Vec<Vec<u8>>,
    pub grouped: bool,
    pub crlf: Option<bool>,
    pub no_format: bool,
    pub check_format: bool,
}

/// Mathematical model of a `Config`.
pub ghost struct ConfigM {
    pub table_order: Seq<Seq<u8>>,
    pub grouped: bool,
    pub crlf: Option<bool>,
    pub no_format: bool,
    pub check_format: bool,
}

impl View for Config {
    type V = ConfigM;

    open spec fn view(&self) -> ConfigM {
        ConfigM {
            table_order: dv(self.table_order@),
            grouped: self.grouped,
            crlf: self.crlf,
            no_format: self.no_format,
            check_format: self.check_format,
        }
    }
}

/// The configuration with everything at its default.
pub fn default_config() -> (c: Config)
    ensures
        c@.table_order.len() == 0,
        !c@.grouped,
        c@.crlf is None,
        !c@.no_format,
        !c@.check_format,
{
    Config {
        table_order: Vec::new(),
        grouped: false,
        crlf: Option::None,
        no_format: false,
        check_format: false,
    }
}


/// A separator inside a string array: whitespace, newline, or comma.
pub open spec fn arr_sep(b: u8) -> bool {
    crate::bytes::is_ws(b) || b == 10 || b == 44
}

/// The scan of a string array after the opening bracket. `cur` is the item
/// being read (with its quote character) or nothing; `acc` the items read
/// so far. Inside a double-quoted item a backslash copies itself and the
/// next byte verbatim.
pub open spec fn arr_scan(
    t: Seq<u8>,
    cur: Option<(u8, Seq<u8>)>,
    acc: Seq<Seq<u8>>,
) -> Option<Seq<Seq<u8>>>
    decreases t.len(),
{
    match cur {
        Option::Some((q, item)) => {
            if t.len() == 0 {
                Option::None
            } else if t[0] == q {
                arr_scan(t.skip(1), Option::None, acc.push(item))
            } else if q == 34 && t[0] == 92 {
                if t.len() >= 2 {
                    arr_scan(t.skip(2), Option::Some((q, item + seq![t[0], t[1]])), acc)
                } else {
                    Option::None
                }
            } else {
                arr_scan(t.skip(1), Option::Some((q, item.push(t[0]))), acc)
            }
        },
        Option::None => {
            if t.len() == 0 {
                Option::None
            } else if arr_sep(t[0]) {
                arr_scan(t.skip(1), Option::None, acc)
            } else if t[0] == 93 {
                Option::Some(acc)
            } else if t[0] == 34 || t[0] == 39 {
                arr_scan(t.skip(1), Option::Some((t[0], Seq::empty())), acc)
            } else {
                Option::None
            }
        },
    }
}

/// The items of a bracketed string array, or `None` when the text is not
/// one: optional leading whitespace, `[`, then quoted items separated by
/// whitespace and commas, closed by `]`.
pub open spec fn string_array_items(v: Seq<u8>) -> Option<Seq<Seq<u8>>>
    decreases v.len(),
{
    if v.len() == 0 {
        Option::None
    } else if crate::bytes::is_ws(v[0]) || v[0] == 10 {
        string_array_items(v.skip(1))
    } else if v[0] == 91 {
        arr_scan(v.skip(1), Option::None, Seq::empty())
    } else {
        Option::None
    }
}

/// Read the byte strings of a bracketed string array, e.g.
/// `["package", "dependencies"]`. Whitespace, newlines and commas separate
/// the items; items are quoted with `"` (backslash escapes copied as
/// written) or `'`. `None` when the text is not such an array.
pub fn parse_string_array(v: &Vec<u8>) -> (r: Option<Vec<Vec<u8>>>)
    ensures
        (match string_array_items(v@) {
            Option::Some(items) => r matches Some(rv) && dv(rv@) == items,
            Option::None => r is None,
        }),
{
    let mut i: usize = 0;
    let n = v.len();
    proof {
        assert(v@.skip(0) =~= v@);
    }
    while i < n && (ws(v[i]) || v[i] == 10)
        invariant
            i <= n,
            n == v@.len(),
            string_array_items(v@) == string_array_items(v@.skip(i as int)),
        decreases n - i,
    {
        proof {
            assert(v@.skip(i as int)[0] == v@[i as int]);
            assert(v@.skip(i as int).skip(1) =~= v@.skip(i as int + 1));
        }
        i = i + 1;
    }
    if i >= n || v[i] != 91 {
        proof {
            if i < n {
                assert(v@.skip(i as int)[0] == v@[i as int]);
            }
            assert(string_array_items(v@) is None);
        }
        return Option::None;
    }
    proof {
        assert(v@.skip(i as int)[0] == v@[i as int]);
        assert(v@.skip(i as int).skip(1) =~= v@.skip(i as int + 1));
        assert(string_array_items(v@) == arr_scan(
            v@.skip(i as int + 1),
            Option::None,
            Seq::<Seq<u8>>::empty(),
        ));
    }
    i = i + 1;
    let mut out: Vec<Vec<u8>> = Vec::new();
    proof {
        assert(dv(out@) =~= Seq::<Seq<u8>>::empty());
    }
    loop
        invariant
            i <= n,
            n == v@.len(),
            string_array_items(v@) == arr_scan(v@.skip(i as int), Option::None, dv(out@)),
        decreases n - i,
    {
        if i >= n {
            // the array never closed
            return Option::None;
        }
        let b = v[i];
        proof {
            assert(v@.skip(i as int)[0] == v@[i as int]);
            assert(v@.skip(i as int).skip(1) =~= v@.skip(i as int + 1));
        }
        if ws(b) || b == 10 || b == 44 {
            i = i + 1;
        } else if b == 93 {
            proof {
                assert(string_array_items(v@) == Option::Some(dv(out@)));
            }
            return Option::Some(out);
        } else if b == 34 || b == 39 {
            let q = b;
            i = i + 1;
            let ghost iq = i as int;
            let mut item: Vec<u8> = Vec::new();
            proof {
                assert(item@ =~= Seq::<u8>::empty());
            }
            while i < n && v[i] != q
                invariant
                    iq <= i as int,
                    i <= n,
                    n == v@.len(),
                    string_array_items(v@) == arr_scan(
                        v@.skip(i as int),
                        Option::Some((q, item@)),
                        dv(out@),
                    ),
                    q == 34 || q == 39,
                decreases n - i,
            {
                proof {
                    assert(v@.skip(i as int)[0] == v@[i as int]);
                    assert(v@.skip(i as int).skip(1) =~= v@.skip(i as int + 1));
                    if i + 2 <= n {
                        assert(v@.skip(i as int).skip(2) =~= v@.skip(i as int + 2));
                    }
                }
                if q == 34 && v[i] == 92 {
                    let ghost item0 = item@;
                    let ghost t0 = v@.skip(i as int);
                    if i + 1 < n {
                        proof {
                            assert(t0[1] == v@[i as int + 1]);
                            assert(t0.len() >= 2);
                            assert(item0.push(v@[i as int]).push(v@[i as int + 1]) =~= item0
                                + seq![t0[0], t0[1]]);
                        }
                        item.push(v[i]);
                        i = i + 1;
                        item.push(v[i]);
                        i = i + 1;
                    } else {
                        // a trailing backslash never closes the item
                        proof {
                            assert(t0.len() == 1);
                            assert(string_array_items(v@) is None);
                        }
                        return Option::None;
                    }
                } else {
                    proof {
                        assert(item@.push(v@[i as int]) =~= item@.push(v@.skip(i as int)[0]));
                    }
                    item.push(v[i]);
                    i = i + 1;
                }
            }
            if i >= n {
                return Option::None;
            }
            proof {
                assert(v@.skip(i as int)[0] == v@[i as int]);
                assert(v@.skip(i as int).skip(1) =~= v@.skip(i as int + 1));
                assert(dv(out@.push(item)) =~= dv(out@).push(item@));
            }
            i = i + 1;
            out.push(item);
        } else {
            return Option::None;
        }
    }
}


/// The configuration with everything at its default, as a model.
pub open spec fn default_config_m() -> ConfigM {
    ConfigM {
        table_order: Seq::empty(),
        grouped: false,
        crlf: Option::None,
        no_format: false,
        check_format: false,
    }
}

/// What one `key = value` entry of the sidecar file does to the
/// configuration: the recognized keys set their field (booleans only from
/// the literals `true`/`false`, the table order only from a well-formed
/// string array); anything else changes nothing.
pub open spec fn cfg_apply(c: ConfigM, key: Seq<u8>, val: Seq<u8>) -> ConfigM {
    if key == ascii_bytes("table_order"@) {
        match string_array_items(val) {
            Option::Some(items) => ConfigM { table_order: items, ..c },
            Option::None => c,
        }
    } else if key == ascii_bytes("grouped"@) {
        if val == ascii_bytes("true"@) {
            ConfigM { grouped: true, ..c }
        } else if val == ascii_bytes("false"@) {
            ConfigM { grouped: false, ..c }
        } else {
            c
        }
    } else if key == ascii_bytes("crlf"@) {
        if val == ascii_bytes("true"@) {
            ConfigM { crlf: Option::Some(true), ..c }
        } else if val == ascii_bytes("false"@) {
            ConfigM { crlf: Option::Some(false), ..c }
        } else {
            c
        }
    } else if key == ascii_bytes("no_format"@) {
        if val == ascii_bytes("true"@) {
            ConfigM { no_format: true, ..c }
        } else if val == ascii_bytes("false"@) {
            ConfigM { no_format: false, ..c }
        } else {
            c
        }
    } else if key == ascii_bytes("check_format"@) {
        if val == ascii_bytes("true"@) {
            ConfigM { check_format: true, ..c }
        } else if val == ascii_bytes("false"@) {
            ConfigM { check_format: false, ..c }
        } else {
            c
        }
    } else {
        c
    }
}

/// The configuration read from a run of entries, first to last; a later
/// entry with the same key wins.
pub open spec fn cfg_fold(es: Seq<EntryM>, c: ConfigM) -> ConfigM
    decreases es.len(),
{
    if es.len() == 0 {
        c
    } else {
        cfg_apply(cfg_fold(es.drop_last(), c), es.last().key, es.last().val)
    }
}

/// What a successful `parse_config` means: the text parses to a well-formed
/// document, and the result is the fold of that document's top-level
/// entries over the defaults.
pub open spec fn config_post(d: DocM, text: Seq<u8>, c: ConfigM) -> bool {
    &&& doc_text(d) == text
    &&& doc_wf(d)
    &&& c == cfg_fold(d.root.entries, default_config_m())
}

/// Read a `Config` from the text of a sidecar configuration file: a flat
/// document whose recognized keys are `table_order` (a string array) and
/// the booleans `grouped`, `crlf`, `no_format` and `check_format`.
/// Unrecognized keys are ignored; a malformed document is rejected.
pub fn parse_config(text: &Vec<u8>) -> (r: Result<Config, ParseError>)
    ensures
        r matches Ok(c) ==> exists|d: DocM| #[trigger] config_post(d, text@, c@),
{
    let doc: Document = match parse(text) {
        Ok(d) => d,
        Err(e) => {
            return Err(e);
        },
    };
    let ghost dm = doc@;
    let ghost es = dm.root.entries;
    proof {
        reveal_strlit("table_order");
        reveal_strlit("grouped");
        reveal_strlit("crlf");
        reveal_strlit("no_format");
        reveal_strlit("check_format");
        reveal_strlit("true");
        reveal_strlit("false");
    }
    let mut c = default_config();
    let key_order = name_bytes("table_order");
    let key_grouped = name_bytes("grouped");
    let key_crlf = name_bytes("crlf");
    let key_no_format = name_bytes("no_format");
    let key_check_format = name_bytes("check_format");
    let lit_true = name_bytes("true");
    let lit_false = name_bytes("false");
    let mut i: usize = 0;
    proof {
        assert(c@.table_order =~= Seq::<Seq<u8>>::empty());
        assert(c@ == cfg_fold(es.take(0), default_config_m()));
    }
    while i < doc.root.entries.len()
        invariant
            i <= doc.root.entries@.len(),
            es == doc@.root.entries,
            es.len() == doc.root.entries@.len(),
            key_order@ == ascii_bytes("table_order"@),
            key_grouped@ == ascii_bytes("grouped"@),
            key_crlf@ == ascii_bytes("crlf"@),
            key_no_format@ == ascii_bytes("no_format"@),
            key_check_format@ == ascii_bytes("check_format"@),
            lit_true@ == ascii_bytes("true"@),
            lit_false@ == ascii_bytes("false"@),
            c@ == cfg_fold(es.take(i as int), default_config_m()),
        decreases doc.root.entries@.len() - i,
    {
        let ghost c0 = c@;
        let e = &doc.root.entries[i];
        proof {
            crate::sort::lemma_ems_index(doc.root.entries@);
            assert(es[i as int] == doc.root.entries@[i as int]@);
            assert(e@.key == es[i as int].key);
            assert(e@.val == es[i as int].val);
            assert(es.take(i + 1).drop_last() =~= es.take(i as int));
            assert(es.take(i + 1).last() == es[i as int]);
        }
        if bytes_eq(&e.key, &key_order) {
            match parse_string_array(&e.val) {
                Option::Some(items) => {
                    c.table_order = items;
                },
                Option::None => {},
            }
        } else if bytes_eq(&e.key, &key_grouped) {
            if bytes_eq(&e.val, &lit_true) {
                c.grouped = true;
            } else if bytes_eq(&e.val, &lit_false) {
                c.grouped = false;
            }
        } else if bytes_eq(&e.key, &key_crlf) {
            if bytes_eq(&e.val, &lit_true) {
                c.crlf = Option::Some(true);
            } else if bytes_eq(&e.val, &lit_false) {
                c.crlf = Option::Some(false);
            }
        } else if bytes_eq(&e.key, &key_no_format) {
            if bytes_eq(&e.val, &lit_true) {
                c.no_format = true;
            } else if bytes_eq(&e.val, &lit_false) {
                c.no_format = false;
            }
        } else if bytes_eq(&e.key, &key_check_format) {
            if bytes_eq(&e.val, &lit_true) {
                c.check_format = true;
            } else if bytes_eq(&e.val, &lit_false) {
                c.check_format = false;
            }
        }
        proof {
            assert(c@ == cfg_apply(c0, es[i as int].key, es[i as int].val));
            assert(c@ == cfg_fold(es.take(i + 1), default_config_m()));
        }
        i = i + 1;
    }
    proof {
        assert(es.take(es.len() as int) =~= es);
        assert(config_post(dm, text@, c@));
    }
    Ok(c)
}

} // verus!
