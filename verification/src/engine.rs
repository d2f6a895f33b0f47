use vstd::prelude::*;

use crate::bytes::bytes_eq;
use crate::config::{Config, ConfigM};
use crate::eol::{apply_eol, detect_crlf, eol_norm, has_crlf, lemma_eol_norm_uses, uses_crlf};
use crate::fmt::{fmt_doc, fmt_doc_spec};
use crate::matcher::{Matcher, MatcherM};
use crate::model::{doc_text, doc_wf, serialize, DocM};
use crate::parse::parse;
use crate::scan::ParseError;
use crate::sort::{sort_doc, sort_doc_spec};

verus! {

/// What the engine hands back: the rewritten text and the two oracle
/// verdicts that drive check mode.
pub struct Transformed {
    pub final_text: Vec<u8>,
    pub already_sorted: bool,
    pub already_formatted: bool,
}

/// The line-ending convention in force: the configured one, or, when the
/// configuration leaves it open, the one detected in the input.
pub open spec fn crlf_effective(c: ConfigM, text: Seq<u8>) -> bool {
    match c.crlf {
        Option::Some(b) => b,
        Option::None => has_crlf(text),
    }
}

/// What `transform` guarantees, stated over the parsed document `d`:
/// `d` stands for the input byte for byte and is well formed; state
/// `already_sorted` says whether the sorted document re-serializes to the
/// input unchanged (formatting plays no part in it); the final text is the
/// sorted document's text — formatted and with line endings normalized
/// unless formatting is switched off — and `already_formatted` compares
/// the sorted document's plain serialization against that final text, so
/// a difference in line-ending convention counts as a formatting change.
pub open spec fn transform_post(
    d: DocM,
    text: Seq<u8>,
    m: MatcherM,
    c: ConfigM,
    ft: Seq<u8>,
    srt: bool,
    fmtd: bool,
) -> bool {
    let sorted = sort_doc_spec(d, m, c.grouped, c.table_order);
    let eol = crlf_effective(c, text);
    &&& doc_text(d) == text
    &&& doc_wf(d)
    &&& srt == (doc_text(sorted) == text)
    &&& if c.no_format {
        ft == doc_text(sorted) && fmtd == true
    } else {
        ft == eol_norm(doc_text(fmt_doc_spec(sorted)), eol) && fmtd == (doc_text(sorted) == eol_norm(
            doc_text(fmt_doc_spec(sorted)),
            eol,
        ))
    }
}

/// Check-mode independence: when the sorted document re-serializes to the
/// input (the document was already sorted) but the format engine would
/// still change its text, the verdicts are exactly `already_sorted` and
/// `not already_formatted` — a formatting-only difference never registers
/// as an unsorted document.
pub proof fn lemma_check_mode_independent(
    d: DocM,
    text: Seq<u8>,
    m: MatcherM,
    c: ConfigM,
    ft: Seq<u8>,
    srt: bool,
    fmtd: bool,
)
    requires
        transform_post(d, text, m, c, ft, srt, fmtd),
        !c.no_format,
        doc_text(sort_doc_spec(d, m, c.grouped, c.table_order)) == text,
        doc_text(sort_doc_spec(d, m, c.grouped, c.table_order)) != eol_norm(
            doc_text(fmt_doc_spec(sort_doc_spec(d, m, c.grouped, c.table_order))),
            crlf_effective(c, text),
        ),
    ensures
        srt == true,
        fmtd == false,
{
}

/// Some parsed document stands behind the result: `transform_post` holds
/// of it.
pub open spec fn transform_ok_post(
    text: Seq<u8>,
    m: MatcherM,
    c: ConfigM,
    ft: Seq<u8>,
    srt: bool,
    fmtd: bool,
) -> bool {
    exists|d: DocM| #[trigger] transform_post(d, text, m, c, ft, srt, fmtd)
}

/// The whole engine: parse, sort, format, and compare. On success the
/// result satisfies `transform_post` for the parsed document, and when
/// formatting is on and the effective convention is `\r\n`, the final text
/// uses `\r\n` line endings throughout.
pub fn transform(text: &Vec<u8>, m: &Matcher, cfg: &Config) -> (r: Result<Transformed, ParseError>)
    ensures
        r matches Ok(t) ==> transform_ok_post(
            text@,
            m@,
            cfg@,
            t.final_text@,
            t.already_sorted,
            t.already_formatted,
        ),
        !cfg@.no_format && crlf_effective(cfg@, text@) ==> (r matches Ok(t) ==> uses_crlf(
            t.final_text@,
        )),
{
    let doc = match parse(text) {
        Ok(d) => d,
        Err(e) => {
            return Err(e);
        },
    };
    let ghost dm = doc@;
    let eol = match cfg.crlf {
        Option::Some(b) => b,
        Option::None => detect_crlf(text),
    };
    let sorted = sort_doc(doc, m, cfg.grouped, &cfg.table_order);
    let sorted_text = serialize(&sorted);
    let already_sorted = bytes_eq(&sorted_text, text);
    if cfg.no_format {
        let t = Transformed { final_text: sorted_text, already_sorted, already_formatted: true };
        proof {
            assert(transform_post(
                dm,
                text@,
                m@,
                cfg@,
                t.final_text@,
                t.already_sorted,
                t.already_formatted,
            ));
            assert(transform_ok_post(
                text@,
                m@,
                cfg@,
                t.final_text@,
                t.already_sorted,
                t.already_formatted,
            ));
        }
        return Ok(t);
    }
    let mut fdoc = sorted;
    fmt_doc(&mut fdoc);
    let fmt_text = serialize(&fdoc);
    let ftext = apply_eol(&fmt_text, eol);
    let already_formatted = bytes_eq(&sorted_text, &ftext);
    let t = Transformed { final_text: ftext, already_sorted, already_formatted };
    proof {
        assert(transform_post(
            dm,
            text@,
            m@,
            cfg@,
            t.final_text@,
            t.already_sorted,
            t.already_formatted,
        ));
        assert(transform_ok_post(
            text@,
            m@,
            cfg@,
            t.final_text@,
            t.already_sorted,
            t.already_formatted,
        ));
        if eol {
            lemma_eol_norm_uses(fmt_text@);
        }
    }
    Ok(t)
}

} // verus!
