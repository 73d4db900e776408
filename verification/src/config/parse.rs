pub mod document;
pub mod error;
pub mod line;

use vstd::prelude::*;

use crate::config::parse::document::{
    doc_errs, doc_templates, errs_view, lemma_errs_view_push, lemma_lines_v_push, lines_v,
};
use crate::config::parse::error::{ParseError, ParseErrorV};
use crate::config::parse::line::{classify_spec, ConfigLine, LineErrorKind, LineV};
use crate::config::Config;

verus! {

/// The classification errors of the raw lines `lines[i..]`: one record per
/// line that could not be read at all (`None`) or broke the line grammar.
pub open spec fn line_errs(lines: Seq<Option<String>>, i: int) -> Seq<ParseErrorV>
    decreases lines.len() - i,
{
    if i < 0 || i >= lines.len() {
        Seq::empty()
    } else {
        let head: Seq<ParseErrorV> = match lines[i] {
            None => seq![
                (ParseErrorV { line_number: i, line: Seq::empty(), kind: LineErrorKind::IO }),
            ],
            Some(s) => match classify_spec(s@) {
                Ok(_) => Seq::empty(),
                Err(k) => seq![(ParseErrorV { line_number: i, line: s@, kind: k })],
            },
        };
        head + line_errs(lines, i + 1)
    }
}

/// The classified records of the raw lines `lines[i..]` that pass the line
/// grammar, in order.
pub open spec fn good_lines(lines: Seq<Option<String>>, i: int) -> Seq<LineV>
    decreases lines.len() - i,
{
    if i < 0 || i >= lines.len() {
        Seq::empty()
    } else {
        let rest = good_lines(lines, i + 1);
        match lines[i] {
            None => rest,
            Some(s) => match classify_spec(s@) {
                Ok(lv) => seq![lv] + rest,
                Err(_) => rest,
            },
        }
    }
}

/// Read a whole template document, given one entry per line of the source:
/// the line's text, or nothing where reading it failed. Classification errors
/// are all reported first; a document whose every line classifies is then
/// assembled, and its structural errors, if any, are reported together.
pub fn from_buf_reader(lines: Vec<Option<String>>) -> (r: Result<Config, Vec<ParseError>>)
    requires
        lines@.len() <= u32::MAX,
        forall|i: int|
            0 <= i < lines@.len() ==> match #[trigger] lines@[i] {
                Some(s) => s@.len() <= u32::MAX,
                None => true,
            },
    ensures
        ({
            let raw = lines@;
            if line_errs(raw, 0).len() > 0 {
                r matches Err(es) && errs_view(es@) == line_errs(raw, 0)
            } else {
                let gs = good_lines(raw, 0);
                match r {
                    Ok(c) => doc_errs(gs).len() == 0 && c@.templates == doc_templates(gs)
                        && c@.favorite is None && forall|t: int|
                        0 <= t < c@.templates.len() ==> crate::config::nodes_wf(
                            #[trigger] c@.templates[t].structure,
                        ),
                    Err(es) => errs_view(es@) == doc_errs(gs) && es@.len() > 0,
                }
            }
        }),
{
    let ghost raw = lines@;
    let n = lines.len();
    let mut goods: Vec<ConfigLine> = Vec::new();
    let mut errs: Vec<ParseError> = Vec::new();
    proof {
        assert(lines_v(goods@) + good_lines(raw, 0) =~= good_lines(raw, 0));
        assert(errs_view(errs@) + line_errs(raw, 0) =~= line_errs(raw, 0));
    }
    let mut i: usize = 0;
    while i < n
        invariant
            i <= n,
            n == lines.len(),
            raw == lines@,
            raw.len() <= u32::MAX,
            forall|t: int|
                0 <= t < raw.len() ==> match #[trigger] raw[t] {
                    Some(s) => s@.len() <= u32::MAX,
                    None => true,
                },
            goods@.len() <= i,
            lines_v(goods@) + good_lines(raw, i as int) =~= good_lines(raw, 0),
            errs_view(errs@) + line_errs(raw, i as int) =~= line_errs(raw, 0),
        decreases n - i,
    {
        let ghost goods0 = goods@;
        let ghost errs0 = errs@;
        match &lines[i] {
            None => {
                let e = ParseError {
                    line_number: i as u32,
                    line: String::new(),
                    kind: LineErrorKind::IO,
                };
                let ghost eg = e;
                errs.push(e);
                proof {
                    lemma_errs_view_push(errs0, eg);
                    assert(errs_view(errs@) =~= errs_view(errs0) + seq![
                        (ParseErrorV {
                            line_number: i as int,
                            line: Seq::empty(),
                            kind: LineErrorKind::IO,
                        }),
                    ]);
                    assert(errs_view(errs@) + line_errs(raw, i as int + 1) =~= errs_view(errs0)
                        + line_errs(raw, i as int));
                }
            },
            Some(s) => {
                match ConfigLine::classify(s.as_str()) {
                    Ok(cl) => {
                        let ghost clg = cl;
                        goods.push(cl);
                        proof {
                            lemma_lines_v_push(goods0, clg);
                            assert(lines_v(goods@) =~= lines_v(goods0) + seq![clg@]);
                            assert(lines_v(goods@) + good_lines(raw, i as int + 1) =~= lines_v(
                                goods0,
                            ) + good_lines(raw, i as int));
                            assert(line_errs(raw, i as int) == line_errs(raw, i as int + 1));
                        }
                    },
                    Err(k) => {
                        let e = ParseError { line_number: i as u32, line: s.clone(), kind: k };
                        let ghost eg = e;
                        errs.push(e);
                        proof {
                            lemma_errs_view_push(errs0, eg);
                            assert(errs_view(errs@) =~= errs_view(errs0) + seq![
                                (ParseErrorV { line_number: i as int, line: s@, kind: k }),
                            ]);
                            assert(errs_view(errs@) + line_errs(raw, i as int + 1) =~= errs_view(
                                errs0,
                            ) + line_errs(raw, i as int));
                            assert(good_lines(raw, i as int) == good_lines(raw, i as int + 1));
                        }
                    },
                }
            },
        }
        i += 1;
    }
    proof {
        assert(good_lines(raw, n as int) =~= Seq::<LineV>::empty());
        assert(line_errs(raw, n as int) =~= Seq::<ParseErrorV>::empty());
        assert(lines_v(goods@) =~= lines_v(goods@) + good_lines(raw, n as int));
        assert(errs_view(errs@) =~= errs_view(errs@) + line_errs(raw, n as int));
    }
    if errs.len() > 0 {
        return Err(errs);
    }
    proof {
        assert(line_errs(raw, 0).len() == 0);
        assert(lines_v(goods@) == good_lines(raw, 0));
    }
    document::parse(goods)
}

} // verus!
