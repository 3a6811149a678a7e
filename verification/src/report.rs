//! Report assembly: the two-phase build over the lines of the stream.
//!
//! Phase one walks the input lines, resolves each one's styling,
//! classifies it, tracks the kind of the current item, and gathers the
//! rows of error items and the rows of warning items in two buffers;
//! rows read before any item or inside a summary section are
//! discarded.  Phase two concatenates
//! the error rows before the warning rows and assigns one-based item
//! indices, incrementing at each title row.

use crate::classify::{classify_styled, spec_classify, strip_style, stripped};
use crate::decode::{all_valid, byte_lines, decode_all, decode_err_lines};
use crate::line::{is_title, line_views, DecodeError, Kind, Line, LineType, LineV};
use crate::order::{by_idx, sort_desc, sorted_desc};
use vstd::prelude::*;

verus! {

/// Counts over the rows of a finished report.
#[derive(Clone, Copy, Debug, PartialEq, Eq, Structural)]
pub struct Stats {
    /// Number of error items.
    pub errors: usize,
    /// Number of warning items.
    pub warnings: usize,
}

/// The usable content of the watch tool's output, lightly analyzed.
#[derive(Debug)]
pub struct Report {
    /// The rows, in error-first merged order.
    pub lines: Vec<Line>,
    /// Counts over the rows.
    pub stats: Stats,
}

/// The state machine of phase one: the kind of the current item, or
/// `None` before any item and inside a summary section.
pub open spec fn next_state(cur: Option<Kind>, t: LineType) -> Option<Kind> {
    match t {
        LineType::Title(Kind::Sum) => None,
        LineType::Title(k) => Some(k),
        LineType::Continuation => cur,
    }
}

/// The model of a row as phase one forms it from one raw input line:
/// index still unassigned, content the style-resolved text.
pub open spec fn raw_line(line: Seq<char>) -> LineV {
    LineV { item_idx: 0, line_type: spec_classify(line), content: stripped(line) }
}

/// Phase one: the error rows and the warning rows gathered from
/// `inputs`, entered in state `cur`.
pub open spec fn split_from(cur: Option<Kind>, inputs: Seq<Seq<char>>) -> (Seq<LineV>, Seq<LineV>)
    decreases inputs.len(),
{
    if inputs.len() == 0 {
        (Seq::<LineV>::empty(), Seq::<LineV>::empty())
    } else {
        let l = raw_line(inputs[0]);
        let st = next_state(cur, l.line_type);
        let rest = split_from(st, inputs.drop_first());
        match st {
            Some(Kind::Error) => (seq![l] + rest.0, rest.1),
            Some(Kind::Warning) => (rest.0, seq![l] + rest.1),
            _ => rest,
        }
    }
}

/// The row `l` carrying item index `idx`.
pub open spec fn with_idx(l: LineV, idx: nat) -> LineV {
    LineV { item_idx: idx, line_type: l.line_type, content: l.content }
}

/// Phase two: assign item indices, starting the counter at `idx` and
/// incrementing it at each title row.
pub open spec fn assign_from(idx: nat, s: Seq<LineV>) -> Seq<LineV>
    decreases s.len(),
{
    if s.len() == 0 {
        Seq::<LineV>::empty()
    } else {
        let nidx = if is_title(s[0].line_type) {
            idx + 1
        } else {
            idx
        };
        seq![with_idx(s[0], nidx)] + assign_from(nidx, s.drop_first())
    }
}

/// The finished rows of the report built from `inputs`.
pub open spec fn report_lines(inputs: Seq<Seq<char>>) -> Seq<LineV> {
    let buffers = split_from(None, inputs);
    assign_from(0, buffers.0 + buffers.1)
}

/// Number of title rows of kind `k` among `s`.
pub open spec fn count_kind(s: Seq<LineV>, k: Kind) -> nat
    decreases s.len(),
{
    if s.len() == 0 {
        0
    } else {
        count_kind(s.drop_last(), k) + if s.last().line_type == LineType::Title(k) {
            1nat
        } else {
            0nat
        }
    }
}

/// Whether `st` holds the counts of `s`.
pub open spec fn stats_match(st: Stats, s: Seq<LineV>) -> bool {
    st.errors as nat == count_kind(s, Kind::Error) && st.warnings as nat == count_kind(
        s,
        Kind::Warning,
    )
}

impl Stats {
    /// Count the error titles and the warning titles among the rows.
    pub fn of_lines(lines: &Vec<Line>) -> (st: Stats)
        ensures
            stats_match(st, line_views(lines@)),
    {
        let ghost lv = line_views(lines@);
        let mut errors: usize = 0;
        let mut warnings: usize = 0;
        let mut i: usize = 0;
        proof {
            assert(lv.take(0) =~= Seq::<LineV>::empty());
        }
        while i < lines.len()
            invariant
                0 <= i <= lv.len(),
                lv == line_views(lines@),
                lv.len() == lines@.len(),
                errors <= i,
                warnings <= i,
                errors as nat == count_kind(lv.take(i as int), Kind::Error),
                warnings as nat == count_kind(lv.take(i as int), Kind::Warning),
            decreases lv.len() - i,
        {
            proof {
                assert(lv.take(i as int + 1).drop_last() =~= lv.take(i as int));
                assert(lv.take(i as int + 1).last() == lv[i as int]);
            }
            match lines[i].line_type {
                LineType::Title(Kind::Error) => {
                    errors = errors + 1;
                },
                LineType::Title(Kind::Warning) => {
                    warnings = warnings + 1;
                },
                _ => {},
            }
            i += 1;
        }
        proof {
            assert(lv.take(i as int) =~= lv);
        }
        Stats { errors, warnings }
    }
}

impl Report {
    /// Compute the report from the captured bytes of the stream.
    ///
    /// The build fails exactly when some line of the bytes is not
    /// valid text; otherwise the report is the one built from the
    /// decoded lines.
    pub fn from_bytes(stderr: &[u8]) -> (r: Result<Report, DecodeError>)
        ensures
            r is Ok <==> all_valid(byte_lines(stderr@)),
            r matches Ok(rep) ==> line_views(rep.lines@) == report_lines(
                decode_all(byte_lines(stderr@)),
            ) && stats_match(rep.stats, report_lines(decode_all(byte_lines(stderr@)))),
    {
        let lines = match decode_err_lines(stderr) {
            Ok(lines) => lines,
            Err(e) => {
                return Err(e);
            },
        };
        Self::from_err_lines(lines)
    }

    /// Change the order of the rows so that the items come in reverse
    /// index order, keeping the order of the rows of a given item.
    pub fn reverse(&mut self)
        ensures
            final(self).stats == old(self).stats,
            final(self).lines@.len() == old(self).lines@.len(),
            sorted_desc(line_views(final(self).lines@)),
            forall|k: nat| #[trigger] by_idx(line_views(final(self).lines@), k) == by_idx(
                line_views(old(self).lines@),
                k,
            ),
    {
        sort_desc(&mut self.lines);
    }

    /// Compute the report from the lines of the captured stream.
    ///
    /// The build never fails at this level: decoding already happened.
    /// The rows of the result are exactly the merged, indexed rows that
    /// the two phases describe, and the stats count its titles.
    pub fn from_err_lines(err_lines: Vec<String>) -> (r: Result<Report, DecodeError>)
        ensures
            r matches Ok(rep) && line_views(rep.lines@) == report_lines(err_lines.deep_view())
                && stats_match(rep.stats, report_lines(err_lines.deep_view())),
    {
        let ghost ivs = err_lines.deep_view();
        let mut errors: Vec<Line> = Vec::new();
        let mut warnings: Vec<Line> = Vec::new();
        let mut cur: Option<Kind> = None;
        let mut i: usize = 0;
        proof {
            assert(ivs.subrange(0, ivs.len() as int) =~= ivs);
            assert(line_views(errors@) =~= Seq::<LineV>::empty());
            assert(line_views(warnings@) =~= Seq::<LineV>::empty());
            assert(line_views(errors@) + split_from(cur, ivs).0 =~= split_from(None, ivs).0);
            assert(line_views(warnings@) + split_from(cur, ivs).1 =~= split_from(None, ivs).1);
        }
        while i < err_lines.len()
            invariant
                0 <= i <= ivs.len(),
                ivs == err_lines.deep_view(),
                ivs.len() == err_lines@.len(),
                split_from(None, ivs).0 == line_views(errors@) + split_from(
                    cur,
                    ivs.subrange(i as int, ivs.len() as int),
                ).0,
                split_from(None, ivs).1 == line_views(warnings@) + split_from(
                    cur,
                    ivs.subrange(i as int, ivs.len() as int),
                ).1,
            decreases ivs.len() - i,
        {
            let ghost suf = ivs.subrange(i as int, ivs.len() as int);
            let ghost old_cur = cur;
            let ghost old_errors = errors@;
            let ghost old_warnings = warnings@;
            let styled = strip_style(err_lines[i].as_str());
            let t = classify_styled(styled.as_str());
            proof {
                assert(styled@ == stripped(ivs[i as int]));
                assert(suf[0] == ivs[i as int]);
                assert(suf.drop_first() =~= ivs.subrange(i as int + 1, ivs.len() as int));
                assert(raw_line(suf[0]).line_type == t);
            }
            match t {
                LineType::Title(Kind::Sum) => {
                    cur = None;
                },
                LineType::Title(k) => {
                    cur = Some(k);
                },
                _ => {},
            }
            let line = Line { item_idx: 0, line_type: t, content: styled };
            proof {
                assert(cur == next_state(old_cur, raw_line(suf[0]).line_type));
                assert(line@ == raw_line(ivs[i as int]));
            }
            match cur {
                Some(Kind::Warning) => warnings.push(line),
                Some(Kind::Error) => errors.push(line),
                _ => {},
            }
            proof {
                let rest = split_from(cur, suf.drop_first());
                assert(split_from(old_cur, suf) == match cur {
                    Some(Kind::Error) => (seq![raw_line(suf[0])] + rest.0, rest.1),
                    Some(Kind::Warning) => (rest.0, seq![raw_line(suf[0])] + rest.1),
                    _ => rest,
                });
                match cur {
                    Some(Kind::Error) => {
                        assert(line_views(errors@) =~= line_views(old_errors).push(line@));
                        assert(line_views(old_errors) + (seq![raw_line(suf[0])] + rest.0)
                            =~= line_views(errors@) + rest.0);
                    },
                    Some(Kind::Warning) => {
                        assert(line_views(warnings@) =~= line_views(old_warnings).push(line@));
                        assert(line_views(old_warnings) + (seq![raw_line(suf[0])] + rest.1)
                            =~= line_views(warnings@) + rest.1);
                    },
                    _ => {},
                }
            }
            i += 1;
        }
        let ghost buffers = split_from(None, ivs);
        proof {
            assert(ivs.subrange(i as int, ivs.len() as int) =~= Seq::<Seq<char>>::empty());
            assert(buffers.0 =~= line_views(errors@));
            assert(buffers.1 =~= line_views(warnings@));
        }
        // Merge: errors first, then the warnings.
        let mut merged = errors;
        let mut j: usize = 0;
        proof {
            assert(warnings@.take(0) =~= Seq::<Line>::empty());
            assert(line_views(merged@) =~= buffers.0 + line_views(warnings@.take(0)));
        }
        while j < warnings.len()
            invariant
                0 <= j <= warnings@.len(),
                buffers.1 == line_views(warnings@),
                line_views(merged@) == buffers.0 + line_views(warnings@.take(j as int)),
            decreases warnings@.len() - j,
        {
            let w = &warnings[j];
            let l = Line { item_idx: w.item_idx, line_type: w.line_type, content: w.content.clone() };
            proof {
                assert(l@ == warnings@[j as int]@);
            }
            let ghost old_merged = merged@;
            merged.push(l);
            proof {
                assert(line_views(merged@) =~= line_views(old_merged).push(l@));
                assert(line_views(warnings@.take(j as int + 1)) =~= line_views(
                    warnings@.take(j as int),
                ).push(l@));
                assert((buffers.0 + line_views(warnings@.take(j as int))).push(l@)
                    =~= buffers.0 + line_views(warnings@.take(j as int)).push(l@));
            }
            j += 1;
        }
        let ghost mv = buffers.0 + buffers.1;
        proof {
            assert(warnings@.take(j as int) =~= warnings@);
            assert(line_views(merged@) == mv);
        }
        // Assign the item indices.
        let mut lines: Vec<Line> = Vec::new();
        let mut item_idx: usize = 0;
        let mut m: usize = 0;
        proof {
            assert(mv.subrange(0, mv.len() as int) =~= mv);
            assert(line_views(lines@) =~= Seq::<LineV>::empty());
            assert(line_views(lines@) + assign_from(0, mv) =~= assign_from(0, mv));
        }
        while m < merged.len()
            invariant
                0 <= m <= merged@.len(),
                line_views(merged@) == mv,
                mv.len() == merged@.len(),
                item_idx <= m,
                assign_from(0, mv) == line_views(lines@) + assign_from(
                    item_idx as nat,
                    mv.subrange(m as int, mv.len() as int),
                ),
            decreases merged@.len() - m,
        {
            let ghost suf = mv.subrange(m as int, mv.len() as int);
            let ghost old_lines = lines@;
            let ghost old_idx = item_idx as nat;
            proof {
                assert(suf[0] == mv[m as int]);
                assert(mv[m as int] == merged@[m as int]@);
                assert(suf.drop_first() =~= mv.subrange(m as int + 1, mv.len() as int));
            }
            let lm = &merged[m];
            if matches!(lm.line_type, LineType::Title(_)) {
                item_idx = item_idx + 1;
            }
            let nl = Line { item_idx, line_type: lm.line_type, content: lm.content.clone() };
            proof {
                assert(nl@ == with_idx(mv[m as int], item_idx as nat));
            }
            lines.push(nl);
            proof {
                assert(assign_from(old_idx, suf) == seq![with_idx(suf[0], item_idx as nat)]
                    + assign_from(item_idx as nat, suf.drop_first()));
                assert(line_views(lines@) =~= line_views(old_lines).push(nl@));
                assert(line_views(old_lines) + assign_from(old_idx, suf) =~= line_views(lines@)
                    + assign_from(item_idx as nat, suf.drop_first()));
            }
            m += 1;
        }
        proof {
            assert(mv.subrange(m as int, mv.len() as int) =~= Seq::<LineV>::empty());
            assert(line_views(lines@) + assign_from(item_idx as nat, Seq::<LineV>::empty())
                =~= line_views(lines@));
            assert(line_views(lines@) == report_lines(ivs));
        }
        let stats = Stats::of_lines(&lines);
        Ok(Report { lines, stats })
    }
}

} // verus!
