//! The laws of the report builder, stated and proved once for every
//! input.

use crate::classify::{spec_classify, stripped};
use crate::line::{is_title, Kind, LineType, LineV};
use crate::report::{assign_from, next_state, raw_line, report_lines, split_from, with_idx};
use vstd::prelude::*;

verus! {

/// Row `i` of `r` steps the index of the row before it: by one at a
/// title, not at all otherwise.
pub open spec fn step_at(r: Seq<LineV>, i: int) -> bool {
    r[i].item_idx == r[i - 1].item_idx + (if is_title(r[i].line_type) {
        1nat
    } else {
        0nat
    })
}

/// The indices of `r` follow the counter discipline: the first row
/// carries one and is a title, and each later row steps the index of
/// the row before it by one at a title and keeps it otherwise.
pub open spec fn step_indexed(r: Seq<LineV>) -> bool {
    &&& r.len() > 0 ==> is_title(r[0].line_type) && r[0].item_idx == 1
    &&& forall|i: int| 1 <= i < r.len() ==> #[trigger] step_at(r, i)
}

/// Rows sharing one item index form one contiguous run.
pub open spec fn contiguous_runs(r: Seq<LineV>) -> bool {
    forall|i: int, m: int, j: int|
        0 <= i <= m <= j < r.len() && (#[trigger] r[i]).item_idx == (#[trigger] r[j]).item_idx
            ==> (#[trigger] r[m]).item_idx == r[i].item_idx
}

/// Row `i` opens a new run: it is the first row, or its index differs
/// from the row before it.
pub open spec fn starts_run(r: Seq<LineV>, i: int) -> bool {
    i == 0 || r[i - 1].item_idx != r[i].item_idx
}

/// A row is a title exactly when it starts a new run, so each run
/// holds exactly one title and it comes first.
pub open spec fn titles_start_runs(r: Seq<LineV>) -> bool {
    forall|i: int|
        0 <= i < r.len() ==> (is_title(r[i].line_type) <==> #[trigger] starts_run(r, i))
}

/// Every row belongs to an item: no index zero is left.
pub open spec fn all_indexed(r: Seq<LineV>) -> bool {
    forall|i: int| 0 <= i < r.len() ==> (#[trigger] r[i]).item_idx >= 1
}

/// Number of title rows among `s`.
pub open spec fn title_count(s: Seq<LineV>) -> nat
    decreases s.len(),
{
    if s.len() == 0 {
        0
    } else {
        (if is_title(s[0].line_type) {
            1nat
        } else {
            0nat
        }) + title_count(s.drop_first())
    }
}

/// The title count grows by the last row's contribution.
proof fn lemma_title_count_push(s: Seq<LineV>, x: LineV)
    ensures
        title_count(s.push(x)) == title_count(s) + (if is_title(x.line_type) {
            1nat
        } else {
            0nat
        }),
    decreases s.len(),
{
    assert(title_count(Seq::<LineV>::empty()) == 0);
    if s.len() == 0 {
        assert(s.push(x)[0] == x);
        assert(s.push(x).drop_first() =~= Seq::<LineV>::empty());
    } else {
        assert(s.push(x)[0] == s[0]);
        assert(s.push(x).drop_first() =~= s.drop_first().push(x));
        lemma_title_count_push(s.drop_first(), x);
    }
}

/// Index assignment keeps the lengths.
proof fn lemma_assign_len(idx: nat, s: Seq<LineV>)
    ensures
        assign_from(idx, s).len() == s.len(),
    decreases s.len(),
{
    if s.len() > 0 {
        let nidx = if is_title(s[0].line_type) {
            idx + 1
        } else {
            idx
        };
        lemma_assign_len(nidx, s.drop_first());
    }
}

/// One row of an assigned sequence: type and content in place, the
/// index the counter's start plus the titles seen so far.
proof fn lemma_assign_at(idx: nat, s: Seq<LineV>, i: int)
    requires
        0 <= i < s.len(),
    ensures
        assign_from(idx, s).len() == s.len(),
        assign_from(idx, s)[i].line_type == s[i].line_type,
        assign_from(idx, s)[i].content == s[i].content,
        assign_from(idx, s)[i].item_idx == idx + title_count(s.take(i + 1)),
    decreases i,
{
    lemma_assign_len(idx, s);
    let nidx = if is_title(s[0].line_type) {
        idx + 1
    } else {
        idx
    };
    let rest = s.drop_first();
    let r = assign_from(idx, s);
    assert(r == seq![with_idx(s[0], nidx)] + assign_from(nidx, rest));
    if i == 0 {
        assert(r[0] == with_idx(s[0], nidx));
        assert(s.take(1)[0] == s[0]);
        assert(s.take(1).drop_first() =~= Seq::<LineV>::empty());
        assert(title_count(Seq::<LineV>::empty()) == 0);
        assert(title_count(s.take(1)) == if is_title(s[0].line_type) {
            1nat
        } else {
            0nat
        });
    } else {
        lemma_assign_at(nidx, rest, i - 1);
        assert(r[i] == assign_from(nidx, rest)[i - 1]);
        assert(rest[i - 1] == s[i]);
        assert(s.take(i + 1)[0] == s[0]);
        assert(s.take(i + 1).drop_first() =~= rest.take(i));
        assert(title_count(s.take(i + 1)) == (if is_title(s[0].line_type) {
            1nat
        } else {
            0nat
        }) + title_count(rest.take(i)));
    }
}

/// Phase one emits well-formed buffers: every title row in the error
/// buffer is an error title, and unless the walk already stands inside
/// an error item the buffer opens with one; symmetrically for the
/// warning buffer.
proof fn lemma_split_titles(cur: Option<Kind>, inputs: Seq<Seq<char>>)
    ensures
        forall|i: int|
            0 <= i < split_from(cur, inputs).0.len() && is_title(
                (#[trigger] split_from(cur, inputs).0[i]).line_type,
            ) ==> split_from(cur, inputs).0[i].line_type == LineType::Title(Kind::Error),
        forall|i: int|
            0 <= i < split_from(cur, inputs).1.len() && is_title(
                (#[trigger] split_from(cur, inputs).1[i]).line_type,
            ) ==> split_from(cur, inputs).1[i].line_type == LineType::Title(Kind::Warning),
        cur != Some(Kind::Error) && split_from(cur, inputs).0.len() > 0 ==> split_from(
            cur,
            inputs,
        ).0[0].line_type == LineType::Title(Kind::Error),
        cur != Some(Kind::Warning) && split_from(cur, inputs).1.len() > 0 ==> split_from(
            cur,
            inputs,
        ).1[0].line_type == LineType::Title(Kind::Warning),
    decreases inputs.len(),
{
    if inputs.len() > 0 {
        let l = raw_line(inputs[0]);
        let st = next_state(cur, l.line_type);
        lemma_split_titles(st, inputs.drop_first());
        let rest = split_from(st, inputs.drop_first());
        let e = split_from(cur, inputs).0;
        let w = split_from(cur, inputs).1;
        match st {
            Some(Kind::Error) => {
                assert(e == seq![l] + rest.0);
                assert(w == rest.1);
                assert(forall|i: int| 1 <= i < e.len() ==> #[trigger] e[i] == rest.0[i - 1]);
                if cur != Some(Kind::Error) {
                    // The state can only have turned to `Error` at an
                    // error title.
                    assert(l.line_type == LineType::Title(Kind::Error));
                }
            },
            Some(Kind::Warning) => {
                assert(w == seq![l] + rest.1);
                assert(e == rest.0);
                assert(forall|i: int| 1 <= i < w.len() ==> #[trigger] w[i] == rest.1[i - 1]);
                if cur != Some(Kind::Warning) {
                    assert(l.line_type == LineType::Title(Kind::Warning));
                }
            },
            _ => {
                assert(e == rest.0);
                assert(w == rest.1);
            },
        }
    }
}

/// Monotonic indexing: in a built report the indices follow the
/// counter discipline, starting at one and stepping by exactly one at
/// each title row.
pub proof fn lemma_monotonic_indexing(inputs: Seq<Seq<char>>)
    ensures
        step_indexed(report_lines(inputs)),
{
    let buffers = split_from(None, inputs);
    let m = buffers.0 + buffers.1;
    let r = report_lines(inputs);
    lemma_assign_len(0, m);
    if m.len() > 0 {
        lemma_split_titles(None, inputs);
        if buffers.0.len() > 0 {
            assert(m[0] == buffers.0[0]);
        } else {
            assert(m[0] == buffers.1[0]);
        }
        assert(is_title(m[0].line_type));
        lemma_assign_at(0, m, 0);
        assert(m.take(1)[0] == m[0]);
        assert(m.take(1).drop_first() =~= Seq::<LineV>::empty());
        assert(title_count(Seq::<LineV>::empty()) == 0);
        assert(r[0].item_idx == 1);
        assert(is_title(r[0].line_type));
    }
    assert forall|i: int| 1 <= i < r.len() implies #[trigger] step_at(r, i) by {
        lemma_assign_at(0, m, i);
        lemma_assign_at(0, m, i - 1);
        assert(m.take(i + 1) =~= m.take(i).push(m[i]));
        lemma_title_count_push(m.take(i), m[i]);
    }
}

/// Under the counter discipline the item index never decreases.
proof fn lemma_nondecreasing(r: Seq<LineV>, i: int, j: int)
    requires
        step_indexed(r),
        0 <= i <= j < r.len(),
    ensures
        r[i].item_idx <= r[j].item_idx,
    decreases j - i,
{
    if i < j {
        lemma_nondecreasing(r, i, j - 1);
        assert(step_at(r, j));
        assert(r[j].item_idx >= r[j - 1].item_idx);
    }
}

/// Index contiguity under the counter discipline.
proof fn lemma_runs_from_steps(r: Seq<LineV>)
    requires
        step_indexed(r),
    ensures
        contiguous_runs(r),
        all_indexed(r),
        titles_start_runs(r),
{
    assert forall|i: int, m: int, j: int|
        0 <= i <= m <= j < r.len() && (#[trigger] r[i]).item_idx == (#[trigger] r[j]).item_idx
        implies (#[trigger] r[m]).item_idx == r[i].item_idx by {
        lemma_nondecreasing(r, i, m);
        lemma_nondecreasing(r, m, j);
    }
    assert forall|i: int| 0 <= i < r.len() implies (#[trigger] r[i]).item_idx >= 1 by {
        lemma_nondecreasing(r, 0, i);
    }
    assert forall|i: int|
        0 <= i < r.len() implies (is_title(r[i].line_type) <==> #[trigger] starts_run(r, i)) by {
        if i > 0 {
            assert(step_at(r, i));
        }
    }
}

/// Index contiguity: rows of one item index form one contiguous run,
/// every row of a built report belongs to an item, and a row is a
/// title exactly when it starts a run.
pub proof fn lemma_index_contiguity(inputs: Seq<Seq<char>>)
    ensures
        contiguous_runs(report_lines(inputs)),
        all_indexed(report_lines(inputs)),
        titles_start_runs(report_lines(inputs)),
{
    lemma_monotonic_indexing(inputs);
    lemma_runs_from_steps(report_lines(inputs));
}

/// The kind of the latest title at or before position `i`, if any:
/// the kind that governs row `i`.
pub open spec fn last_title_kind(r: Seq<LineV>, i: int) -> Option<Kind>
    decreases i + 1,
{
    if i < 0 || i >= r.len() {
        None
    } else {
        match r[i].line_type {
            LineType::Title(k) => Some(k),
            LineType::Continuation => last_title_kind(r, i - 1),
        }
    }
}

/// Every row governed by an error title stands before every row
/// governed by a warning title.
pub open spec fn errors_first(r: Seq<LineV>) -> bool {
    forall|i: int, j: int|
        0 <= i < r.len() && 0 <= j < r.len() && #[trigger] last_title_kind(r, i) == Some(
            Kind::Error,
        ) && #[trigger] last_title_kind(r, j) == Some(Kind::Warning) ==> i < j
}

/// Within a block that opens with a title and whose titles all carry
/// kind `k`, that kind governs.
proof fn lemma_ltk_segment(r: Seq<LineV>, lo: int, i: int, k: Kind)
    requires
        0 <= lo <= i < r.len(),
        is_title(r[lo].line_type),
        forall|m: int|
            lo <= m <= i && is_title((#[trigger] r[m]).line_type) ==> r[m].line_type
                == LineType::Title(k),
    ensures
        last_title_kind(r, i) == Some(k),
    decreases i - lo,
{
    if is_title(r[i].line_type) {
        assert(r[i].line_type == LineType::Title(k));
    } else {
        lemma_ltk_segment(r, lo, i - 1, k);
    }
}

/// Error-first invariant: in a built report, every row of an error
/// item stands before every row of a warning item.
pub proof fn lemma_error_first(inputs: Seq<Seq<char>>)
    ensures
        errors_first(report_lines(inputs)),
{
    let buffers = split_from(None, inputs);
    let e = buffers.0;
    let w = buffers.1;
    let m = e + w;
    let r = report_lines(inputs);
    lemma_split_titles(None, inputs);
    lemma_assign_len(0, m);
    assert forall|i: int| 0 <= i < r.len() implies (#[trigger] r[i]).line_type
        == m[i].line_type by {
        lemma_assign_at(0, m, i);
    }
    assert forall|i: int, j: int|
        0 <= i < r.len() && 0 <= j < r.len() && #[trigger] last_title_kind(r, i) == Some(
            Kind::Error,
        ) && #[trigger] last_title_kind(r, j) == Some(Kind::Warning) implies i < j by {
        assert(forall|p: int| 0 <= p < e.len() ==> m[p] == #[trigger] e[p]);
        assert(forall|p: int| e.len() <= p < m.len() ==> #[trigger] m[p] == w[p - e.len()]);
        if i >= e.len() {
            // The row stands in the warning block, whose titles are
            // all warning titles and which opens with one.
            assert(w.len() > 0);
            assert(r[e.len() as int].line_type == w[0].line_type);
            assert(is_title(r[e.len() as int].line_type));
            assert forall|p: int|
                e.len() <= p <= i && is_title((#[trigger] r[p]).line_type) implies r[p].line_type
                == LineType::Title(Kind::Warning) by {
                assert(r[p].line_type == w[p - e.len()].line_type);
            }
            lemma_ltk_segment(r, e.len() as int, i, Kind::Warning);
            assert(false);
        }
        if j < e.len() {
            assert(e.len() > 0);
            assert(r[0].line_type == e[0].line_type);
            assert(is_title(r[0].line_type));
            assert forall|p: int|
                0 <= p <= j && is_title((#[trigger] r[p]).line_type) implies r[p].line_type
                == LineType::Title(Kind::Error) by {
                assert(r[p].line_type == e[p].line_type);
            }
            lemma_ltk_segment(r, 0, j, Kind::Error);
            assert(false);
        }
    }
}

/// The state of the phase-one walk after its first `n` lines.
pub open spec fn state_after(cur: Option<Kind>, inputs: Seq<Seq<char>>, n: int) -> Option<Kind>
    decreases inputs.len(),
{
    if n <= 0 || inputs.len() == 0 {
        cur
    } else {
        state_after(next_state(cur, spec_classify(inputs[0])), inputs.drop_first(), n - 1)
    }
}

/// No row of `r` is a summary title.
pub open spec fn no_summary_rows(r: Seq<LineV>) -> bool {
    forall|i: int| 0 <= i < r.len() ==> (#[trigger] r[i]).line_type != LineType::Title(Kind::Sum)
}

/// Every row of `r` originates in an input line that was read while an
/// error or a warning item governed the walk: nothing read before the
/// first item or after a summary title reaches the report, and each
/// kept row stores the style-resolved text of its input line.
pub open spec fn rows_from_kept_inputs(r: Seq<LineV>, inputs: Seq<Seq<char>>) -> bool {
    forall|i: int|
        0 <= i < r.len() ==> exists|j: int|
            0 <= j < inputs.len() && (#[trigger] r[i]).content == stripped(inputs[j])
                && r[i].line_type == spec_classify(inputs[j]) && (state_after(None, inputs, j + 1)
                == Some(Kind::Error) || state_after(None, inputs, j + 1) == Some(Kind::Warning))
}

/// Each buffered row of phase one is an input line read under the
/// matching state.
proof fn lemma_split_origin(cur: Option<Kind>, inputs: Seq<Seq<char>>)
    ensures
        forall|i: int|
            0 <= i < split_from(cur, inputs).0.len() ==> exists|j: int|
                0 <= j < inputs.len() && #[trigger] split_from(cur, inputs).0[i] == raw_line(
                    inputs[j],
                ) && state_after(cur, inputs, j + 1) == Some(Kind::Error),
        forall|i: int|
            0 <= i < split_from(cur, inputs).1.len() ==> exists|j: int|
                0 <= j < inputs.len() && #[trigger] split_from(cur, inputs).1[i] == raw_line(
                    inputs[j],
                ) && state_after(cur, inputs, j + 1) == Some(Kind::Warning),
    decreases inputs.len(),
{
    if inputs.len() > 0 {
        let l = raw_line(inputs[0]);
        let st = next_state(cur, l.line_type);
        let rest = inputs.drop_first();
        lemma_split_origin(st, rest);
        let eb = split_from(cur, inputs).0;
        let wb = split_from(cur, inputs).1;
        let re = split_from(st, rest).0;
        let rw = split_from(st, rest).1;
        assert(state_after(cur, inputs, 1) == state_after(st, rest, 0));
        assert(forall|j: int| 0 <= j < rest.len() ==> #[trigger] rest[j] == inputs[j + 1]);
        assert(forall|j: int|
            0 <= j < rest.len() ==> #[trigger] state_after(st, rest, j + 1) == state_after(
                cur,
                inputs,
                j + 2,
            ));
        assert forall|i: int| 0 <= i < eb.len() implies exists|j: int|
            0 <= j < inputs.len() && #[trigger] eb[i] == raw_line(inputs[j]) && state_after(
                cur,
                inputs,
                j + 1,
            ) == Some(Kind::Error) by {
            if st == Some(Kind::Error) && i == 0 {
                assert(eb[0] == raw_line(inputs[0]));
                assert(state_after(cur, inputs, 1) == Some(Kind::Error));
            } else {
                let ii = if st == Some(Kind::Error) {
                    i - 1
                } else {
                    i
                };
                assert(eb[i] == re[ii]);
                let j = choose|j: int|
                    0 <= j < rest.len() && #[trigger] re[ii] == raw_line(rest[j]) && state_after(
                        st,
                        rest,
                        j + 1,
                    ) == Some(Kind::Error);
                assert(eb[i] == raw_line(inputs[j + 1]));
                assert(state_after(cur, inputs, j + 2) == Some(Kind::Error));
            }
        }
        assert forall|i: int| 0 <= i < wb.len() implies exists|j: int|
            0 <= j < inputs.len() && #[trigger] wb[i] == raw_line(inputs[j]) && state_after(
                cur,
                inputs,
                j + 1,
            ) == Some(Kind::Warning) by {
            if st == Some(Kind::Warning) && i == 0 {
                assert(wb[0] == raw_line(inputs[0]));
                assert(state_after(cur, inputs, 1) == Some(Kind::Warning));
            } else {
                let ii = if st == Some(Kind::Warning) {
                    i - 1
                } else {
                    i
                };
                assert(wb[i] == rw[ii]);
                let j = choose|j: int|
                    0 <= j < rest.len() && #[trigger] rw[ii] == raw_line(rest[j]) && state_after(
                        st,
                        rest,
                        j + 1,
                    ) == Some(Kind::Warning);
                assert(wb[i] == raw_line(inputs[j + 1]));
                assert(state_after(cur, inputs, j + 2) == Some(Kind::Warning));
            }
        }
    }
}

/// Summary exclusion: no summary title reaches a built report, and
/// every row of the report is an input line that was read while an
/// error or a warning item governed the walk.
pub proof fn lemma_summary_excluded(inputs: Seq<Seq<char>>)
    ensures
        no_summary_rows(report_lines(inputs)),
        rows_from_kept_inputs(report_lines(inputs), inputs),
{
    let buffers = split_from(None, inputs);
    let e = buffers.0;
    let w = buffers.1;
    let m = e + w;
    let r = report_lines(inputs);
    lemma_split_titles(None, inputs);
    lemma_split_origin(None, inputs);
    lemma_assign_len(0, m);
    assert forall|i: int| 0 <= i < r.len() implies (#[trigger] r[i]).line_type == m[i].line_type
        && r[i].content == m[i].content by {
        lemma_assign_at(0, m, i);
    }
    assert forall|i: int| 0 <= i < r.len() implies (#[trigger] r[i]).line_type
        != LineType::Title(Kind::Sum) by {
        if i < e.len() {
            assert(m[i] == e[i]);
        } else {
            assert(m[i] == w[i - e.len()]);
        }
    }
    assert forall|i: int| 0 <= i < r.len() implies exists|j: int|
        0 <= j < inputs.len() && (#[trigger] r[i]).content == stripped(inputs[j])
            && r[i].line_type == spec_classify(inputs[j]) && (state_after(None, inputs, j + 1)
            == Some(Kind::Error) || state_after(None, inputs, j + 1) == Some(Kind::Warning)) by {
        if i < e.len() {
            assert(m[i] == e[i]);
            let j = choose|j: int|
                0 <= j < inputs.len() && #[trigger] e[i] == raw_line(inputs[j]) && state_after(
                    None,
                    inputs,
                    j + 1,
                ) == Some(Kind::Error);
            assert(r[i].content == stripped(inputs[j]));
            assert(r[i].line_type == spec_classify(inputs[j]));
            assert(state_after(None, inputs, j + 1) == Some(Kind::Error));
        } else {
            assert(m[i] == w[i - e.len()]);
            let j = choose|j: int|
                0 <= j < inputs.len() && #[trigger] w[i - e.len()] == raw_line(inputs[j])
                    && state_after(None, inputs, j + 1) == Some(Kind::Warning);
            assert(r[i].content == stripped(inputs[j]));
            assert(r[i].line_type == spec_classify(inputs[j]));
            assert(state_after(None, inputs, j + 1) == Some(Kind::Warning));
        }
    }
}

} // verus!
