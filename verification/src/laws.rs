//! Laws of the encoder, proved over the model of `crate::state`.
//!
//! Each public proof function states one guarantee of the encoding: how the
//! root record is detected, where segment and inline-group boundaries fall,
//! how repeated root records split lines, that short lines are suppressed,
//! and that absent values are empty scalars.

use vstd::prelude::*;

use crate::state::{
    close_inline, dec, encode_spec, init_state, is_root_repeat, join, lemma_run_concat,
    min_line_len, render_line, render_lines, run, scalars, sat_sub, segment_delim, st_absent,
    st_close, st_enter, st_scalar, trim_trailing, upper, EncState, EventV, InlineSt,
};

verus! {

/// Scalar events fed to a state with no active inline group append their
/// values to the current segment, in order, and touch nothing else; the
/// countdown decreases one per value, floored at zero.
pub proof fn lemma_run_scalars(st: EncState, vals: Seq<Seq<char>>)
    requires
        (st.inline is None),
    ensures
        run(st, scalars(vals)) == (EncState {
            root: st.root,
            lines: st.lines,
            segment: st.segment + vals,
            remaining: sat_sub(st.remaining, vals.len() as nat),
            inline: None,
        }),
    decreases vals.len(),
{
    if vals.len() == 0 {
        assert(scalars(vals) =~= Seq::<EventV>::empty());
        assert(st.segment + vals =~= st.segment);
        assert(st =~= EncState {
            root: st.root,
            lines: st.lines,
            segment: st.segment + vals,
            remaining: sat_sub(st.remaining, vals.len() as nat),
            inline: None,
        });
    } else {
        let evs = scalars(vals);
        assert(evs[0] == EventV::Scalar(vals[0]));
        assert(evs.drop_first() =~= scalars(vals.drop_first()));
        let st1 = st_scalar(st, vals[0]);
        assert(st1.segment == st.segment.push(vals[0]));
        lemma_run_scalars(st1, vals.drop_first());
        assert(st.segment.push(vals[0]) + vals.drop_first() =~= st.segment + vals);
        assert(sat_sub(dec(st.remaining), vals.drop_first().len() as nat) == sat_sub(
            st.remaining,
            vals.len() as nat,
        ));
        assert(run(st, evs) == run(st1, evs.drop_first()));
        assert(run(st, scalars(vals)) =~= EncState {
            root: st.root,
            lines: st.lines,
            segment: st.segment + vals,
            remaining: sat_sub(st.remaining, vals.len() as nat),
            inline: None,
        });
    }
}

/// Scalar events fed to an active inline group that expects exactly that
/// many values fill the group and collapse it into one field of the
/// enclosing segment, consuming one slot of the enclosing countdown; the
/// line buffer is untouched.
pub proof fn lemma_run_inline_scalars(st: EncState, vals: Seq<Seq<char>>)
    requires
        (st.inline is Some),
        st.inline->0.remaining == vals.len(),
        vals.len() > 0,
    ensures
        run(st, scalars(vals)) == (EncState {
            root: st.root,
            lines: st.lines,
            segment: st.segment.push(close_inline(st.inline->0.values + vals)),
            remaining: dec(st.remaining),
            inline: None,
        }),
    decreases vals.len(),
{
    let evs = scalars(vals);
    assert(evs[0] == EventV::Scalar(vals[0]));
    assert(evs.drop_first() =~= scalars(vals.drop_first()));
    let st1 = st_scalar(st, vals[0]);
    assert(run(st, evs) == run(st1, evs.drop_first()));
    if vals.len() == 1 {
        assert(st.inline->0.values.push(vals[0]) =~= st.inline->0.values + vals);
        assert(run(st1, evs.drop_first()) == st1);
        assert(st1 =~= EncState {
            root: st.root,
            lines: st.lines,
            segment: st.segment.push(close_inline(st.inline->0.values + vals)),
            remaining: dec(st.remaining),
            inline: None,
        });
    } else {
        lemma_run_inline_scalars(st1, vals.drop_first());
        assert(st1.inline->0.values + vals.drop_first() =~= st.inline->0.values + vals);
        assert(run(st, scalars(vals)) =~= EncState {
            root: st.root,
            lines: st.lines,
            segment: st.segment.push(close_inline(st.inline->0.values + vals)),
            remaining: dec(st.remaining),
            inline: None,
        });
    }
}

/// Root detection: a run that enters one record and then visits only
/// scalars yields exactly the one line of those values joined by the
/// segment delimiter — rendered if its trimmed content reaches the minimum
/// length, suppressed otherwise.
pub proof fn lemma_single_flat_record(name: Seq<char>, count: nat, vals: Seq<Seq<char>>)
    ensures
        encode_spec(seq![EventV::Enter(name, count)] + scalars(vals)) == render_line(
            join(vals, segment_delim()),
        ),
        trim_trailing(join(vals, segment_delim()), segment_delim()).len() >= min_line_len()
            ==> encode_spec(seq![EventV::Enter(name, count)] + scalars(vals)) == trim_trailing(
            join(vals, segment_delim()),
            segment_delim(),
        ) + seq!['\'', '\n'],
{
    let head = seq![EventV::Enter(name, count)];
    let events = head + scalars(vals);
    lemma_run_concat(init_state(), head, scalars(vals));
    assert(head.drop_first() =~= Seq::<EventV>::empty());
    let st1 = st_enter(init_state(), name, count);
    assert(head[0] == EventV::Enter(name, count));
    assert(run(st1, Seq::<EventV>::empty()) == st1);
    assert(run(init_state(), head) == st1);
    lemma_run_scalars(st1, vals);
    let st2 = run(init_state(), events);
    assert(st2.segment =~= vals);
    let lines = st_close(st2);
    if vals.len() == 0 {
        assert(lines =~= Seq::<Seq<char>>::empty());
        assert(render_lines(lines) == Seq::<char>::empty());
        assert(join(vals, segment_delim()) == Seq::<char>::empty());
        assert(trim_trailing(Seq::<char>::empty(), segment_delim()) == Seq::<char>::empty());
        assert(render_line(join(vals, segment_delim())) == Seq::<char>::empty());
    } else {
        assert(lines =~= seq![join(vals, segment_delim())]);
        assert(lines.drop_last() =~= Seq::<Seq<char>>::empty());
        assert(lines.last() == join(vals, segment_delim()));
        assert(render_lines(Seq::<Seq<char>>::empty()) == Seq::<char>::empty());
        assert(render_lines(lines) == render_lines(lines.drop_last()) + render_line(lines.last()));
        assert(Seq::<char>::empty() + render_line(join(vals, segment_delim())) =~= render_line(
            join(vals, segment_delim()),
        ));
    }
}

/// Segment boundary: two sibling groups inside one record, neither matching
/// the root name, give two separately rendered lines, each tagged with its
/// own upper-cased group name as its first field.
pub proof fn lemma_sibling_segments(
    root: Seq<char>,
    root_count: nat,
    g1: Seq<char>,
    g2: Seq<char>,
    vals1: Seq<Seq<char>>,
    vals2: Seq<Seq<char>>,
)
    requires
        !is_root_repeat(root, g1),
        !is_root_repeat(root, g2),
    ensures
        encode_spec(
            seq![EventV::Enter(root, root_count), EventV::Enter(g1, vals1.len() as nat)] + scalars(
                vals1,
            ) + seq![EventV::Enter(g2, vals2.len() as nat)] + scalars(vals2),
        ) == render_line(join(seq![upper(g1)] + vals1, segment_delim())) + render_line(
            join(seq![upper(g2)] + vals2, segment_delim()),
        ),
{
    let e01 = seq![EventV::Enter(root, root_count), EventV::Enter(g1, vals1.len() as nat)];
    let e2 = seq![EventV::Enter(g2, vals2.len() as nat)];
    let events = e01 + scalars(vals1) + e2 + scalars(vals2);
    lemma_run_concat(init_state(), e01 + scalars(vals1) + e2, scalars(vals2));
    lemma_run_concat(init_state(), e01 + scalars(vals1), e2);
    lemma_run_concat(init_state(), e01, scalars(vals1));
    let st1 = st_enter(init_state(), root, root_count);
    let st2 = st_enter(st1, g1, vals1.len() as nat);
    assert(e01[0] == EventV::Enter(root, root_count));
    assert(e01.drop_first() =~= seq![EventV::Enter(g1, vals1.len() as nat)]);
    assert(e01.drop_first().drop_first() =~= Seq::<EventV>::empty());
    assert(e01.drop_first()[0] == EventV::Enter(g1, vals1.len() as nat));
    assert(run(st2, Seq::<EventV>::empty()) == st2);
    assert(run(st1, e01.drop_first()) == st2);
    assert(run(init_state(), e01) == st2);
    lemma_run_scalars(st2, vals1);
    let st3 = run(st2, scalars(vals1));
    assert(st3.remaining == 0);
    assert(e2.drop_first() =~= Seq::<EventV>::empty());
    let st4 = st_enter(st3, g2, vals2.len() as nat);
    assert(e2[0] == EventV::Enter(g2, vals2.len() as nat));
    assert(run(st4, Seq::<EventV>::empty()) == st4);
    assert(run(st3, e2) == st4);
    lemma_run_scalars(st4, vals2);
    let st5 = run(st4, scalars(vals2));
    assert(run(init_state(), events) == st5);
    let l1 = join(seq![upper(g1)] + vals1, segment_delim());
    let l2 = join(seq![upper(g2)] + vals2, segment_delim());
    assert(st2.segment =~= seq![upper(g1)]);
    assert(st3.segment =~= seq![upper(g1)] + vals1);
    assert(st4.segment =~= seq![upper(g2)]);
    assert(st5.segment =~= seq![upper(g2)] + vals2);
    assert(st5.segment.len() > 0);
    let lines = st_close(st5);
    assert(lines =~= seq![Seq::<char>::empty(), l1, l2]);
    assert(lines.drop_last() =~= seq![Seq::<char>::empty(), l1]);
    assert(lines.drop_last().drop_last() =~= seq![Seq::<char>::empty()]);
    assert(lines.drop_last().drop_last().drop_last() =~= Seq::<Seq<char>>::empty());
    assert(trim_trailing(Seq::<char>::empty(), segment_delim()) == Seq::<char>::empty());
    assert(render_line(Seq::<char>::empty()) == Seq::<char>::empty());
    assert(render_lines(Seq::<Seq<char>>::empty()) == Seq::<char>::empty());
    assert(lines.drop_last().drop_last().last() == Seq::<char>::empty());
    assert(render_lines(lines.drop_last().drop_last()) == render_lines(
        lines.drop_last().drop_last().drop_last(),
    ) + render_line(lines.drop_last().drop_last().last()));
    assert(render_lines(lines.drop_last().drop_last()) =~= Seq::<char>::empty());
    assert(lines.drop_last().last() == l1);
    assert(render_lines(lines.drop_last()) == render_lines(lines.drop_last().drop_last())
        + render_line(l1));
    assert(render_lines(lines.drop_last()) =~= render_line(l1));
    assert(lines.last() == l2);
    assert(render_lines(lines) == render_lines(lines.drop_last()) + render_line(l2));
    assert(render_lines(lines) =~= render_line(l1) + render_line(l2));
}

/// Inline grouping: a group entered while the enclosing segment still
/// expects fields is collapsed into one colon-joined, trimmed field of that
/// segment — it consumes one field slot and opens no new line.
pub proof fn lemma_inline_group(st: EncState, g: Seq<char>, vals: Seq<Seq<char>>)
    requires
        (st.root is Some),
        !is_root_repeat(st.root->0, g),
        st.remaining > 0,
        (st.inline is None),
        vals.len() > 0,
    ensures
        run(st, seq![EventV::Enter(g, vals.len() as nat)] + scalars(vals)) == (EncState {
            root: st.root,
            lines: st.lines,
            segment: st.segment.push(close_inline(vals)),
            remaining: (st.remaining - 1) as nat,
            inline: None,
        }),
{
    let head = seq![EventV::Enter(g, vals.len() as nat)];
    lemma_run_concat(st, head, scalars(vals));
    assert(head.drop_first() =~= Seq::<EventV>::empty());
    let st1 = st_enter(st, g, vals.len() as nat);
    assert(head[0] == EventV::Enter(g, vals.len() as nat));
    assert(run(st1, Seq::<EventV>::empty()) == st1);
    assert(run(st, head) == st1);
    assert(st1.inline == Some(InlineSt { remaining: vals.len() as nat, values: Seq::empty() }));
    lemma_run_inline_scalars(st1, vals);
    assert(Seq::<Seq<char>>::empty() + vals =~= vals);
    assert(dec(st.remaining) == (st.remaining - 1) as nat);
}

/// Record repetition: a second top-level group whose name the root name
/// prefixes starts a fresh record, so the two records' values render as two
/// independent lines.
pub proof fn lemma_record_repetition(
    root: Seq<char>,
    root_count: nat,
    name2: Seq<char>,
    count2: nat,
    vals1: Seq<Seq<char>>,
    vals2: Seq<Seq<char>>,
)
    requires
        is_root_repeat(root, name2),
    ensures
        encode_spec(
            seq![EventV::Enter(root, root_count)] + scalars(vals1) + seq![
                EventV::Enter(name2, count2),
            ] + scalars(vals2),
        ) == render_line(join(vals1, segment_delim())) + render_line(
            join(vals2, segment_delim()),
        ),
{
    let e0 = seq![EventV::Enter(root, root_count)];
    let e2 = seq![EventV::Enter(name2, count2)];
    let events = e0 + scalars(vals1) + e2 + scalars(vals2);
    lemma_run_concat(init_state(), e0 + scalars(vals1) + e2, scalars(vals2));
    lemma_run_concat(init_state(), e0 + scalars(vals1), e2);
    lemma_run_concat(init_state(), e0, scalars(vals1));
    assert(e0.drop_first() =~= Seq::<EventV>::empty());
    let st1 = st_enter(init_state(), root, root_count);
    assert(e0[0] == EventV::Enter(root, root_count));
    assert(run(st1, Seq::<EventV>::empty()) == st1);
    assert(run(init_state(), e0) == st1);
    lemma_run_scalars(st1, vals1);
    let st2 = run(st1, scalars(vals1));
    assert(st2.segment =~= vals1);
    assert(e2.drop_first() =~= Seq::<EventV>::empty());
    let st3 = st_enter(st2, name2, count2);
    assert(e2[0] == EventV::Enter(name2, count2));
    assert(run(st3, Seq::<EventV>::empty()) == st3);
    assert(run(st2, e2) == st3);
    assert(st3.lines =~= st2.lines.push(join(vals1, segment_delim())));
    lemma_run_scalars(st3, vals2);
    let st4 = run(st3, scalars(vals2));
    assert(st4.segment =~= vals2);
    assert(run(init_state(), events) == st4);
    let l1 = join(vals1, segment_delim());
    let l2 = join(vals2, segment_delim());
    let lines = st_close(st4);
    if vals2.len() == 0 {
        assert(lines =~= seq![l1]);
        assert(lines.drop_last() =~= Seq::<Seq<char>>::empty());
        assert(lines.last() == l1);
        assert(render_lines(Seq::<Seq<char>>::empty()) == Seq::<char>::empty());
        assert(render_lines(lines) == render_lines(lines.drop_last()) + render_line(l1));
        assert(l2 == Seq::<char>::empty());
        assert(trim_trailing(Seq::<char>::empty(), segment_delim()) == Seq::<char>::empty());
        assert(render_line(l2) == Seq::<char>::empty());
        assert(render_lines(lines) =~= render_line(l1) + render_line(l2));
    } else {
        assert(lines =~= seq![l1, l2]);
        assert(lines.drop_last() =~= seq![l1]);
        assert(lines.drop_last().drop_last() =~= Seq::<Seq<char>>::empty());
        assert(render_lines(Seq::<Seq<char>>::empty()) == Seq::<char>::empty());
        assert(lines.drop_last().last() == l1);
        assert(render_lines(lines.drop_last()) == render_lines(lines.drop_last().drop_last())
            + render_line(l1));
        assert(Seq::<char>::empty() + render_line(l1) =~= render_line(l1));
        assert(lines.last() == l2);
        assert(render_lines(lines) == render_lines(lines.drop_last()) + render_line(l2));
        assert(render_lines(lines) =~= render_line(l1) + render_line(l2));
    }
}

/// Short-line suppression: a buffered line whose trimmed content is under
/// the minimum length contributes nothing to the output.
pub proof fn lemma_short_line_suppressed(lines: Seq<Seq<char>>, l: Seq<char>)
    requires
        trim_trailing(l, segment_delim()).len() < min_line_len(),
    ensures
        render_lines(lines.push(l)) == render_lines(lines),
{
    assert(lines.push(l).drop_last() =~= lines);
    assert(lines.push(l).last() == l);
    assert(render_line(l) =~= Seq::<char>::empty());
    assert(render_lines(lines) + Seq::<char>::empty() =~= render_lines(lines));
}

/// Absent values: an absent event is handled exactly as a scalar event
/// carrying the empty string, in every state.
pub proof fn lemma_absent_is_empty_scalar(st: EncState)
    ensures
        st_absent(st) == st_scalar(st, Seq::<char>::empty()),
{
}

} // verus!
