//! The mathematical model of the encoder.
//!
//! An encoding run is a fold of traversal events over an abstract state:
//! the root descriptor, the buffer of completed lines, the segment under
//! construction, the countdown of fields the segment still expects, and the
//! optional inline group being collected. The executable encoder's view is
//! this state, and every transition of the executable encoder is one of the
//! spec transitions below.

use vstd::prelude::*;

verus! {

/// The delimiter between fields of one segment.
pub open spec fn segment_delim() -> char {
    '+'
}

/// The delimiter between values of one inline group.
pub open spec fn inline_delim() -> char {
    ':'
}

/// The marker closing every surviving line, before the newline.
pub open spec fn line_terminator() -> char {
    '\''
}

/// Lines whose trimmed content is shorter than this are suppressed.
pub open spec fn min_line_len() -> nat {
    4
}

/// The inline group under collection: how many values it still expects and
/// the values gathered so far.
#[verifier::ext_equal]
pub ghost struct InlineSt {
    pub remaining: nat,
    pub values: Seq<Seq<char>>,
}

/// The abstract encoder state.
#[verifier::ext_equal]
pub ghost struct EncState {
    /// The root record's name, captured at the first enter-record event.
    pub root: Option<Seq<char>>,
    /// Completed, rendered lines (still untrimmed, not yet length-filtered).
    pub lines: Seq<Seq<char>>,
    /// Rendered fields of the segment currently being built.
    pub segment: Seq<Seq<char>>,
    /// How many more scalar fields the current segment expects.
    pub remaining: nat,
    /// The inline group being collected, if any.
    pub inline: Option<InlineSt>,
}

/// The state before any event: no root seen, all buffers empty.
pub open spec fn init_state() -> EncState {
    EncState {
        root: None,
        lines: Seq::empty(),
        segment: Seq::empty(),
        remaining: 0,
        inline: None,
    }
}

/// Decrement with a floor at zero: extra scalar events beyond the declared
/// count must not underflow the countdown.
pub open spec fn dec(n: nat) -> nat {
    if n > 0 {
        (n - 1) as nat
    } else {
        0
    }
}

/// A later record name denotes a repetition of the root record exactly when
/// the root name is a prefix of it.
pub open spec fn is_root_repeat(root: Seq<char>, name: Seq<char>) -> bool {
    root.is_prefix_of(name)
}

/// Fields joined by a single delimiter character.
pub open spec fn join(fields: Seq<Seq<char>>, sep: char) -> Seq<char>
    decreases fields.len(),
{
    if fields.len() == 0 {
        Seq::empty()
    } else if fields.len() == 1 {
        fields[0]
    } else {
        join(fields.drop_last(), sep) + seq![sep] + fields.last()
    }
}

/// The sequence with every trailing occurrence of `c` removed.
pub open spec fn trim_trailing(s: Seq<char>, c: char) -> Seq<char>
    decreases s.len(),
{
    if s.len() > 0 && s.last() == c {
        trim_trailing(s.drop_last(), c)
    } else {
        s
    }
}

/// ASCII upper-casing of one character; anything but a lower-case ASCII
/// letter (code points 97 through 122) is unchanged.
pub open spec fn upper_char(c: char) -> char {
    if 97 <= c as u32 && c as u32 <= 122 {
        ((c as u32) - 32) as char
    } else {
        c
    }
}

/// ASCII upper-casing of a name, character by character.
pub open spec fn upper(s: Seq<char>) -> Seq<char> {
    Seq::new(s.len(), |i: int| upper_char(s[i]))
}

/// An inline group's rendering: values joined by the inline delimiter, with
/// trailing inline delimiters trimmed.
pub open spec fn close_inline(values: Seq<Seq<char>>) -> Seq<char> {
    trim_trailing(join(values, inline_delim()), inline_delim())
}

/// The current segment flushed onto the line buffer as one completed line.
pub open spec fn flush_segment(st: EncState) -> Seq<Seq<char>> {
    st.lines.push(join(st.segment, segment_delim()))
}

/// The enter-record transition: capture the root, or recognize a repeated
/// root record, an inline group, or a new segment.
pub open spec fn st_enter(st: EncState, name: Seq<char>, count: nat) -> EncState {
    if st.root is None {
        // First event of the run: capture the root descriptor; the countdown
        // stays at its default of zero and no segment is started.
        EncState { root: Some(name), ..st }
    } else if is_root_repeat(st.root->0, name) {
        // A repetition of the root record: flush the current segment as a
        // line and start the new record clean.
        EncState {
            root: st.root,
            lines: flush_segment(st),
            segment: Seq::empty(),
            remaining: 0,
            inline: None,
        }
    } else if st.remaining > 0 {
        // The enclosing segment still expects fields: this group is inline.
        EncState { inline: Some(InlineSt { remaining: count, values: Seq::empty() }), ..st }
    } else {
        // A sibling group at segment level: flush the previous segment and
        // start a new one tagged with the group's upper-cased name.
        EncState {
            root: st.root,
            lines: flush_segment(st),
            segment: seq![upper(name)],
            remaining: count,
            inline: None,
        }
    }
}

/// The scalar-value transition: feed one rendered value, either into the
/// active inline group or directly into the segment.
pub open spec fn st_scalar(st: EncState, text: Seq<char>) -> EncState {
    match st.inline {
        Some(inl) => {
            let values = inl.values.push(text);
            let rem = dec(inl.remaining);
            if rem == 0 {
                // The group is full: collapse it into one segment field and
                // count it as one field of the enclosing segment.
                EncState {
                    segment: st.segment.push(close_inline(values)),
                    remaining: dec(st.remaining),
                    inline: None,
                    ..st
                }
            } else {
                EncState { inline: Some(InlineSt { remaining: rem, values }), ..st }
            }
        },
        None => EncState {
            segment: st.segment.push(text),
            remaining: dec(st.remaining),
            ..st
        },
    }
}

/// The absent-value transition: exactly an empty scalar.
pub open spec fn st_absent(st: EncState) -> EncState {
    st_scalar(st, Seq::empty())
}

/// The line buffer at the end of traversal: a still-open inline group is
/// collapsed into the segment, and a non-empty segment becomes the final
/// line.
pub open spec fn st_close(st: EncState) -> Seq<Seq<char>> {
    let seg = match st.inline {
        Some(inl) => st.segment.push(close_inline(inl.values)),
        None => st.segment,
    };
    if seg.len() > 0 {
        st.lines.push(join(seg, segment_delim()))
    } else {
        st.lines
    }
}

/// One buffered line's contribution to the output: trailing segment
/// delimiters are stripped; a line shorter than the minimum is suppressed;
/// a surviving line gets the terminator marker and a newline.
pub open spec fn render_line(l: Seq<char>) -> Seq<char> {
    let t = trim_trailing(l, segment_delim());
    if t.len() < min_line_len() {
        Seq::empty()
    } else {
        t + seq![line_terminator(), '\n']
    }
}

/// All buffered lines rendered and concatenated in order.
pub open spec fn render_lines(lines: Seq<Seq<char>>) -> Seq<char>
    decreases lines.len(),
{
    if lines.len() == 0 {
        Seq::empty()
    } else {
        render_lines(lines.drop_last()) + render_line(lines.last())
    }
}

/// The finished text of a run that ends in state `st`.
pub open spec fn st_output(st: EncState) -> Seq<char> {
    render_lines(st_close(st))
}

/// One traversal event, at the specification level.
pub ghost enum EventV {
    Enter(Seq<char>, nat),
    Scalar(Seq<char>),
    Absent,
}

/// One event applied to a state.
pub open spec fn step(st: EncState, e: EventV) -> EncState {
    match e {
        EventV::Enter(name, count) => st_enter(st, name, count),
        EventV::Scalar(text) => st_scalar(st, text),
        EventV::Absent => st_absent(st),
    }
}

/// A whole event sequence folded over a state, first event first.
pub open spec fn run(st: EncState, events: Seq<EventV>) -> EncState
    decreases events.len(),
{
    if events.len() == 0 {
        st
    } else {
        run(step(st, events[0]), events.drop_first())
    }
}

/// The text that a complete run over `events` produces.
pub open spec fn encode_spec(events: Seq<EventV>) -> Seq<char> {
    st_output(run(init_state(), events))
}

/// The values, each as one scalar event, in order.
pub open spec fn scalars(vals: Seq<Seq<char>>) -> Seq<EventV> {
    vals.map_values(|v: Seq<char>| EventV::Scalar(v))
}

/// Saturating subtraction: the countdown never goes below zero.
pub open spec fn sat_sub(a: nat, b: nat) -> nat {
    if a >= b {
        (a - b) as nat
    } else {
        0
    }
}

/// A run extended by one event ends in the stepped state.
pub proof fn lemma_run_snoc(st: EncState, events: Seq<EventV>, e: EventV)
    ensures
        run(st, events.push(e)) == step(run(st, events), e),
    decreases events.len(),
{
    assert(run(st, events.push(e)) == run(
        step(st, events.push(e)[0]),
        events.push(e).drop_first(),
    ));
    if events.len() == 0 {
        assert(events.push(e)[0] == e);
        assert(events.push(e).drop_first() =~= Seq::<EventV>::empty());
        assert(run(step(st, e), Seq::<EventV>::empty()) == step(st, e));
        assert(run(st, events) == st);
    } else {
        assert(events.push(e)[0] == events[0]);
        assert(events.push(e).drop_first() =~= events.drop_first().push(e));
        lemma_run_snoc(step(st, events[0]), events.drop_first(), e);
        assert(run(st, events) == run(step(st, events[0]), events.drop_first()));
    }
}

/// A run over concatenated event sequences is the composition of the runs.
pub proof fn lemma_run_concat(st: EncState, a: Seq<EventV>, b: Seq<EventV>)
    ensures
        run(st, a + b) == run(run(st, a), b),
    decreases a.len(),
{
    if a.len() == 0 {
        assert(a + b =~= b);
    } else {
        assert((a + b)[0] == a[0]);
        assert((a + b).drop_first() =~= a.drop_first() + b);
        lemma_run_concat(step(st, a[0]), a.drop_first(), b);
    }
}

} // verus!
