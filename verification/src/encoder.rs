//! The executable line encoder.
//!
//! `Encoder` is the state machine itself; its view is the abstract
//! `EncState` of `crate::state`, and every method's effect equals the
//! corresponding spec transition. `encode_events` drives a whole run from a
//! recorded sequence of traversal events.

use vstd::prelude::*;

use crate::state::{
    init_state, run, st_absent, st_close, st_enter, st_output, st_scalar, step, encode_spec,
    lemma_run_snoc, render_line, render_lines, EncState, EventV, InlineSt,
};
use crate::text::{join_fields, str_is_prefix, trim_trailing_str, upper_ascii};

verus! {

/// The inline group under collection.
pub struct InlineState {
    /// How many more scalar values the group expects.
    pub remaining: usize,
    /// The values gathered so far, in order.
    pub values: Vec<String>,
}

impl View for InlineState {
    type V = InlineSt;

    open spec fn view(&self) -> InlineSt {
        InlineSt { remaining: self.remaining as nat, values: self.values.deep_view() }
    }
}

/// The line encoder: owns all mutable state of one encoding run.
pub struct Encoder {
    root: Option<String>,
    lines: Vec<String>,
    segment: Vec<String>,
    remaining: usize,
    inline: Option<InlineState>,
}

impl View for Encoder {
    type V = EncState;

    closed spec fn view(&self) -> EncState {
        EncState {
            root: match self.root {
                Some(r) => Some(r@),
                None => None,
            },
            lines: self.lines.deep_view(),
            segment: self.segment.deep_view(),
            remaining: self.remaining as nat,
            inline: match self.inline {
                Some(g) => Some(g@),
                None => None,
            },
        }
    }
}

impl Encoder {
    /// A fresh encoder: no root seen, all buffers empty.
    pub fn new() -> (e: Encoder)
        ensures
            e@ == init_state(),
    {
        let e = Encoder {
            root: None,
            lines: Vec::new(),
            segment: Vec::new(),
            remaining: 0,
            inline: None,
        };
        proof {
            assert(e@.lines =~= init_state().lines);
            assert(e@.segment =~= init_state().segment);
            assert(e@ =~= init_state());
        }
        e
    }

    /// Handles one enter-record event: captures the root descriptor on the
    /// first event, and afterwards recognizes a repeated root record, an
    /// inline group, or a new segment.
    pub fn enter_record(&mut self, name: &str, field_count: usize)
        ensures
            final(self)@ == st_enter(old(self)@, name@, field_count as nat),
    {
        proof {
            reveal_strlit("+");
            assert("+"@ =~= seq!['+']);
        }
        if self.root.is_none() {
            self.root = Some(name.to_owned());
            proof {
                assert(self@ =~= st_enter(old(self)@, name@, field_count as nat));
            }
            return;
        }
        let is_repeat = match &self.root {
            Some(r) => str_is_prefix(r.as_str(), name),
            None => false,
        };
        if is_repeat {
            let line = join_fields(&self.segment, "+");
            self.lines.push(line);
            self.segment = Vec::new();
            self.remaining = 0;
            self.inline = None;
            proof {
                assert(self@.lines =~= st_enter(old(self)@, name@, field_count as nat).lines);
                assert(self@.segment =~= Seq::<Seq<char>>::empty());
                assert(self@ =~= st_enter(old(self)@, name@, field_count as nat));
            }
        } else if self.remaining > 0 {
            self.inline = Some(InlineState { remaining: field_count, values: Vec::new() });
            proof {
                assert(self@.inline->0.values =~= Seq::<Seq<char>>::empty());
                assert(self@.inline->0 =~= st_enter(old(self)@, name@, field_count as nat).inline->0);
                assert(self@ =~= st_enter(old(self)@, name@, field_count as nat));
            }
        } else {
            let line = join_fields(&self.segment, "+");
            self.lines.push(line);
            let mut seg: Vec<String> = Vec::new();
            seg.push(upper_ascii(name));
            self.segment = seg;
            self.remaining = field_count;
            self.inline = None;
            proof {
                assert(self@.lines =~= st_enter(old(self)@, name@, field_count as nat).lines);
                assert(self@.segment =~= st_enter(old(self)@, name@, field_count as nat).segment);
                assert(self@ =~= st_enter(old(self)@, name@, field_count as nat));
            }
        }
    }

    /// Handles one scalar-value event: the rendered value goes into the
    /// active inline group, or straight into the current segment.
    pub fn scalar(&mut self, text: &str)
        ensures
            final(self)@ == st_scalar(old(self)@, text@),
    {
        proof {
            reveal_strlit(":");
            assert(":"@ =~= seq![':']);
        }
        let mut taken: Option<InlineState> = None;
        core::mem::swap(&mut taken, &mut self.inline);
        match taken {
            Some(mut group) => {
                group.values.push(text.to_owned());
                proof {
                    assert(group@.values =~= old(self)@.inline->0.values.push(text@));
                }
                if group.remaining <= 1 {
                    let joined = join_fields(&group.values, ":");
                    let field = trim_trailing_str(joined.as_str(), ':');
                    self.segment.push(field);
                    if self.remaining > 0 {
                        self.remaining = self.remaining - 1;
                    }
                    proof {
                        assert(self@.segment =~= st_scalar(old(self)@, text@).segment);
                        assert(self@ =~= st_scalar(old(self)@, text@));
                    }
                } else {
                    group.remaining = group.remaining - 1;
                    self.inline = Some(group);
                    proof {
                        assert(self@.inline->0 =~= st_scalar(old(self)@, text@).inline->0);
                        assert(self@ =~= st_scalar(old(self)@, text@));
                    }
                }
            },
            None => {
                self.segment.push(text.to_owned());
                if self.remaining > 0 {
                    self.remaining = self.remaining - 1;
                }
                proof {
                    assert(self@.segment =~= st_scalar(old(self)@, text@).segment);
                    assert(self@ =~= st_scalar(old(self)@, text@));
                }
            },
        }
    }

    /// Handles one absent-value event: exactly an empty scalar.
    pub fn absent(&mut self)
        ensures
            final(self)@ == st_absent(old(self)@),
    {
        proof {
            reveal_strlit("");
            assert(""@ =~= Seq::<char>::empty());
        }
        self.scalar("");
    }

    /// Ends the run: collapses a still-open inline group, flushes the final
    /// segment, and renders the surviving lines into the finished text.
    pub fn finish(self) -> (r: String)
        ensures
            r@ == st_output(self@),
    {
        proof {
            reveal_strlit("+");
            assert("+"@ =~= seq!['+']);
            reveal_strlit(":");
            assert(":"@ =~= seq![':']);
            reveal_strlit("'\n");
            assert("'\n"@ =~= seq!['\'', '\n']);
        }
        let ghost st0 = self@;
        let ghost target = st_close(self@);
        let Encoder { root: _, lines, segment, remaining: _, inline } = self;
        let mut lines = lines;
        let mut segment = segment;
        if let Some(group) = inline {
            proof {
                assert(group@ == st0.inline->0);
            }
            let joined = join_fields(&group.values, ":");
            let field = trim_trailing_str(joined.as_str(), ':');
            segment.push(field);
            proof {
                assert(segment.deep_view() =~= st0.segment.push(
                    crate::state::close_inline(st0.inline->0.values),
                ));
            }
        }
        if segment.len() > 0 {
            let line = join_fields(&segment, "+");
            lines.push(line);
            proof {
                assert(lines.deep_view() =~= st0.lines.push(
                    crate::state::join(segment.deep_view(), '+'),
                ));
            }
        }
        proof {
            assert(lines.deep_view() =~= target);
        }
        let mut out = String::new();
        let n = lines.len();
        let mut i: usize = 0;
        while i < n
            invariant
                i <= n,
                n == lines@.len(),
                lines.deep_view() == target,
                out@ == render_lines(target.take(i as int)),
            decreases n - i,
        {
            let t = trim_trailing_str(lines[i].as_str(), '+');
            proof {
                assert(lines.deep_view()[i as int] == lines@[i as int]@);
                assert(target.take(i + 1).drop_last() =~= target.take(i as int));
                assert(target.take(i + 1).last() == target[i as int]);
            }
            if t.unicode_len() >= 4 {
                out.append(t.as_str());
                out.append("'\n");
                proof {
                    reveal_strlit("'\n");
                    assert("'\n"@ =~= seq!['\'', '\n']);
                    assert(out@ =~= render_lines(target.take(i + 1)));
                }
            } else {
                proof {
                    assert(render_line(target[i as int]) =~= Seq::<char>::empty());
                    assert(out@ =~= render_lines(target.take(i + 1)));
                }
            }
            i = i + 1;
        }
        proof {
            assert(target.take(n as int) =~= target);
        }
        out
    }
}

/// One recorded traversal event.
pub enum Event {
    /// A named group of the given expected field count was entered.
    Enter(String, usize),
    /// A scalar value was visited.
    Scalar(String),
    /// An absent value was visited.
    Absent,
}

impl View for Event {
    type V = EventV;

    open spec fn view(&self) -> EventV {
        match self {
            Event::Enter(name, count) => EventV::Enter(name@, *count as nat),
            Event::Scalar(text) => EventV::Scalar(text@),
            Event::Absent => EventV::Absent,
        }
    }
}

/// The events' views, in order.
pub open spec fn events_view(events: Seq<Event>) -> Seq<EventV> {
    events.map_values(|e: Event| e@)
}

/// Encodes one whole run recorded as an event sequence.
pub fn encode_events(events: &Vec<Event>) -> (r: String)
    ensures
        r@ == encode_spec(events_view(events@)),
{
    let mut enc = Encoder::new();
    let n = events.len();
    let mut i: usize = 0;
    while i < n
        invariant
            i <= n,
            n == events@.len(),
            enc@ == run(init_state(), events_view(events@).take(i as int)),
        decreases n - i,
    {
        match &events[i] {
            Event::Enter(name, count) => enc.enter_record(name.as_str(), *count),
            Event::Scalar(text) => enc.scalar(text.as_str()),
            Event::Absent => enc.absent(),
        }
        proof {
            let evs = events_view(events@);
            lemma_run_snoc(init_state(), evs.take(i as int), evs[i as int]);
            assert(evs.take(i + 1) =~= evs.take(i as int).push(evs[i as int]));
            assert(enc@ == step(run(init_state(), evs.take(i as int)), evs[i as int]));
        }
        i = i + 1;
    }
    proof {
        assert(events_view(events@).take(n as int) =~= events_view(events@));
    }
    enc.finish()
}

} // verus!
