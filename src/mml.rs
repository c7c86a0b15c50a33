//! A minimal music macro language: note letters, rests and track resets,
//! turned into a timeline of note-on / note-off events.
use vstd::prelude::*;
use crate::engine::{Synth, SynthView};

verus! {

/// The key of A4 (440 Hz), which the note letters are relative to.
pub const A_4: i8 = 69;

/// Why a piece of music text could not be read.
#[derive(Debug, Clone, Copy, PartialEq, Eq)]
pub enum MMLError {
    /// A character that is neither a note letter, a rest nor a track reset.
    UnknownToken(char),
}

/// Whether `c` names a note, in either case.
pub open spec fn is_note_name(c: char) -> bool {
    ('a' <= c && c <= 'g') || ('A' <= c && c <= 'G')
}

/// Semitone offset of a note letter from A: c d e f g a b map to
/// -9 -7 -5 -4 -2 0 2.
pub open spec fn relative_key(c: char) -> int {
    if c == 'c' || c == 'C' {
        -9
    } else if c == 'd' || c == 'D' {
        -7
    } else if c == 'e' || c == 'E' {
        -5
    } else if c == 'f' || c == 'F' {
        -4
    } else if c == 'g' || c == 'G' {
        -2
    } else if c == 'a' || c == 'A' {
        0
    } else {
        2
    }
}

/// The semitone offset of note letter `name` from A4.
pub fn note_name_to_relative_key(name: char) -> (r: i8)
    requires
        is_note_name(name),
    ensures
        r == relative_key(name),
{
    match name {
        'c' | 'C' => -9,
        'd' | 'D' => -7,
        'e' | 'E' => -5,
        'f' | 'F' => -4,
        'g' | 'G' => -2,
        'a' | 'A' => 0,
        _ => 2,
    }
}

/// Beats per minute; every token lasts an eighth note.
pub const TEMPO: u64 = 120;

/// Seconds per step, as the fraction `STEP_NUM / TEMPO` (an eighth note is
/// `240 / TEMPO / 8` seconds).
pub const STEP_NUM: u64 = 30;

/// What happens to a key at an event.
#[derive(Debug, Clone, Copy, PartialEq, Eq)]
pub enum EventType {
    NoteOn(i8),
    NoteOff(i8),
}

/// An event of a timeline; `position` counts eighth-note steps from the start.
#[derive(Debug, Clone, Copy, PartialEq, Eq)]
pub struct Event {
    pub position: u64,
    pub event_type: EventType,
}

impl EventType {
    /// What the event does to a synth's state.
    pub open spec fn applied(self, v: SynthView) -> SynthView {
        match self {
            EventType::NoteOn(key) => v.note_on(key),
            EventType::NoteOff(key) => v.note_off(key),
        }
    }

    /// This event at step `position`.
    pub fn at(self, position: u64) -> (r: Event)
        ensures
            r == (Event { position, event_type: self }),
    {
        Event { position, event_type: self }
    }

    pub fn apply_to_synth(&self, synth: &mut Synth)
        requires
            old(synth).wf(),
        ensures
            final(synth).wf(),
            final(synth)@ == self.applied(old(synth)@),
    {
        match self {
            EventType::NoteOn(key) => synth.note_on(*key),
            EventType::NoteOff(key) => synth.note_off(*key),
        }
    }
}

impl Event {
    pub fn apply_to_synth(&self, synth: &mut Synth)
        requires
            old(synth).wf(),
        ensures
            final(synth).wf(),
            final(synth)@ == self.event_type.applied(old(synth)@),
    {
        self.event_type.apply_to_synth(synth);
    }

    /// Whether the event is due at sample `tick` when sampling at
    /// `sampling_rate` ticks per second: `tick / sampling_rate` seconds is
    /// no earlier than the event's time.
    pub fn is_fired_at(&self, tick: u64, sampling_rate: u64) -> (r: bool)
        ensures
            r == (tick * TEMPO >= self.position * STEP_NUM * sampling_rate),
    {
        let now = tick as u128 * TEMPO as u128;
        let start = self.position as u128 * STEP_NUM as u128;
        assert(start * sampling_rate >= 0) by (nonlinear_arith)
            requires
                start >= 0,
                sampling_rate >= 0,
        ;
        match start.checked_mul(sampling_rate as u128) {
            Some(due) => now >= due,
            None => false,
        }
    }
}

/// Whether `c` is a note letter of the language (lower case only).
pub open spec fn is_note_letter(c: char) -> bool {
    'a' <= c && c <= 'g'
}

/// Whether `c` is a token of the language: a note letter, a rest `r`, or
/// `;`, which starts a new track back at the beginning.
pub open spec fn is_token(c: char) -> bool {
    is_note_letter(c) || c == 'r' || c == ';'
}

/// The step at which the token after `s` starts.
pub open spec fn cursor_after(s: Seq<char>) -> nat
    decreases s.len(),
{
    if s.len() == 0 {
        0
    } else {
        let p = cursor_after(s.drop_last());
        let c = s.last();
        if is_note_letter(c) || c == 'r' {
            p + 1
        } else if c == ';' {
            0
        } else {
            p
        }
    }
}

/// The events of `s` in the order the text gives them: each note letter
/// presses its key at the cursor and lets go one step later.
pub open spec fn events_in_text_order(s: Seq<char>) -> Seq<Event>
    decreases s.len(),
{
    if s.len() == 0 {
        Seq::empty()
    } else {
        let prev = events_in_text_order(s.drop_last());
        let p = cursor_after(s.drop_last());
        let c = s.last();
        if is_note_letter(c) {
            let key = (A_4 + relative_key(c)) as i8;
            prev.push(Event { position: p as u64, event_type: EventType::NoteOn(key) }).push(
                Event { position: (p + 1) as u64, event_type: EventType::NoteOff(key) },
            )
        } else {
            prev
        }
    }
}

/// Selects the events at step `p`.
pub open spec fn at_position(p: u64) -> spec_fn(Event) -> bool {
    |e: Event| e.position == p
}

/// Whether positions never decrease along `s`.
pub open spec fn sorted_by_position(s: Seq<Event>) -> bool {
    forall|i: int, j: int| 0 <= i <= j < s.len() ==> s[i].position <= s[j].position
}

/// `r` is `s` stably sorted by position: sorted, and at each position the
/// same events in the same order.
pub open spec fn is_stable_sort_of(r: Seq<Event>, s: Seq<Event>) -> bool {
    &&& sorted_by_position(r)
    &&& forall|p: u64| #[trigger] r.filter(at_position(p)) == s.filter(at_position(p))
}

proof fn lemma_filter_none<A>(s: Seq<A>, f: spec_fn(A) -> bool)
    requires
        forall|i: int| 0 <= i < s.len() ==> !f(s[i]),
    ensures
        s.filter(f) == Seq::<A>::empty(),
{
    broadcast use vstd::seq_lib::group_filter_ensures;

    if s.filter(f).len() > 0 {
        s.lemma_filter_contains_rev(f, s.filter(f)[0]);
    }
    assert(s.filter(f) =~= Seq::<A>::empty());
}

proof fn lemma_filter_push<A>(s: Seq<A>, x: A, f: spec_fn(A) -> bool)
    ensures
        s.push(x).filter(f) == if f(x) {
            s.filter(f).push(x)
        } else {
            s.filter(f)
        },
{
    reveal(Seq::filter);
    assert(s.push(x).drop_last() =~= s);
}

/// Inserting `e` after every event at or before its position keeps `r`
/// sorted and appends `e` to the events at its position.
proof fn lemma_insert_sorted(r: Seq<Event>, k: int, e: Event)
    requires
        sorted_by_position(r),
        0 <= k <= r.len(),
        forall|i: int| 0 <= i < k ==> r[i].position <= e.position,
        forall|i: int| k <= i < r.len() ==> r[i].position > e.position,
    ensures
        sorted_by_position(r.insert(k, e)),
        forall|p: u64|
            #[trigger] r.insert(k, e).filter(at_position(p)) == if p == e.position {
                r.filter(at_position(p)).push(e)
            } else {
                r.filter(at_position(p))
            },
{
    let t = r.insert(k, e);
    assert(t =~= r.take(k) + seq![e] + r.skip(k));
    assert(r =~= r.take(k) + r.skip(k));
    assert forall|p: u64|
        #[trigger] t.filter(at_position(p)) == if p == e.position {
            r.filter(at_position(p)).push(e)
        } else {
            r.filter(at_position(p))
        } by {
        let f = at_position(p);
        Seq::filter_distributes_over_add(r.take(k) + seq![e], r.skip(k), f);
        Seq::filter_distributes_over_add(r.take(k), seq![e], f);
        Seq::filter_distributes_over_add(r.take(k), r.skip(k), f);
        lemma_filter_push(Seq::<Event>::empty(), e, f);
        assert(seq![e] =~= Seq::<Event>::empty().push(e));
        assert(Seq::<Event>::empty().filter(f) =~= Seq::<Event>::empty()) by {
            reveal(Seq::filter);
        }
        if p == e.position {
            lemma_filter_none(r.skip(k), f);
            assert(r.take(k).filter(f) + seq![e].filter(f) + r.skip(k).filter(f) =~= (r.take(
                k,
            ).filter(f) + r.skip(k).filter(f)).push(e));
        } else {
            assert(r.take(k).filter(f) + seq![e].filter(f) + r.skip(k).filter(f) =~= r.take(
                k,
            ).filter(f) + r.skip(k).filter(f));
        }
    }
}

/// Sorts `events` by position, keeping the order of events that share one.
fn sort_by_position(events: &Vec<Event>) -> (r: Vec<Event>)
    ensures
        is_stable_sort_of(r@, events@),
{
    let mut out: Vec<Event> = Vec::new();
    let mut i: usize = 0;
    assert forall|p: u64| #[trigger] out@.filter(at_position(p)) == events@.take(0).filter(
        at_position(p),
    ) by {
        reveal(Seq::filter);
        assert(events@.take(0) =~= out@);
    }
    while i < events.len()
        invariant
            i <= events@.len(),
            is_stable_sort_of(out@, events@.take(i as int)),
            out@.len() <= i,
        decreases events@.len() - i,
    {
        let e = events[i];
        let mut k: usize = out.len();
        while k > 0 && out[k - 1].position > e.position
            invariant
                k <= out@.len(),
                forall|j: int| k <= j < out@.len() ==> out@[j].position > e.position,
            decreases k,
        {
            k -= 1;
        }
        proof {
            assert forall|j: int| 0 <= j < k implies out@[j].position <= e.position by {
                assert(out@[j].position <= out@[k - 1].position);
            }
            lemma_insert_sorted(out@, k as int, e);
            assert(events@.take(i + 1) =~= events@.take(i as int).push(e));
            assert forall|p: u64| #[trigger]
                events@.take(i + 1).filter(at_position(p)) == if p == e.position {
                    events@.take(i as int).filter(at_position(p)).push(e)
                } else {
                    events@.take(i as int).filter(at_position(p))
                } by {
                lemma_filter_push(events@.take(i as int), e, at_position(p));
            }
        }
        out.insert(k, e);
        i += 1;
    }
    assert(events@.take(events@.len() as int) =~= events@);
    out
}

/// The first character of `s` that is not a token, if any, is at `i`.
pub open spec fn first_unknown_at(s: Seq<char>, i: int) -> bool {
    &&& 0 <= i < s.len()
    &&& !is_token(s[i])
    &&& forall|j: int| 0 <= j < i ==> is_token(s[j])
}

/// Reads a piece of music text into its events, sorted by position.
/// Events at the same position keep the order of the text. The first
/// character that is not a token is reported and nothing else is produced.
pub fn mml_to_sorted_events(mml: &str) -> (r: Result<Vec<Event>, MMLError>)
    requires
        mml@.len() < u64::MAX,
    ensures
        r is Ok <==> forall|i: int| 0 <= i < mml@.len() ==> is_token(#[trigger] mml@[i]),
        match r {
            Ok(events) => is_stable_sort_of(events@, events_in_text_order(mml@)),
            Err(MMLError::UnknownToken(c)) => exists|i: int|
                first_unknown_at(mml@, i) && mml@[i] == c,
        },
{
    let mut elapsed: u64 = 0;
    let mut events: Vec<Event> = Vec::new();
    for ch in it: mml.chars()
        invariant
            it.seq() == mml@,
            mml@.len() < u64::MAX,
            elapsed == cursor_after(mml@.take(it.index() as int)),
            elapsed <= it.index(),
            events@ == events_in_text_order(mml@.take(it.index() as int)),
            forall|j: int| 0 <= j < it.index() ==> is_token(#[trigger] mml@[j]),
    {
        let ghost i = it.index() as int;
        proof {
            assert(mml@.take(i + 1).drop_last() =~= mml@.take(i));
            assert(mml@.take(i + 1).last() == ch);
        }
        if 'a' <= ch && ch <= 'g' {
            let key = note_name_to_relative_key(ch) + A_4;
            events.push(EventType::NoteOn(key).at(elapsed));
            events.push(EventType::NoteOff(key).at(elapsed + 1));
            elapsed += 1;
        } else if ch == 'r' {
            elapsed += 1;
        } else if ch == ';' {
            elapsed = 0;
        } else {
            return Err(MMLError::UnknownToken(ch));
        }
    }
    assert(mml@.take(mml@.len() as int) =~= mml@);
    Ok(sort_by_position(&events))
}

} // verus!
