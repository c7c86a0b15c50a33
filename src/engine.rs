//! The note engine: which keys are held, which are fading out, and what
//! each of them contributes to the next sample.
use vstd::prelude::*;
use crate::envelope::Envelope;
use crate::level::Gain;

verus! {

/// Number of distinct keys: one slot per `i8` value.
pub const KEY_SLOTS: usize = 256;

/// The slot that holds `key`.
pub open spec fn slot_of(key: i8) -> int {
    key as int + 128
}

/// The key held in slot `i`.
pub open spec fn key_of_slot(i: int) -> i8 {
    (i - 128) as i8
}

/// One more tick, stopping at the largest representable count.
pub open spec fn tick(x: u64) -> u64 {
    if x < u64::MAX {
        (x + 1) as u64
    } else {
        x
    }
}

/// The state of one sounding key.
#[derive(Debug, Clone, Copy, PartialEq, Eq)]
pub struct Note {
    /// Ticks since the key was struck. The oscillator phase in cycles is
    /// `phase * freq / sampling_rate`, so it is never wrapped.
    pub phase: u64,
    /// Ticks since the note entered its current stage (held or released).
    pub elapsed: u64,
}

impl Note {
    /// The note one tick later.
    pub open spec fn advanced(self) -> Note {
        Note { phase: tick(self.phase), elapsed: tick(self.elapsed) }
    }

    /// A freshly struck note.
    pub fn struck() -> (r: Note)
        ensures
            r == (Note { phase: 0, elapsed: 0 }),
    {
        Note { phase: 0, elapsed: 0 }
    }

    fn advance(self) -> (r: Note)
        ensures
            r == self.advanced(),
    {
        let phase = if self.phase < u64::MAX {
            self.phase + 1
        } else {
            self.phase
        };
        let elapsed = if self.elapsed < u64::MAX {
            self.elapsed + 1
        } else {
            self.elapsed
        };
        Note { phase, elapsed }
    }
}

/// What one note contributes to a sample: the caller renders the
/// oscillators for `key` at `phase` and scales their sum by `gain`.
#[derive(Debug, Clone, Copy, PartialEq, Eq)]
pub struct Partial {
    pub key: i8,
    pub phase: u64,
    pub gain: Gain,
}

/// The gain of a held note: the envelope's multiplier, or full scale when
/// there is no envelope.
pub open spec fn held_gain(envelope: Option<Envelope>, n: Note) -> Gain {
    match envelope {
        Some(e) => e.multiplier_spec(n.elapsed as int),
        None => Gain::unity(),
    }
}

/// The gain of a released note: the envelope's release multiplier, or
/// silence once the release is over or when there is no envelope.
pub open spec fn released_gain(envelope: Option<Envelope>, n: Note) -> Gain {
    match envelope {
        Some(e) => match e.release_multiplier_spec(n.elapsed as int) {
            Some(g) => g,
            None => Gain::silent(),
        },
        None => Gain::silent(),
    }
}

/// Whether a released note is kept after a tick.
pub open spec fn still_releasing(envelope: Option<Envelope>, n: Note) -> bool {
    match envelope {
        Some(e) => n.elapsed < e.release,
        None => false,
    }
}

/// The abstract state of a [`Synth`].
pub struct SynthView {
    pub envelope: Option<Envelope>,
    /// Held notes, at most one per key.
    pub ringing: Map<i8, Note>,
    /// Notes fading out, in the order they were released; a key may occur
    /// more than once.
    pub releasing: Seq<(i8, Note)>,
}

impl SynthView {
    pub open spec fn wf(self) -> bool {
        self.envelope is Some ==> self.envelope->0.wf()
    }

    /// Striking `key`: its held note restarts; released notes are untouched.
    pub open spec fn note_on(self, key: i8) -> SynthView {
        SynthView {
            envelope: self.envelope,
            ringing: self.ringing.insert(key, Note { phase: 0, elapsed: 0 }),
            releasing: self.releasing,
        }
    }

    /// Letting go of `key`: a held note leaves the held set and, when an
    /// envelope is installed, starts its release with its phase kept.
    pub open spec fn note_off(self, key: i8) -> SynthView {
        if self.ringing.contains_key(key) {
            SynthView {
                envelope: self.envelope,
                ringing: self.ringing.remove(key),
                releasing: if self.envelope is Some {
                    self.releasing.push((key, Note { phase: self.ringing[key].phase, elapsed: 0 }))
                } else {
                    self.releasing
                },
            }
        } else {
            self
        }
    }

    pub open spec fn set_envelope(self, envelope: Option<Envelope>) -> SynthView {
        SynthView { envelope, ringing: self.ringing, releasing: self.releasing }
    }

    /// The partial of the held note on `key`.
    pub open spec fn held_partial(self, key: i8) -> Partial {
        Partial {
            key,
            phase: self.ringing[key].phase,
            gain: held_gain(self.envelope, self.ringing[key]),
        }
    }

    /// The partial of a released note.
    pub open spec fn released_partial(self, r: (i8, Note)) -> Partial {
        Partial { key: r.0, phase: r.1.phase, gain: released_gain(self.envelope, r.1) }
    }

    /// Partials of the held notes in the first `n` slots, in key order.
    pub open spec fn held_partials(self, n: int) -> Seq<Partial>
        decreases n,
    {
        if n <= 0 {
            Seq::empty()
        } else {
            let rest = self.held_partials(n - 1);
            if self.ringing.contains_key(key_of_slot(n - 1)) {
                rest.push(self.held_partial(key_of_slot(n - 1)))
            } else {
                rest
            }
        }
    }

    /// Everything that sounds in the next sample: held notes in key order,
    /// then released notes in release order.
    pub open spec fn frame(self) -> Seq<Partial> {
        self.held_partials(KEY_SLOTS as int) + self.releasing.map_values(
            |r: (i8, Note)| self.released_partial(r),
        )
    }

    /// The state one tick later: every note advances, and released notes
    /// whose release is over are dropped.
    pub open spec fn advanced(self) -> SynthView {
        SynthView {
            envelope: self.envelope,
            ringing: self.ringing.map_values(|n: Note| n.advanced()),
            releasing: self.releasing.map_values(|r: (i8, Note)| (r.0, r.1.advanced())).filter(
                |r: (i8, Note)| still_releasing(self.envelope, r.1),
            ),
        }
    }
}

/// A polyphonic note engine. Held notes live in one slot per key, released
/// notes in a list.
pub struct Synth {
    envelope: Option<Envelope>,
    ringing: Vec<Option<Note>>,
    releasing: Vec<(i8, Note)>,
}

impl View for Synth {
    type V = SynthView;

    closed spec fn view(&self) -> SynthView {
        SynthView {
            envelope: self.envelope,
            ringing: Map::new(
                |k: i8| self.ringing@[slot_of(k)] is Some,
                |k: i8| self.ringing@[slot_of(k)]->0,
            ),
            releasing: self.releasing@,
        }
    }
}

fn slot(key: i8) -> (r: usize)
    ensures
        r == slot_of(key),
        r < KEY_SLOTS,
{
    (key as i16 + 128) as usize
}

impl Synth {
    pub closed spec fn wf(&self) -> bool {
        &&& self.ringing@.len() == KEY_SLOTS
        &&& self@.wf()
    }

    /// An engine with no notes and no envelope.
    pub fn new() -> (r: Synth)
        ensures
            r.wf(),
            r@.envelope is None,
            r@.ringing == Map::<i8, Note>::empty(),
            r@.releasing == Seq::<(i8, Note)>::empty(),
    {
        let mut ringing: Vec<Option<Note>> = Vec::new();
        while ringing.len() < KEY_SLOTS
            invariant
                ringing@.len() <= KEY_SLOTS,
                forall|i: int| 0 <= i < ringing@.len() ==> ringing@[i] is None,
            decreases KEY_SLOTS - ringing@.len(),
        {
            ringing.push(None);
        }
        let r = Synth { envelope: None, ringing, releasing: Vec::new() };
        assert(r@.ringing =~= Map::<i8, Note>::empty());
        r
    }

    /// Installs or clears the envelope shared by all notes.
    pub fn set_envelope(&mut self, envelope: Option<Envelope>)
        requires
            old(self).wf(),
            envelope is Some ==> envelope->0.wf(),
        ensures
            final(self).wf(),
            final(self)@ == old(self)@.set_envelope(envelope),
    {
        self.envelope = envelope;
        assert(self@.ringing =~= old(self)@.ringing);
    }

    /// Strikes `key`, restarting it if it is already held.
    pub fn note_on(&mut self, key: i8)
        requires
            old(self).wf(),
        ensures
            final(self).wf(),
            final(self)@ == old(self)@.note_on(key),
    {
        let i = slot(key);
        self.ringing.set(i, Some(Note::struck()));
        assert(self@.ringing =~= old(self)@.ringing.insert(key, Note { phase: 0, elapsed: 0 }));
    }

    /// Lets go of `key`; nothing happens when it is not held.
    pub fn note_off(&mut self, key: i8)
        requires
            old(self).wf(),
        ensures
            final(self).wf(),
            final(self)@ == old(self)@.note_off(key),
    {
        let i = slot(key);
        if let Some(note) = self.ringing[i] {
            self.ringing.set(i, None);
            if self.envelope.is_some() {
                self.releasing.push((key, Note { phase: note.phase, elapsed: 0 }));
            }
            assert(self@.ringing =~= old(self)@.ringing.remove(key));
        } else {
            assert(self@ =~= old(self)@);
        }
    }

    fn held_gain(&self, n: Note) -> (r: Gain)
        requires
            self.wf(),
        ensures
            r == held_gain(self@.envelope, n),
    {
        match self.envelope {
            Some(e) => e.multiplier(n.elapsed),
            None => Gain { num: 1, den: 1 },
        }
    }

    fn released_gain(&self, n: Note) -> (r: Gain)
        requires
            self.wf(),
        ensures
            r == released_gain(self@.envelope, n),
    {
        match self.envelope {
            Some(e) => match e.release_multiplier(n.elapsed) {
                Some(g) => g,
                None => Gain { num: 0, den: 1 },
            },
            None => Gain { num: 0, den: 1 },
        }
    }

    fn still_releasing(&self, n: Note) -> (r: bool)
        ensures
            r == still_releasing(self@.envelope, n),
    {
        match self.envelope {
            Some(e) => e.is_releasing(n.elapsed),
            None => false,
        }
    }

    /// Produces one sample: `frame` receives what every note contributes at
    /// the current tick (read before anything moves), then every note
    /// advances one tick and released notes whose release is over are
    /// dropped. `frame` is cleared first and otherwise only pushed to, so a
    /// buffer reused from tick to tick does not allocate once warm.
    pub fn sample(&mut self, frame: &mut Vec<Partial>)
        requires
            old(self).wf(),
        ensures
            final(self).wf(),
            final(frame)@ == old(self)@.frame(),
            final(self)@ == old(self)@.advanced(),
    {
        let ghost v = self@;
        frame.clear();
        let mut i: usize = 0;
        while i < KEY_SLOTS
            invariant
                i <= KEY_SLOTS,
                self.wf(),
                self@ == v,
                frame@ == v.held_partials(i as int),
            decreases KEY_SLOTS - i,
        {
            assert(slot_of(key_of_slot(i as int)) == i);
            if let Some(n) = self.ringing[i] {
                let gain = self.held_gain(n);
                frame.push(Partial { key: (i as i16 - 128) as i8, phase: n.phase, gain });
            }
            i += 1;
        }
        let mut j: usize = 0;
        while j < self.releasing.len()
            invariant
                j <= self.releasing@.len(),
                self.wf(),
                self@ == v,
                frame@ == v.held_partials(KEY_SLOTS as int) + v.releasing.take(j as int).map_values(
                    |r: (i8, Note)| v.released_partial(r),
                ),
            decreases self.releasing@.len() - j,
        {
            let (key, n) = self.releasing[j];
            let gain = self.released_gain(n);
            frame.push(Partial { key, phase: n.phase, gain });
            proof {
                assert(v.releasing.take(j + 1) =~= v.releasing.take(j as int).push((key, n)));
                assert(v.releasing.take(j + 1).map_values(|r: (i8, Note)| v.released_partial(r))
                    =~= v.releasing.take(j as int).map_values(
                    |r: (i8, Note)| v.released_partial(r),
                ).push(v.released_partial((key, n))));
            }
            j += 1;
        }
        assert(v.releasing.take(v.releasing.len() as int) =~= v.releasing);
        self.advance_held();
        self.advance_released();
        assert(self@ =~= v.advanced());
    }

    fn advance_held(&mut self)
        requires
            old(self).wf(),
        ensures
            final(self).wf(),
            final(self)@.envelope == old(self)@.envelope,
            final(self)@.releasing == old(self)@.releasing,
            final(self)@.ringing == old(self)@.advanced().ringing,
    {
        let ghost old_slots = self.ringing@;
        let mut i: usize = 0;
        while i < KEY_SLOTS
            invariant
                i <= KEY_SLOTS,
                self.wf(),
                self.envelope == old(self).envelope,
                self.releasing == old(self).releasing,
                old_slots.len() == KEY_SLOTS,
                forall|s: int|
                    0 <= s < i ==> #[trigger] self.ringing@[s] == match old_slots[s] {
                        Some(n) => Some(n.advanced()),
                        None => None,
                    },
                forall|s: int| i <= s < KEY_SLOTS ==> #[trigger] self.ringing@[s] == old_slots[s],
            decreases KEY_SLOTS - i,
        {
            if let Some(n) = self.ringing[i] {
                self.ringing.set(i, Some(n.advance()));
            }
            i += 1;
        }
        assert(self@.ringing =~= old(self)@.advanced().ringing);
    }

    fn advance_released(&mut self)
        requires
            old(self).wf(),
        ensures
            final(self).wf(),
            final(self)@.envelope == old(self)@.envelope,
            final(self)@.ringing == old(self)@.ringing,
            final(self)@.releasing == old(self)@.advanced().releasing,
    {
        let ghost v = self@;
        let ghost moved = v.releasing.map_values(|r: (i8, Note)| (r.0, r.1.advanced()));
        let ghost keep = |r: (i8, Note)| still_releasing(v.envelope, r.1);
        assert(v.advanced().releasing == moved.filter(keep));
        assert(moved.len() == v.releasing.len());
        assert(forall|t: int|
            0 <= t < moved.len() ==> #[trigger] moved[t] == (v.releasing[t].0, v.releasing[
                t
            ].1.advanced()));
        let len = self.releasing.len();
        let mut w: usize = 0;
        let mut r: usize = 0;
        while r < len
            invariant
                w <= r <= len,
                len == v.releasing.len(),
                moved.len() == len,
                forall|t: int|
                    0 <= t < len ==> #[trigger] moved[t] == (v.releasing[t].0, v.releasing[
                        t
                    ].1.advanced()),
                forall|x: (i8, Note)| #[trigger] keep(x) == still_releasing(v.envelope, x.1),
                self.releasing@.len() == len,
                self.envelope == v.envelope,
                self.ringing == old(self).ringing,
                self.wf(),
                self.releasing@.take(w as int) == moved.take(r as int).filter(keep),
                forall|t: int| r <= t < len ==> #[trigger] self.releasing@[t] == v.releasing[t],
            decreases len - r,
        {
            let (key, n) = self.releasing[r];
            let n2 = n.advance();
            let ghost before = self.releasing@;
            proof {
                assert(self.releasing@[r as int] == v.releasing[r as int]);
                assert(moved[r as int] == (key, n2));
                assert(moved.take(r + 1) =~= moved.take(r as int).push((key, n2)));
                assert(moved.take(r + 1).drop_last() =~= moved.take(r as int));
                assert(moved.take(r + 1).last() == (key, n2));
                reveal(Seq::filter);
                assert(moved.take(r + 1).filter(keep) == if keep((key, n2)) {
                    moved.take(r as int).filter(keep).push((key, n2))
                } else {
                    moved.take(r as int).filter(keep)
                });
            }
            if self.still_releasing(n2) {
                self.releasing.set(w, (key, n2));
                assert(self.releasing@.take(w + 1) =~= before.take(w as int).push((key, n2)));
                w += 1;
            } else {
                assert(self.releasing@.take(w as int) =~= before.take(w as int));
            }
            r += 1;
        }
        self.releasing.truncate(w);
        assert(moved.take(len as int) =~= moved);
        assert(self.releasing@ =~= self.releasing@.take(w as int));
    }
}

/// Every held partial belongs to a held key.
proof fn lemma_held_partials_keys(v: SynthView, n: int)
    ensures
        forall|i: int|
            0 <= i < v.held_partials(n).len() ==> v.ringing.contains_key(
                #[trigger] v.held_partials(n)[i].key,
            ),
    decreases n,
{
    if n > 0 {
        lemma_held_partials_keys(v, n - 1);
        let rest = v.held_partials(n - 1);
        assert forall|i: int| 0 <= i < v.held_partials(n).len() implies v.ringing.contains_key(
            #[trigger] v.held_partials(n)[i].key,
        ) by {
            if i < rest.len() {
                assert(v.held_partials(n)[i] == rest[i]);
            }
        }
    }
}

/// Without an envelope, letting go of a key silences it from the very next
/// sample: every partial of that key in the next frame has zero gain.
pub proof fn lemma_note_off_without_envelope_is_silent(v: SynthView, key: i8)
    requires
        v.wf(),
        v.envelope is None,
    ensures
        forall|i: int|
            0 <= i < v.note_on(key).note_off(key).frame().len()
                && #[trigger] v.note_on(key).note_off(key).frame()[i].key == key
                ==> v.note_on(key).note_off(key).frame()[i].gain.num == 0,
{
    let w = v.note_on(key).note_off(key);
    lemma_held_partials_keys(w, KEY_SLOTS as int);
    assert(!w.ringing.contains_key(key));
}

/// With an envelope, letting go of a key during its sustain stage causes no
/// jump: the released note carries the held note's phase, and its gain has
/// the same value as the gain it had while held.
pub proof fn lemma_release_is_continuous(v: SynthView, key: i8)
    requires
        v.wf(),
        v.envelope is Some,
        v.ringing.contains_key(key),
        v.ringing[key].elapsed >= v.envelope->0.attack + v.envelope->0.decay,
        v.envelope->0.release > 0,
    ensures
        v.note_off(key).releasing.last().0 == key,
        v.note_off(key).released_partial(v.note_off(key).releasing.last()).phase == v.held_partial(
            key,
        ).phase,
        v.note_off(key).released_partial(v.note_off(key).releasing.last()).gain.num
            * v.held_partial(key).gain.den == v.held_partial(key).gain.num
            * v.note_off(key).released_partial(v.note_off(key).releasing.last()).gain.den,
        v.note_off(key).frame().last() == v.note_off(key).released_partial(
            v.note_off(key).releasing.last(),
        ),
{
    let env = v.envelope->0;
    let w = v.note_off(key);
    crate::envelope::lemma_release_ramp(env, 0);
    let held = v.held_partial(key).gain;
    let rel = w.released_partial(w.releasing.last()).gain;
    assert(held == Gain { num: env.sustain.num as u128, den: env.sustain.den as u128 });
    let (sn, sd, r) = (env.sustain.num as int, env.sustain.den as int, env.release as int);
    assert(rel.num * sd == sn * rel.den);
    assert(rel.num * held.den == held.num * rel.den);
    let f = |x: (i8, Note)| w.released_partial(x);
    assert(w.frame().last() == w.releasing.map_values(f).last());
}

/// A released note stays exactly while its release lasts: after a tick,
/// the advanced entry is still in the released list if and only if its
/// elapsed time is below the release duration.
pub proof fn lemma_release_ends_on_time(v: SynthView, i: int)
    requires
        v.wf(),
        v.envelope is Some,
        0 <= i < v.releasing.len(),
    ensures
        v.advanced().releasing.contains((v.releasing[i].0, v.releasing[i].1.advanced()))
            <==> v.releasing[i].1.advanced().elapsed < v.envelope->0.release,
{
    broadcast use vstd::seq_lib::group_filter_ensures;

    let moved = v.releasing.map_values(|r: (i8, Note)| (r.0, r.1.advanced()));
    let keep = |r: (i8, Note)| still_releasing(v.envelope, r.1);
    let x = (v.releasing[i].0, v.releasing[i].1.advanced());
    assert(moved[i] == x);
    assert(v.advanced().releasing == moved.filter(keep));
    if moved.filter(keep).contains(x) {
        let k = choose|k: int| 0 <= k < moved.filter(keep).len() && moved.filter(keep)[k] == x;
        assert(keep(moved.filter(keep)[k]));
    }
}

/// Striking a key again restarts its held note from phase and elapsed time
/// zero, and leaves every released note, of that key or any other, as it
/// was.
pub proof fn lemma_retrigger(v: SynthView, key: i8)
    requires
        v.wf(),
    ensures
        v.note_on(key).ringing.contains_key(key),
        v.note_on(key).ringing[key] == (Note { phase: 0, elapsed: 0 }),
        v.note_on(key).releasing == v.releasing,
{
}

} // verus!
