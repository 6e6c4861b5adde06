//! Phase timing, as a table meant to be compared against another run.
//!
//! Off by default and free when off: a span reads no clock and records
//! nothing unless profiling is on. The clock is read through two small
//! trusted calls; what a profile records, and when, is decided here. Printing
//! the table happens outside the library.

use vstd::prelude::*;

verus! {

#[verifier::external_type_specification]
#[verifier::external_body]
pub struct ExInstant(std::time::Instant);

/// `Instant::now`. What it returns depends on the machine's clock, so
/// nothing is said of it.
#[verifier::external_body]
pub fn now() -> (t: std::time::Instant) {
    std::time::Instant::now()
}

/// `Instant::elapsed`, in nanoseconds. What it returns depends on the
/// machine's clock, so nothing is said of it.
#[verifier::external_body]
fn nanos_since(started: &std::time::Instant) -> (n: u128) {
    started.elapsed().as_nanos()
}

/// One measured phase.
pub struct Phase {
    pub name: &'static str,
    /// How long it took, in nanoseconds.
    pub elapsed: u128,
    /// What the phase did: file counts, a skip ratio.
    pub note: Option<String>,
}

/// The phases measured so far, when profiling is on.
pub struct Profile {
    on: bool,
    phases: Vec<Phase>,
}

/// A phase as plain values: its name and note. How long it took is not
/// modelled: it depends on the clock.
pub open spec fn phase_view(p: Phase) -> (Seq<char>, Option<Seq<char>>) {
    (p.name@, crate::text::opt_view(p.note))
}

impl Profile {
    /// The names and notes of the phases recorded, in order.
    pub closed spec fn recorded(&self) -> Seq<(Seq<char>, Option<Seq<char>>)> {
        self.phases@.map_values(|p: Phase| phase_view(p))
    }

    pub closed spec fn is_on(&self) -> bool {
        self.on
    }

    /// A profile that records when `on`, with nothing recorded yet.
    pub fn new(on: bool) -> (p: Profile)
        ensures
            p.is_on() == on,
            p.recorded() == Seq::<(Seq<char>, Option<Seq<char>>)>::empty(),
    {
        let p = Profile { on, phases: Vec::new() };
        assert(p.recorded() =~= Seq::<(Seq<char>, Option<Seq<char>>)>::empty());
        p
    }

    /// Whether profiling is on.
    pub fn enabled(&self) -> (r: bool)
        ensures
            r == self.is_on(),
    {
        self.on
    }

    /// The phases recorded, in order.
    pub fn phases(&self) -> (r: &Vec<Phase>)
        ensures
            r@.map_values(|p: Phase| phase_view(p)) == self.recorded(),
    {
        &self.phases
    }

    /// Record a phase.
    pub fn record(&mut self, name: &'static str, elapsed: u128, note: Option<String>)
        ensures
            final(self).is_on() == old(self).is_on(),
            final(self).recorded() == old(self).recorded().push((name@, crate::text::opt_view(note))),
    {
        let ghost was = self.recorded();
        let ghost nv = crate::text::opt_view(note);
        self.phases.push(Phase { name, elapsed, note });
        assert(self.recorded() =~= was.push((name@, nv)));
    }

    /// Time a phase, recording it only when profiling is on. Either way the
    /// body runs once and its value is returned.
    pub fn span<T, F: FnOnce() -> T>(&mut self, name: &'static str, body: F) -> (r: T)
        requires
            body.requires(()),
        ensures
            body.ensures((), r),
            final(self).is_on() == old(self).is_on(),
            old(self).is_on() ==> final(self).recorded() == old(self).recorded().push((name@, None)),
            !old(self).is_on() ==> final(self).recorded() == old(self).recorded(),
    {
        if !self.on {
            return body();
        }
        let started = now();
        let out = body();
        let elapsed = nanos_since(&started);
        self.record(name, elapsed, None);
        out
    }

    /// Record a phase the caller timed. The note is only composed when
    /// profiling is on.
    pub fn mark<F: FnOnce() -> String>(&mut self, name: &'static str, started: std::time::Instant, note: F)
        requires
            note.requires(()),
        ensures
            final(self).is_on() == old(self).is_on(),
            old(self).is_on() ==> exists|text: String|
                note.ensures((), text) && final(self).recorded() == old(self).recorded().push(
                    (name@, Some(text@)),
                ),
            !old(self).is_on() ==> final(self).recorded() == old(self).recorded(),
    {
        if !self.on {
            return;
        }
        let elapsed = nanos_since(&started);
        let text = note();
        self.record(name, elapsed, Some(text));
        assert(note.ensures((), text));
    }

    /// Time a phase and describe what it did; the description sees the
    /// body's value and is only composed when profiling is on.
    pub fn span_noted<T, F: FnOnce() -> T, N: FnOnce(&T) -> String>(
        &mut self,
        name: &'static str,
        body: F,
        note: N,
    ) -> (r: T)
        requires
            body.requires(()),
            forall|v: T| body.ensures((), v) ==> note.requires((&v,)),
        ensures
            body.ensures((), r),
            final(self).is_on() == old(self).is_on(),
            !old(self).is_on() ==> final(self).recorded() == old(self).recorded(),
            old(self).is_on() ==> exists|text: String|
                note.ensures((&r,), text) && final(self).recorded() == old(self).recorded().push(
                    (name@, Some(text@)),
                ),
    {
        if !self.on {
            return body();
        }
        let started = now();
        let out = body();
        let elapsed = nanos_since(&started);
        let text = note(&out);
        self.record(name, elapsed, Some(text));
        assert(note.ensures((&out,), text));
        out
    }
}

} // verus!
