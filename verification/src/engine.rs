use vstd::prelude::*;
use crate::color::{identity, is_identity, Ramp};

pub mod sys;

verus! {

/// A display whose gamma ramp can be read and written.
#[derive(Clone, Debug, PartialEq, Eq)]
pub enum Display {
    /// The desktop as a whole.
    Desktop,
    /// One attached adapter, by its device name (UTF-16, NUL-terminated).
    Adapter(Vec<u16>),
}

/// Why the engine could not start.
#[derive(Clone, Copy, Debug, PartialEq, Eq, Structural)]
pub enum EngineError {
    /// Not one display gave up its current ramp.
    NoDisplay,
}

impl EngineError {
    /// The message shown for this error.
    pub fn message(&self) -> (text: &'static str)
        ensures
            text@ == "no display accepted a gamma ramp"@,
    {
        match self {
            EngineError::NoDisplay => "no display accepted a gamma ramp",
        }
    }
}

/// How much of the requested effect the driver took.
#[derive(Clone, Copy, Debug, PartialEq, Eq, Structural)]
pub enum Applied {
    /// The driver took the ramp exactly as asked.
    Full,
    /// Windows refused the full strength; this is the strength, in percent,
    /// that it accepted.
    Limited(u32),
    /// Nothing was accepted, not even a whisper of the effect.
    Rejected,
}

/// The strengths, in percent, that the engine tries in turn: Windows
/// silently rejects ramps that stray too far from linear, so the engine
/// offers the strongest one the driver will take rather than failing.
pub const BACKOFF: [u32; 7] = [100, 85, 70, 55, 40, 25, 12];

/// Number of rungs on the backoff ladder.
pub const STEPS: usize = 7;

/// What reaching rung `step` of the ladder is reported as.
pub open spec fn outcome_of(step: int) -> Applied {
    if BACKOFF@[step] >= 100 {
        Applied::Full
    } else {
        Applied::Limited(BACKOFF@[step])
    }
}

/// The next thing to do while applying settings.
#[derive(Clone, Copy, Debug, PartialEq, Eq, Structural)]
pub enum ApplyStep {
    /// The settings are neutral: put every display back (see `finish_reset`)
    /// and report what the displays took with `restore_outcome`.
    Restore,
    /// Build the ramp for this rung of `BACKOFF` and hand it to `offer`.
    Offer(usize),
    /// Applying is over, with this result.
    Done(Applied),
}

/// What turning the filter on or off asks of the engine.
#[derive(Clone, Copy, Debug, PartialEq, Eq, Structural)]
pub enum Toggle {
    /// The filter was turned on: apply the current settings.
    Apply,
    /// The filter was turned off: put the screen back with `Engine::reset`.
    Reset,
}

/// Flips whether settings are applied automatically, returning the new
/// switch and what follows from it.
pub fn toggle(auto_apply: bool) -> (next: (bool, Toggle))
    ensures
        next.0 == !auto_apply,
        next.1 == (if auto_apply { Toggle::Reset } else { Toggle::Apply }),
{
    if auto_apply {
        (false, Toggle::Reset)
    } else {
        (true, Toggle::Apply)
    }
}

/// Whether rung `step` ends the walk: its ramp is already showing, or the
/// displays take it.
pub open spec fn hit(showing: Option<Ramp>, candidates: Seq<Ramp>, taken: Seq<bool>, step: int) -> bool {
    showing == Some(candidates[step]) || taken[step]
}

/// Where walking the ladder down from rung `step` ends, given the ramp the
/// engine shows, the ramp built for each rung and whether the displays would
/// take each one: at the first rung that is a hit, or with `Rejected` below
/// the last rung.
pub open spec fn settle(showing: Option<Ramp>, candidates: Seq<Ramp>, taken: Seq<bool>, step: int) -> Applied
    decreases 7 - step,
{
    if step < 0 || step >= 7 {
        Applied::Rejected
    } else if hit(showing, candidates, taken, step) {
        outcome_of(step)
    } else {
        settle(showing, candidates, taken, step + 1)
    }
}

/// No rung taken: what this backend's displays answer to every write.
pub open spec fn none_taken() -> Seq<bool> {
    Seq::new(7, |i: int| false)
}

/// The first rung from `step` down that is a hit, or 7 if there is none.
pub open spec fn first_hit(showing: Option<Ramp>, candidates: Seq<Ramp>, taken: Seq<bool>, step: int) -> int
    decreases 7 - step,
{
    if step < 0 || step >= 7 {
        7
    } else if hit(showing, candidates, taken, step) {
        step
    } else {
        first_hit(showing, candidates, taken, step + 1)
    }
}

/// The rungs run from full strength down, each weaker than the one above it,
/// so only the first rung is reported as `Full`.
pub proof fn lemma_backoff_descends()
    ensures
        BACKOFF@.len() == STEPS,
        BACKOFF@[0] == 100,
        forall|i: int, j: int| 0 <= i < j < 7 ==> BACKOFF@[i] > BACKOFF@[j],
        forall|j: int| 0 <= j < 7 ==> BACKOFF@[j] > 0,
        outcome_of(0) == Applied::Full,
        forall|k: int| 0 < k < 7 ==> #[trigger] outcome_of(k) == Applied::Limited(BACKOFF@[k]) && BACKOFF@[k] < 100,
{
}

proof fn lemma_first_hit(showing: Option<Ramp>, candidates: Seq<Ramp>, taken: Seq<bool>, step: int)
    requires
        0 <= step <= 7,
    ensures
        step <= first_hit(showing, candidates, taken, step) <= 7,
        forall|j: int| step <= j < first_hit(showing, candidates, taken, step) ==> !#[trigger] hit(showing, candidates, taken, j),
        first_hit(showing, candidates, taken, step) < 7 ==> hit(showing, candidates, taken, first_hit(showing, candidates, taken, step)),
        settle(showing, candidates, taken, step) == if first_hit(showing, candidates, taken, step) < 7 {
            outcome_of(first_hit(showing, candidates, taken, step))
        } else {
            Applied::Rejected
        },
    decreases 7 - step,
{
    if step < 7 {
        lemma_first_hit(showing, candidates, taken, step + 1);
    }
}

/// The engine settles on the strongest rung the displays take: walking down
/// from full strength, it stops at the first rung whose ramp is showing or
/// taken, reports `Full` only if that is the full-strength rung, and reports
/// `Rejected` only when no rung is showing or taken.
pub proof fn lemma_settle_is_strongest(showing: Option<Ramp>, candidates: Seq<Ramp>, taken: Seq<bool>)
    ensures
        ({
            let k = first_hit(showing, candidates, taken, 0);
            &&& 0 <= k <= 7
            &&& forall|j: int| 0 <= j < k ==> !#[trigger] hit(showing, candidates, taken, j)
            &&& k < 7 ==> hit(showing, candidates, taken, k)
            &&& settle(showing, candidates, taken, 0) == if k == 0 {
                Applied::Full
            } else if k < 7 {
                Applied::Limited(BACKOFF@[k])
            } else {
                Applied::Rejected
            }
        }),
{
    lemma_first_hit(showing, candidates, taken, 0);
    lemma_backoff_descends();
}

/// One rung of the walk as `offer` and `after_write` take it: a ramp
/// already showing ends the walk at this rung, so does a write that some
/// display takes; otherwise the walk goes on at the next weaker rung, and
/// ends with `Rejected` after the last. This is `settle` one rung at a time.
pub proof fn lemma_settle_one_rung(showing: Option<Ramp>, candidates: Seq<Ramp>, taken: Seq<bool>, step: int)
    requires
        0 <= step < 7,
    ensures
        settle(showing, candidates, taken, step) == if showing == Some(candidates[step]) {
            outcome_of(step)
        } else if taken[step] {
            outcome_of(step)
        } else if step + 1 < 7 {
            settle(showing, candidates, taken, step + 1)
        } else {
            Applied::Rejected
        },
{
}

/// What `offer` answers for the ramp of rung `step` while the engine shows
/// `showing`: the walk is over at this rung if that ramp is already showing.
pub open spec fn offer_result(showing: Option<Ramp>, ramp: Ramp, step: int) -> Option<Applied> {
    if showing == Some(ramp) {
        Some(outcome_of(step))
    } else {
        None
    }
}

/// What comes after the ramp of rung `step` was written: done at this rung
/// if some display took it, otherwise the next weaker rung, or `Rejected`
/// after the last.
pub open spec fn next_step(taken: bool, step: int) -> ApplyStep {
    if taken {
        ApplyStep::Done(outcome_of(step))
    } else if step + 1 < 7 {
        ApplyStep::Offer((step + 1) as usize)
    } else {
        ApplyStep::Done(Applied::Rejected)
    }
}

/// What restoring the screen reports: `Full` if any display took back its
/// original ramp or took the linear fallback, `Rejected` if nothing at all
/// was accepted.
pub open spec fn restore_outcome_of(restored: Seq<bool>, linear: Seq<bool>) -> Applied {
    if restored.contains(true) || linear.contains(true) {
        Applied::Full
    } else {
        Applied::Rejected
    }
}

/// The walk that `offer` and `after_write` make from rung `step` on, given
/// the ramp built for each rung and whether the displays take each one.
pub open spec fn walk(showing: Option<Ramp>, candidates: Seq<Ramp>, taken: Seq<bool>, step: int) -> Applied
    decreases 7 - step,
{
    if step < 0 || step >= 7 {
        Applied::Rejected
    } else {
        match offer_result(showing, candidates[step], step) {
            Some(done) => done,
            None => match next_step(taken[step], step) {
                ApplyStep::Done(done) => done,
                ApplyStep::Offer(k) => if step < k < 7 {
                    walk(showing, candidates, taken, k as int)
                } else {
                    Applied::Rejected
                },
                ApplyStep::Restore => Applied::Rejected,
            },
        }
    }
}

/// After the ramp of rung `step` was written: if a display took it, applying
/// is done at that rung's strength; if none did, the very next rung is
/// offered, so no rung of the ladder is ever skipped; after the last rung,
/// nothing was taken.
pub proof fn lemma_refused_rung_offers_the_next(step: int)
    requires
        0 <= step < 7,
    ensures
        next_step(true, step) == ApplyStep::Done(if step == 0 {
            Applied::Full
        } else {
            Applied::Limited(BACKOFF@[step])
        }),
        step + 1 < 7 ==> next_step(false, step) == ApplyStep::Offer((step + 1) as usize),
        step + 1 == 7 ==> next_step(false, step) == ApplyStep::Done(Applied::Rejected),
{
    lemma_backoff_descends();
}

/// Restoring the screen reports `Full` exactly when some write was accepted,
/// of a display's original ramp or of the linear fallback, and `Rejected`
/// when not one was.
pub proof fn lemma_restore_reports_any_write(restored: Seq<bool>, linear: Seq<bool>)
    ensures
        restore_outcome_of(restored, linear) == if (exists|i: int| 0 <= i < restored.len() && restored[i])
            || (exists|i: int| 0 <= i < linear.len() && linear[i]) {
            Applied::Full
        } else {
            Applied::Rejected
        },
{
    if exists|i: int| 0 <= i < restored.len() && restored[i] {
        let i = choose|i: int| 0 <= i < restored.len() && restored[i];
        assert(restored.contains(true));
    }
    if exists|i: int| 0 <= i < linear.len() && linear[i] {
        let i = choose|i: int| 0 <= i < linear.len() && linear[i];
        assert(linear.contains(true));
    }
}

/// Any walk down the ladder through `begin_apply`, `offer` and
/// `after_write`, following the rung each step offers, ends where `settle`
/// says: at the strongest rung that is showing or taken.
pub proof fn lemma_walk_settles(showing: Option<Ramp>, candidates: Seq<Ramp>, taken: Seq<bool>, step: int)
    requires
        0 <= step <= 7,
    ensures
        walk(showing, candidates, taken, step) == settle(showing, candidates, taken, step),
    decreases 7 - step,
{
    if step < 7 {
        lemma_walk_settles(showing, candidates, taken, step + 1);
    }
}

proof fn lemma_nothing_readable(probes: Seq<(Display, Option<Ramp>)>)
    requires
        forall|i: int| 0 <= i < probes.len() ==> (#[trigger] probes[i]).1 is None,
    ensures
        readable(probes).len() == 0,
    decreases probes.len(),
{
    if probes.len() > 0 {
        let d = probes.drop_last();
        assert forall|i: int| 0 <= i < d.len() implies (#[trigger] d[i]).1 is None by {
            assert(d[i] == probes[i]);
        }
        lemma_nothing_readable(d);
        assert(probes.last() == probes[probes.len() - 1]);
    }
}

/// The device name of an adapter as the driver reports it: the name up to
/// its first NUL, with one NUL put back at the end.
pub fn adapter_name(raw: &[u16]) -> (name: Vec<u16>)
    ensures
        name@.len() >= 1,
        name@.len() <= raw@.len() + 1,
        name@.last() == 0,
        forall|j: int| 0 <= j < name@.len() - 1 ==> name@[j] == raw@[j] && raw@[j] != 0,
        name@.len() - 1 < raw@.len() ==> raw@[name@.len() - 1] == 0,
{
    let mut name: Vec<u16> = Vec::new();
    let mut i: usize = 0;
    while i < raw.len()
        invariant
            0 <= i <= raw@.len(),
            name@.len() == i,
            forall|j: int| 0 <= j < i ==> name@[j] == raw@[j] && raw@[j] != 0,
        ensures
            0 <= i <= raw@.len(),
            name@.len() == i,
            forall|j: int| 0 <= j < i ==> name@[j] == raw@[j] && raw@[j] != 0,
            i < raw@.len() ==> raw@[i as int] == 0,
        decreases raw@.len() - i,
    {
        if raw[i] == 0 {
            break;
        }
        name.push(raw[i]);
        i = i + 1;
    }
    name.push(0);
    name
}

/// The displays, with the ramp each held, that a probe kept: those whose
/// current ramp could be read, in the order they were found.
pub open spec fn readable(probes: Seq<(Display, Option<Ramp>)>) -> Seq<(Display, Ramp)>
    decreases probes.len(),
{
    if probes.len() == 0 {
        Seq::empty()
    } else {
        let before = readable(probes.drop_last());
        match probes.last().1 {
            Some(ramp) => before.push((probes.last().0, ramp)),
            None => before,
        }
    }
}

/// The probes whose ramp could be read, in the order they were made.
pub open spec fn read_probes(probes: Seq<(Display, Option<Ramp>)>) -> Seq<(Display, Option<Ramp>)> {
    probes.filter(|p: (Display, Option<Ramp>)| p.1 is Some)
}

/// A probe whose ramp was read, as the display and that ramp.
pub open spec fn kept(p: (Display, Option<Ramp>)) -> (Display, Ramp) {
    (p.0, p.1->0)
}

/// A probe keeps exactly the displays whose ramp could be read, each with the
/// ramp read from it, in the order they were found: none is dropped for
/// showing the same ramp as another, and the number kept is the number of
/// probes that read.
pub proof fn lemma_probe_keeps_every_readable(probes: Seq<(Display, Option<Ramp>)>)
    ensures
        readable(probes) == read_probes(probes).map_values(|p: (Display, Option<Ramp>)| kept(p)),
        readable(probes).len() == read_probes(probes).len(),
        forall|i: int| 0 <= i < read_probes(probes).len() ==> (#[trigger] read_probes(probes)[i]).1 is Some,
    decreases probes.len(),
{
    reveal(Seq::filter);
    let f = |p: (Display, Option<Ramp>)| kept(p);
    if probes.len() > 0 {
        let d = probes.drop_last();
        lemma_probe_keeps_every_readable(d);
        assert(probes.filter(|p: (Display, Option<Ramp>)| p.1 is Some) == if probes.last().1 is Some {
            d.filter(|p: (Display, Option<Ramp>)| p.1 is Some).push(probes.last())
        } else {
            d.filter(|p: (Display, Option<Ramp>)| p.1 is Some)
        });
        if probes.last().1 is Some {
            assert(read_probes(d).push(probes.last()).map_values(f) =~= read_probes(d).map_values(f).push(kept(probes.last())));
        }
    } else {
        assert(read_probes(probes).map_values(f) =~= Seq::<(Display, Ramp)>::empty());
    }
}

/// Drives gamma ramps onto the displays and remembers what each display
/// showed before, so that it can be put back.
pub struct Engine {
    original: Vec<(Display, Ramp)>,
    applied: Option<Ramp>,
}

/// Whether two ramps are equal entry by entry.
fn same_ramp(a: &Ramp, b: &Ramp) -> (same: bool)
    ensures
        same == (*a == *b),
{
    let mut i: usize = 0;
    while i < 768
        invariant
            0 <= i <= 768,
            forall|j: int| 0 <= j < i ==> a@[j] == b@[j],
        decreases 768 - i,
    {
        if a[i] != b[i] {
            return false;
        }
        i = i + 1;
    }
    proof {
        broadcast use vstd::array::axiom_array_ext_equal;
        assert(*a =~= *b);
    }
    true
}

/// Whether any write was accepted.
fn any_accepted(accepted: &Vec<bool>) -> (any: bool)
    ensures
        any == accepted@.contains(true),
{
    let mut i: usize = 0;
    while i < accepted.len()
        invariant
            0 <= i <= accepted@.len(),
            forall|j: int| 0 <= j < i ==> !accepted@[j],
        decreases accepted@.len() - i,
    {
        if accepted[i] {
            return true;
        }
        i = i + 1;
    }
    false
}

impl Engine {
    /// An engine always drives at least one display.
    #[verifier::type_invariant]
    spec fn drives_a_display(self) -> bool {
        self.original@.len() > 0
    }

    /// The displays the engine drives, each with the ramp it showed at start.
    pub closed spec fn originals(&self) -> Seq<(Display, Ramp)> {
        self.original@
    }

    /// The ramp the engine last got a display to take, if it has not been
    /// reset since.
    pub closed spec fn showing(&self) -> Option<Ramp> {
        self.applied
    }

    /// Starts an engine from a probe of the displays: each display paired
    /// with the ramp read from it, if it could be read. Displays whose ramp
    /// could not be read are left out; with none left there is nothing to
    /// drive.
    pub fn from_probes(probes: Vec<(Display, Option<Ramp>)>) -> (r: Result<Engine, EngineError>)
        ensures
            match r {
                Ok(engine) => {
                    &&& readable(probes@).len() > 0
                    &&& engine.originals() == readable(probes@)
                    &&& engine.originals() == read_probes(probes@).map_values(|p: (Display, Option<Ramp>)| kept(p))
                    &&& engine.originals().len() == read_probes(probes@).len()
                    &&& engine.showing() is None
                },
                Err(EngineError::NoDisplay) => readable(probes@).len() == 0 && read_probes(probes@).len() == 0,
            },
    {
        proof {
            lemma_probe_keeps_every_readable(probes@);
        }
        let ghost all = probes@;
        let total = probes.len();
        let mut probes = probes;
        let mut original: Vec<(Display, Ramp)> = Vec::new();
        let mut i: usize = 0;
        while probes.len() > 0
            invariant
                i + probes@.len() == all.len(),
                i <= all.len(),
                all.len() == total,
                probes@ == all.skip(i as int),
                original@ == readable(all.take(i as int)),
            decreases probes@.len(),
        {
            let (display, ramp) = probes.remove(0);
            proof {
                assert(all.take(i + 1).drop_last() =~= all.take(i as int));
                assert(all.take(i + 1).last() == all[i as int]);
                assert(probes@ =~= all.skip(i + 1));
            }
            match ramp {
                Some(ramp) => original.push((display, ramp)),
                None => {},
            }
            i = i + 1;
        }
        assert(all.take(all.len() as int) =~= all);
        if original.len() == 0 {
            return Err(EngineError::NoDisplay);
        }
        Ok(Engine { original, applied: None })
    }

    /// Reads, through this backend, the ramp of each display found, in order.
    fn probe(found: Vec<Display>) -> (probes: Vec<(Display, Option<Ramp>)>)
        ensures
            probes@.len() == found@.len(),
            forall|i: int| 0 <= i < found@.len() ==> (#[trigger] probes@[i]).0 == found@[i] && probes@[i].1 is None,
    {
        let ghost all = found@;
        let mut found = found;
        let mut probes: Vec<(Display, Option<Ramp>)> = Vec::new();
        while found.len() > 0
            invariant
                probes@.len() + found@.len() == all.len(),
                found@ == all.skip(probes@.len() as int),
                forall|i: int| 0 <= i < probes@.len() ==> (#[trigger] probes@[i]).0 == all[i] && probes@[i].1 is None,
            decreases found@.len(),
        {
            let ghost k: int = probes@.len() as int;
            let display = found.remove(0);
            let ramp = sys::get(&display);
            probes.push((display, ramp));
            assert(found@ =~= all.skip(k + 1));
        }
        probes
    }

    /// Finds the displays and reads the ramp each one shows. On this backend
    /// no display can be read, so there is never an engine to start.
    pub fn new() -> (r: Result<Engine, EngineError>)
        ensures
            r matches Err(EngineError::NoDisplay),
    {
        let probes = Engine::probe(sys::displays());
        proof {
            lemma_nothing_readable(probes@);
        }
        Engine::from_probes(probes)
    }

    /// How many displays the engine drives.
    pub fn displays(&self) -> (n: usize)
        ensures
            n == self.originals().len(),
            n >= 1,
    {
        proof {
            use_type_invariant(self);
        }
        self.original.len()
    }

    /// The displays the engine drives, each with the ramp it showed at start:
    /// where a push writes to and what a reset puts back.
    pub fn targets(&self) -> (t: &Vec<(Display, Ramp)>)
        ensures
            t@ == self.originals(),
    {
        &self.original
    }

    /// Records the outcome of writing `ramp` to every display, one result per
    /// display in the order of `targets`: if any display took it, it is now
    /// what the engine shows.
    pub fn record_push(&mut self, ramp: Ramp, accepted: &Vec<bool>) -> (any: bool)
        requires
            accepted@.len() == old(self).originals().len(),
        ensures
            any == accepted@.contains(true),
            final(self).originals() == old(self).originals(),
            final(self).showing() == if any { Some(ramp) } else { old(self).showing() },
    {
        proof {
            use_type_invariant(&*self);
        }
        let any = any_accepted(accepted);
        if any {
            self.applied = Some(ramp);
        }
        any
    }

    /// Writes `ramp` to every display through this backend and records the
    /// outcome. This backend takes no write, so nothing changes.
    fn push(&mut self, ramp: &Ramp) -> (any: bool)
        ensures
            !any,
            final(self).originals() == old(self).originals(),
            final(self).showing() == old(self).showing(),
    {
        let mut accepted: Vec<bool> = Vec::new();
        let mut i: usize = 0;
        while i < self.original.len()
            invariant
                0 <= i <= self.original@.len(),
                accepted@.len() == i,
                forall|j: int| 0 <= j < i ==> !accepted@[j],
            decreases self.original@.len() - i,
        {
            accepted.push(sys::set(&self.original[i].0, ramp));
            i = i + 1;
        }
        self.record_push(*ramp, &accepted)
    }

    /// Records the outcome of putting every display's original ramp back, one
    /// result per display in the order of `targets`. Afterwards the engine
    /// shows nothing of its own. If no display took its original back, the
    /// result is the linear ramp, which the caller then writes to every
    /// display instead.
    pub fn finish_reset(&mut self, restored: &Vec<bool>) -> (fallback: Option<Ramp>)
        requires
            restored@.len() == old(self).originals().len(),
        ensures
            final(self).originals() == old(self).originals(),
            final(self).showing() is None,
            match fallback {
                None => restored@.contains(true),
                Some(flat) => !restored@.contains(true) && is_identity(flat@),
            },
    {
        proof {
            use_type_invariant(&*self);
        }
        self.applied = None;
        if any_accepted(restored) {
            None
        } else {
            Some(identity())
        }
    }

    /// How applying settings starts: neutral settings restore the screen,
    /// anything else starts at the full-strength rung.
    pub fn begin_apply(neutral: bool) -> (step: ApplyStep)
        ensures
            step == if neutral { ApplyStep::Restore } else { ApplyStep::Offer(0) },
    {
        if neutral {
            ApplyStep::Restore
        } else {
            ApplyStep::Offer(0)
        }
    }

    /// What restoring the screen reports, from the results of putting back
    /// each display's original ramp and, when none took it, of writing the
    /// linear ramp (empty when that was not needed).
    pub fn restore_outcome(restored: &Vec<bool>, linear: &Vec<bool>) -> (a: Applied)
        ensures
            a == restore_outcome_of(restored@, linear@),
            a == if (exists|i: int| 0 <= i < restored@.len() && restored@[i])
                || (exists|i: int| 0 <= i < linear@.len() && linear@[i]) {
                Applied::Full
            } else {
                Applied::Rejected
            },
    {
        proof {
            lemma_restore_reports_any_write(restored@, linear@);
        }
        if any_accepted(restored) || any_accepted(linear) {
            Applied::Full
        } else {
            Applied::Rejected
        }
    }

    /// What reaching rung `step` is reported as.
    pub fn outcome(step: usize) -> (a: Applied)
        requires
            step < STEPS,
        ensures
            a == outcome_of(step as int),
    {
        let percent = BACKOFF[step];
        if percent >= 100 {
            Applied::Full
        } else {
            Applied::Limited(percent)
        }
    }

    /// Offers the ramp built for rung `step`. If the engine already shows it,
    /// applying is over and nothing needs writing; otherwise the caller
    /// writes it to every display in `targets` and hands the results to
    /// `after_write`.
    pub fn offer(&self, step: usize, ramp: &Ramp) -> (done: Option<Applied>)
        requires
            step < STEPS,
        ensures
            done == offer_result(self.showing(), *ramp, step as int),
    {
        let showing = match &self.applied {
            Some(current) => same_ramp(current, ramp),
            None => false,
        };
        if showing {
            Some(Engine::outcome(step))
        } else {
            None
        }
    }

    /// Records the results of writing the ramp of rung `step` to every
    /// display and says what comes next: done at this rung if any display
    /// took it, otherwise the next weaker rung, or `Rejected` after the last.
    pub fn after_write(&mut self, step: usize, ramp: Ramp, accepted: &Vec<bool>) -> (next: ApplyStep)
        requires
            step < STEPS,
            accepted@.len() == old(self).originals().len(),
        ensures
            final(self).originals() == old(self).originals(),
            final(self).showing() == if accepted@.contains(true) { Some(ramp) } else { old(self).showing() },
            next == next_step(accepted@.contains(true), step as int),
            accepted@.contains(true) ==> next == ApplyStep::Done(outcome_of(step as int)),
            !accepted@.contains(true) && step + 1 < STEPS ==> next == ApplyStep::Offer((step + 1) as usize),
            !accepted@.contains(true) && step + 1 == STEPS ==> next == ApplyStep::Done(Applied::Rejected),
    {
        proof {
            lemma_refused_rung_offers_the_next(step as int);
        }
        if self.record_push(ramp, accepted) {
            ApplyStep::Done(Engine::outcome(step))
        } else if step + 1 < STEPS {
            ApplyStep::Offer(step + 1)
        } else {
            ApplyStep::Done(Applied::Rejected)
        }
    }

    /// Applies settings through this backend, given the ramp built for each
    /// rung of `BACKOFF`. Neutral settings restore the screen and report
    /// what the displays took of that; otherwise the ladder is walked down
    /// from full strength and stops at the first rung whose ramp is already
    /// showing or is taken. This backend takes no write, so restoring
    /// reports `Rejected`.
    pub fn apply(&mut self, neutral: bool, candidates: &Vec<Ramp>) -> (a: Applied)
        requires
            candidates@.len() == STEPS,
        ensures
            final(self).originals() == old(self).originals(),
            neutral ==> a == Applied::Rejected && final(self).showing() is None,
            !neutral ==> a == settle(old(self).showing(), candidates@, none_taken(), 0)
                && final(self).showing() == old(self).showing(),
    {
        match Engine::begin_apply(neutral) {
            ApplyStep::Restore => {
                let (restored, linear) = self.restore();
                return Engine::restore_outcome(&restored, &linear);
            },
            _ => {},
        }
        let mut step: usize = 0;
        while step < STEPS
            invariant
                0 <= step <= 7,
                !neutral,
                candidates@.len() == 7,
                self.originals() == old(self).originals(),
                self.showing() == old(self).showing(),
                settle(old(self).showing(), candidates@, none_taken(), 0)
                    == settle(old(self).showing(), candidates@, none_taken(), step as int),
            decreases 7 - step,
        {
            match self.offer(step, &candidates[step]) {
                Some(done) => return done,
                None => {},
            }
            if self.push(&candidates[step]) {
                return Engine::outcome(step);
            }
            assert(!hit(old(self).showing(), candidates@, none_taken(), step as int));
            step = step + 1;
        }
        Applied::Rejected
    }

    /// Puts every display back through this backend and returns the results
    /// of the restore writes and of the linear fallback writes (empty when
    /// the fallback was not needed). This backend takes no write.
    fn restore(&mut self) -> (results: (Vec<bool>, Vec<bool>))
        ensures
            final(self).originals() == old(self).originals(),
            final(self).showing() is None,
            !results.0@.contains(true),
            !results.1@.contains(true),
    {
        let mut restored: Vec<bool> = Vec::new();
        let mut i: usize = 0;
        while i < self.original.len()
            invariant
                0 <= i <= self.original@.len(),
                restored@.len() == i,
                forall|j: int| 0 <= j < i ==> !restored@[j],
            decreases self.original@.len() - i,
        {
            restored.push(sys::set(&self.original[i].0, &self.original[i].1));
            i = i + 1;
        }
        let mut linear: Vec<bool> = Vec::new();
        match self.finish_reset(&restored) {
            Some(flat) => {
                let mut i: usize = 0;
                while i < self.original.len()
                    invariant
                        0 <= i <= self.original@.len(),
                        linear@.len() == i,
                        forall|j: int| 0 <= j < i ==> !linear@[j],
                    decreases self.original@.len() - i,
                {
                    linear.push(sys::set(&self.original[i].0, &flat));
                    i = i + 1;
                }
            },
            None => {},
        }
        (restored, linear)
    }

    /// Puts every display back to the ramp it showed at start, falling back
    /// to the linear ramp if none would take it back. Gamma ramps outlive
    /// the process that set them, so putting the screen back is not optional.
    pub fn reset(&mut self)
        ensures
            final(self).originals() == old(self).originals(),
            final(self).showing() is None,
    {
        self.restore();
    }
}

} // verus!
