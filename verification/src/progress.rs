//! Occurrence-level playlist progress: one observation applied to one
//! catalog occurrence.
use vstd::prelude::*;

verus! {

/// One entry of one run of one playlist.
#[derive(Clone, Debug, PartialEq, Eq)]
pub struct Occurrence {
    pub playlist: String,
    pub run: u64,
    pub entry: String,
}

pub struct OccurrenceView {
    pub playlist: Seq<char>,
    pub run: u64,
    pub entry: Seq<char>,
}

impl View for Occurrence {
    type V = OccurrenceView;

    open spec fn view(&self) -> OccurrenceView {
        OccurrenceView { playlist: self.playlist@, run: self.run, entry: self.entry@ }
    }
}

impl Occurrence {
    pub fn same_as(&self, other: &Occurrence) -> (r: bool)
        ensures
            r == (self@ == other@),
    {
        let p = self.playlist == other.playlist;
        let e = self.entry == other.entry;
        p && e && self.run == other.run
    }
}

/// An engine index bound to the occurrence it was claimed for.
#[derive(Clone, Debug)]
pub struct Claim {
    pub occurrence: Occurrence,
    pub index: usize,
    pub live: bool,
    pub cancelled: bool,
}

pub struct ClaimView {
    pub occurrence: OccurrenceView,
    pub index: usize,
    pub live: bool,
    pub cancelled: bool,
}

impl View for Claim {
    type V = ClaimView;

    open spec fn view(&self) -> ClaimView {
        ClaimView {
            occurrence: self.occurrence@,
            index: self.index,
            live: self.live,
            cancelled: self.cancelled,
        }
    }
}

/// What the engine or the resolver reported.
#[derive(Clone, Debug)]
pub enum Observation {
    Started(usize),
    Current(usize),
    Failed { index: usize, reason_present: bool },
    Unavailable { occurrence: Occurrence, reason_present: bool },
    /// Preparation, exhaustion and lifecycle notifications are not starts.
    Passive,
}

pub enum ObservationView {
    Started(usize),
    Current(usize),
    Failed { index: usize, reason_present: bool },
    Unavailable { occurrence: OccurrenceView, reason_present: bool },
    Passive,
}

impl View for Observation {
    type V = ObservationView;

    open spec fn view(&self) -> ObservationView {
        match self {
            Observation::Started(i) => ObservationView::Started(*i),
            Observation::Current(i) => ObservationView::Current(*i),
            Observation::Failed { index, reason_present } => ObservationView::Failed {
                index: *index,
                reason_present: *reason_present,
            },
            Observation::Unavailable { occurrence, reason_present } => ObservationView::Unavailable {
                occurrence: occurrence@,
                reason_present: *reason_present,
            },
            Observation::Passive => ObservationView::Passive,
        }
    }
}

#[derive(Clone, Copy, Debug, Default, PartialEq, Eq, Structural)]
pub struct Progress {
    pub consumed: bool,
    pub failed: bool,
}

#[derive(Clone, Copy, Debug, PartialEq, Eq, Structural)]
pub enum Cause {
    Started,
    Failed,
}

#[derive(Clone, Copy, Debug, PartialEq, Eq, Structural)]
pub struct Update {
    pub progress: Progress,
    pub accepted: Option<Cause>,
}

pub open spec fn opt_occ(o: Option<Occurrence>) -> Option<OccurrenceView> {
    match o {
        Some(x) => Some(x@),
        None => None,
    }
}

pub open spec fn opt_claim(o: Option<Claim>) -> Option<ClaimView> {
    match o {
        Some(x) => Some(x@),
        None => None,
    }
}

/// The claim is for `target` and was not cancelled.
pub open spec fn claim_matches(target: Option<OccurrenceView>, claim: Option<ClaimView>) -> bool {
    claim matches Some(c) && !c.cancelled && Some(c.occurrence) == target
}

/// The evidence that can justify progress on `target`: a start or snapshot
/// of the claimed index; a reasoned failure of the claimed, live index; or a
/// reasoned unavailability of exactly this occurrence.
pub open spec fn justified(
    target: Option<OccurrenceView>,
    claim: Option<ClaimView>,
    e: ObservationView,
) -> bool {
    match e {
        ObservationView::Started(index) => claim_matches(target, claim) && claim->0.index == index,
        ObservationView::Current(index) => claim_matches(target, claim) && claim->0.index == index,
        ObservationView::Failed { index, reason_present } => claim_matches(target, claim)
            && claim->0.index == index && claim->0.live && reason_present,
        ObservationView::Unavailable { occurrence, reason_present } => target == Some(occurrence)
            && reason_present,
        ObservationView::Passive => false,
    }
}

pub open spec fn cause_of(e: ObservationView) -> Cause {
    match e {
        ObservationView::Failed { .. } => Cause::Failed,
        ObservationView::Unavailable { .. } => Cause::Failed,
        _ => Cause::Started,
    }
}

/// The result of applying `e` to `target` whose progress is `before`.
pub open spec fn observe_spec(
    target: Option<OccurrenceView>,
    before: Progress,
    claim: Option<ClaimView>,
    e: ObservationView,
) -> Update {
    if justified(target, claim, e) {
        Update {
            progress: Progress {
                consumed: true,
                failed: before.failed || cause_of(e) == Cause::Failed,
            },
            accepted: Some(cause_of(e)),
        }
    } else {
        Update { progress: before, accepted: None }
    }
}

fn targets(target: Option<&Occurrence>, o: &Occurrence) -> (r: bool)
    ensures
        r == (match target {
            Some(t) => Some(t@),
            None => None,
        } == Some(o@)),
{
    match target {
        Some(t) => t.same_as(o),
        None => false,
    }
}

/// Apply one observation to one catalog occurrence. `target` comes from the
/// current catalog run and membership, not from the event.
pub fn observe(
    target: Option<&Occurrence>,
    before: Progress,
    claim: Option<&Claim>,
    observation: &Observation,
) -> (r: Update)
    ensures
        r == observe_spec(
            match target {
                Some(t) => Some(t@),
                None => None,
            },
            before,
            match claim {
                Some(c) => Some(c@),
                None => None,
            },
            observation@,
        ),
{
    let claim = match claim {
        Some(c) if !c.cancelled && targets(target, &c.occurrence) => Some(c),
        _ => None,
    };
    let accepted = match observation {
        Observation::Started(index) | Observation::Current(index) => match claim {
            Some(c) if c.index == *index => Some(Cause::Started),
            _ => None,
        },
        Observation::Failed { index, reason_present } => match claim {
            Some(c) if c.index == *index && c.live && *reason_present => Some(Cause::Failed),
            _ => None,
        },
        Observation::Unavailable { occurrence, reason_present } => {
            if targets(target, occurrence) && *reason_present {
                Some(Cause::Failed)
            } else {
                None
            }
        },
        Observation::Passive => None,
    };
    let mut progress = before;
    if let Some(cause) = accepted {
        progress.consumed = true;
        progress.failed = progress.failed || cause == Cause::Failed;
    }
    Update { progress, accepted }
}

/// Progress only ever follows justified evidence: nothing is consumed
/// without it, a failure is recorded only together with consumption, every
/// justified observation consumes, and an unjustified one changes nothing.
pub proof fn lemma_progress_needs_evidence(
    target: Option<OccurrenceView>,
    before: Progress,
    claim: Option<ClaimView>,
    e: ObservationView,
)
    ensures
        ({
            let after = observe_spec(target, before, claim, e);
            let valid = justified(target, claim, e);
            &&& !after.progress.consumed || before.consumed || valid
            &&& !after.progress.failed || before.failed || after.progress.consumed
            &&& valid == after.accepted is Some
            &&& valid ==> after.progress.consumed
            &&& !valid ==> after.progress == before
        }),
{
}

/// Applying the same observation twice gives the same progress as once.
pub proof fn lemma_observe_idempotent(
    target: Option<OccurrenceView>,
    before: Progress,
    claim: Option<ClaimView>,
    e: ObservationView,
)
    ensures
        observe_spec(target, observe_spec(target, before, claim, e).progress, claim, e).progress
            == observe_spec(target, before, claim, e).progress,
{
}

/// One observation never justifies progress on two different occurrences.
pub proof fn lemma_one_occurrence_per_observation(
    t1: OccurrenceView,
    t2: OccurrenceView,
    claim: Option<ClaimView>,
    e: ObservationView,
)
    requires
        justified(Some(t1), claim, e),
        justified(Some(t2), claim, e),
    ensures
        t1 == t2,
{
}

/// Preparation, exhaustion and lifecycle notifications never make progress.
pub proof fn lemma_passive_never_consumes(
    target: Option<OccurrenceView>,
    before: Progress,
    claim: Option<ClaimView>,
)
    ensures
        observe_spec(target, before, claim, ObservationView::Passive) == (Update {
            progress: before,
            accepted: None,
        }),
{
}

} // verus!
