use funkot_player::progress::{observe, Cause, Claim, Observation, Occurrence, Progress, Update};

fn occurrence() -> Occurrence {
    Occurrence { playlist: "playlist-1".to_string(), run: 3, entry: "entry-2".to_string() }
}

#[test]
fn empty_failure_and_preparation_do_not_consume() {
    let occurrence = occurrence();
    let claim = Claim { occurrence: occurrence.clone(), index: 91, live: true, cancelled: false };
    for observation in [
        Observation::Passive,
        Observation::Failed { index: 91, reason_present: false },
        Observation::Unavailable { occurrence: occurrence.clone(), reason_present: false },
    ] {
        assert_eq!(
            observe(Some(&occurrence), Progress::default(), Some(&claim), &observation).progress,
            Progress::default()
        );
    }
}

#[test]
fn start_of_the_claimed_index_consumes_once() {
    let occurrence = occurrence();
    let claim = Claim { occurrence: occurrence.clone(), index: 7, live: false, cancelled: false };
    let first = observe(Some(&occurrence), Progress::default(), Some(&claim), &Observation::Started(7));
    assert_eq!(
        first,
        Update { progress: Progress { consumed: true, failed: false }, accepted: Some(Cause::Started) }
    );
    let again = observe(Some(&occurrence), first.progress, Some(&claim), &Observation::Started(7));
    assert_eq!(again.progress, first.progress);
}

#[test]
fn cancelled_or_other_run_claims_are_rejected() {
    let occurrence = occurrence();
    let cancelled = Claim { occurrence: occurrence.clone(), index: 7, live: true, cancelled: true };
    assert_eq!(
        observe(Some(&occurrence), Progress::default(), Some(&cancelled), &Observation::Started(7)).accepted,
        None
    );
    let mut old_run = occurrence.clone();
    old_run.run = 2;
    let stale = Claim { occurrence: old_run, index: 7, live: true, cancelled: false };
    assert_eq!(
        observe(Some(&occurrence), Progress::default(), Some(&stale), &Observation::Current(7)).accepted,
        None
    );
    assert_eq!(observe(None, Progress::default(), Some(&stale), &Observation::Current(7)).accepted, None);
}

#[test]
fn reasoned_unavailable_marks_failed_and_consumed() {
    let occurrence = occurrence();
    let r = observe(
        Some(&occurrence),
        Progress::default(),
        None,
        &Observation::Unavailable { occurrence: occurrence.clone(), reason_present: true },
    );
    assert_eq!(r.progress, Progress { consumed: true, failed: true });
    assert_eq!(r.accepted, Some(Cause::Failed));
}
