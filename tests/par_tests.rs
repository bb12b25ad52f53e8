use rust_fractals::par::{Admission, Par, ParError};

#[test]
fn ten_jobs_with_cap_four() {
    let mut par = Par::new(4);
    let mut reaped = Vec::new();
    for id in 0..10u64 {
        let a = par.run().unwrap();
        assert_eq!(a.start, id);
        if id < 4 {
            assert_eq!(a.reap, None);
        } else {
            assert_eq!(a.reap, Some(id - 4));
            reaped.push(id - 4);
            assert_eq!(par.report(id - 4, true), Ok(()));
        }
        assert!(par.in_flight_len() <= 4);
    }
    assert_eq!(reaped, vec![0, 1, 2, 3, 4, 5]);
    let rest = par.finish();
    assert_eq!(rest, vec![6, 7, 8, 9]);
    assert_eq!(par.in_flight_len(), 0);
    assert_eq!(par.submitted(), 10);
    assert_eq!(par.outcome(), Ok(()));
}

#[test]
fn run_after_finish_is_refused() {
    let mut par = Par::new(2);
    par.run().unwrap();
    assert_eq!(par.finish(), vec![0]);
    assert_eq!(par.run(), Err(ParError::Lifecycle));
    assert_eq!(par.submitted(), 1);
    assert_eq!(par.in_flight_len(), 0);
    assert_eq!(par.finish(), Vec::<u64>::new());
}

#[test]
fn failure_is_reported_and_the_rest_still_drain() {
    let mut par = Par::new(2);
    assert_eq!(par.run(), Ok(Admission { reap: None, start: 0 }));
    assert_eq!(par.run(), Ok(Admission { reap: None, start: 1 }));
    assert_eq!(par.run(), Ok(Admission { reap: Some(0), start: 2 }));
    assert_eq!(par.report(0, true), Ok(()));
    assert_eq!(par.run(), Ok(Admission { reap: Some(1), start: 3 }));
    assert_eq!(par.report(1, false), Err(ParError::JobFailed(1)));
    let rest = par.finish();
    assert_eq!(rest, vec![2, 3]);
    assert_eq!(par.report(2, false), Err(ParError::JobFailed(2)));
    assert_eq!(par.report(3, true), Ok(()));
    assert_eq!(par.outcome(), Err(ParError::JobFailed(1)));
}

#[test]
fn cap_of_one_runs_jobs_one_by_one() {
    let mut par = Par::new(1);
    assert_eq!(par.run(), Ok(Admission { reap: None, start: 0 }));
    assert_eq!(par.run(), Ok(Admission { reap: Some(0), start: 1 }));
    assert_eq!(par.run(), Ok(Admission { reap: Some(1), start: 2 }));
    assert_eq!(par.finish(), vec![2]);
}
