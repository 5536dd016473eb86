use ipserve::pool::{pool_size, JobOutcome, ThreadPool};

#[test]
fn pool_size_scales_with_parallelism() {
    assert_eq!(pool_size(Some(1)), 4);
    assert_eq!(pool_size(Some(2)), 8);
    assert_eq!(pool_size(Some(0)), 1);
}

#[test]
fn pool_size_falls_back_when_undetected() {
    assert_eq!(pool_size(None), 8);
}

#[test]
fn jobs_served_in_submission_order() {
    let mut p = ThreadPool::new(2);
    p.execute(11);
    p.execute(22);
    p.execute(33);
    assert_eq!(p.pending_count(), 3);
    assert_eq!(p.take_job(), Some(11));
    assert_eq!(p.take_job(), Some(22));
    assert_eq!(p.take_job(), Some(33));
    assert_eq!(p.take_job(), None);
    assert_eq!(p.served_jobs(), vec![11, 22, 33]);
}

#[test]
fn failed_job_does_not_block_later_jobs() {
    let mut p = ThreadPool::new(4);
    for id in 1..=10u64 {
        p.execute(id);
    }
    let mut served: Vec<u64> = Vec::new();
    loop {
        match p.take_job() {
            Some(j) => {
                let outcome = if j == 5 {
                    JobOutcome::Failed
                } else {
                    JobOutcome::Completed
                };
                // The per-job boundary contains the failure: the worker
                // survives and keeps serving.
                assert!(p.finish_job(outcome));
                served.push(j);
            },
            None => break,
        }
    }
    assert_eq!(served, (1..=10).collect::<Vec<u64>>());
    assert_eq!(p.served_jobs(), served);
}
