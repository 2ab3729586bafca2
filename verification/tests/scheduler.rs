use region_control::scheduler::{LocalScheduler, Scheduler, SchedulerError, SchedulerState};

#[test]
fn test_sum_cap() {
    let task_size = 1000;
    let mut local: LocalScheduler<u32> = LocalScheduler::new(task_size);

    for k in 0..task_size {
        local.schedule(k as u32).unwrap();
    }
    local.stop(true).unwrap();

    // Workers drain the queue; once it is empty the scheduler stops.
    let mut sum = 0;
    while let Some(_job) = local.poll_job() {
        sum += 1;
    }
    assert_eq!(sum, 1000);
    assert_eq!(local.state, SchedulerState::Stop);
    assert_eq!(local.n_handed, local.n_scheduled);
}

#[test]
fn test_sum_consumer_num() {
    let task_size = 1000;
    let mut local: LocalScheduler<u32> = LocalScheduler::new(3);
    let mut target = 0;
    for k in 0..task_size {
        if local.schedule(k as u32).is_ok() {
            target += 1;
        }
    }
    local.stop(true).unwrap();
    let mut sum = 0;
    while let Some(_job) = local.poll_job() {
        sum += 1;
    }
    assert_eq!(sum, target);
}

#[test]
fn test_scheduler_many() {
    let task_size = 1000;
    let mut local: LocalScheduler<u32> = LocalScheduler::new(task_size);

    for k in 0..task_size {
        local.schedule(k as u32).unwrap();
    }
    // Workers already took everything before the stop.
    let mut handed = 0;
    while local.queue.len() > 0 {
        assert!(local.poll_job().is_some());
        handed += 1;
    }
    assert_eq!(handed, task_size);
    local.stop(true).unwrap();
}

#[test]
fn test_scheduler_continuous_stop() {
    let mut local: LocalScheduler<u32> = LocalScheduler::new(1000);

    // A producer keeps scheduling while a consumer keeps up, until the
    // scheduler is stopped; everything accepted was handed out.
    let mut target = 0;
    let mut sum = 0;
    for k in 0..100 {
        if local.schedule(k as u32).is_ok() {
            target += 1;
        }
        if local.poll_job().is_some() {
            sum += 1;
        }
        if k == 49 {
            local.stop(false).unwrap();
        }
    }
    assert_eq!(sum, target - local.n_dropped);
    assert!(matches!(local.schedule(7), Err(SchedulerError::InvalidSchedulerState)));
}

#[test]
fn test_scheduler_rejects_after_stop() {
    let mut local: LocalScheduler<u32> = LocalScheduler::new(4);
    local.schedule(1).unwrap();
    local.stop(true).unwrap();
    assert!(matches!(local.schedule(2), Err(SchedulerError::InvalidSchedulerState)));
    assert!(matches!(local.stop(true), Err(SchedulerError::InvalidSchedulerState)));
}

#[test]
fn test_scheduler_stop_without_termination_drops_pending() {
    let mut local: LocalScheduler<u32> = LocalScheduler::new(2);
    local.schedule(1).unwrap();
    local.schedule(2).unwrap();
    local.stop(false).unwrap();
    assert_eq!(local.state, SchedulerState::Stop);
    assert!(local.poll_job().is_none());
    assert_eq!(local.n_dropped, 2);
    assert_eq!(local.n_handed, 0);
}

#[test]
fn test_scheduler_drain_order() {
    let mut local: LocalScheduler<u32> = LocalScheduler::new(1);
    local.schedule(10).unwrap();
    local.schedule(20).unwrap();
    local.schedule(30).unwrap();
    local.stop(true).unwrap();
    assert_eq!(local.poll_job(), Some(10));
    assert_eq!(local.poll_job(), Some(20));
    assert_eq!(local.poll_job(), Some(30));
    assert_eq!(local.poll_job(), None);
    assert_eq!(local.state, SchedulerState::Stop);
}

#[test]
fn test_scheduler_running() {
    let mut local: LocalScheduler<u32> = LocalScheduler::new(1);
    assert!(local.running());
    local.stop(true).unwrap();
    assert!(!local.running());
}
