use kissvpn::faketcp::socket::ones_complement_add_by_16bit;
use kissvpn::faketcp::timer_runner::{
    get_first_job_delay, TimerJobId, TimerRunner, TimerRunnerState, TimerStep, MAX_WAIT_TIME,
};

#[test]
fn test_ones_complement_sum() {
    assert_eq!(ones_complement_add_by_16bit(&[], 0), 0);
    assert_eq!(ones_complement_add_by_16bit(&[], 0x1234), 0x1234);
    // the first byte of a word is the less significant one
    assert_eq!(ones_complement_add_by_16bit(&[0x01, 0x02], 0), 0x0201);
    assert_eq!(ones_complement_add_by_16bit(&[0x01, 0x02, 0x03], 0), 0x0204);
    // the carry comes back in at the bottom
    assert_eq!(ones_complement_add_by_16bit(&[0xff, 0xff], 1), 1);
    assert_eq!(ones_complement_add_by_16bit(&[0xff, 0xff], 0), 0xffff);
    assert_eq!(
        ones_complement_add_by_16bit(&[0xff, 0xff, 0xff, 0xff], 0xffff),
        0xffff
    );
    assert_eq!(ones_complement_add_by_16bit(&[0x00, 0x80, 0x00, 0x80], 3), 4);
    assert_eq!(ones_complement_add_by_16bit(&[0xffu8; 0xffff], 0xffff), 255);
    assert_eq!(ones_complement_add_by_16bit(&[0x01u8; 0xffff], 0), 0x7f80);
    // the longest input at its greatest
    assert_eq!(
        ones_complement_add_by_16bit(&vec![0xffu8; 0x2_0000], 0xffff),
        0xffff
    );
}

#[test]
fn test_timers() {
    let mut result = String::new();
    let mut jobs: Vec<(TimerJobId, &str)> = Vec::new();

    let mut runner = TimerRunner::new();
    let now = 1_000_000_000;
    let joba = runner.schedule(now, 100_000_000);
    jobs.push((joba, "a"));
    jobs.push((runner.schedule(now, 200_000_000), "b"));
    jobs.push((runner.schedule(now, 100_000_000), "c"));
    assert_eq!(joba, TimerJobId(1_100_000_000, 0));
    assert_eq!(jobs[1].0, TimerJobId(1_200_000_000, 1));
    assert_eq!(jobs[2].0, TimerJobId(1_100_000_000, 2));

    assert!(runner.cancel(&joba));
    assert!(!runner.cancel(&joba));

    // 300 microseconds later the jobs leave the queue, the earlier first
    let now = now + 300_000;
    loop {
        match runner.run_thread_loop(now) {
            TimerStep::Run(id) => {
                result.push_str(jobs.iter().find(|job| job.0 == id).unwrap().1);
            }
            TimerStep::Wait(wait) => {
                assert_eq!(wait, MAX_WAIT_TIME);
                break;
            }
            TimerStep::Stop => unreachable!(),
        }
    }
    assert_eq!(result, "cb");

    runner.stop();
    assert_eq!(runner.run_thread_loop(now), TimerStep::Stop);
}

#[test]
fn test_first_job_delay() {
    let mut state = TimerRunnerState::new();
    assert_eq!(get_first_job_delay(state.queue(), 5), None);
    assert_eq!(state.run_thread_loop(5), TimerStep::Wait(1_000_000_000));
    state.insert(TimerJobId(300, 1));
    state.insert(TimerJobId(100, 2));
    state.insert(TimerJobId(100, 1));
    state.insert(TimerJobId(100, 2));
    assert_eq!(get_first_job_delay(state.queue(), 99), Some(0));
    assert_eq!(get_first_job_delay(state.queue(), 100), Some(0));
    assert_eq!(get_first_job_delay(state.queue(), 101), Some(1));
    assert_eq!(get_first_job_delay(state.queue(), 350), Some(250));
    // past the time of the first job by 50
    assert_eq!(state.run_thread_loop(150), TimerStep::Wait(50));
    assert_eq!(state.run_thread_loop(100), TimerStep::Run(TimerJobId(100, 1)));
    assert_eq!(state.run_thread_loop(99), TimerStep::Run(TimerJobId(100, 2)));
    assert_eq!(state.run_thread_loop(301), TimerStep::Wait(1));
    assert!(state.remove(&TimerJobId(300, 1)));
    assert!(!state.remove(&TimerJobId(300, 1)));
    assert_eq!(state.run_thread_loop(301), TimerStep::Wait(MAX_WAIT_TIME));
    state.stop();
    state.insert(TimerJobId(1, 1));
    assert_eq!(state.run_thread_loop(0), TimerStep::Stop);
}

#[test]
fn test_serial_numbers_tell_jobs_apart() {
    let mut runner = TimerRunner::new();
    let first = runner.schedule(0, 10);
    let second = runner.schedule(5, 5);
    assert_ne!(first, second);
    assert!(first < second);
    assert!(runner.cancel(&second));
    assert_eq!(runner.run_thread_loop(10), TimerStep::Run(first));
}
