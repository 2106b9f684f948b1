use mlfq_scheduler::mlfq::{ConfigError, Process, StepOutcome, MLFQ};

fn proc(id: u32, priority: usize, remaining_time: u32, total_executed_time: u32) -> Process {
    Process { id, priority, remaining_time, total_executed_time }
}

#[test]
fn test_add_process() {
    let mut mlfq = MLFQ::new(3, vec![2, 4, 8]);

    let process1 = Process { id: 1, priority: 0, remaining_time: 10, total_executed_time: 0 };
    let process2 = Process { id: 2, priority: 1, remaining_time: 5, total_executed_time: 0 };
    let process3 = Process { id: 3, priority: 5, remaining_time: 8, total_executed_time: 0 };

    mlfq.add_process(process1);
    mlfq.add_process(process2);
    mlfq.add_process(process3);

    assert_eq!(mlfq.queue(0).len(), 1);
    assert_eq!(mlfq.queue(1).len(), 1);
    assert_eq!(mlfq.queue(2).len(), 1);
}

#[test]
fn test_execute_process() {
    let mut mlfq = MLFQ::new(3, vec![2, 4, 8]);
    mlfq.add_process(Process { id: 1, priority: 0, remaining_time: 5, total_executed_time: 0 });

    mlfq.execute_process(0);

    assert_eq!(mlfq.queue(0).len(), 0);
    assert_eq!(mlfq.queue(1).len(), 1);
    assert_eq!(mlfq.queue(1)[0].remaining_time, 3);
    assert_eq!(mlfq.queue(1)[0].total_executed_time, 2);
}

#[test]
fn test_priority_boost() {
    let mut mlfq = MLFQ::new(3, vec![2, 4, 8]);
    mlfq.add_process(Process { id: 1, priority: 1, remaining_time: 5, total_executed_time: 3 });
    mlfq.add_process(Process { id: 2, priority: 2, remaining_time: 3, total_executed_time: 7 });

    mlfq.update_time(100);

    assert_eq!(mlfq.queue(0).len(), 2);
    assert_eq!(mlfq.queue(1).len(), 0);
    assert_eq!(mlfq.queue(2).len(), 0);
}

#[test]
fn test_boost_does_not_occur_prematurely() {
    let mut mlfq = MLFQ::new(3, vec![2, 4, 8]);
    mlfq.add_process(Process { id: 1, priority: 1, remaining_time: 5, total_executed_time: 3 });

    mlfq.update_time(50);

    assert_eq!(mlfq.queue(1).len(), 1);
    assert_eq!(mlfq.queue(0).len(), 0);
}

#[test]
fn new_builds_empty_queues() {
    let mlfq = MLFQ::new(3, vec![2, 4, 8]);
    assert_eq!(mlfq.num_levels(), 3);
    assert_eq!(mlfq.current_time(), 0);
    assert_eq!(mlfq.time_quantum(0), 2);
    assert_eq!(mlfq.time_quantum(1), 4);
    assert_eq!(mlfq.time_quantum(2), 8);
    for level in 0..3 {
        assert!(mlfq.queue(level).is_empty());
    }
}

#[test]
fn try_new_accepts_matching_table() {
    let mlfq = MLFQ::try_new(2, vec![3, 6]).unwrap();
    assert_eq!(mlfq.num_levels(), 2);
    assert_eq!(mlfq.time_quantum(1), 6);
}

#[test]
fn try_new_rejects_length_mismatch() {
    assert!(matches!(MLFQ::try_new(3, vec![2, 4]), Err(ConfigError::InvalidConfiguration)));
    assert!(matches!(MLFQ::try_new(1, vec![2, 4]), Err(ConfigError::InvalidConfiguration)));
}

#[test]
fn try_new_rejects_zero_levels() {
    assert!(matches!(MLFQ::try_new(0, vec![]), Err(ConfigError::InvalidConfiguration)));
}

#[test]
fn admission_clamps_priority_to_lowest_level() {
    let mut mlfq = MLFQ::new(3, vec![2, 4, 8]);
    mlfq.add_process(proc(7, 3, 4, 0));
    mlfq.add_process(proc(8, 99, 4, 0));
    assert_eq!(mlfq.queue(2).len(), 2);
    assert_eq!(mlfq.queue(2)[0], proc(7, 2, 4, 0));
    assert_eq!(mlfq.queue(2)[1], proc(8, 2, 4, 0));
    assert!(mlfq.queue(0).is_empty());
    assert!(mlfq.queue(1).is_empty());
}

#[test]
fn admission_appends_in_fifo_order() {
    let mut mlfq = MLFQ::new(2, vec![1, 2]);
    mlfq.add_process(proc(1, 0, 5, 0));
    mlfq.add_process(proc(2, 0, 5, 0));
    assert_eq!(mlfq.queue(0)[0].id, 1);
    assert_eq!(mlfq.queue(0)[1].id, 2);
    let r = mlfq.execute_process(0);
    assert_eq!(r, StepOutcome::Preempted(proc(1, 1, 4, 1)));
    assert_eq!(mlfq.queue(0)[0].id, 2);
}

#[test]
fn execute_on_empty_queue_is_idle() {
    let mut mlfq = MLFQ::new(3, vec![2, 4, 8]);
    mlfq.add_process(proc(1, 2, 5, 0));
    let r = mlfq.execute_process(0);
    assert_eq!(r, StepOutcome::Idle);
    assert_eq!(mlfq.current_time(), 0);
    assert_eq!(mlfq.queue(2).len(), 1);
}

#[test]
fn preempted_process_is_demoted_and_keeps_its_work() {
    let mut mlfq = MLFQ::new(3, vec![2, 4, 8]);
    mlfq.add_process(proc(4, 1, 10, 6));
    let r = mlfq.execute_process(1);
    assert_eq!(r, StepOutcome::Preempted(proc(4, 2, 6, 10)));
    assert_eq!(mlfq.current_time(), 4);
    assert!(mlfq.queue(1).is_empty());
    assert_eq!(mlfq.queue(2)[0], proc(4, 2, 6, 10));
    let p = mlfq.queue(2)[0];
    assert_eq!(p.remaining_time + p.total_executed_time, 16);
}

#[test]
fn lowest_level_process_stays_at_tail() {
    let mut mlfq = MLFQ::new(3, vec![2, 4, 8]);
    mlfq.add_process(proc(1, 2, 20, 0));
    mlfq.add_process(proc(2, 2, 3, 0));
    let r = mlfq.execute_process(2);
    assert_eq!(r, StepOutcome::Preempted(proc(1, 2, 12, 8)));
    assert_eq!(mlfq.queue(2).len(), 2);
    assert_eq!(mlfq.queue(2)[0].id, 2);
    assert_eq!(mlfq.queue(2)[1], proc(1, 2, 12, 8));
    assert_eq!(mlfq.current_time(), 8);
}

#[test]
fn completed_process_leaves_the_queues() {
    let mut mlfq = MLFQ::new(3, vec![2, 4, 8]);
    mlfq.add_process(proc(9, 0, 2, 5));
    let r = mlfq.execute_process(0);
    assert_eq!(r, StepOutcome::Completed(proc(9, 0, 0, 7)));
    assert_eq!(mlfq.current_time(), 2);
    for level in 0..3 {
        assert!(mlfq.queue(level).is_empty());
    }
}

#[test]
fn completion_runs_only_the_remaining_time() {
    let mut mlfq = MLFQ::new(3, vec![2, 4, 8]);
    mlfq.add_process(proc(3, 2, 5, 1));
    let r = mlfq.execute_process(2);
    assert_eq!(r, StepOutcome::Completed(proc(3, 2, 0, 6)));
    assert_eq!(mlfq.current_time(), 5);
    assert!(mlfq.queue(2).is_empty());
}

#[test]
fn boost_moves_levels_in_order_behind_level_zero() {
    let mut mlfq = MLFQ::new(3, vec![2, 4, 8]);
    mlfq.add_process(proc(1, 0, 5, 0));
    mlfq.add_process(proc(2, 1, 5, 1));
    mlfq.add_process(proc(3, 2, 5, 2));
    mlfq.add_process(proc(4, 1, 5, 3));
    mlfq.priority_boost();
    let q0 = mlfq.queue(0);
    assert_eq!(q0.len(), 4);
    assert_eq!(q0[0], proc(1, 0, 5, 0));
    assert_eq!(q0[1], proc(2, 0, 5, 1));
    assert_eq!(q0[2], proc(4, 0, 5, 3));
    assert_eq!(q0[3], proc(3, 0, 5, 2));
    assert!(mlfq.queue(1).is_empty());
    assert!(mlfq.queue(2).is_empty());
    assert_eq!(mlfq.current_time(), 0);
}

#[test]
fn second_boost_changes_nothing() {
    let mut mlfq = MLFQ::new(3, vec![2, 4, 8]);
    mlfq.add_process(proc(1, 2, 5, 0));
    mlfq.add_process(proc(2, 1, 5, 0));
    mlfq.priority_boost();
    let once = mlfq.queue(0).clone();
    mlfq.priority_boost();
    assert_eq!(mlfq.queue(0), &once);
    assert_eq!(once.len(), 2);
}

#[test]
fn boost_fires_when_clock_lands_on_interval() {
    let mut mlfq = MLFQ::new(3, vec![2, 4, 8]);
    mlfq.add_process(proc(1, 2, 5, 0));
    mlfq.update_time(60);
    assert_eq!(mlfq.queue(2).len(), 1);
    mlfq.update_time(40);
    assert_eq!(mlfq.current_time(), 100);
    assert_eq!(mlfq.queue(0), &vec![proc(1, 0, 5, 0)]);
    assert!(mlfq.queue(2).is_empty());
}

#[test]
fn boost_does_not_fire_after_crossing_interval() {
    let mut mlfq = MLFQ::new(3, vec![2, 4, 8]);
    mlfq.add_process(proc(1, 1, 5, 0));
    mlfq.update_time(99);
    mlfq.update_time(2);
    assert_eq!(mlfq.current_time(), 101);
    assert_eq!(mlfq.queue(1).len(), 1);
    assert!(mlfq.queue(0).is_empty());
}

#[test]
fn boost_fires_at_later_multiples() {
    let mut mlfq = MLFQ::new(2, vec![2, 4]);
    mlfq.add_process(proc(1, 0, 9, 0));
    mlfq.execute_process(0);
    assert_eq!(mlfq.queue(1).len(), 1);
    mlfq.update_time(198);
    assert_eq!(mlfq.current_time(), 200);
    assert_eq!(mlfq.queue(0), &vec![proc(1, 0, 7, 2)]);
}

#[test]
fn zero_elapsed_at_time_zero_does_not_boost() {
    let mut mlfq = MLFQ::new(2, vec![2, 4]);
    mlfq.add_process(proc(5, 1, 3, 0));
    mlfq.update_time(0);
    assert_eq!(mlfq.current_time(), 0);
    assert!(mlfq.queue(0).is_empty());
    assert_eq!(mlfq.queue(1), &vec![proc(5, 1, 3, 0)]);
}

#[test]
fn completed_process_id_is_in_no_queue() {
    let mut mlfq = MLFQ::new(3, vec![2, 4, 8]);
    mlfq.add_process(proc(1, 0, 1, 0));
    mlfq.add_process(proc(2, 0, 9, 0));
    mlfq.add_process(proc(3, 1, 9, 0));
    let r = mlfq.execute_process(0);
    assert_eq!(r, StepOutcome::Completed(proc(1, 0, 0, 1)));
    for level in 0..3 {
        assert!(mlfq.queue(level).iter().all(|p| p.id != 1));
    }
    assert_eq!(mlfq.queue(0).len(), 1);
    assert_eq!(mlfq.queue(1).len(), 1);
}
