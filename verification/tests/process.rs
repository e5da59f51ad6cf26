use scheduler::{FakeProcess, QueuedProcess};

#[test]
fn process_execute_quantum_left_lower_than_quantum_used_should_not_buffer_overflow() {
    let process = FakeProcess::new(0, 5, 1).execute(10);
    assert_eq!(process.0.quantum_left, 0);
}

#[test]
fn process_get_turnaround_should_return_expected() {
    let expected_result = 15;
    let proc = FakeProcess::new(1, 20, 1).execute(7).0.wait(8);
    let result = proc.get_turnaround_time();
    assert_eq!(expected_result, result);
}

#[test]
fn process_execute_run_for_quantum_larger_then_left_should_return_new_process_with_exact_ran_value(
) {
    let expected_result = 5;
    let process = FakeProcess::new(1, 5, 1);
    let result = process.execute(6);
    assert_eq!(expected_result, result.1);
    assert_eq!(0, result.0.quantum_left);
}

#[test]
fn process_execute_should_run_for_quantum_times_the_priority() {
    let expected_result = 6;
    let process = FakeProcess::new(1, 20, 2);
    let (proc, ran_for) = process.execute(3);
    assert_eq!(expected_result, ran_for);
    assert_eq!(20 - (ran_for), proc.quantum_left);
}

#[test]
fn process_new_starts_with_all_work_left() {
    let process = FakeProcess::new(7, 12, 3);
    assert_eq!(
        process,
        FakeProcess {
            id: 7,
            quantum_left: 12,
            quantum_ran_for: 0,
            quantum_to_run_for: 12,
            time_spent_waiting: 0,
            priority: 3,
        }
    );
    assert!(!process.is_done());
}

#[test]
fn process_execute_leaves_waiting_time_alone() {
    let process = FakeProcess::new(1, 20, 1).wait(4);
    let (ran, ran_for) = process.execute(6);
    assert_eq!(6, ran_for);
    assert_eq!(4, ran.time_spent_waiting);
    assert_eq!(14, ran.quantum_left);
    assert_eq!(6, ran.quantum_ran_for);
    assert_eq!(20, ran.quantum_to_run_for);
    assert_eq!(10, ran.get_turnaround_time());
}

#[test]
fn process_execute_conserves_work() {
    let mut process = FakeProcess::new(1, 23, 2);
    for quantum in [0u32, 1, 3, 2, 50] {
        let (ran, ran_for) = process.execute(quantum);
        assert_eq!(ran.quantum_ran_for + ran.quantum_left, ran.quantum_to_run_for);
        assert_eq!(ran.quantum_ran_for, process.quantum_ran_for + ran_for);
        process = ran;
    }
    assert!(process.is_done());
    assert_eq!(23, process.quantum_ran_for);
}

#[test]
fn process_execute_with_zero_quantum_runs_nothing() {
    let process = FakeProcess::new(1, 9, 4);
    let (ran, ran_for) = process.execute(0);
    assert_eq!(0, ran_for);
    assert_eq!(process, ran);
}

#[test]
fn process_execute_with_zero_priority_runs_nothing() {
    let process = FakeProcess::new(1, 9, 0);
    let (ran, ran_for) = process.execute(5);
    assert_eq!(0, ran_for);
    assert_eq!(9, ran.quantum_left);
}

#[test]
fn process_execute_caps_a_potential_beyond_the_word_size() {
    let process = FakeProcess::new(1, 4_000_000_000, u32::MAX);
    let (ran, ran_for) = process.execute(u32::MAX);
    assert_eq!(4_000_000_000, ran_for);
    assert_eq!(0, ran.quantum_left);
    assert_eq!(4_000_000_000, ran.quantum_ran_for);
    assert!(ran.is_done());
}

#[test]
fn process_wait_adds_only_to_waiting_time() {
    let process = FakeProcess::new(3, 10, 2);
    let waited = process.wait(7).wait(0).wait(5);
    assert_eq!(12, waited.time_spent_waiting);
    assert_eq!(FakeProcess { time_spent_waiting: 0, ..waited }, process);
    assert_eq!(12, waited.get_turnaround_time());
}

#[test]
fn process_with_no_work_is_done_at_once() {
    let process = FakeProcess::new(1, 0, 1);
    assert!(process.is_done());
    let (ran, ran_for) = process.execute(8);
    assert_eq!(0, ran_for);
    assert_eq!(process, ran);
}

#[test]
fn queued_process_wait_keeps_the_number() {
    let entry = QueuedProcess { entered_number: 9, process: FakeProcess::new(2, 10, 1) };
    let waited = entry.wait(3);
    assert_eq!(9, waited.entered_number);
    assert_eq!(3, waited.process.time_spent_waiting);
    assert_eq!(entry.process, FakeProcess { time_spent_waiting: 0, ..waited.process });
}

#[test]
fn queued_process_execute_keeps_the_number() {
    let entry = QueuedProcess { entered_number: 4, process: FakeProcess::new(2, 10, 3) };
    let (ran, ran_for) = entry.execute(2);
    assert_eq!(6, ran_for);
    assert_eq!(4, ran.entered_number);
    assert_eq!(4, ran.process.quantum_left);
    assert_eq!(6, ran.process.quantum_ran_for);
}
