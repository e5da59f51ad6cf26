use scheduler::algorithms;
use scheduler::{FakeProcess, Scheduler};

#[test]
fn scheduler_add_process_should_add_process() {
    let scheduler = Scheduler::new();
    assert_eq!(scheduler.process_queue.len(), 0);
    let scheduler = scheduler.add_process(FakeProcess::new(0, 32, 1));
    assert_eq!(scheduler.process_queue.len(), 1);
}

#[test]
fn scheduler_add_process_should_add_process_to_back() {
    let scheduler = Scheduler::new()
        .add_process(FakeProcess::new(0, 32, 1))
        .add_process(FakeProcess::new(1, 42, 1));
    let last_process = scheduler.process_queue.last().unwrap();
    assert_eq!(last_process.process.id, 1);
}

#[test]
fn scheduler_execute_should_reduce_first_process_by_quantum() {
    let start_quantum = 30;
    let run_time = 5;
    let expected_time = start_quantum - run_time;
    let scheduler = Scheduler::new()
        .add_process(FakeProcess::new(0, start_quantum, 1))
        .execute(run_time);
    let ran_proc = scheduler.ran_process().unwrap();
    assert_eq!(ran_proc.process.quantum_left, expected_time);
}

#[test]
fn scheduler_execute_should_increase_total_time_on_all_processes() {
    let expected_time = vec![5, 5, 5];
    let run_time = 5;
    let ran_scheduler = Scheduler::new()
        .add_process(FakeProcess::new(0, 25, 1))
        .add_process(FakeProcess::new(1, 30, 1))
        .add_process(FakeProcess::new(2, 35, 1))
        .execute(run_time);
    let total_times: Vec<u32> = ran_scheduler
        .scheduler
        .process_queue
        .into_iter()
        .map(|x| x.process.get_turnaround_time())
        .collect();
    assert_eq!(expected_time, total_times);
}

#[test]
fn scheduler_schedule_next_by_id_should_schedule_next_process_after_execute() {
    let run_time = 5;
    let switch_cost = 5;
    let expected_process_id = 1;

    let scheduler = Scheduler::new()
        .add_process(FakeProcess::new(0, 10, 1))
        .add_process(FakeProcess::new(expected_process_id, 1, 15))
        .execute(run_time)
        .schedule_next(algorithms::first_come, switch_cost);

    let curr_process = scheduler.scheduled_process().unwrap();
    assert_eq!(expected_process_id, curr_process.process.id);
    assert_eq!(2, scheduler.process_queue.len());
}

#[test]
fn ran_scheduler_schedule_next_by_id_should_increment_all_process_total_time_by_switch_cost() {
    let switch_cost = 5;
    let expected_total_times = vec![switch_cost, switch_cost];
    let scheduler = Scheduler::new()
        .add_process(FakeProcess::new(0, 10, 1))
        .add_process(FakeProcess::new(1, 15, 1))
        .execute(0)
        .schedule_next(algorithms::first_come, switch_cost);

    assert_eq!(1, scheduler.scheduled_process().unwrap().process.id);

    let total_times: Vec<u32> = scheduler
        .process_queue
        .into_iter()
        .map(|x| x.process.get_turnaround_time())
        .collect();

    assert_eq!(expected_total_times, total_times);
}

#[test]
fn scheduler_schedule_next_by_entered_should_be_in_expected_order() {
    let expected = vec![3, 4, 5];
    let scheduler = Scheduler::new()
        .add_process(FakeProcess::new(1, 10, 1))
        .add_process(FakeProcess::new(2, 10, 1))
        .add_process(FakeProcess::new(3, 10, 1))
        .execute(1)
        .schedule_next(algorithms::first_come, 1)
        .execute(1)
        .schedule_next(algorithms::first_come, 1);

    let order_of_schedule: Vec<u32> = scheduler
        .process_queue
        .into_iter()
        .map(|x| x.entered_number)
        .collect();
    assert_eq!(expected, order_of_schedule);
}

#[test]
fn scheduler_schedule_next_by_quantum_left_should_be_in_order() {
    let switch_cost = 5;
    let expected_order = vec![2, 3, 1];
    let ran_scheduler = Scheduler::new()
        .add_process(FakeProcess::new(1, 20, 1))
        .add_process(FakeProcess::new(2, 5, 1))
        .add_process(FakeProcess::new(3, 15, 1))
        .execute(1)
        .schedule_next(algorithms::shortest_next, switch_cost);
    let process_order: Vec<u32> = ran_scheduler
        .process_queue
        .into_iter()
        .map(|x| x.process.id)
        .collect();
    assert_eq!(expected_order, process_order);
}

#[test]
fn scheduler_schedule_next_should_not_schedule_previously_ran_process() {
    let switch_cost = 5;
    let expected_order = vec![2, 1];

    let scheduler = Scheduler::new()
        .add_process(FakeProcess::new(1, 20, 1))
        .add_process(FakeProcess::new(2, 5, 1))
        .execute(5)
        .schedule_next(algorithms::first_come, switch_cost);

    let process_order: Vec<u32> = scheduler
        .process_queue
        .into_iter()
        .map(|x| x.process.id)
        .collect();
    assert_eq!(expected_order, process_order);
}

#[test]
fn scheduler_schedule_next_should_put_finished_process_in_finished() {
    let switch_cost = 5;
    let scheduler = Scheduler::new()
        .add_process(FakeProcess::new(1, 0, 1))
        .execute(0)
        .schedule_next(algorithms::shortest_remain, switch_cost);
    assert_eq!(true, scheduler.process_queue.is_empty());
    assert_eq!(1, scheduler.finished_processes.len());
}
