use scheduler::algorithms::{first_come, shortest_next, shortest_remain};
use scheduler::comparator::sort_queue;
use scheduler::{FakeProcess, QueuedProcess, RanScheduler, Scheduler};
use std::cmp::Ordering;

fn ids(queue: &[QueuedProcess]) -> Vec<u32> {
    queue.iter().map(|x| x.process.id).collect()
}

fn numbers(queue: &[QueuedProcess]) -> Vec<u32> {
    queue.iter().map(|x| x.entered_number).collect()
}

fn waits(queue: &[QueuedProcess]) -> Vec<u32> {
    queue.iter().map(|x| x.process.time_spent_waiting).collect()
}

fn check_state(scheduler: &Scheduler) {
    let mut seen: Vec<u32> = Vec::new();
    for entry in scheduler.process_queue.iter().chain(scheduler.finished_processes.iter()) {
        let p = entry.process;
        assert_eq!(p.quantum_ran_for + p.quantum_left, p.quantum_to_run_for);
        assert!(!seen.contains(&entry.entered_number));
        assert!(entry.entered_number < scheduler.next_entered_number);
        seen.push(entry.entered_number);
    }
    for entry in scheduler.finished_processes.iter() {
        assert!(entry.process.is_done());
    }
}

fn entry(number: u32, id: u32, total: u32) -> QueuedProcess {
    QueuedProcess { entered_number: number, process: FakeProcess::new(id, total, 1) }
}

#[test]
fn new_scheduler_is_empty_and_counts_from_one() {
    let scheduler = Scheduler::new();
    assert!(scheduler.is_queue_empty());
    assert!(scheduler.scheduled_process().is_none());
    assert_eq!(0, scheduler.finished_processes.len());
    assert_eq!(1, scheduler.next_entered_number);
}

#[test]
fn add_process_numbers_entries_in_turn() {
    let scheduler = Scheduler::new()
        .add_process(FakeProcess::new(10, 3, 1))
        .add_process(FakeProcess::new(20, 4, 1))
        .add_process(FakeProcess::new(30, 5, 1));
    assert_eq!(vec![1, 2, 3], numbers(&scheduler.process_queue));
    assert_eq!(vec![10, 20, 30], ids(&scheduler.process_queue));
    assert_eq!(4, scheduler.next_entered_number);
    assert!(!scheduler.is_queue_empty());
    assert_eq!(10, scheduler.scheduled_process().unwrap().process.id);
}

#[test]
fn run_then_reorder_readmits_an_unfinished_process() {
    let ran = Scheduler::new().add_process(FakeProcess::new(1, 10, 1)).execute(6);
    let head = *ran.ran_process().unwrap();
    assert_eq!(4, head.process.quantum_left);
    assert_eq!(6, head.process.quantum_ran_for);
    assert_eq!(1, head.entered_number);
    let scheduler = ran.schedule_next(first_come, 0);
    assert_eq!(1, scheduler.process_queue.len());
    assert_eq!(4, scheduler.process_queue[0].process.quantum_left);
    assert_eq!(2, scheduler.process_queue[0].entered_number);
    assert_eq!(0, scheduler.finished_processes.len());
    assert_eq!(3, scheduler.next_entered_number);
}

#[test]
fn run_is_capped_and_reorder_retires_the_finished_process() {
    let ran = Scheduler::new().add_process(FakeProcess::new(1, 5, 1)).execute(10);
    let head = *ran.ran_process().unwrap();
    assert_eq!(0, head.process.quantum_left);
    assert_eq!(5, head.process.quantum_ran_for);
    let scheduler = ran.schedule_next(first_come, 0);
    assert!(scheduler.is_queue_empty());
    assert_eq!(1, scheduler.finished_processes.len());
    assert_eq!(head, scheduler.finished_processes[0]);
    assert_eq!(2, scheduler.next_entered_number);
}

#[test]
fn shortest_job_next_orders_by_total_work() {
    let scheduler = Scheduler::new()
        .add_process(FakeProcess::new(1, 20, 1))
        .add_process(FakeProcess::new(2, 5, 1))
        .add_process(FakeProcess::new(3, 15, 1))
        .execute(1)
        .schedule_next(shortest_next, 0);
    assert_eq!(vec![2, 3, 1], ids(&scheduler.process_queue));
}

#[test]
fn priority_multiplies_the_quantum() {
    let plain = Scheduler::new().add_process(FakeProcess::new(1, 20, 1)).execute(3);
    assert_eq!(3, plain.ran_process().unwrap().process.quantum_ran_for);
    assert_eq!(17, plain.ran_process().unwrap().process.quantum_left);
    let weighted = Scheduler::new().add_process(FakeProcess::new(1, 20, 2)).execute(3);
    assert_eq!(6, weighted.ran_process().unwrap().process.quantum_ran_for);
    assert_eq!(14, weighted.ran_process().unwrap().process.quantum_left);
}

#[test]
fn finished_process_is_not_charged_the_switch() {
    let scheduler = Scheduler::new()
        .add_process(FakeProcess::new(1, 10, 1))
        .add_process(FakeProcess::new(2, 15, 1))
        .execute(10)
        .schedule_next(first_come, 5);
    assert_eq!(1, scheduler.finished_processes.len());
    let retired = scheduler.finished_processes[0].process;
    assert_eq!(1, retired.id);
    assert!(retired.is_done());
    assert_eq!(0, retired.time_spent_waiting);
    assert_eq!(vec![2], ids(&scheduler.process_queue));
    assert_eq!(15, scheduler.process_queue[0].process.time_spent_waiting);
}

#[test]
fn run_on_an_empty_queue_changes_nothing() {
    let ran = Scheduler::new().execute(7);
    assert!(ran.ran_process().is_none());
    assert!(ran.scheduler.is_queue_empty());
    assert_eq!(0, ran.scheduler.finished_processes.len());
    assert_eq!(1, ran.scheduler.next_entered_number);

    let emptied = Scheduler::new()
        .add_process(FakeProcess::new(1, 2, 1))
        .execute(2)
        .schedule_next(first_come, 1);
    let finished = emptied.finished_processes.clone();
    let ran = emptied.execute(4);
    assert!(ran.scheduler.is_queue_empty());
    assert_eq!(finished, ran.scheduler.finished_processes);
    assert_eq!(2, ran.scheduler.next_entered_number);
}

#[test]
fn run_charges_the_others_only_what_the_head_really_ran() {
    let ran = Scheduler::new()
        .add_process(FakeProcess::new(1, 3, 1))
        .add_process(FakeProcess::new(2, 9, 1))
        .add_process(FakeProcess::new(3, 9, 1))
        .execute(10);
    assert_eq!(vec![0, 3, 3], waits(&ran.scheduler.process_queue));
    assert_eq!(vec![1, 2, 3], ids(&ran.scheduler.process_queue));
    assert_eq!(vec![1, 2, 3], numbers(&ran.scheduler.process_queue));
}

#[test]
fn reorder_changes_the_queue_size_by_the_head_alone() {
    let start = Scheduler::new()
        .add_process(FakeProcess::new(1, 4, 1))
        .add_process(FakeProcess::new(2, 9, 1))
        .add_process(FakeProcess::new(3, 9, 1));
    let unfinished = start.execute(3).schedule_next(shortest_remain, 1);
    assert_eq!(3, unfinished.process_queue.len());
    assert_eq!(0, unfinished.finished_processes.len());
    assert_eq!(vec![1, 2, 3], ids(&unfinished.process_queue));
    let finished = unfinished.execute(3).schedule_next(shortest_remain, 1);
    assert_eq!(2, finished.process_queue.len());
    assert_eq!(1, finished.finished_processes.len());
    assert_eq!(1, finished.finished_processes[0].process.id);
    assert_eq!(0, finished.finished_processes[0].process.quantum_left);
}

#[test]
fn state_stays_well_formed_along_a_run() {
    let policies: [fn(&QueuedProcess, &QueuedProcess) -> Ordering; 3] =
        [first_come, shortest_next, shortest_remain];
    for policy in policies {
        let mut scheduler = Scheduler::new();
        let mut last_waits: Vec<(u32, u32)> = Vec::new();
        for cycle in 0u32..40 {
            if cycle % 3 == 0 && cycle < 20 {
                scheduler = scheduler.add_process(FakeProcess::new(cycle, 5 + cycle % 7, 1 + cycle % 2));
            }
            check_state(&scheduler);
            let ran = scheduler.execute(4);
            check_state(&ran.scheduler);
            if ran.scheduler.is_queue_empty() {
                scheduler = ran.scheduler;
                continue;
            }
            let before = ran.scheduler.process_queue.len();
            let done = ran.ran_process().unwrap().process.is_done();
            scheduler = ran.schedule_next(policy, 2);
            check_state(&scheduler);
            assert_eq!(before - 1 + if done { 0 } else { 1 }, scheduler.process_queue.len());
            for entry in scheduler.process_queue.iter().chain(scheduler.finished_processes.iter()) {
                let id = entry.process.id;
                let wait = entry.process.time_spent_waiting;
                if let Some(old) = last_waits.iter().find(|x| x.0 == id) {
                    assert!(old.1 <= wait);
                }
                last_waits.retain(|x| x.0 != id);
                last_waits.push((id, wait));
            }
        }
        assert!(scheduler.is_queue_empty());
        assert_eq!(7, scheduler.finished_processes.len());
    }
}

#[test]
fn first_come_keeps_the_order_of_admission() {
    let mut scheduler = Scheduler::new();
    for cycle in 0u32..30 {
        if cycle % 4 == 0 && cycle < 16 {
            scheduler = scheduler.add_process(FakeProcess::new(cycle, 6 + cycle, 1));
        }
        let queue = numbers(&scheduler.process_queue);
        assert!(queue.windows(2).all(|w| w[0] < w[1]));
        let ran = scheduler.execute(3);
        if ran.scheduler.is_queue_empty() {
            scheduler = ran.scheduler;
        } else {
            scheduler = ran.schedule_next(first_come, 1);
        }
    }
}

#[test]
fn readmitted_process_is_placed_by_the_policy() {
    let scheduler = Scheduler::new()
        .add_process(FakeProcess::new(1, 5, 1))
        .add_process(FakeProcess::new(2, 20, 1))
        .execute(1)
        .schedule_next(shortest_next, 0);
    assert_eq!(vec![1, 2], ids(&scheduler.process_queue));
    assert_eq!(vec![3, 2], numbers(&scheduler.process_queue));

    let scheduler = Scheduler::new()
        .add_process(FakeProcess::new(1, 9, 1))
        .add_process(FakeProcess::new(2, 4, 1))
        .add_process(FakeProcess::new(3, 6, 1))
        .execute(4)
        .schedule_next(shortest_remain, 0);
    assert_eq!(vec![2, 1, 3], ids(&scheduler.process_queue));
}

#[test]
fn readmitted_process_goes_behind_its_ties() {
    let scheduler = Scheduler::new()
        .add_process(FakeProcess::new(1, 8, 1))
        .add_process(FakeProcess::new(2, 8, 1))
        .add_process(FakeProcess::new(3, 8, 1))
        .execute(2)
        .schedule_next(shortest_next, 3);
    assert_eq!(vec![2, 3, 1], ids(&scheduler.process_queue));
    assert_eq!(vec![5, 5, 3], waits(&scheduler.process_queue));
    assert_eq!(vec![2, 3, 4], numbers(&scheduler.process_queue));
}

#[test]
fn policy_may_change_between_quanta() {
    let scheduler = Scheduler::new()
        .add_process(FakeProcess::new(1, 30, 1))
        .add_process(FakeProcess::new(2, 10, 1))
        .add_process(FakeProcess::new(3, 20, 1))
        .execute(25)
        .schedule_next(shortest_next, 0);
    assert_eq!(vec![2, 3, 1], ids(&scheduler.process_queue));
    let scheduler = scheduler.execute(1).schedule_next(shortest_remain, 0);
    assert_eq!(vec![1, 2, 3], ids(&scheduler.process_queue));
    let scheduler = scheduler.execute(1).schedule_next(first_come, 0);
    assert_eq!(vec![3, 2, 1], ids(&scheduler.process_queue));
    assert_eq!(vec![3, 5, 6], numbers(&scheduler.process_queue));
}

#[test]
fn comparators_compare_their_keys() {
    let a = QueuedProcess { entered_number: 1, process: FakeProcess::new(1, 9, 1).execute(8).0 };
    let b = QueuedProcess { entered_number: 2, process: FakeProcess::new(2, 5, 1) };
    assert_eq!(Ordering::Less, first_come(&a, &b));
    assert_eq!(Ordering::Greater, first_come(&b, &a));
    assert_eq!(Ordering::Equal, first_come(&a, &a));
    assert_eq!(Ordering::Greater, shortest_next(&a, &b));
    assert_eq!(Ordering::Less, shortest_next(&b, &a));
    assert_eq!(Ordering::Equal, shortest_next(&b, &b));
    assert_eq!(Ordering::Less, shortest_remain(&a, &b));
    assert_eq!(Ordering::Greater, shortest_remain(&b, &a));
    assert_eq!(Ordering::Equal, shortest_remain(&a, &a));
}

#[test]
fn sort_queue_is_stable() {
    let queue = vec![
        entry(1, 10, 7),
        entry(2, 11, 3),
        entry(3, 12, 7),
        entry(4, 13, 3),
        entry(5, 14, 1),
        entry(6, 15, 7),
    ];
    let sorted = sort_queue(queue.clone(), &shortest_next);
    assert_eq!(vec![14, 11, 13, 10, 12, 15], ids(&sorted));
    let mut expected = queue.clone();
    expected.sort_by(shortest_next);
    assert_eq!(expected, sorted);
}

#[test]
fn sort_queue_agrees_with_the_standard_stable_sort() {
    let mut seed: u32 = 12345;
    for round in 0..50usize {
        let mut queue: Vec<QueuedProcess> = Vec::new();
        for number in 0..(round % 13) as u32 {
            seed = seed.wrapping_mul(1664525).wrapping_add(1013904223);
            queue.push(entry(number, number, (seed >> 16) % 5));
        }
        let sorted = sort_queue(queue.clone(), &shortest_remain);
        let mut expected = queue.clone();
        expected.sort_by(shortest_remain);
        assert_eq!(expected, sorted);
        let by_number = sort_queue(sorted, &first_come);
        assert_eq!(queue, by_number);
    }
}

#[test]
fn sort_queue_takes_a_closure() {
    let queue = vec![entry(1, 3, 1), entry(2, 1, 1), entry(3, 2, 1)];
    let by_id_descending =
        |a: &QueuedProcess, b: &QueuedProcess| b.process.id.cmp(&a.process.id);
    let sorted = sort_queue(queue, &by_id_descending);
    assert_eq!(vec![3, 2, 1], ids(&sorted));
    assert_eq!(Vec::<QueuedProcess>::new(), sort_queue(Vec::new(), &by_id_descending));
}

#[test]
fn ran_scheduler_can_be_built_from_a_scheduler() {
    let scheduler = Scheduler::new().add_process(FakeProcess::new(1, 0, 1));
    let ran = RanScheduler { scheduler };
    let scheduler = ran.schedule_next(first_come, 9);
    assert!(scheduler.is_queue_empty());
    assert_eq!(0, scheduler.finished_processes[0].process.time_spent_waiting);
}

#[test]
fn mean_turnaround_over_the_finished_processes() {
    let mut scheduler = Scheduler::new()
        .add_process(FakeProcess::new(1, 6, 1))
        .add_process(FakeProcess::new(2, 2, 1));
    while !scheduler.is_queue_empty() {
        scheduler = scheduler.execute(4).schedule_next(first_come, 1);
    }
    let turnarounds: Vec<u32> =
        scheduler.finished_processes.iter().map(|x| x.process.get_turnaround_time()).collect();
    assert_eq!(vec![7, 10], turnarounds);
    assert_eq!(vec![2, 1], ids(&scheduler.finished_processes));
}

#[test]
fn schedule_next_by_leaves_the_comparator_with_the_caller() {
    let by_work_left = |a: &QueuedProcess, b: &QueuedProcess| shortest_remain(a, b);
    let mut by_reference = Scheduler::new()
        .add_process(FakeProcess::new(1, 9, 1))
        .add_process(FakeProcess::new(2, 4, 1))
        .add_process(FakeProcess::new(3, 6, 1));
    let mut by_value = Scheduler::new()
        .add_process(FakeProcess::new(1, 9, 1))
        .add_process(FakeProcess::new(2, 4, 1))
        .add_process(FakeProcess::new(3, 6, 1));
    for _ in 0..6 {
        by_reference = by_reference.execute(2).schedule_next_by(&by_work_left, 1);
        by_value = by_value.execute(2).schedule_next(shortest_remain, 1);
        assert_eq!(by_value.process_queue, by_reference.process_queue);
        assert_eq!(by_value.finished_processes, by_reference.finished_processes);
        assert_eq!(by_value.next_entered_number, by_reference.next_entered_number);
    }
    assert_eq!(vec![2, 3], ids(&by_reference.finished_processes));
    assert_eq!(vec![1], ids(&by_reference.process_queue));
}

#[test]
fn full_cycle_charges_the_run_and_the_switch() {
    let scheduler = Scheduler::new()
        .add_process(FakeProcess::new(1, 10, 1))
        .add_process(FakeProcess::new(2, 10, 1))
        .add_process(FakeProcess::new(3, 10, 1))
        .execute(4)
        .schedule_next(first_come, 3);
    assert_eq!(vec![2, 3, 1], ids(&scheduler.process_queue));
    assert_eq!(vec![7, 7, 3], waits(&scheduler.process_queue));
    let scheduler = scheduler.execute(20).schedule_next(first_come, 3);
    assert_eq!(vec![3, 1], ids(&scheduler.process_queue));
    assert_eq!(vec![20, 16], waits(&scheduler.process_queue));
    assert_eq!(7, scheduler.finished_processes[0].process.time_spent_waiting);
    assert_eq!(17, scheduler.finished_processes[0].process.get_turnaround_time());
}
