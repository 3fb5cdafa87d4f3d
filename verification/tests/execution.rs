use rask::execution::{
    batch_succeeded, find_highest_order, get_ordered_tasks, plan_batches, task_succeeded,
    Execution, TaskExit, TaskReport,
};
use rask::select::{OrderedTask, Task};

fn ordered(command: &str, order: u64) -> OrderedTask {
    OrderedTask {
        task: Task { command: command.to_string(), directory: format!("/r/{}", command) },
        order,
    }
}

fn commands(batches: &[Vec<OrderedTask>]) -> Vec<Vec<String>> {
    batches
        .iter()
        .map(|batch| batch.iter().map(|task| task.task.command.clone()).collect())
        .collect()
}

fn sample() -> Vec<OrderedTask> {
    vec![
        ordered("root", 0),
        ordered("a", 1),
        ordered("a1", 3),
        ordered("b", 1),
        ordered("b1", 3),
        ordered("c", 1),
    ]
}

#[test]
fn highest_order_of_no_task_is_zero() {
    assert_eq!(find_highest_order(&vec![]), Ok(0));
}

#[test]
fn highest_order_is_the_greatest_one() {
    assert_eq!(find_highest_order(&sample()), Ok(3));
    assert_eq!(find_highest_order(&vec![ordered("x", 0)]), Ok(0));
    assert_eq!(find_highest_order(&vec![ordered("x", u64::MAX), ordered("y", 2)]), Ok(u64::MAX));
}

#[test]
fn a_level_holds_the_tasks_of_its_order_as_selected() {
    assert_eq!(
        get_ordered_tasks(&sample(), 1),
        Ok(vec![ordered("a", 1), ordered("b", 1), ordered("c", 1)])
    );
    assert_eq!(get_ordered_tasks(&sample(), 2), Ok(vec![]));
    assert_eq!(get_ordered_tasks(&sample(), 0), Ok(vec![ordered("root", 0)]));
}

#[test]
fn parallel_batches_are_whole_levels_from_the_deepest_up() {
    let batches = plan_batches(&sample(), true);
    assert_eq!(commands(&batches), vec![vec!["a1", "b1"], vec!["a", "b", "c"], vec!["root"]]);
}

#[test]
fn sequential_batches_are_single_tasks_from_the_deepest_up() {
    let batches = plan_batches(&sample(), false);
    assert_eq!(
        commands(&batches),
        vec![vec!["a1"], vec!["b1"], vec!["a"], vec!["b"], vec!["c"], vec!["root"]]
    );
}

#[test]
fn no_task_gives_no_batch() {
    assert!(plan_batches(&vec![], true).is_empty());
    assert!(plan_batches(&vec![], false).is_empty());
}

#[test]
fn orders_far_apart_cost_nothing() {
    let tasks = vec![ordered("deep", u64::MAX), ordered("root", 0)];
    assert_eq!(commands(&plan_batches(&tasks, true)), vec![vec!["deep"], vec!["root"]]);
}

#[test]
fn only_exit_code_zero_is_success() {
    assert!(task_succeeded(&TaskReport::Exited(0)));
    assert!(!task_succeeded(&TaskReport::Exited(1)));
    assert!(!task_succeeded(&TaskReport::Exited(-1)));
    assert!(!task_succeeded(&TaskReport::NoExitCode));
    assert!(!task_succeeded(&TaskReport::NotStarted));
    assert!(!task_succeeded(&TaskReport::ThreadFailed));
}

#[test]
fn a_batch_succeeds_where_each_task_has_a_good_report() {
    let good = TaskReport::Exited(0);
    assert!(batch_succeeded(&vec![good, good], 2));
    assert!(batch_succeeded(&vec![], 0));
    assert!(!batch_succeeded(&vec![good], 2));
    assert!(!batch_succeeded(&vec![good, good, good], 2));
    assert!(!batch_succeeded(&vec![good, TaskReport::Exited(3)], 2));
}

#[test]
fn a_parallel_run_goes_level_by_level() {
    let good = TaskReport::Exited(0);
    let mut execution = Execution::new(&sample(), true);
    assert_eq!(execution.exit(), None);
    assert_eq!(commands(&[execution.current_batch().unwrap()]), vec![vec!["a1", "b1"]]);
    assert_eq!(commands(&[execution.current_batch().unwrap()]), vec![vec!["a1", "b1"]]);
    execution.report(&vec![good, good]);
    assert_eq!(commands(&[execution.current_batch().unwrap()]), vec![vec!["a", "b", "c"]]);
    execution.report(&vec![good, good, good]);
    assert_eq!(commands(&[execution.current_batch().unwrap()]), vec![vec!["root"]]);
    assert_eq!(execution.exit(), None);
    execution.report(&vec![good]);
    assert_eq!(execution.current_batch(), None);
    assert_eq!(execution.exit(), Some(TaskExit::SUCCESS));
}

#[test]
fn a_failure_in_the_deepest_level_starts_nothing_above() {
    let mut execution = Execution::new(&sample(), true);
    execution.report(&vec![TaskReport::Exited(0), TaskReport::NotStarted]);
    assert_eq!(execution.exit(), Some(TaskExit::FAILURE));
    assert_eq!(execution.current_batch(), None);
}

#[test]
fn a_report_of_the_wrong_size_fails_the_run() {
    let mut execution = Execution::new(&sample(), true);
    execution.report(&vec![TaskReport::Exited(0)]);
    assert_eq!(execution.exit(), Some(TaskExit::FAILURE));
}
