//! Running the selected tasks level by level.
//!
//! Tasks run from the greatest order down to 0, so that what is nested
//! deeper has run before what holds it. The tasks of one order form a
//! level. A level is run either one task at a time, in the order in which
//! the tasks were selected, or all at once.
//!
//! Running a command is not done here. The library lays out the batches,
//! hands them out one by one, and takes back how each went: a batch is a
//! list of tasks that are started together and waited for together. The
//! next batch is handed out only when every task of the batch before has
//! succeeded; after the first failure there is none.

use vstd::prelude::*;
use crate::error::RaskError;
use crate::select::{OrderedTaskView, SortableTasks};

verus! {

/// How a run ended.
#[allow(non_camel_case_types)]
#[derive(Debug, Clone, Copy, PartialEq, Eq, Structural)]
pub enum TaskExit {
    SUCCESS,
    FAILURE,
}

/// The greatest order among `tasks`, or 0 where there is no task.
pub open spec fn highest_order(tasks: Seq<OrderedTaskView>) -> nat
    decreases tasks.len(),
{
    if tasks.len() == 0 {
        0
    } else {
        let before = highest_order(tasks.drop_last());
        if tasks.last().order > before {
            tasks.last().order
        } else {
            before
        }
    }
}

/// The tasks of order `order` among the first `upto` of `tasks`, in order.
pub open spec fn tasks_at(
    tasks: Seq<OrderedTaskView>,
    order: nat,
    upto: int,
) -> Seq<OrderedTaskView>
    decreases upto,
{
    if upto <= 0 {
        Seq::empty()
    } else {
        let before = tasks_at(tasks, order, upto - 1);
        if tasks[upto - 1].order == order {
            before.push(tasks[upto - 1])
        } else {
            before
        }
    }
}

/// The level of order `order`: all tasks of that order, as selected.
pub open spec fn level(tasks: Seq<OrderedTaskView>, order: nat) -> Seq<OrderedTaskView> {
    tasks_at(tasks, order, tasks.len() as int)
}

/// Each of `tasks` as a batch of its own.
pub open spec fn one_by_one(tasks: Seq<OrderedTaskView>) -> Seq<Seq<OrderedTaskView>> {
    Seq::new(tasks.len(), |i: int| seq![tasks[i]])
}

/// The batches in which the level of order `order` is run: the whole level
/// as one batch where it is run at once, unless it is empty; each of its
/// tasks as a batch of its own otherwise.
pub open spec fn level_batches(tasks: Seq<OrderedTaskView>, parallel: bool, order: nat) -> Seq<
    Seq<OrderedTaskView>,
> {
    let batch = level(tasks, order);
    if !parallel {
        one_by_one(batch)
    } else if batch.len() == 0 {
        Seq::empty()
    } else {
        seq![batch]
    }
}

/// The batches of the levels from `order` down to 0.
pub open spec fn batches_from(
    tasks: Seq<OrderedTaskView>,
    parallel: bool,
    order: nat,
) -> Seq<Seq<OrderedTaskView>>
    decreases order,
{
    if order == 0 {
        level_batches(tasks, parallel, 0)
    } else {
        level_batches(tasks, parallel, order) + batches_from(
            tasks,
            parallel,
            (order - 1) as nat,
        )
    }
}

/// The batches in which `tasks` are run, first batch first.
pub open spec fn schedule(tasks: Seq<OrderedTaskView>, parallel: bool) -> Seq<
    Seq<OrderedTaskView>,
> {
    batches_from(tasks, parallel, highest_order(tasks))
}

/// `highest_order` is an upper bound, and where there is a task it is the
/// order of one.
pub proof fn lemma_highest_order(tasks: Seq<OrderedTaskView>)
    ensures
        forall|i: int| 0 <= i < tasks.len() ==> (#[trigger] tasks[i]).order <= highest_order(tasks),
        tasks.len() > 0 ==> exists|i: int|
            0 <= i < tasks.len() && (#[trigger] tasks[i]).order == highest_order(tasks),
    decreases tasks.len(),
{
    if tasks.len() > 0 {
        let front = tasks.drop_last();
        lemma_highest_order(front);
        assert forall|i: int| 0 <= i < tasks.len() implies (#[trigger] tasks[i]).order
            <= highest_order(tasks) by {
            if i < front.len() {
                assert(front[i] == tasks[i]);
            }
        }
        if tasks.last().order > highest_order(front) || front.len() == 0 {
            assert(tasks[tasks.len() - 1].order == highest_order(tasks));
        } else {
            let i = choose|i: int|
                0 <= i < front.len() && (#[trigger] front[i]).order == highest_order(front);
            assert(tasks[i] == front[i]);
        }
    }
}

/// Finds the greatest order among `ordered_tasks`, 0 where there is none.
/// It never fails.
pub fn find_highest_order(ordered_tasks: &SortableTasks) -> (highest: Result<u64, RaskError>)
    ensures
        highest is Ok,
        highest->Ok_0 == highest_order(ordered_tasks.deep_view()),
{
    let mut highest_order: u64 = 0u64;
    let mut i: usize = 0;
    assert(ordered_tasks.deep_view().subrange(0, 0) =~= Seq::empty());
    while i < ordered_tasks.len()
        invariant
            0 <= i <= ordered_tasks.len(),
            highest_order == self::highest_order(ordered_tasks.deep_view().subrange(0, i as int)),
        decreases ordered_tasks.len() - i,
    {
        let ghost before = ordered_tasks.deep_view().subrange(0, i as int);
        let ghost next = ordered_tasks.deep_view().subrange(0, i + 1);
        assert(next.drop_last() =~= before);
        assert(next.last() == ordered_tasks[i as int]@);
        if ordered_tasks[i].order > highest_order {
            highest_order = ordered_tasks[i].order;
        }
        i += 1;
    }
    assert(ordered_tasks.deep_view().subrange(0, i as int) =~= ordered_tasks.deep_view());
    Ok(highest_order)
}

/// Collects the tasks of order `order`, as selected. It never fails.
pub fn get_ordered_tasks(
    sortable_tasks: &SortableTasks,
    order: u64,
) -> (batch: Result<SortableTasks, RaskError>)
    ensures
        batch is Ok,
        batch->Ok_0.deep_view() == level(sortable_tasks.deep_view(), order as nat),
{
    let mut batch: SortableTasks = Vec::new();
    let mut i: usize = 0;
    assert(batch.deep_view() =~= Seq::empty());
    while i < sortable_tasks.len()
        invariant
            0 <= i <= sortable_tasks.len(),
            batch.deep_view() == tasks_at(sortable_tasks.deep_view(), order as nat, i as int),
        decreases sortable_tasks.len() - i,
    {
        let ghost before = batch.deep_view();
        if sortable_tasks[i].order == order {
            let task = sortable_tasks[i].clone();
            batch.push(task);
            assert(batch.deep_view() =~= before.push(sortable_tasks[i as int]@));
        }
        i += 1;
    }
    Ok(batch)
}

/// Finds the greatest order below `bound` among `tasks`.
fn next_order_below(tasks: &SortableTasks, bound: u64) -> (next: Option<u64>)
    ensures
        match next {
            Some(order) => {
                &&& order < bound
                &&& exists|i: int|
                    0 <= i < tasks.len() && (#[trigger] tasks.deep_view()[i]).order == order
                &&& forall|i: int|
                    0 <= i < tasks.len() && (#[trigger] tasks.deep_view()[i]).order < bound
                        ==> tasks.deep_view()[i].order <= order
            },
            None => forall|i: int|
                0 <= i < tasks.len() ==> (#[trigger] tasks.deep_view()[i]).order >= bound,
        },
{
    let mut next: Option<u64> = None;
    let mut i: usize = 0;
    while i < tasks.len()
        invariant
            0 <= i <= tasks.len(),
            match next {
                Some(order) => {
                    &&& order < bound
                    &&& exists|j: int|
                        0 <= j < i && (#[trigger] tasks.deep_view()[j]).order == order
                    &&& forall|j: int|
                        0 <= j < i && (#[trigger] tasks.deep_view()[j]).order < bound
                            ==> tasks.deep_view()[j].order <= order
                },
                None => forall|j: int|
                    0 <= j < i ==> (#[trigger] tasks.deep_view()[j]).order >= bound,
            },
        decreases tasks.len() - i,
    {
        let order = tasks[i].order;
        assert(tasks.deep_view()[i as int].order == order);
        if order < bound {
            let better = match next {
                Some(best) => order > best,
                None => true,
            };
            if better {
                next = Some(order);
            }
        }
        i += 1;
    }
    next
}

/// Levels that hold no task add no batch.
proof fn lemma_empty_levels(tasks: Seq<OrderedTaskView>, parallel: bool, from: nat, below: nat)
    requires
        below <= from,
        forall|i: int|
            0 <= i < tasks.len() ==> !(below <= (#[trigger] tasks[i]).order <= from),
    ensures
        batches_from(tasks, parallel, from) == if below == 0 {
            Seq::<Seq<OrderedTaskView>>::empty()
        } else {
            batches_from(tasks, parallel, (below - 1) as nat)
        },
    decreases from - below,
{
    lemma_empty_level(tasks, from, tasks.len() as int);
    assert(level_batches(tasks, parallel, from) =~= Seq::<Seq<OrderedTaskView>>::empty());
    if below < from {
        lemma_empty_levels(tasks, parallel, (from - 1) as nat, below);
        assert(batches_from(tasks, parallel, from) =~= batches_from(
            tasks,
            parallel,
            (from - 1) as nat,
        ));
    } else if from > 0 {
        assert(batches_from(tasks, parallel, from) =~= batches_from(
            tasks,
            parallel,
            (from - 1) as nat,
        ));
    }
}

proof fn lemma_empty_level(tasks: Seq<OrderedTaskView>, order: nat, upto: int)
    requires
        0 <= upto <= tasks.len(),
        forall|i: int| 0 <= i < tasks.len() ==> (#[trigger] tasks[i]).order != order,
    ensures
        tasks_at(tasks, order, upto) == Seq::<OrderedTaskView>::empty(),
    decreases upto,
{
    if upto > 0 {
        lemma_empty_level(tasks, order, upto - 1);
    }
}

/// Adds the batches of one level to `batches`.
fn push_level(batches: &mut Vec<SortableTasks>, batch: SortableTasks, parallel: bool)
    ensures
        final(batches).deep_view() == old(batches).deep_view() + if !parallel {
            one_by_one(batch.deep_view())
        } else if batch.len() == 0 {
            Seq::<Seq<OrderedTaskView>>::empty()
        } else {
            seq![batch.deep_view()]
        },
{
    let ghost start = batches.deep_view();
    if parallel {
        if batch.len() > 0 {
            batches.push(batch);
            assert(batches.deep_view() =~= start + seq![batch.deep_view()]);
        } else {
            assert(batches.deep_view() =~= start + Seq::<Seq<OrderedTaskView>>::empty());
        }
    } else {
        let mut i: usize = 0;
        while i < batch.len()
            invariant
                0 <= i <= batch.len(),
                batches.len() == start.len() + i,
                forall|j: int| 0 <= j < start.len() ==> batches.deep_view()[j] == start[j],
                forall|j: int|
                    0 <= j < i ==> batches.deep_view()[start.len() + j] == seq![
                        batch.deep_view()[j],
                    ],
            decreases batch.len() - i,
        {
            let ghost before = batches.deep_view();
            let mut single: SortableTasks = Vec::new();
            single.push(batch[i].clone());
            assert(single.deep_view() =~= seq![batch.deep_view()[i as int]]);
            batches.push(single);
            assert(batches.deep_view() =~= before.push(single.deep_view()));
            i += 1;
        }
        assert(batches.deep_view() =~= start + one_by_one(batch.deep_view()));
    }
}

/// Lays out the batches in which `tasks` are run: level by level from the
/// greatest order down, and within a level either the whole level at once
/// (`parallel`) or one task after the other, in the order given.
pub fn plan_batches(tasks: &SortableTasks, parallel: bool) -> (batches: Vec<SortableTasks>)
    ensures
        batches.deep_view() == schedule(tasks.deep_view(), parallel),
{
    let mut batches: Vec<SortableTasks> = Vec::new();
    let mut order = match find_highest_order(tasks) {
        Ok(order) => order,
        Err(_) => 0,
    };
    let mut more = true;
    assert(batches.deep_view() + schedule(tasks.deep_view(), parallel) =~= schedule(
        tasks.deep_view(),
        parallel,
    ));
    while more
        invariant
            more ==> batches.deep_view() + batches_from(
                tasks.deep_view(),
                parallel,
                order as nat,
            ) == schedule(tasks.deep_view(), parallel),
            !more ==> batches.deep_view() == schedule(tasks.deep_view(), parallel),
        decreases
                if more {
                    order + 1
                } else {
                    0
                },
    {
        let ghost done = batches.deep_view();
        let ghost all = tasks.deep_view();
        let batch = match get_ordered_tasks(tasks, order) {
            Ok(batch) => batch,
            Err(_) => Vec::new(),
        };
        push_level(&mut batches, batch, parallel);
        assert(batches.deep_view() == done + level_batches(all, parallel, order as nat));
        match next_order_below(tasks, order) {
            Some(lower) => {
                proof {
                    if lower + 1 < order {
                        lemma_empty_levels(all, parallel, (order - 1) as nat, (lower + 1) as nat);
                    }
                    assert(batches_from(all, parallel, order as nat) == level_batches(
                        all,
                        parallel,
                        order as nat,
                    ) + batches_from(all, parallel, lower as nat));
                    assert(batches.deep_view() + batches_from(all, parallel, lower as nat) =~= done
                        + batches_from(all, parallel, order as nat));
                }
                order = lower;
            },
            None => {
                proof {
                    if order > 0 {
                        lemma_empty_levels(all, parallel, (order - 1) as nat, 0);
                        assert(batches_from(all, parallel, order as nat) =~= level_batches(
                            all,
                            parallel,
                            order as nat,
                        ));
                    }
                }
                more = false;
            },
        }
    }
    batches
}

/// How running one task ended.
#[derive(Debug, Clone, Copy, PartialEq, Eq, Structural)]
pub enum TaskReport {
    /// The process ran and exited with this code.
    Exited(i32),
    /// The process ran and ended without an exit code.
    NoExitCode,
    /// The process could not be started.
    NotStarted,
    /// Whatever was to run the task broke down before it could tell.
    ThreadFailed,
}

/// A task has succeeded where its process exited with code 0.
pub open spec fn succeeded(report: TaskReport) -> bool {
    report == TaskReport::Exited(0)
}

/// Every task of a batch of `count` tasks has a report, and has succeeded.
pub open spec fn all_succeeded(reports: Seq<TaskReport>, count: nat) -> bool {
    &&& reports.len() == count
    &&& forall|i: int| 0 <= i < reports.len() ==> succeeded(#[trigger] reports[i])
}

/// The state of a run.
pub struct Execution {
    batches: Vec<SortableTasks>,
    cursor: usize,
    failed: bool,
}

/// Mathematical model of an [`Execution`]: the batches, how many of them
/// have run and succeeded, and whether the one after those has failed.
pub struct ExecutionView {
    pub batches: Seq<Seq<OrderedTaskView>>,
    pub cursor: nat,
    pub failed: bool,
}

impl View for Execution {
    type V = ExecutionView;

    closed spec fn view(&self) -> ExecutionView {
        ExecutionView {
            batches: self.batches.deep_view(),
            cursor: self.cursor as nat,
            failed: self.failed,
        }
    }
}

/// The state in which running `tasks` starts.
pub open spec fn begin(tasks: Seq<OrderedTaskView>, parallel: bool) -> ExecutionView {
    ExecutionView { batches: schedule(tasks, parallel), cursor: 0, failed: false }
}

/// The batch to run in `state`, if the run goes on.
pub open spec fn current(state: ExecutionView) -> Option<Seq<OrderedTaskView>> {
    if !state.failed && state.cursor < state.batches.len() {
        Some(state.batches[state.cursor as int])
    } else {
        None
    }
}

/// `state` after the current batch has run with `reports`: on to the next
/// batch where every task has succeeded, failed otherwise. A run that is
/// over stays as it is.
pub open spec fn reported(state: ExecutionView, reports: Seq<TaskReport>) -> ExecutionView {
    match current(state) {
        None => state,
        Some(batch) => if all_succeeded(reports, batch.len()) {
            ExecutionView { cursor: state.cursor + 1, ..state }
        } else {
            ExecutionView { failed: true, ..state }
        },
    }
}

/// How the run ended, if it is over.
pub open spec fn exit_of(state: ExecutionView) -> Option<TaskExit> {
    if state.failed {
        Some(TaskExit::FAILURE)
    } else if state.cursor >= state.batches.len() {
        Some(TaskExit::SUCCESS)
    } else {
        None
    }
}

/// Whether a task has succeeded.
pub fn task_succeeded(report: &TaskReport) -> (success: bool)
    ensures
        success == succeeded(*report),
{
    match report {
        TaskReport::Exited(code) => *code == 0,
        _ => false,
    }
}

/// Whether `reports` holds a report for each of `count` tasks, and each
/// has succeeded.
pub fn batch_succeeded(reports: &Vec<TaskReport>, count: usize) -> (success: bool)
    ensures
        success == all_succeeded(reports@, count as nat),
{
    if reports.len() != count {
        return false;
    }
    let mut i: usize = 0;
    while i < reports.len()
        invariant
            0 <= i <= reports.len(),
            forall|j: int| 0 <= j < i ==> succeeded(#[trigger] reports@[j]),
        decreases reports.len() - i,
    {
        if !task_succeeded(&reports[i]) {
            return false;
        }
        i += 1;
    }
    true
}

impl Execution {
    /// Lays out the run of `tasks`.
    pub fn new(tasks: &SortableTasks, parallel: bool) -> (execution: Execution)
        ensures
            execution@ == begin(tasks.deep_view(), parallel),
    {
        Execution { batches: plan_batches(tasks, parallel), cursor: 0, failed: false }
    }

    /// The batch to run now: its tasks are to be started together, and
    /// all of them waited for. `None` where the run is over.
    pub fn current_batch(&self) -> (batch: Option<SortableTasks>)
        ensures
            batch.deep_view() == current(self@),
    {
        if !self.failed && self.cursor < self.batches.len() {
            let batch = &self.batches[self.cursor];
            let mut copy: SortableTasks = Vec::new();
            let mut i: usize = 0;
            while i < batch.len()
                invariant
                    0 <= i <= batch.len(),
                    copy@ == batch@.subrange(0, i as int),
                decreases batch.len() - i,
            {
                copy.push(batch[i].clone());
                i += 1;
                assert(copy@ =~= batch@.subrange(0, i as int));
            }
            assert(batch@.subrange(0, i as int) =~= batch@);
            assert(copy.deep_view() =~= batch.deep_view());
            Some(copy)
        } else {
            None
        }
    }

    /// Takes back how the tasks of the current batch went, one report for
    /// each task. Unless each of them has succeeded the run has failed.
    pub fn report(&mut self, reports: &Vec<TaskReport>)
        ensures
            final(self)@ == reported(old(self)@, reports@),
    {
        if !self.failed && self.cursor < self.batches.len() {
            if batch_succeeded(reports, self.batches[self.cursor].len()) {
                self.cursor = self.cursor + 1;
            } else {
                self.failed = true;
            }
        }
    }

    /// How the run ended: `FAILURE` once a batch has failed, `SUCCESS`
    /// once every batch has run, `None` while there is a batch to run.
    pub fn exit(&self) -> (exit: Option<TaskExit>)
        ensures
            exit == exit_of(self@),
    {
        if self.failed {
            Some(TaskExit::FAILURE)
        } else if self.cursor >= self.batches.len() {
            Some(TaskExit::SUCCESS)
        } else {
            None
        }
    }
}

/// The order that the tasks of a batch share.
pub open spec fn batch_order(batch: Seq<OrderedTaskView>) -> nat {
    batch[0].order
}

/// `batch` is a batch of the level of its order: it holds a task, its
/// tasks share one order, and it is the whole level where levels are run at
/// once, a single task otherwise.
pub open spec fn is_level_batch(
    tasks: Seq<OrderedTaskView>,
    parallel: bool,
    batch: Seq<OrderedTaskView>,
) -> bool {
    &&& batch.len() > 0
    &&& forall|p: int| 0 <= p < batch.len() ==> (#[trigger] batch[p]).order == batch_order(batch)
    &&& parallel ==> batch == level(tasks, batch_order(batch))
    &&& !parallel ==> batch.len() == 1
}

proof fn lemma_tasks_at(tasks: Seq<OrderedTaskView>, order: nat, upto: int)
    requires
        0 <= upto <= tasks.len(),
    ensures
        forall|p: int|
            0 <= p < tasks_at(tasks, order, upto).len() ==> (#[trigger] tasks_at(
                tasks,
                order,
                upto,
            )[p]).order == order,
        forall|i: int|
            0 <= i < upto && (#[trigger] tasks[i]).order == order ==> tasks_at(
                tasks,
                order,
                upto,
            ).contains(tasks[i]),
    decreases upto,
{
    if upto > 0 {
        lemma_tasks_at(tasks, order, upto - 1);
        let before = tasks_at(tasks, order, upto - 1);
        let now = tasks_at(tasks, order, upto);
        assert forall|i: int| 0 <= i < upto && (#[trigger] tasks[i]).order == order implies now.contains(
            tasks[i],
        ) by {
            if i < upto - 1 {
                assert(before.contains(tasks[i]));
                let p = choose|p: int| 0 <= p < before.len() && before[p] == tasks[i];
                assert(now[p] == tasks[i]);
            } else {
                assert(now[now.len() - 1] == tasks[i]);
            }
        }
    }
}

proof fn lemma_level_batches(tasks: Seq<OrderedTaskView>, parallel: bool, order: nat)
    ensures
        forall|b: int|
            0 <= b < level_batches(tasks, parallel, order).len() ==> is_level_batch(
                tasks,
                parallel,
                #[trigger] level_batches(tasks, parallel, order)[b],
            ) && batch_order(level_batches(tasks, parallel, order)[b]) == order,
        forall|i: int|
            0 <= i < tasks.len() && (#[trigger] tasks[i]).order == order ==> exists|b: int, p: int|
                0 <= b < level_batches(tasks, parallel, order).len() && 0 <= p < level_batches(
                    tasks,
                    parallel,
                    order,
                )[b].len() && #[trigger] level_batches(tasks, parallel, order)[b][p] == tasks[i],
{
    lemma_tasks_at(tasks, order, tasks.len() as int);
    let whole = level(tasks, order);
    let batches = level_batches(tasks, parallel, order);
    assert forall|b: int| 0 <= b < batches.len() implies is_level_batch(
        tasks,
        parallel,
        #[trigger] batches[b],
    ) && batch_order(batches[b]) == order by {
        if parallel {
            assert(batches[b] == whole);
            assert(whole[0].order == order);
        } else {
            assert(batches[b] == seq![whole[b]]);
            assert(whole[b].order == order);
            assert(batches[b][0] == whole[b]);
        }
    }
    assert forall|i: int| 0 <= i < tasks.len() && (#[trigger] tasks[i]).order == order implies exists|
        b: int,
        p: int,
    |
        0 <= b < batches.len() && 0 <= p < batches[b].len() && #[trigger] batches[b][p]
            == tasks[i] by {
        assert(whole.contains(tasks[i]));
        let k = choose|k: int| 0 <= k < whole.len() && whole[k] == tasks[i];
        if parallel {
            assert(batches[0][k] == tasks[i]);
        } else {
            assert(batches[k] == seq![whole[k]]);
            assert(batches[k][0] == tasks[i]);
        }
    }
}

proof fn lemma_batches_from(tasks: Seq<OrderedTaskView>, parallel: bool, top: nat)
    ensures
        forall|b: int|
            0 <= b < batches_from(tasks, parallel, top).len() ==> is_level_batch(
                tasks,
                parallel,
                #[trigger] batches_from(tasks, parallel, top)[b],
            ) && batch_order(batches_from(tasks, parallel, top)[b]) <= top,
        forall|b1: int, b2: int|
            0 <= b1 < b2 < batches_from(tasks, parallel, top).len() ==> batch_order(
                #[trigger] batches_from(tasks, parallel, top)[b1],
            ) >= batch_order(#[trigger] batches_from(tasks, parallel, top)[b2]),
        forall|b1: int, b2: int|
            parallel && 0 <= b1 < b2 < batches_from(tasks, parallel, top).len() ==> batch_order(
                #[trigger] batches_from(tasks, parallel, top)[b1],
            ) > batch_order(#[trigger] batches_from(tasks, parallel, top)[b2]),
        forall|i: int|
            0 <= i < tasks.len() && (#[trigger] tasks[i]).order <= top ==> exists|b: int, p: int|
                0 <= b < batches_from(tasks, parallel, top).len() && 0 <= p < batches_from(
                    tasks,
                    parallel,
                    top,
                )[b].len() && #[trigger] batches_from(tasks, parallel, top)[b][p] == tasks[i],
    decreases top,
{
    let here = level_batches(tasks, parallel, top);
    let all = batches_from(tasks, parallel, top);
    lemma_level_batches(tasks, parallel, top);
    if top == 0 {
        assert(all == here);
        assert forall|b1: int, b2: int| parallel && 0 <= b1 < b2 < all.len() implies batch_order(
            #[trigger] all[b1],
        ) > batch_order(#[trigger] all[b2]) by {
            assert(all.len() <= 1);
        }
        assert forall|i: int| 0 <= i < tasks.len() && (#[trigger] tasks[i]).order <= top implies exists|
            b: int,
            p: int,
        |
            0 <= b < all.len() && 0 <= p < all[b].len() && #[trigger] all[b][p] == tasks[i] by {
            assert(tasks[i].order == 0);
            let (b, p) = choose|b: int, p: int|
                0 <= b < here.len() && 0 <= p < here[b].len() && #[trigger] here[b][p]
                    == tasks[i];
            assert(all[b][p] == tasks[i]);
        }
    } else {
        let rest = batches_from(tasks, parallel, (top - 1) as nat);
        lemma_batches_from(tasks, parallel, (top - 1) as nat);
        assert(all == here + rest);
        assert forall|b: int| 0 <= b < all.len() implies is_level_batch(
            tasks,
            parallel,
            #[trigger] all[b],
        ) && batch_order(all[b]) <= top by {
            if b < here.len() {
                assert(all[b] == here[b]);
            } else {
                assert(all[b] == rest[b - here.len()]);
            }
        }
        assert forall|b1: int, b2: int| 0 <= b1 < b2 < all.len() implies batch_order(
            #[trigger] all[b1],
        ) >= batch_order(#[trigger] all[b2]) && (parallel ==> batch_order(all[b1]) > batch_order(
            all[b2],
        )) by {
            if b1 < here.len() {
                assert(all[b1] == here[b1]);
            } else {
                assert(all[b1] == rest[b1 - here.len()]);
            }
            if b2 < here.len() {
                assert(all[b2] == here[b2]);
                assert(parallel ==> here.len() <= 1);
            } else {
                assert(all[b2] == rest[b2 - here.len()]);
            }
        }
        assert forall|i: int| 0 <= i < tasks.len() && (#[trigger] tasks[i]).order <= top implies exists|
            b: int,
            p: int,
        |
            0 <= b < all.len() && 0 <= p < all[b].len() && #[trigger] all[b][p] == tasks[i] by {
            if tasks[i].order == top {
                let (b, p) = choose|b: int, p: int|
                    0 <= b < here.len() && 0 <= p < here[b].len() && #[trigger] here[b][p]
                        == tasks[i];
                assert(all[b][p] == tasks[i]);
            } else {
                let (b, p) = choose|b: int, p: int|
                    0 <= b < rest.len() && 0 <= p < rest[b].len() && #[trigger] rest[b][p]
                        == tasks[i];
                assert(all[here.len() + b][p] == tasks[i]);
            }
        }
    }
}

/// Every batch of a schedule is a batch of one level: its tasks share one
/// order. Run at once, the batch is the whole level, so that every task of
/// the level is started whatever becomes of the others. Run one by one, the
/// batch is a single task, so that a task is started only when the one
/// before it has succeeded.
pub proof fn lemma_batches_are_levels(tasks: Seq<OrderedTaskView>, parallel: bool, b: int)
    requires
        0 <= b < schedule(tasks, parallel).len(),
    ensures
        is_level_batch(tasks, parallel, schedule(tasks, parallel)[b]),
{
    lemma_batches_from(tasks, parallel, highest_order(tasks));
}

/// Levels are run from the greatest order down: a later batch never holds
/// a task of greater order than an earlier one, and where levels are run
/// at once, each batch is of lesser order than the one before.
pub proof fn lemma_levels_descend(tasks: Seq<OrderedTaskView>, parallel: bool, b1: int, b2: int)
    requires
        0 <= b1 < b2 < schedule(tasks, parallel).len(),
    ensures
        batch_order(schedule(tasks, parallel)[b1]) >= batch_order(schedule(tasks, parallel)[b2]),
        parallel ==> batch_order(schedule(tasks, parallel)[b1]) > batch_order(
            schedule(tasks, parallel)[b2],
        ),
{
    lemma_batches_from(tasks, parallel, highest_order(tasks));
}

/// Every task is in a batch of the schedule.
pub proof fn lemma_every_task_scheduled(tasks: Seq<OrderedTaskView>, parallel: bool, i: int)
    requires
        0 <= i < tasks.len(),
    ensures
        exists|b: int, p: int|
            0 <= b < schedule(tasks, parallel).len() && 0 <= p < schedule(
                tasks,
                parallel,
            )[b].len() && #[trigger] schedule(tasks, parallel)[b][p] == tasks[i],
{
    lemma_highest_order(tasks);
    lemma_batches_from(tasks, parallel, highest_order(tasks));
    let top = highest_order(tasks);
    assert(tasks[i].order <= top);
    let (b, p) = choose|b: int, p: int|
        0 <= b < batches_from(tasks, parallel, top).len() && 0 <= p < batches_from(
            tasks,
            parallel,
            top,
        )[b].len() && #[trigger] batches_from(tasks, parallel, top)[b][p] == tasks[i];
    assert(schedule(tasks, parallel)[b][p] == tasks[i]);
}

/// The tasks of `batches`, put end to end.
pub open spec fn in_turn(batches: Seq<Seq<OrderedTaskView>>) -> Seq<OrderedTaskView>
    decreases batches.len(),
{
    if batches.len() == 0 {
        Seq::empty()
    } else {
        in_turn(batches.drop_last()) + batches.last()
    }
}

/// How often `task` occurs among `tasks`.
pub open spec fn occurrences(tasks: Seq<OrderedTaskView>, task: OrderedTaskView) -> nat
    decreases tasks.len(),
{
    if tasks.len() == 0 {
        0
    } else {
        occurrences(tasks.drop_last(), task) + if tasks.last() == task {
            1nat
        } else {
            0nat
        }
    }
}

proof fn lemma_occurrences_add(
    left: Seq<OrderedTaskView>,
    right: Seq<OrderedTaskView>,
    task: OrderedTaskView,
)
    ensures
        occurrences(left + right, task) == occurrences(left, task) + occurrences(right, task),
    decreases right.len(),
{
    if right.len() == 0 {
        assert(left + right =~= left);
    } else {
        lemma_occurrences_add(left, right.drop_last(), task);
        assert((left + right).drop_last() =~= left + right.drop_last());
    }
}

proof fn lemma_in_turn_add(left: Seq<Seq<OrderedTaskView>>, right: Seq<Seq<OrderedTaskView>>)
    ensures
        in_turn(left + right) == in_turn(left) + in_turn(right),
    decreases right.len(),
{
    if right.len() == 0 {
        assert(left + right =~= left);
        assert(in_turn(left) + in_turn(right) =~= in_turn(left));
    } else {
        lemma_in_turn_add(left, right.drop_last());
        assert((left + right).drop_last() =~= left + right.drop_last());
        assert(in_turn(left + right) =~= in_turn(left) + in_turn(right));
    }
}

proof fn lemma_in_turn_one_by_one(tasks: Seq<OrderedTaskView>)
    ensures
        in_turn(one_by_one(tasks)) == tasks,
    decreases tasks.len(),
{
    if tasks.len() == 0 {
        assert(in_turn(one_by_one(tasks)) =~= tasks);
    } else {
        lemma_in_turn_one_by_one(tasks.drop_last());
        assert(one_by_one(tasks).drop_last() =~= one_by_one(tasks.drop_last()));
        assert(in_turn(one_by_one(tasks)) =~= tasks);
    }
}

/// The level of an order holds a task as often as it is among the tasks
/// where the task is of that order, and not at all otherwise.
proof fn lemma_level_occurrences(
    tasks: Seq<OrderedTaskView>,
    order: nat,
    upto: int,
    task: OrderedTaskView,
)
    requires
        0 <= upto <= tasks.len(),
    ensures
        occurrences(tasks_at(tasks, order, upto), task) == if task.order == order {
            occurrences(tasks.subrange(0, upto), task)
        } else {
            0
        },
    decreases upto,
{
    if upto > 0 {
        lemma_level_occurrences(tasks, order, upto - 1, task);
        let part = tasks.subrange(0, upto);
        assert(part.drop_last() =~= tasks.subrange(0, upto - 1));
        assert(part.last() == tasks[upto - 1]);
        let before = tasks_at(tasks, order, upto - 1);
        if tasks[upto - 1].order == order {
            assert(before.push(tasks[upto - 1]).drop_last() =~= before);
        }
    } else {
        assert(tasks.subrange(0, upto) =~= Seq::<OrderedTaskView>::empty());
    }
}

proof fn lemma_batches_from_occurrences(
    tasks: Seq<OrderedTaskView>,
    parallel: bool,
    top: nat,
    task: OrderedTaskView,
)
    ensures
        occurrences(in_turn(batches_from(tasks, parallel, top)), task) == if task.order <= top {
            occurrences(tasks, task)
        } else {
            0
        },
    decreases top,
{
    let whole = level(tasks, top);
    let here = level_batches(tasks, parallel, top);
    lemma_level_occurrences(tasks, top, tasks.len() as int, task);
    assert(tasks.subrange(0, tasks.len() as int) =~= tasks);
    assert(in_turn(here) == whole) by {
        if !parallel {
            lemma_in_turn_one_by_one(whole);
        } else if whole.len() == 0 {
            assert(in_turn(here) =~= whole);
        } else {
            assert(here.drop_last() =~= Seq::<Seq<OrderedTaskView>>::empty());
            assert(in_turn(here.drop_last()) =~= Seq::<OrderedTaskView>::empty());
            assert(here.last() == whole);
            assert(in_turn(here) =~= whole);
        }
    }
    if top > 0 {
        let rest = batches_from(tasks, parallel, (top - 1) as nat);
        lemma_batches_from_occurrences(tasks, parallel, (top - 1) as nat, task);
        lemma_in_turn_add(here, rest);
        lemma_occurrences_add(in_turn(here), in_turn(rest), task);
    }
}

/// Every task runs once: a schedule holds each task as often as it was
/// given, neither dropping nor repeating any.
pub proof fn lemma_schedule_holds_each_task_once(
    tasks: Seq<OrderedTaskView>,
    parallel: bool,
    task: OrderedTaskView,
)
    ensures
        occurrences(in_turn(schedule(tasks, parallel)), task) == occurrences(tasks, task),
{
    lemma_highest_order(tasks);
    lemma_batches_from_occurrences(tasks, parallel, highest_order(tasks), task);
    if task.order > highest_order(tasks) {
        lemma_absent(tasks, task);
    }
}

proof fn lemma_absent(tasks: Seq<OrderedTaskView>, task: OrderedTaskView)
    requires
        forall|i: int| 0 <= i < tasks.len() ==> (#[trigger] tasks[i]).order != task.order,
    ensures
        occurrences(tasks, task) == 0,
    decreases tasks.len(),
{
    if tasks.len() > 0 {
        let front = tasks.drop_last();
        assert forall|i: int| 0 <= i < front.len() implies (#[trigger] front[i]).order
            != task.order by {
            assert(front[i] == tasks[i]);
        }
        lemma_absent(front, task);
        assert(tasks[tasks.len() - 1].order != task.order);
    }
}

/// Run at once or one by one, the same tasks run in the same order: the
/// two schedules differ only in where a batch ends.
pub proof fn lemma_same_tasks_either_way(tasks: Seq<OrderedTaskView>)
    ensures
        in_turn(schedule(tasks, true)) == in_turn(schedule(tasks, false)),
{
    lemma_same_from(tasks, highest_order(tasks));
}

proof fn lemma_same_from(tasks: Seq<OrderedTaskView>, top: nat)
    ensures
        in_turn(batches_from(tasks, true, top)) == in_turn(batches_from(tasks, false, top)),
    decreases top,
{
    let whole = level(tasks, top);
    let at_once = level_batches(tasks, true, top);
    let singly = level_batches(tasks, false, top);
    lemma_in_turn_one_by_one(whole);
    assert(in_turn(at_once) == whole) by {
        if whole.len() == 0 {
            assert(in_turn(at_once) =~= whole);
        } else {
            assert(at_once.drop_last() =~= Seq::<Seq<OrderedTaskView>>::empty());
            assert(in_turn(at_once.drop_last()) =~= Seq::<OrderedTaskView>::empty());
            assert(at_once.last() == whole);
            assert(in_turn(at_once) =~= whole);
        }
    }
    if top > 0 {
        lemma_same_from(tasks, (top - 1) as nat);
        lemma_in_turn_add(at_once, batches_from(tasks, true, (top - 1) as nat));
        lemma_in_turn_add(singly, batches_from(tasks, false, (top - 1) as nat));
    }
}

/// The state of a run after the batches handed out so far have come back
/// with `reports`, one entry for each batch.
pub open spec fn after(state: ExecutionView, reports: Seq<Seq<TaskReport>>) -> ExecutionView
    decreases reports.len(),
{
    if reports.len() == 0 {
        state
    } else {
        reported(after(state, reports.drop_last()), reports.last())
    }
}

/// Batches run in turn, and only while all goes well: whatever reports
/// come in, the batches that count as done are those before the cursor,
/// each of them has come back with every task succeeded, and a run has
/// failed exactly where the batch at the cursor has come back otherwise.
pub proof fn lemma_batches_run_in_turn(
    tasks: Seq<OrderedTaskView>,
    parallel: bool,
    reports: Seq<Seq<TaskReport>>,
)
    ensures
        after(begin(tasks, parallel), reports).batches == schedule(tasks, parallel),
        after(begin(tasks, parallel), reports).cursor <= schedule(tasks, parallel).len(),
        after(begin(tasks, parallel), reports).cursor <= reports.len(),
        forall|b: int|
            0 <= b < after(begin(tasks, parallel), reports).cursor ==> all_succeeded(
                #[trigger] reports[b],
                schedule(tasks, parallel)[b].len(),
            ),
        after(begin(tasks, parallel), reports).failed ==> {
            let at = after(begin(tasks, parallel), reports).cursor as int;
            &&& at < reports.len()
            &&& at < schedule(tasks, parallel).len()
            &&& !all_succeeded(reports[at], schedule(tasks, parallel)[at].len())
        },
    decreases reports.len(),
{
    if reports.len() > 0 {
        let front = reports.drop_last();
        lemma_batches_run_in_turn(tasks, parallel, front);
        let before = after(begin(tasks, parallel), front);
        let now = after(begin(tasks, parallel), reports);
        assert forall|b: int| 0 <= b < now.cursor implies all_succeeded(
            #[trigger] reports[b],
            schedule(tasks, parallel)[b].len(),
        ) by {
            if b < before.cursor {
                assert(front[b] == reports[b]);
            } else {
                assert(b == before.cursor);
                assert(current(before) is Some);
                assert(before.cursor == front.len()) by {
                    lemma_cursor_keeps_up(tasks, parallel, front);
                }
            }
        }
        if now.failed {
            if before.failed {
                assert(front[now.cursor as int] == reports[now.cursor as int]);
            } else {
                lemma_cursor_keeps_up(tasks, parallel, front);
            }
        }
    }
}

/// While a run goes on, every report so far has moved it on by one batch.
proof fn lemma_cursor_keeps_up(
    tasks: Seq<OrderedTaskView>,
    parallel: bool,
    reports: Seq<Seq<TaskReport>>,
)
    ensures
        current(after(begin(tasks, parallel), reports)) is Some ==> after(
            begin(tasks, parallel),
            reports,
        ).cursor == reports.len(),
    decreases reports.len(),
{
    if reports.len() > 0 {
        lemma_cursor_keeps_up(tasks, parallel, reports.drop_last());
    }
}

/// A run that is over stays over: no batch is handed out, and no report
/// changes how it ended. After a failure, in particular, nothing more is
/// started.
pub proof fn lemma_over_is_over(state: ExecutionView, reports: Seq<TaskReport>)
    requires
        exit_of(state) is Some,
    ensures
        current(state) is None,
        reported(state, reports) == state,
{
}

/// A task runs only when every task of greater order has run and
/// succeeded: where a batch is handed out, each task of greater order is in
/// a batch that is done.
pub proof fn lemma_deeper_tasks_ran_first(
    tasks: Seq<OrderedTaskView>,
    parallel: bool,
    reports: Seq<Seq<TaskReport>>,
    i: int,
)
    requires
        0 <= i < tasks.len(),
        current(after(begin(tasks, parallel), reports)) is Some,
        tasks[i].order > batch_order(current(after(begin(tasks, parallel), reports))->0),
    ensures
        exists|b: int, p: int|
            0 <= b < after(begin(tasks, parallel), reports).cursor && 0 <= p < schedule(
                tasks,
                parallel,
            )[b].len() && #[trigger] schedule(tasks, parallel)[b][p] == tasks[i]
                && all_succeeded(reports[b], schedule(tasks, parallel)[b].len()),
{
    let state = after(begin(tasks, parallel), reports);
    let batches = schedule(tasks, parallel);
    lemma_batches_run_in_turn(tasks, parallel, reports);
    lemma_every_task_scheduled(tasks, parallel, i);
    let (b, p) = choose|b: int, p: int|
        0 <= b < batches.len() && 0 <= p < batches[b].len() && #[trigger] batches[b][p]
            == tasks[i];
    lemma_batches_are_levels(tasks, parallel, b);
    assert(batch_order(batches[b]) == tasks[i].order);
    if b > state.cursor {
        lemma_levels_descend(tasks, parallel, state.cursor as int, b);
    }
    assert(b < state.cursor);
    assert(batches[b][p] == tasks[i] && all_succeeded(reports[b], batches[b].len()));
}

} // verus!
