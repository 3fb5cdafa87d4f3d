//! Selecting the tasks to run and ordering them by depth.
//!
//! The tree is walked depth first. A node's own matching tasks come before
//! those of its children, and every selected task carries the depth of the
//! node that holds it: 0 for the root, one more for each step down.

use vstd::prelude::*;
use crate::config::{
    height, lemma_structure_view, max_height, ConfigStructure, ConfigView, StructureView,
};
use crate::error::{failure, ErrorKind, Failure, RaskError};
use crate::path::starts_with;
use crate::task::{resolve_config_task_command, task_command, ConfigTask, ConfigTaskView};

verus! {

/// A command and the directory to run it in.
#[derive(Debug, PartialEq, Eq)]
pub struct Task {
    pub command: String,
    pub directory: String,
}

/// A task with its dependency depth.
#[derive(Debug, PartialEq, Eq)]
pub struct OrderedTask {
    pub task: Task,
    pub order: u64,
}

pub type OrderedTasks = Vec<OrderedTask>;

pub type SortableTask = OrderedTask;

pub type SortableTasks = Vec<OrderedTask>;

/// Mathematical model of a [`Task`].
pub struct TaskView {
    pub command: Seq<char>,
    pub directory: Seq<char>,
}

/// Mathematical model of an [`OrderedTask`].
pub struct OrderedTaskView {
    pub task: TaskView,
    pub order: nat,
}

impl View for Task {
    type V = TaskView;

    open spec fn view(&self) -> TaskView {
        TaskView { command: self.command@, directory: self.directory@ }
    }
}

impl DeepView for Task {
    type V = TaskView;

    open spec fn deep_view(&self) -> TaskView {
        self@
    }
}

impl View for OrderedTask {
    type V = OrderedTaskView;

    open spec fn view(&self) -> OrderedTaskView {
        OrderedTaskView { task: self.task@, order: self.order as nat }
    }
}

impl DeepView for OrderedTask {
    type V = OrderedTaskView;

    open spec fn deep_view(&self) -> OrderedTaskView {
        self@
    }
}

impl Clone for Task {
    fn clone(&self) -> (copy: Task)
        ensures
            copy == *self,
    {
        Task { command: self.command.clone(), directory: self.directory.clone() }
    }
}

impl Clone for OrderedTask {
    fn clone(&self) -> (copy: OrderedTask)
        ensures
            copy == *self,
    {
        OrderedTask { task: self.task.clone(), order: self.order }
    }
}

/// How a requested name is held against the names of tasks.
#[derive(Debug, Clone, Copy, PartialEq, Eq, Structural)]
pub enum MatchMode {
    /// A task is meant where its name is the requested one.
    Exact,
    /// A task is meant where its name starts with the requested one.
    Prefix,
}

/// Whether `task` is meant by `name`.
pub open spec fn qualifies(task: ConfigTaskView, name: Seq<char>, mode: MatchMode) -> bool {
    match mode {
        MatchMode::Exact => task.key == name,
        MatchMode::Prefix => name.is_prefix_of(task.key),
    }
}

/// What selecting the `t`-th task of `config`, at depth `order`, gives.
pub open spec fn selected_task(config: ConfigView, t: int, order: nat) -> OrderedTaskView {
    OrderedTaskView {
        task: TaskView { command: task_command(config.tasks[t]), directory: config.dir_path },
        order,
    }
}

/// The tasks selected among the first `upto` tasks of `config`, in order.
pub open spec fn own_tasks(
    config: ConfigView,
    name: Seq<char>,
    mode: MatchMode,
    order: nat,
    upto: int,
) -> Seq<OrderedTaskView>
    decreases upto,
{
    if upto <= 0 {
        Seq::empty()
    } else {
        let before = own_tasks(config, name, mode, order, upto - 1);
        if qualifies(config.tasks[upto - 1], name, mode) {
            before.push(selected_task(config, upto - 1, order))
        } else {
            before
        }
    }
}

/// The tasks selected in the tree `node`, whose root stands at depth
/// `order`: the root's own, then those of each child's tree in turn, one
/// level deeper. Fails with `TooDeep` where a node with children stands at
/// the greatest depth that an order can hold.
pub open spec fn select(
    node: StructureView,
    name: Seq<char>,
    mode: MatchMode,
    order: nat,
) -> Result<Seq<OrderedTaskView>, Failure>
    decreases node, 0nat,
{
    let own = own_tasks(node.config, name, mode, order, node.config.tasks.len() as int);
    if node.children.len() == 0 {
        Ok(own)
    } else if order >= u64::MAX {
        Err(failure(ErrorKind::TooDeep, node.config.file_path))
    } else {
        match select_children(node.children, name, mode, order + 1, node.children.len()) {
            Err(failure) => Err(failure),
            Ok(below) => Ok(own + below),
        }
    }
}

/// The tasks selected in the first `upto` of the trees `children`, each
/// rooted at depth `order`.
pub open spec fn select_children(
    children: Seq<StructureView>,
    name: Seq<char>,
    mode: MatchMode,
    order: nat,
    upto: nat,
) -> Result<Seq<OrderedTaskView>, Failure>
    decreases children, upto,
{
    if upto == 0 || upto > children.len() {
        Ok(Seq::empty())
    } else {
        match select_children(children, name, mode, order, (upto - 1) as nat) {
            Err(failure) => Err(failure),
            Ok(front) => match select(children[upto - 1], name, mode, order) {
                Err(failure) => Err(failure),
                Ok(tasks) => Ok(front + tasks),
            },
        }
    }
}

/// Whether `config_task` is meant by `task_name`.
pub fn task_qualifies(
    config_task: &ConfigTask,
    task_name: &String,
    mode: MatchMode,
) -> (meant: bool)
    ensures
        meant == qualifies(config_task@, task_name@, mode),
{
    match mode {
        MatchMode::Exact => config_task.key == *task_name,
        MatchMode::Prefix => starts_with(config_task.key.as_str(), task_name.as_str()),
    }
}

/// Once a child's tree could not be walked, those after it change nothing.
proof fn lemma_select_children_fail(
    children: Seq<StructureView>,
    name: Seq<char>,
    mode: MatchMode,
    order: nat,
    at: nat,
    upto: nat,
)
    requires
        at <= upto <= children.len(),
        select_children(children, name, mode, order, at) is Err,
    ensures
        select_children(children, name, mode, order, upto) == select_children(
            children,
            name,
            mode,
            order,
            at,
        ),
    decreases upto - at,
{
    if at < upto {
        lemma_select_children_fail(children, name, mode, order, at, (upto - 1) as nat);
    }
}

/// Adds to `ordered_tasks` the tasks selected in the tree
/// `config_structure`, whose root stands at depth `index`. What was added is
/// what follows the tasks that were there.
fn order_below(
    ordered_tasks: &mut OrderedTasks,
    config_structure: &ConfigStructure,
    task_name: &String,
    mode: MatchMode,
    index: u64,
) -> (done: Result<(), RaskError>)
    ensures
        match done {
            Ok(_) => select(config_structure@, task_name@, mode, index as nat) == Ok::<
                Seq<OrderedTaskView>,
                Failure,
            >(final(ordered_tasks).deep_view().skip(old(ordered_tasks).len() as int))
                && final(ordered_tasks).deep_view().take(old(ordered_tasks).len() as int) == old(
                ordered_tasks,
            ).deep_view() && final(ordered_tasks).len() >= old(ordered_tasks).len(),
            Err(error) => select(config_structure@, task_name@, mode, index as nat) == Err::<
                Seq<OrderedTaskView>,
                Failure,
            >(error@),
        },
    decreases config_structure,
{
    let ghost start = ordered_tasks.deep_view();
    let ghost node = config_structure@;
    proof {
        lemma_structure_view(*config_structure);
    }
    let config = &config_structure.config;
    let mut t: usize = 0;
    assert(ordered_tasks.deep_view() =~= start + Seq::<OrderedTaskView>::empty());
    while t < config.tasks.len()
        invariant
            0 <= t <= config.tasks.len(),
            ordered_tasks.deep_view() == start + own_tasks(
                config@,
                task_name@,
                mode,
                index as nat,
                t as int,
            ),
        decreases config.tasks.len() - t,
    {
        let ghost before = ordered_tasks.deep_view();
        let config_task = &config.tasks[t];
        assert(config_task@ == config@.tasks[t as int]);
        if task_qualifies(config_task, task_name, mode) {
            let ordered = OrderedTask {
                task: Task {
                    command: resolve_config_task_command(config_task),
                    directory: config.dir_path.clone(),
                },
                order: index,
            };
            assert(ordered@ == selected_task(config@, t as int, index as nat));
            ordered_tasks.push(ordered);
            assert(ordered_tasks.deep_view() =~= before.push(ordered@));
        }
        t += 1;
        assert(ordered_tasks.deep_view() =~= start + own_tasks(
            config@,
            task_name@,
            mode,
            index as nat,
            t as int,
        ));
    }
    let ghost own = own_tasks(
        config@,
        task_name@,
        mode,
        index as nat,
        config@.tasks.len() as int,
    );
    if config_structure.children.len() == 0 {
        assert(ordered_tasks.deep_view().skip(start.len() as int) =~= own);
        assert(ordered_tasks.deep_view().take(start.len() as int) =~= start);
        return Ok(());
    }
    if index == u64::MAX {
        return Err(RaskError::new(ErrorKind::TooDeep, config.file_path.as_str()));
    }
    let mut c: usize = 0;
    assert(ordered_tasks.deep_view() =~= start + own + Seq::<OrderedTaskView>::empty());
    while c < config_structure.children.len()
        invariant
            0 <= c <= config_structure.children.len(),
            index < u64::MAX,
            node == config_structure@,
            node.children == config_structure.children.deep_view(),
            exists|below: Seq<OrderedTaskView>|
                #![trigger start + own + below]
                select_children(
                    node.children,
                    task_name@,
                    mode,
                    (index + 1) as nat,
                    c as nat,
                ) == Ok::<Seq<OrderedTaskView>, Failure>(below) && ordered_tasks.deep_view()
                    == start + own + below,
        decreases config_structure.children.len() - c,
    {
        let ghost below = choose|below: Seq<OrderedTaskView>|
            #![trigger start + own + below]
            select_children(node.children, task_name@, mode, (index + 1) as nat, c as nat) == Ok::<
                Seq<OrderedTaskView>,
                Failure,
            >(below) && ordered_tasks.deep_view() == start + own + below;
        let ghost before = ordered_tasks.deep_view();
        let child = &config_structure.children[c];
        assert(child@ == node.children[c as int]);
        match order_below(ordered_tasks, child, task_name, mode, index + 1) {
            Err(error) => {
                proof {
                    assert(select_children(
                        node.children,
                        task_name@,
                        mode,
                        (index + 1) as nat,
                        (c + 1) as nat,
                    ) == Err::<Seq<OrderedTaskView>, Failure>(error@));
                    lemma_select_children_fail(
                        node.children,
                        task_name@,
                        mode,
                        (index + 1) as nat,
                        (c + 1) as nat,
                        node.children.len(),
                    );
                }
                return Err(error);
            },
            Ok(_) => {
                proof {
                    let added = ordered_tasks.deep_view().skip(before.len() as int);
                    assert(ordered_tasks.deep_view() =~= before + added) by {
                        assert(ordered_tasks.deep_view().take(before.len() as int) == before);
                    }
                    assert(start + own + (below + added) =~= start + own + below + added);
                    assert(select_children(
                        node.children,
                        task_name@,
                        mode,
                        (index + 1) as nat,
                        (c + 1) as nat,
                    ) == Ok::<Seq<OrderedTaskView>, Failure>(below + added));
                }
            },
        }
        c += 1;
    }
    proof {
        let below = choose|below: Seq<OrderedTaskView>|
            #![trigger start + own + below]
            select_children(node.children, task_name@, mode, (index + 1) as nat, c as nat) == Ok::<
                Seq<OrderedTaskView>,
                Failure,
            >(below) && ordered_tasks.deep_view() == start + own + below;
        assert(ordered_tasks.deep_view().skip(start.len() as int) =~= own + below);
        assert(ordered_tasks.deep_view().take(start.len() as int) =~= start);
    }
    Ok(())
}

/// Adds to `ordered_tasks` the tasks that are selected, under `mode`, in the
/// tree `config_structure` whose root counts as standing at depth `index`:
/// the root's own tasks first, then those of each child's tree in turn.
///
/// Fails with `TooDeep`, about the configuration in question, where a
/// configuration with children stands at the greatest depth that an order
/// can hold. Nothing is promised of `ordered_tasks` then.
pub fn order_tasks(
    ordered_tasks: &mut OrderedTasks,
    config_structure: &ConfigStructure,
    task_name: &String,
    mode: MatchMode,
    index: u64,
) -> (done: Result<(), RaskError>)
    ensures
        match done {
            Ok(_) => {
                &&& select(config_structure@, task_name@, mode, index as nat) is Ok
                &&& final(ordered_tasks).deep_view() == old(ordered_tasks).deep_view() + select(
                    config_structure@,
                    task_name@,
                    mode,
                    index as nat,
                )->Ok_0
            },
            Err(error) => select(config_structure@, task_name@, mode, index as nat) == Err::<
                Seq<OrderedTaskView>,
                Failure,
            >(error@),
        },
{
    let ghost start = ordered_tasks.deep_view();
    let done = order_below(ordered_tasks, config_structure, task_name, mode, index);
    proof {
        if done is Ok {
            let now = ordered_tasks.deep_view();
            assert(now =~= now.take(start.len() as int) + now.skip(start.len() as int));
        }
    }
    done
}

/// The model of what selecting returned.
pub open spec fn select_result(selected: Result<OrderedTasks, RaskError>) -> Result<
    Seq<OrderedTaskView>,
    Failure,
> {
    match selected {
        Ok(tasks) => Ok(tasks.deep_view()),
        Err(error) => Err(error@),
    }
}

/// Selects, in the tree `config_structure`, the tasks meant by `task_name`
/// under `mode`, each with the depth of its node as its order.
pub fn select_tasks(
    config_structure: &ConfigStructure,
    task_name: &String,
    mode: MatchMode,
) -> (selected: Result<OrderedTasks, RaskError>)
    ensures
        select_result(selected) == select(config_structure@, task_name@, mode, 0),
{
    let mut ordered_tasks: OrderedTasks = Vec::new();
    assert(ordered_tasks.deep_view() =~= Seq::empty());
    match order_tasks(&mut ordered_tasks, config_structure, task_name, mode, 0) {
        Err(error) => Err(error),
        Ok(_) => {
            assert(ordered_tasks.deep_view() =~= select(
                config_structure@,
                task_name@,
                mode,
                0,
            )->Ok_0);
            Ok(ordered_tasks)
        },
    }
}

/// Selects, in the tree `config_structure`, the tasks named `task_name`,
/// each with the depth of its node as its order.
pub fn resolve_task_order(
    config_structure: ConfigStructure,
    task_name: &String,
) -> (selected: Result<OrderedTasks, RaskError>)
    ensures
        select_result(selected) == select(config_structure@, task_name@, MatchMode::Exact, 0),
{
    select_tasks(&config_structure, task_name, MatchMode::Exact)
}

/// Selects, in the tree `config_structure`, the tasks meant by `task_name`:
/// those named so where `strict` is set, those whose name starts with it
/// otherwise.
pub fn resolve_sortable_task(
    config_structure: ConfigStructure,
    task_name: &String,
    strict: bool,
) -> (selected: Result<SortableTasks, RaskError>)
    ensures
        select_result(selected) == select(
            config_structure@,
            task_name@,
            if strict {
                MatchMode::Exact
            } else {
                MatchMode::Prefix
            },
            0,
        ),
{
    let mode = if strict {
        MatchMode::Exact
    } else {
        MatchMode::Prefix
    };
    select_tasks(&config_structure, task_name, mode)
}

/// Selecting succeeds exactly where the orders can count as deep as the
/// tree goes.
pub proof fn lemma_select_succeeds(
    node: StructureView,
    name: Seq<char>,
    mode: MatchMode,
    order: nat,
)
    requires
        order <= u64::MAX,
    ensures
        select(node, name, mode, order) is Ok <==> order + height(node) <= u64::MAX,
    decreases node, 0nat,
{
    if node.children.len() > 0 && order < u64::MAX {
        lemma_select_children_succeed(node.children, name, mode, order + 1, node.children.len());
    }
}

proof fn lemma_select_children_succeed(
    children: Seq<StructureView>,
    name: Seq<char>,
    mode: MatchMode,
    order: nat,
    upto: nat,
)
    requires
        upto <= children.len(),
        order <= u64::MAX,
    ensures
        select_children(children, name, mode, order, upto) is Ok <==> order + max_height(
            children,
            upto,
        ) <= u64::MAX,
    decreases children, upto,
{
    if upto > 0 {
        lemma_select_children_succeed(children, name, mode, order, (upto - 1) as nat);
        lemma_select_succeeds(children[upto - 1], name, mode, order);
    }
}

/// The node that `path` leads to from `root`: each number in `path` picks
/// a child of the node reached so far.
pub open spec fn node_at(root: StructureView, path: Seq<int>) -> Option<StructureView>
    decreases path.len(),
{
    if path.len() == 0 {
        Some(root)
    } else if 0 <= path[0] < root.children.len() {
        node_at(root.children[path[0]], path.drop_first())
    } else {
        None
    }
}

/// `item` is what selecting gives for some task meant by `name` that a
/// node of the tree holds, with the order being `start` plus the number of
/// edges from `root` to that node.
pub open spec fn placed(
    root: StructureView,
    name: Seq<char>,
    mode: MatchMode,
    start: nat,
    item: OrderedTaskView,
) -> bool {
    exists|path: Seq<int>, t: int| #[trigger] places(root, name, mode, start, item, path, t)
}

/// `item` is what selecting gives for the `t`-th task of the node that
/// `path` leads to, and that task is meant by `name`.
pub open spec fn places(
    root: StructureView,
    name: Seq<char>,
    mode: MatchMode,
    start: nat,
    item: OrderedTaskView,
    path: Seq<int>,
    t: int,
) -> bool {
    &&& node_at(root, path) is Some
    &&& 0 <= t < node_at(root, path)->0.config.tasks.len()
    &&& qualifies(node_at(root, path)->0.config.tasks[t], name, mode)
    &&& item == selected_task(node_at(root, path)->0.config, t, start + path.len())
}

proof fn lemma_own_tasks(
    config: ConfigView,
    name: Seq<char>,
    mode: MatchMode,
    order: nat,
    upto: int,
)
    requires
        0 <= upto <= config.tasks.len(),
    ensures
        forall|k: int|
            0 <= k < own_tasks(config, name, mode, order, upto).len() ==> exists|t: int|
                0 <= t < upto && qualifies(config.tasks[t], name, mode) && #[trigger] own_tasks(
                    config,
                    name,
                    mode,
                    order,
                    upto,
                )[k] == #[trigger] selected_task(config, t, order),
        forall|t: int|
            0 <= t < upto && qualifies(config.tasks[t], name, mode) ==> own_tasks(
                config,
                name,
                mode,
                order,
                upto,
            ).contains(#[trigger] selected_task(config, t, order)),
    decreases upto,
{
    if upto > 0 {
        lemma_own_tasks(config, name, mode, order, upto - 1);
        let before = own_tasks(config, name, mode, order, upto - 1);
        let now = own_tasks(config, name, mode, order, upto);
        assert forall|k: int| 0 <= k < now.len() implies exists|t: int|
            0 <= t < upto && qualifies(config.tasks[t], name, mode) && #[trigger] now[k]
                == #[trigger] selected_task(config, t, order) by {
            if k < before.len() {
                let t = choose|t: int|
                    0 <= t < upto - 1 && qualifies(config.tasks[t], name, mode) && before[k]
                        == #[trigger] selected_task(config, t, order);
                assert(now[k] == selected_task(config, t, order));
            } else {
                assert(now[k] == selected_task(config, upto - 1, order));
            }
        }
        assert forall|t: int|
            0 <= t < upto && qualifies(config.tasks[t], name, mode) implies now.contains(
            #[trigger] selected_task(config, t, order),
        ) by {
            if t < upto - 1 {
                let item = selected_task(config, t, order);
                assert(before.contains(item));
                let k = choose|k: int| 0 <= k < before.len() && before[k] == item;
                assert(now[k] == item);
            } else {
                assert(now[now.len() - 1] == selected_task(config, t, order));
            }
        }
    }
}

proof fn lemma_placed_below(
    root: StructureView,
    name: Seq<char>,
    mode: MatchMode,
    start: nat,
    c: int,
    item: OrderedTaskView,
)
    requires
        0 <= c < root.children.len(),
        placed(root.children[c], name, mode, start + 1, item),
    ensures
        placed(root, name, mode, start, item),
{
    let (path, t) = choose|path: Seq<int>, t: int| #[trigger]
        places(root.children[c], name, mode, start + 1, item, path, t);
    let longer = seq![c] + path;
    assert(longer.drop_first() =~= path);
    assert(longer[0] == c);
    assert(node_at(root, longer) == node_at(root.children[c], path));
    assert(places(root, name, mode, start, item, longer, t));
}

proof fn lemma_select_sound(root: StructureView, name: Seq<char>, mode: MatchMode, start: nat)
    requires
        select(root, name, mode, start) is Ok,
    ensures
        forall|k: int|
            0 <= k < select(root, name, mode, start)->Ok_0.len() ==> placed(
                root,
                name,
                mode,
                start,
                #[trigger] select(root, name, mode, start)->Ok_0[k],
            ),
    decreases root, 0nat,
{
    let tasks = select(root, name, mode, start)->Ok_0;
    let own = own_tasks(root.config, name, mode, start, root.config.tasks.len() as int);
    lemma_own_tasks(root.config, name, mode, start, root.config.tasks.len() as int);
    assert(node_at(root, Seq::<int>::empty()) == Some(root));
    if root.children.len() > 0 {
        lemma_children_sound(root, name, mode, start, root.children.len());
    }
    assert forall|k: int| 0 <= k < tasks.len() implies placed(
        root,
        name,
        mode,
        start,
        #[trigger] tasks[k],
    ) by {
        if k < own.len() {
            let t = choose|t: int|
                0 <= t < root.config.tasks.len() && qualifies(root.config.tasks[t], name, mode)
                    && own[k] == #[trigger] selected_task(root.config, t, start);
            assert(places(root, name, mode, start, tasks[k], Seq::<int>::empty(), t));
        } else {
            let below = select_children(
                root.children,
                name,
                mode,
                start + 1,
                root.children.len(),
            )->Ok_0;
            assert(tasks[k] == below[k - own.len()]);
        }
    }
}

proof fn lemma_children_sound(
    root: StructureView,
    name: Seq<char>,
    mode: MatchMode,
    start: nat,
    upto: nat,
)
    requires
        upto <= root.children.len(),
        select_children(root.children, name, mode, start + 1, upto) is Ok,
    ensures
        forall|k: int|
            0 <= k < select_children(root.children, name, mode, start + 1, upto)->Ok_0.len()
                ==> placed(
                root,
                name,
                mode,
                start,
                #[trigger] select_children(root.children, name, mode, start + 1, upto)->Ok_0[k],
            ),
    decreases root.children, upto,
{
    if upto > 0 {
        let now = select_children(root.children, name, mode, start + 1, upto)->Ok_0;
        let front = select_children(root.children, name, mode, start + 1, (upto - 1) as nat)->Ok_0;
        let child = root.children[upto - 1];
        let last = select(child, name, mode, start + 1)->Ok_0;
        lemma_children_sound(root, name, mode, start, (upto - 1) as nat);
        lemma_select_sound(child, name, mode, start + 1);
        assert forall|k: int| 0 <= k < now.len() implies placed(
            root,
            name,
            mode,
            start,
            #[trigger] now[k],
        ) by {
            if k < front.len() {
                assert(now[k] == front[k]);
            } else {
                assert(now[k] == last[k - front.len()]);
                lemma_placed_below(root, name, mode, start, upto - 1, now[k]);
            }
        }
    }
}

proof fn lemma_children_hold(
    children: Seq<StructureView>,
    name: Seq<char>,
    mode: MatchMode,
    order: nat,
    upto: nat,
    c: int,
)
    requires
        0 <= c < upto <= children.len(),
        select_children(children, name, mode, order, upto) is Ok,
    ensures
        select(children[c], name, mode, order) is Ok,
        forall|item: OrderedTaskView|
            select(children[c], name, mode, order)->Ok_0.contains(item)
                ==> #[trigger] select_children(children, name, mode, order, upto)->Ok_0.contains(
                item,
            ),
    decreases upto,
{
    let now = select_children(children, name, mode, order, upto)->Ok_0;
    let front = select_children(children, name, mode, order, (upto - 1) as nat)->Ok_0;
    let last = select(children[upto - 1], name, mode, order)->Ok_0;
    if c < upto - 1 {
        lemma_children_hold(children, name, mode, order, (upto - 1) as nat, c);
        assert forall|item: OrderedTaskView|
            select(children[c], name, mode, order)->Ok_0.contains(item) implies now.contains(
            item,
        ) by {
            assert(select_children(children, name, mode, order, (upto - 1) as nat)->Ok_0.contains(
                item,
            ));
            let k = choose|k: int| 0 <= k < front.len() && front[k] == item;
            assert(now[k] == item);
        }
    } else {
        assert forall|item: OrderedTaskView| last.contains(item) implies now.contains(item) by {
            let k = choose|k: int| 0 <= k < last.len() && last[k] == item;
            assert(now[front.len() + k] == item);
        }
    }
}

proof fn lemma_select_complete(
    root: StructureView,
    name: Seq<char>,
    mode: MatchMode,
    start: nat,
    item: OrderedTaskView,
    path: Seq<int>,
    t: int,
)
    requires
        select(root, name, mode, start) is Ok,
        places(root, name, mode, start, item, path, t),
    ensures
        select(root, name, mode, start)->Ok_0.contains(item),
    decreases path.len(),
{
    let tasks = select(root, name, mode, start)->Ok_0;
    let own = own_tasks(root.config, name, mode, start, root.config.tasks.len() as int);
    if path.len() == 0 {
        lemma_own_tasks(root.config, name, mode, start, root.config.tasks.len() as int);
        assert(own.contains(selected_task(root.config, t, start)));
        let k = choose|k: int| 0 <= k < own.len() && own[k] == item;
        assert(tasks[k] == item);
    } else {
        let c = path[0];
        let rest = path.drop_first();
        let below = select_children(
            root.children,
            name,
            mode,
            start + 1,
            root.children.len(),
        )->Ok_0;
        lemma_children_hold(root.children, name, mode, start + 1, root.children.len(), c);
        assert(places(root.children[c], name, mode, start + 1, item, rest, t));
        lemma_select_complete(root.children[c], name, mode, start + 1, item, rest, t);
        assert(below.contains(item));
        let k = choose|k: int| 0 <= k < below.len() && below[k] == item;
        assert(tasks[own.len() + k] == item);
    }
}

/// The order of a selected task is the number of edges from the root of
/// the tree to the node that holds the task: what is selected is, for each
/// node and each of its tasks that is meant, that task's command in that
/// node's directory, ordered at that node's distance from the root, and
/// nothing else.
pub proof fn lemma_order_is_depth(
    root: StructureView,
    name: Seq<char>,
    mode: MatchMode,
    item: OrderedTaskView,
)
    requires
        height(root) <= u64::MAX,
    ensures
        select(root, name, mode, 0) is Ok,
        select(root, name, mode, 0)->Ok_0.contains(item) <==> placed(root, name, mode, 0, item),
{
    lemma_select_succeeds(root, name, mode, 0);
    let tasks = select(root, name, mode, 0)->Ok_0;
    if tasks.contains(item) {
        lemma_select_sound(root, name, mode, 0);
        let k = choose|k: int| 0 <= k < tasks.len() && tasks[k] == item;
        assert(placed(root, name, mode, 0, tasks[k]));
    }
    if placed(root, name, mode, 0, item) {
        let (path, t) = choose|path: Seq<int>, t: int| #[trigger]
            places(root, name, mode, 0, item, path, t);
        lemma_select_complete(root, name, mode, 0, item, path, t);
    }
}

} // verus!
