//! The names of the tasks that a set of configurations offers.
//!
//! Two configurations may offer a task of the same name: asking for the
//! name then means both. Who wants a name to stand for one task only can
//! ask [`check_unique_task_names`] before running anything.

use vstd::prelude::*;
use crate::config::{Config, ConfigView};
use crate::error::{failure, ErrorKind, Failure, RaskError};
use crate::task::{ConfigTask, ConfigTaskView};

verus! {

/// `names` with `name` added, unless it is there.
pub open spec fn add_name(names: Seq<Seq<char>>, name: Seq<char>) -> Seq<Seq<char>> {
    if names.contains(name) {
        names
    } else {
        names.push(name)
    }
}

/// `names` with the names of the first `upto` of `tasks` added in order.
pub open spec fn add_task_names(
    names: Seq<Seq<char>>,
    tasks: Seq<ConfigTaskView>,
    upto: int,
) -> Seq<Seq<char>>
    decreases upto,
{
    if upto <= 0 {
        names
    } else {
        add_name(add_task_names(names, tasks, upto - 1), tasks[upto - 1].key)
    }
}

/// The task names of the first `upto` of `configs`, each once, in the
/// order in which they first occur.
pub open spec fn task_names(configs: Seq<ConfigView>, upto: int) -> Seq<Seq<char>>
    decreases upto,
{
    if upto <= 0 {
        Seq::empty()
    } else {
        add_task_names(
            task_names(configs, upto - 1),
            configs[upto - 1].tasks,
            configs[upto - 1].tasks.len() as int,
        )
    }
}

/// Whether `name` is among `names`.
fn contains_name(names: &Vec<String>, name: &String) -> (found: bool)
    ensures
        found == names.deep_view().contains(name@),
{
    let mut i: usize = 0;
    while i < names.len()
        invariant
            0 <= i <= names.len(),
            forall|j: int| 0 <= j < i ==> names.deep_view()[j] != name@,
        decreases names.len() - i,
    {
        if names[i] == *name {
            assert(names.deep_view()[i as int] == name@);
            return true;
        }
        i += 1;
    }
    false
}

/// Lists the names of the tasks that `configs` offer, each name once, in
/// the order in which the names first occur. It never fails.
pub fn get_config_tasks(configs: &Vec<Config>) -> (listed: Result<Vec<String>, RaskError>)
    ensures
        listed is Ok,
        listed->Ok_0.deep_view() == task_names(configs.deep_view(), configs.len() as int),
        listed->Ok_0.deep_view().no_duplicates(),
{
    proof {
        lemma_task_names(configs.deep_view(), configs.len() as int);
    }
    let mut tasks: Vec<String> = Vec::new();
    let mut c: usize = 0;
    assert(tasks.deep_view() =~= Seq::empty());
    while c < configs.len()
        invariant
            0 <= c <= configs.len(),
            tasks.deep_view() == task_names(configs.deep_view(), c as int),
        decreases configs.len() - c,
    {
        let config = &configs[c];
        let ghost start = tasks.deep_view();
        let mut t: usize = 0;
        while t < config.tasks.len()
            invariant
                0 <= t <= config.tasks.len(),
                tasks.deep_view() == add_task_names(start, config@.tasks, t as int),
            decreases config.tasks.len() - t,
        {
            let ghost before = tasks.deep_view();
            let key = &config.tasks[t].key;
            assert(key@ == config@.tasks[t as int].key);
            if !contains_name(&tasks, key) {
                tasks.push(key.clone());
                assert(tasks.deep_view() =~= before.push(key@));
            }
            t += 1;
        }
        c += 1;
    }
    Ok(tasks)
}

proof fn lemma_add_name(names: Seq<Seq<char>>, name: Seq<char>)
    ensures
        names.no_duplicates() ==> add_name(names, name).no_duplicates(),
        forall|other: Seq<char>| #[trigger]
            add_name(names, name).contains(other) <==> names.contains(other) || other == name,
{
    let added = names.push(name);
    assert forall|other: Seq<char>| #[trigger] added.contains(other) implies names.contains(other)
        || other == name by {
        let i = choose|i: int| 0 <= i < added.len() && added[i] == other;
        if i < names.len() {
            assert(names[i] == other);
        }
    }
    assert forall|other: Seq<char>| names.contains(other) || other == name implies #[trigger]
        added.contains(other) by {
        if names.contains(other) {
            let i = choose|i: int| 0 <= i < names.len() && names[i] == other;
            assert(added[i] == other);
        } else {
            assert(added[names.len() as int] == other);
        }
    }
    if names.no_duplicates() && !names.contains(name) {
        assert forall|i: int, j: int|
            0 <= i < added.len() && 0 <= j < added.len() && i != j implies added[i]
            != added[j] by {
            if i < names.len() {
                assert(names.contains(names[i]));
            }
            if j < names.len() {
                assert(names.contains(names[j]));
            }
        }
    }
}

proof fn lemma_add_task_names(names: Seq<Seq<char>>, tasks: Seq<ConfigTaskView>, upto: int)
    requires
        0 <= upto <= tasks.len(),
    ensures
        names.no_duplicates() ==> add_task_names(names, tasks, upto).no_duplicates(),
        forall|name: Seq<char>| #[trigger]
            add_task_names(names, tasks, upto).contains(name) <==> names.contains(name) || exists|
                t: int,
            |
                0 <= t < upto && (#[trigger] tasks[t]).key == name,
    decreases upto,
{
    if upto > 0 {
        lemma_add_task_names(names, tasks, upto - 1);
        let before = add_task_names(names, tasks, upto - 1);
        lemma_add_name(before, tasks[upto - 1].key);
        assert forall|name: Seq<char>| #[trigger]
            add_task_names(names, tasks, upto).contains(name) <==> names.contains(name) || exists|
                t: int,
            |
                0 <= t < upto && (#[trigger] tasks[t]).key == name by {
            if before.contains(name) && !names.contains(name) {
                let t = choose|t: int| 0 <= t < upto - 1 && (#[trigger] tasks[t]).key == name;
                assert(tasks[t].key == name);
            }
            if name == tasks[upto - 1].key {
                assert(tasks[upto - 1].key == name);
            }
        }
    }
}

/// The listing holds no name twice, and it holds a name exactly where one
/// of the configurations has a task of that name.
pub proof fn lemma_task_names(configs: Seq<ConfigView>, upto: int)
    requires
        0 <= upto <= configs.len(),
    ensures
        task_names(configs, upto).no_duplicates(),
        forall|name: Seq<char>| #[trigger]
            task_names(configs, upto).contains(name) <==> exists|c: int, t: int|
                0 <= c < upto && 0 <= t < configs[c].tasks.len() && (
                #[trigger] configs[c].tasks[t]).key == name,
    decreases upto,
{
    if upto > 0 {
        lemma_task_names(configs, upto - 1);
        let before = task_names(configs, upto - 1);
        let tasks = configs[upto - 1].tasks;
        lemma_add_task_names(before, tasks, tasks.len() as int);
        assert forall|name: Seq<char>| #[trigger]
            task_names(configs, upto).contains(name) <==> exists|c: int, t: int|
                0 <= c < upto && 0 <= t < configs[c].tasks.len() && (
                #[trigger] configs[c].tasks[t]).key == name by {
            if task_names(configs, upto).contains(name) {
                if before.contains(name) {
                    let (c, t) = choose|c: int, t: int|
                        0 <= c < upto - 1 && 0 <= t < configs[c].tasks.len() && (
                        #[trigger] configs[c].tasks[t]).key == name;
                    assert(configs[c].tasks[t].key == name);
                } else {
                    let t = choose|t: int|
                        0 <= t < tasks.len() && (#[trigger] tasks[t]).key == name;
                    assert(configs[upto - 1].tasks[t].key == name);
                }
            }
            if exists|c: int, t: int|
                0 <= c < upto && 0 <= t < configs[c].tasks.len() && (
                #[trigger] configs[c].tasks[t]).key == name {
                let (c, t) = choose|c: int, t: int|
                    0 <= c < upto && 0 <= t < configs[c].tasks.len() && (
                    #[trigger] configs[c].tasks[t]).key == name;
                if c < upto - 1 {
                    assert(before.contains(name));
                } else {
                    assert(tasks[t].key == name);
                }
            }
        }
    } else {
        assert forall|name: Seq<char>| !(#[trigger] task_names(configs, upto).contains(name)) by {}
    }
}

/// The name of the first among the first `upto` of `tasks` whose name is
/// among `taken`.
pub open spec fn first_taken(
    tasks: Seq<ConfigTaskView>,
    taken: Seq<Seq<char>>,
    upto: int,
) -> Option<Seq<char>>
    decreases upto,
{
    if upto <= 0 {
        None
    } else {
        match first_taken(tasks, taken, upto - 1) {
            Some(name) => Some(name),
            None => if taken.contains(tasks[upto - 1].key) {
                Some(tasks[upto - 1].key)
            } else {
                None
            },
        }
    }
}

/// The first task name, going through the first `upto` of `configs` and
/// through the tasks of each, that an earlier configuration has too.
pub open spec fn shared_name(configs: Seq<ConfigView>, upto: int) -> Option<Seq<char>>
    decreases upto,
{
    if upto <= 0 {
        None
    } else {
        match shared_name(configs, upto - 1) {
            Some(name) => Some(name),
            None => first_taken(
                configs[upto - 1].tasks,
                task_names(configs, upto - 1),
                configs[upto - 1].tasks.len() as int,
            ),
        }
    }
}

/// What checking for shared names answers.
pub open spec fn unique_names_result(configs: Seq<ConfigView>) -> Result<(), Failure> {
    match shared_name(configs, configs.len() as int) {
        None => Ok(()),
        Some(name) => Err(failure(ErrorKind::SharedTaskName, name)),
    }
}

/// The model of what checking returned.
pub open spec fn check_result(checked: Result<(), RaskError>) -> Result<(), Failure> {
    match checked {
        Ok(_) => Ok(()),
        Err(error) => Err(error@),
    }
}

/// Finds the first of `tasks` whose name is among `taken`.
fn find_taken(tasks: &Vec<ConfigTask>, taken: &Vec<String>) -> (found: Option<String>)
    ensures
        found.deep_view() == first_taken(tasks.deep_view(), taken.deep_view(), tasks.len() as int),
{
    let mut t: usize = 0;
    while t < tasks.len()
        invariant
            0 <= t <= tasks.len(),
            first_taken(tasks.deep_view(), taken.deep_view(), t as int) is None,
        decreases tasks.len() - t,
    {
        let key = &tasks[t].key;
        assert(key@ == tasks.deep_view()[t as int].key);
        if contains_name(taken, key) {
            proof {
                lemma_first_taken_stays(
                    tasks.deep_view(),
                    taken.deep_view(),
                    t + 1,
                    tasks.len() as int,
                );
            }
            return Some(key.clone());
        }
        t += 1;
    }
    None
}

proof fn lemma_first_taken_stays(
    tasks: Seq<ConfigTaskView>,
    taken: Seq<Seq<char>>,
    at: int,
    upto: int,
)
    requires
        0 <= at <= upto,
        first_taken(tasks, taken, at) is Some,
    ensures
        first_taken(tasks, taken, upto) == first_taken(tasks, taken, at),
    decreases upto - at,
{
    if at < upto {
        lemma_first_taken_stays(tasks, taken, at, upto - 1);
    }
}

proof fn lemma_shared_name_stays(configs: Seq<ConfigView>, at: int, upto: int)
    requires
        0 <= at <= upto,
        shared_name(configs, at) is Some,
    ensures
        shared_name(configs, upto) == shared_name(configs, at),
    decreases upto - at,
{
    if at < upto {
        lemma_shared_name_stays(configs, at, upto - 1);
    }
}

/// Checks that no task name is offered by two configurations.
///
/// Fails with `SharedTaskName`, about the first name found to be shared,
/// where one is. That a configuration names a task of its own twice is not
/// held against it.
pub fn check_unique_task_names(configs: &Vec<Config>) -> (checked: Result<(), RaskError>)
    ensures
        check_result(checked) == unique_names_result(configs.deep_view()),
{
    let mut taken: Vec<String> = Vec::new();
    let mut c: usize = 0;
    assert(taken.deep_view() =~= Seq::empty());
    while c < configs.len()
        invariant
            0 <= c <= configs.len(),
            taken.deep_view() == task_names(configs.deep_view(), c as int),
            shared_name(configs.deep_view(), c as int) is None,
        decreases configs.len() - c,
    {
        let config = &configs[c];
        assert(config@ == configs.deep_view()[c as int]);
        match find_taken(&config.tasks, &taken) {
            Some(name) => {
                proof {
                    lemma_shared_name_stays(configs.deep_view(), c + 1, configs.len() as int);
                }
                return Err(RaskError::new(ErrorKind::SharedTaskName, name.as_str()));
            },
            None => {},
        }
        let ghost start = taken.deep_view();
        let mut t: usize = 0;
        while t < config.tasks.len()
            invariant
                0 <= t <= config.tasks.len(),
                taken.deep_view() == add_task_names(start, config@.tasks, t as int),
            decreases config.tasks.len() - t,
        {
            let ghost before = taken.deep_view();
            let key = &config.tasks[t].key;
            assert(key@ == config@.tasks[t as int].key);
            if !contains_name(&taken, key) {
                taken.push(key.clone());
                assert(taken.deep_view() =~= before.push(key@));
            }
            t += 1;
        }
        c += 1;
    }
    Ok(())
}

proof fn lemma_first_taken(tasks: Seq<ConfigTaskView>, taken: Seq<Seq<char>>, upto: int)
    requires
        0 <= upto <= tasks.len(),
    ensures
        first_taken(tasks, taken, upto) is None <==> forall|t: int|
            0 <= t < upto ==> !taken.contains((#[trigger] tasks[t]).key),
    decreases upto,
{
    if upto > 0 {
        lemma_first_taken(tasks, taken, upto - 1);
        if first_taken(tasks, taken, upto) is None {
            assert forall|t: int| 0 <= t < upto implies !taken.contains(
                (#[trigger] tasks[t]).key,
            ) by {}
        } else if first_taken(tasks, taken, upto - 1) is None {
            assert(taken.contains(tasks[upto - 1].key));
        }
    }
}

/// The check passes exactly where no two different configurations have a
/// task of the same name.
pub proof fn lemma_unique_task_names(configs: Seq<ConfigView>, upto: int)
    requires
        0 <= upto <= configs.len(),
    ensures
        shared_name(configs, upto) is None <==> forall|c1: int, t1: int, c2: int, t2: int|
            0 <= c1 < c2 < upto && 0 <= t1 < configs[c1].tasks.len() && 0 <= t2
                < configs[c2].tasks.len() ==> (#[trigger] configs[c1].tasks[t1]).key != (
            #[trigger] configs[c2].tasks[t2]).key,
    decreases upto,
{
    if upto > 0 {
        lemma_unique_task_names(configs, upto - 1);
        lemma_task_names(configs, upto - 1);
        let last = configs[upto - 1].tasks;
        let taken = task_names(configs, upto - 1);
        lemma_first_taken(last, taken, last.len() as int);
        if shared_name(configs, upto) is None {
            assert forall|c1: int, t1: int, c2: int, t2: int|
                0 <= c1 < c2 < upto && 0 <= t1 < configs[c1].tasks.len() && 0 <= t2
                    < configs[c2].tasks.len() implies (#[trigger] configs[c1].tasks[t1]).key != (
            #[trigger] configs[c2].tasks[t2]).key by {
                if c2 == upto - 1 {
                    let name = configs[c1].tasks[t1].key;
                    assert(!taken.contains(last[t2].key));
                    if name == last[t2].key {
                        assert(taken.contains(name));
                    }
                }
            }
        } else if shared_name(configs, upto - 1) is None {
            let t2 = choose|t: int| 0 <= t < last.len() && taken.contains((#[trigger] last[t]).key);
            let name = last[t2].key;
            assert(taken.contains(name));
            let (c1, t1) = choose|c: int, t: int|
                0 <= c < upto - 1 && 0 <= t < configs[c].tasks.len() && (
                #[trigger] configs[c].tasks[t]).key == name;
            assert(configs[c1].tasks[t1].key == configs[upto - 1].tasks[t2].key);
        } else {
            let (c1, t1, c2, t2) = choose|c1: int, t1: int, c2: int, t2: int|
                0 <= c1 < c2 < upto - 1 && 0 <= t1 < configs[c1].tasks.len() && 0 <= t2
                    < configs[c2].tasks.len() && (#[trigger] configs[c1].tasks[t1]).key == (
                #[trigger] configs[c2].tasks[t2]).key;
            assert(configs[c1].tasks[t1].key == configs[c2].tasks[t2].key);
        }
    }
}

} // verus!
