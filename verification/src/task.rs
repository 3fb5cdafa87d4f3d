//! Runnable tasks of one configuration and the command each of them stands for.

use vstd::prelude::*;

verus! {

/// How a task's command is obtained.
#[allow(non_camel_case_types)]
#[derive(Debug, Clone, Copy, PartialEq, Eq, Structural)]
pub enum TaskType {
    SHELL,
    COMPOSER,
    NPM,
    YARN,
}

impl Default for TaskType {
    fn default() -> (task_type: TaskType)
        ensures
            task_type == TaskType::SHELL,
    {
        TaskType::SHELL
    }
}

/// A named task of one configuration.
///
/// For `SHELL` tasks `value` is the command itself; for the package-manager
/// kinds the command is derived from `key`.
#[derive(Debug, PartialEq, Eq)]
pub struct ConfigTask {
    pub task_type: TaskType,
    pub key: String,
    pub value: String,
}

/// Mathematical model of a [`ConfigTask`].
pub struct ConfigTaskView {
    pub task_type: TaskType,
    pub key: Seq<char>,
    pub value: Seq<char>,
}

impl View for ConfigTask {
    type V = ConfigTaskView;

    open spec fn view(&self) -> ConfigTaskView {
        ConfigTaskView { task_type: self.task_type, key: self.key@, value: self.value@ }
    }
}

impl DeepView for ConfigTask {
    type V = ConfigTaskView;

    open spec fn deep_view(&self) -> ConfigTaskView {
        self@
    }
}

impl Clone for ConfigTask {
    fn clone(&self) -> (copy: ConfigTask)
        ensures
            copy == *self,
    {
        ConfigTask { task_type: self.task_type, key: self.key.clone(), value: self.value.clone() }
    }
}

/// The text that precedes the script name in a package-manager invocation.
pub open spec fn runner_prefix(task_type: TaskType) -> Seq<char> {
    match task_type {
        TaskType::SHELL => Seq::empty(),
        TaskType::COMPOSER => "composer run "@,
        TaskType::NPM => "npm run "@,
        TaskType::YARN => "yarn run "@,
    }
}

/// The command line that runs `task`.
pub open spec fn task_command(task: ConfigTaskView) -> Seq<char> {
    match task.task_type {
        TaskType::SHELL => task.value,
        _ => runner_prefix(task.task_type) + task.key,
    }
}

/// Returns the command line that runs `config_task`: the declared command for
/// a shell task, `<manager> run <key>` for a package-manager script.
pub fn resolve_config_task_command(config_task: &ConfigTask) -> (command: String)
    ensures
        command@ == task_command(config_task@),
{
    match config_task.task_type {
        TaskType::SHELL => config_task.value.clone(),
        TaskType::COMPOSER => String::from_str("composer run ").concat(config_task.key.as_str()),
        TaskType::NPM => String::from_str("npm run ").concat(config_task.key.as_str()),
        TaskType::YARN => String::from_str("yarn run ").concat(config_task.key.as_str()),
    }
}

} // verus!
