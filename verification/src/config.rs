//! Resolved configurations and the tree they form.

use vstd::prelude::*;
use crate::task::{ConfigTask, ConfigTaskView};

verus! {

/// One configuration file after its task engine has been resolved: its
/// runnable tasks, where it lies, and the directory patterns under which
/// further configurations are nested.
#[derive(Debug, PartialEq, Eq)]
pub struct Config {
    pub name: String,
    pub tasks: Vec<ConfigTask>,
    pub file_path: String,
    pub dir_path: String,
    pub directories: Vec<String>,
}

/// Mathematical model of a [`Config`].
pub struct ConfigView {
    pub name: Seq<char>,
    pub tasks: Seq<ConfigTaskView>,
    pub file_path: Seq<char>,
    pub dir_path: Seq<char>,
    pub directories: Seq<Seq<char>>,
}

impl View for Config {
    type V = ConfigView;

    open spec fn view(&self) -> ConfigView {
        ConfigView {
            name: self.name@,
            tasks: self.tasks.deep_view(),
            file_path: self.file_path@,
            dir_path: self.dir_path@,
            directories: self.directories.deep_view(),
        }
    }
}

impl DeepView for Config {
    type V = ConfigView;

    open spec fn deep_view(&self) -> ConfigView {
        self@
    }
}

/// A copy of `texts`.
pub fn clone_strings(texts: &Vec<String>) -> (copy: Vec<String>)
    ensures
        copy@ == texts@,
{
    let mut copy: Vec<String> = Vec::new();
    let mut i: usize = 0;
    while i < texts.len()
        invariant
            0 <= i <= texts.len(),
            copy@ == texts@.subrange(0, i as int),
        decreases texts.len() - i,
    {
        copy.push(texts[i].clone());
        i += 1;
        assert(copy@ =~= texts@.subrange(0, i as int));
    }
    assert(texts@.subrange(0, i as int) =~= texts@);
    copy
}

/// A copy of `tasks`.
pub fn clone_tasks(tasks: &Vec<ConfigTask>) -> (copy: Vec<ConfigTask>)
    ensures
        copy@ == tasks@,
{
    let mut copy: Vec<ConfigTask> = Vec::new();
    let mut i: usize = 0;
    while i < tasks.len()
        invariant
            0 <= i <= tasks.len(),
            copy@ == tasks@.subrange(0, i as int),
        decreases tasks.len() - i,
    {
        copy.push(tasks[i].clone());
        i += 1;
        assert(copy@ =~= tasks@.subrange(0, i as int));
    }
    assert(tasks@.subrange(0, i as int) =~= tasks@);
    copy
}

impl Clone for Config {
    fn clone(&self) -> (copy: Config)
        ensures
            copy@ == self@,
    {
        Config {
            name: self.name.clone(),
            tasks: clone_tasks(&self.tasks),
            file_path: self.file_path.clone(),
            dir_path: self.dir_path.clone(),
            directories: clone_strings(&self.directories),
        }
    }
}

/// A configuration together with the configurations nested below it.
#[derive(Debug, PartialEq, Eq)]
pub struct ConfigStructure {
    pub config: Config,
    pub children: Vec<ConfigStructure>,
}

/// Mathematical model of a [`ConfigStructure`]: a finite tree.
pub struct StructureView {
    pub config: ConfigView,
    pub children: Seq<StructureView>,
}

/// The tree that `structure` stands for.
pub open spec fn structure_view(structure: ConfigStructure) -> StructureView
    decreases structure,
{
    StructureView {
        config: structure.config@,
        children: structure.children@.map_values(
            |child: ConfigStructure|
                if structure.children@.contains(child) {
                    structure_view(child)
                } else {
                    arbitrary()
                },
        ),
    }
}

/// How many levels lie below the root of `tree`.
pub open spec fn height(tree: StructureView) -> nat
    decreases tree, 0nat,
{
    if tree.children.len() == 0 {
        0
    } else {
        1 + max_height(tree.children, tree.children.len())
    }
}

/// The greatest height among the first `upto` of `trees`.
pub open spec fn max_height(trees: Seq<StructureView>, upto: nat) -> nat
    decreases trees, upto,
{
    if upto == 0 || upto > trees.len() {
        0
    } else {
        let before = max_height(trees, (upto - 1) as nat);
        let last = height(trees[upto - 1]);
        if last > before {
            last
        } else {
            before
        }
    }
}

impl View for ConfigStructure {
    type V = StructureView;

    open spec fn view(&self) -> StructureView {
        structure_view(*self)
    }
}

impl DeepView for ConfigStructure {
    type V = StructureView;

    open spec fn deep_view(&self) -> StructureView {
        structure_view(*self)
    }
}

impl Clone for ConfigStructure {
    fn clone(&self) -> (copy: ConfigStructure)
        ensures
            copy@ == self@,
        decreases self,
    {
        let mut children: Vec<ConfigStructure> = Vec::new();
        let mut i: usize = 0;
        assert(children.deep_view() =~= self.children.deep_view().subrange(0, 0));
        while i < self.children.len()
            invariant
                0 <= i <= self.children.len(),
                children.deep_view() == self.children.deep_view().subrange(0, i as int),
            decreases self.children.len() - i,
        {
            let ghost before = children.deep_view();
            let child = self.children[i].clone();
            children.push(child);
            assert(children.deep_view() =~= before.push(child@));
            i += 1;
            assert(children.deep_view() =~= self.children.deep_view().subrange(0, i as int));
        }
        assert(self.children.deep_view().subrange(0, i as int) =~= self.children.deep_view());
        let copy = ConfigStructure { config: self.config.clone(), children };
        proof {
            lemma_structure_view(copy);
            lemma_structure_view(*self);
        }
        copy
    }
}

/// The model of a tree is the model of its configuration over the models of
/// its children, in order.
pub proof fn lemma_structure_view(structure: ConfigStructure)
    ensures
        structure@.config == structure.config@,
        structure@.children == structure.children.deep_view(),
{
    let children = structure.children@;
    assert forall|i: int| 0 <= i < children.len() implies structure@.children[i]
        == children[i].deep_view() by {
        assert(children.contains(children[i]));
    }
    assert(structure@.children =~= structure.children.deep_view());
}

} // verus!
