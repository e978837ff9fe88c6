//! The parsed form of a chip or memory description, and its mathematical view.

use vstd::prelude::*;

use crate::text::string_views;

verus! {

/// A parsed description: a `CHIP` or a `MEMORY` definition.
#[derive(Debug, Clone)]
pub struct Definition {
    pub kind: String,
    pub name: String,
    pub full_name: Option<String>,
    pub description: String,
    pub goals: Vec<String>,
    pub modules: Vec<Module>,
    pub instantiate: Vec<Instance>,
    pub connect: Vec<String>,
    pub memory_blocks: Vec<MemoryBlock>,
    pub output: String,
}

/// A module declared in the `Modules:` section.
#[derive(Debug, Clone)]
pub struct Module {
    pub name: String,
    pub summary: Option<String>,
    pub operations: Vec<String>,
    pub inputs: Vec<String>,
    pub outputs: Vec<String>,
}

/// A line `Create <count> instances of <module>` of the `Instantiate:` section.
#[derive(Debug, Clone)]
pub struct Instance {
    pub module_name: String,
    pub count: u32,
}

/// A line `<name>: <size>` of the `Memory:` section.
#[derive(Debug, Clone)]
pub struct MemoryBlock {
    pub name: String,
    pub size: String,
}

/// The mathematical value of a [`Module`].
#[verifier::ext_equal]
pub struct ModuleView {
    pub name: Seq<char>,
    pub summary: Option<Seq<char>>,
    pub operations: Seq<Seq<char>>,
    pub inputs: Seq<Seq<char>>,
    pub outputs: Seq<Seq<char>>,
}

/// The mathematical value of an [`Instance`].
#[verifier::ext_equal]
pub struct InstanceView {
    pub module_name: Seq<char>,
    pub count: u32,
}

/// The mathematical value of a [`MemoryBlock`].
#[verifier::ext_equal]
pub struct MemoryBlockView {
    pub name: Seq<char>,
    pub size: Seq<char>,
}

/// The mathematical value of a [`Definition`].
#[verifier::ext_equal]
pub struct DefinitionView {
    pub kind: Seq<char>,
    pub name: Seq<char>,
    pub full_name: Option<Seq<char>>,
    pub description: Seq<char>,
    pub goals: Seq<Seq<char>>,
    pub modules: Seq<ModuleView>,
    pub instantiate: Seq<InstanceView>,
    pub connect: Seq<Seq<char>>,
    pub memory_blocks: Seq<MemoryBlockView>,
    pub output: Seq<char>,
}

/// The view of an optional string.
pub open spec fn opt_view(o: Option<String>) -> Option<Seq<char>> {
    match o {
        Some(s) => Some(s@),
        None => None,
    }
}

impl View for Module {
    type V = ModuleView;

    open spec fn view(&self) -> ModuleView {
        ModuleView {
            name: self.name@,
            summary: opt_view(self.summary),
            operations: string_views(self.operations@),
            inputs: string_views(self.inputs@),
            outputs: string_views(self.outputs@),
        }
    }
}

impl View for Instance {
    type V = InstanceView;

    open spec fn view(&self) -> InstanceView {
        InstanceView { module_name: self.module_name@, count: self.count }
    }
}

impl View for MemoryBlock {
    type V = MemoryBlockView;

    open spec fn view(&self) -> MemoryBlockView {
        MemoryBlockView { name: self.name@, size: self.size@ }
    }
}

/// The views of a sequence of modules.
pub open spec fn module_views(v: Seq<Module>) -> Seq<ModuleView> {
    Seq::new(v.len(), |i: int| v[i]@)
}

/// The views of a sequence of instances.
pub open spec fn instance_views(v: Seq<Instance>) -> Seq<InstanceView> {
    Seq::new(v.len(), |i: int| v[i]@)
}

/// The views of a sequence of memory blocks.
pub open spec fn block_views(v: Seq<MemoryBlock>) -> Seq<MemoryBlockView> {
    Seq::new(v.len(), |i: int| v[i]@)
}

/// The view of an optional module.
pub open spec fn opt_module_view(o: Option<Module>) -> Option<ModuleView> {
    match o {
        Some(m) => Some(m@),
        None => None,
    }
}

impl View for Definition {
    type V = DefinitionView;

    open spec fn view(&self) -> DefinitionView {
        DefinitionView {
            kind: self.kind@,
            name: self.name@,
            full_name: opt_view(self.full_name),
            description: self.description@,
            goals: string_views(self.goals@),
            modules: module_views(self.modules@),
            instantiate: instance_views(self.instantiate@),
            connect: string_views(self.connect@),
            memory_blocks: block_views(self.memory_blocks@),
            output: self.output@,
        }
    }
}

} // verus!
