//! The line-oriented parser of chip and memory descriptions.

use vstd::prelude::*;

use crate::model::{
    block_views, instance_views, module_views, opt_module_view, opt_view, Definition,
    DefinitionView, Instance, InstanceView, MemoryBlock, MemoryBlockView, Module, ModuleView,
};
use crate::text::{
    copy_range, find_chars, find_first, has_prefix, parse_u32_chars, parse_u32_spec, push_chars,
    remove_all, remove_text, split_on, split_trimmed, starts_with, str_to_chars,
    string_from_chars, string_views, strings_from_chars, trim, trim_chars, trimmed_nonempty,
};

verus! {

/// The section that the lines being read belong to.
#[derive(Debug, Clone, Copy, PartialEq, Eq, Structural)]
pub enum Section {
    Outside,
    Description,
    Goals,
    Modules,
    Instantiate,
    Connect,
    Memory,
}

/// Why a text is not a description.
#[derive(Debug, Clone, Copy, PartialEq, Eq, Structural)]
pub enum ParseFailure {
    /// A line starts with `IMPORT `: imports are resolved before parsing.
    UnresolvedImport,
    /// A second `# CHIP v2` or `# MEMORY v2` header.
    MultipleHeaders,
    /// No header gave the definition a name.
    MissingHeader,
}

/// The message that [`parse`] returns for a failure.
pub open spec fn failure_message(f: ParseFailure) -> Seq<char> {
    match f {
        ParseFailure::UnresolvedImport => UNRESOLVED_IMPORT_MSG@,
        ParseFailure::MultipleHeaders => MULTIPLE_HEADERS_MSG@,
        ParseFailure::MissingHeader => MISSING_HEADER_MSG@,
    }
}

pub const UNRESOLVED_IMPORT_MSG: &'static str = "Unresolved IMPORT directive found in parse(). Use parse_file() for hierarchical imports.";

pub const MULTIPLE_HEADERS_MSG: &'static str = "Multiple definition headers found. Imported files should be fragments without their own # CHIP v2 / # MEMORY v2 header.";

pub const MISSING_HEADER_MSG: &'static str = "Missing header: # CHIP v2 or # MEMORY v2";

/// What the parser holds between two lines.
#[verifier::ext_equal]
pub struct ParseState {
    pub def: DefinitionView,
    pub section: Section,
    pub current: Option<ModuleView>,
    pub header_seen: bool,
}

/// The lines that the parser reads: those of `content`, trimmed, the blank ones left out.
pub open spec fn content_lines(content: Seq<char>) -> Seq<Seq<char>> {
    trimmed_nonempty(split_on(content, '\n'))
}

/// A module with a name and nothing else yet.
pub open spec fn new_module(name: Seq<char>) -> ModuleView {
    ModuleView {
        name,
        summary: None,
        operations: Seq::empty(),
        inputs: Seq::empty(),
        outputs: Seq::empty(),
    }
}

/// The modules once the open one, if any, is closed.
pub open spec fn flushed(current: Option<ModuleView>, modules: Seq<ModuleView>) -> Seq<ModuleView> {
    match current {
        Some(m) => modules.push(m),
        None => modules,
    }
}

/// The text of `line` once `label` is removed from it, trimmed.
pub open spec fn after_label(line: Seq<char>, label: Seq<char>) -> Seq<char> {
    trim(remove_all(line, label))
}

/// The comma-separated items of `line` once `label` is removed from it.
pub open spec fn label_items(line: Seq<char>, label: Seq<char>) -> Seq<Seq<char>> {
    trimmed_nonempty(split_on(remove_all(line, label), ','))
}

/// The name that a `Define module` line gives.
pub open spec fn module_name_of(line: Seq<char>) -> Seq<char> {
    trim(remove_all(remove_all(line, "Define module "@), seq![':']))
}

/// Whether a line is a definition header.
pub open spec fn is_header(line: Seq<char>) -> bool {
    starts_with(line, "# CHIP v2"@) || starts_with(line, "# MEMORY v2"@)
}

/// Whether a line is an unresolved `IMPORT` line.
pub open spec fn is_import(line: Seq<char>) -> bool {
    starts_with(line, "IMPORT "@)
}

/// The number of header lines among `lines`.
pub open spec fn header_count(lines: Seq<Seq<char>>) -> nat
    decreases lines.len(),
{
    if lines.len() == 0 {
        0
    } else {
        header_count(lines.drop_last()) + if is_header(lines.last()) {
            1nat
        } else {
            0nat
        }
    }
}

/// Whether none of `lines` is an `IMPORT` line.
pub open spec fn no_imports(lines: Seq<Seq<char>>) -> bool {
    forall|i: int| 0 <= i < lines.len() ==> !is_import(#[trigger] lines[i])
}

/// A line of the `Modules:` section: the open module and the closed modules after it.
pub open spec fn module_line(line: Seq<char>, current: Option<ModuleView>, modules: Seq<ModuleView>) -> (
    Option<ModuleView>,
    Seq<ModuleView>,
) {
    if starts_with(line, "Define module "@) {
        (Some(new_module(module_name_of(line))), flushed(current, modules))
    } else {
        match current {
            Some(m) => {
                let m2 = if starts_with(line, "Summary:"@) {
                    ModuleView { summary: Some(after_label(line, "Summary:"@)), ..m }
                } else if starts_with(line, "Operations:"@) {
                    ModuleView { operations: label_items(line, "Operations:"@), ..m }
                } else if starts_with(line, "Inputs:"@) {
                    ModuleView { inputs: label_items(line, "Inputs:"@), ..m }
                } else if starts_with(line, "Outputs:"@) {
                    ModuleView { outputs: label_items(line, "Outputs:"@), ..m }
                } else {
                    m
                };
                (Some(m2), modules)
            },
            None => (None, modules),
        }
    }
}

/// The instance that a line of the `Instantiate:` section declares, if it is well formed:
/// `Create <count> instances of <module name>`.
pub open spec fn instance_of(line: Seq<char>) -> Option<InstanceView> {
    if starts_with(line, "Create "@) {
        let rest = line.skip("Create "@.len() as int);
        match find_first(rest, " instances of "@) {
            Some(k) => {
                let name = trim(rest.skip(k + " instances of "@.len()));
                match parse_u32_spec(trim(rest.take(k))) {
                    Some(count) => if name.len() > 0 {
                        Some(InstanceView { module_name: name, count })
                    } else {
                        None
                    },
                    None => None,
                }
            },
            None => None,
        }
    } else {
        None
    }
}

/// The block that a line of the `Memory:` section declares, if it holds a colon:
/// the text before the first colon and the text after it, both trimmed.
pub open spec fn memory_block_of(line: Seq<char>) -> Option<MemoryBlockView> {
    match find_first(line, seq![':']) {
        Some(k) => Some(MemoryBlockView { name: trim(line.take(k)), size: trim(line.skip(k + 1)) }),
        None => None,
    }
}

/// A line that is no header and no section label, read in the current section.
pub open spec fn section_line(st: ParseState, line: Seq<char>) -> ParseState {
    let d = st.def;
    match st.section {
        Section::Description => {
            let desc = if d.description.len() == 0 {
                line
            } else {
                d.description.push('\n') + line
            };
            ParseState { def: DefinitionView { description: desc, ..d }, ..st }
        },
        Section::Goals => {
            if starts_with(line, "- "@) {
                let goal = trim(line.skip(2));
                ParseState { def: DefinitionView { goals: d.goals.push(goal), ..d }, ..st }
            } else {
                st
            }
        },
        Section::Modules => {
            let (cur, mods) = module_line(line, st.current, d.modules);
            ParseState { def: DefinitionView { modules: mods, ..d }, current: cur, ..st }
        },
        Section::Instantiate => match instance_of(line) {
            Some(inst) => ParseState {
                def: DefinitionView { instantiate: d.instantiate.push(inst), ..d },
                ..st
            },
            None => st,
        },
        Section::Connect => ParseState {
            def: DefinitionView { connect: d.connect.push(line), ..d },
            ..st
        },
        Section::Memory => match memory_block_of(line) {
            Some(b) => ParseState {
                def: DefinitionView { memory_blocks: d.memory_blocks.push(b), ..d },
                ..st
            },
            None => st,
        },
        Section::Outside => st,
    }
}

/// The state once a section label closes the open module and opens `sec`.
pub open spec fn enter_section(st: ParseState, sec: Section) -> ParseState {
    ParseState {
        def: DefinitionView { modules: flushed(st.current, st.def.modules), ..st.def },
        section: sec,
        current: None,
        ..st
    }
}

/// The section that a label line opens, if the line is one.
pub open spec fn section_label(line: Seq<char>) -> Option<Section> {
    if starts_with(line, "Description:"@) {
        Some(Section::Description)
    } else if starts_with(line, "Architecture Goals:"@) {
        Some(Section::Goals)
    } else if starts_with(line, "Modules:"@) {
        Some(Section::Modules)
    } else if starts_with(line, "Instantiate:"@) {
        Some(Section::Instantiate)
    } else if starts_with(line, "Connect:"@) {
        Some(Section::Connect)
    } else if starts_with(line, "Memory:"@) {
        Some(Section::Memory)
    } else {
        None
    }
}

/// The state once a header line of the given kind is read.
pub open spec fn header_line(st: ParseState, line: Seq<char>, marker: Seq<char>, kind: Seq<char>) -> Result<
    ParseState,
    ParseFailure,
> {
    if st.header_seen {
        Err(ParseFailure::MultipleHeaders)
    } else {
        Ok(
            ParseState {
                def: DefinitionView { kind, name: trim(line.skip(marker.len() as int)), ..st.def },
                header_seen: true,
                ..st
            },
        )
    }
}

/// What reading one line does to the parser's state.
pub open spec fn step(st: ParseState, line: Seq<char>) -> Result<ParseState, ParseFailure> {
    if starts_with(line, "IMPORT "@) {
        Err(ParseFailure::UnresolvedImport)
    } else if starts_with(line, "# CHIP v2"@) {
        header_line(st, line, "# CHIP v2"@, "CHIP"@)
    } else if starts_with(line, "# MEMORY v2"@) {
        header_line(st, line, "# MEMORY v2"@, "MEMORY"@)
    } else if starts_with(line, "Full Name:"@) {
        Ok(
            ParseState {
                def: DefinitionView {
                    full_name: Some(after_label(line, "Full Name:"@)),
                    ..st.def
                },
                ..st
            },
        )
    } else if section_label(line) is Some {
        Ok(enter_section(st, section_label(line)->0))
    } else if starts_with(line, "Output:"@) {
        let st2 = enter_section(st, Section::Outside);
        Ok(
            ParseState {
                def: DefinitionView { output: after_label(line, "Output:"@), ..st2.def },
                ..st2
            },
        )
    } else {
        Ok(section_line(st, line))
    }
}

/// The state after reading `lines` in order from `st`, or the first failure.
pub open spec fn run(st: ParseState, lines: Seq<Seq<char>>) -> Result<ParseState, ParseFailure>
    decreases lines.len(),
{
    if lines.len() == 0 {
        Ok(st)
    } else {
        match run(st, lines.drop_last()) {
            Ok(s) => step(s, lines.last()),
            Err(e) => Err(e),
        }
    }
}

/// The state before the first line.
pub open spec fn initial_state() -> ParseState {
    ParseState {
        def: DefinitionView {
            kind: "CHIP"@,
            name: Seq::empty(),
            full_name: None,
            description: Seq::empty(),
            goals: Seq::empty(),
            modules: Seq::empty(),
            instantiate: Seq::empty(),
            connect: Seq::empty(),
            memory_blocks: Seq::empty(),
            output: Seq::empty(),
        },
        section: Section::Outside,
        current: None,
        header_seen: false,
    }
}

/// The definition that `content` describes, or why it describes none.
pub open spec fn parse_spec(content: Seq<char>) -> Result<DefinitionView, ParseFailure> {
    match run(initial_state(), content_lines(content)) {
        Ok(st) => {
            let d = DefinitionView { modules: flushed(st.current, st.def.modules), ..st.def };
            if d.name.len() == 0 {
                Err(ParseFailure::MissingHeader)
            } else {
                Ok(d)
            }
        },
        Err(e) => Err(e),
    }
}


/// The text of `line` once `label` is removed from it, trimmed.
fn label_text(line: &Vec<char>, label: &str) -> (res: String)
    requires
        label@.len() > 0,
    ensures
        res@ == after_label(line@, label@),
{
    let removed = remove_text(line, label);
    let t = trim_chars(&removed);
    string_from_chars(&t)
}

/// The comma-separated items of `line` once `label` is removed from it.
fn label_list(line: &Vec<char>, label: &str) -> (res: Vec<String>)
    requires
        label@.len() > 0,
    ensures
        string_views(res@) == label_items(line@, label@),
{
    let removed = remove_text(line, label);
    let pieces = split_trimmed(&removed, ',');
    strings_from_chars(&pieces)
}

/// Closes the open module, if any, appending it to `modules`.
fn flush_current_module(current: &mut Option<Module>, modules: &mut Vec<Module>)
    ensures
        *final(current) is None,
        module_views(final(modules)@) == flushed(opt_module_view(*old(current)), module_views(
            old(modules)@,
        )),
{
    if let Some(module) = current.take() {
        modules.push(module);
        assert(module_views(modules@) =~= module_views(old(modules)@).push(module@));
    }
}

/// Reads a line of the `Modules:` section.
fn parse_module_line(line: &Vec<char>, current: &mut Option<Module>, modules: &mut Vec<Module>)
    ensures
        (opt_module_view(*final(current)), module_views(final(modules)@)) == module_line(
            line@,
            opt_module_view(*old(current)),
            module_views(old(modules)@),
        ),
{
    proof {
        reveal_strlit("Define module ");
        reveal_strlit("Summary:");
        reveal_strlit("Operations:");
        reveal_strlit("Inputs:");
        reveal_strlit("Outputs:");
    }
    if has_prefix(line, "Define module ") {
        flush_current_module(current, modules);
        let removed = remove_text(line, "Define module ");
        let colon: Vec<char> = vec![':'];
        let no_colon = crate::text::remove_all_chars(&removed, &colon);
        assert(colon@ =~= seq![':']);
        let t = trim_chars(&no_colon);
        let name = string_from_chars(&t);
        let m = Module {
            name,
            summary: None,
            operations: Vec::new(),
            inputs: Vec::new(),
            outputs: Vec::new(),
        };
        assert(m@ =~= new_module(module_name_of(line@)));
        *current = Some(m);
    } else {
        match current.take() {
            Some(mut m) => {
                let ghost m0 = m@;
                if has_prefix(line, "Summary:") {
                    m.summary = Some(label_text(line, "Summary:"));
                    assert(m@ =~= ModuleView { summary: Some(after_label(line@, "Summary:"@)), ..m0 });
                } else if has_prefix(line, "Operations:") {
                    m.operations = label_list(line, "Operations:");
                    assert(m@ =~= ModuleView { operations: label_items(line@, "Operations:"@), ..m0 });
                } else if has_prefix(line, "Inputs:") {
                    m.inputs = label_list(line, "Inputs:");
                    assert(m@ =~= ModuleView { inputs: label_items(line@, "Inputs:"@), ..m0 });
                } else if has_prefix(line, "Outputs:") {
                    m.outputs = label_list(line, "Outputs:");
                    assert(m@ =~= ModuleView { outputs: label_items(line@, "Outputs:"@), ..m0 });
                }
                *current = Some(m);
            },
            None => {},
        }
    }
}

/// Reads a line of the `Instantiate:` section.
fn parse_instantiate_line(line: &Vec<char>, instantiate: &mut Vec<Instance>)
    ensures
        instance_views(final(instantiate)@) == (match instance_of(line@) {
            Some(inst) => instance_views(old(instantiate)@).push(inst),
            None => instance_views(old(instantiate)@),
        }),
{
    proof {
        reveal_strlit("Create ");
        reveal_strlit(" instances of ");
    }
    if !has_prefix(line, "Create ") {
        return;
    }
    let prefix_len = str_to_chars("Create ").len();
    let rest = copy_range(line, prefix_len, line.len());
    assert(rest@ =~= line@.skip("Create "@.len() as int));
    let sep = str_to_chars(" instances of ");
    let k = match find_chars(&rest, &sep) {
        Some(k) => k,
        None => {
            return;
        },
    };
    proof {
        crate::text::lemma_find_first_bounds(rest@, sep@);
    }
    let count_part = copy_range(&rest, 0, k);
    let count_trimmed = trim_chars(&count_part);
    assert(count_part@ =~= rest@.take(k as int));
    let count = match parse_u32_chars(&count_trimmed) {
        Some(c) => c,
        None => {
            return;
        },
    };
    let name_part = copy_range(&rest, k + sep.len(), rest.len());
    assert(name_part@ =~= rest@.skip(k + " instances of "@.len()));
    let name_trimmed = trim_chars(&name_part);
    if name_trimmed.len() == 0 {
        return;
    }
    let inst = Instance { module_name: string_from_chars(&name_trimmed), count };
    instantiate.push(inst);
    assert(instance_views(instantiate@) =~= instance_views(old(instantiate)@).push(inst@));
}

/// Reads a line of the `Memory:` section.
fn parse_memory_line(line: &Vec<char>, blocks: &mut Vec<MemoryBlock>)
    ensures
        block_views(final(blocks)@) == (match memory_block_of(line@) {
            Some(b) => block_views(old(blocks)@).push(b),
            None => block_views(old(blocks)@),
        }),
{
    let colon: Vec<char> = vec![':'];
    assert(colon@ =~= seq![':']);
    match find_chars(line, &colon) {
        Some(k) => {
            proof {
                crate::text::lemma_find_first_bounds(line@, colon@);
                assert(colon@.len() == 1);
                assert(k + 1 <= line.len());
            }
            let name_part = copy_range(line, 0, k);
            let size_part = copy_range(line, k + 1, line.len());
            assert(name_part@ =~= line@.take(k as int));
            assert(size_part@ =~= line@.skip(k + 1));
            let name = string_from_chars(&trim_chars(&name_part));
            let size = string_from_chars(&trim_chars(&size_part));
            let b = MemoryBlock { name, size };
            blocks.push(b);
            assert(block_views(blocks@) =~= block_views(old(blocks)@).push(b@));
        },
        None => {},
    }
}


/// The parser between two lines: the definition so far, the open section and module.
struct ParserState {
    def: Definition,
    section: Section,
    current: Option<Module>,
    header_seen: bool,
}

impl View for ParserState {
    type V = ParseState;

    closed spec fn view(&self) -> ParseState {
        ParseState {
            def: self.def@,
            section: self.section,
            current: opt_module_view(self.current),
            header_seen: self.header_seen,
        }
    }
}

/// The section that a label line opens, if it is one.
fn section_of(line: &Vec<char>) -> (res: Option<Section>)
    ensures
        res == section_label(line@),
{
    if has_prefix(line, "Description:") {
        Some(Section::Description)
    } else if has_prefix(line, "Architecture Goals:") {
        Some(Section::Goals)
    } else if has_prefix(line, "Modules:") {
        Some(Section::Modules)
    } else if has_prefix(line, "Instantiate:") {
        Some(Section::Instantiate)
    } else if has_prefix(line, "Connect:") {
        Some(Section::Connect)
    } else if has_prefix(line, "Memory:") {
        Some(Section::Memory)
    } else {
        None
    }
}

/// Reads a header line: `marker` begins it, and it makes a definition of the given kind.
fn read_header(st: &mut ParserState, line: &Vec<char>, marker: &str, kind: &str) -> (res: Result<
    (),
    ParseFailure,
>)
    requires
        starts_with(line@, marker@),
    ensures
        match header_line(old(st)@, line@, marker@, kind@) {
            Ok(s) => res is Ok && final(st)@ == s,
            Err(e) => res == Err::<(), ParseFailure>(e),
        },
{
    if st.header_seen {
        return Err(ParseFailure::MultipleHeaders);
    }
    let ghost s0 = st@;
    let m = str_to_chars(marker).len();
    let rest = copy_range(line, m, line.len());
    assert(rest@ =~= line@.skip(marker@.len() as int));
    let name = trim_chars(&rest);
    st.def.kind = kind.to_owned();
    st.def.name = string_from_chars(&name);
    st.header_seen = true;
    assert(st@ =~= ParseState {
        def: DefinitionView { kind: kind@, name: trim(line@.skip(marker@.len() as int)), ..s0.def },
        header_seen: true,
        ..s0
    });
    Ok(())
}

/// Closes the open module and opens `sec`.
fn open_section(st: &mut ParserState, sec: Section)
    ensures
        final(st)@ == enter_section(old(st)@, sec),
{
    let ghost s0 = st@;
    flush_current_module(&mut st.current, &mut st.def.modules);
    st.section = sec;
    assert(st@ =~= enter_section(s0, sec));
}

/// Reads a line that is no header and no section label.
fn read_section_line(st: &mut ParserState, line: &Vec<char>)
    ensures
        final(st)@ == section_line(old(st)@, line@),
{
    let ghost s0 = st@;
    match st.section {
        Section::Description => {
            if !st.def.description.as_str().is_empty() {
                crate::text::push_char(&mut st.def.description, '\n');
            }
            push_chars(&mut st.def.description, line);
            assert(st@ =~= section_line(s0, line@));
        },
        Section::Goals => {
            proof {
                reveal_strlit("- ");
            }
            if has_prefix(line, "- ") {
                let rest = copy_range(line, 2, line.len());
                assert(rest@ =~= line@.skip(2));
                let goal = string_from_chars(&trim_chars(&rest));
                st.def.goals.push(goal);
                assert(string_views(st.def.goals@) =~= s0.def.goals.push(goal@));
            }
            assert(st@ =~= section_line(s0, line@));
        },
        Section::Modules => {
            parse_module_line(line, &mut st.current, &mut st.def.modules);
            assert(st@ =~= section_line(s0, line@));
        },
        Section::Instantiate => {
            parse_instantiate_line(line, &mut st.def.instantiate);
            assert(st@ =~= section_line(s0, line@));
        },
        Section::Connect => {
            let l = string_from_chars(line);
            st.def.connect.push(l);
            assert(string_views(st.def.connect@) =~= s0.def.connect.push(line@));
            assert(st@ =~= section_line(s0, line@));
        },
        Section::Memory => {
            parse_memory_line(line, &mut st.def.memory_blocks);
            assert(st@ =~= section_line(s0, line@));
        },
        Section::Outside => {},
    }
}

/// Reads one line.
fn read_line(st: &mut ParserState, line: &Vec<char>) -> (res: Result<(), ParseFailure>)
    ensures
        match step(old(st)@, line@) {
            Ok(s) => res is Ok && final(st)@ == s,
            Err(e) => res == Err::<(), ParseFailure>(e),
        },
{
    proof {
        reveal_strlit("Full Name:");
        reveal_strlit("Output:");
    }
    if has_prefix(line, "IMPORT ") {
        return Err(ParseFailure::UnresolvedImport);
    }
    if has_prefix(line, "# CHIP v2") {
        return read_header(st, line, "# CHIP v2", "CHIP");
    }
    if has_prefix(line, "# MEMORY v2") {
        return read_header(st, line, "# MEMORY v2", "MEMORY");
    }
    let ghost s0 = st@;
    if has_prefix(line, "Full Name:") {
        st.def.full_name = Some(label_text(line, "Full Name:"));
        assert(st@ =~= ParseState {
            def: DefinitionView { full_name: Some(after_label(line@, "Full Name:"@)), ..s0.def },
            ..s0
        });
        return Ok(());
    }
    if let Some(sec) = section_of(line) {
        open_section(st, sec);
        return Ok(());
    }
    if has_prefix(line, "Output:") {
        open_section(st, Section::Outside);
        let ghost s1 = st@;
        st.def.output = label_text(line, "Output:");
        assert(st@ =~= ParseState {
            def: DefinitionView { output: after_label(line@, "Output:"@), ..s1.def },
            ..s1
        });
        return Ok(());
    }
    read_section_line(st, line);
    Ok(())
}

/// Parses a description whose imports are already resolved.
///
/// The lines of `content` are trimmed and the blank ones skipped. A `# CHIP v2 <name>` or
/// `# MEMORY v2 <name>` header names the definition; section labels (`Description:`,
/// `Architecture Goals:`, `Modules:`, `Instantiate:`, `Connect:`, `Memory:`) decide how the
/// lines after them are read, and `Full Name:` and `Output:` lines set those fields.
/// An `IMPORT` line, a second header, or no header at all is an error.
pub fn parse(content: &str) -> (res: Result<Definition, String>)
    ensures
        match res {
            Ok(def) => parse_spec(content@) == Ok::<DefinitionView, ParseFailure>(def@),
            Err(msg) => parse_spec(content@) matches Err(f) && msg@ == failure_message(f),
        },
{
    let chars = str_to_chars(content);
    let lines = split_trimmed(&chars, '\n');
    let ghost all = content_lines(content@);
    let mut st = ParserState {
        def: Definition {
            kind: "CHIP".to_owned(),
            name: String::new(),
            full_name: None,
            description: String::new(),
            goals: Vec::new(),
            modules: Vec::new(),
            instantiate: Vec::new(),
            connect: Vec::new(),
            memory_blocks: Vec::new(),
            output: String::new(),
        },
        section: Section::Outside,
        current: None,
        header_seen: false,
    };
    assert(st@ =~= initial_state());
    assert(all.take(0) =~= Seq::<Seq<char>>::empty());
    let mut i: usize = 0;
    while i < lines.len()
        invariant
            i <= lines.len(),
            crate::text::char_views(lines@) == all,
            all == content_lines(content@),
            run(initial_state(), all.take(i as int)) == Ok::<ParseState, ParseFailure>(st@),
        decreases lines.len() - i,
    {
        assert(all.take(i + 1).drop_last() =~= all.take(i as int));
        assert(all.take(i + 1).last() == lines@[i as int]@);
        match read_line(&mut st, &lines[i]) {
            Ok(()) => {},
            Err(f) => {
                proof {
                    lemma_run_fails_later(initial_state(), all, i as int + 1);
                }
                return Err(failure_text(f));
            },
        }
        i = i + 1;
    }
    assert(all.take(lines.len() as int) =~= all);
    flush_current_module(&mut st.current, &mut st.def.modules);
    if st.def.name.as_str().is_empty() {
        return Err(failure_text(ParseFailure::MissingHeader));
    }
    let ghost fin = st.def@;
    assert(parse_spec(content@) == Ok::<DefinitionView, ParseFailure>(fin));
    Ok(st.def)
}

/// Once a run fails, reading more lines does not undo the failure.
pub proof fn lemma_run_fails_later(st: ParseState, lines: Seq<Seq<char>>, k: int)
    requires
        0 <= k <= lines.len(),
        run(st, lines.take(k)) is Err,
    ensures
        run(st, lines) == run(st, lines.take(k)),
    decreases lines.len() - k,
{
    if k < lines.len() {
        assert(lines.take(k + 1).drop_last() =~= lines.take(k));
        lemma_run_fails_later(st, lines, k + 1);
    } else {
        assert(lines.take(k) =~= lines);
    }
}

/// The message of a failure.
fn failure_text(f: ParseFailure) -> (res: String)
    ensures
        res@ == failure_message(f),
{
    match f {
        ParseFailure::UnresolvedImport => UNRESOLVED_IMPORT_MSG.to_owned(),
        ParseFailure::MultipleHeaders => MULTIPLE_HEADERS_MSG.to_owned(),
        ParseFailure::MissingHeader => MISSING_HEADER_MSG.to_owned(),
    }
}

} // verus!
