//! Which texts parse, and where the parts of a parsed definition come from.

use vstd::prelude::*;

use crate::model::{DefinitionView, ModuleView};
use crate::parser::{
    content_lines, flushed, header_count, initial_state, is_header, is_import,
    lemma_run_fails_later, module_line, module_name_of, new_module, no_imports,
    parse_spec, run, section_label, step, ParseFailure, ParseState, Section,
};
use crate::text::{starts_with, trim};

verus! {

/// The first header line among `lines`, if there is one.
pub open spec fn first_header(lines: Seq<Seq<char>>) -> Option<Seq<char>>
    decreases lines.len(),
{
    if lines.len() == 0 {
        None
    } else {
        match first_header(lines.drop_last()) {
            Some(h) => Some(h),
            None => if is_header(lines.last()) {
                Some(lines.last())
            } else {
                None
            },
        }
    }
}

/// The kind that a header line declares.
pub open spec fn header_kind(h: Seq<char>) -> Seq<char> {
    if starts_with(h, "# CHIP v2"@) {
        "CHIP"@
    } else {
        "MEMORY"@
    }
}

/// The name that a header line gives: the rest of the line after its marker, trimmed.
pub open spec fn header_name(h: Seq<char>) -> Seq<char> {
    if starts_with(h, "# CHIP v2"@) {
        trim(h.skip("# CHIP v2"@.len() as int))
    } else {
        trim(h.skip("# MEMORY v2"@.len() as int))
    }
}

proof fn lemma_first_header_count(lines: Seq<Seq<char>>)
    ensures
        (first_header(lines) is None) == (header_count(lines) == 0),
        first_header(lines) matches Some(h) ==> is_header(h),
    decreases lines.len(),
{
    if lines.len() > 0 {
        lemma_first_header_count(lines.drop_last());
    }
}

/// What reading one line does to the kind and the name.
proof fn lemma_step_header_fields(st: ParseState, line: Seq<char>)
    ensures
        !is_import(line) && is_header(line) && !st.header_seen ==> (step(st, line) matches Ok(s2)
            && s2.def.kind == header_kind(line) && s2.def.name == header_name(line)),
        !is_import(line) && !is_header(line) ==> (step(st, line) matches Ok(s2) && s2.def.kind
            == st.def.kind && s2.def.name == st.def.name && s2.header_seen == st.header_seen),
        step(st, line) matches Ok(s2) ==> !is_import(line) && (is_header(line) ==> !st.header_seen
            && s2.header_seen),
{
}

/// The header bookkeeping of a run, and where the kind and the name come from.
proof fn lemma_run_header_fields(lines: Seq<Seq<char>>)
    ensures
        run(initial_state(), lines) is Ok <==> (no_imports(lines) && header_count(lines) <= 1),
        no_imports(lines) && header_count(lines) >= 2 ==> run(initial_state(), lines) == Err::<
            ParseState,
            ParseFailure,
        >(ParseFailure::MultipleHeaders),
        run(initial_state(), lines) matches Ok(st) ==> {
            &&& st.header_seen == (header_count(lines) == 1)
            &&& (first_header(lines) matches Some(h) ==> st.def.kind == header_kind(h)
                && st.def.name == header_name(h))
            &&& (first_header(lines) is None ==> st.def.name.len() == 0)
        },
    decreases lines.len(),
{
    crate::laws::lemma_run_headers(lines);
    lemma_first_header_count(lines);
    if lines.len() > 0 {
        let init = lines.drop_last();
        lemma_run_header_fields(init);
        lemma_first_header_count(init);
        match run(initial_state(), init) {
            Ok(st) => {
                lemma_step_header_fields(st, lines.last());
            },
            Err(e) => {},
        }
    }
}

/// A description parses exactly when it has no `IMPORT` line and exactly one header line,
/// and that header gives a non-empty name; the definition's kind and name are then the
/// ones that header gives.
pub proof fn law_parse_succeeds_exactly(content: Seq<char>)
    ensures
        parse_spec(content) is Ok <==> {
            &&& no_imports(content_lines(content))
            &&& header_count(content_lines(content)) == 1
            &&& header_name(first_header(content_lines(content))->0).len() > 0
        },
        parse_spec(content) matches Ok(d) ==> {
            &&& first_header(content_lines(content)) matches Some(h)
            &&& is_header(h)
            &&& d.kind == header_kind(h)
            &&& d.name == header_name(h)
        },
{
    let lines = content_lines(content);
    lemma_run_header_fields(lines);
    lemma_first_header_count(lines);
}

/// An `IMPORT` line that comes before any second header makes parsing fail with the
/// unresolved-import message.
pub proof fn law_import_before_second_header(content: Seq<char>, i: int)
    requires
        0 <= i < content_lines(content).len(),
        is_import(content_lines(content)[i]),
        no_imports(content_lines(content).take(i)),
        header_count(content_lines(content).take(i)) <= 1,
    ensures
        parse_spec(content) == Err::<DefinitionView, ParseFailure>(
            ParseFailure::UnresolvedImport,
        ),
{
    let lines = content_lines(content);
    lemma_run_header_fields(lines.take(i));
    assert(lines.take(i + 1).drop_last() =~= lines.take(i));
    assert(lines.take(i + 1).last() == lines[i]);
    lemma_run_fails_later(initial_state(), lines, i + 1);
}

/// A second header that comes before any `IMPORT` line makes parsing fail with the
/// multiple-headers message.
pub proof fn law_second_header_before_import(content: Seq<char>, k: int)
    requires
        0 <= k <= content_lines(content).len(),
        no_imports(content_lines(content).take(k)),
        header_count(content_lines(content).take(k)) >= 2,
    ensures
        parse_spec(content) == Err::<DefinitionView, ParseFailure>(
            ParseFailure::MultipleHeaders,
        ),
{
    let lines = content_lines(content);
    lemma_run_header_fields(lines.take(k));
    lemma_run_fails_later(initial_state(), lines, k);
}


/// The section that the line after `lines` is read in.
pub open spec fn section_after(lines: Seq<Seq<char>>) -> Section
    decreases lines.len(),
{
    if lines.len() == 0 {
        Section::Outside
    } else {
        let sec = section_after(lines.drop_last());
        let l = lines.last();
        if is_import(l) || is_header(l) || starts_with(l, "Full Name:"@) {
            sec
        } else {
            match section_label(l) {
                Some(x) => x,
                None => if starts_with(l, "Output:"@) {
                    Section::Outside
                } else {
                    sec
                },
            }
        }
    }
}

/// The names of the modules that `lines` define: one per `Define module` line read in a
/// `Modules:` section, in order.
pub open spec fn defined_modules(lines: Seq<Seq<char>>) -> Seq<Seq<char>>
    decreases lines.len(),
{
    if lines.len() == 0 {
        Seq::empty()
    } else {
        let r = defined_modules(lines.drop_last());
        if section_after(lines.drop_last()) == Section::Modules && starts_with(
            lines.last(),
            "Define module "@,
        ) {
            r.push(module_name_of(lines.last()))
        } else {
            r
        }
    }
}

/// The names of modules, in order.
pub open spec fn module_names(ms: Seq<ModuleView>) -> Seq<Seq<char>> {
    Seq::new(ms.len(), |i: int| ms[i].name)
}

/// The names of the modules once the open one is closed.
pub open spec fn names_so_far(st: ParseState) -> Seq<Seq<char>> {
    module_names(flushed(st.current, st.def.modules))
}

proof fn lemma_names_flushed_push(c: Option<ModuleView>, ms: Seq<ModuleView>, m: ModuleView)
    ensures
        module_names(flushed(Some(m), flushed(c, ms))) == module_names(flushed(c, ms)).push(
            m.name,
        ),
{
    assert(module_names(flushed(Some(m), flushed(c, ms))) =~= module_names(flushed(c, ms)).push(
        m.name,
    ));
}

proof fn lemma_names_same_current(
    c1: Option<ModuleView>,
    c2: Option<ModuleView>,
    ms: Seq<ModuleView>,
)
    requires
        c1 is Some == c2 is Some,
        c1 is Some ==> c1->0.name == c2->0.name,
    ensures
        module_names(flushed(c1, ms)) == module_names(flushed(c2, ms)),
{
    assert(module_names(flushed(c1, ms)) =~= module_names(flushed(c2, ms)));
}

/// A `Define module` line is no other kind of line that the parser looks for first.
pub(crate) proof fn lemma_define_line_kind(l: Seq<char>)
    requires
        starts_with(l, "Define module "@),
    ensures
        !is_import(l),
        !is_header(l),
        !starts_with(l, "Full Name:"@),
        section_label(l) is None,
        !starts_with(l, "Output:"@),
{
    reveal_strlit("Define module ");
    reveal_strlit("IMPORT ");
    reveal_strlit("# CHIP v2");
    reveal_strlit("# MEMORY v2");
    reveal_strlit("Full Name:");
    reveal_strlit("Description:");
    reveal_strlit("Architecture Goals:");
    reveal_strlit("Modules:");
    reveal_strlit("Instantiate:");
    reveal_strlit("Connect:");
    reveal_strlit("Memory:");
    reveal_strlit("Output:");
    let d = "Define module "@;
    assert(l[0] == d[0] && l[2] == d[2]) by {
        assert(l.take(d.len() as int)[0] == d[0]);
        assert(l.take(d.len() as int)[2] == d[2]);
    }
    if starts_with(l, "Description:"@) {
        assert(l.take("Description:"@.len() as int)[2] == "Description:"@[2]);
    }
    if starts_with(l, "IMPORT "@) {
        assert(l.take(7)[0] == 'I');
    }
    if starts_with(l, "# CHIP v2"@) {
        assert(l.take(9)[0] == '#');
    }
    if starts_with(l, "# MEMORY v2"@) {
        assert(l.take(11)[0] == '#');
    }
    if starts_with(l, "Full Name:"@) {
        assert(l.take(10)[0] == 'F');
    }
    if starts_with(l, "Architecture Goals:"@) {
        assert(l.take(19)[0] == 'A');
    }
    if starts_with(l, "Modules:"@) {
        assert(l.take(8)[0] == 'M');
    }
    if starts_with(l, "Instantiate:"@) {
        assert(l.take(12)[0] == 'I');
    }
    if starts_with(l, "Connect:"@) {
        assert(l.take(8)[0] == 'C');
    }
    if starts_with(l, "Memory:"@) {
        assert(l.take(7)[0] == 'M');
    }
    if starts_with(l, "Output:"@) {
        assert(l.take(7)[0] == 'O');
    }
}

/// What reading one line does to the section and to the names of the modules.
proof fn lemma_step_modules(st: ParseState, line: Seq<char>)
    requires
        step(st, line) is Ok,
    ensures
        ({
            let s2 = step(st, line)->Ok_0;
            let sec = if is_import(line) || is_header(line) || starts_with(line, "Full Name:"@) {
                st.section
            } else {
                match section_label(line) {
                    Some(x) => x,
                    None => if starts_with(line, "Output:"@) {
                        Section::Outside
                    } else {
                        st.section
                    },
                }
            };
            &&& s2.section == sec
            &&& names_so_far(s2) == if st.section == Section::Modules && starts_with(
                line,
                "Define module "@,
            ) {
                names_so_far(st).push(module_name_of(line))
            } else {
                names_so_far(st)
            }
        }),
{
    let s2 = step(st, line)->Ok_0;
    if starts_with(line, "Define module "@) {
        lemma_define_line_kind(line);
        if st.section == Section::Modules {
            lemma_names_flushed_push(
                st.current,
                st.def.modules,
                new_module(module_name_of(line)),
            );
        }
    } else if is_import(line) || is_header(line) || starts_with(line, "Full Name:"@) {
    } else if section_label(line) is Some || starts_with(line, "Output:"@) {
        assert(flushed(None, flushed(st.current, st.def.modules)) == flushed(
            st.current,
            st.def.modules,
        ));
    } else if st.section == Section::Modules {
        let (cur, mods) = module_line(line, st.current, st.def.modules);
        assert(mods == st.def.modules);
        lemma_names_same_current(cur, st.current, st.def.modules);
    }
}

pub(crate) proof fn lemma_run_modules(lines: Seq<Seq<char>>)
    ensures
        run(initial_state(), lines) matches Ok(st) ==> {
            &&& st.section == section_after(lines)
            &&& names_so_far(st) == defined_modules(lines)
        },
    decreases lines.len(),
{
    if lines.len() == 0 {
        assert(names_so_far(initial_state()) =~= Seq::<Seq<char>>::empty());
    } else {
        lemma_run_modules(lines.drop_last());
        match run(initial_state(), lines.drop_last()) {
            Ok(st) => {
                if step(st, lines.last()) is Ok {
                    lemma_step_modules(st, lines.last());
                }
            },
            Err(e) => {},
        }
    }
}

/// The modules of a parsed definition are those of its `Define module` lines read in a
/// `Modules:` section, in order, each named by its line without `Define module ` and
/// without colons, trimmed.
pub proof fn law_modules_come_from_define_lines(content: Seq<char>)
    ensures
        parse_spec(content) matches Ok(d) ==> module_names(d.modules) == defined_modules(
            content_lines(content),
        ),
{
    lemma_run_modules(content_lines(content));
}

/// A `Define module` line closes the open module, if any, and opens one named by the line.
pub proof fn law_define_module_line(
    line: Seq<char>,
    current: Option<ModuleView>,
    modules: Seq<ModuleView>,
)
    requires
        starts_with(line, "Define module "@),
    ensures
        module_line(line, current, modules) == (
            Some(new_module(module_name_of(line))),
            flushed(current, modules),
        ),
{
}

/// Any other line of a `Modules:` section leaves the closed modules and the open module's
/// name as they are, and changes the open module only where it is a `Summary:`,
/// `Operations:`, `Inputs:` or `Outputs:` line.
pub proof fn law_other_module_line(
    line: Seq<char>,
    current: Option<ModuleView>,
    modules: Seq<ModuleView>,
)
    requires
        !starts_with(line, "Define module "@),
    ensures
        module_line(line, current, modules).1 == modules,
        module_line(line, current, modules).0 is Some == current is Some,
        current is Some ==> module_line(line, current, modules).0->0.name == current->0.name,
        !starts_with(line, "Summary:"@) && !starts_with(line, "Operations:"@) && !starts_with(
            line,
            "Inputs:"@,
        ) && !starts_with(line, "Outputs:"@) ==> module_line(line, current, modules).0
            == current,
{
}

} // verus!
