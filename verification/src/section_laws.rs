//! What the lines of each section add to the definition being read.

use vstd::prelude::*;

use crate::canonical::decimal;
use crate::imports::join;
use crate::model::{DefinitionView, InstanceView, MemoryBlockView, ModuleView};
use crate::parse_laws::{lemma_define_line_kind, lemma_run_modules, section_after};
use crate::parser::{
    content_lines, initial_state, is_header, is_import, module_name_of, parse_spec, run,
    section_label, step,
    ParseFailure, ParseState, Section,
};
use crate::text::{
    find_first, is_digit, is_ws, parse_u32_spec, remove_all, split_on, starts_with, trim,
    trim_end, trim_start, trimmed_nonempty,
};
use crate::text_laws::{law_find_first_is_first, law_parse_u32_reads_decimal, occurs_at};

verus! {

/// Whether `line` is read as a line of the section it stands in: it is no `IMPORT` line, no
/// header, no `Full Name:` line, no section label and no `Output:` line.
pub open spec fn read_in_section(line: Seq<char>) -> bool {
    &&& !is_import(line)
    &&& !is_header(line)
    &&& !starts_with(line, "Full Name:"@)
    &&& section_label(line) is None
    &&& !starts_with(line, "Output:"@)
}

proof fn lemma_char_at(line: Seq<char>, p: Seq<char>, i: int)
    requires
        starts_with(line, p),
        0 <= i < p.len(),
    ensures
        line[i] == p[i],
{
    assert(line.take(p.len() as int)[i] == line[i]);
}

proof fn lemma_reveal_labels()
    ensures
        "IMPORT "@ == seq!['I', 'M', 'P', 'O', 'R', 'T', ' '],
        "# CHIP v2"@ == seq!['#', ' ', 'C', 'H', 'I', 'P', ' ', 'v', '2'],
        "# MEMORY v2"@ == seq!['#', ' ', 'M', 'E', 'M', 'O', 'R', 'Y', ' ', 'v', '2'],
        "Full Name:"@.len() == 10 && "Full Name:"@[0] == 'F',
        "Description:"@.len() == 12 && "Description:"@[0] == 'D',
        "Architecture Goals:"@.len() == 19 && "Architecture Goals:"@[0] == 'A',
        "Modules:"@.len() == 8 && "Modules:"@[0] == 'M',
        "Instantiate:"@ == seq!['I', 'n', 's', 't', 'a', 'n', 't', 'i', 'a', 't', 'e', ':'],
        "Connect:"@ == seq!['C', 'o', 'n', 'n', 'e', 'c', 't', ':'],
        "Memory:"@.len() == 7 && "Memory:"@[0] == 'M',
        "Output:"@ == seq!['O', 'u', 't', 'p', 'u', 't', ':'],
        "Define module "@.len() == 14 && "Define module "@[0] == 'D',
        "Summary:"@ == seq!['S', 'u', 'm', 'm', 'a', 'r', 'y', ':'],
        "Operations:"@ == seq!['O', 'p', 'e', 'r', 'a', 't', 'i', 'o', 'n', 's', ':'],
        "Inputs:"@ == seq!['I', 'n', 'p', 'u', 't', 's', ':'],
        "Outputs:"@ == seq!['O', 'u', 't', 'p', 'u', 't', 's', ':'],
        "Create "@ == seq!['C', 'r', 'e', 'a', 't', 'e', ' '],
        " instances of "@ == seq![
            ' ',
            'i',
            'n',
            's',
            't',
            'a',
            'n',
            'c',
            'e',
            's',
            ' ',
            'o',
            'f',
            ' ',
        ],
{
    reveal_strlit("IMPORT ");
    reveal_strlit("# CHIP v2");
    reveal_strlit("# MEMORY v2");
    reveal_strlit("Full Name:");
    reveal_strlit("Description:");
    reveal_strlit("Architecture Goals:");
    reveal_strlit("Modules:");
    reveal_strlit("Instantiate:");
    reveal_strlit("Connect:");
    reveal_strlit("Memory:");
    reveal_strlit("Output:");
    reveal_strlit("Define module ");
    reveal_strlit("Summary:");
    reveal_strlit("Operations:");
    reveal_strlit("Inputs:");
    reveal_strlit("Outputs:");
    reveal_strlit("Create ");
    reveal_strlit(" instances of ");
}

/// A line is no line of any kind that the parser tells apart before a field line, once its
/// first characters rule each of them out.
proof fn lemma_first_chars_decide(line: Seq<char>)
    requires
        line.len() >= 7,
        line[0] != 'I' || line[1] != 'M',
        line[0] != '#',
        line[0] != 'F',
        line[0] != 'D',
        line[0] != 'A',
        line[0] != 'M',
        line[0] != 'I' || line[1] != 'n' || line[2] != 's',
        line[0] != 'C' || line[1] != 'o',
        line[0] != 'O' || line[1] != 'u' || line[6] != ':',
    ensures
        read_in_section(line),
        !starts_with(line, "Define module "@),
{
    lemma_reveal_labels();
    let ls = seq![
        "IMPORT "@,
        "# CHIP v2"@,
        "# MEMORY v2"@,
        "Full Name:"@,
        "Description:"@,
        "Architecture Goals:"@,
        "Modules:"@,
        "Instantiate:"@,
        "Connect:"@,
        "Memory:"@,
        "Output:"@,
        "Define module "@,
    ];
    assert forall|j: int| 0 <= j < ls.len() implies !starts_with(line, #[trigger] ls[j]) by {
        if starts_with(line, ls[j]) {
            lemma_char_at(line, ls[j], 0);
            lemma_char_at(line, ls[j], 1);
            lemma_char_at(line, ls[j], 2);
            lemma_char_at(line, ls[j], 6);
        }
    }
    assert(!starts_with(line, ls[0]));
    assert(!starts_with(line, ls[1]));
    assert(!starts_with(line, ls[2]));
    assert(!starts_with(line, ls[3]));
    assert(!starts_with(line, ls[4]));
    assert(!starts_with(line, ls[5]));
    assert(!starts_with(line, ls[6]));
    assert(!starts_with(line, ls[7]));
    assert(!starts_with(line, ls[8]));
    assert(!starts_with(line, ls[9]));
    assert(!starts_with(line, ls[10]));
    assert(!starts_with(line, ls[11]));
}

/// In a `Modules:` section with a module open, a `Summary:`, `Operations:`, `Inputs:` or
/// `Outputs:` line sets that field of the open module and changes nothing else: the summary
/// to the text after the label, trimmed; each list to the comma-separated items of the text
/// after the label, each trimmed, the empty ones left out.
pub proof fn law_module_field_lines(st: ParseState, line: Seq<char>, m: ModuleView)
    requires
        st.section == Section::Modules,
        st.current == Some(m),
    ensures
        starts_with(line, "Summary:"@) ==> step(st, line) == Ok::<ParseState, ParseFailure>(
            ParseState {
                current: Some(ModuleView { summary: Some(trim(remove_all(line, "Summary:"@))), ..m }),
                ..st
            },
        ),
        starts_with(line, "Operations:"@) ==> step(st, line) == Ok::<ParseState, ParseFailure>(
            ParseState {
                current: Some(
                    ModuleView {
                        operations: trimmed_nonempty(
                            split_on(remove_all(line, "Operations:"@), ','),
                        ),
                        ..m
                    },
                ),
                ..st
            },
        ),
        starts_with(line, "Inputs:"@) ==> step(st, line) == Ok::<ParseState, ParseFailure>(
            ParseState {
                current: Some(
                    ModuleView {
                        inputs: trimmed_nonempty(split_on(remove_all(line, "Inputs:"@), ',')),
                        ..m
                    },
                ),
                ..st
            },
        ),
        starts_with(line, "Outputs:"@) ==> step(st, line) == Ok::<ParseState, ParseFailure>(
            ParseState {
                current: Some(
                    ModuleView {
                        outputs: trimmed_nonempty(split_on(remove_all(line, "Outputs:"@), ',')),
                        ..m
                    },
                ),
                ..st
            },
        ),
{
    lemma_reveal_labels();
    let labels = seq!["Summary:"@, "Operations:"@, "Inputs:"@, "Outputs:"@];
    assert forall|j: int| 0 <= j < labels.len() && starts_with(line, #[trigger] labels[j]) implies {
        &&& read_in_section(line)
        &&& !starts_with(line, "Define module "@)
        &&& forall|i: int| 0 <= i < j ==> !starts_with(line, #[trigger] labels[i])
    } by {
        lemma_char_at(line, labels[j], 0);
        lemma_char_at(line, labels[j], 1);
        lemma_char_at(line, labels[j], 2);
        lemma_char_at(line, labels[j], 6);
        lemma_first_chars_decide(line);
        assert forall|i: int| 0 <= i < j implies !starts_with(line, #[trigger] labels[i]) by {
            if starts_with(line, labels[i]) {
                lemma_char_at(line, labels[i], 0);
                lemma_char_at(line, labels[i], 1);
            }
        }
    }
    assert(labels[0] == "Summary:"@);
    assert(labels[1] == "Operations:"@);
    assert(labels[2] == "Inputs:"@);
    assert(labels[3] == "Outputs:"@);
    let d = st.def;
    assert(crate::model::DefinitionView { modules: d.modules, ..d } == d);
}

/// A sequence of digits is its own trimmed form.
proof fn lemma_digits_trimmed(s: Seq<char>)
    requires
        s.len() > 0,
        forall|i: int| 0 <= i < s.len() ==> is_digit(#[trigger] s[i]),
    ensures
        trim(s) == s,
{
    assert(!is_ws(s[0]));
    assert(trim_start(s) == s);
    assert(!is_ws(s.last()));
    assert(trim_end(s) == s);
}

/// In an `Instantiate:` section, the line `Create <n> instances of <name>`, where `<n>` is
/// the decimal numeral of a 32-bit number and `<name>` is not blank, adds an instance of
/// `n` modules named by `<name>` trimmed, and changes nothing else.
pub proof fn law_instance_line(st: ParseState, n: u32, name: Seq<char>)
    requires
        st.section == Section::Instantiate,
        trim(name).len() > 0,
    ensures
        step(st, "Create "@ + decimal(n as nat) + " instances of "@ + name) == Ok::<ParseState, ParseFailure>(
            ParseState {
                def: crate::model::DefinitionView {
                    instantiate: st.def.instantiate.push(
                        InstanceView { module_name: trim(name), count: n },
                    ),
                    ..st.def
                },
                ..st
            },
        ),
{
    lemma_reveal_labels();
    let dn = decimal(n as nat);
    let sep = " instances of "@;
    let line = "Create "@ + dn + sep + name;
    law_parse_u32_reads_decimal(n);
    crate::text_laws::lemma_decimal_digits(n as nat);
    assert(line.take(7) =~= "Create "@);
    assert(starts_with(line, "Create "@));
    lemma_char_at(line, "Create "@, 0);
    lemma_char_at(line, "Create "@, 1);
    lemma_first_chars_decide(line);
    let rest = line.skip(7);
    assert(rest =~= dn + sep + name);
    let k = dn.len() as int;
    law_find_first_is_first(rest, sep);
    assert(rest.subrange(k, k + sep.len()) =~= sep);
    assert(occurs_at(rest, sep, k));
    assert(crate::text::find_first(rest, sep) == Some(k)) by {
        match crate::text::find_first(rest, sep) {
            Some(j) => {
                if j < k {
                    assert(occurs_at(rest, sep, j));
                    assert(rest.subrange(j, j + sep.len())[0] == rest[j]);
                    assert(rest[j] == dn[j]);
                    assert(is_digit(dn[j]));
                } else if j > k {
                    assert(!occurs_at(rest, sep, k));
                }
            },
            None => {},
        }
    }
    assert(rest.take(k) =~= dn);
    lemma_digits_trimmed(dn);
    assert(parse_u32_spec(trim(rest.take(k))) == Some(n));
    assert(rest.skip(k + sep.len()) =~= name);
}

/// The lines read in `Description:` sections, in order.
pub open spec fn description_lines(lines: Seq<Seq<char>>) -> Seq<Seq<char>>
    decreases lines.len(),
{
    if lines.len() == 0 {
        Seq::empty()
    } else {
        let r = description_lines(lines.drop_last());
        if section_after(lines.drop_last()) == Section::Description && read_in_section(
            lines.last(),
        ) {
            r.push(lines.last())
        } else {
            r
        }
    }
}

/// The blocks that the lines read in `Memory:` sections declare, in order: one for each such
/// line that holds a colon, named by the text before its first colon and sized by the text
/// after that colon, both trimmed.
pub open spec fn declared_blocks(lines: Seq<Seq<char>>) -> Seq<MemoryBlockView>
    decreases lines.len(),
{
    if lines.len() == 0 {
        Seq::empty()
    } else {
        let r = declared_blocks(lines.drop_last());
        let l = lines.last();
        if section_after(lines.drop_last()) == Section::Memory && read_in_section(l) {
            match find_first(l, seq![':']) {
                Some(k) => r.push(MemoryBlockView { name: trim(l.take(k)), size: trim(l.skip(k + 1)) }),
                None => r,
            }
        } else {
            r
        }
    }
}

proof fn lemma_join_push(items: Seq<Seq<char>>, x: Seq<char>, sep: Seq<char>)
    ensures
        join(items.push(x), sep) == if items.len() == 0 {
            x
        } else {
            join(items, sep) + sep + x
        },
{
    assert(items.push(x).drop_last() =~= items);
    if items.len() == 0 {
        assert(items.push(x)[0] == x);
    }
}

proof fn lemma_join_nonempty(items: Seq<Seq<char>>, sep: Seq<char>)
    requires
        items.len() > 0,
        items.last().len() > 0,
    ensures
        join(items, sep).len() > 0,
{
    if items.len() == 1 {
        assert(items[0] == items.last());
    }
}

proof fn lemma_trimmed_pieces_nonempty(ps: Seq<Seq<char>>)
    ensures
        forall|i: int|
            0 <= i < trimmed_nonempty(ps).len() ==> (#[trigger] trimmed_nonempty(ps)[i]).len() > 0,
    decreases ps.len(),
{
    if ps.len() > 0 {
        lemma_trimmed_pieces_nonempty(ps.drop_last());
        let r = trimmed_nonempty(ps.drop_last());
        assert forall|i: int| 0 <= i < trimmed_nonempty(ps).len() implies (
        #[trigger] trimmed_nonempty(ps)[i]).len() > 0 by {
            if i < r.len() {
                assert(trimmed_nonempty(ps)[i] == r[i]);
            }
        }
    }
}

/// What one line does to the description and to the memory blocks.
proof fn lemma_step_sections(st: ParseState, line: Seq<char>)
    requires
        step(st, line) is Ok,
    ensures
        ({
            let s2 = step(st, line)->Ok_0;
            let read = read_in_section(line);
            &&& s2.def.description == if read && st.section == Section::Description {
                if st.def.description.len() == 0 {
                    line
                } else {
                    st.def.description.push('\n') + line
                }
            } else {
                st.def.description
            }
            &&& s2.def.memory_blocks == if read && st.section == Section::Memory {
                match find_first(line, seq![':']) {
                    Some(k) => st.def.memory_blocks.push(
                        MemoryBlockView { name: trim(line.take(k)), size: trim(line.skip(k + 1)) },
                    ),
                    None => st.def.memory_blocks,
                }
            } else {
                st.def.memory_blocks
            }
        }),
{
}

proof fn lemma_run_sections(lines: Seq<Seq<char>>)
    requires
        forall|i: int| 0 <= i < lines.len() ==> (#[trigger] lines[i]).len() > 0,
    ensures
        description_lines(lines).len() > 0 ==> description_lines(lines).last().len() > 0,
        run(initial_state(), lines) matches Ok(st) ==> {
            &&& st.def.description == join(description_lines(lines), seq!['\n'])
            &&& st.def.memory_blocks == declared_blocks(lines)
        },
    decreases lines.len(),
{
    let sep = seq!['\n'];
    if lines.len() == 0 {
        assert(join(Seq::<Seq<char>>::empty(), sep) =~= Seq::<char>::empty());
    } else {
        let p = lines.drop_last();
        let l = lines.last();
        assert forall|i: int| 0 <= i < p.len() implies (#[trigger] p[i]).len() > 0 by {
            assert(p[i] == lines[i]);
        }
        assert(l.len() > 0);
        lemma_run_sections(p);
        lemma_run_modules(p);
        let r = description_lines(p);
        match run(initial_state(), p) {
            Ok(s) => {
                if step(s, l) is Ok {
                    lemma_step_sections(s, l);
                    lemma_join_push(r, l, sep);
                    if r.len() > 0 {
                        lemma_join_nonempty(r, sep);
                    }
                    assert(s.def.description.push('\n') + l =~= s.def.description + sep + l);
                }
            },
            Err(e) => {},
        }
    }
}

/// The description of a parsed definition is the lines read in its `Description:` sections,
/// in order, with one line break between each two of them, whatever they end with.
pub proof fn law_description_is_its_lines(content: Seq<char>)
    ensures
        parse_spec(content) matches Ok(d) ==> d.description == join(
            description_lines(content_lines(content)),
            seq!['\n'],
        ),
{
    lemma_trimmed_pieces_nonempty(split_on(content, '\n'));
    lemma_run_sections(content_lines(content));
}

/// The memory blocks of a parsed definition, of either kind, are the blocks that the lines
/// read in its `Memory:` sections declare, in order.
pub proof fn law_memory_blocks_are_declared(content: Seq<char>)
    ensures
        parse_spec(content) matches Ok(d) ==> d.memory_blocks == declared_blocks(
            content_lines(content),
        ),
{
    lemma_trimmed_pieces_nonempty(split_on(content, '\n'));
    lemma_run_sections(content_lines(content));
}

/// The goals that the lines read in `Architecture Goals:` sections state, in order: one for
/// each such line that starts with `- `, the text after it, trimmed.
pub open spec fn stated_goals(lines: Seq<Seq<char>>) -> Seq<Seq<char>>
    decreases lines.len(),
{
    if lines.len() == 0 {
        Seq::empty()
    } else {
        let r = stated_goals(lines.drop_last());
        let l = lines.last();
        if section_after(lines.drop_last()) == Section::Goals && read_in_section(l) && starts_with(
            l,
            "- "@,
        ) {
            r.push(trim(l.skip(2)))
        } else {
            r
        }
    }
}

/// The lines read in `Connect:` sections, in order.
pub open spec fn connect_lines(lines: Seq<Seq<char>>) -> Seq<Seq<char>>
    decreases lines.len(),
{
    if lines.len() == 0 {
        Seq::empty()
    } else {
        let r = connect_lines(lines.drop_last());
        if section_after(lines.drop_last()) == Section::Connect && read_in_section(lines.last()) {
            r.push(lines.last())
        } else {
            r
        }
    }
}

/// The text after `label` on the last of `lines` that starts with it, with every `label`
/// removed and trimmed, if one does.
pub open spec fn last_labelled(lines: Seq<Seq<char>>, label: Seq<char>) -> Option<Seq<char>>
    decreases lines.len(),
{
    if lines.len() == 0 {
        None
    } else if starts_with(lines.last(), label) {
        Some(trim(remove_all(lines.last(), label)))
    } else {
        last_labelled(lines.drop_last(), label)
    }
}

/// A `Full Name:` line is no `IMPORT` line and no header; an `Output:` line is none of
/// these and no section label either.
proof fn lemma_field_label_kinds(line: Seq<char>)
    ensures
        starts_with(line, "Full Name:"@) ==> !is_import(line) && !is_header(line),
        starts_with(line, "Output:"@) ==> !is_import(line) && !is_header(line) && !starts_with(
            line,
            "Full Name:"@,
        ) && section_label(line) is None,
{
    lemma_reveal_labels();
    let ls = seq![
        "IMPORT "@,
        "# CHIP v2"@,
        "# MEMORY v2"@,
        "Full Name:"@,
        "Description:"@,
        "Architecture Goals:"@,
        "Modules:"@,
        "Instantiate:"@,
        "Connect:"@,
        "Memory:"@,
        "Output:"@,
    ];
    assert forall|i: int, j: int|
        0 <= i < ls.len() && 0 <= j < ls.len() && ls[i][0] != ls[j][0] && starts_with(
            line,
            #[trigger] ls[i],
        ) implies !starts_with(line, #[trigger] ls[j]) by {
        lemma_char_at(line, ls[i], 0);
        if starts_with(line, ls[j]) {
            lemma_char_at(line, ls[j], 0);
        }
    }
    if starts_with(line, ls[3]) {
        assert(!starts_with(line, ls[0]));
        assert(!starts_with(line, ls[1]));
        assert(!starts_with(line, ls[2]));
    }
    if starts_with(line, ls[10]) {
        assert(!starts_with(line, ls[0]));
        assert(!starts_with(line, ls[1]));
        assert(!starts_with(line, ls[2]));
        assert(!starts_with(line, ls[3]));
        assert(!starts_with(line, ls[4]));
        assert(!starts_with(line, ls[5]));
        assert(!starts_with(line, ls[6]));
        assert(!starts_with(line, ls[7]));
        assert(!starts_with(line, ls[8]));
        assert(!starts_with(line, ls[9]));
    }
}

/// What one line does to the goals, the connections, the full name and the output.
proof fn lemma_step_other_parts(st: ParseState, line: Seq<char>)
    requires
        step(st, line) is Ok,
    ensures
        ({
            let s2 = step(st, line)->Ok_0;
            let read = read_in_section(line);
            &&& s2.def.goals == if read && st.section == Section::Goals && starts_with(
                line,
                "- "@,
            ) {
                st.def.goals.push(trim(line.skip(2)))
            } else {
                st.def.goals
            }
            &&& s2.def.connect == if read && st.section == Section::Connect {
                st.def.connect.push(line)
            } else {
                st.def.connect
            }
            &&& s2.def.full_name == if starts_with(line, "Full Name:"@) {
                Some(trim(remove_all(line, "Full Name:"@)))
            } else {
                st.def.full_name
            }
            &&& s2.def.output == if starts_with(line, "Output:"@) {
                trim(remove_all(line, "Output:"@))
            } else {
                st.def.output
            }
        }),
{
    lemma_field_label_kinds(line);
}

proof fn lemma_run_other_parts(lines: Seq<Seq<char>>)
    ensures
        run(initial_state(), lines) matches Ok(st) ==> {
            &&& st.def.goals == stated_goals(lines)
            &&& st.def.connect == connect_lines(lines)
            &&& st.def.full_name == last_labelled(lines, "Full Name:"@)
            &&& st.def.output == match last_labelled(lines, "Output:"@) {
                Some(o) => o,
                None => Seq::empty(),
            }
        },
    decreases lines.len(),
{
    if lines.len() > 0 {
        let p = lines.drop_last();
        let l = lines.last();
        lemma_run_other_parts(p);
        lemma_run_modules(p);
        match run(initial_state(), p) {
            Ok(s) => {
                if step(s, l) is Ok {
                    lemma_step_other_parts(s, l);
                }
            },
            Err(e) => {},
        }
    }
}

/// The goals of a parsed definition are those that the lines read in its
/// `Architecture Goals:` sections state, in order; its connections are the lines read in
/// its `Connect:` sections, in order; its full name is given by its last `Full Name:` line
/// and its output by its last `Output:` line (empty where there is none).
pub proof fn law_goals_connections_and_names(content: Seq<char>)
    ensures
        parse_spec(content) matches Ok(d) ==> {
            let lines = content_lines(content);
            &&& d.goals == stated_goals(lines)
            &&& d.connect == connect_lines(lines)
            &&& d.full_name == last_labelled(lines, "Full Name:"@)
            &&& d.output == match last_labelled(lines, "Output:"@) {
                Some(o) => o,
                None => Seq::empty(),
            }
        },
{
    lemma_run_other_parts(content_lines(content));
}

/// Removing a pattern that occurs nowhere leaves a text as it is.
proof fn lemma_remove_absent(s: Seq<char>, p: Seq<char>)
    requires
        p.len() > 0,
        forall|j: int| !#[trigger] occurs_at(s, p, j),
    ensures
        remove_all(s, p) == s,
    decreases s.len(),
{
    if s.len() > 0 {
        assert(!starts_with(s, p)) by {
            if starts_with(s, p) {
                assert(s.subrange(0, p.len() as int) =~= s.take(p.len() as int));
                assert(occurs_at(s, p, 0));
            }
        }
        let t = s.drop_first();
        assert forall|j: int| !#[trigger] occurs_at(t, p, j) by {
            if occurs_at(t, p, j) {
                assert(s.subrange(j + 1, j + 1 + p.len()) =~= t.subrange(j, j + p.len()));
                assert(occurs_at(s, p, j + 1));
            }
        }
        lemma_remove_absent(t, p);
        assert(seq![s[0]] + t =~= s);
    }
}

/// Removing a label from a text that starts with it and holds it nowhere else leaves the
/// text that follows the label.
pub proof fn law_remove_leading_label(label: Seq<char>, rest: Seq<char>)
    requires
        label.len() > 0,
        forall|j: int| !#[trigger] occurs_at(rest, label, j),
    ensures
        remove_all(label + rest, label) == rest,
{
    let s = label + rest;
    assert(s.take(label.len() as int) =~= label);
    assert(s.skip(label.len() as int) =~= rest);
    lemma_remove_absent(rest, label);
}

/// A `Define module <name>:` line, where `<name>` holds no colon and no `Define module `,
/// names its module by `<name>`, trimmed.
pub proof fn law_module_name(name: Seq<char>)
    requires
        !name.contains(':'),
        forall|j: int| !#[trigger] occurs_at(name, "Define module "@, j),
    ensures
        module_name_of("Define module "@ + name + seq![':']) == trim(name),
{
    reveal_strlit("Define module ");
    let dm = "Define module "@;
    let tail = name + seq![':'];
    let line = dm + tail;
    assert(line.take(14) =~= dm);
    assert(line.skip(14) =~= tail);
    assert(remove_all(line, dm) == remove_all(tail, dm));
    assert forall|j: int| !#[trigger] occurs_at(tail, dm, j) by {
        if occurs_at(tail, dm, j) {
            if j + 14 <= name.len() {
                assert(tail.subrange(j, j + 14) =~= name.subrange(j, j + 14));
                assert(occurs_at(name, dm, j));
            } else {
                assert(tail.subrange(j, j + 14)[13] == tail[j + 13]);
                assert(tail[name.len() as int] == ':');
            }
        }
    }
    lemma_remove_absent(tail, dm);
    lemma_remove_before_last(name, ':');
    assert(dm + name + seq![':'] =~= line);
}

/// Removing a character from a text that holds it only at its end drops that end.
proof fn lemma_remove_before_last(a: Seq<char>, c: char)
    requires
        !a.contains(c),
    ensures
        remove_all(a + seq![c], seq![c]) == a,
    decreases a.len(),
{
    let s = a + seq![c];
    if a.len() == 0 {
        assert(s =~= seq![c]);
        assert(s.take(1) =~= seq![c]);
        assert(s.skip(1) =~= Seq::<char>::empty());
        assert(remove_all(Seq::<char>::empty(), seq![c]) == Seq::<char>::empty());
        assert(starts_with(s, seq![c]));
    } else {
        assert(s[0] == a[0]);
        assert(!starts_with(s, seq![c])) by {
            if starts_with(s, seq![c]) {
                assert(s.take(1)[0] == s[0]);
                assert(a.contains(a[0]));
            }
        }
        let t = a.drop_first();
        assert(!t.contains(c)) by {
            if t.contains(c) {
                let i = choose|i: int| 0 <= i < t.len() && t[i] == c;
                assert(a[i + 1] == c);
            }
        }
        lemma_remove_before_last(t, c);
        assert(s.drop_first() =~= t + seq![c]);
        assert(remove_all(s, seq![c]) == seq![s[0]] + remove_all(s.drop_first(), seq![c]));
        assert(seq![a[0]] + t =~= a);
    }
}

/// A line that starts with a section label opens that section: `Description:`,
/// `Architecture Goals:`, `Modules:`, `Instantiate:`, `Connect:` or `Memory:`; any other
/// line opens none.
pub proof fn law_section_labels(line: Seq<char>)
    ensures
        starts_with(line, "Description:"@) ==> section_label(line) == Some(Section::Description),
        starts_with(line, "Architecture Goals:"@) ==> section_label(line) == Some(Section::Goals),
        starts_with(line, "Modules:"@) ==> section_label(line) == Some(Section::Modules),
        starts_with(line, "Instantiate:"@) ==> section_label(line) == Some(Section::Instantiate),
        starts_with(line, "Connect:"@) ==> section_label(line) == Some(Section::Connect),
        starts_with(line, "Memory:"@) ==> section_label(line) == Some(Section::Memory),
        !starts_with(line, "Description:"@) && !starts_with(line, "Architecture Goals:"@)
            && !starts_with(line, "Modules:"@) && !starts_with(line, "Instantiate:"@)
            && !starts_with(line, "Connect:"@) && !starts_with(line, "Memory:"@) ==> section_label(
            line,
        ) is None,
{
    reveal_strlit("Description:");
    reveal_strlit("Architecture Goals:");
    reveal_strlit("Modules:");
    reveal_strlit("Instantiate:");
    reveal_strlit("Connect:");
    reveal_strlit("Memory:");
    let ls = seq![
        "Description:"@,
        "Architecture Goals:"@,
        "Modules:"@,
        "Instantiate:"@,
        "Connect:"@,
        "Memory:"@,
    ];
    assert forall|i: int, j: int|
        0 <= i < ls.len() && 0 <= j < ls.len() && i != j && starts_with(
            line,
            #[trigger] ls[i],
        ) implies !starts_with(line, #[trigger] ls[j]) by {
        lemma_char_at(line, ls[i], 0);
        lemma_char_at(line, ls[i], 1);
        if starts_with(line, ls[j]) {
            lemma_char_at(line, ls[j], 0);
            lemma_char_at(line, ls[j], 1);
        }
    }
    assert(ls[0] == "Description:"@);
    assert(ls[1] == "Architecture Goals:"@);
    assert(ls[2] == "Modules:"@);
    assert(ls[3] == "Instantiate:"@);
    assert(ls[4] == "Connect:"@);
    assert(ls[5] == "Memory:"@);
}

/// A section label is no `IMPORT` line, no header and no `Full Name:` line.
proof fn lemma_label_kinds(line: Seq<char>)
    requires
        section_label(line) is Some,
    ensures
        !is_import(line),
        !is_header(line),
        !starts_with(line, "Full Name:"@),
{
    lemma_reveal_labels();
    let ls = seq![
        "IMPORT "@,
        "# CHIP v2"@,
        "# MEMORY v2"@,
        "Full Name:"@,
        "Description:"@,
        "Architecture Goals:"@,
        "Modules:"@,
        "Instantiate:"@,
        "Connect:"@,
        "Memory:"@,
    ];
    assert forall|i: int, j: int|
        0 <= i < ls.len() && 0 <= j < ls.len() && (ls[i][0] != ls[j][0] || ls[i][1] != ls[j][1])
            && starts_with(line, #[trigger] ls[i]) implies !starts_with(line, #[trigger] ls[j]) by {
        lemma_char_at(line, ls[i], 0);
        lemma_char_at(line, ls[i], 1);
        if starts_with(line, ls[j]) {
            lemma_char_at(line, ls[j], 0);
            lemma_char_at(line, ls[j], 1);
        }
    }
    let k: int = if starts_with(line, ls[4]) {
        4
    } else if starts_with(line, ls[5]) {
        5
    } else if starts_with(line, ls[6]) {
        6
    } else if starts_with(line, ls[7]) {
        7
    } else if starts_with(line, ls[8]) {
        8
    } else {
        9
    };
    assert(starts_with(line, ls[k]));
    assert(!starts_with(line, ls[0]));
    assert(!starts_with(line, ls[1]));
    assert(!starts_with(line, ls[2]));
    assert(!starts_with(line, ls[3]));
}

/// A section label or an `Output:` line closes the open module: the module joins, unchanged,
/// those closed before it, and no module is open after the line.
pub proof fn law_labels_close_open_module(st: ParseState, line: Seq<char>, m: ModuleView)
    requires
        st.current == Some(m),
        section_label(line) is Some || starts_with(line, "Output:"@),
    ensures
        step(st, line) is Ok,
        step(st, line)->Ok_0.def.modules == st.def.modules.push(m),
        step(st, line)->Ok_0.current is None,
{
    lemma_field_label_kinds(line);
    if section_label(line) is Some {
        lemma_label_kinds(line);
    }
}

/// In a `Modules:` section, a `Define module` line closes the open module, if any, joining it
/// unchanged after the modules closed before it, and opens a module named by the line, with
/// no summary and no operations, inputs or outputs.
pub proof fn law_define_line_step(st: ParseState, line: Seq<char>)
    requires
        st.section == Section::Modules,
        starts_with(line, "Define module "@),
    ensures
        step(st, line) == Ok::<ParseState, ParseFailure>(
            ParseState {
                def: DefinitionView {
                    modules: match st.current {
                        Some(m) => st.def.modules.push(m),
                        None => st.def.modules,
                    },
                    ..st.def
                },
                current: Some(
                    ModuleView {
                        name: module_name_of(line),
                        summary: None,
                        operations: Seq::empty(),
                        inputs: Seq::empty(),
                        outputs: Seq::empty(),
                    },
                ),
                ..st
            },
        ),
{
    lemma_define_line_kind(line);
}

/// Once the last line is read, the module still open joins the others, unchanged, and the
/// definition is the one read, provided that a header named it.
pub proof fn law_last_module_kept(content: Seq<char>)
    ensures
        run(initial_state(), content_lines(content)) matches Ok(st) ==> parse_spec(content) == if st.def.name.len() > 0 {
            Ok::<DefinitionView, ParseFailure>(
                DefinitionView {
                    modules: match st.current {
                        Some(m) => st.def.modules.push(m),
                        None => st.def.modules,
                    },
                    ..st.def
                },
            )
        } else {
            Err(ParseFailure::MissingHeader)
        },
{
}

} // verus!
