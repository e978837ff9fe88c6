//! Properties of the parser and the import walk that hold for every input.

use vstd::prelude::*;

use crate::imports::{
    advance, cycle_message, enter_spec, import_target, load_spec, raw_lines, stack_paths,
    with_imported, ActionView, FrameView,
};
use crate::model::DefinitionView;
use crate::text::trim;
use crate::parser::{
    content_lines, header_count, initial_state, is_header, is_import, no_imports, parse_spec,
    run, step, ParseFailure, ParseState,
};

verus! {

/// What reading one line does to the header bookkeeping.
proof fn lemma_step_headers(st: ParseState, line: Seq<char>)
    ensures
        is_import(line) ==> step(st, line) == Err::<ParseState, ParseFailure>(
            ParseFailure::UnresolvedImport,
        ),
        !is_import(line) && is_header(line) && st.header_seen ==> step(st, line) == Err::<
            ParseState,
            ParseFailure,
        >(ParseFailure::MultipleHeaders),
        !is_import(line) && is_header(line) && !st.header_seen ==> (step(st, line) matches Ok(s2)
            && s2.header_seen && (s2.def.kind == "CHIP"@ || s2.def.kind == "MEMORY"@)),
        !is_import(line) && !is_header(line) ==> (step(st, line) matches Ok(s2) && s2.header_seen
            == st.header_seen && s2.def.kind == st.def.kind && s2.def.name == st.def.name),
{
}

/// The header bookkeeping of a run over `lines`.
pub proof fn lemma_run_headers(lines: Seq<Seq<char>>)
    ensures
        run(initial_state(), lines) is Ok <==> (no_imports(lines) && header_count(lines) <= 1),
        run(initial_state(), lines) matches Ok(st) ==> {
            &&& st.header_seen == (header_count(lines) == 1)
            &&& (st.def.kind == "CHIP"@ || st.def.kind == "MEMORY"@)
            &&& (!st.header_seen ==> st.def.name.len() == 0)
        },
        no_imports(lines) && header_count(lines) >= 2 ==> run(initial_state(), lines) == Err::<
            ParseState,
            ParseFailure,
        >(ParseFailure::MultipleHeaders),
    decreases lines.len(),
{
    if lines.len() > 0 {
        let init = lines.drop_last();
        lemma_run_headers(init);
        if no_imports(lines) {
            assert forall|i: int| 0 <= i < init.len() implies !is_import(#[trigger] init[i]) by {
                assert(init[i] == lines[i]);
            }
        }
        if no_imports(init) && !is_import(lines.last()) {
            assert forall|i: int| 0 <= i < lines.len() implies !is_import(#[trigger] lines[i]) by {
                if i < init.len() {
                    assert(init[i] == lines[i]);
                }
            }
        }
        match run(initial_state(), init) {
            Ok(st) => lemma_step_headers(st, lines.last()),
            Err(e) => {},
        }
    }
}

/// A description that parses has exactly one header line and no `IMPORT` line, and it
/// is a `CHIP` or a `MEMORY` with a non-empty name.
pub proof fn law_parsed_has_one_header(content: Seq<char>)
    ensures
        parse_spec(content) matches Ok(d) ==> {
            &&& header_count(content_lines(content)) == 1
            &&& no_imports(content_lines(content))
            &&& (d.kind == "CHIP"@ || d.kind == "MEMORY"@)
            &&& d.name.len() > 0
        },
{
    lemma_run_headers(content_lines(content));
}

/// A description without a header line and without `IMPORT` lines is rejected for its
/// missing header.
pub proof fn law_missing_header_rejected(content: Seq<char>)
    requires
        no_imports(content_lines(content)),
        header_count(content_lines(content)) == 0,
    ensures
        parse_spec(content) == Err::<DefinitionView, ParseFailure>(ParseFailure::MissingHeader),
{
    lemma_run_headers(content_lines(content));
}

/// A description with two or more header lines and no `IMPORT` line is rejected for its
/// multiple headers, as a file whose imports bring in a second header is.
pub proof fn law_multiple_headers_rejected(content: Seq<char>)
    requires
        no_imports(content_lines(content)),
        header_count(content_lines(content)) >= 2,
    ensures
        parse_spec(content) == Err::<DefinitionView, ParseFailure>(
            ParseFailure::MultipleHeaders,
        ),
{
    lemma_run_headers(content_lines(content));
}

/// A description with an `IMPORT` line is never parsed: its imports must be resolved first.
pub proof fn law_unresolved_import_rejected(content: Seq<char>, i: int)
    requires
        0 <= i < content_lines(content).len(),
        is_import(content_lines(content)[i]),
    ensures
        parse_spec(content) is Err,
{
    lemma_run_headers(content_lines(content));
}


/// Each line followed by a newline, in order.
pub open spec fn newline_joined(lines: Seq<Seq<char>>) -> Seq<char>
    decreases lines.len(),
{
    if lines.len() == 0 {
        Seq::empty()
    } else {
        lines[0].push('\n') + newline_joined(lines.drop_first())
    }
}

/// Whether none of `lines` is an `IMPORT` line once trimmed.
pub open spec fn plain_lines(lines: Seq<Seq<char>>) -> bool {
    forall|i: int| 0 <= i < lines.len() ==> import_target(trim(#[trigger] lines[i])) is None
}

/// Reading on through lines that import nothing copies them to the top frame's text.
proof fn lemma_advance_plain_run(fs: Seq<FrameView>, j: int)
    requires
        fs.len() > 0,
        fs.last().next <= j <= fs.last().lines.len(),
        plain_lines(fs.last().lines.subrange(fs.last().next as int, j)),
    ensures
        advance(fs) == advance(
            fs.update(
                fs.len() - 1,
                FrameView {
                    next: j as nat,
                    output: fs.last().output + newline_joined(
                        fs.last().lines.subrange(fs.last().next as int, j),
                    ),
                    ..fs.last()
                },
            ),
        ),
    decreases j - fs.last().next,
{
    let top = fs.last();
    let sub = top.lines.subrange(top.next as int, j);
    if top.next == j {
        assert(sub =~= Seq::<Seq<char>>::empty());
        assert(top.output + newline_joined(sub) =~= top.output);
        assert(fs.update(fs.len() - 1, FrameView { next: j as nat, output: top.output, ..top })
            =~= fs);
    } else {
        let line = top.lines[top.next as int];
        assert(sub[0] == line);
        let f2 = FrameView { next: top.next + 1, output: top.output + line.push('\n'), ..top };
        let fs2 = fs.update(fs.len() - 1, f2);
        assert(fs2.last() == f2);
        let sub2 = top.lines.subrange(top.next + 1int, j);
        assert(sub.drop_first() =~= sub2);
        assert forall|i: int| 0 <= i < sub2.len() implies import_target(trim(#[trigger] sub2[i]))
            is None by {
            assert(sub2[i] == sub[i + 1]);
        }
        lemma_advance_plain_run(fs2, j);
        assert(f2.output + newline_joined(sub2) =~= top.output + newline_joined(sub));
        assert(fs2.update(
            fs.len() - 1,
            FrameView { next: j as nat, output: f2.output + newline_joined(sub2), ..f2 },
        ) =~= fs.update(
            fs.len() - 1,
            FrameView { next: j as nat, output: top.output + newline_joined(sub), ..top },
        ));
    }
}

/// Entering a file that is already on the stack leaves the stack as it is and fails with
/// the message `Import cycle detected: ` followed by the stack and the file, joined by
/// ` -> `.
pub proof fn law_import_cycle_rejected(fs: Seq<FrameView>, path: Seq<char>)
    requires
        stack_paths(fs).contains(path),
    ensures
        enter_spec(fs, path) == (fs, ActionView::Fail(cycle_message(stack_paths(fs), path))),
        cycle_message(stack_paths(fs), path).take("Import cycle detected: "@.len() as int)
            == "Import cycle detected: "@,
{
    let head = "Import cycle detected: "@;
    let rest = crate::imports::join(stack_paths(fs).push(path), " -> "@);
    assert((head + rest).take(head.len() as int) =~= head);
}

/// A file without `IMPORT` lines resolves to its own lines, each followed by a newline.
pub proof fn law_plain_file_resolves_to_its_lines(path: Seq<char>, content: Seq<char>)
    requires
        plain_lines(raw_lines(content)),
    ensures
        enter_spec(Seq::empty(), path).1 == ActionView::Read(path),
        load_spec(enter_spec(Seq::empty(), path).0, content) == (
            Seq::<FrameView>::empty(),
            ActionView::Done(newline_joined(raw_lines(content))),
        ),
{
    let fs1 = enter_spec(Seq::empty(), path).0;
    assert(!stack_paths(Seq::<FrameView>::empty()).contains(path));
    let lines = raw_lines(content);
    let f = FrameView { lines, next: 0, ..fs1.last() };
    let fs = fs1.update(fs1.len() - 1, f);
    assert(lines.subrange(0, lines.len() as int) =~= lines);
    lemma_advance_plain_run(fs, lines.len() as int);
    let done = fs.update(
        fs.len() - 1,
        FrameView { next: lines.len() as nat, output: newline_joined(lines), ..f },
    );
    assert(Seq::<char>::empty() + newline_joined(lines) =~= newline_joined(lines));
    assert(done.len() == 1);
}

/// An `IMPORT` line whose file is found and imports nothing is replaced by that file's
/// lines: the walk reads the first file, asks for the imported one to be located, reads it,
/// and ends with the first file's lines around the imported lines (a newline is added
/// after the imported text unless it ends with one).
pub proof fn law_import_is_inlined(
    root: Seq<char>,
    root_content: Seq<char>,
    k: int,
    target: Seq<char>,
    imported: Seq<char>,
    imported_content: Seq<char>,
)
    requires
        0 <= k < raw_lines(root_content).len(),
        plain_lines(raw_lines(root_content).take(k)),
        import_target(trim(raw_lines(root_content)[k])) == Some(target),
        plain_lines(raw_lines(root_content).skip(k + 1)),
        imported != root,
        plain_lines(raw_lines(imported_content)),
    ensures
        ({
            let (fs1, a1) = enter_spec(Seq::empty(), root);
            let (fs2, a2) = load_spec(fs1, root_content);
            let (fs3, a3) = enter_spec(fs2, imported);
            let (fs4, a4) = load_spec(fs3, imported_content);
            &&& a1 == ActionView::Read(root)
            &&& a2 == ActionView::Locate(root, target)
            &&& a3 == ActionView::Read(imported)
            &&& fs4 == Seq::<FrameView>::empty()
            &&& a4 == ActionView::Done(
                with_imported(
                    newline_joined(raw_lines(root_content).take(k)),
                    newline_joined(raw_lines(imported_content)),
                ) + newline_joined(raw_lines(root_content).skip(k + 1)),
            )
        }),
{
    let lines = raw_lines(root_content);
    let (fs1, a1) = enter_spec(Seq::empty(), root);
    assert(!stack_paths(Seq::<FrameView>::empty()).contains(root));
    let r0 = FrameView { lines, next: 0, ..fs1.last() };
    let fsa = fs1.update(fs1.len() - 1, r0);
    assert(lines.subrange(0, k) =~= lines.take(k));
    lemma_advance_plain_run(fsa, k);
    let before = newline_joined(lines.take(k));
    assert(Seq::<char>::empty() + before =~= before);
    let r1 = FrameView { next: k as nat, output: before, ..r0 };
    let fsb = fsa.update(fsa.len() - 1, r1);
    assert(fsb.last() == r1);
    let (fs2, a2) = load_spec(fs1, root_content);
    let r2 = FrameView { next: (k + 1) as nat, ..r1 };
    assert(fs2 == fsb.update(fsb.len() - 1, r2));
    assert(fs2 =~= seq![r2]);
    let (fs3, a3) = enter_spec(fs2, imported);
    assert(stack_paths(fs2) =~= seq![root]);
    assert(!stack_paths(fs2).contains(imported)) by {
        if stack_paths(fs2).contains(imported) {
            let i = choose|i: int| 0 <= i < stack_paths(fs2).len() && stack_paths(fs2)[i] == imported;
            assert(stack_paths(fs2)[i] == root);
        }
    }
    let ilines = raw_lines(imported_content);
    let e0 = FrameView { path: imported, lines: Seq::empty(), next: 0, output: Seq::empty() };
    assert(fs3 == fs2.push(e0));
    let e1 = FrameView { lines: ilines, next: 0, ..e0 };
    let fsc = fs3.update(fs3.len() - 1, e1);
    assert(ilines.subrange(0, ilines.len() as int) =~= ilines);
    lemma_advance_plain_run(fsc, ilines.len() as int);
    let inner = newline_joined(ilines);
    assert(Seq::<char>::empty() + inner =~= inner);
    let e2 = FrameView { next: ilines.len() as nat, output: inner, ..e1 };
    let fsd = fsc.update(fsc.len() - 1, e2);
    assert(fsd.len() == 2);
    assert(fsd.last() == e2);
    assert(fsd.drop_last() =~= seq![r2]);
    let r3 = FrameView { output: with_imported(before, inner), ..r2 };
    let fse = seq![r2].update(0, r3);
    assert(fse =~= seq![r3]);
    assert(advance(fsd) == advance(fse));
    let after = lines.subrange(k + 1, lines.len() as int);
    assert(after =~= lines.skip(k + 1));
    lemma_advance_plain_run(fse, lines.len() as int);
    let r4 = FrameView {
        next: lines.len() as nat,
        output: with_imported(before, inner) + newline_joined(after),
        ..r3
    };
    let fsf = fse.update(0, r4);
    assert(fsf.len() == 1);
    assert(fsf.last() == r4);
}


/// Whether no path occurs twice on the stack.
pub open spec fn distinct_paths(fs: Seq<FrameView>) -> bool {
    forall|i: int, j: int|
        0 <= i < j < fs.len() ==> #[trigger] fs[i].path != #[trigger] fs[j].path
}

/// Reading on never pushes a file: it keeps a bottom part of the stack, with the same
/// paths, closing the files it finishes. It stops either at an `IMPORT` line of the file
/// then on top, which it asks to have located, or with the first file finished and the
/// stack empty.
pub proof fn law_reading_on_pops_finished_files(fs: Seq<FrameView>)
    ensures
        advance(fs).0.len() <= fs.len(),
        forall|i: int| 0 <= i < advance(fs).0.len() ==> #[trigger] advance(fs).0[i].path == fs[i].path,
        advance(fs).1 is Done ==> advance(fs).0.len() == 0,
        advance(fs).1 is Locate || advance(fs).1 is Done,
        advance(fs).1 matches ActionView::Locate(from, t) ==> advance(fs).0.len() > 0
            && advance(fs).0.last().path == from,
    decreases crate::imports::pending(fs),
{
    if fs.len() > 0 {
        let top = fs.last();
        if top.next < top.lines.len() {
            let line = top.lines[top.next as int];
            let moved = FrameView { next: top.next + 1, ..top };
            match import_target(trim(line)) {
                Some(t) => {},
                None => {
                    let f2 = FrameView { output: top.output + line.push('\n'), ..moved };
                    crate::imports::lemma_pending_update_last(fs, f2);
                    let fs2 = fs.update(fs.len() - 1, f2);
                    law_reading_on_pops_finished_files(fs2);
                    assert forall|i: int| 0 <= i < advance(fs).0.len() implies #[trigger] advance(
                        fs,
                    ).0[i].path == fs[i].path by {
                        assert(fs2[i].path == fs[i].path);
                    }
                },
            }
        } else if fs.len() > 1 {
            let rest = fs.drop_last();
            let parent = rest.last();
            let p2 = FrameView { output: with_imported(parent.output, top.output), ..parent };
            crate::imports::lemma_pending_update_last(rest, p2);
            assert(crate::imports::pending(rest) == crate::imports::pending(rest.drop_last())
                + crate::imports::remaining(parent) + 1);
            let fs2 = rest.update(rest.len() - 1, p2);
            law_reading_on_pops_finished_files(fs2);
            assert forall|i: int| 0 <= i < advance(fs).0.len() implies #[trigger] advance(
                fs,
            ).0[i].path == fs[i].path by {
                assert(fs2[i].path == fs[i].path);
            }
        }
    }
}

/// The walk never holds the same file twice on its stack: entering a file and reading
/// on both keep the paths on the stack distinct, which is what makes every cycle of
/// imports end in a failure instead of a walk without end.
pub proof fn law_stack_paths_stay_distinct(fs: Seq<FrameView>, path: Seq<char>, content: Seq<char>)
    requires
        distinct_paths(fs),
    ensures
        distinct_paths(enter_spec(fs, path).0),
        fs.len() > 0 ==> distinct_paths(load_spec(fs, content).0),
{
    if !stack_paths(fs).contains(path) {
        let fs1 = enter_spec(fs, path).0;
        assert forall|i: int, j: int| 0 <= i < j < fs1.len() implies #[trigger] fs1[i].path
            != #[trigger] fs1[j].path by {
            if j == fs.len() {
                assert(stack_paths(fs)[i] == fs[i].path);
            } else {
                assert(fs1[i] == fs[i]);
                assert(fs1[j] == fs[j]);
            }
        }
    }
    if fs.len() > 0 {
        let f = FrameView { lines: raw_lines(content), next: 0, ..fs.last() };
        let fs2 = fs.update(fs.len() - 1, f);
        law_reading_on_pops_finished_files(fs2);
        let r = load_spec(fs, content).0;
        assert forall|i: int, j: int| 0 <= i < j < r.len() implies #[trigger] r[i].path
            != #[trigger] r[j].path by {
            assert(r[i].path == fs2[i].path);
            assert(r[j].path == fs2[j].path);
            assert(fs2[i].path == fs[i].path);
            assert(fs2[j].path == fs[j].path);
        }
    }
}

} // verus!
