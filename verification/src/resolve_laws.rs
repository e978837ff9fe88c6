//! The text that the import walk hands out holds no `IMPORT` line.

use vstd::prelude::*;

use crate::imports::{
    advance, enter_spec, import_target, load_spec, raw_lines, strip_cr, with_imported,
    ActionView, FrameView,
};
use crate::model::DefinitionView;
use crate::parser::{content_lines, is_import, no_imports, parse_spec, ParseFailure};
use crate::text_laws::law_trim_is_inner_part;
use crate::text::{
    is_ws, lemma_split_on_nonempty, split_on, starts_with, trim, trim_end, trim_start,
    trimmed_nonempty,
};

verus! {

/// Whether `s` holds no `c`.
pub open spec fn free_of(s: Seq<char>, c: char) -> bool {
    forall|i: int| 0 <= i < s.len() ==> s[i] != c
}

/// Whether a text is made of whole lines, each followed by a newline, none of which is an
/// `IMPORT` line once trimmed.
pub open spec fn clean_text(o: Seq<char>) -> bool {
    &&& (o.len() == 0 || o.last() == '\n')
    &&& forall|i: int|
        0 <= i < split_on(o, '\n').len() ==> import_target(trim(#[trigger] split_on(o, '\n')[i]))
            is None
}

/// Whether a frame's text so far is clean and its lines hold no newline.
pub open spec fn frame_ok(f: FrameView) -> bool {
    &&& clean_text(f.output)
    &&& forall|i: int| 0 <= i < f.lines.len() ==> free_of(#[trigger] f.lines[i], '\n')
}

/// Whether every frame on the stack is as `frame_ok` says.
pub open spec fn walk_ok(fs: Seq<FrameView>) -> bool {
    forall|i: int| 0 <= i < fs.len() ==> frame_ok(#[trigger] fs[i])
}

proof fn lemma_split_no_sep(s: Seq<char>, sep: char)
    requires
        free_of(s, sep),
    ensures
        split_on(s, sep) == seq![s],
    decreases s.len(),
{
    if s.len() == 0 {
        assert(s =~= Seq::<char>::empty());
        assert(split_on(s, sep) =~= seq![s]);
    } else {
        let d = s.drop_last();
        assert(free_of(d, sep)) by {
            assert forall|i: int| 0 <= i < d.len() implies d[i] != sep by {
                assert(d[i] == s[i]);
            }
        }
        lemma_split_no_sep(d, sep);
        assert(s.last() == s[s.len() - 1]);
        assert(d.push(s.last()) =~= s);
        assert(split_on(s, sep) =~= seq![s]);
    }
}

proof fn lemma_split_pieces_free(s: Seq<char>, sep: char)
    ensures
        forall|i: int|
            0 <= i < split_on(s, sep).len() ==> free_of(#[trigger] split_on(s, sep)[i], sep),
    decreases s.len(),
{
    if s.len() > 0 {
        let d = s.drop_last();
        lemma_split_pieces_free(d, sep);
        lemma_split_on_nonempty(d, sep);
        let r = split_on(d, sep);
        if s.last() != sep {
            let p = r.last().push(s.last());
            assert(free_of(p, sep)) by {
                assert(free_of(r[r.len() - 1], sep));
                assert forall|i: int| 0 <= i < p.len() implies p[i] != sep by {
                    if i < p.len() - 1 {
                        assert(p[i] == r.last()[i]);
                    }
                }
            }
            assert forall|i: int| 0 <= i < split_on(s, sep).len() implies free_of(
                #[trigger] split_on(s, sep)[i],
                sep,
            ) by {
                if i < r.len() - 1 {
                    assert(split_on(s, sep)[i] == r[i]);
                }
            }
        } else {
            assert forall|i: int| 0 <= i < split_on(s, sep).len() implies free_of(
                #[trigger] split_on(s, sep)[i],
                sep,
            ) by {
                if i < r.len() {
                    assert(split_on(s, sep)[i] == r[i]);
                }
            }
        }
    }
}

/// Splitting a text after a separator splits its two parts apart.
proof fn lemma_split_concat(a: Seq<char>, b: Seq<char>, sep: char)
    requires
        a.len() == 0 || a.last() == sep,
    ensures
        split_on(a + b, sep) == split_on(a, sep).drop_last() + split_on(b, sep),
    decreases b.len(),
{
    lemma_split_on_nonempty(a, sep);
    if b.len() == 0 {
        assert(a + b =~= a);
        if a.len() > 0 {
            assert(split_on(a, sep).last() =~= Seq::<char>::empty());
        }
        assert(split_on(a, sep) =~= split_on(a, sep).drop_last() + split_on(b, sep));
    } else {
        let bd = b.drop_last();
        lemma_split_concat(a, bd, sep);
        lemma_split_on_nonempty(bd, sep);
        assert((a + b).drop_last() =~= a + bd);
        assert((a + b).last() == b.last());
        assert(split_on(a + b, sep) =~= split_on(a, sep).drop_last() + split_on(b, sep));
    }
}

proof fn lemma_empty_not_import()
    ensures
        import_target(trim(Seq::<char>::empty())) is None,
{
    reveal_strlit("IMPORT ");
    assert(trim(Seq::<char>::empty()) =~= Seq::<char>::empty());
}

proof fn lemma_clean_empty()
    ensures
        clean_text(Seq::empty()),
{
    lemma_empty_not_import();
    assert(split_on(Seq::<char>::empty(), '\n') =~= seq![Seq::<char>::empty()]);
}

/// Appending a line without newline and without import, and a newline, keeps a text clean.
proof fn lemma_clean_push_line(o: Seq<char>, line: Seq<char>)
    requires
        clean_text(o),
        free_of(line, '\n'),
        import_target(trim(line)) is None,
    ensures
        clean_text(o + line.push('\n')),
{
    lemma_empty_not_import();
    lemma_split_on_nonempty(o, '\n');
    lemma_split_concat(o, line.push('\n'), '\n');
    lemma_split_no_sep(line, '\n');
    assert(line.push('\n').drop_last() =~= line);
    assert(split_on(line.push('\n'), '\n') == seq![line].push(Seq::<char>::empty()));
    let parts = split_on(o + line.push('\n'), '\n');
    let before = split_on(o, '\n').drop_last();
    assert forall|i: int| 0 <= i < parts.len() implies import_target(trim(#[trigger] parts[i]))
        is None by {
        if i < before.len() {
            assert(parts[i] == split_on(o, '\n')[i]);
        } else if i == before.len() {
            assert(parts[i] == line);
        } else {
            assert(parts[i] == Seq::<char>::empty());
        }
    }
    assert((o + line.push('\n')).last() == '\n');
}

/// Appending a clean imported text, with a newline where it does not end in one, keeps a
/// text clean.
proof fn lemma_clean_with_imported(o: Seq<char>, imp: Seq<char>)
    requires
        clean_text(o),
        clean_text(imp),
    ensures
        clean_text(with_imported(o, imp)),
{
    lemma_empty_not_import();
    lemma_split_on_nonempty(o, '\n');
    if imp.len() > 0 {
        lemma_split_concat(o, imp, '\n');
        let parts = split_on(o + imp, '\n');
        let before = split_on(o, '\n').drop_last();
        assert forall|i: int| 0 <= i < parts.len() implies import_target(
            trim(#[trigger] parts[i]),
        ) is None by {
            if i < before.len() {
                assert(parts[i] == split_on(o, '\n')[i]);
            } else {
                assert(parts[i] == split_on(imp, '\n')[i - before.len()]);
            }
        }
        assert((o + imp).last() == imp.last());
    } else {
        assert(imp.push('\n') =~= Seq::<char>::empty().push('\n'));
        lemma_clean_push_line(o, Seq::<char>::empty());
        assert(o + imp.push('\n') =~= o + Seq::<char>::empty().push('\n'));
    }
}

proof fn lemma_raw_lines_free(s: Seq<char>)
    ensures
        forall|i: int| 0 <= i < raw_lines(s).len() ==> free_of(#[trigger] raw_lines(s)[i], '\n'),
{
    lemma_split_pieces_free(s, '\n');
    lemma_split_on_nonempty(s, '\n');
    let p = split_on(s, '\n');
    assert forall|i: int| 0 <= i < raw_lines(s).len() implies free_of(
        #[trigger] raw_lines(s)[i],
        '\n',
    ) by {
        if i < p.len() - 1 {
            let q = p[i];
            assert(free_of(q, '\n'));
            assert(raw_lines(s)[i] == strip_cr(q));
            assert forall|k: int| 0 <= k < strip_cr(q).len() implies strip_cr(q)[k] != '\n' by {
                assert(strip_cr(q)[k] == q[k]);
            }
        } else {
            assert(raw_lines(s)[i] == p[p.len() - 1]);
        }
    }
}

proof fn lemma_advance_clean(fs: Seq<FrameView>)
    requires
        walk_ok(fs),
    ensures
        walk_ok(advance(fs).0),
        advance(fs).1 matches ActionView::Done(o) ==> clean_text(o),
    decreases crate::imports::pending(fs),
{
    if fs.len() == 0 {
        lemma_clean_empty();
    } else {
        let top = fs.last();
        assert(frame_ok(fs[fs.len() - 1]));
        if top.next < top.lines.len() {
            let line = top.lines[top.next as int];
            let moved = FrameView { next: top.next + 1, ..top };
            match import_target(trim(line)) {
                Some(t) => {
                    let r = fs.update(fs.len() - 1, moved);
                    assert forall|i: int| 0 <= i < r.len() implies frame_ok(#[trigger] r[i]) by {
                        if i < fs.len() - 1 {
                            assert(r[i] == fs[i]);
                        }
                    }
                },
                None => {
                    let f2 = FrameView { output: top.output + line.push('\n'), ..moved };
                    crate::imports::lemma_pending_update_last(fs, f2);
                    lemma_clean_push_line(top.output, line);
                    let fs2 = fs.update(fs.len() - 1, f2);
                    assert forall|i: int| 0 <= i < fs2.len() implies frame_ok(#[trigger] fs2[i]) by {
                        if i < fs.len() - 1 {
                            assert(fs2[i] == fs[i]);
                        }
                    }
                    lemma_advance_clean(fs2);
                },
            }
        } else if fs.len() > 1 {
            let rest = fs.drop_last();
            let parent = rest.last();
            assert(frame_ok(fs[fs.len() - 2]));
            let p2 = FrameView { output: with_imported(parent.output, top.output), ..parent };
            crate::imports::lemma_pending_update_last(rest, p2);
            assert(crate::imports::pending(rest) == crate::imports::pending(rest.drop_last())
                + crate::imports::remaining(parent) + 1);
            lemma_clean_with_imported(parent.output, top.output);
            let fs2 = rest.update(rest.len() - 1, p2);
            assert forall|i: int| 0 <= i < fs2.len() implies frame_ok(#[trigger] fs2[i]) by {
                if i < rest.len() - 1 {
                    assert(fs2[i] == fs[i]);
                }
            }
            lemma_advance_clean(fs2);
        }
    }
}

/// The walk keeps every file's text made of whole lines without `IMPORT` lines: entering a
/// file and reading on keep this, and the text that the walk hands out at its end is such a
/// text.
pub proof fn law_walk_keeps_texts_clean(fs: Seq<FrameView>, path: Seq<char>, content: Seq<char>)
    requires
        walk_ok(fs),
    ensures
        walk_ok(Seq::<FrameView>::empty()),
        walk_ok(enter_spec(fs, path).0),
        fs.len() > 0 ==> walk_ok(load_spec(fs, content).0),
        fs.len() > 0 ==> (load_spec(fs, content).1 matches ActionView::Done(o) ==> clean_text(o)),
{
    lemma_clean_empty();
    let e = enter_spec(fs, path).0;
    assert forall|i: int| 0 <= i < e.len() implies frame_ok(#[trigger] e[i]) by {
        if i < fs.len() {
            assert(e[i] == fs[i]);
        }
    }
    if fs.len() > 0 {
        lemma_raw_lines_free(content);
        let f = FrameView { lines: raw_lines(content), next: 0, ..fs.last() };
        assert(frame_ok(fs[fs.len() - 1]));
        let fs2 = fs.update(fs.len() - 1, f);
        assert forall|i: int| 0 <= i < fs2.len() implies frame_ok(#[trigger] fs2[i]) by {
            if i < fs.len() - 1 {
                assert(fs2[i] == fs[i]);
            }
        }
        lemma_advance_clean(fs2);
    }
}

proof fn lemma_trim_end_last(s: Seq<char>)
    ensures
        trim_end(s).len() > 0 ==> !is_ws(trim_end(s).last()),
    decreases s.len(),
{
    if s.len() > 0 && is_ws(s.last()) {
        lemma_trim_end_last(s.drop_last());
    }
}

proof fn lemma_trim_start_keeps_last(s: Seq<char>)
    requires
        s.len() > 0,
        !is_ws(s.last()),
    ensures
        trim_start(s).len() > 0,
        trim_start(s).last() == s.last(),
    decreases s.len(),
{
    if is_ws(s[0]) {
        assert(s.len() > 1);
        assert(s.drop_first().last() == s.last());
        lemma_trim_start_keeps_last(s.drop_first());
    }
}

/// A trimmed line that begins with `IMPORT ` names a file.
proof fn lemma_trimmed_import_has_target(p: Seq<char>)
    requires
        trim(p).len() > 0,
        starts_with(trim(p), "IMPORT "@),
    ensures
        import_target(trim(p)) is Some,
{
    reveal_strlit("IMPORT ");
    let t = trim(p);
    lemma_trim_end_last(trim_start(p));
    assert(!is_ws(t.last()));
    assert(t.take(7)[6] == ' ');
    assert(t[6] == ' ');
    assert(is_ws(' '));
    assert(t.len() > 7);
    let u = t.skip(7);
    assert(u.last() == t.last());
    lemma_trim_start_keeps_last(u);
    assert(trim_end(trim_start(u)) == trim_start(u));
}

proof fn lemma_trimmed_nonempty_from(ps: Seq<Seq<char>>)
    ensures
        forall|i: int|
            0 <= i < trimmed_nonempty(ps).len() ==> exists|j: int|
                0 <= j < ps.len() && #[trigger] trimmed_nonempty(ps)[i] == trim(ps[j])
                    && trim(ps[j]).len() > 0,
    decreases ps.len(),
{
    if ps.len() > 0 {
        lemma_trimmed_nonempty_from(ps.drop_last());
        let r = trimmed_nonempty(ps.drop_last());
        assert forall|i: int| 0 <= i < trimmed_nonempty(ps).len() implies exists|j: int|
            0 <= j < ps.len() && #[trigger] trimmed_nonempty(ps)[i] == trim(ps[j]) && trim(
                ps[j],
            ).len() > 0 by {
            if i < r.len() {
                assert(trimmed_nonempty(ps)[i] == r[i]);
                let j = choose|j: int|
                    0 <= j < ps.drop_last().len() && #[trigger] r[i] == trim(ps.drop_last()[j])
                        && trim(ps.drop_last()[j]).len() > 0;
                assert(ps.drop_last()[j] == ps[j]);
            } else {
                assert(trimmed_nonempty(ps)[i] == trim(ps[ps.len() - 1]));
            }
        }
    }
}

/// A clean text has no line that the parser takes for an `IMPORT` line, so parsing it
/// never fails for an unresolved import: the text the walk hands out is parsed without
/// that error.
pub proof fn law_clean_text_has_no_import(o: Seq<char>)
    requires
        clean_text(o),
    ensures
        no_imports(content_lines(o)),
        parse_spec(o) != Err::<DefinitionView, ParseFailure>(ParseFailure::UnresolvedImport),
{
    let ps = split_on(o, '\n');
    let ls = content_lines(o);
    lemma_trimmed_nonempty_from(ps);
    assert forall|i: int| 0 <= i < ls.len() implies !is_import(#[trigger] ls[i]) by {
        let j = choose|j: int|
            0 <= j < ps.len() && #[trigger] trimmed_nonempty(ps)[i] == trim(ps[j]) && trim(
                ps[j],
            ).len() > 0;
        assert(import_target(trim(ps[j])) is None);
        if is_import(ls[i]) {
            lemma_trimmed_import_has_target(ps[j]);
        }
    }
    crate::laws::lemma_run_headers(ls);
}


/// Whether a file is paused right after one of its `IMPORT` lines: the file it names is
/// being read above it.
pub open spec fn paused(f: FrameView) -> bool {
    &&& 1 <= f.next <= f.lines.len()
    &&& import_target(trim(f.lines[f.next - 1])) is Some
}

/// Whether every file below the top of the stack is paused at an `IMPORT` line.
pub open spec fn chain_ok(fs: Seq<FrameView>) -> bool {
    forall|i: int| 0 <= i < fs.len() - 1 ==> paused(#[trigger] fs[i])
}

proof fn lemma_advance_chain(fs: Seq<FrameView>)
    requires
        chain_ok(fs),
    ensures
        chain_ok(advance(fs).0),
        advance(fs).1 is Locate ==> advance(fs).0.len() > 0 && paused(advance(fs).0.last()),
    decreases crate::imports::pending(fs),
{
    if fs.len() > 0 {
        let top = fs.last();
        if top.next < top.lines.len() {
            let line = top.lines[top.next as int];
            let moved = FrameView { next: top.next + 1, ..top };
            match import_target(trim(line)) {
                Some(t) => {
                    let r = fs.update(fs.len() - 1, moved);
                    assert(r.last() == moved);
                    assert(moved.lines[moved.next - 1] == line);
                    assert forall|i: int| 0 <= i < r.len() - 1 implies paused(#[trigger] r[i]) by {
                        assert(r[i] == fs[i]);
                    }
                },
                None => {
                    let f2 = FrameView { output: top.output + line.push('\n'), ..moved };
                    crate::imports::lemma_pending_update_last(fs, f2);
                    let fs2 = fs.update(fs.len() - 1, f2);
                    assert forall|i: int| 0 <= i < fs2.len() - 1 implies paused(#[trigger] fs2[i]) by {
                        assert(fs2[i] == fs[i]);
                    }
                    lemma_advance_chain(fs2);
                },
            }
        } else if fs.len() > 1 {
            let rest = fs.drop_last();
            let parent = rest.last();
            let p2 = FrameView { output: with_imported(parent.output, top.output), ..parent };
            crate::imports::lemma_pending_update_last(rest, p2);
            assert(crate::imports::pending(rest) == crate::imports::pending(rest.drop_last())
                + crate::imports::remaining(parent) + 1);
            let fs2 = rest.update(rest.len() - 1, p2);
            assert forall|i: int| 0 <= i < fs2.len() - 1 implies paused(#[trigger] fs2[i]) by {
                assert(fs2[i] == fs[i]);
            }
            lemma_advance_chain(fs2);
        }
    }
}

/// The stack of the walk is a chain of imports: every file below the top is paused right
/// after the `IMPORT` line whose file is read above it. Reading on keeps this and leaves
/// the top paused whenever it asks for a file to be located; entering a file that was asked
/// for keeps it; handing a file its content keeps it. So the stack that an import-cycle
/// failure reports runs from a file through `IMPORT` lines back to that file.
pub proof fn law_stack_is_chain_of_imports(fs: Seq<FrameView>, path: Seq<char>, content: Seq<char>)
    requires
        chain_ok(fs),
    ensures
        chain_ok(advance(fs).0),
        advance(fs).1 is Locate ==> advance(fs).0.len() > 0 && paused(advance(fs).0.last()),
        fs.len() == 0 || paused(fs.last()) ==> chain_ok(enter_spec(fs, path).0),
        fs.len() > 0 ==> chain_ok(load_spec(fs, content).0),
        fs.len() > 0 ==> (load_spec(fs, content).1 is Locate ==> paused(
            load_spec(fs, content).0.last(),
        )),
{
    lemma_advance_chain(fs);
    let e = enter_spec(fs, path).0;
    if fs.len() == 0 || paused(fs.last()) {
        assert forall|i: int| 0 <= i < e.len() - 1 implies paused(#[trigger] e[i]) by {
            if e.len() > fs.len() {
                assert(e[i] == fs[i]);
                if i == fs.len() - 1 {
                    assert(fs[i] == fs.last());
                }
            } else {
                assert(e[i] == fs[i]);
            }
        }
    }
    if fs.len() > 0 {
        let f = FrameView { lines: raw_lines(content), next: 0, ..fs.last() };
        let fs2 = fs.update(fs.len() - 1, f);
        assert forall|i: int| 0 <= i < fs2.len() - 1 implies paused(#[trigger] fs2[i]) by {
            assert(fs2[i] == fs[i]);
        }
        lemma_advance_chain(fs2);
    }
}

/// The target of an `IMPORT` line is copied unchanged from the line. A line names a target
/// exactly when it starts with `IMPORT ` and more than whitespace follows; the target is
/// then the text after `IMPORT `, trimmed, or that text without its first and last
/// characters where these are a pair of double or of single quotes; either way a stretch
/// of the line after `IMPORT `.
pub proof fn law_import_target_is_copied(line: Seq<char>)
    ensures
        import_target(line) is Some <==> starts_with(line, "IMPORT "@) && trim(line.skip(7)).len()
            > 0,
        import_target(line) matches Some(t) ==> {
            let rest = trim(line.skip(7));
            ||| t == rest
            ||| rest == seq!['"'] + t + seq!['"']
            ||| rest == seq!['\''] + t + seq!['\'']
        },
        import_target(line) matches Some(t) ==> exists|a: int, b: int|
            7 <= a <= b <= line.len() && t == line.subrange(a, b),
{
    reveal_strlit("IMPORT ");
    if let Some(t) = import_target(line) {
        let s = line.skip(7);
        let rest = trim(s);
        law_trim_is_inner_part(s);
        let (lo, hi) = choose|lo: int, hi: int|
            {
                &&& 0 <= lo <= hi <= s.len()
                &&& trim(s) == s.subrange(lo, hi)
                &&& forall|i: int| 0 <= i < lo ==> is_ws(#[trigger] s[i])
                &&& forall|i: int| hi <= i < s.len() ==> is_ws(#[trigger] s[i])
                &&& lo < hi ==> !is_ws(s[lo]) && !is_ws(s[hi - 1])
            };
        assert(rest =~= line.subrange(7 + lo, 7 + hi));
        if t == rest {
            assert(t == line.subrange(7 + lo, 7 + hi));
        } else {
            assert(t =~= line.subrange(7 + lo + 1, 7 + hi - 1));
            if rest[0] == '"' {
                assert(rest =~= seq!['"'] + t + seq!['"']);
            } else {
                assert(rest =~= seq!['\''] + t + seq!['\'']);
            }
        }
    }
}

} // verus!
