//! Resolution of `IMPORT` lines: the decisions of a walk through imported files.
//!
//! The walk is a state machine. Its caller performs what each [`ResolveAction`] asks
//! (read a file, locate an imported file) and hands back the outcome; the machine keeps
//! the stack of files being read, detects import cycles, and assembles the text.

use vstd::prelude::*;

use crate::text::{
    char_views, copy_range, has_prefix, push_char, push_chars, split_on, starts_with,
    str_to_chars, string_from_chars, trim, trim_chars,
};

verus! {

/// The lines of `s` as `str::lines` gives them: split at each newline, one carriage return
/// before a newline dropped, and no empty last line after a final newline.
pub open spec fn raw_lines(s: Seq<char>) -> Seq<Seq<char>> {
    let p = split_on(s, '\n');
    let init = Seq::new((p.len() - 1) as nat, |i: int| strip_cr(p[i]));
    if p.last().len() == 0 {
        init
    } else {
        init.push(p.last())
    }
}

/// `s` without one trailing carriage return.
pub open spec fn strip_cr(s: Seq<char>) -> Seq<char> {
    if s.len() > 0 && s.last() == '\r' {
        s.drop_last()
    } else {
        s
    }
}

/// All pieces of `p` but the last, carriage returns stripped.
spec fn stripped_init(p: Seq<Seq<char>>) -> Seq<Seq<char>> {
    Seq::new((p.len() - 1) as nat, |i: int| strip_cr(p[i]))
}

/// The lines of `v`, as `str::lines` gives them.
fn lines_of(v: &Vec<char>) -> (res: Vec<Vec<char>>)
    ensures
        char_views(res@) == raw_lines(v@),
{
    let n = v.len();
    let mut res: Vec<Vec<char>> = Vec::new();
    let mut start: usize = 0;
    let mut i: usize = 0;
    assert(v@.take(0) =~= Seq::<char>::empty());
    assert(char_views(res@) =~= stripped_init(split_on(v@.take(0), '\n')));
    while i < n
        invariant
            n == v.len(),
            start <= i <= n,
            split_on(v@.take(i as int), '\n').len() >= 1,
            split_on(v@.take(i as int), '\n').last() == v@.subrange(start as int, i as int),
            char_views(res@) == stripped_init(split_on(v@.take(i as int), '\n')),
        decreases n - i,
    {
        let ghost prev = split_on(v@.take(i as int), '\n');
        assert(v@.take(i + 1).drop_last() =~= v@.take(i as int));
        assert(v@.take(i + 1).last() == v@[i as int]);
        if v[i] == '\n' {
            let mut end = i;
            if end > start && v[end - 1] == '\r' {
                end = end - 1;
            }
            let piece = copy_range(v, start, end);
            let ghost whole = v@.subrange(start as int, i as int);
            assert(piece@ =~= strip_cr(whole));
            let ghost before = char_views(res@);
            res.push(piece);
            assert(char_views(res@) =~= before.push(strip_cr(prev.last())));
            assert(char_views(res@) =~= stripped_init(split_on(v@.take(i + 1), '\n')));
            start = i + 1;
            assert(v@.subrange(start as int, (i + 1) as int) =~= Seq::<char>::empty());
        } else {
            proof {
                let cur = split_on(v@.take(i + 1), '\n');
                assert(stripped_init(cur) =~= stripped_init(prev));
                assert(v@.subrange(start as int, (i + 1) as int) =~= v@.subrange(
                    start as int,
                    i as int,
                ).push(v@[i as int]));
            }
        }
        i = i + 1;
    }
    assert(v@.take(n as int) =~= v@);
    if start < n {
        let piece = copy_range(v, start, n);
        let ghost before = char_views(res@);
        res.push(piece);
        assert(char_views(res@) =~= before.push(piece@));
    }
    res
}

/// The file that an `IMPORT` line names, if the (trimmed) line is one: the text after
/// `IMPORT `, trimmed, without one pair of enclosing double or single quotes.
pub open spec fn import_target(line: Seq<char>) -> Option<Seq<char>> {
    if starts_with(line, "IMPORT "@) {
        let rest = trim(line.skip("IMPORT "@.len() as int));
        if rest.len() == 0 {
            None
        } else if rest.len() >= 2 && ((rest[0] == '"' && rest.last() == '"') || (rest[0] == '\''
            && rest.last() == '\'')) {
            Some(rest.subrange(1, rest.len() - 1))
        } else {
            Some(rest)
        }
    } else {
        None
    }
}

/// `import_target(line)` computed.
fn import_target_chars(line: &Vec<char>) -> (res: Option<Vec<char>>)
    ensures
        match res {
            Some(t) => import_target(line@) == Some(t@),
            None => import_target(line@) is None,
        },
{
    if !has_prefix(line, "IMPORT ") {
        return None;
    }
    let k = str_to_chars("IMPORT ").len();
    let after = copy_range(line, k, line.len());
    assert(after@ =~= line@.skip("IMPORT "@.len() as int));
    let rest = trim_chars(&after);
    let n = rest.len();
    if n == 0 {
        return None;
    }
    if n >= 2 && ((rest[0] == '"' && rest[n - 1] == '"') || (rest[0] == '\'' && rest[n - 1]
        == '\'')) {
        return Some(copy_range(&rest, 1, n - 1));
    }
    Some(rest)
}

/// The file that an `IMPORT` line names, if the trimmed line is one.
pub fn parse_import_target(line: &str) -> (res: Option<String>)
    ensures
        match res {
            Some(t) => import_target(line@) == Some(t@),
            None => import_target(line@) is None,
        },
{
    let chars = str_to_chars(line);
    match import_target_chars(&chars) {
        Some(t) => Some(string_from_chars(&t)),
        None => None,
    }
}


/// A file on the stack of the walk: its path, its lines, the next line to read, and the
/// text assembled from the lines read so far.
#[verifier::ext_equal]
pub struct FrameView {
    pub path: Seq<char>,
    pub lines: Seq<Seq<char>>,
    pub next: nat,
    pub output: Seq<char>,
}

/// What the walk asks of its caller next.
#[verifier::ext_equal]
pub enum ActionView {
    /// Read the file at this path and hand its content to [`Resolver::loaded`].
    Read(Seq<char>),
    /// Locate the second path relative to the directory of the file at the first and hand
    /// the located file's path to [`Resolver::enter`].
    Locate(Seq<char>, Seq<char>),
    /// The walk is over: this is the resolved text.
    Done(Seq<char>),
    /// The walk failed with this message.
    Fail(Seq<char>),
}

/// The lines of a frame that are still to be read.
pub open spec fn remaining(f: FrameView) -> nat {
    if f.next < f.lines.len() {
        (f.lines.len() - f.next) as nat
    } else {
        0
    }
}

/// The work left on a stack: lines still to read, and frames still to close.
pub open spec fn pending(fs: Seq<FrameView>) -> nat
    decreases fs.len(),
{
    if fs.len() == 0 {
        0
    } else {
        pending(fs.drop_last()) + remaining(fs.last()) + 1
    }
}

/// `output` with an imported text appended, and a newline after it unless it ends in one.
pub open spec fn with_imported(output: Seq<char>, imported: Seq<char>) -> Seq<char> {
    if imported.len() > 0 && imported.last() == '\n' {
        output + imported
    } else {
        output + imported.push('\n')
    }
}

/// The items joined with `sep` between them.
pub open spec fn join(items: Seq<Seq<char>>, sep: Seq<char>) -> Seq<char>
    decreases items.len(),
{
    if items.len() == 0 {
        Seq::empty()
    } else if items.len() == 1 {
        items[0]
    } else {
        join(items.drop_last(), sep) + sep + items.last()
    }
}

/// The paths on the stack, from the first file down.
pub open spec fn stack_paths(fs: Seq<FrameView>) -> Seq<Seq<char>> {
    Seq::new(fs.len(), |i: int| fs[i].path)
}

/// The message for an import cycle that closes at `path`.
pub open spec fn cycle_message(stack: Seq<Seq<char>>, path: Seq<char>) -> Seq<char> {
    "Import cycle detected: "@ + join(stack.push(path), " -> "@)
}

/// Entering a file: a cycle if it is on the stack already, else a new frame and a read.
pub open spec fn enter_spec(fs: Seq<FrameView>, path: Seq<char>) -> (Seq<FrameView>, ActionView) {
    if stack_paths(fs).contains(path) {
        (fs, ActionView::Fail(cycle_message(stack_paths(fs), path)))
    } else {
        (
            fs.push(FrameView { path, lines: Seq::empty(), next: 0, output: Seq::empty() }),
            ActionView::Read(path),
        )
    }
}

/// Replacing the top frame changes the work left by the difference of what remains in it.
pub proof fn lemma_pending_update_last(fs: Seq<FrameView>, f: FrameView)
    requires
        fs.len() > 0,
    ensures
        pending(fs.update(fs.len() - 1, f)) == pending(fs.drop_last()) + remaining(f) + 1,
{
    assert(fs.update(fs.len() - 1, f).drop_last() =~= fs.drop_last());
}

/// Reading on from the top of the stack: non-import lines are copied with a newline after
/// each; an import line asks for its file to be located; a finished file is closed and its
/// text appended to the file below it, or handed out if it is the first file.
pub open spec fn advance(fs: Seq<FrameView>) -> (Seq<FrameView>, ActionView)
    decreases pending(fs),
{
    if fs.len() == 0 {
        (fs, ActionView::Done(Seq::empty()))
    } else {
        let top = fs.last();
        if top.next < top.lines.len() {
            let line = top.lines[top.next as int];
            let moved = FrameView { next: top.next + 1, ..top };
            match import_target(trim(line)) {
                Some(t) => (fs.update(fs.len() - 1, moved), ActionView::Locate(top.path, t)),
                None => {
                    let f2 = FrameView { output: top.output + line.push('\n'), ..moved };
                    proof {
                        lemma_pending_update_last(fs, f2);
                    }
                    advance(fs.update(fs.len() - 1, f2))
                },
            }
        } else if fs.len() == 1 {
            (Seq::empty(), ActionView::Done(top.output))
        } else {
            let rest = fs.drop_last();
            let parent = rest.last();
            let p2 = FrameView { output: with_imported(parent.output, top.output), ..parent };
            proof {
                lemma_pending_update_last(rest, p2);
                assert(rest == fs.drop_last());
                assert(pending(rest) == pending(rest.drop_last()) + remaining(parent) + 1);
            }
            advance(rest.update(rest.len() - 1, p2))
        }
    }
}

/// Handing the content of the file on top of the stack to the walk.
pub open spec fn load_spec(fs: Seq<FrameView>, content: Seq<char>) -> (Seq<FrameView>, ActionView) {
    advance(
        fs.update(fs.len() - 1, FrameView { lines: raw_lines(content), next: 0, ..fs.last() }),
    )
}

/// Whether `s` ends with a newline.
fn ends_with_newline(s: &String) -> (res: bool)
    ensures
        res == (s@.len() > 0 && s@.last() == '\n'),
{
    let chars = str_to_chars(s.as_str());
    chars.len() > 0 && chars[chars.len() - 1] == '\n'
}

/// A file on the stack of the walk.
struct Frame {
    path: String,
    lines: Vec<Vec<char>>,
    next: usize,
    output: String,
}

impl View for Frame {
    type V = FrameView;

    closed spec fn view(&self) -> FrameView {
        FrameView {
            path: self.path@,
            lines: char_views(self.lines@),
            next: self.next as nat,
            output: self.output@,
        }
    }
}

/// What the walk asks of its caller next.
pub enum ResolveAction {
    /// Read the file at this path and hand its content to [`Resolver::loaded`].
    Read(String),
    /// Locate `target` relative to the directory of the file at `from`, and hand the
    /// located file's path to [`Resolver::enter`].
    Locate { from: String, target: String },
    /// The walk is over: this is the resolved text.
    Done(String),
    /// The walk failed with this message.
    Fail(String),
}

impl View for ResolveAction {
    type V = ActionView;

    open spec fn view(&self) -> ActionView {
        match self {
            ResolveAction::Read(p) => ActionView::Read(p@),
            ResolveAction::Locate { from, target } => ActionView::Locate(from@, target@),
            ResolveAction::Done(o) => ActionView::Done(o@),
            ResolveAction::Fail(m) => ActionView::Fail(m@),
        }
    }
}

/// The walk through a file and the files it imports.
pub struct Resolver {
    frames: Vec<Frame>,
}

impl View for Resolver {
    type V = Seq<FrameView>;

    closed spec fn view(&self) -> Seq<FrameView> {
        Seq::new(self.frames@.len(), |i: int| self.frames@[i]@)
    }
}

impl Resolver {
    /// A walk with no file entered yet.
    pub fn new() -> (res: Resolver)
        ensures
            res@ == Seq::<FrameView>::empty(),
    {
        let res = Resolver { frames: Vec::new() };
        assert(res@ =~= Seq::<FrameView>::empty());
        res
    }

    /// The number of files on the stack.
    pub fn depth(&self) -> (res: usize)
        ensures
            res == self@.len(),
    {
        self.frames.len()
    }

    /// Enters the file at `path`: the first file, or one that an import was located at.
    pub fn enter(&mut self, path: String) -> (res: ResolveAction)
        ensures
            (final(self)@, res@) == enter_spec(old(self)@, path@),
    {
        let ghost fs = self@;
        let mut i: usize = 0;
        while i < self.frames.len()
            invariant
                i <= self.frames.len(),
                self@ == fs,
                forall|k: int| 0 <= k < i ==> stack_paths(fs)[k] != path@,
            decreases self.frames.len() - i,
        {
            if self.frames[i].path == path {
                assert(stack_paths(fs)[i as int] == path@);
                let message = self.cycle_text(&path);
                return ResolveAction::Fail(message);
            }
            i = i + 1;
        }
        assert(!stack_paths(fs).contains(path@));
        let ghost pv = path@;
        let echo = path.clone();
        let frame = Frame { path, lines: Vec::new(), next: 0, output: String::new() };
        assert(frame@ =~= FrameView {
            path: pv,
            lines: Seq::empty(),
            next: 0,
            output: Seq::empty(),
        });
        self.frames.push(frame);
        assert(self@ =~= fs.push(
            FrameView { path: pv, lines: Seq::empty(), next: 0, output: Seq::empty() },
        ));
        ResolveAction::Read(echo)
    }

    /// The message for a cycle that closes at `path`.
    fn cycle_text(&self, path: &String) -> (res: String)
        ensures
            res@ == cycle_message(stack_paths(self@), path@),
    {
        let ghost ps = stack_paths(self@);
        let mut out = String::new();
        out.append("Import cycle detected: ");
        let ghost head = out@;
        let mut i: usize = 0;
        assert(ps.push(path@).take(0) =~= Seq::<Seq<char>>::empty());
        while i < self.frames.len()
            invariant
                i <= self.frames.len(),
                ps == stack_paths(self@),
                ps.len() == self.frames.len(),
                out@ == head + join(ps.push(path@).take(i as int), " -> "@),
            decreases self.frames.len() - i,
        {
            if i > 0 {
                out.append(" -> ");
            }
            out.append(self.frames[i].path.as_str());
            proof {
                let items = ps.push(path@).take(i + 1);
                assert(items.drop_last() =~= ps.push(path@).take(i as int));
                assert(items.last() == self.frames@[i as int].path@);
                if i == 0 {
                    assert(items.len() == 1);
                }
            }
            i = i + 1;
            assert(out@ =~= head + join(ps.push(path@).take(i as int), " -> "@));
        }
        if self.frames.len() > 0 {
            out.append(" -> ");
        }
        out.append(path.as_str());
        proof {
            let items = ps.push(path@);
            assert(items.take(self.frames.len() as int) =~= items.drop_last());
            assert(items =~= items.take(items.len() as int));
        }
        assert(out@ =~= head + join(ps.push(path@), " -> "@));
        out
    }

    /// Hands the content of the file on top of the stack to the walk, which reads on until
    /// it needs another file located or is done.
    pub fn loaded(&mut self, content: &str) -> (res: ResolveAction)
        requires
            old(self)@.len() > 0,
        ensures
            (final(self)@, res@) == load_spec(old(self)@, content@),
    {
        let ghost fs = self@;
        let chars = str_to_chars(content);
        let mut top = self.frames.pop().unwrap();
        top.lines = lines_of(&chars);
        top.next = 0;
        self.frames.push(top);
        assert(self@ =~= fs.update(
            fs.len() - 1,
            FrameView { lines: raw_lines(content@), next: 0, ..fs.last() },
        ));
        self.advance()
    }

    /// Reads on from the top of the stack, as `advance` says.
    fn advance(&mut self) -> (res: ResolveAction)
        requires
            old(self)@.len() > 0,
        ensures
            (final(self)@, res@) == advance(old(self)@),
    {
        loop
            invariant
                self@.len() > 0,
                advance(self@) == advance(old(self)@),
            decreases pending(self@),
        {
            let ghost fs = self@;
            let mut top = self.frames.pop().unwrap();
            assert(self@ =~= fs.drop_last());
            assert(top@ == fs.last());
            if top.next < top.lines.len() {
                let line = copy_range(&top.lines[top.next], 0, top.lines[top.next].len());
                assert(line@ =~= top.lines@[top.next as int]@);
                let trimmed = trim_chars(&line);
                let target = import_target_chars(&trimmed);
                top.next = top.next + 1;
                match target {
                    Some(t) => {
                        let from = top.path.clone();
                        self.frames.push(top);
                        assert(self@ =~= fs.update(
                            fs.len() - 1,
                            FrameView { next: fs.last().next + 1, ..fs.last() },
                        ));
                        return ResolveAction::Locate { from, target: string_from_chars(&t) };
                    },
                    None => {
                        push_chars(&mut top.output, &line);
                        push_char(&mut top.output, '\n');
                        self.frames.push(top);
                        proof {
                            let f2 = FrameView {
                                output: fs.last().output + line@.push('\n'),
                                next: fs.last().next + 1,
                                ..fs.last()
                            };
                            assert(self@ =~= fs.update(fs.len() - 1, f2));
                            lemma_pending_update_last(fs, f2);
                            assert(remaining(f2) < remaining(fs.last()));
                            assert(pending(fs) == pending(fs.drop_last()) + remaining(fs.last())
                                + 1);
                        }
                    },
                }
            } else if self.frames.len() == 0 {
                assert(fs.len() == 1);
                return ResolveAction::Done(top.output);
            } else {
                let ghost rest = fs.drop_last();
                let mut parent = self.frames.pop().unwrap();
                assert(parent@ == rest.last());
                let ends_with_newline = ends_with_newline(&top.output);
                parent.output.append(top.output.as_str());
                if !ends_with_newline {
                    push_char(&mut parent.output, '\n');
                }
                self.frames.push(parent);
                proof {
                    let p2 = FrameView {
                        output: with_imported(rest.last().output, fs.last().output),
                        ..rest.last()
                    };
                    assert(self@ =~= rest.update(rest.len() - 1, p2));
                    lemma_pending_update_last(rest, p2);
                    assert(pending(rest) == pending(rest.drop_last()) + remaining(rest.last())
                        + 1);
                    assert(pending(fs) == pending(rest) + remaining(fs.last()) + 1);
                }
            }
        }
    }
}

} // verus!
