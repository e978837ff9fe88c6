//! The canonical text determines the definition it was written from, up to the difference
//! between an absent optional text and an empty one, which it writes alike.

use vstd::prelude::*;

use crate::canonical::{
    block_text, blocks_text, canonical_text_spec, decimal, digit_char, escape, escape_char, field,
    fields, instance_text, instances_text, module_text, modules_text, or_empty,
};
use crate::model::{DefinitionView, InstanceView, MemoryBlockView, ModuleView};
use crate::laws::newline_joined;

verus! {

/// Whether `s` holds no newline.
pub open spec fn no_newline(s: Seq<char>) -> bool {
    forall|i: int| 0 <= i < s.len() ==> s[i] != '\n'
}

/// Whether none of the lines holds a newline.
pub open spec fn lines_ok(ls: Seq<Seq<char>>) -> bool {
    forall|i: int| 0 <= i < ls.len() ==> no_newline(#[trigger] ls[i])
}

proof fn lemma_nj_concat(a: Seq<Seq<char>>, b: Seq<Seq<char>>)
    ensures
        newline_joined(a + b) == newline_joined(a) + newline_joined(b),
    decreases a.len(),
{
    if a.len() == 0 {
        assert(a + b =~= b);
        assert(Seq::<char>::empty() + newline_joined(b) =~= newline_joined(b));
    } else {
        assert((a + b)[0] == a[0]);
        assert((a + b).drop_first() =~= a.drop_first() + b);
        lemma_nj_concat(a.drop_first(), b);
        assert(newline_joined(a + b) =~= newline_joined(a) + newline_joined(b));
    }
}

proof fn lemma_nj_push(a: Seq<Seq<char>>, x: Seq<char>)
    ensures
        newline_joined(a.push(x)) == newline_joined(a) + x.push('\n'),
{
    assert(a.push(x) =~= a + seq![x]);
    lemma_nj_concat(a, seq![x]);
    assert(seq![x].drop_first() =~= Seq::<Seq<char>>::empty());
    assert(newline_joined(Seq::<Seq<char>>::empty()) == Seq::<char>::empty());
    assert(newline_joined(seq![x]) == seq![x][0].push('\n') + newline_joined(seq![x].drop_first()));
    assert(newline_joined(seq![x]) =~= x.push('\n'));
}

proof fn lemma_nj_len(a: Seq<Seq<char>>)
    ensures
        a.len() > 0 ==> newline_joined(a).len() > 0,
{
    if a.len() > 0 {
        assert(newline_joined(a) == a[0].push('\n') + newline_joined(a.drop_first()));
    }
}

/// Lines without newlines are told apart by the text they are joined into.
proof fn lemma_nj_injective(a: Seq<Seq<char>>, b: Seq<Seq<char>>)
    requires
        lines_ok(a),
        lines_ok(b),
        newline_joined(a) == newline_joined(b),
    ensures
        a == b,
    decreases a.len(),
{
    lemma_nj_len(a);
    lemma_nj_len(b);
    if a.len() == 0 {
        assert(b.len() == 0);
        assert(a =~= b);
    } else {
        let t = newline_joined(a);
        let a0 = a[0];
        let b0 = b[0];
        assert(no_newline(a0));
        assert(no_newline(b0));
        let ra = newline_joined(a.drop_first());
        let rb = newline_joined(b.drop_first());
        assert(t == a0.push('\n') + ra);
        assert(t == b0.push('\n') + rb);
        if a0.len() < b0.len() {
            assert(t[a0.len() as int] == '\n');
            assert(t[a0.len() as int] == b0[a0.len() as int]);
            assert(false);
        }
        if b0.len() < a0.len() {
            assert(t[b0.len() as int] == '\n');
            assert(t[b0.len() as int] == a0[b0.len() as int]);
            assert(false);
        }
        assert(a0 =~= t.take(a0.len() as int));
        assert(b0 =~= t.take(b0.len() as int));
        assert(ra =~= t.skip(a0.len() + 1int));
        assert(rb =~= t.skip(b0.len() + 1int));
        assert forall|i: int| 0 <= i < a.drop_first().len() implies no_newline(
            #[trigger] a.drop_first()[i],
        ) by {
            assert(a.drop_first()[i] == a[i + 1]);
        }
        assert forall|i: int| 0 <= i < b.drop_first().len() implies no_newline(
            #[trigger] b.drop_first()[i],
        ) by {
            assert(b.drop_first()[i] == b[i + 1]);
        }
        lemma_nj_injective(a.drop_first(), b.drop_first());
        assert(a =~= seq![a0] + a.drop_first());
        assert(b =~= seq![b0] + b.drop_first());
    }
}


/// Whether `c` is one of the characters that the canonical text escapes.
pub open spec fn is_escaped(c: char) -> bool {
    c == '\\' || c == '\n' || c == '\r' || c == ':'
}

proof fn lemma_escape_front(s: Seq<char>)
    requires
        s.len() > 0,
    ensures
        escape(s) == escape_char(s[0]) + escape(s.drop_first()),
    decreases s.len(),
{
    if s.len() == 1 {
        assert(s.drop_last() =~= Seq::<char>::empty());
        assert(s.drop_first() =~= Seq::<char>::empty());
        assert(escape(s) =~= escape_char(s[0]) + escape(s.drop_first()));
    } else {
        lemma_escape_front(s.drop_last());
        assert(s.drop_last()[0] == s[0]);
        assert(s.drop_last().drop_first() =~= s.drop_first().drop_last());
        assert(s.drop_first().last() == s.last());
        assert(escape(s.drop_first()) == escape(s.drop_first().drop_last()) + escape_char(
            s.drop_first().last(),
        ));
        assert(escape(s) =~= escape_char(s[0]) + escape(s.drop_first()));
    }
}

proof fn lemma_escape_no_newline(s: Seq<char>)
    ensures
        no_newline(escape(s)),
    decreases s.len(),
{
    if s.len() > 0 {
        lemma_escape_no_newline(s.drop_last());
        let e = escape(s);
        assert(e == escape(s.drop_last()) + escape_char(s.last()));
        assert forall|i: int| 0 <= i < e.len() implies e[i] != '\n' by {
            if i >= escape(s.drop_last()).len() {
                let k = i - escape(s.drop_last()).len();
                assert(e[i] == escape_char(s.last())[k]);
            }
        }
    }
}

/// The escaped form of a character begins with a backslash exactly for the escaped
/// characters, and is never a bare colon or newline.
proof fn lemma_escape_char_shape(c: char)
    ensures
        escape_char(c).len() > 0,
        (escape_char(c)[0] == '\\') == is_escaped(c),
        escape_char(c)[0] != ':',
        is_escaped(c) ==> escape_char(c).len() == 2,
        !is_escaped(c) ==> escape_char(c) == seq![c],
{
}

proof fn lemma_escape_char_injective(c: char, d: char, r1: Seq<char>, r2: Seq<char>)
    requires
        escape_char(c) + r1 == escape_char(d) + r2,
    ensures
        c == d,
        r1 == r2,
{
    lemma_escape_char_shape(c);
    lemma_escape_char_shape(d);
    let t = escape_char(c) + r1;
    assert(t[0] == escape_char(c)[0]);
    assert(t[0] == escape_char(d)[0]);
    if is_escaped(c) {
        assert(t[1] == escape_char(c)[1]);
        assert(t[1] == escape_char(d)[1]);
    }
    assert(escape_char(c) =~= escape_char(d));
    assert(r1 =~= t.skip(escape_char(c).len() as int));
    assert(r2 =~= t.skip(escape_char(d).len() as int));
}

/// An escaped text followed by a colon is told apart from what comes after the colon.
proof fn lemma_escape_colon(a1: Seq<char>, y1: Seq<char>, a2: Seq<char>, y2: Seq<char>)
    requires
        escape(a1) + seq![':'] + y1 == escape(a2) + seq![':'] + y2,
    ensures
        a1 == a2,
        y1 == y2,
    decreases a1.len() + a2.len(),
{
    let t = escape(a1) + seq![':'] + y1;
    if a1.len() == 0 {
        assert(escape(a1) =~= Seq::<char>::empty());
        assert(t[0] == ':');
        if a2.len() > 0 {
            lemma_escape_front(a2);
            lemma_escape_char_shape(a2[0]);
            assert(t[0] == escape_char(a2[0])[0]);
        }
        assert(escape(a2) =~= Seq::<char>::empty());
        assert(y1 =~= t.skip(1));
        assert(y2 =~= t.skip(1));
    } else if a2.len() == 0 {
        assert(escape(a2) =~= Seq::<char>::empty());
        lemma_escape_front(a1);
        lemma_escape_char_shape(a1[0]);
        assert(t[0] == escape_char(a1[0])[0]);
    } else {
        lemma_escape_front(a1);
        lemma_escape_front(a2);
        let r1 = escape(a1.drop_first()) + seq![':'] + y1;
        let r2 = escape(a2.drop_first()) + seq![':'] + y2;
        assert(t =~= escape_char(a1[0]) + r1);
        assert(t =~= escape_char(a2[0]) + r2);
        lemma_escape_char_injective(a1[0], a2[0], r1, r2);
        lemma_escape_colon(a1.drop_first(), y1, a2.drop_first(), y2);
        assert(a1 =~= seq![a1[0]] + a1.drop_first());
        assert(a2 =~= seq![a2[0]] + a2.drop_first());
    }
}

/// Escaping is one to one.
proof fn lemma_escape_injective(a1: Seq<char>, a2: Seq<char>)
    requires
        escape(a1) == escape(a2),
    ensures
        a1 == a2,
{
    lemma_escape_colon(a1, Seq::empty(), a2, Seq::empty());
}

proof fn lemma_decimal_shape(n: nat)
    ensures
        decimal(n).len() >= 1,
        forall|i: int| 0 <= i < decimal(n).len() ==> {
            &&& #[trigger] decimal(n)[i] != ':'
            &&& decimal(n)[i] != '\n'
        },
        decimal(n).last() == digit_char(n % 10),
    decreases n,
{
    if n >= 10 {
        lemma_decimal_shape(n / 10);
    }
}

proof fn lemma_digit_char_injective(a: nat, b: nat)
    requires
        a < 10,
        b < 10,
        digit_char(a) == digit_char(b),
    ensures
        a == b,
{
    assert((a + 0x30) as char == (b + 0x30) as char);
    assert(((a + 0x30) as char) as u32 == a + 0x30);
    assert(((b + 0x30) as char) as u32 == b + 0x30);
}

/// Decimal numerals are one to one.
proof fn lemma_decimal_injective(n: nat, m: nat)
    requires
        decimal(n) == decimal(m),
    ensures
        n == m,
    decreases n + m,
{
    lemma_decimal_shape(n);
    lemma_decimal_shape(m);
    lemma_digit_char_injective(n % 10, m % 10);
    if n >= 10 && m >= 10 {
        lemma_decimal_shape(n / 10);
        assert(decimal(n / 10) =~= decimal(n).drop_last());
        assert(decimal(m / 10) =~= decimal(m).drop_last());
        lemma_decimal_injective(n / 10, m / 10);
    } else if n >= 10 {
        lemma_decimal_shape(n / 10);
        assert(decimal(n).len() >= 2);
    } else if m >= 10 {
        lemma_decimal_shape(m / 10);
        assert(decimal(m).len() >= 2);
    }
}

/// Two texts without a colon, each followed by a colon, are told apart from what comes
/// after the colon.
proof fn lemma_split_at_colon(x1: Seq<char>, y1: Seq<char>, x2: Seq<char>, y2: Seq<char>)
    requires
        x1 + seq![':'] + y1 == x2 + seq![':'] + y2,
        forall|i: int| 0 <= i < x1.len() ==> x1[i] != ':',
        forall|i: int| 0 <= i < x2.len() ==> x2[i] != ':',
    ensures
        x1 == x2,
        y1 == y2,
{
    let t = x1 + seq![':'] + y1;
    if x1.len() < x2.len() {
        assert(t[x1.len() as int] == ':');
        assert(t[x1.len() as int] == x2[x1.len() as int]);
    }
    if x2.len() < x1.len() {
        assert(t[x2.len() as int] == ':');
        assert(t[x2.len() as int] == x1[x2.len() as int]);
    }
    assert(x1 =~= t.take(x1.len() as int));
    assert(x2 =~= t.take(x2.len() as int));
    assert(y1 =~= t.skip(x1.len() + 1int));
    assert(y2 =~= t.skip(x2.len() + 1int));
}


/// A line of the canonical text without its newline: a label and an escaped value.
pub open spec fn line(label: Seq<char>, value: Seq<char>) -> Seq<char> {
    label + escape(value)
}

/// One `line` per item.
pub open spec fn label_lines(label: Seq<char>, items: Seq<Seq<char>>) -> Seq<Seq<char>> {
    Seq::new(items.len(), |i: int| line(label, items[i]))
}

/// The lines of one module's block.
pub open spec fn module_block(m: ModuleView) -> Seq<Seq<char>> {
    seq![
        "module_begin"@,
        line("module_name:"@, m.name),
        line("module_summary:"@, or_empty(m.summary)),
    ] + label_lines("module_operation:"@, m.operations) + label_lines(
        "module_input:"@,
        m.inputs,
    ) + label_lines("module_output:"@, m.outputs) + seq!["module_end"@]
}

/// The lines of the modules' blocks, in order.
pub open spec fn module_lines(ms: Seq<ModuleView>) -> Seq<Seq<char>>
    decreases ms.len(),
{
    if ms.len() == 0 {
        Seq::empty()
    } else {
        module_lines(ms.drop_last()) + module_block(ms.last())
    }
}

/// The line of one instance.
pub open spec fn instance_line(i: InstanceView) -> Seq<char> {
    "instance:"@ + decimal(i.count as nat) + seq![':'] + escape(i.module_name)
}

/// The lines of the instances.
pub open spec fn instance_lines(is: Seq<InstanceView>) -> Seq<Seq<char>> {
    Seq::new(is.len(), |i: int| instance_line(is[i]))
}

/// The line of one memory block.
pub open spec fn block_line(b: MemoryBlockView) -> Seq<char> {
    "memory:"@ + escape(b.name) + seq![':'] + escape(b.size)
}

/// The lines of the memory blocks.
pub open spec fn block_lines(bs: Seq<MemoryBlockView>) -> Seq<Seq<char>> {
    Seq::new(bs.len(), |i: int| block_line(bs[i]))
}

/// The first four lines.
pub open spec fn head_lines(d: DefinitionView) -> Seq<Seq<char>> {
    seq![
        line("kind:"@, d.kind),
        line("name:"@, d.name),
        line("full_name:"@, or_empty(d.full_name)),
        line("description:"@, d.description),
    ]
}

/// The lines of the canonical text, without their newlines.
pub open spec fn def_lines(d: DefinitionView) -> Seq<Seq<char>> {
    head_lines(d) + label_lines("goal:"@, d.goals) + module_lines(d.modules) + instance_lines(
        d.instantiate,
    ) + label_lines("connect:"@, d.connect) + block_lines(d.memory_blocks) + seq![
        line("output:"@, d.output),
    ]
}

proof fn lemma_fields_lines(label: Seq<char>, items: Seq<Seq<char>>)
    ensures
        fields(label, items) == newline_joined(label_lines(label, items)),
    decreases items.len(),
{
    if items.len() == 0 {
        assert(label_lines(label, items) =~= Seq::<Seq<char>>::empty());
    } else {
        lemma_fields_lines(label, items.drop_last());
        assert(label_lines(label, items) =~= label_lines(label, items.drop_last()).push(
            line(label, items.last()),
        ));
        lemma_nj_push(label_lines(label, items.drop_last()), line(label, items.last()));
        assert(field(label, items.last()) =~= line(label, items.last()).push('\n'));
    }
}

proof fn lemma_nj_three(a: Seq<char>, b: Seq<char>, c: Seq<char>)
    ensures
        newline_joined(seq![a, b, c]) == a.push('\n') + b.push('\n') + c.push('\n'),
{
    lemma_nj_push(Seq::empty(), a);
    assert(Seq::<Seq<char>>::empty().push(a) =~= seq![a]);
    lemma_nj_push(seq![a], b);
    assert(seq![a].push(b) =~= seq![a, b]);
    lemma_nj_push(seq![a, b], c);
    assert(seq![a, b].push(c) =~= seq![a, b, c]);
    assert(newline_joined(Seq::<Seq<char>>::empty()) == Seq::<char>::empty());
    assert(newline_joined(seq![a, b, c]) =~= a.push('\n') + b.push('\n') + c.push('\n'));
}

proof fn lemma_module_text_lines(m: ModuleView)
    ensures
        module_text(m) == newline_joined(module_block(m)),
{
    reveal_strlit("module_begin\n");
    reveal_strlit("module_begin");
    reveal_strlit("module_end\n");
    reveal_strlit("module_end");
    let first = seq![
        "module_begin"@,
        line("module_name:"@, m.name),
        line("module_summary:"@, or_empty(m.summary)),
    ];
    let ops = label_lines("module_operation:"@, m.operations);
    let ins = label_lines("module_input:"@, m.inputs);
    let outs = label_lines("module_output:"@, m.outputs);
    let last = seq!["module_end"@];
    lemma_nj_concat(first, ops);
    lemma_nj_concat(first + ops, ins);
    lemma_nj_concat(first + ops + ins, outs);
    lemma_nj_concat(first + ops + ins + outs, last);
    lemma_nj_three(first[0], first[1], first[2]);
    assert(first =~= seq![first[0], first[1], first[2]]);
    lemma_nj_push(Seq::empty(), "module_end"@);
    assert(Seq::<Seq<char>>::empty().push("module_end"@) =~= last);
    assert(newline_joined(Seq::<Seq<char>>::empty()) == Seq::<char>::empty());
    lemma_fields_lines("module_operation:"@, m.operations);
    lemma_fields_lines("module_input:"@, m.inputs);
    lemma_fields_lines("module_output:"@, m.outputs);
    assert("module_begin\n"@ =~= "module_begin"@.push('\n'));
    assert("module_end\n"@ =~= Seq::<char>::empty() + "module_end"@.push('\n'));
    assert(field("module_name:"@, m.name) =~= line("module_name:"@, m.name).push('\n'));
    assert(field("module_summary:"@, or_empty(m.summary)) =~= line(
        "module_summary:"@,
        or_empty(m.summary),
    ).push('\n'));
    assert(module_text(m) =~= newline_joined(module_block(m)));
}

proof fn lemma_modules_text_lines(ms: Seq<ModuleView>)
    ensures
        modules_text(ms) == newline_joined(module_lines(ms)),
    decreases ms.len(),
{
    if ms.len() > 0 {
        lemma_modules_text_lines(ms.drop_last());
        lemma_module_text_lines(ms.last());
        lemma_nj_concat(module_lines(ms.drop_last()), module_block(ms.last()));
    }
}

proof fn lemma_instances_text_lines(is: Seq<InstanceView>)
    ensures
        instances_text(is) == newline_joined(instance_lines(is)),
    decreases is.len(),
{
    if is.len() == 0 {
        assert(instance_lines(is) =~= Seq::<Seq<char>>::empty());
    } else {
        lemma_instances_text_lines(is.drop_last());
        assert(instance_lines(is) =~= instance_lines(is.drop_last()).push(
            instance_line(is.last()),
        ));
        lemma_nj_push(instance_lines(is.drop_last()), instance_line(is.last()));
        assert(instance_text(is.last()) =~= instance_line(is.last()).push('\n'));
    }
}

proof fn lemma_blocks_text_lines(bs: Seq<MemoryBlockView>)
    ensures
        blocks_text(bs) == newline_joined(block_lines(bs)),
    decreases bs.len(),
{
    if bs.len() == 0 {
        assert(block_lines(bs) =~= Seq::<Seq<char>>::empty());
    } else {
        lemma_blocks_text_lines(bs.drop_last());
        assert(block_lines(bs) =~= block_lines(bs.drop_last()).push(block_line(bs.last())));
        lemma_nj_push(block_lines(bs.drop_last()), block_line(bs.last()));
        assert(block_text(bs.last()) =~= block_line(bs.last()).push('\n'));
    }
}

/// The canonical text is its lines, each followed by a newline.
proof fn lemma_canonical_text_lines(d: DefinitionView)
    ensures
        canonical_text_spec(d) == newline_joined(def_lines(d)),
{
    let h = head_lines(d);
    let g = label_lines("goal:"@, d.goals);
    let m = module_lines(d.modules);
    let i = instance_lines(d.instantiate);
    let c = label_lines("connect:"@, d.connect);
    let b = block_lines(d.memory_blocks);
    let o = seq![line("output:"@, d.output)];
    lemma_nj_concat(h, g);
    lemma_nj_concat(h + g, m);
    lemma_nj_concat(h + g + m, i);
    lemma_nj_concat(h + g + m + i, c);
    lemma_nj_concat(h + g + m + i + c, b);
    lemma_nj_concat(h + g + m + i + c + b, o);
    lemma_nj_three(h[0], h[1], h[2]);
    assert(h =~= seq![h[0], h[1], h[2]].push(h[3]));
    lemma_nj_push(seq![h[0], h[1], h[2]], h[3]);
    lemma_nj_push(Seq::empty(), o[0]);
    assert(Seq::<Seq<char>>::empty().push(o[0]) =~= o);
    assert(newline_joined(Seq::<Seq<char>>::empty()) == Seq::<char>::empty());
    lemma_fields_lines("goal:"@, d.goals);
    lemma_fields_lines("connect:"@, d.connect);
    lemma_modules_text_lines(d.modules);
    lemma_instances_text_lines(d.instantiate);
    lemma_blocks_text_lines(d.memory_blocks);
    assert(canonical_text_spec(d) =~= newline_joined(def_lines(d)));
}


proof fn lemma_labels_ok()
    ensures
        no_newline("kind:"@),
        no_newline("name:"@),
        no_newline("full_name:"@),
        no_newline("description:"@),
        no_newline("goal:"@),
        no_newline("module_begin"@),
        no_newline("module_name:"@),
        no_newline("module_summary:"@),
        no_newline("module_operation:"@),
        no_newline("module_input:"@),
        no_newline("module_output:"@),
        no_newline("module_end"@),
        no_newline("instance:"@),
        no_newline("connect:"@),
        no_newline("memory:"@),
        no_newline("output:"@),
{
    reveal_strlit("kind:");
    reveal_strlit("name:");
    reveal_strlit("full_name:");
    reveal_strlit("description:");
    reveal_strlit("goal:");
    reveal_strlit("module_begin");
    reveal_strlit("module_name:");
    reveal_strlit("module_summary:");
    reveal_strlit("module_operation:");
    reveal_strlit("module_input:");
    reveal_strlit("module_output:");
    reveal_strlit("module_end");
    reveal_strlit("instance:");
    reveal_strlit("connect:");
    reveal_strlit("memory:");
    reveal_strlit("output:");
}


proof fn lemma_concat_ok(a: Seq<Seq<char>>, b: Seq<Seq<char>>)
    requires
        lines_ok(a),
        lines_ok(b),
    ensures
        lines_ok(a + b),
{
    assert forall|i: int| 0 <= i < (a + b).len() implies no_newline(#[trigger] (a + b)[i]) by {
        if i < a.len() {
            assert((a + b)[i] == a[i]);
        } else {
            assert((a + b)[i] == b[i - a.len()]);
        }
    }
}

proof fn lemma_text_concat_ok(a: Seq<char>, b: Seq<char>)
    requires
        no_newline(a),
        no_newline(b),
    ensures
        no_newline(a + b),
{
    assert forall|i: int| 0 <= i < (a + b).len() implies (a + b)[i] != '\n' by {
        if i < a.len() {
            assert((a + b)[i] == a[i]);
        } else {
            assert((a + b)[i] == b[i - a.len()]);
        }
    }
}

proof fn lemma_line_ok(label: Seq<char>, v: Seq<char>)
    requires
        no_newline(label),
    ensures
        no_newline(line(label, v)),
{
    lemma_escape_no_newline(v);
    lemma_text_concat_ok(label, escape(v));
}

proof fn lemma_label_lines_ok(label: Seq<char>, items: Seq<Seq<char>>)
    requires
        no_newline(label),
    ensures
        lines_ok(label_lines(label, items)),
{
    assert forall|i: int| 0 <= i < label_lines(label, items).len() implies no_newline(
        #[trigger] label_lines(label, items)[i],
    ) by {
        lemma_line_ok(label, items[i]);
    }
}

proof fn lemma_module_lines_ok(ms: Seq<ModuleView>)
    ensures
        lines_ok(module_lines(ms)),
    decreases ms.len(),
{
    lemma_labels_ok();
    if ms.len() > 0 {
        lemma_module_lines_ok(ms.drop_last());
        let m = ms.last();
        let first = seq![
            "module_begin"@,
            line("module_name:"@, m.name),
            line("module_summary:"@, or_empty(m.summary)),
        ];
        lemma_line_ok("module_name:"@, m.name);
        lemma_line_ok("module_summary:"@, or_empty(m.summary));
        assert(lines_ok(first));
        lemma_label_lines_ok("module_operation:"@, m.operations);
        lemma_label_lines_ok("module_input:"@, m.inputs);
        lemma_label_lines_ok("module_output:"@, m.outputs);
        assert(lines_ok(seq!["module_end"@]));
        let ops = label_lines("module_operation:"@, m.operations);
        let ins = label_lines("module_input:"@, m.inputs);
        let outs = label_lines("module_output:"@, m.outputs);
        lemma_concat_ok(first, ops);
        lemma_concat_ok(first + ops, ins);
        lemma_concat_ok(first + ops + ins, outs);
        lemma_concat_ok(first + ops + ins + outs, seq!["module_end"@]);
        lemma_concat_ok(module_lines(ms.drop_last()), module_block(m));
    }
}

proof fn lemma_instance_line_ok(i: InstanceView)
    ensures
        no_newline(instance_line(i)),
{
    lemma_labels_ok();
    lemma_decimal_shape(i.count as nat);
    lemma_escape_no_newline(i.module_name);
    assert(no_newline(seq![':']));
    lemma_text_concat_ok("instance:"@, decimal(i.count as nat));
    lemma_text_concat_ok("instance:"@ + decimal(i.count as nat), seq![':']);
    lemma_text_concat_ok(
        "instance:"@ + decimal(i.count as nat) + seq![':'],
        escape(i.module_name),
    );
}

proof fn lemma_block_line_ok(b: MemoryBlockView)
    ensures
        no_newline(block_line(b)),
{
    lemma_labels_ok();
    lemma_escape_no_newline(b.name);
    lemma_escape_no_newline(b.size);
    assert(no_newline(seq![':']));
    lemma_text_concat_ok("memory:"@, escape(b.name));
    lemma_text_concat_ok("memory:"@ + escape(b.name), seq![':']);
    lemma_text_concat_ok("memory:"@ + escape(b.name) + seq![':'], escape(b.size));
}

proof fn lemma_def_lines_ok(d: DefinitionView)
    ensures
        lines_ok(def_lines(d)),
{
    lemma_labels_ok();
    let h = head_lines(d);
    lemma_line_ok("kind:"@, d.kind);
    lemma_line_ok("name:"@, d.name);
    lemma_line_ok("full_name:"@, or_empty(d.full_name));
    lemma_line_ok("description:"@, d.description);
    assert(lines_ok(h));
    let g = label_lines("goal:"@, d.goals);
    let m = module_lines(d.modules);
    let i = instance_lines(d.instantiate);
    let c = label_lines("connect:"@, d.connect);
    let b = block_lines(d.memory_blocks);
    let o = seq![line("output:"@, d.output)];
    lemma_label_lines_ok("goal:"@, d.goals);
    lemma_module_lines_ok(d.modules);
    assert forall|k: int| 0 <= k < i.len() implies no_newline(#[trigger] i[k]) by {
        lemma_instance_line_ok(d.instantiate[k]);
    }
    lemma_label_lines_ok("connect:"@, d.connect);
    assert forall|k: int| 0 <= k < b.len() implies no_newline(#[trigger] b[k]) by {
        lemma_block_line_ok(d.memory_blocks[k]);
    }
    lemma_line_ok("output:"@, d.output);
    assert(lines_ok(o));
    lemma_concat_ok(h, g);
    lemma_concat_ok(h + g, m);
    lemma_concat_ok(h + g + m, i);
    lemma_concat_ok(h + g + m + i, c);
    lemma_concat_ok(h + g + m + i + c, b);
    lemma_concat_ok(h + g + m + i + c + b, o);
}

/// A line begins with its label.
proof fn lemma_line_starts(label: Seq<char>, v: Seq<char>)
    ensures
        crate::text::starts_with(line(label, v), label),
{
    assert(line(label, v).take(label.len() as int) =~= label);
}

/// Two lines with the same label hold the same value.
proof fn lemma_line_injective(label: Seq<char>, v1: Seq<char>, v2: Seq<char>)
    requires
        line(label, v1) == line(label, v2),
    ensures
        v1 == v2,
{
    assert(escape(v1) =~= line(label, v1).skip(label.len() as int));
    assert(escape(v2) =~= line(label, v2).skip(label.len() as int));
    lemma_escape_injective(v1, v2);
}

proof fn lemma_label_lines_injective(label: Seq<char>, a: Seq<Seq<char>>, b: Seq<Seq<char>>)
    requires
        label_lines(label, a) == label_lines(label, b),
    ensures
        a == b,
{
    assert(a.len() == label_lines(label, a).len());
    assert forall|i: int| 0 <= i < a.len() implies a[i] == b[i] by {
        assert(label_lines(label, a)[i] == label_lines(label, b)[i]);
        lemma_line_injective(label, a[i], b[i]);
    }
    assert(a =~= b);
}

/// Whether `l` does not begin with `q`, seen at position `k`.
proof fn lemma_differs(l: Seq<char>, r: Seq<char>, q: Seq<char>, k: int)
    requires
        crate::text::starts_with(l, r),
        0 <= k < r.len(),
        k < q.len(),
        r[k] != q[k],
    ensures
        !crate::text::starts_with(l, q),
{
    assert(l.take(r.len() as int)[k] == r[k]);
    if crate::text::starts_with(l, q) {
        assert(l.take(q.len() as int)[k] == q[k]);
    }
}

/// Splitting two equal sequences of lines where each ends with a run of lines that `p`
/// accepts, after a line that it does not.
proof fn lemma_segment(
    b1: Seq<Seq<char>>,
    a1: Seq<Seq<char>>,
    b2: Seq<Seq<char>>,
    a2: Seq<Seq<char>>,
    q: Seq<char>,
)
    requires
        b1 + a1 == b2 + a2,
        forall|i: int| 0 <= i < a1.len() ==> crate::text::starts_with(#[trigger] a1[i], q),
        forall|i: int| 0 <= i < a2.len() ==> crate::text::starts_with(#[trigger] a2[i], q),
        b1.len() > 0,
        b2.len() > 0,
        !crate::text::starts_with(b1.last(), q),
        !crate::text::starts_with(b2.last(), q),
    ensures
        b1 == b2,
        a1 == a2,
{
    let t = b1 + a1;
    let u = b2 + a2;
    assert(t.len() == u.len());
    if b1.len() < b2.len() {
        let j = b2.len() - 1;
        assert(u[j] == b2[j]);
        assert(t[j] == a1[j - b1.len()]);
        assert(crate::text::starts_with(a1[j - b1.len()], q));
        assert(false);
    }
    if b2.len() < b1.len() {
        let j = b1.len() - 1;
        assert(t[j] == b1[j]);
        assert(u[j] == a2[j - b2.len()]);
        assert(crate::text::starts_with(a2[j - b2.len()], q));
        assert(false);
    }
    assert(b1 =~= t.take(b1.len() as int));
    assert(b2 =~= t.take(b2.len() as int));
    assert(a1 =~= t.skip(b1.len() as int));
    assert(a2 =~= t.skip(b2.len() as int));
}

proof fn lemma_label_lines_start(label: Seq<char>, items: Seq<Seq<char>>)
    ensures
        forall|i: int|
            0 <= i < label_lines(label, items).len() ==> crate::text::starts_with(
                #[trigger] label_lines(label, items)[i],
                label,
            ),
{
    assert forall|i: int| 0 <= i < label_lines(label, items).len() implies crate::text::starts_with(
        #[trigger] label_lines(label, items)[i],
        label,
    ) by {
        lemma_line_starts(label, items[i]);
    }
}

proof fn lemma_push_injective(a: Seq<Seq<char>>, x: Seq<char>, b: Seq<Seq<char>>, y: Seq<char>)
    requires
        a + seq![x] == b + seq![y],
    ensures
        a == b,
        x == y,
{
    let t = a + seq![x];
    assert(t.len() == a.len() + 1);
    assert(t.last() == x);
    assert((b + seq![y]).last() == y);
    assert(a =~= t.drop_last());
    assert(b =~= (b + seq![y]).drop_last());
}


/// A module with an absent summary written as an empty one.
pub open spec fn module_normalized(m: ModuleView) -> ModuleView {
    ModuleView { summary: Some(or_empty(m.summary)), ..m }
}

/// The modules, each normalized.
pub open spec fn modules_normalized(ms: Seq<ModuleView>) -> Seq<ModuleView> {
    Seq::new(ms.len(), |i: int| module_normalized(ms[i]))
}

/// A definition with each absent optional text (full name, module summaries) written as
/// an empty one: the canonical text writes both alike.
pub open spec fn normalized(d: DefinitionView) -> DefinitionView {
    DefinitionView {
        full_name: Some(or_empty(d.full_name)),
        modules: modules_normalized(d.modules),
        ..d
    }
}

proof fn lemma_last_of(x: Seq<Seq<char>>, y: Seq<Seq<char>>)
    requires
        x.len() > 0,
    ensures
        (x + y).len() > 0,
        (x + y).last() == if y.len() > 0 {
            y.last()
        } else {
            x.last()
        },
{
    if y.len() > 0 {
        assert((x + y)[(x + y).len() - 1] == y[y.len() - 1]);
    } else {
        assert((x + y)[(x + y).len() - 1] == x[x.len() - 1]);
    }
}

proof fn lemma_label_lines_last(label: Seq<char>, items: Seq<Seq<char>>)
    requires
        items.len() > 0,
    ensures
        crate::text::starts_with(label_lines(label, items).last(), label),
{
    lemma_label_lines_start(label, items);
    assert(label_lines(label, items).last() == label_lines(label, items)[items.len() - 1]);
}

/// The lines of the modules, when there are any, end with `module_end`.
proof fn lemma_module_lines_last(ms: Seq<ModuleView>)
    requires
        ms.len() > 0,
    ensures
        module_lines(ms).len() > 0,
        module_lines(ms).last() == "module_end"@,
{
    let b = module_block(ms.last());
    assert(b.last() == "module_end"@);
    lemma_last_of(module_lines(ms.drop_last()) + b.drop_last(), seq!["module_end"@]);
    assert(b =~= b.drop_last() + seq!["module_end"@]);
    assert(module_lines(ms) =~= module_lines(ms.drop_last()) + b.drop_last() + seq![
        "module_end"@,
    ]);
}

proof fn lemma_starts_self(s: Seq<char>)
    ensures
        crate::text::starts_with(s, s),
{
    assert(s.take(s.len() as int) =~= s);
}

proof fn lemma_three(x: Seq<Seq<char>>, a: Seq<char>, b: Seq<char>, c: Seq<char>)
    ensures
        x + seq![a, b, c] == x + seq![a] + seq![b] + seq![c],
{
    assert(x + seq![a, b, c] =~= x + seq![a] + seq![b] + seq![c]);
}

/// Equal lines of two module lists, after prefixes that do not end a module, come from
/// the same prefix and the same modules once normalized.
proof fn lemma_modules_injective(
    p1: Seq<Seq<char>>,
    ms1: Seq<ModuleView>,
    p2: Seq<Seq<char>>,
    ms2: Seq<ModuleView>,
)
    requires
        p1 + module_lines(ms1) == p2 + module_lines(ms2),
        p1.len() > 0,
        p2.len() > 0,
        !crate::text::starts_with(p1.last(), "module_end"@),
        !crate::text::starts_with(p2.last(), "module_end"@),
    ensures
        p1 == p2,
        modules_normalized(ms1) == modules_normalized(ms2),
    decreases ms1.len() + ms2.len(),
{
    reveal_strlit("module_begin");
    reveal_strlit("module_name:");
    reveal_strlit("module_summary:");
    reveal_strlit("module_operation:");
    reveal_strlit("module_input:");
    reveal_strlit("module_output:");
    reveal_strlit("module_end");
    lemma_starts_self("module_end"@);
    if ms1.len() == 0 && ms2.len() == 0 {
        assert(p1 =~= p1 + module_lines(ms1));
        assert(p2 =~= p2 + module_lines(ms2));
        assert(modules_normalized(ms1) =~= modules_normalized(ms2));
    } else if ms1.len() == 0 {
        assert(p1 =~= p1 + module_lines(ms1));
        lemma_module_lines_last(ms2);
        lemma_last_of(p2, module_lines(ms2));
    } else if ms2.len() == 0 {
        assert(p2 =~= p2 + module_lines(ms2));
        lemma_module_lines_last(ms1);
        lemma_last_of(p1, module_lines(ms1));
    } else {
        let m1 = ms1.last();
        let m2 = ms2.last();
        let x1 = p1 + module_lines(ms1.drop_last());
        let x2 = p2 + module_lines(ms2.drop_last());
        let f1 = seq![
            "module_begin"@,
            line("module_name:"@, m1.name),
            line("module_summary:"@, or_empty(m1.summary)),
        ];
        let f2 = seq![
            "module_begin"@,
            line("module_name:"@, m2.name),
            line("module_summary:"@, or_empty(m2.summary)),
        ];
        let o1 = label_lines("module_operation:"@, m1.operations);
        let o2 = label_lines("module_operation:"@, m2.operations);
        let i1 = label_lines("module_input:"@, m1.inputs);
        let i2 = label_lines("module_input:"@, m2.inputs);
        let u1 = label_lines("module_output:"@, m1.outputs);
        let u2 = label_lines("module_output:"@, m2.outputs);
        let e = seq!["module_end"@];
        assert(p1 + module_lines(ms1) =~= x1 + f1 + o1 + i1 + u1 + e);
        assert(p2 + module_lines(ms2) =~= x2 + f2 + o2 + i2 + u2 + e);
        lemma_push_injective(x1 + f1 + o1 + i1 + u1, "module_end"@, x2 + f2 + o2 + i2 + u2, "module_end"@);
        // The outputs.
        lemma_label_lines_start("module_output:"@, m1.outputs);
        lemma_label_lines_start("module_output:"@, m2.outputs);
        let s1 = line("module_summary:"@, or_empty(m1.summary));
        let s2 = line("module_summary:"@, or_empty(m2.summary));
        lemma_line_starts("module_summary:"@, or_empty(m1.summary));
        lemma_line_starts("module_summary:"@, or_empty(m2.summary));
        assert((x1 + f1).last() == s1) by {
            lemma_last_of(x1, f1);
        }
        assert((x2 + f2).last() == s2) by {
            lemma_last_of(x2, f2);
        }
        assert(x1 + f1 + o1 + i1 + u1 =~= (x1 + f1 + o1 + i1) + u1);
        assert(!crate::text::starts_with((x1 + f1 + o1 + i1).last(), "module_output:"@)) by {
            lemma_last_of(x1 + f1, o1);
            lemma_last_of(x1 + f1 + o1, i1);
            if m1.inputs.len() > 0 {
                lemma_label_lines_last("module_input:"@, m1.inputs);
                lemma_differs((x1 + f1 + o1 + i1).last(), "module_input:"@, "module_output:"@, 7);
            } else if m1.operations.len() > 0 {
                lemma_label_lines_last("module_operation:"@, m1.operations);
                lemma_differs(
                    (x1 + f1 + o1 + i1).last(),
                    "module_operation:"@,
                    "module_output:"@,
                    8,
                );
            } else {
                lemma_differs(s1, "module_summary:"@, "module_output:"@, 7);
            }
        }
        assert(!crate::text::starts_with((x2 + f2 + o2 + i2).last(), "module_output:"@)) by {
            lemma_last_of(x2 + f2, o2);
            lemma_last_of(x2 + f2 + o2, i2);
            if m2.inputs.len() > 0 {
                lemma_label_lines_last("module_input:"@, m2.inputs);
                lemma_differs((x2 + f2 + o2 + i2).last(), "module_input:"@, "module_output:"@, 7);
            } else if m2.operations.len() > 0 {
                lemma_label_lines_last("module_operation:"@, m2.operations);
                lemma_differs(
                    (x2 + f2 + o2 + i2).last(),
                    "module_operation:"@,
                    "module_output:"@,
                    8,
                );
            } else {
                lemma_differs(s2, "module_summary:"@, "module_output:"@, 7);
            }
        }
        lemma_last_of(x1 + f1, o1);
        lemma_last_of(x2 + f2, o2);
        lemma_segment(x1 + f1 + o1 + i1, u1, x2 + f2 + o2 + i2, u2, "module_output:"@);
        // The inputs.
        lemma_label_lines_start("module_input:"@, m1.inputs);
        lemma_label_lines_start("module_input:"@, m2.inputs);
        assert(!crate::text::starts_with((x1 + f1 + o1).last(), "module_input:"@)) by {
            if m1.operations.len() > 0 {
                lemma_label_lines_last("module_operation:"@, m1.operations);
                lemma_differs((x1 + f1 + o1).last(), "module_operation:"@, "module_input:"@, 7);
            } else {
                lemma_differs(s1, "module_summary:"@, "module_input:"@, 7);
            }
        }
        assert(!crate::text::starts_with((x2 + f2 + o2).last(), "module_input:"@)) by {
            if m2.operations.len() > 0 {
                lemma_label_lines_last("module_operation:"@, m2.operations);
                lemma_differs((x2 + f2 + o2).last(), "module_operation:"@, "module_input:"@, 7);
            } else {
                lemma_differs(s2, "module_summary:"@, "module_input:"@, 7);
            }
        }
        lemma_segment(x1 + f1 + o1, i1, x2 + f2 + o2, i2, "module_input:"@);
        // The operations.
        lemma_label_lines_start("module_operation:"@, m1.operations);
        lemma_label_lines_start("module_operation:"@, m2.operations);
        lemma_differs(s1, "module_summary:"@, "module_operation:"@, 7);
        lemma_differs(s2, "module_summary:"@, "module_operation:"@, 7);
        lemma_segment(x1 + f1, o1, x2 + f2, o2, "module_operation:"@);
        // The three first lines.
        let n1 = line("module_name:"@, m1.name);
        let n2 = line("module_name:"@, m2.name);
        lemma_three(x1, "module_begin"@, n1, s1);
        lemma_three(x2, "module_begin"@, n2, s2);
        lemma_push_injective(x1 + seq!["module_begin"@] + seq![n1], s1, x2 + seq![
            "module_begin"@,
        ] + seq![n2], s2);
        lemma_push_injective(x1 + seq!["module_begin"@], n1, x2 + seq!["module_begin"@], n2);
        lemma_push_injective(x1, "module_begin"@, x2, "module_begin"@);
        lemma_line_injective("module_summary:"@, or_empty(m1.summary), or_empty(m2.summary));
        lemma_line_injective("module_name:"@, m1.name, m2.name);
        lemma_label_lines_injective("module_operation:"@, m1.operations, m2.operations);
        lemma_label_lines_injective("module_input:"@, m1.inputs, m2.inputs);
        lemma_label_lines_injective("module_output:"@, m1.outputs, m2.outputs);
        // The modules before.
        lemma_modules_injective(p1, ms1.drop_last(), p2, ms2.drop_last());
        assert(module_normalized(m1) == module_normalized(m2));
        assert(modules_normalized(ms1.drop_last()).len() == modules_normalized(
            ms2.drop_last(),
        ).len());
        assert forall|k: int| 0 <= k < ms1.len() implies #[trigger] modules_normalized(ms1)[k]
            == modules_normalized(ms2)[k] by {
            if k < ms1.len() - 1 {
                assert(modules_normalized(ms1)[k] == modules_normalized(ms1.drop_last())[k]);
                assert(modules_normalized(ms2)[k] == modules_normalized(ms2.drop_last())[k]);
            }
        }
        assert(modules_normalized(ms1) =~= modules_normalized(ms2));
    }
}


proof fn lemma_instance_lines_injective(a: Seq<InstanceView>, b: Seq<InstanceView>)
    requires
        instance_lines(a) == instance_lines(b),
    ensures
        a == b,
{
    reveal_strlit("instance:");
    assert(a.len() == instance_lines(a).len());
    assert forall|k: int| 0 <= k < a.len() implies a[k] == b[k] by {
        let x = a[k];
        let y = b[k];
        assert(instance_lines(a)[k] == instance_lines(b)[k]);
        let lx = instance_line(x);
        let ly = instance_line(y);
        let n = "instance:"@.len() as int;
        assert(lx.skip(n) =~= decimal(x.count as nat) + seq![':'] + escape(x.module_name));
        assert(ly.skip(n) =~= decimal(y.count as nat) + seq![':'] + escape(y.module_name));
        lemma_decimal_shape(x.count as nat);
        lemma_decimal_shape(y.count as nat);
        lemma_split_at_colon(
            decimal(x.count as nat),
            escape(x.module_name),
            decimal(y.count as nat),
            escape(y.module_name),
        );
        lemma_decimal_injective(x.count as nat, y.count as nat);
        lemma_escape_injective(x.module_name, y.module_name);
    }
    assert(a =~= b);
}

proof fn lemma_block_lines_injective(a: Seq<MemoryBlockView>, b: Seq<MemoryBlockView>)
    requires
        block_lines(a) == block_lines(b),
    ensures
        a == b,
{
    reveal_strlit("memory:");
    assert(a.len() == block_lines(a).len());
    assert forall|k: int| 0 <= k < a.len() implies a[k] == b[k] by {
        let x = a[k];
        let y = b[k];
        assert(block_lines(a)[k] == block_lines(b)[k]);
        let n = "memory:"@.len() as int;
        assert(block_line(x).skip(n) =~= escape(x.name) + seq![':'] + escape(x.size));
        assert(block_line(y).skip(n) =~= escape(y.name) + seq![':'] + escape(y.size));
        lemma_escape_colon(x.name, escape(x.size), y.name, escape(y.size));
        lemma_escape_injective(x.size, y.size);
    }
    assert(a =~= b);
}

proof fn lemma_modules_text_normalized(ms: Seq<ModuleView>)
    ensures
        modules_text(modules_normalized(ms)) == modules_text(ms),
    decreases ms.len(),
{
    if ms.len() > 0 {
        lemma_modules_text_normalized(ms.drop_last());
        assert(modules_normalized(ms).drop_last() =~= modules_normalized(ms.drop_last()));
        assert(modules_normalized(ms).last() == module_normalized(ms.last()));
    }
}

/// Normalizing a definition does not change its canonical text.
proof fn lemma_text_normalized(d: DefinitionView)
    ensures
        canonical_text_spec(normalized(d)) == canonical_text_spec(d),
{
    lemma_modules_text_normalized(d.modules);
}

/// The canonical text determines the definition: two definitions have the same canonical
/// text exactly when they are equal once each absent optional text (the full name, a
/// module's summary) is taken as the empty text. So the canonical hash, a hash of that
/// text, changes with every change of a definition's structure that this leaves.
pub proof fn law_canonical_text_determines_definition(d1: DefinitionView, d2: DefinitionView)
    ensures
        (canonical_text_spec(d1) == canonical_text_spec(d2)) <==> (normalized(d1) == normalized(
            d2,
        )),
{
    lemma_text_normalized(d1);
    lemma_text_normalized(d2);
    if canonical_text_spec(d1) == canonical_text_spec(d2) {
        lemma_equal_text_same_definition(d1, d2);
    }
}

proof fn lemma_equal_text_same_definition(d1: DefinitionView, d2: DefinitionView)
    requires
        canonical_text_spec(d1) == canonical_text_spec(d2),
    ensures
        normalized(d1) == normalized(d2),
{
    reveal_strlit("kind:");
    reveal_strlit("name:");
    reveal_strlit("full_name:");
    reveal_strlit("description:");
    reveal_strlit("goal:");
    reveal_strlit("module_end");
    reveal_strlit("instance:");
    reveal_strlit("connect:");
    reveal_strlit("memory:");
    reveal_strlit("output:");
    lemma_starts_self("module_end"@);
    lemma_canonical_text_lines(d1);
    lemma_canonical_text_lines(d2);
    lemma_def_lines_ok(d1);
    lemma_def_lines_ok(d2);
    lemma_nj_injective(def_lines(d1), def_lines(d2));

    let h1 = head_lines(d1);
    let h2 = head_lines(d2);
    let g1 = label_lines("goal:"@, d1.goals);
    let g2 = label_lines("goal:"@, d2.goals);
    let m1 = module_lines(d1.modules);
    let m2 = module_lines(d2.modules);
    let i1 = instance_lines(d1.instantiate);
    let i2 = instance_lines(d2.instantiate);
    let c1 = label_lines("connect:"@, d1.connect);
    let c2 = label_lines("connect:"@, d2.connect);
    let b1 = block_lines(d1.memory_blocks);
    let b2 = block_lines(d2.memory_blocks);

    // The output line.
    lemma_push_injective(
        h1 + g1 + m1 + i1 + c1 + b1,
        line("output:"@, d1.output),
        h2 + g2 + m2 + i2 + c2 + b2,
        line("output:"@, d2.output),
    );
    lemma_line_injective("output:"@, d1.output, d2.output);

    // What the last line of each prefix begins with.
    let desc1 = line("description:"@, d1.description);
    let desc2 = line("description:"@, d2.description);
    lemma_line_starts("description:"@, d1.description);
    lemma_line_starts("description:"@, d2.description);
    assert(h1.last() == desc1);
    assert(h2.last() == desc2);
    lemma_last_of(h1, g1);
    lemma_last_of(h2, g2);
    lemma_last_of(h1 + g1, m1);
    lemma_last_of(h2 + g2, m2);
    lemma_last_of(h1 + g1 + m1, i1);
    lemma_last_of(h2 + g2 + m2, i2);
    lemma_last_of(h1 + g1 + m1 + i1, c1);
    lemma_last_of(h2 + g2 + m2 + i2, c2);
    if d1.goals.len() > 0 {
        lemma_label_lines_last("goal:"@, d1.goals);
    }
    if d2.goals.len() > 0 {
        lemma_label_lines_last("goal:"@, d2.goals);
    }
    if d1.modules.len() > 0 {
        lemma_module_lines_last(d1.modules);
    }
    if d2.modules.len() > 0 {
        lemma_module_lines_last(d2.modules);
    }
    if d1.instantiate.len() > 0 {
        assert(crate::text::starts_with(i1.last(), "instance:"@)) by {
            assert(i1.last() == instance_line(d1.instantiate.last()));
            assert(i1.last().take(9) =~= "instance:"@);
        }
    }
    if d2.instantiate.len() > 0 {
        assert(crate::text::starts_with(i2.last(), "instance:"@)) by {
            assert(i2.last() == instance_line(d2.instantiate.last()));
            assert(i2.last().take(9) =~= "instance:"@);
        }
    }
    if d1.connect.len() > 0 {
        lemma_label_lines_last("connect:"@, d1.connect);
    }
    if d2.connect.len() > 0 {
        lemma_label_lines_last("connect:"@, d2.connect);
    }

    // The memory blocks.
    assert forall|k: int| 0 <= k < b1.len() implies crate::text::starts_with(
        #[trigger] b1[k],
        "memory:"@,
    ) by {
        assert(b1[k].take(7) =~= "memory:"@);
    }
    assert forall|k: int| 0 <= k < b2.len() implies crate::text::starts_with(
        #[trigger] b2[k],
        "memory:"@,
    ) by {
        assert(b2[k].take(7) =~= "memory:"@);
    }
    let s4a = h1 + g1 + m1 + i1 + c1;
    let s4b = h2 + g2 + m2 + i2 + c2;
    assert(!crate::text::starts_with(s4a.last(), "memory:"@)) by {
        if d1.connect.len() > 0 {
            lemma_differs(s4a.last(), "connect:"@, "memory:"@, 0);
        } else if d1.instantiate.len() > 0 {
            lemma_differs(s4a.last(), "instance:"@, "memory:"@, 0);
        } else if d1.modules.len() > 0 {
            lemma_differs(s4a.last(), "module_end"@, "memory:"@, 1);
        } else if d1.goals.len() > 0 {
            lemma_differs(s4a.last(), "goal:"@, "memory:"@, 0);
        } else {
            lemma_differs(s4a.last(), "description:"@, "memory:"@, 0);
        }
    }
    assert(!crate::text::starts_with(s4b.last(), "memory:"@)) by {
        if d2.connect.len() > 0 {
            lemma_differs(s4b.last(), "connect:"@, "memory:"@, 0);
        } else if d2.instantiate.len() > 0 {
            lemma_differs(s4b.last(), "instance:"@, "memory:"@, 0);
        } else if d2.modules.len() > 0 {
            lemma_differs(s4b.last(), "module_end"@, "memory:"@, 1);
        } else if d2.goals.len() > 0 {
            lemma_differs(s4b.last(), "goal:"@, "memory:"@, 0);
        } else {
            lemma_differs(s4b.last(), "description:"@, "memory:"@, 0);
        }
    }
    lemma_segment(s4a, b1, s4b, b2, "memory:"@);
    lemma_block_lines_injective(d1.memory_blocks, d2.memory_blocks);

    // The connections.
    lemma_label_lines_start("connect:"@, d1.connect);
    lemma_label_lines_start("connect:"@, d2.connect);
    let s3a = h1 + g1 + m1 + i1;
    let s3b = h2 + g2 + m2 + i2;
    assert(!crate::text::starts_with(s3a.last(), "connect:"@)) by {
        if d1.instantiate.len() > 0 {
            lemma_differs(s3a.last(), "instance:"@, "connect:"@, 0);
        } else if d1.modules.len() > 0 {
            lemma_differs(s3a.last(), "module_end"@, "connect:"@, 0);
        } else if d1.goals.len() > 0 {
            lemma_differs(s3a.last(), "goal:"@, "connect:"@, 0);
        } else {
            lemma_differs(s3a.last(), "description:"@, "connect:"@, 0);
        }
    }
    assert(!crate::text::starts_with(s3b.last(), "connect:"@)) by {
        if d2.instantiate.len() > 0 {
            lemma_differs(s3b.last(), "instance:"@, "connect:"@, 0);
        } else if d2.modules.len() > 0 {
            lemma_differs(s3b.last(), "module_end"@, "connect:"@, 0);
        } else if d2.goals.len() > 0 {
            lemma_differs(s3b.last(), "goal:"@, "connect:"@, 0);
        } else {
            lemma_differs(s3b.last(), "description:"@, "connect:"@, 0);
        }
    }
    lemma_segment(s3a, c1, s3b, c2, "connect:"@);
    lemma_label_lines_injective("connect:"@, d1.connect, d2.connect);

    // The instances.
    assert forall|k: int| 0 <= k < i1.len() implies crate::text::starts_with(
        #[trigger] i1[k],
        "instance:"@,
    ) by {
        assert(i1[k].take(9) =~= "instance:"@);
    }
    assert forall|k: int| 0 <= k < i2.len() implies crate::text::starts_with(
        #[trigger] i2[k],
        "instance:"@,
    ) by {
        assert(i2[k].take(9) =~= "instance:"@);
    }
    let s2a = h1 + g1 + m1;
    let s2b = h2 + g2 + m2;
    assert(!crate::text::starts_with(s2a.last(), "instance:"@)) by {
        if d1.modules.len() > 0 {
            lemma_differs(s2a.last(), "module_end"@, "instance:"@, 0);
        } else if d1.goals.len() > 0 {
            lemma_differs(s2a.last(), "goal:"@, "instance:"@, 0);
        } else {
            lemma_differs(s2a.last(), "description:"@, "instance:"@, 0);
        }
    }
    assert(!crate::text::starts_with(s2b.last(), "instance:"@)) by {
        if d2.modules.len() > 0 {
            lemma_differs(s2b.last(), "module_end"@, "instance:"@, 0);
        } else if d2.goals.len() > 0 {
            lemma_differs(s2b.last(), "goal:"@, "instance:"@, 0);
        } else {
            lemma_differs(s2b.last(), "description:"@, "instance:"@, 0);
        }
    }
    lemma_segment(s2a, i1, s2b, i2, "instance:"@);
    lemma_instance_lines_injective(d1.instantiate, d2.instantiate);

    // The modules.
    let s1a = h1 + g1;
    let s1b = h2 + g2;
    assert(!crate::text::starts_with(s1a.last(), "module_end"@)) by {
        if d1.goals.len() > 0 {
            lemma_differs(s1a.last(), "goal:"@, "module_end"@, 0);
        } else {
            lemma_differs(s1a.last(), "description:"@, "module_end"@, 0);
        }
    }
    assert(!crate::text::starts_with(s1b.last(), "module_end"@)) by {
        if d2.goals.len() > 0 {
            lemma_differs(s1b.last(), "goal:"@, "module_end"@, 0);
        } else {
            lemma_differs(s1b.last(), "description:"@, "module_end"@, 0);
        }
    }
    lemma_modules_injective(s1a, d1.modules, s1b, d2.modules);

    // The goals.
    lemma_label_lines_start("goal:"@, d1.goals);
    lemma_label_lines_start("goal:"@, d2.goals);
    lemma_differs(desc1, "description:"@, "goal:"@, 0);
    lemma_differs(desc2, "description:"@, "goal:"@, 0);
    lemma_segment(h1, g1, h2, g2, "goal:"@);
    lemma_label_lines_injective("goal:"@, d1.goals, d2.goals);

    // The four first lines.
    assert(h1[0] == h2[0]);
    assert(h1[1] == h2[1]);
    assert(h1[2] == h2[2]);
    assert(h1[3] == h2[3]);
    lemma_line_injective("kind:"@, d1.kind, d2.kind);
    lemma_line_injective("name:"@, d1.name, d2.name);
    lemma_line_injective("full_name:"@, or_empty(d1.full_name), or_empty(d2.full_name));
    lemma_line_injective("description:"@, d1.description, d2.description);
    assert(normalized(d1) =~= normalized(d2));
}


/// The number of lines that the blocks of the modules take: four for the begin, name,
/// summary and end lines of each, and one per operation, input and output.
pub open spec fn module_line_count(ms: Seq<ModuleView>) -> nat
    decreases ms.len(),
{
    if ms.len() == 0 {
        0
    } else {
        module_line_count(ms.drop_last()) + 4 + ms.last().operations.len() + ms.last().inputs.len()
            + ms.last().outputs.len()
    }
}

proof fn lemma_module_lines_len(ms: Seq<ModuleView>)
    ensures
        module_lines(ms).len() == module_line_count(ms),
    decreases ms.len(),
{
    if ms.len() > 0 {
        lemma_module_lines_len(ms.drop_last());
    }
}

/// The canonical text is a sequence of lines, each followed by a newline and holding no
/// other: the kind, name, full name and description lines, one line per goal, the block of
/// each module, one line per instance, per connection and per memory block, and the output
/// line.
pub proof fn law_canonical_text_is_lines(d: DefinitionView)
    ensures
        canonical_text_spec(d) == newline_joined(def_lines(d)),
        lines_ok(def_lines(d)),
        def_lines(d).len() == 5 + d.goals.len() + module_line_count(d.modules)
            + d.instantiate.len() + d.connect.len() + d.memory_blocks.len(),
{
    lemma_canonical_text_lines(d);
    lemma_def_lines_ok(d);
    lemma_module_lines_len(d.modules);
}

} // verus!
