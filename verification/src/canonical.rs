//! The canonical text of a definition and its BLAKE3 hash.

use vstd::prelude::*;

use crate::model::{
    block_views, instance_views, module_views, opt_view, Definition, DefinitionView, Instance,
    InstanceView, MemoryBlock, MemoryBlockView, Module, ModuleView,
};
use crate::text::{push_char, str_to_chars, string_views};

verus! {

/// How one character is written in the canonical text: backslash, newline, carriage return
/// and colon are escaped with a backslash, everything else stands for itself.
pub open spec fn escape_char(c: char) -> Seq<char> {
    if c == '\\' {
        seq!['\\', '\\']
    } else if c == '\n' {
        seq!['\\', 'n']
    } else if c == '\r' {
        seq!['\\', 'r']
    } else if c == ':' {
        seq!['\\', ':']
    } else {
        seq![c]
    }
}

/// `s` with each character escaped.
pub open spec fn escape(s: Seq<char>) -> Seq<char>
    decreases s.len(),
{
    if s.len() == 0 {
        Seq::empty()
    } else {
        escape(s.drop_last()) + escape_char(s.last())
    }
}

/// `s` with each occurrence of `c` replaced by `r`, as `str::replace` with a character
/// pattern gives it.
pub open spec fn replace_char(s: Seq<char>, c: char, r: Seq<char>) -> Seq<char>
    decreases s.len(),
{
    if s.len() == 0 {
        Seq::empty()
    } else {
        replace_char(s.drop_last(), c, r) + if s.last() == c {
            r
        } else {
            seq![s.last()]
        }
    }
}

proof fn lemma_replace_char_concat(a: Seq<char>, b: Seq<char>, c: char, r: Seq<char>)
    ensures
        replace_char(a + b, c, r) == replace_char(a, c, r) + replace_char(b, c, r),
    decreases b.len(),
{
    if b.len() == 0 {
        assert(a + b =~= a);
        assert(replace_char(a, c, r) + Seq::<char>::empty() =~= replace_char(a, c, r));
    } else {
        lemma_replace_char_concat(a, b.drop_last(), c, r);
        assert((a + b).drop_last() =~= a + b.drop_last());
        assert((a + b).last() == b.last());
        assert(replace_char(a + b, c, r) =~= replace_char(a, c, r) + replace_char(b, c, r));
    }
}

proof fn lemma_replace_char_single(x: char, c: char, r: Seq<char>)
    ensures
        replace_char(seq![x], c, r) == if x == c {
            r
        } else {
            seq![x]
        },
{
    assert(seq![x].drop_last() =~= Seq::<char>::empty());
    assert(seq![x].last() == x);
    assert(replace_char(Seq::<char>::empty(), c, r) == Seq::<char>::empty());
    assert(Seq::<char>::empty() + r =~= r);
    assert(Seq::<char>::empty() + seq![x] =~= seq![x]);
}

/// The four replacements that the canonical text makes, in the order they are made.
pub open spec fn four_replacements(s: Seq<char>) -> Seq<char> {
    replace_char(
        replace_char(
            replace_char(replace_char(s, '\\', seq!['\\', '\\']), '\n', seq!['\\', 'n']),
            '\r',
            seq!['\\', 'r'],
        ),
        ':',
        seq!['\\', ':'],
    )
}

proof fn lemma_four_concat(a: Seq<char>, b: Seq<char>)
    ensures
        four_replacements(a + b) == four_replacements(a) + four_replacements(b),
{
    let r1 = seq!['\\', '\\'];
    let r2 = seq!['\\', 'n'];
    let r3 = seq!['\\', 'r'];
    let r4 = seq!['\\', ':'];
    lemma_replace_char_concat(a, b, '\\', r1);
    let a1 = replace_char(a, '\\', r1);
    let b1 = replace_char(b, '\\', r1);
    lemma_replace_char_concat(a1, b1, '\n', r2);
    let a2 = replace_char(a1, '\n', r2);
    let b2 = replace_char(b1, '\n', r2);
    lemma_replace_char_concat(a2, b2, '\r', r3);
    let a3 = replace_char(a2, '\r', r3);
    let b3 = replace_char(b2, '\r', r3);
    lemma_replace_char_concat(a3, b3, ':', r4);
}

/// Escaping is what the four replacements of backslash, newline, carriage return and colon,
/// made one after the other, give.
pub proof fn law_escape_is_four_replacements(s: Seq<char>)
    ensures
        escape(s) == four_replacements(s),
    decreases s.len(),
{
    if s.len() == 0 {
        assert(four_replacements(s) == Seq::<char>::empty());
    } else {
        law_escape_is_four_replacements(s.drop_last());
        let x = s.last();
        assert(s =~= s.drop_last() + seq![x]);
        lemma_four_concat(s.drop_last(), seq![x]);
        let r1 = seq!['\\', '\\'];
        let r2 = seq!['\\', 'n'];
        let r3 = seq!['\\', 'r'];
        let r4 = seq!['\\', ':'];
        lemma_replace_char_single(x, '\\', r1);
        if x == '\\' {
            lemma_replace_char_concat(seq!['\\'], seq!['\\'], '\n', r2);
            lemma_replace_char_single('\\', '\n', r2);
            assert(r1 =~= seq!['\\'] + seq!['\\']);
            lemma_replace_char_concat(seq!['\\'], seq!['\\'], '\r', r3);
            lemma_replace_char_single('\\', '\r', r3);
            lemma_replace_char_concat(seq!['\\'], seq!['\\'], ':', r4);
            lemma_replace_char_single('\\', ':', r4);
        } else {
            lemma_replace_char_single(x, '\n', r2);
            if x == '\n' {
                assert(r2 =~= seq!['\\'] + seq!['n']);
                lemma_replace_char_concat(seq!['\\'], seq!['n'], '\r', r3);
                lemma_replace_char_single('\\', '\r', r3);
                lemma_replace_char_single('n', '\r', r3);
                lemma_replace_char_concat(seq!['\\'], seq!['n'], ':', r4);
                lemma_replace_char_single('\\', ':', r4);
                lemma_replace_char_single('n', ':', r4);
            } else {
                lemma_replace_char_single(x, '\r', r3);
                if x == '\r' {
                    assert(r3 =~= seq!['\\'] + seq!['r']);
                    lemma_replace_char_concat(seq!['\\'], seq!['r'], ':', r4);
                    lemma_replace_char_single('\\', ':', r4);
                    lemma_replace_char_single('r', ':', r4);
                } else {
                    lemma_replace_char_single(x, ':', r4);
                }
            }
        }
        assert(four_replacements(seq![x]) == escape_char(x));
        assert(escape(s) == escape(s.drop_last()) + escape_char(x));
    }
}

/// Appends the escaped form of `value` to `out`.
fn push_escaped(out: &mut String, value: &str)
    ensures
        final(out)@ == old(out)@ + escape(value@),
{
    let v = str_to_chars(value);
    let mut i: usize = 0;
    assert(v@.take(0) =~= Seq::<char>::empty());
    assert(old(out)@ + escape(Seq::<char>::empty()) =~= old(out)@);
    while i < v.len()
        invariant
            i <= v.len(),
            v@ == value@,
            out@ == old(out)@ + escape(v@.take(i as int)),
        decreases v.len() - i,
    {
        let c = v[i];
        let ghost before = out@;
        if c == '\\' {
            push_char(out, '\\');
            push_char(out, '\\');
        } else if c == '\n' {
            push_char(out, '\\');
            push_char(out, 'n');
        } else if c == '\r' {
            push_char(out, '\\');
            push_char(out, 'r');
        } else if c == ':' {
            push_char(out, '\\');
            push_char(out, ':');
        } else {
            push_char(out, c);
        }
        assert(v@.take(i + 1).drop_last() =~= v@.take(i as int));
        assert(v@.take(i + 1).last() == c);
        assert(out@ =~= before + escape_char(c));
        i = i + 1;
        assert(out@ =~= old(out)@ + escape(v@.take(i as int)));
    }
    assert(v@.take(v.len() as int) =~= v@);
}

/// Escapes backslash, newline, carriage return and colon with a backslash.
pub fn escape_value(input: &str) -> (res: String)
    ensures
        res@ == escape(input@),
{
    let mut out = String::new();
    push_escaped(&mut out, input);
    assert(Seq::<char>::empty() + escape(input@) =~= escape(input@));
    out
}

/// A line `<label><escaped value>` of the canonical text.
pub open spec fn field(label: Seq<char>, value: Seq<char>) -> Seq<char> {
    label + escape(value) + seq!['\n']
}

/// One `field` line per item, in order.
pub open spec fn fields(label: Seq<char>, items: Seq<Seq<char>>) -> Seq<char>
    decreases items.len(),
{
    if items.len() == 0 {
        Seq::empty()
    } else {
        fields(label, items.drop_last()) + field(label, items.last())
    }
}

/// The text of an optional value: the empty text where there is none.
pub open spec fn or_empty(o: Option<Seq<char>>) -> Seq<char> {
    match o {
        Some(s) => s,
        None => Seq::empty(),
    }
}

/// The character of a decimal digit.
pub open spec fn digit_char(d: nat) -> char {
    (d + 0x30) as char
}

/// The decimal numeral of `n`, without leading zeros.
pub open spec fn decimal(n: nat) -> Seq<char>
    decreases n,
{
    if n < 10 {
        seq![digit_char(n)]
    } else {
        decimal(n / 10) + seq![digit_char(n % 10)]
    }
}

/// The block of lines of one module.
pub open spec fn module_text(m: ModuleView) -> Seq<char> {
    "module_begin\n"@ + field("module_name:"@, m.name) + field("module_summary:"@, or_empty(m.summary))
        + fields("module_operation:"@, m.operations) + fields("module_input:"@, m.inputs) + fields(
        "module_output:"@,
        m.outputs,
    ) + "module_end\n"@
}

/// The blocks of the modules, in order.
pub open spec fn modules_text(ms: Seq<ModuleView>) -> Seq<char>
    decreases ms.len(),
{
    if ms.len() == 0 {
        Seq::empty()
    } else {
        modules_text(ms.drop_last()) + module_text(ms.last())
    }
}

/// The line of one instance: `instance:<count>:<escaped module name>`.
pub open spec fn instance_text(i: InstanceView) -> Seq<char> {
    "instance:"@ + decimal(i.count as nat) + seq![':'] + escape(i.module_name) + seq!['\n']
}

/// The lines of the instances, in order.
pub open spec fn instances_text(is: Seq<InstanceView>) -> Seq<char>
    decreases is.len(),
{
    if is.len() == 0 {
        Seq::empty()
    } else {
        instances_text(is.drop_last()) + instance_text(is.last())
    }
}

/// The line of one memory block: `memory:<escaped name>:<escaped size>`.
pub open spec fn block_text(b: MemoryBlockView) -> Seq<char> {
    "memory:"@ + escape(b.name) + seq![':'] + escape(b.size) + seq!['\n']
}

/// The lines of the memory blocks, in order.
pub open spec fn blocks_text(bs: Seq<MemoryBlockView>) -> Seq<char>
    decreases bs.len(),
{
    if bs.len() == 0 {
        Seq::empty()
    } else {
        blocks_text(bs.drop_last()) + block_text(bs.last())
    }
}

/// The canonical text of a definition: one line per field, in a fixed order.
pub open spec fn canonical_text_spec(d: DefinitionView) -> Seq<char> {
    field("kind:"@, d.kind) + field("name:"@, d.name) + field("full_name:"@, or_empty(d.full_name))
        + field("description:"@, d.description) + fields("goal:"@, d.goals) + modules_text(d.modules)
        + instances_text(d.instantiate) + fields("connect:"@, d.connect) + blocks_text(
        d.memory_blocks,
    ) + field("output:"@, d.output)
}

/// Appends a `field` line.
fn push_field(out: &mut String, label: &str, value: &str)
    ensures
        final(out)@ == old(out)@ + field(label@, value@),
{
    out.append(label);
    push_escaped(out, value);
    push_char(out, '\n');
    assert(out@ =~= old(out)@ + field(label@, value@));
}

/// Appends one `field` line per item.
fn push_fields(out: &mut String, label: &str, items: &Vec<String>)
    ensures
        final(out)@ == old(out)@ + fields(label@, string_views(items@)),
{
    let ghost all = string_views(items@);
    let mut i: usize = 0;
    assert(all.take(0) =~= Seq::<Seq<char>>::empty());
    assert(old(out)@ + fields(label@, Seq::<Seq<char>>::empty()) =~= old(out)@);
    while i < items.len()
        invariant
            i <= items.len(),
            all == string_views(items@),
            out@ == old(out)@ + fields(label@, all.take(i as int)),
        decreases items.len() - i,
    {
        push_field(out, label, items[i].as_str());
        assert(all.take(i + 1).drop_last() =~= all.take(i as int));
        assert(all.take(i + 1).last() == items@[i as int]@);
        i = i + 1;
        assert(out@ =~= old(out)@ + fields(label@, all.take(i as int)));
    }
    assert(all.take(items.len() as int) =~= all);
}

/// Appends the decimal numeral of `n`.
fn push_decimal(out: &mut String, n: u32)
    ensures
        final(out)@ == old(out)@ + decimal(n as nat),
    decreases n,
{
    if n >= 10 {
        push_decimal(out, n / 10);
    }
    let d = n % 10;
    let c = char_of_digit(d);
    push_char(out, c);
    assert(out@ =~= old(out)@ + decimal(n as nat));
}

/// The character of a decimal digit.
fn char_of_digit(d: u32) -> (c: char)
    requires
        d < 10,
    ensures
        c == digit_char(d as nat),
{
    let b: u8 = 0x30 + (d as u8);
    b as char
}

/// Appends the block of lines of one module.
fn push_module(out: &mut String, m: &Module)
    ensures
        final(out)@ == old(out)@ + module_text(m@),
{
    out.append("module_begin\n");
    push_field(out, "module_name:", m.name.as_str());
    match &m.summary {
        Some(s) => push_field(out, "module_summary:", s.as_str()),
        None => push_field(out, "module_summary:", ""),
    }
    push_fields(out, "module_operation:", &m.operations);
    push_fields(out, "module_input:", &m.inputs);
    push_fields(out, "module_output:", &m.outputs);
    out.append("module_end\n");
    proof {
        reveal_strlit("");
    }
    assert(out@ =~= old(out)@ + module_text(m@));
}

/// Appends the blocks of the modules.
fn push_modules(out: &mut String, modules: &Vec<Module>)
    ensures
        final(out)@ == old(out)@ + modules_text(module_views(modules@)),
{
    let ghost ms = module_views(modules@);
    let mut i: usize = 0;
    assert(ms.take(0) =~= Seq::<ModuleView>::empty());
    assert(old(out)@ + modules_text(Seq::<ModuleView>::empty()) =~= old(out)@);
    while i < modules.len()
        invariant
            i <= modules.len(),
            ms == module_views(modules@),
            out@ == old(out)@ + modules_text(ms.take(i as int)),
        decreases modules.len() - i,
    {
        push_module(out, &modules[i]);
        assert(ms.take(i + 1).drop_last() =~= ms.take(i as int));
        assert(ms.take(i + 1).last() == modules@[i as int]@);
        i = i + 1;
        assert(out@ =~= old(out)@ + modules_text(ms.take(i as int)));
    }
    assert(ms.take(modules.len() as int) =~= ms);
}

/// Appends the line of one instance.
fn push_instance(out: &mut String, inst: &Instance)
    ensures
        final(out)@ == old(out)@ + instance_text(inst@),
{
    out.append("instance:");
    push_decimal(out, inst.count);
    push_char(out, ':');
    push_escaped(out, inst.module_name.as_str());
    push_char(out, '\n');
    assert(out@ =~= old(out)@ + instance_text(inst@));
}

/// Appends the lines of the instances.
fn push_instances(out: &mut String, insts: &Vec<Instance>)
    ensures
        final(out)@ == old(out)@ + instances_text(instance_views(insts@)),
{
    let ghost is = instance_views(insts@);
    let mut j: usize = 0;
    assert(is.take(0) =~= Seq::<InstanceView>::empty());
    assert(old(out)@ + instances_text(Seq::<InstanceView>::empty()) =~= old(out)@);
    while j < insts.len()
        invariant
            j <= insts.len(),
            is == instance_views(insts@),
            out@ == old(out)@ + instances_text(is.take(j as int)),
        decreases insts.len() - j,
    {
        push_instance(out, &insts[j]);
        assert(is.take(j + 1).drop_last() =~= is.take(j as int));
        assert(is.take(j + 1).last() == insts@[j as int]@);
        j = j + 1;
        assert(out@ =~= old(out)@ + instances_text(is.take(j as int)));
    }
    assert(is.take(insts.len() as int) =~= is);
}

/// Appends the line of one memory block.
fn push_block(out: &mut String, b: &MemoryBlock)
    ensures
        final(out)@ == old(out)@ + block_text(b@),
{
    out.append("memory:");
    push_escaped(out, b.name.as_str());
    push_char(out, ':');
    push_escaped(out, b.size.as_str());
    push_char(out, '\n');
    assert(out@ =~= old(out)@ + block_text(b@));
}

/// Appends the lines of the memory blocks.
fn push_blocks(out: &mut String, blocks: &Vec<MemoryBlock>)
    ensures
        final(out)@ == old(out)@ + blocks_text(block_views(blocks@)),
{
    let ghost bs = block_views(blocks@);
    let mut k: usize = 0;
    assert(bs.take(0) =~= Seq::<MemoryBlockView>::empty());
    assert(old(out)@ + blocks_text(Seq::<MemoryBlockView>::empty()) =~= old(out)@);
    while k < blocks.len()
        invariant
            k <= blocks.len(),
            bs == block_views(blocks@),
            out@ == old(out)@ + blocks_text(bs.take(k as int)),
        decreases blocks.len() - k,
    {
        push_block(out, &blocks[k]);
        assert(bs.take(k + 1).drop_last() =~= bs.take(k as int));
        assert(bs.take(k + 1).last() == blocks@[k as int]@);
        k = k + 1;
        assert(out@ =~= old(out)@ + blocks_text(bs.take(k as int)));
    }
    assert(bs.take(blocks.len() as int) =~= bs);
}

/// Appends the canonical text of `def` to `out`, field by field.
fn push_definition(out: &mut String, def: &Definition)
    ensures
        final(out)@ == old(out)@ + canonical_text_spec(def@),
{
    proof {
        reveal_strlit("");
    }
    push_field(out, "kind:", def.kind.as_str());
    push_field(out, "name:", def.name.as_str());
    match &def.full_name {
        Some(s) => push_field(out, "full_name:", s.as_str()),
        None => push_field(out, "full_name:", ""),
    }
    push_field(out, "description:", def.description.as_str());
    push_fields(out, "goal:", &def.goals);
    push_modules(out, &def.modules);
    push_instances(out, &def.instantiate);
    push_fields(out, "connect:", &def.connect);
    push_blocks(out, &def.memory_blocks);
    push_field(out, "output:", def.output.as_str());
    assert(out@ =~= old(out)@ + canonical_text_spec(def@));
}

/// The canonical text of a definition: one `label:value` line per field, values escaped,
/// in a fixed order, so that equal definitions have equal text.
pub fn canonical_text(def: &Definition) -> (res: String)
    ensures
        res@ == canonical_text_spec(def@),
{
    let mut out = String::new();
    push_definition(&mut out, def);
    assert(Seq::<char>::empty() + canonical_text_spec(def@) =~= canonical_text_spec(def@));
    out
}


/// The lowercase hexadecimal digit of a number below sixteen.
pub open spec fn hex_digit(n: nat) -> char {
    if n < 10 {
        (n + 0x30) as char
    } else {
        (n - 10 + 0x61) as char
    }
}

/// The lowercase hexadecimal text of a byte sequence: two digits per byte, the high
/// nibble first.
pub open spec fn hex_lower(bytes: Seq<u8>) -> Seq<char>
    decreases bytes.len(),
{
    if bytes.len() == 0 {
        Seq::empty()
    } else {
        hex_lower(bytes.drop_last()) + seq![
            hex_digit((bytes.last() / 16) as nat),
            hex_digit((bytes.last() % 16) as nat),
        ]
    }
}

/// The hexadecimal digit of a number below sixteen.
fn hex_char(n: u8) -> (c: char)
    requires
        n < 16,
    ensures
        c == hex_digit(n as nat),
{
    if n < 10 {
        (0x30 + n) as char
    } else {
        (0x61 + (n - 10)) as char
    }
}

/// The lowercase hexadecimal text of `bytes`, as `blake3::Hash::to_hex` writes a digest.
pub fn hex_encode(bytes: &[u8]) -> (res: String)
    ensures
        res@ == hex_lower(bytes@),
{
    let mut out = String::new();
    let mut i: usize = 0;
    assert(bytes@.take(0) =~= Seq::<u8>::empty());
    while i < bytes.len()
        invariant
            i <= bytes.len(),
            out@ == hex_lower(bytes@.take(i as int)),
        decreases bytes.len() - i,
    {
        let b = bytes[i];
        push_char(&mut out, hex_char(b / 16));
        push_char(&mut out, hex_char(b % 16));
        assert(bytes@.take(i + 1).drop_last() =~= bytes@.take(i as int));
        assert(bytes@.take(i + 1).last() == b);
        i = i + 1;
        assert(out@ =~= hex_lower(bytes@.take(i as int)));
    }
    assert(bytes@.take(bytes.len() as int) =~= bytes@);
    out
}

/// The BLAKE3 digest of a byte sequence, as `blake3::hash` computes it.
pub uninterp spec fn blake3_digest(data: Seq<u8>) -> Seq<u8>;

/// Calls `blake3::hash` and hands out the 32 bytes of the digest (`Hash::as_bytes`).
/// Trusted: the result is the BLAKE3 digest of `data`, which depends on `data` alone,
/// and it is `blake3::OUT_LEN` (32) bytes long, as the type `[u8; 32]` of `as_bytes` shows.
#[verifier::external_body]
fn blake3_hash(data: &[u8]) -> (res: Vec<u8>)
    ensures
        res@ == blake3_digest(data@),
        res@.len() == 32,
{
    blake3::hash(data).as_bytes().to_vec()
}

/// The BLAKE3 hash of the canonical text of `def`, UTF-8 encoded, in lowercase hexadecimal.
pub fn canonical_hash(def: &Definition) -> (res: String)
    ensures
        res@ == hex_lower(blake3_digest(vstd::utf8::encode_utf8(canonical_text_spec(def@)))),
        res@.len() == 64,
{
    let text = canonical_text(def);
    let bytes = text.as_str().as_bytes();
    let digest = blake3_hash(bytes);
    proof {
        lemma_hex_lower_len(digest@);
    }
    hex_encode(digest.as_slice())
}

/// The hexadecimal text of a byte sequence has two digits per byte.
pub proof fn lemma_hex_lower_len(bytes: Seq<u8>)
    ensures
        hex_lower(bytes).len() == 2 * bytes.len(),
    decreases bytes.len(),
{
    if bytes.len() > 0 {
        lemma_hex_lower_len(bytes.drop_last());
    }
}

} // verus!
