use chip_as_text::{canonical_hash, parse};

const BLACKWELL_SM: &str = "# CHIP v2 blackwell-sm
Full Name: Blackwell Streaming Multiprocessor

Description:
One streaming multiprocessor of a Blackwell GPU.
It issues warps to its execution units.

Architecture Goals:
- High occupancy
- Low scheduling latency

Modules:
Define module Warp Scheduler:
Summary: Picks a ready warp every cycle.
Operations: select, issue
Inputs: ready_mask
Outputs: warp_id

Define module Tensor Core:
Summary: Matrix multiply-accumulate.
Operations: mma
Inputs: a, b, c
Outputs: d

Define module Load Store Unit:
Summary: Moves data to and from memory.
Operations: load, store
Inputs: address
Outputs: data

Instantiate:
Create 4 instances of Warp Scheduler
Create 4 instances of Tensor Core
Create 32 instances of Load Store Unit

Connect:
Warp Scheduler -> Tensor Core
Warp Scheduler -> Load Store Unit

Output: blackwell-sm
";

const SM_MEMORY: &str = "# MEMORY v2 sm-memory
Full Name: SM Memory Subsystem

Description:
Memories close to one streaming multiprocessor.

Modules:
Define module Memory Controller:
Summary: Orders accesses to the blocks.
Operations: read, write
Inputs: request
Outputs: response

Instantiate:
Create 1 instances of Memory Controller

Memory:
Register File: 256KB
Shared Memory: 228KB
L1 Cache: 128KB

Output: sm-memory
";

#[test]
fn parses_chip_example() {
    let def = parse(BLACKWELL_SM).expect("blackwell-sm should parse");

    assert_eq!(def.kind, "CHIP");
    assert_eq!(def.name, "blackwell-sm");
    assert_eq!(def.modules.len(), 3);
    assert_eq!(def.instantiate.len(), 3);
    assert_eq!(def.instantiate[0].module_name, "Warp Scheduler");
    assert!(!canonical_hash(&def).is_empty());
}

#[test]
fn parses_memory_example() {
    let def = parse(SM_MEMORY).expect("sm-memory should parse");

    assert_eq!(def.kind, "MEMORY");
    assert_eq!(def.name, "sm-memory");
    assert_eq!(def.memory_blocks.len(), 3);
    assert_eq!(def.instantiate[0].module_name, "Memory Controller");
}

#[test]
fn rejects_missing_header() {
    let err = parse("Description:\nMissing header").unwrap_err();
    assert!(err.contains("Missing header"));
}

#[test]
fn parse_reads_every_field() {
    let def = parse(BLACKWELL_SM).unwrap();
    assert_eq!(def.full_name.as_deref(), Some("Blackwell Streaming Multiprocessor"));
    assert_eq!(
        def.description,
        "One streaming multiprocessor of a Blackwell GPU.\nIt issues warps to its execution units."
    );
    assert_eq!(def.goals, vec!["High occupancy", "Low scheduling latency"]);
    assert_eq!(def.modules[0].name, "Warp Scheduler");
    assert_eq!(def.modules[0].summary.as_deref(), Some("Picks a ready warp every cycle."));
    assert_eq!(def.modules[0].operations, vec!["select", "issue"]);
    assert_eq!(def.modules[1].inputs, vec!["a", "b", "c"]);
    assert_eq!(def.modules[2].outputs, vec!["data"]);
    assert_eq!(def.instantiate[2].module_name, "Load Store Unit");
    assert_eq!(def.instantiate[2].count, 32);
    assert_eq!(
        def.connect,
        vec!["Warp Scheduler -> Tensor Core", "Warp Scheduler -> Load Store Unit"]
    );
    assert!(def.memory_blocks.is_empty());
    assert_eq!(def.output, "blackwell-sm");
}

#[test]
fn parse_reads_memory_blocks() {
    let def = parse(SM_MEMORY).unwrap();
    assert_eq!(def.memory_blocks[0].name, "Register File");
    assert_eq!(def.memory_blocks[0].size, "256KB");
    assert_eq!(def.memory_blocks[2].name, "L1 Cache");
    assert_eq!(def.memory_blocks[2].size, "128KB");
    assert_eq!(def.instantiate[0].count, 1);
}

#[test]
fn rejects_unresolved_import() {
    let err = parse("# CHIP v2 x\nIMPORT other.chip\n").unwrap_err();
    assert_eq!(
        err,
        "Unresolved IMPORT directive found in parse(). Use parse_file() for hierarchical imports."
    );
}

#[test]
fn rejects_second_header() {
    let err = parse("# CHIP v2 a\n# MEMORY v2 b\n").unwrap_err();
    assert!(err.starts_with("Multiple definition headers found."));
}

#[test]
fn missing_header_message_is_exact() {
    assert_eq!(
        parse("").unwrap_err(),
        "Missing header: # CHIP v2 or # MEMORY v2"
    );
}

#[test]
fn header_name_is_trimmed_and_kind_follows_header() {
    let def = parse("   # MEMORY v2    banks  \r\n").unwrap();
    assert_eq!(def.kind, "MEMORY");
    assert_eq!(def.name, "banks");
    let def = parse("# CHIP v2core").unwrap();
    assert_eq!(def.kind, "CHIP");
    assert_eq!(def.name, "core");
}

#[test]
fn import_error_comes_before_a_later_missing_header() {
    let err = parse("IMPORT x").unwrap_err();
    assert!(err.starts_with("Unresolved IMPORT"));
}

#[test]
fn malformed_instantiate_lines_are_skipped() {
    let def = parse(
        "# CHIP v2 c\nInstantiate:\nCreate x instances of A\nCreate 3 instances of   \nMake 2 instances of B\nCreate +7 instances of  B \nCreate 4294967296 instances of C\nCreate 4294967295 instances of D\n",
    )
    .unwrap();
    assert_eq!(def.instantiate.len(), 2);
    assert_eq!(def.instantiate[0].module_name, "B");
    assert_eq!(def.instantiate[0].count, 7);
    assert_eq!(def.instantiate[1].module_name, "D");
    assert_eq!(def.instantiate[1].count, 4294967295);
}

#[test]
fn labels_are_removed_everywhere_in_the_line() {
    let def = parse("# CHIP v2 c\nFull Name: A Full Name: B\nModules:\nDefine module X:Y:\nOperations: a,, b ,Operations:c\n").unwrap();
    assert_eq!(def.full_name.as_deref(), Some("A  B"));
    assert_eq!(def.modules[0].name, "XY");
    assert_eq!(def.modules[0].operations, vec!["a", "b", "c"]);
}

#[test]
fn module_lines_without_open_module_are_ignored() {
    let def = parse("# CHIP v2 c\nModules:\nSummary: lost\nDefine module M\nSummary: kept\nDescription:\nSummary: text\n").unwrap();
    assert_eq!(def.modules.len(), 1);
    assert_eq!(def.modules[0].summary.as_deref(), Some("kept"));
    assert_eq!(def.description, "Summary: text");
}

#[test]
fn memory_lines_split_at_the_first_colon() {
    let def = parse("# MEMORY v2 m\nMemory:\n a : b : c \nno colon here\n").unwrap();
    assert_eq!(def.memory_blocks.len(), 1);
    assert_eq!(def.memory_blocks[0].name, "a");
    assert_eq!(def.memory_blocks[0].size, "b : c");
}

#[test]
fn goals_need_a_dash_and_a_space() {
    let def = parse("# CHIP v2 g\nArchitecture Goals:\n-x\n-  y  \n").unwrap();
    assert_eq!(def.goals, vec!["y"]);
}

#[test]
fn output_closes_the_section() {
    let def = parse("# CHIP v2 o\nConnect:\na -> b\nOutput: done\nc -> d\n").unwrap();
    assert_eq!(def.connect, vec!["a -> b"]);
    assert_eq!(def.output, "done");
}

#[test]
fn empty_header_name_is_a_missing_header() {
    assert_eq!(
        parse("# CHIP v2   \nDescription:\nx").unwrap_err(),
        "Missing header: # CHIP v2 or # MEMORY v2"
    );
    assert!(parse("# CHIP v2 x").is_ok());
}

#[test]
fn import_before_second_header_reports_the_import() {
    let err = parse("# CHIP v2 a\nIMPORT x\n# CHIP v2 b\n").unwrap_err();
    assert!(err.starts_with("Unresolved IMPORT directive"));
    let err = parse("# CHIP v2 a\n# MEMORY v2 b\nIMPORT x\n").unwrap_err();
    assert!(err.starts_with("Multiple definition headers found"));
}

#[test]
fn modules_come_only_from_define_lines_in_modules_sections() {
    let def = parse(
        "# CHIP v2 m\nDefine module Outside\nModules:\nDefine module A:\nConnect:\nDefine module B\nModules:\nDefine module C\nOutput: o\nDefine module D\n",
    )
    .unwrap();
    let names: Vec<&str> = def.modules.iter().map(|m| m.name.as_str()).collect();
    assert_eq!(names, vec!["A", "C"]);
}
