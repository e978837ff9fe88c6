use chip_as_text::{canonical_hash, parse, parse_import_target, ResolveAction, Resolver};

/// Runs the import walk over in-memory files, locating a target relative to the
/// directory of the importing file, the way a file system would.
fn resolve_in_memory(files: &[(&str, &str)], root: &str) -> Result<String, String> {
    let mut resolver = Resolver::new();
    let mut action = resolver.enter(root.to_string());
    loop {
        action = match action {
            ResolveAction::Read(path) => {
                let content = files
                    .iter()
                    .find(|(p, _)| *p == path)
                    .map(|(_, c)| c.to_string())
                    .ok_or_else(|| format!("Failed to read '{}'", path))?;
                resolver.loaded(&content)
            }
            ResolveAction::Locate { from, target } => {
                let dir = match from.rfind('/') {
                    Some(i) => &from[..i],
                    None => "",
                };
                let path = if dir.is_empty() {
                    target.clone()
                } else {
                    format!("{}/{}", dir, target)
                };
                resolver.enter(path)
            }
            ResolveAction::Done(output) => return Ok(output),
            ResolveAction::Fail(message) => return Err(message),
        };
    }
}

fn parse_in_memory(files: &[(&str, &str)], root: &str) -> Result<chip_as_text::Definition, String> {
    let text = resolve_in_memory(files, root)?;
    parse(&text)
}

#[test]
fn resolves_imports_recursively() {
    let files = [
        ("dir/fragments/ops.chipfrag", "Operations: add, mul\nInputs: a, b\nOutputs: c\n"),
        (
            "dir/fragments/module.chipfrag",
            "Define module ALU:\nSummary: Arithmetic core.\nIMPORT ops.chipfrag\n",
        ),
        (
            "dir/root.chip",
            "# CHIP v2 imported-test\nDescription:\nImported description.\nModules:\nIMPORT fragments/module.chipfrag\nOutput: done\n",
        ),
    ];

    let resolved = resolve_in_memory(&files, "dir/root.chip").unwrap();
    assert!(resolved.contains("Define module ALU:"));
    assert!(resolved.contains("Operations: add, mul"));

    let parsed = parse_in_memory(&files, "dir/root.chip").unwrap();
    assert_eq!(parsed.modules.len(), 1);
    assert_eq!(parsed.modules[0].name, "ALU");
    assert_eq!(parsed.modules[0].operations, vec!["add", "mul"]);
}

#[test]
fn rejects_multiple_headers_after_import_resolution() {
    let files = [
        ("dir/imported.chip", "# MEMORY v2 secondary\nDescription:\nNope\nOutput: x\n"),
        ("dir/root.chip", "# CHIP v2 primary\nDescription:\nRoot\nIMPORT imported.chip\nOutput: y\n"),
    ];
    let err = parse_in_memory(&files, "dir/root.chip").unwrap_err();
    assert!(err.contains("Multiple definition headers"));
}

#[test]
fn rejects_import_cycles() {
    let files = [
        ("dir/a.chip", "# CHIP v2 cycle\nDescription:\nA\nIMPORT b.chipfrag\nOutput: z\n"),
        ("dir/b.chipfrag", "IMPORT a.chip\n"),
    ];
    let err = parse_in_memory(&files, "dir/a.chip").unwrap_err();
    assert!(err.contains("Import cycle detected"));
    assert_eq!(err, "Import cycle detected: dir/a.chip -> dir/b.chipfrag -> dir/a.chip");
}

#[test]
fn hash_changes_when_structure_changes() {
    let flat = "# CHIP v2 blackwell-sm\nModules:\nDefine module Warp Scheduler:\nOperations: select\nOutput: sm\n";
    let files = [
        ("ex/sched.chipfrag", "Define module Warp Scheduler:\nOperations: select, issue\n"),
        ("ex/blackwell-sm-imported.chip", "# CHIP v2 blackwell-sm\nModules:\nIMPORT sched.chipfrag\nOutput: sm\n"),
    ];
    let a = parse(flat).unwrap();
    let b = parse_in_memory(&files, "ex/blackwell-sm-imported.chip").unwrap();
    assert_ne!(canonical_hash(&a), canonical_hash(&b));
}

#[test]
fn lines_are_copied_with_a_newline_each() {
    let files = [("f", "a\r\nb\n\nc")];
    assert_eq!(resolve_in_memory(&files, "f").unwrap(), "a\nb\n\nc\n");
    let files = [("g", "")];
    assert_eq!(resolve_in_memory(&files, "g").unwrap(), "");
}

#[test]
fn imported_text_gets_a_final_newline() {
    let files = [("r", "x\n  IMPORT 'e'  \ny"), ("e", "")];
    assert_eq!(resolve_in_memory(&files, "r").unwrap(), "x\n\ny\n");
}

#[test]
fn self_import_is_a_cycle() {
    let files = [("s", "IMPORT s")];
    assert_eq!(
        resolve_in_memory(&files, "s").unwrap_err(),
        "Import cycle detected: s -> s"
    );
}

#[test]
fn resolver_walks_step_by_step() {
    let mut r = Resolver::new();
    assert_eq!(r.depth(), 0);
    match r.enter("top".to_string()) {
        ResolveAction::Read(p) => assert_eq!(p, "top"),
        _ => panic!("expected a read"),
    }
    assert_eq!(r.depth(), 1);
    match r.loaded("one\nIMPORT \"sub file\"\ntwo\n") {
        ResolveAction::Locate { from, target } => {
            assert_eq!(from, "top");
            assert_eq!(target, "sub file");
        }
        _ => panic!("expected a locate"),
    }
    match r.enter("sub".to_string()) {
        ResolveAction::Read(p) => assert_eq!(p, "sub"),
        _ => panic!("expected a read"),
    }
    assert_eq!(r.depth(), 2);
    match r.loaded("inner\n") {
        ResolveAction::Done(out) => assert_eq!(out, "one\ninner\ntwo\n"),
        _ => panic!("expected the end"),
    }
}

#[test]
fn import_targets() {
    assert_eq!(parse_import_target("IMPORT a.chip").as_deref(), Some("a.chip"));
    assert_eq!(parse_import_target("IMPORT   \"x y\"  ").as_deref(), Some("x y"));
    assert_eq!(parse_import_target("IMPORT 'q'").as_deref(), Some("q"));
    assert_eq!(parse_import_target("IMPORT \"").as_deref(), Some("\""));
    assert_eq!(parse_import_target("IMPORT \"a'").as_deref(), Some("\"a'"));
    assert_eq!(parse_import_target("IMPORT    "), None);
    assert_eq!(parse_import_target("IMPORTx"), None);
    assert_eq!(parse_import_target("import a"), None);
}

#[test]
fn resolved_text_never_holds_an_import_line() {
    let files = [("r", "# CHIP v2 r\nIMPORT   \n  IMPORT\n")];
    let text = resolve_in_memory(&files, "r").unwrap();
    assert_eq!(text, "# CHIP v2 r\nIMPORT   \n  IMPORT\n");
    assert!(parse(&text).is_ok());
}
