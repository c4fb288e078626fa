use watt::error::{Address, Error, ErrorKind};
use watt::resolver::{extract_declarations, Frontend, Import, ImportsResolver, Node};

struct Mock {
    calls: Vec<String>,
    fail: bool,
    flat: bool,
}

impl Mock {
    fn new() -> Mock {
        Mock { calls: vec![], fail: false, flat: false }
    }
}

impl Frontend for Mock {
    fn analyze_file(&mut self, path: &String, _import: &Import) -> Result<Node, Error> {
        self.calls.push(path.clone());
        if self.fail {
            return Err(Error::new(
                ErrorKind::Compile,
                Address::new(1, 1, path.clone()),
                "unexpected token.".to_string(),
                "check the syntax.".to_string(),
            ));
        }
        if self.flat {
            return Ok(Node::Number { value: 3 });
        }
        Ok(Node::Block {
            body: vec![
                Node::FnDeclaration { name: "f".to_string() },
                Node::Number { value: 42 },
                Node::Type { name: "T".to_string() },
            ],
        })
    }
}

fn kinds(n: &Node) -> Vec<String> {
    match n {
        Node::Block { body } => body.iter().map(|x| format!("{:?}", x)).collect(),
        other => vec![format!("{:?}", other)],
    }
}

fn request(name: &str) -> Import {
    Import::new(None, name.to_string(), None)
}

#[test]
fn import_twice_resolves_once() {
    let mut r = ImportsResolver::new();
    let mut fe = Mock::new();
    let first = r.import(&request("std.io"), &mut fe).unwrap();
    assert!(first.is_some());
    let second = r.import(&request("std.io"), &mut fe).unwrap();
    assert!(second.is_none());
    assert_eq!(fe.calls, vec!["./libs/std/std_io.wt".to_string()]);
}

#[test]
fn resolve_keeps_declarations_in_order() {
    let r = ImportsResolver::new();
    let mut fe = Mock::new();
    let block = r.resolve(&request("mod.wt"), &mut fe).unwrap();
    assert_eq!(
        kinds(&block),
        vec![
            "FnDeclaration { name: \"f\" }".to_string(),
            "Type { name: \"T\" }".to_string(),
        ]
    );
    assert_eq!(fe.calls, vec!["mod.wt".to_string()]);
}

#[test]
fn extraction_keeps_every_declaration_kind() {
    let analyzed = Node::Block {
        body: vec![
            Node::Statement { text: "print(1)".to_string() },
            Node::Native { name: "n".to_string() },
            Node::Unit { name: "U".to_string() },
            Node::Number { value: 1 },
            Node::Trait { name: "Tr".to_string() },
            Node::Import { name: "std.io".to_string() },
        ],
    };
    let addr = Address::new(0, 0, "x.wt".to_string());
    let block = extract_declarations(analyzed, &addr).unwrap();
    assert_eq!(kinds(&block).len(), 4);
    assert!(kinds(&block)[0].starts_with("Native"));
    assert!(kinds(&block)[1].starts_with("Unit"));
    assert!(kinds(&block)[2].starts_with("Trait"));
    assert!(kinds(&block)[3].starts_with("Import"));
}

#[test]
fn extraction_of_empty_block_is_empty() {
    let addr = Address::new(0, 0, "x.wt".to_string());
    let block = extract_declarations(Node::Block { body: vec![] }, &addr).unwrap();
    assert!(kinds(&block).is_empty());
}

#[test]
fn non_block_module_is_refused() {
    let mut r = ImportsResolver::new();
    let mut fe = Mock::new();
    fe.flat = true;
    let e = r.import(&request("odd.wt"), &mut fe).unwrap_err();
    assert_eq!(e.kind, ErrorKind::NotABlock);
    assert!(!r.is_imported(&"odd.wt".to_string()));
}

#[test]
fn frontend_failure_is_passed_on() {
    let mut r = ImportsResolver::new();
    let mut fe = Mock::new();
    fe.fail = true;
    let e = r.import(&request("std.math"), &mut fe).unwrap_err();
    assert_eq!(e.kind, ErrorKind::Compile);
    assert_eq!(e.message, "unexpected token.");
    assert!(!r.is_imported(&"std.math".to_string()));
    fe.fail = false;
    assert!(r.import(&request("std.math"), &mut fe).unwrap().is_some());
    assert!(r.is_imported(&"std.math".to_string()));
}

#[test]
fn builtins_imported_once() {
    let mut r = ImportsResolver::new();
    let mut fe = Mock::new();
    let first = r.import_builtins(&mut fe).unwrap();
    assert_eq!(first.len(), 1);
    let second = r.import_builtins(&mut fe).unwrap();
    assert!(second.is_empty());
    assert_eq!(fe.calls, vec!["./libs/base.wt".to_string()]);
}

#[test]
fn failed_builtins_leave_registry_unchanged() {
    let mut r = ImportsResolver::new();
    let mut fe = Mock::new();
    fe.fail = true;
    let e = r.import_builtins(&mut fe).unwrap_err();
    assert_eq!(e.kind, ErrorKind::Compile);
    assert!(!r.is_imported(&"./libs/base.wt".to_string()));
    fe.fail = false;
    assert_eq!(r.import_builtins(&mut fe).unwrap().len(), 1);
    assert!(r.is_imported(&"./libs/base.wt".to_string()));
}

#[test]
fn alias_table_maps_standard_modules() {
    let r = ImportsResolver::new();
    assert_eq!(r.location(&"std.io".to_string()), "./libs/std/std_io.wt");
    assert_eq!(r.location(&"std.system".to_string()), "./libs/std/std_system.wt");
    assert_eq!(r.location(&"lib/other.wt".to_string()), "lib/other.wt");
}
