use pointsto::lexer::get_tokens;
use pointsto::parser::parse;
use pointsto::solver::solve;
use pointsto::solver::Node;

fn analyze(src: &str) -> Vec<Node> {
    let tokens = get_tokens(src);
    let ir = parse(tokens).expect("program should parse");
    solve(ir)
}

fn node_with_tag<'a>(nodes: &'a [Node], tag: &str) -> &'a Node {
    nodes
        .iter()
        .find(|n| n.tag.as_deref() == Some(tag))
        .expect("checkpoint should exist")
}

fn pointees(node: &Node, var: &str) -> Vec<String> {
    let set = node
        .data
        .lookup(&var.to_string())
        .expect("variable should have an entry");
    let mut names = set.items.clone();
    names.sort();
    names
}

fn snapshot(nodes: &[Node]) -> Vec<Vec<(String, Vec<String>)>> {
    nodes
        .iter()
        .map(|n| {
            let mut entries: Vec<(String, Vec<String>)> = n
                .data
                .items
                .iter()
                .map(|(k, vs)| {
                    let mut names = vs.items.clone();
                    names.sort();
                    (k.clone(), names)
                })
                .collect();
            entries.sort();
            entries
        })
        .collect()
}

#[test]
fn copy_of_reference() {
    let nodes = analyze("a = &b; c = a;");
    let last = node_with_tag(&nodes, "(End)");
    assert_eq!(pointees(last, "a"), vec!["b".to_string()]);
    assert_eq!(pointees(last, "c"), vec!["b".to_string()]);
    assert_eq!(last.data.items.len(), 2);
}

#[test]
fn load_through_pointer() {
    let nodes = analyze("a = &b; b = &c; d = *a;");
    let last = node_with_tag(&nodes, "(End)");
    assert_eq!(pointees(last, "a"), vec!["b".to_string()]);
    assert_eq!(pointees(last, "b"), vec!["c".to_string()]);
    assert_eq!(pointees(last, "d"), vec!["c".to_string()]);
}

#[test]
fn branches_merge_and_weak_update() {
    let nodes = analyze(
        "p = &x; q = &y; if { r = p; } else { r = q; } w = &z; *r = w; #check",
    );
    let check = node_with_tag(&nodes, "check");
    assert_eq!(pointees(check, "r"), vec!["x".to_string(), "y".to_string()]);
    assert!(pointees(check, "x").contains(&"z".to_string()));
    assert!(pointees(check, "y").contains(&"z".to_string()));
}

#[test]
fn loop_paths_merge() {
    let nodes = analyze("p = &a; while { p = &b; } #check");
    let check = node_with_tag(&nodes, "check");
    assert_eq!(pointees(check, "p"), vec!["a".to_string(), "b".to_string()]);
}

#[test]
fn solving_twice_gives_identical_environments() {
    let src = "p = &x; q = &y; if { r = p; } else { r = q; } w = &z; *r = w; while { s = *r; } #check";
    let first = analyze(src);
    let second = analyze(src);
    assert_eq!(snapshot(&first), snapshot(&second));
}

#[test]
fn weak_update_preserves_existing_pointees() {
    // x already points at w; the write through p only adds z
    let nodes = analyze("x = &w; p = &x; q = &z; *p = q; #check");
    let check = node_with_tag(&nodes, "check");
    assert_eq!(pointees(check, "x"), vec!["w".to_string(), "z".to_string()]);
}

#[test]
fn self_referential_pointer_converges() {
    let nodes = analyze("p = &p; q = *p;");
    let last = node_with_tag(&nodes, "(End)");
    assert_eq!(pointees(last, "p"), vec!["p".to_string()]);
    assert_eq!(pointees(last, "q"), vec!["p".to_string()]);
}

#[test]
fn empty_program_has_one_end_marker() {
    let nodes = analyze("");
    assert_eq!(nodes.len(), 1);
    assert_eq!(nodes[0].tag.as_deref(), Some("(End)"));
    assert!(nodes[0].data.items.is_empty());
}

#[test]
fn bare_semicolons_emit_no_instructions() {
    let nodes = analyze(";;");
    assert_eq!(nodes.len(), 1);
    assert_eq!(nodes[0].tag.as_deref(), Some("(End)"));
    assert!(nodes[0].data.items.is_empty());
}

#[test]
fn alias_of_unknown_variable_records_nothing() {
    let nodes = analyze("c = a;");
    let last = node_with_tag(&nodes, "(End)");
    assert!(last.data.lookup(&"c".to_string()).is_none());
    assert!(last.data.lookup(&"a".to_string()).is_none());
}

#[test]
fn write_through_unknown_pointer_records_nothing() {
    let nodes = analyze("*a = b;");
    let last = node_with_tag(&nodes, "(End)");
    assert!(last.data.items.is_empty());
}

#[test]
fn load_of_pointerless_target_gives_empty_entry() {
    // a points at b, but b points nowhere: c gains an entry with no pointees
    let nodes = analyze("a = &b; c = *a;");
    let last = node_with_tag(&nodes, "(End)");
    let c = last.data.lookup(&"c".to_string()).expect("c gets an entry");
    assert_eq!(c.len(), 0);
    assert!(last.data.lookup(&"b".to_string()).is_none());
}
