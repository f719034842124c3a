use rustparse::ASTIdentifier;
use rustparse::ASTNode;
use rustparse::ConfigNode;
use rustparse::Program;
use rustparse::find_matching_nodes;

const SMALL: &str = r#"class A {
  void f() {
    int x = 1;
    x = x + 1;
  }
}"#;

const OTHER: &str = r#"class B {
  void g() {
    int y = 2;
  }
}"#;

fn check_id_ranges(n: &ASTNode) {
    assert!(n.id <= n.children_until);
    for c in &n.children {
        assert!(n.id < c.id);
        assert!(c.children_until <= n.children_until);
        check_id_ranges(c);
    }
}

#[test]
fn ids_stay_inside_the_subtree_bound() {
    let mut program = Program::new(SMALL);
    program.get_tree();
    assert!(matches!(program.tree.identifier, ASTIdentifier::Root));
    check_id_ranges(&program.tree);
}

#[test]
fn program_id_ranges_are_disjoint() {
    let programs = Program::new_list(vec![SMALL, OTHER]);
    assert_eq!(programs.len(), 2);
    assert!(programs[0].tree.children_until < programs[1].tree.id);
    assert!(programs[0].tree.id < programs[1].tree.id);
    assert_eq!(programs[1].tree.id, programs[0].count + 1);
}

#[test]
fn lookup_finds_every_id_in_range() {
    let mut program = Program::new(SMALL);
    program.get_tree();
    let root = &program.tree;
    for id in root.id..=root.children_until {
        let n = root.get_node_by_id(id).expect("id in range must resolve");
        assert_eq!(n.id, id);
    }
    assert!(root.get_node_by_id(root.children_until + 1).is_none());
}

#[test]
fn empty_source_parses_to_bare_root() {
    let mut program = Program::new("");
    program.get_tree();
    assert!(matches!(program.tree.identifier, ASTIdentifier::Root));
    assert_eq!(program.tree.id, 1);
    assert!(program.count >= 1);
}

#[test]
fn invalid_pattern_is_rejected() {
    let mut program = Program::new(SMALL);
    program.get_tree();
    let programs = vec![program];
    let node = ConfigNode { name: "bad".to_string(), identifier: None, code: Some("([".to_string()) };
    assert!(find_matching_nodes(&programs, &node).is_none());
}

#[test]
fn predicate_matches_kind_and_pattern() {
    let mut program = Program::new(SMALL);
    program.get_tree();
    let programs = vec![program];
    let by_kind = ConfigNode {
        name: "decls".to_string(),
        identifier: Some("local_variable_declaration".to_string()),
        code: None,
    };
    let decls = find_matching_nodes(&programs, &by_kind).expect("valid predicate");
    assert_eq!(decls.len(), 1);
    let by_code = ConfigNode {
        name: "plus".to_string(),
        identifier: None,
        code: Some(r"x \+ 1".to_string()),
    };
    let plus = find_matching_nodes(&programs, &by_code).expect("valid pattern");
    assert!(plus.len() >= 1);
    let none = ConfigNode {
        name: "none".to_string(),
        identifier: None,
        code: Some("zzz_not_there".to_string()),
    };
    let empty = find_matching_nodes(&programs, &none).expect("valid pattern");
    assert_eq!(empty.len(), 0);
}
