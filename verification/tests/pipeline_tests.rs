use rustparse::ConfigNode;
use rustparse::Program;
use rustparse::calculate_cfg_per_programs;
use rustparse::calculate_cg;
use rustparse::find_matching_nodes;
use rustparse::flow_hits;
use rustparse::solve;

const MAIN_FILE: &str = r#"public class Math {

    static int multiplyBytwo(int number) {
        int doubled = number * 2;
        return doubled;
    }

    public static void main(String[] args) {
        int result = multiplyBytwo(2);
        System.out.println("The output is: " + result);
    }
}"#;

#[test]
fn calls_reach_into_the_callee() {
    let mut program = Program::new(MAIN_FILE);
    program.get_tree();
    let programs = vec![program];
    let mut edges = calculate_cg(&programs);
    let cfg = calculate_cfg_per_programs(&programs);
    edges.merge_from(&cfg);
    let reachable = solve(&edges);

    let sources = ConfigNode {
        name: "call".to_string(),
        identifier: Some("local_variable_declaration".to_string()),
        code: Some("multiplyBytwo".to_string()),
    };
    let targets = ConfigNode {
        name: "ret".to_string(),
        identifier: Some("return_statement".to_string()),
        code: None,
    };
    let from_ids = find_matching_nodes(&programs, &sources).expect("valid pattern");
    let to_ids = find_matching_nodes(&programs, &targets).expect("no pattern");
    assert_eq!(from_ids.len(), 1);
    assert_eq!(to_ids.len(), 1);

    let hits = flow_hits(&programs, &reachable, &from_ids, &to_ids);
    // the call statement enters the callee body and flows to its return
    assert_eq!(hits.len(), 1);
    assert_eq!(hits[0].source_id, from_ids[0]);
    assert_eq!(hits[0].target_id, to_ids[0]);
}

#[test]
fn line_numbers_count_newlines() {
    let mut program = Program::new(MAIN_FILE);
    program.get_tree();
    let root = &program.tree;
    // the return statement sits on line 5 of the source
    let mut seen = false;
    for id in root.id..=root.children_until {
        let n = root.get_node_by_id(id).unwrap();
        if matches!(n.identifier, rustparse::ASTIdentifier::ReturnStatement) {
            assert_eq!(n.line_start, 5);
            assert_eq!(n.line_end, 5);
            assert_eq!(n.code, "return doubled;");
            seen = true;
        }
    }
    assert!(seen);
}
