use rustparse::Program;
use rustparse::calculate_cfg;

const IF_CODE: &str = r#"
    class Test {
        int double(int x) {
            if (x > 5) {
                blubb = 1;
                bla = 5+blubb;
            } else {
                int bla = 5;
                bla = 5+3;
            }
            System.out.println("Hello, world!" + bla);
        }
    }
"#;

const IF_IF_CODE: &str = r#"
    class Test {
        int double(int x) {
            if (x > 5) {
                if (x < 10) {
                    blubb = 1;
                    bla = 5+blubb;
                }
            } else {
                int bla = 5;
                bla = 5+3;
            }
            System.out.println("Hello, world!" + bla);
        }
    }
"#;

const SWITCH_CODE: &str = r#"
   public class SwitchCaseClass {

    public static void main(String[] args){
        int i=2;

        switch(i){
        case 0:
            System.out.println("i ist null");
            break;
        case 1:
            System.out.println("i ist eins");
            break;
        case 2:
            System.out.println("i ist zwei");
            break;
        case 3:
            System.out.println("i ist drei");
            break;
        default:
            System.out.println("i liegt nicht zwischen null und drei");
            break;
        }
        System.out.println("Ende");

    }
}
"#;

const TRY_CATCH_CODE: &str = r#"
	public static void main(String[] args) {
			String input = JOptionPane.showInputDialog(null, "Wie alt bist du?");
			try{
				int alter = Integer.parseInt(input);
				JOptionPane.showMessageDialog(null, "Du bist " + alter + " Jahre alt.");
			}catch(Exception e){
				JOptionPane.showMessageDialog(null, "Du Schlingel hast keine Zahl eingegeben.");
			}
            System.out.println("Ende");
	}

"#;

const FOR_STATEMENT: &str = r#"
	public static void main(String[] args) {
			for (int i = 0; i < 5; i++) {
              System.out.println(i);
            }
           Systen.out.println("Ende");
	}
"#;

const WHILE_STATEMENT: &str = r#"
	public static void main(String[] args) {
			while (i < 5) {
              System.out.println(i);
              i++;
            }
           Systen.out.println("Ende");
	}
"#;

#[test]
fn test_for_statement() {
    let mut program = Program::new(FOR_STATEMENT);
    program.get_tree();
    let edges = calculate_cfg(&program.tree);
    assert_eq!(edges.len(), 3);
    assert_eq!(edges.get(26).unwrap(), &vec![59], "int i = 0; --> Sysout Ende");
    assert_eq!(edges.get(23).unwrap(), &vec![26, 45], "for --> int i = 0; AND Sysout i");
    assert_eq!(edges.get(45).unwrap(), &vec![26], "Sysout i --> int i = 0;");
}

#[test]
fn test_try_catch_statement() {
    let mut program = Program::new(TRY_CATCH_CODE);
    program.get_tree();
    let edges = calculate_cfg(&program.tree);
    assert_eq!(edges.len(), 5);
    assert_eq!(edges.get(87).unwrap(), &vec![100], "showMessageDialog --> Sysout Ende");
    assert_eq!(edges.get(23).unwrap(), &vec![39], "showInputDialog --> TryCatch");
    assert_eq!(edges.get(43).unwrap(), &vec![58], "parseInt --> showMessageDialog");
    assert_eq!(edges.get(58).unwrap(), &vec![100], "showMessageDialog --> Sysout Ende");
    assert_eq!(
        edges.get(39).unwrap(),
        &vec![100, 87, 43],
        "TryCatch --> Sysout Ende AND ShowMessageDialog AND parseInt"
    );
}

#[test]
fn test_switch_statement() {
    let mut program = Program::new(SWITCH_CODE);
    program.get_tree();
    let edges = calculate_cfg(&program.tree);
    assert_eq!(edges.len(), 7);
    assert_eq!(
        edges.get(35).unwrap(),
        &vec![143, 47, 67, 87, 107, 126],
        "Switch --> all Sysouts"
    );
}

#[test]
fn test_if_if_statement() {
    let mut program = Program::new(IF_IF_CODE);
    program.get_tree();
    let edges = calculate_cfg(&program.tree);
    assert_eq!(edges.len(), 6);
    assert_eq!(
        edges.get(20).unwrap(),
        &vec![80, 31, 62],
        "Outer IF --> inner IF AND Sysout Ende AND Else"
    );
}

#[test]
fn test_if_statement() {
    let mut program = Program::new(IF_CODE);
    program.get_tree();
    let edges = calculate_cfg(&program.tree);
    assert_eq!(edges.len(), 5);
    assert_eq!(
        edges.get(20).unwrap(),
        &vec![68, 31, 50],
        "IF --> Sysout AND THEN Branch AND Else Branch"
    );
}

#[test]
fn test_while_statement() {
    let mut program = Program::new(WHILE_STATEMENT);
    program.get_tree();
    let edges = calculate_cfg(&program.tree);
    assert_eq!(edges.len(), 3);
    assert_eq!(edges.get(23).unwrap(), &vec![53, 34], "WHILE --> Sysout AND Sysout Ende");
}
