use rustparse::Program;
use rustparse::calculate_cg;

const INNER_CLASS_CALL: &str = r#"public class Math {

    static int multiplyBytwo(int number) {
        return number * 2;
    }

    public static void main(String[] args) {
        int result = multiplyBytwo(2);
        System.out.println("The output is: " + result);
    }
}"#;

const OUTER_CLASS_CALL_SINGLE_FILE: &str = r#"class Second {
  public static void main(String[] args) {
    Main myCar = new Main();     // Create a myCar object
    myCar.fullThrottle();      // Call the fullThrottle() method
    myCar.speed(200);          // Call the speed() method
  }
}
public class Main {
  public void fullThrottle() {
    System.out.println("The car is going as fast as it can!");
  }

  public void speed(int maxSpeed) {
    System.out.println("Max speed is: " + maxSpeed);
  }
}"#;

const OUTER_CLASS_CALL_MULTIPLE_FILES_DEFINITIONS: &str = r#"class Animal {
  public void animalSound() {
    System.out.println("The animal makes a sound");
  }
}

class Pig extends Animal {
  public void animalSound() {
    System.out.println("The pig says: wee wee");
  }
}

class Dog extends Animal {
  public void animalSound() {
    System.out.println("The dog says: bow wow");
  }
}"#;

const OUTER_CLASS_CALL_MULTIPLE_FILES: &str = r#"
import Dog;
class Main {
  public static void main(String[] args) {
    Animal myAnimal = new Animal();  // Create a Animal object
    Animal myDog = new Dog();  // Create a Dog object
    myDog.animalSound();
  }
}"#;

#[test]
fn test_local_func_call() {
    let mut program = Program::new(INNER_CLASS_CALL);
    program.get_tree();
    let programs = vec![program];
    let edges = calculate_cg(&programs);
    // one resolved call (two keys) plus one definition anchor per method
    assert_eq!(edges.len(), 4);
    assert_eq!(
        edges.get(50).unwrap(),
        &vec![24],
        "The method invocation should point to the first statement of the function definition"
    );
}

#[test]
fn test_external_func_call_single_file() {
    let mut program = Program::new(OUTER_CLASS_CALL_SINGLE_FILE);
    program.get_tree();
    let programs = vec![program];
    let edges = calculate_cg(&programs);
    assert_eq!(edges.len(), 7);
    assert_eq!(
        edges.get(38).unwrap(),
        &vec![78],
        "myCar.fullThrottle() should point to the fullThrottle() method"
    );
    assert_eq!(
        edges.get(48).unwrap(),
        &vec![106],
        "myCar.speed(200) should point to the speed(int maxSpeed) method"
    );
}

#[test]
fn test_external_func_call_multiple_file() {
    let programs = Program::new_list(vec![
        OUTER_CLASS_CALL_MULTIPLE_FILES_DEFINITIONS,
        OUTER_CLASS_CALL_MULTIPLE_FILES,
    ]);
    let edges = calculate_cg(&programs);
    // one definition anchor per method plus the import-filtered call pair
    assert_eq!(edges.len(), 6);
    assert_eq!(
        edges.get(152).unwrap(),
        &vec![83],
        "The method invocation myDog.anomalSound should point to the animalSound() method of the Dog Class"
    );
}

#[test]
fn import_filter_blocks_unimported_classes() {
    const CALLS_WITHOUT_IMPORT: &str = r#"
class Main {
  public static void main(String[] args) {
    Animal myAnimal = new Animal();  // Create a Animal object
    Animal myDog = new Dog();  // Create a Dog object
    myDog.animalSound();
  }
}"#;
    let programs = Program::new_list(vec![
        OUTER_CLASS_CALL_MULTIPLE_FILES_DEFINITIONS,
        CALLS_WITHOUT_IMPORT,
    ]);
    let edges = calculate_cg(&programs);
    // only the per-method definition anchors remain
    assert_eq!(edges.len(), 4);
    // no edge crosses the file boundary
    let boundary = programs[0].count;
    for (a, b) in edges.pairs() {
        assert_eq!(a <= boundary, b <= boundary);
    }
}
