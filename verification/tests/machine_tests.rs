use solvers::machine::{u3, Computer, Execution};

fn u3s(values: Vec<u8>) -> Vec<u3> {
    values.into_iter().map(|x| u3::try_from_u8(x).unwrap()).collect()
}

#[test]
fn u3_from_u8() {
    assert_eq!(u3::try_from_u8(0_u8).unwrap().to_u8(), 0b00000000);
    assert_eq!(u3::try_from_u8(1_u8).unwrap().to_u8(), 0b00000001);
    assert_eq!(u3::try_from_u8(2_u8).unwrap().to_u8(), 0b00000010);
    assert_eq!(u3::try_from_u8(3_u8).unwrap().to_u8(), 0b00000011);
    assert_eq!(u3::try_from_u8(4_u8).unwrap().to_u8(), 0b00000100);
    assert_eq!(u3::try_from_u8(5_u8).unwrap().to_u8(), 0b00000101);
    assert_eq!(u3::try_from_u8(6_u8).unwrap().to_u8(), 0b00000110);
    assert_eq!(u3::try_from_u8(7_u8).unwrap().to_u8(), 0b00000111);
    assert_eq!(u3::try_from_u8(8_u8).is_none(), true);
}

#[test]
fn test_instructions_one() {
    let computer = Computer {
        register_a: 0,
        register_b: 0,
        register_c: 9,
        output: vec![],
        program: u3s(vec![2, 6]),
    };
    let mut execution = Execution::new(computer);
    assert!(execution.run(1000000));
    assert_eq!(execution.computer.register_b, 1);
}

#[test]
fn test_instructions_two() {
    let computer = Computer {
        register_a: 10,
        register_b: 0,
        register_c: 0,
        output: vec![],
        program: u3s(vec![5, 0, 5, 1, 5, 4]),
    };
    let mut execution = Execution::new(computer);
    assert!(execution.run(1000000));
    assert_eq!(execution.computer.output, vec![0, 1, 2]);
}

#[test]
fn test_instructions_three() {
    let computer = Computer {
        register_a: 2024,
        register_b: 0,
        register_c: 0,
        output: vec![],
        program: u3s(vec![0, 1, 5, 4, 3, 0]),
    };
    let mut execution = Execution::new(computer);
    assert!(execution.run(1000000));
    assert_eq!(execution.computer.output, vec![4, 2, 5, 6, 7, 7, 7, 7, 3, 1, 0]);
    assert_eq!(execution.computer.register_a, 0);
}

#[test]
fn test_instructions_four() {
    let computer = Computer {
        register_a: 0,
        register_b: 29,
        register_c: 0,
        output: vec![],
        program: u3s(vec![1, 7]),
    };
    let mut execution = Execution::new(computer);
    assert!(execution.run(1000000));
    assert_eq!(execution.computer.register_b, 26);
}

#[test]
fn test_instructions_five() {
    let computer = Computer {
        register_a: 0,
        register_b: 2024,
        register_c: 43690,
        output: vec![],
        program: u3s(vec![4, 0]),
    };
    let mut execution = Execution::new(computer);
    assert!(execution.run(1000000));
    assert_eq!(execution.computer.register_b, 44354);
}

#[test]
fn test_one() {
    let input = "\n    Register A: 729\n    Register B: 0\n    Register C: 0\n\n    Program: 0,1,5,4,3,0\n            ";
    let computer = Computer::parse(input).unwrap();
    assert_eq!(computer.register_a, 729);
    assert_eq!(computer.register_b, 0);
    assert_eq!(computer.register_c, 0);
    assert_eq!(computer.program, u3s(vec![0, 1, 5, 4, 3, 0]));
    let mut execution = Execution::new(computer);
    assert!(execution.run(1000000));
    assert_eq!(execution.computer.output, vec![4, 6, 3, 5, 6, 3, 5, 2, 1, 0]);
}
