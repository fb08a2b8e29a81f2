use aocr2024::instructions::{conditional_interpret, interpret};

#[test]
fn test_interpret() {
    let input = "xmul(2,4)%&mul[3,7]!@^do_not_mul(5,5)+mul(32,64]then(mul(11,8)mul(8,5))";
    assert_eq!(interpret(input), 161);
}

#[test]
fn test_conditional_interpret() {
    let input = "xdo()mul(2,4)&mul[3,7]!^don't()_mul(5,5)+mul(32,64](mul(11,8)undo()?mul(8,5))don't()mul(1,2)";
    assert_eq!(conditional_interpret(input), 48);
}

#[test]
fn test_conditional_interpret_with_dangling_dont() {
    let input = "mul(1,2)mul(2,2)don't()mul(100,100)";
    assert_eq!(conditional_interpret(input), 6);
}

#[test]
fn test_conditional_interpret_consecutive_donts() {
    let input = "mul(1,2)don't()don't()don't()mul(1,5)don't()mul(1,100)do()";
    assert_eq!(conditional_interpret(input), 2);
}

#[test]
fn test_conditional_interpret_with_newlines() {
    let input = "mul(1,2)don't()\nmul(1,5)don't()mul(1,100)do()";
    assert_eq!(conditional_interpret(input), 2);
}

#[test]
fn test_interpret_ignores_malformed() {
    assert_eq!(interpret("mul(4,"), 0);
    assert_eq!(interpret("mul(,4)"), 0);
    assert_eq!(interpret("mul ( 2 , 4 )"), 0);
    assert_eq!(interpret("mul(6,9)"), 54);
}
