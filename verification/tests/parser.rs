use rpn::evaluate_line;
use rpn::Elt;
use rpn::Error;
use rpn::Stack;

#[test]
fn test_evaluate_line_bool() {
    let mut stack = Stack::new();
    let s = "true".to_string();
    assert!(evaluate_line(&mut stack, &s).is_ok());
    assert_eq!(stack.pop().unwrap(), Elt::Bool(true));
    let s = "false".to_string();
    assert!(evaluate_line(&mut stack, &s).is_ok());
    assert_eq!(stack.pop().unwrap(), Elt::Bool(false));
}

#[test]
fn test_evaluate_line_int() {
    let mut stack = Stack::new();
    let s = "12".to_string();
    assert!(evaluate_line(&mut stack, &s).is_ok());
    assert_eq!(stack.pop().unwrap(), Elt::Int(12));
}

#[test]
fn test_evaluate_line_plus() {
    let mut stack = Stack::new();
    let s = "12".to_string();
    assert!(evaluate_line(&mut stack, &s).is_ok());
    let s = "13".to_string();
    assert!(evaluate_line(&mut stack, &s).is_ok());
    let s = "+".to_string();
    assert!(evaluate_line(&mut stack, &s).is_ok());
    assert_eq!(stack.pop().unwrap(), Elt::Int(25));
}

#[test]
fn test_evaluate_line_neg() {
    let mut stack = Stack::new();
    let s = "false".to_string();
    assert!(evaluate_line(&mut stack, &s).is_ok());
    let s = "~".to_string();
    assert!(evaluate_line(&mut stack, &s).is_ok());
    assert_eq!(stack.pop().unwrap(), Elt::Bool(true));
}

#[test]
fn test_evaluate_line_swap() {
    let mut stack = Stack::new();
    let s = "false".to_string();
    assert!(evaluate_line(&mut stack, &s).is_ok());
    let s = "15".to_string();
    assert!(evaluate_line(&mut stack, &s).is_ok());
    let s = "<->".to_string();
    assert!(evaluate_line(&mut stack, &s).is_ok());
    assert_eq!(stack.pop().unwrap(), Elt::Bool(false));
    assert_eq!(stack.pop().unwrap(), Elt::Int(15));
}

#[test]
fn test_evaluate_line_eq() {
    let mut stack = Stack::new();
    let s = "12".to_string();
    assert!(evaluate_line(&mut stack, &s).is_ok());
    let s = "15".to_string();
    assert!(evaluate_line(&mut stack, &s).is_ok());
    let s = "=".to_string();
    assert!(evaluate_line(&mut stack, &s).is_ok());
    assert_eq!(stack.pop().unwrap(), Elt::Bool(false));
}

#[test]
fn test_evaluate_line_rand() {
    let mut stack = Stack::new();
    let s = "12".to_string();
    assert!(evaluate_line(&mut stack, &s).is_ok());
    let s = "#".to_string();
    assert!(evaluate_line(&mut stack, &s).is_ok());
    let res = stack.pop();
    assert!(res.is_ok());
    let res = res.unwrap();
    assert!(res >= Elt::Int(0));
    assert!(res < Elt::Int(12));
}

#[test]
fn test_evaluate_line_quit() {
    let mut stack = Stack::new();
    let s = "quit".to_string();
    let res = evaluate_line(&mut stack, &s);
    assert!(res.is_err());
    if let Err(Error::Quit) = res {
    } else {
        assert!(false);
    }
}

#[test]
fn test_evaluate_line_bad_parse() {
    let mut stack = Stack::new();
    let s = "~false".to_string();
    let res = evaluate_line(&mut stack, &s);
    assert!(res.is_err());
    if let Err(Error::Syntax) = res {
    } else {
        assert!(false);
    }
}

#[test]
fn evaluate_line_whole_expression() {
    let mut stack = Stack::new();
    let s = "12 13 +".to_string();
    assert!(evaluate_line(&mut stack, &s).is_ok());
    assert_eq!(stack.pop().unwrap(), Elt::Int(25));
    assert_eq!(stack.pop(), Err(Error::EmptyStack));
}

#[test]
fn evaluate_line_negative_literal() {
    let mut stack = Stack::new();
    let s = "-7 ~".to_string();
    assert!(evaluate_line(&mut stack, &s).is_ok());
    assert_eq!(stack.pop().unwrap(), Elt::Int(7));
}

#[test]
fn evaluate_line_extreme_literals() {
    let mut stack = Stack::new();
    let s = "-2147483648 2147483647".to_string();
    assert!(evaluate_line(&mut stack, &s).is_ok());
    assert_eq!(stack.pop().unwrap(), Elt::Int(i32::MAX));
    assert_eq!(stack.pop().unwrap(), Elt::Int(i32::MIN));
    let s = "2147483648".to_string();
    assert_eq!(evaluate_line(&mut stack, &s), Err(Error::Syntax));
}

#[test]
fn evaluate_line_stops_on_first_error() {
    let mut stack = Stack::new();
    let s = "1 +".to_string();
    assert_eq!(evaluate_line(&mut stack, &s), Err(Error::EmptyStack));
    assert_eq!(stack.pop().unwrap(), Elt::Int(1));
    let s = "5 oops 6".to_string();
    assert_eq!(evaluate_line(&mut stack, &s), Err(Error::Syntax));
    assert_eq!(stack.pop().unwrap(), Elt::Int(5));
    assert_eq!(stack.pop(), Err(Error::EmptyStack));
}

#[test]
fn evaluate_line_quit_mid_line() {
    let mut stack = Stack::new();
    let s = "1 quit 2".to_string();
    assert_eq!(evaluate_line(&mut stack, &s), Err(Error::Quit));
    assert_eq!(stack.pop().unwrap(), Elt::Int(1));
    assert_eq!(stack.pop(), Err(Error::EmptyStack));
}

#[test]
fn evaluate_line_blank_and_spacing() {
    let mut stack = Stack::new();
    let s = "   \t \r\n".to_string();
    assert!(evaluate_line(&mut stack, &s).is_ok());
    assert_eq!(stack.pop(), Err(Error::EmptyStack));
    let s = "  12\t13  + ".to_string();
    assert!(evaluate_line(&mut stack, &s).is_ok());
    assert_eq!(stack.pop().unwrap(), Elt::Int(25));
}

#[test]
fn evaluate_line_sign_tokens_are_syntax() {
    let mut stack = Stack::new();
    assert_eq!(evaluate_line(&mut stack, &"-".to_string()), Err(Error::Syntax));
    assert_eq!(evaluate_line(&mut stack, &"+5".to_string()), Ok(()));
    assert_eq!(stack.pop().unwrap(), Elt::Int(5));
    assert_eq!(evaluate_line(&mut stack, &"5-".to_string()), Err(Error::Syntax));
}
