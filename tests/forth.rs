use exercises::forth::{Error, Forth};

#[test]
fn lib_test_eval() {
    let mut f = Forth::new();
    f.eval("1 2 + dup").unwrap();
    println!("{f:?}");

    assert_eq!(f.stack().len(), 2);
    assert_eq!(f.stack()[0], 3);
}

#[test]
fn lib_test_define() {
    let mut forth = Forth::new();
    forth.eval(": foo 5 ;").unwrap();
    forth.eval(": baz foo ;").unwrap();
    forth.eval(": foo 6 ;").unwrap();
    forth.eval(": fuz foo ;").unwrap();
    forth.eval(": foo 7 ;").unwrap();
    forth.eval("fuz").unwrap();
    forth.eval("baz").unwrap();
    forth.eval("foo").unwrap();

    println!("{forth:?}");
    assert_eq!(forth.stack(), [6, 5, 7]);
}

#[test]
fn can_define_word_that_uses_word_with_the_same_name() {
    let mut f = Forth::new();
    assert!(f.eval(": foo 10 ;").is_ok());
    println!("{f:?}");

    assert!(f.eval(": foo foo 1 + ;").is_ok());
    println!("{f:?}");

    assert!(f.eval("foo").is_ok());
    println!("{f:?}");

    assert_eq!(f.stack(), [11]);
}

#[test]
fn lib2_test_eval() {
    let mut vm = Forth::new();
    vm.eval("1 2 +").unwrap();
    assert_eq!(vm.stack().len(), 1);
    assert_eq!(vm.stack()[0], 3);
}

#[test]
fn lib2_test_define() {
    let mut forth = Forth::new();
    forth.eval(": foo drop ;").unwrap();
    forth.eval("1 foo").unwrap();
    forth.eval("1 1 : baz foo ;").unwrap();
    assert_eq!(forth.stack(), [1, 1]);
}

#[test]
fn addition_leaves_sum() {
    let mut f = Forth::new();
    assert_eq!(f.eval("3 4 +"), Ok(()));
    assert_eq!(f.stack(), [7]);
}

#[test]
fn division_by_zero_pops_both_operands() {
    let mut f = Forth::new();
    assert_eq!(f.eval("10 0 /"), Err(Error::DivisionByZero));
    assert_eq!(f.stack(), []);
}

#[test]
fn user_word_runs_its_body() {
    let mut f = Forth::new();
    assert_eq!(f.eval(": dup-twice dup dup ;"), Ok(()));
    assert_eq!(f.eval("5 dup-twice"), Ok(()));
    assert_eq!(f.stack(), [5, 5, 5]);
}

#[test]
fn redefinition_keeps_earlier_references() {
    let mut f = Forth::new();
    assert_eq!(f.eval(": foo 1 ;"), Ok(()));
    assert_eq!(f.eval(": bar foo ;"), Ok(()));
    assert_eq!(f.eval(": foo 2 ;"), Ok(()));
    assert_eq!(f.eval("bar"), Ok(()));
    assert_eq!(f.stack().last(), Some(&1));
    assert_eq!(f.eval("foo"), Ok(()));
    assert_eq!(f.stack(), [1, 2]);
}

#[test]
fn self_reference_uses_previous_version() {
    let mut f = Forth::new();
    assert_eq!(f.eval(": foo 10 ;"), Ok(()));
    assert_eq!(f.eval(": foo foo 1 + ;"), Ok(()));
    assert_eq!(f.eval("foo"), Ok(()));
    assert_eq!(f.stack().last(), Some(&11));
}

#[test]
fn numeric_name_is_rejected() {
    let mut f = Forth::new();
    assert_eq!(f.eval(": 1 dup ;"), Err(Error::InvalidWord));
    assert_eq!(f.eval(": -1 2 ;"), Err(Error::InvalidWord));
}

#[test]
fn unknown_word_leaves_stack() {
    let mut f = Forth::new();
    assert_eq!(f.eval("1 2"), Ok(()));
    assert_eq!(f.eval("foobar"), Err(Error::UnknownWord));
    assert_eq!(f.stack(), [1, 2]);
}

#[test]
fn underflow_on_empty_stack() {
    let mut f = Forth::new();
    assert_eq!(f.eval("+"), Err(Error::StackUnderflow));
    assert_eq!(f.stack(), []);
}

#[test]
fn underflow_with_one_operand_pops_it() {
    let mut f = Forth::new();
    assert_eq!(f.eval("1 -"), Err(Error::StackUnderflow));
    assert_eq!(f.stack(), []);
    assert_eq!(f.eval("dup"), Err(Error::StackUnderflow));
    assert_eq!(f.eval("drop"), Err(Error::StackUnderflow));
    assert_eq!(f.eval("3 swap"), Err(Error::StackUnderflow));
    assert_eq!(f.eval("over"), Err(Error::StackUnderflow));
    assert_eq!(f.stack(), [3]);
}

#[test]
fn case_does_not_matter() {
    let mut a = Forth::new();
    let mut b = Forth::new();
    assert_eq!(a.eval("1 DUP"), b.eval("1 dup"));
    assert_eq!(a.stack(), b.stack());
    assert_eq!(a.eval(": FOO 5 ; foo Foo"), Ok(()));
    assert_eq!(a.stack(), [1, 1, 5, 5]);
}

#[test]
fn builtins_compute_in_push_order() {
    let mut f = Forth::new();
    assert_eq!(f.eval("10 3 - 12 4 / 2 5 *"), Ok(()));
    assert_eq!(f.stack(), [7, 3, 10]);
    assert_eq!(f.eval("-7 2 /"), Ok(()));
    assert_eq!(f.stack(), [7, 3, 10, -3]);
}

#[test]
fn stack_builtins() {
    let mut f = Forth::new();
    assert_eq!(f.eval("1 2 swap over drop dup"), Ok(()));
    assert_eq!(f.stack(), [2, 1, 1]);
}

#[test]
fn arithmetic_wraps_around() {
    let mut f = Forth::new();
    assert_eq!(f.eval("2147483647 1 +"), Ok(()));
    assert_eq!(f.stack(), [i32::MIN]);
    assert_eq!(f.eval("-1 /"), Ok(()));
    assert_eq!(f.stack(), [i32::MIN]);
}

#[test]
fn literal_bounds() {
    let mut f = Forth::new();
    assert_eq!(f.eval("-2147483648 2147483647"), Ok(()));
    assert_eq!(f.stack(), [i32::MIN, i32::MAX]);
    assert_eq!(f.eval("2147483648"), Err(Error::UnknownWord));
    assert_eq!(f.eval("+5"), Err(Error::UnknownWord));
}

#[test]
fn builtins_can_be_redefined() {
    let mut f = Forth::new();
    assert_eq!(f.eval(": swap dup ;"), Ok(()));
    assert_eq!(f.eval("1 swap"), Ok(()));
    assert_eq!(f.stack(), [1, 1]);
}

#[test]
fn unfinished_definition_is_invalid() {
    let mut f = Forth::new();
    assert_eq!(f.eval(": foo 1"), Err(Error::InvalidWord));
    assert_eq!(f.eval(":"), Err(Error::InvalidWord));
    assert_eq!(f.eval("foo"), Err(Error::UnknownWord));
}

#[test]
fn nested_definition_and_forward_reference_are_invalid() {
    let mut f = Forth::new();
    assert_eq!(f.eval(": foo : bar ;"), Err(Error::InvalidWord));
    assert_eq!(f.eval(": foo undefined ;"), Err(Error::InvalidWord));
}

#[test]
fn tokens_split_on_any_white_space() {
    let mut f = Forth::new();
    assert_eq!(f.eval(" 1\t2\n+ \u{3000}3 "), Ok(()));
    assert_eq!(f.stack(), [3, 3]);
}

#[test]
fn error_keeps_earlier_effects() {
    let mut f = Forth::new();
    assert_eq!(f.eval("1 2 + 5 0 / 9"), Err(Error::DivisionByZero));
    assert_eq!(f.stack(), [3]);
}

#[test]
fn default_machine_is_empty() {
    let mut f = Forth::default();
    assert!(f.stack().is_empty());
    assert_eq!(f.eval("1"), Ok(()));
    assert_eq!(f.stack(), [1]);
}
