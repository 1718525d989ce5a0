use equation::ast::{Expression, Number, Operation, Statement};
use equation::parse::{
    as_hash_map, parse_binary, parse_expression, parse_low, parse_num, parse_paren,
    parse_statement, parse_unary, parse_var, primary_kind, variable as variable_from, OpTable,
    ParseError, Primary,
};

fn constant(value: u64) -> Expression {
    Expression::Number(Number::Constant(value))
}

fn variable(name: char) -> Expression {
    Expression::Number(Number::Variable(name))
}

fn binary(op: Operation, left: Expression, right: Expression) -> Expression {
    Expression::Operation(op, Box::new(left), Box::new(right))
}

fn unary(op: Operation, operand: Expression) -> Expression {
    Expression::Unary(op, Box::new(operand))
}

fn text(s: &str) -> String {
    s.to_string()
}

#[test]
fn binary_operators_associate_to_the_right() {
    let statement = parse_statement(text("8 - 3 - 1 = x")).unwrap();
    assert_eq!(
        statement.left,
        binary(
            Operation::Subtraction,
            constant(8),
            binary(Operation::Subtraction, constant(3), constant(1))
        )
    );
    assert_eq!(statement.right, variable('x'));
    assert_eq!(statement.optimize().left, constant(6));
}

#[test]
fn division_associates_to_the_right() {
    let statement = parse_statement(text("8 / 4 / 2 = x")).unwrap();
    assert_eq!(
        statement.left,
        binary(
            Operation::Division,
            constant(8),
            binary(Operation::Division, constant(4), constant(2))
        )
    );
}

#[test]
fn exponentiation_associates_to_the_right() {
    let statement = parse_statement(text("2 ^ 3 ^ 2 = x")).unwrap();
    assert_eq!(
        statement.left,
        binary(
            Operation::Exponentiation,
            constant(2),
            binary(Operation::Exponentiation, constant(3), constant(2))
        )
    );
    assert_eq!(statement.optimize().left, constant(512));
}

#[test]
fn multiplication_binds_tighter_than_addition() {
    let statement = parse_statement(text("2 + 3 * 4 = x")).unwrap();
    assert_eq!(
        statement.left,
        binary(
            Operation::Addition,
            constant(2),
            binary(Operation::Multiplication, constant(3), constant(4))
        )
    );
    let statement = parse_statement(text("2 * 3 + 4 = x")).unwrap();
    assert_eq!(
        statement.left,
        binary(
            Operation::Addition,
            binary(Operation::Multiplication, constant(2), constant(3)),
            constant(4)
        )
    );
}

#[test]
fn exponentiation_binds_tighter_than_multiplication() {
    let statement = parse_statement(text("2 * 3 ^ 2 = x")).unwrap();
    assert_eq!(
        statement.left,
        binary(
            Operation::Multiplication,
            constant(2),
            binary(Operation::Exponentiation, constant(3), constant(2))
        )
    );
    let statement = parse_statement(text("2 ^ 3 * 2 = x")).unwrap();
    assert_eq!(
        statement.left,
        binary(
            Operation::Multiplication,
            binary(Operation::Exponentiation, constant(2), constant(3)),
            constant(2)
        )
    );
}

#[test]
fn parentheses_override_precedence() {
    let statement = parse_statement(text("(2 + 3) * 4 = x")).unwrap();
    assert_eq!(
        statement.left,
        binary(
            Operation::Multiplication,
            binary(Operation::Addition, constant(2), constant(3)),
            constant(4)
        )
    );
    assert_eq!(statement.optimize().left, constant(20));
}

#[test]
fn parentheses_nest() {
    let statement = parse_statement(text("((a)) = ( ( 1 + (2) ) )")).unwrap();
    assert_eq!(statement.left, variable('a'));
    assert_eq!(statement.right, binary(Operation::Addition, constant(1), constant(2)));
}

#[test]
fn unary_chain_nests_one_node_per_sign() {
    let statement = parse_statement(text("--5 = x")).unwrap();
    assert_eq!(
        statement.left,
        unary(Operation::Subtraction, unary(Operation::Subtraction, constant(5)))
    );
    assert_eq!(
        statement.optimize().left,
        unary(Operation::Subtraction, unary(Operation::Subtraction, constant(5)))
    );
}

#[test]
fn unary_plus_and_spaced_signs() {
    let statement = parse_statement(text("+ - + a = -(1 + 2)")).unwrap();
    assert_eq!(
        statement.left,
        unary(
            Operation::Addition,
            unary(Operation::Subtraction, unary(Operation::Addition, variable('a')))
        )
    );
    assert_eq!(
        statement.right,
        unary(Operation::Subtraction, binary(Operation::Addition, constant(1), constant(2)))
    );
}

#[test]
fn unary_binds_tighter_than_any_binary_operator() {
    let statement = parse_statement(text("-2 ^ 2 = 3 - -1")).unwrap();
    assert_eq!(
        statement.left,
        binary(Operation::Exponentiation, unary(Operation::Subtraction, constant(2)), constant(2))
    );
    assert_eq!(
        statement.right,
        binary(Operation::Subtraction, constant(3), unary(Operation::Subtraction, constant(1)))
    );
}

#[test]
fn exponentiation_folds_eagerly() {
    let statement = parse_statement(text("2^10 = x")).unwrap();
    assert_eq!(statement.optimize().left, constant(1024));
}

#[test]
fn operator_without_right_operand_is_rejected() {
    assert_eq!(parse_statement(text("2 + = x")), Err(ParseError::UnexpectedCharacter('=')));
}

#[test]
fn trailing_input_is_rejected() {
    assert_eq!(parse_statement(text("2 = 3 foo")), Err(ParseError::TrailingInput));
    assert_eq!(parse_statement(text("2 = 3 4")), Err(ParseError::TrailingInput));
    assert_eq!(parse_statement(text("2 = 3 )")), Err(ParseError::TrailingInput));
    assert_eq!(parse_statement(text("a = b = c")), Err(ParseError::TrailingInput));
}

#[test]
fn whitespace_between_tokens_is_insignificant() {
    let spaced = parse_statement(text("  2   +\t3*( 4 -x )  =  y  ")).unwrap();
    let dense = parse_statement(text("2+3*(4-x)=y")).unwrap();
    assert_eq!(spaced, dense);
    assert_eq!(
        dense,
        Statement {
            left: binary(
                Operation::Addition,
                constant(2),
                binary(
                    Operation::Multiplication,
                    constant(3),
                    binary(Operation::Subtraction, constant(4), variable('x'))
                )
            ),
            right: variable('y'),
        }
    );
}

#[test]
fn leading_whitespace_before_a_number_is_insignificant() {
    let statement = parse_statement(text("  12 = x")).unwrap();
    assert_eq!(statement.left, constant(12));
}

#[test]
fn digits_of_a_number_are_contiguous() {
    assert_eq!(
        parse_statement(text("1 2 = x")),
        Err(ParseError::ExpectedToken { expected: '=', found: Some('2') })
    );
}

#[test]
fn only_the_first_letter_of_a_word_is_a_variable() {
    assert_eq!(
        parse_statement(text("ab = 1")),
        Err(ParseError::ExpectedToken { expected: '=', found: Some('b') })
    );
}

#[test]
fn missing_equals_sign_is_rejected() {
    assert_eq!(
        parse_statement(text("2 xy")),
        Err(ParseError::ExpectedToken { expected: '=', found: Some('x') })
    );
    assert_eq!(parse_statement(text("2 x")), Err(ParseError::UnexpectedCharacter('x')));
    assert_eq!(parse_statement(text("2 +")), Err(ParseError::UnexpectedCharacter('+')));
    assert_eq!(
        parse_statement(text("2 é")),
        Err(ParseError::ExpectedToken { expected: '=', found: Some('é') })
    );
}

#[test]
fn premature_end_is_rejected() {
    assert_eq!(parse_statement(String::new()), Err(ParseError::UnexpectedEnd));
    assert_eq!(parse_statement(text("   ")), Err(ParseError::UnexpectedEnd));
    assert_eq!(parse_statement(text("2")), Err(ParseError::UnexpectedEnd));
    assert_eq!(parse_statement(text("2 =")), Err(ParseError::UnexpectedEnd));
    assert_eq!(parse_statement(text("2 = (")), Err(ParseError::UnexpectedEnd));
    assert_eq!(parse_statement(text("2 = 3 + (")), Err(ParseError::UnexpectedEnd));
}

#[test]
fn unmatched_parenthesis_is_rejected() {
    assert_eq!(
        parse_statement(text("(2 = x")),
        Err(ParseError::ExpectedToken { expected: ')', found: Some('=') })
    );
    assert_eq!(
        parse_statement(text("x = (2")),
        Err(ParseError::ExpectedToken { expected: ')', found: None })
    );
    assert_eq!(
        parse_statement(text("x = (2 + 3")),
        Err(ParseError::ExpectedToken { expected: ')', found: None })
    );
}

#[test]
fn character_that_starts_no_primary_is_rejected() {
    assert_eq!(parse_statement(text("= 2")), Err(ParseError::UnexpectedCharacter('=')));
    assert_eq!(parse_statement(text("2 = )")), Err(ParseError::UnexpectedCharacter(')')));
    assert_eq!(parse_statement(text("2 = 3 * #")), Err(ParseError::UnexpectedCharacter('#')));
    assert_eq!(parse_statement(text("2 = -")), Err(ParseError::UnexpectedCharacter('-')));
    assert_eq!(parse_statement(text("() = 1")), Err(ParseError::UnexpectedCharacter(')')));
    assert_eq!(parse_statement(text("x = 💝")), Err(ParseError::UnexpectedCharacter('💝')));
}

#[test]
fn parse_num_reads_the_longest_run_of_digits() {
    assert_eq!(parse_num(text("123abc")), (constant(123), text("abc")));
    assert_eq!(parse_num(text("7")), (constant(7), String::new()));
    assert_eq!(parse_num(text("007  + 1 ")), (constant(7), text("+ 1")));
    assert_eq!(parse_num(text("12 34")), (constant(12), text("34")));
}

#[test]
fn parse_num_without_a_leading_digit_gives_zero() {
    assert_eq!(parse_num(text("abc")), (constant(0), text("abc")));
    assert_eq!(parse_num(text(" 12")), (constant(0), text("12")));
    assert_eq!(parse_num(String::new()), (constant(0), String::new()));
}

#[test]
fn parse_num_reads_only_ascii_digits() {
    assert_eq!(parse_num(text("1٣")), (constant(1), text("٣")));
}

#[test]
fn parse_num_wraps_at_the_width_of_the_constant() {
    assert_eq!(parse_num(text("18446744073709551615")), (constant(u64::MAX), String::new()));
    assert_eq!(parse_num(text("18446744073709551616")), (constant(0), String::new()));
    assert_eq!(parse_num(text("18446744073709551617x")), (constant(1), text("x")));
    assert_eq!(
        parse_num(text("100000000000000000000")),
        (constant(100000000000000000000u128 as u64), String::new())
    );
}

#[test]
fn parse_var_takes_one_alphabetic_character() {
    assert_eq!(parse_var(text("x")), Ok((variable('x'), String::new())));
    assert_eq!(parse_var(text("  xy + 1")), Ok((variable('x'), text("y + 1"))));
    assert_eq!(parse_var(text("京 = 1")), Ok((variable('京'), text("= 1"))));
    assert_eq!(parse_var(text("é")), Ok((variable('é'), String::new())));
}

#[test]
fn parse_var_rejects_what_is_not_alphabetic() {
    assert_eq!(parse_var(text("1")), Err(ParseError::UnexpectedCharacter('1')));
    assert_eq!(parse_var(text(" + a")), Err(ParseError::UnexpectedCharacter('+')));
    assert_eq!(parse_var(String::new()), Err(ParseError::UnexpectedEnd));
    assert_eq!(parse_var(text("  ")), Err(ParseError::UnexpectedEnd));
}

#[test]
fn parse_paren_parses_the_expression_inside() {
    assert_eq!(
        parse_paren(text("(1 + 2) * 3")),
        Ok((binary(Operation::Addition, constant(1), constant(2)), text("* 3")))
    );
    assert_eq!(parse_paren(text(" ( x ) ")), Ok((variable('x'), String::new())));
}

#[test]
fn parse_paren_rejects_other_input() {
    assert_eq!(parse_paren(text("1 + 2")), Err(ParseError::UnexpectedCharacter('1')));
    assert_eq!(parse_paren(text("x")), Err(ParseError::UnexpectedCharacter('x')));
    assert_eq!(parse_paren(text("(")), Err(ParseError::UnexpectedEnd));
    assert_eq!(parse_paren(String::new()), Err(ParseError::UnexpectedEnd));
    assert_eq!(
        parse_paren(text("(1 2)")),
        Err(ParseError::ExpectedToken { expected: ')', found: Some('2') })
    );
    assert_eq!(
        parse_paren(text("(1")),
        Err(ParseError::ExpectedToken { expected: ')', found: None })
    );
    assert_eq!(parse_paren(text("(*)")), Err(ParseError::UnexpectedCharacter('*')));
    assert_eq!(parse_paren(text("(+)")), Err(ParseError::UnexpectedCharacter(')')));
}

#[test]
fn parse_low_chooses_by_the_next_character() {
    assert_eq!(parse_low(text("(a) b")), Ok((variable('a'), text("b"))));
    assert_eq!(parse_low(text("42 b")), Ok((constant(42), text("b"))));
    assert_eq!(parse_low(text("  42 b")), Ok((constant(42), text("b"))));
    assert_eq!(parse_low(text("b 42")), Ok((variable('b'), text("42"))));
    assert_eq!(parse_low(text("-1")), Err(ParseError::UnexpectedCharacter('-')));
    assert_eq!(parse_low(text("")), Err(ParseError::UnexpectedEnd));
}

#[test]
fn parse_unary_wraps_each_sign() {
    assert_eq!(
        parse_unary(text("-x + 1")),
        Ok((unary(Operation::Subtraction, variable('x')), text("+ 1")))
    );
    assert_eq!(parse_unary(text("x")), Ok((variable('x'), String::new())));
    assert_eq!(parse_unary(text("+")), Err(ParseError::UnexpectedCharacter('+')));
    assert_eq!(parse_unary(text("- -")), Err(ParseError::UnexpectedCharacter('-')));
    assert_eq!(parse_unary(text("")), Err(ParseError::UnexpectedEnd));
    assert_eq!(parse_unary(text("*2")), Err(ParseError::UnexpectedCharacter('*')));
}

#[test]
fn parse_expression_leaves_what_it_cannot_use() {
    assert_eq!(
        parse_expression(text("1 + 2 = 3")),
        Ok((binary(Operation::Addition, constant(1), constant(2)), text("= 3")))
    );
    assert_eq!(parse_expression(text("1 +")), Ok((constant(1), text("+"))));
    assert_eq!(parse_expression(text("1 )")), Ok((constant(1), text(")"))));
    assert_eq!(parse_expression(text("1 + )")), Err(ParseError::UnexpectedCharacter(')')));
}

#[test]
fn parse_binary_follows_the_table_it_is_given() {
    let tight = OpTable::new(as_hash_map(&[('+' as u32, Operation::Addition)]), None);
    let loose = OpTable::new(
        as_hash_map(&[('*' as u32, Operation::Multiplication), ('#' as u32, Operation::Division)]),
        Some(Box::new(tight)),
    );
    assert_eq!(
        parse_binary(text("1 * 2 + 3 # 4 - 5"), &loose),
        Ok((
            binary(
                Operation::Multiplication,
                constant(1),
                binary(
                    Operation::Division,
                    binary(Operation::Addition, constant(2), constant(3)),
                    constant(4)
                )
            ),
            text("- 5")
        ))
    );
}

#[test]
fn parse_binary_with_one_level_uses_its_operators() {
    let only = OpTable::new(as_hash_map(&[('^' as u32, Operation::Exponentiation)]), None);
    assert_eq!(
        parse_binary(text("2 ^ x ^ 3 * 4"), &only),
        Ok((
            binary(
                Operation::Exponentiation,
                constant(2),
                binary(Operation::Exponentiation, variable('x'), constant(3))
            ),
            text("* 4")
        ))
    );
}

#[test]
fn parse_binary_with_a_wide_operator() {
    let only = OpTable::new(as_hash_map(&[('×' as u32, Operation::Multiplication)]), None);
    assert_eq!(
        parse_binary(text("2 × 3"), &only),
        Ok((binary(Operation::Multiplication, constant(2), constant(3)), String::new()))
    );
    assert_eq!(parse_binary(text("2 ×"), &only), Err(ParseError::UnexpectedEnd));
}

#[test]
fn as_hash_map_collects_the_pairs() {
    let pairs = [('+' as u32, Operation::Addition), ('-' as u32, Operation::Subtraction)];
    let map = as_hash_map(&pairs);
    assert_eq!(map.len(), 2);
    assert_eq!(map[&('+' as u32)], Operation::Addition);
    assert_eq!(map[&('-' as u32)], Operation::Subtraction);
    assert!(!map.contains_key(&('*' as u32)));
}

#[test]
fn primary_kind_goes_by_the_first_character() {
    assert_eq!(primary_kind('(', false), Ok(Primary::Parenthesized));
    assert_eq!(primary_kind('0', false), Ok(Primary::Numeral));
    assert_eq!(primary_kind('9', false), Ok(Primary::Numeral));
    assert_eq!(primary_kind('x', true), Ok(Primary::Variable));
    assert_eq!(primary_kind('x', false), Err(ParseError::UnexpectedCharacter('x')));
    assert_eq!(primary_kind(')', false), Err(ParseError::UnexpectedCharacter(')')));
    assert_eq!(primary_kind('/', false), Err(ParseError::UnexpectedCharacter('/')));
    assert_eq!(primary_kind(':', false), Err(ParseError::UnexpectedCharacter(':')));
}

#[test]
fn variable_needs_a_letter() {
    assert_eq!(variable_from('x', true), Ok(variable('x')));
    assert_eq!(variable_from('1', false), Err(ParseError::UnexpectedCharacter('1')));
}

#[test]
fn parser_module_names_the_tree_types() {
    let statement: equation::parse::Statement = parse_statement(text("a = 1")).unwrap();
    assert_eq!(
        statement.left,
        equation::parse::Expression::Number(equation::parse::Number::Variable('a'))
    );
    assert_eq!(equation::parse::Operation::Addition, Operation::Addition);
}
