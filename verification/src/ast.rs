//! The abstract syntax tree of an equation, its constant-folding optimizer and its renderer.

use crate::utils::push_char;
use vstd::arithmetic::power::pow;
use vstd::prelude::*;

verus! {

/// One more than the largest `u64`: constants are folded modulo this value.
pub open spec fn modulus() -> int {
    0x1_0000_0000_0000_0000
}

/// A leaf value of an expression.
#[derive(Debug, Clone, Copy, PartialEq, Eq, Structural)]
pub enum Number {
    /// A non-negative integer literal.
    Constant(u64),
    /// A single alphabetic character that stands for an unknown.
    Variable(char),
}

/// The arithmetic operators. `Addition` and `Subtraction` also serve as unary signs.
#[derive(Debug, Clone, Copy, PartialEq, Eq, Structural)]
pub enum Operation {
    Addition,
    Subtraction,
    Multiplication,
    Division,
    Exponentiation,
}

/// An expression tree. Every node owns its children.
#[derive(Debug, PartialEq, Eq)]
pub enum Expression {
    Number(Number),
    Operation(Operation, Box<Expression>, Box<Expression>),
    Unary(Operation, Box<Expression>),
}

/// An equation `left = right`.
#[derive(Debug, PartialEq, Eq)]
pub struct Statement {
    pub left: Expression,
    pub right: Expression,
}

impl Operation {
    /// Whether the operator may stand in front of an operand as a sign.
    pub open spec fn is_sign(self) -> bool {
        self is Addition || self is Subtraction
    }

    /// The value that replaces `x <self> y` when both operands are constants.
    ///
    /// Sums, products and powers are taken modulo 2^64; the exponent of a power is first
    /// reduced modulo 2^32. A negative difference becomes the negation of its magnitude,
    /// and a quotient is left as it stands.
    pub open spec fn folded(self, x: u64, y: u64) -> Expression {
        match self {
            Operation::Addition => Expression::constant(((x + y) % modulus()) as u64),
            Operation::Subtraction => if x >= y {
                Expression::constant((x - y) as u64)
            } else {
                Expression::Unary(
                    Operation::Subtraction,
                    Box::new(Expression::constant((y - x) as u64)),
                )
            },
            Operation::Multiplication => Expression::constant(((x * y) % modulus()) as u64),
            Operation::Division => Expression::Operation(
                Operation::Division,
                Box::new(Expression::constant(x)),
                Box::new(Expression::constant(y)),
            ),
            Operation::Exponentiation => Expression::constant(
                (pow(x as int, (y % 0x1_0000_0000) as nat) % modulus()) as u64,
            ),
        }
    }
}

impl Expression {
    /// The leaf that holds the literal `value`.
    pub open spec fn constant(value: u64) -> Expression {
        Expression::Number(Number::Constant(value))
    }

    /// Whether the expression is a literal leaf.
    pub open spec fn is_constant(self) -> bool {
        self matches Expression::Number(Number::Constant(_))
    }

    /// Every `Unary` node of the tree carries a sign (`Addition` or `Subtraction`).
    pub open spec fn well_formed(self) -> bool
        decreases self,
    {
        match self {
            Expression::Number(_) => true,
            Expression::Operation(_, left, right) => left.well_formed() && right.well_formed(),
            Expression::Unary(op, operand) => op.is_sign() && operand.well_formed(),
        }
    }

    /// No binary node of the tree other than a division has two literal operands.
    pub open spec fn is_folded(self) -> bool
        decreases self,
    {
        match self {
            Expression::Number(_) => true,
            Expression::Operation(op, left, right) => {
                &&& left.is_folded()
                &&& right.is_folded()
                &&& (op is Division || !(left.is_constant() && right.is_constant()))
            },
            Expression::Unary(_, operand) => operand.is_folded(),
        }
    }

    /// The tree after one bottom-up pass of constant folding.
    pub open spec fn optimized(self) -> Expression
        decreases self,
    {
        match self {
            Expression::Number(_) => self,
            Expression::Operation(op, left, right) => {
                let left = left.optimized();
                let right = right.optimized();
                match (left, right) {
                    (
                        Expression::Number(Number::Constant(x)),
                        Expression::Number(Number::Constant(y)),
                    ) => op.folded(x, y),
                    _ => Expression::Operation(op, Box::new(left), Box::new(right)),
                }
            },
            Expression::Unary(op, operand) => Expression::Unary(op, Box::new(operand.optimized())),
        }
    }
}

/// The character of the digit `d`.
pub open spec fn digit_char(d: nat) -> char
    recommends
        d < 10,
{
    (('0' as u8 + d) as u8) as char
}

/// The decimal digits of `n`, most significant first, without leading zeros.
pub open spec fn decimal(n: nat) -> Seq<char>
    decreases n,
{
    if n < 10 {
        seq![digit_char(n)]
    } else {
        decimal(n / 10).push(digit_char(n % 10))
    }
}

impl Number {
    /// The text of the leaf: the decimal digits of a literal, the character of a variable.
    pub open spec fn rendered(self) -> Seq<char> {
        match self {
            Number::Constant(value) => decimal(value as nat),
            Number::Variable(name) => seq![name],
        }
    }
}

impl Operation {
    /// The character that denotes the operator.
    pub open spec fn symbol(self) -> char {
        match self {
            Operation::Addition => '+',
            Operation::Subtraction => '-',
            Operation::Multiplication => '*',
            Operation::Division => '/',
            Operation::Exponentiation => '^',
        }
    }
}

impl Expression {
    /// The infix text of the tree: operands and binary operators separated by single
    /// spaces, a sign directly in front of its operand, and no parentheses.
    pub open spec fn rendered(self) -> Seq<char>
        decreases self,
    {
        match self {
            Expression::Number(number) => number.rendered(),
            Expression::Operation(op, left, right) => left.rendered() + seq![
                ' ',
                op.symbol(),
                ' ',
            ] + right.rendered(),
            Expression::Unary(op, operand) => seq![op.symbol()] + operand.rendered(),
        }
    }
}

impl Statement {
    /// The text of the equation: the two sides around ` = `.
    pub open spec fn rendered(self) -> Seq<char> {
        self.left.rendered() + seq![' ', '=', ' '] + self.right.rendered()
    }

    /// Both sides are well formed.
    pub open spec fn well_formed(self) -> bool {
        self.left.well_formed() && self.right.well_formed()
    }

    /// Both sides are folded.
    pub open spec fn is_folded(self) -> bool {
        self.left.is_folded() && self.right.is_folded()
    }

    /// The equation with both sides folded.
    pub open spec fn optimized(self) -> Statement {
        Statement { left: self.left.optimized(), right: self.right.optimized() }
    }
}

/// `u64::wrapping_pow`: the power `base^exp` reduced modulo 2^64, as the standard library
/// documents it ("wrapping (modular) exponentiation").
#[verifier::external_body]
fn wrapping_pow(base: u64, exp: u32) -> (r: u64)
    ensures
        r as int == pow(base as int, exp as nat) % modulus(),
{
    base.wrapping_pow(exp)
}

impl Operation {
    /// Folds `x <self> y` for two literal operands.
    fn fold(self, x: u64, y: u64) -> (r: Expression)
        ensures
            r == self.folded(x, y),
    {
        match self {
            Operation::Addition => Expression::Number(Number::Constant(x.wrapping_add(y))),
            Operation::Subtraction => if x >= y {
                Expression::Number(Number::Constant(x - y))
            } else {
                Expression::Unary(
                    Operation::Subtraction,
                    Box::new(Expression::Number(Number::Constant(y - x))),
                )
            },
            Operation::Multiplication => Expression::Number(Number::Constant(x.wrapping_mul(y))),
            Operation::Division => Expression::Operation(
                Operation::Division,
                Box::new(Expression::Number(Number::Constant(x))),
                Box::new(Expression::Number(Number::Constant(y))),
            ),
            Operation::Exponentiation => {
                let exponent: u32 = (y % 0x1_0000_0000) as u32;
                Expression::Number(Number::Constant(wrapping_pow(x, exponent)))
            },
        }
    }
}

/// The decimal digits of `value`.
fn decimal_string(value: u64) -> (r: String)
    ensures
        r@ == decimal(value as nat),
    decreases value,
{
    let digit: char = ('0' as u8 + (value % 10) as u8) as char;
    if value < 10 {
        let mut text = String::new();
        push_char(&mut text, digit);
        text
    } else {
        let mut text = decimal_string(value / 10);
        push_char(&mut text, digit);
        text
    }
}

impl Number {
    /// Renders the leaf: a literal in decimal, a variable as its character.
    pub fn to_string(self) -> (r: String)
        ensures
            r@ == self.rendered(),
    {
        match self {
            Number::Constant(value) => decimal_string(value),
            Number::Variable(name) => {
                let mut text = String::new();
                push_char(&mut text, name);
                text
            },
        }
    }
}

impl Operation {
    /// The character that denotes the operator.
    fn symbol_char(self) -> (c: char)
        ensures
            c == self.symbol(),
    {
        match self {
            Operation::Addition => '+',
            Operation::Subtraction => '-',
            Operation::Multiplication => '*',
            Operation::Division => '/',
            Operation::Exponentiation => '^',
        }
    }

    /// Renders the operator as its symbol.
    pub fn to_string(self) -> (r: String)
        ensures
            r@ == seq![self.symbol()],
    {
        let mut text = String::new();
        push_char(&mut text, self.symbol_char());
        text
    }
}

impl Expression {
    /// Renders the tree as infix text without parentheses.
    pub fn to_string(self) -> (r: String)
        ensures
            r@ == self.rendered(),
        decreases self,
    {
        match self {
            Expression::Number(number) => number.to_string(),
            Expression::Operation(op, left, right) => {
                let mut text = (*left).to_string();
                push_char(&mut text, ' ');
                push_char(&mut text, op.symbol_char());
                push_char(&mut text, ' ');
                let right = (*right).to_string();
                text.append(right.as_str());
                text
            },
            Expression::Unary(op, operand) => {
                let mut text = op.to_string();
                let operand = (*operand).to_string();
                text.append(operand.as_str());
                text
            },
        }
    }

    /// Folds every binary node whose operands are (or fold to) literals, bottom-up.
    ///
    /// The result is the tree that [`Expression::optimized`] describes; nothing in it is left
    /// to fold, and signs stay signs.
    pub fn optimize(self) -> (r: Expression)
        ensures
            r == self.optimized(),
            r.is_folded(),
            self.well_formed() ==> r.well_formed(),
        decreases self,
    {
        proof {
            lemma_optimized_is_folded(self);
            if self.well_formed() {
                lemma_optimized_well_formed(self);
            }
        }
        match self {
            Expression::Number(number) => Expression::Number(number),
            Expression::Operation(op, left, right) => {
                let left = (*left).optimize();
                let right = (*right).optimize();
                match (left, right) {
                    (
                        Expression::Number(Number::Constant(x)),
                        Expression::Number(Number::Constant(y)),
                    ) => op.fold(x, y),
                    (left, right) => Expression::Operation(op, Box::new(left), Box::new(right)),
                }
            },
            Expression::Unary(op, operand) => Expression::Unary(
                op,
                Box::new((*operand).optimize()),
            ),
        }
    }
}

impl Statement {
    /// Renders the equation as `<left> = <right>`.
    pub fn to_string(self) -> (r: String)
        ensures
            r@ == self.rendered(),
    {
        let mut text = self.left.to_string();
        push_char(&mut text, ' ');
        push_char(&mut text, '=');
        push_char(&mut text, ' ');
        let right = self.right.to_string();
        text.append(right.as_str());
        text
    }

    /// Folds both sides of the equation.
    pub fn optimize(self) -> (r: Statement)
        ensures
            r == self.optimized(),
            r.is_folded(),
            self.well_formed() ==> r.well_formed(),
    {
        Statement { left: self.left.optimize(), right: self.right.optimize() }
    }
}

/// Folding leaves nothing to fold: in the folded tree no binary node other than a division
/// has two literal operands.
pub proof fn lemma_optimized_is_folded(e: Expression)
    ensures
        e.optimized().is_folded(),
    decreases e,
{
    reveal_with_fuel(Expression::is_folded, 3);
    match e {
        Expression::Number(_) => {},
        Expression::Operation(_, left, right) => {
            lemma_optimized_is_folded(*left);
            lemma_optimized_is_folded(*right);
        },
        Expression::Unary(_, operand) => {
            lemma_optimized_is_folded(*operand);
        },
    }
}

/// Folding never turns a sign into another operator, and the only unary node that it
/// introduces is a negation.
pub proof fn lemma_optimized_well_formed(e: Expression)
    requires
        e.well_formed(),
    ensures
        e.optimized().well_formed(),
    decreases e,
{
    reveal_with_fuel(Expression::well_formed, 3);
    match e {
        Expression::Number(_) => {},
        Expression::Operation(_, left, right) => {
            lemma_optimized_well_formed(*left);
            lemma_optimized_well_formed(*right);
        },
        Expression::Unary(_, operand) => {
            lemma_optimized_well_formed(*operand);
        },
    }
}

/// A tree in which nothing is left to fold is returned unchanged by the optimizer.
pub proof fn lemma_folded_is_fixed(e: Expression)
    requires
        e.is_folded(),
    ensures
        e.optimized() == e,
    decreases e,
{
    match e {
        Expression::Number(_) => {},
        Expression::Operation(_, left, right) => {
            lemma_folded_is_fixed(*left);
            lemma_folded_is_fixed(*right);
        },
        Expression::Unary(_, operand) => {
            lemma_folded_is_fixed(*operand);
        },
    }
}

/// Optimizing is idempotent: a second pass over an optimized tree changes nothing.
pub proof fn lemma_optimize_idempotent(e: Expression)
    ensures
        e.optimized().optimized() == e.optimized(),
{
    lemma_optimized_is_folded(e);
    lemma_folded_is_fixed(e.optimized());
}

/// Optimizing an equation is idempotent as well.
pub proof fn lemma_optimize_statement_idempotent(s: Statement)
    ensures
        s.optimized().optimized() == s.optimized(),
{
    lemma_optimize_idempotent(s.left);
    lemma_optimize_idempotent(s.right);
}

/// The difference of two literals folds to a literal when it is not negative, and to the
/// negation of its magnitude when it is.
pub proof fn lemma_subtraction_folds(x: u64, y: u64)
    ensures
        x >= y ==> Expression::Operation(
            Operation::Subtraction,
            Box::new(Expression::constant(x)),
            Box::new(Expression::constant(y)),
        ).optimized() == Expression::constant((x - y) as u64),
        x < y ==> Expression::Operation(
            Operation::Subtraction,
            Box::new(Expression::constant(x)),
            Box::new(Expression::constant(y)),
        ).optimized() == Expression::Unary(
            Operation::Subtraction,
            Box::new(Expression::constant((y - x) as u64)),
        ),
{
    reveal_with_fuel(Expression::optimized, 2);
}

/// The quotient of two literals is never folded.
pub proof fn lemma_division_is_kept(a: u64, b: u64)
    ensures
        Expression::Operation(
            Operation::Division,
            Box::new(Expression::constant(a)),
            Box::new(Expression::constant(b)),
        ).optimized() == Expression::Operation(
            Operation::Division,
            Box::new(Expression::constant(a)),
            Box::new(Expression::constant(b)),
        ),
{
    reveal_with_fuel(Expression::optimized, 2);
}

/// A unary node is never folded into its operand: the optimizer keeps the sign around the
/// optimized operand, whatever that operand has become.
pub proof fn lemma_unary_is_kept(op: Operation, operand: Expression)
    ensures
        Expression::Unary(op, Box::new(operand)).optimized() == Expression::Unary(
            op,
            Box::new(operand.optimized()),
        ),
{
}

} // verus!
