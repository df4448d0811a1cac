use kamai::syntax::ast::{BinOp, Expr, Literal, Node, UnOp};
use kamai::syntax::optable::OpTable;
use kamai::syntax::parser::{Assoc, Fixity, Operator};
use kamai::syntax::shunting_yard::{come_from_table, shunting_yard, OpOrExpr};
use kamai::syntax::tokens::{SourceSpan, Token, TokenKind};
use kamai::utils::merge_ranges;

fn infix(sym: &str, prec: u8) -> Operator<'_> {
    Operator { sym, fixity: Fixity::Infix(Assoc::Left), prec }
}

fn span(start: usize, end: usize) -> SourceSpan {
    SourceSpan { start, end }
}

fn num<'a>(n: i64, start: usize, end: usize) -> Node<Expr<'a>> {
    Node { value: Expr::Literal(Literal::Num(n)), span: span(start, end) }
}

fn op<'a>(table: &OpTable, sym: &'a str, start: usize, end: usize) -> OpOrExpr<'a> {
    let found = table.get(sym).unwrap();
    OpOrExpr::Op(Node {
        value: Operator { sym, fixity: found.fixity, prec: found.prec },
        span: span(start, end),
    })
}

/// The table, row by row.
#[test]
fn table_holds_every_operator() {
    let table = OpTable::new();
    assert_eq!(table.get("+"), Some(infix("+", 10)));
    assert_eq!(table.get("-"), Some(infix("-", 10)));
    assert_eq!(table.get("*"), Some(infix("*", 20)));
    assert_eq!(table.get("/"), Some(infix("/", 20)));
    assert_eq!(table.get("&&"), Some(infix("&&", 5)));
    assert_eq!(table.get("||"), Some(infix("||", 3)));
    assert_eq!(table.get("<"), Some(infix("<", 8)));
    assert_eq!(table.get("<="), Some(infix("<=", 8)));
    assert_eq!(table.get(">"), Some(infix(">", 8)));
    assert_eq!(table.get(">="), Some(infix(">=", 8)));
    assert_eq!(table.get("=="), Some(infix("==", 8)));
    assert_eq!(table.get("!="), Some(infix("!=", 8)));
    assert_eq!(table.get("!"), Some(Operator { sym: "!", fixity: Fixity::Prefix, prec: 25 }));
}

#[test]
fn table_holds_nothing_else() {
    let table = OpTable::new();
    assert_eq!(table.get("%"), None);
    assert_eq!(table.get(""), None);
    assert_eq!(table.get("="), None);
    assert_eq!(table.get("++"), None);
    assert_eq!(table.get("&"), None);
}

#[test]
fn associativity() {
    assert!(Assoc::Left.is_left());
    assert!(!Assoc::Left.is_right());
    assert!(Assoc::Right.is_right());
    assert!(!Assoc::Right.is_left());
}

#[test]
fn fixity_of_operators() {
    let not = Operator { sym: "!", fixity: Fixity::Prefix, prec: 25 };
    assert!(infix("+", 10).is_infix());
    assert!(!not.is_infix());
    assert!(infix("+", 10).is_left_assoc());
    assert!(!not.is_left_assoc());
    let right = Operator { sym: "^", fixity: Fixity::Infix(Assoc::Right), prec: 30 };
    assert!(right.is_infix());
    assert!(!right.is_left_assoc());
}

/// Only `+`, `-` and the prefix operators can stand before an operand.
#[test]
fn operators_that_can_be_prefix() {
    let not = Operator { sym: "!", fixity: Fixity::Prefix, prec: 25 };
    assert!(infix("+", 10).can_be_prefix());
    assert!(infix("-", 10).can_be_prefix());
    assert!(not.can_be_prefix());
    assert!(!infix("*", 20).can_be_prefix());
    assert!(!infix("/", 20).can_be_prefix());
    assert!(!infix("&&", 5).can_be_prefix());
    assert!(!infix("==", 8).can_be_prefix());
    assert!(!infix("+-", 10).can_be_prefix());
}

/// A sign before an operand has precedence 22.
#[test]
fn signs_become_prefix_operators() {
    assert_eq!(
        infix("+", 10).into_prefix(),
        Some(Operator { sym: "+", fixity: Fixity::Prefix, prec: 22 })
    );
    assert_eq!(
        infix("-", 10).into_prefix(),
        Some(Operator { sym: "-", fixity: Fixity::Prefix, prec: 22 })
    );
    let not = Operator { sym: "!", fixity: Fixity::Prefix, prec: 25 };
    assert_eq!(not.into_prefix(), Some(not));
    assert_eq!(infix("*", 20).into_prefix(), None);
    assert_eq!(infix("<=", 8).into_prefix(), None);
}

#[test]
fn binary_operations_of_the_symbols() {
    assert_eq!(BinOp::try_from(infix("+", 10)), Ok(BinOp::Add));
    assert_eq!(BinOp::try_from(infix("-", 10)), Ok(BinOp::Sub));
    assert_eq!(BinOp::try_from(infix("*", 20)), Ok(BinOp::Mul));
    assert_eq!(BinOp::try_from(infix("/", 20)), Ok(BinOp::Div));
    assert_eq!(BinOp::try_from(infix("&&", 5)), Ok(BinOp::And));
    assert_eq!(BinOp::try_from(infix("||", 3)), Ok(BinOp::Or));
    assert_eq!(BinOp::try_from(infix(">=", 8)), Ok(BinOp::GTE));
    assert_eq!(BinOp::try_from(infix(">", 8)), Ok(BinOp::GT));
    assert_eq!(BinOp::try_from(infix("<", 8)), Ok(BinOp::LT));
    assert_eq!(BinOp::try_from(infix("<=", 8)), Ok(BinOp::LTE));
    assert_eq!(BinOp::try_from(infix("==", 8)), Ok(BinOp::EqEq));
    assert_eq!(BinOp::try_from(infix("!=", 8)), Ok(BinOp::NotEq));
}

#[test]
fn symbols_without_a_binary_operation() {
    let plus = Operator { sym: "+", fixity: Fixity::Prefix, prec: 22 };
    let minus = Operator { sym: "-", fixity: Fixity::Prefix, prec: 22 };
    let not = Operator { sym: "!", fixity: Fixity::Prefix, prec: 25 };
    assert_eq!(BinOp::try_from(plus), Err(()));
    assert_eq!(BinOp::try_from(minus), Err(()));
    assert_eq!(BinOp::try_from(not), Err(()));
    assert_eq!(BinOp::try_from(infix("%", 20)), Err(()));
}

#[test]
fn unary_operations_of_the_symbols() {
    let plus = Operator { sym: "+", fixity: Fixity::Prefix, prec: 22 };
    let minus = Operator { sym: "-", fixity: Fixity::Prefix, prec: 22 };
    let not = Operator { sym: "!", fixity: Fixity::Prefix, prec: 25 };
    assert_eq!(UnOp::try_from(plus), Ok(UnOp::Pos));
    assert_eq!(UnOp::try_from(minus), Ok(UnOp::Neg));
    assert_eq!(UnOp::try_from(not), Ok(UnOp::Neg));
    assert_eq!(UnOp::try_from(infix("+", 10)), Err(()));
    assert_eq!(UnOp::try_from(infix("-", 10)), Err(()));
    assert_eq!(UnOp::try_from(infix("*", 20)), Err(()));
}

/// `1 + 2 * 3` as items.
#[test]
fn reducer_applies_the_tighter_operator_first() {
    let table = OpTable::new();
    let items = vec![
        OpOrExpr::Expr(num(1, 0, 1)),
        op(&table, "+", 2, 3),
        OpOrExpr::Expr(num(2, 4, 5)),
        op(&table, "*", 6, 7),
        OpOrExpr::Expr(num(3, 8, 9)),
    ];
    let product = Node {
        value: Expr::Binary(BinOp::Mul, num(2, 4, 5).into_boxed(), num(3, 8, 9).into_boxed()),
        span: span(4, 9),
    };
    let sum = Node {
        value: Expr::Binary(BinOp::Add, num(1, 0, 1).into_boxed(), product.into_boxed()),
        span: span(0, 9),
    };
    assert_eq!(shunting_yard(items), Ok(sum));
}

/// The span of a prefix operation is that of its operand.
#[test]
fn reducer_spans_a_prefix_operation_by_its_operand() {
    let table = OpTable::new();
    let items = vec![op(&table, "-", 0, 1), OpOrExpr::Expr(num(7, 5, 6))];
    assert_eq!(
        shunting_yard(items),
        Ok(Node { value: Expr::Unary(UnOp::Neg, num(7, 5, 6).into_boxed()), span: span(5, 6) })
    );
}

#[test]
fn reducer_of_nothing_fails() {
    let error = shunting_yard(Vec::new()).unwrap_err();
    assert_eq!(error.span, span(usize::MAX, usize::MAX));
    assert_eq!(error.kind, kamai::errors::syntax_err::SyntaxErrKind::UnexpectedEOF);
    assert_eq!(error.expected, kamai::errors::syntax_err::Expected::Expr);
    assert_eq!(error.note, None);
}

#[test]
fn hull_of_two_spans() {
    assert_eq!(span(2, 5).hull(span(7, 9)), span(2, 9));
    assert_eq!(span(7, 9).hull(span(2, 5)), span(2, 9));
    assert_eq!(span(2, 9).hull(span(4, 5)), span(2, 9));
    assert_eq!(span(4, 5).hull(span(4, 5)), span(4, 5));
    assert_eq!(SourceSpan::empty_at(3), span(3, 3));
    assert_eq!(SourceSpan::new(1, 2), span(1, 2));
}

#[test]
fn merged_range_runs_from_the_first_start_to_the_second_end() {
    assert_eq!(merge_ranges(&(1..4), &(6..9)), 1..9);
    assert_eq!(merge_ranges(&(6..9), &(1..4)), 6..4);
    assert_eq!(
        merge_ranges(&("a".to_string().."c".to_string()), &("b".to_string().."d".to_string())),
        "a".to_string().."d".to_string()
    );
}

#[test]
fn node_into_boxed_keeps_value_and_span() {
    let node = Node { value: 5u8, span: span(1, 2) };
    assert_eq!(node.into_boxed(), Node { value: Box::new(5u8), span: span(1, 2) });
    let boxed: Node<Box<u8>> = Node { value: 6u8, span: span(3, 4) }.into();
    assert_eq!(boxed, Node { value: Box::new(6u8), span: span(3, 4) });
}

#[test]
fn token_new_keeps_kind_and_span() {
    assert_eq!(
        Token::new(TokenKind::Ident("x"), span(1, 2)),
        Token { kind: TokenKind::Ident("x"), span: span(1, 2) }
    );
}

#[test]
fn operators_that_come_from_the_table() {
    let table = OpTable::new();
    let items = vec![
        OpOrExpr::Expr(num(1, 0, 1)),
        op(&table, "+", 2, 3),
        op(&table, "!", 4, 5),
        OpOrExpr::Expr(num(2, 6, 7)),
    ];
    assert!(come_from_table(&items, &table));
    assert!(come_from_table(&Vec::new(), &table));
    let other_precedence =
        vec![OpOrExpr::Op(Node { value: infix("+", 11), span: span(0, 1) })];
    assert!(!come_from_table(&other_precedence, &table));
    let other_fixity = vec![OpOrExpr::Op(Node {
        value: Operator { sym: "+", fixity: Fixity::Prefix, prec: 10 },
        span: span(0, 1),
    })];
    assert!(!come_from_table(&other_fixity, &table));
    let other_side = vec![OpOrExpr::Op(Node {
        value: Operator { sym: "+", fixity: Fixity::Infix(Assoc::Right), prec: 10 },
        span: span(0, 1),
    })];
    assert!(!come_from_table(&other_side, &table));
    let unknown = vec![OpOrExpr::Op(Node { value: infix("%", 20), span: span(0, 1) })];
    assert!(!come_from_table(&unknown, &table));
}
