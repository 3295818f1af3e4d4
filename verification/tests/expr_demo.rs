use arena_tree::tree::NodeIndex;
use arena_tree::tree::Tree;

/// Payload of an arithmetic expression tree, as a client of the container
/// would define it: interior markers, operations, and literal leaves.
#[derive(Clone, Copy, PartialEq, Debug)]
enum Payload {
    Expr,
    Operation(Op),
    Literal(i64),
}

#[derive(Clone, Copy, PartialEq, Debug)]
enum Op {
    Add,
    Div,
}

/// Builds `5 + (7 / 2)`: root `Expr`, child `Operation(Add)` with children
/// `Literal(5)` and `Expr -> Operation(Div) -> [Literal(7), Literal(2)]`.
fn expr_tree() -> Tree<Payload> {
    let mut tree = Tree::new(Payload::Expr);
    let root = tree.root();
    let plus = tree.add(root, Payload::Operation(Op::Add)).unwrap();
    tree.add(plus, Payload::Literal(5)).unwrap();
    let sub = tree.add(plus, Payload::Expr).unwrap();
    let div = tree.add(sub, Payload::Operation(Op::Div)).unwrap();
    tree.add(div, Payload::Literal(7)).unwrap();
    tree.add(div, Payload::Literal(2)).unwrap();
    tree
}

/// Payload-directed recursive evaluation over `children`, bypassing the
/// built-in traversals, with integer division.
fn eval(tree: &Tree<Payload>, at: NodeIndex) -> i64 {
    match tree.data(at).unwrap() {
        Payload::Literal(v) => *v,
        Payload::Expr => eval(tree, tree.children(at).unwrap()[0]),
        Payload::Operation(op) => {
            let kids = tree.children(at).unwrap();
            let lhs = eval(tree, kids[0]);
            let rhs = eval(tree, kids[1]);
            match op {
                Op::Add => lhs + rhs,
                Op::Div => lhs / rhs,
            }
        }
    }
}

/// Renders the expression, parenthesizing nested expressions.
fn display(tree: &Tree<Payload>, at: NodeIndex) -> String {
    match tree.data(at).unwrap() {
        Payload::Literal(v) => format!("{}", v),
        Payload::Expr => {
            let inner = display(tree, tree.children(at).unwrap()[0]);
            if tree.parent(at).is_none() {
                inner
            } else {
                format!("({})", inner)
            }
        }
        Payload::Operation(op) => {
            let kids = tree.children(at).unwrap();
            let lhs = display(tree, kids[0]);
            let rhs = display(tree, kids[1]);
            let sign = match op {
                Op::Add => "+",
                Op::Div => "/",
            };
            format!("{}{}{}", lhs, sign, rhs)
        }
    }
}

#[test]
fn expression_tree_evaluates_with_integer_division() {
    let tree = expr_tree();
    assert_eq!(eval(&tree, tree.root()), 8);
}

#[test]
fn expression_tree_displays_with_parentheses() {
    let tree = expr_tree();
    assert_eq!(display(&tree, tree.root()), "5+(7/2)");
}
