use orca::layout::{layout_tree, Fit, Pos};
use orca::seed::{
    build_math, decimal_token, grow_tree, Body, BodyBark, Expr, ExprBark, Ref, Seed, Stmt,
    StmtBark, Var, VarBark, Wood,
};
use orca::tree::{Branch, Tree};

fn counts(b: &[Branch]) -> Vec<u32> {
    b.iter().map(|x| x.0).collect()
}

#[test]
fn decimal_tokens() {
    assert_eq!(decimal_token(0), "0");
    assert_eq!(decimal_token(7), "7");
    assert_eq!(decimal_token(10), "10");
    assert_eq!(decimal_token(-42), "-42");
    assert_eq!(decimal_token(i32::MAX), "2147483647");
    assert_eq!(decimal_token(i32::MIN), "-2147483648");
}

#[test]
fn barks_report_arity_and_token() {
    assert_eq!(VarBark.branching_factor(), 0);
    assert_eq!(VarBark.token(), "var");
    assert_eq!(ExprBark::Hole.token(), "_");
    assert_eq!(ExprBark::Bind(Ref::new(3)).token(), "x");
    assert_eq!(ExprBark::Int(12).token(), "12");
    assert_eq!(ExprBark::Minus.branching_factor(), 2);
    assert_eq!(ExprBark::Plus.token(), "+");
    assert_eq!(ExprBark::Int(1).branching_factor(), 0);
    assert_eq!(StmtBark::Let.branching_factor(), 2);
    assert_eq!(StmtBark::Print.branching_factor(), 1);
    assert_eq!(StmtBark::Print.token(), "print");
    assert_eq!(BodyBark(3).branching_factor(), 3);
    assert_eq!(BodyBark(3).token(), "body: ");
}

#[test]
fn ref_keeps_its_id() {
    let r: Ref<Var> = Ref::new(5);
    let copy = r;
    assert_eq!(copy.id, 5);
    assert_eq!(r.clone().id, copy.id);
}

#[test]
fn sample_program_germinates_in_preorder() {
    let (branches, tokens) = grow_tree(&build_math());
    assert_eq!(counts(&branches), vec![2, 2, 0, 0, 1, 2, 0, 2, 0, 0]);
    assert_eq!(
        tokens,
        vec!["body: ", "let", "var", "1", "print", "+", "4", "-", "2", "x"]
    );
}

#[test]
fn germinated_body_is_a_tree() {
    let (branches, tokens) = grow_tree(&build_math());
    let tree = Tree::new(&branches).unwrap();
    assert_eq!(tree.len(), tokens.len());
    let sizes = tree.flow_up(|_ix, kids: &[usize]| 1 + kids.iter().sum::<usize>());
    assert_eq!(sizes, 10);
}

#[test]
fn every_count_is_followed_by_that_many_subtrees() {
    // each node's subtree size, from its own count and its children's sizes
    let (branches, _) = grow_tree(&build_math());
    let mut ends = vec![0usize; branches.len()];
    for i in (0..branches.len()).rev() {
        let mut c = i + 1;
        for _ in 0..branches[i].0 {
            c = ends[c];
        }
        assert!(c <= branches.len());
        ends[i] = c;
    }
    assert_eq!(ends[0], branches.len());
    assert_eq!(ends, vec![10, 4, 3, 4, 10, 10, 7, 10, 9, 10]);
}

#[test]
fn nested_expression_germinates() {
    let e = Expr::Plus(
        Box::new(Expr::Minus(Box::new(Expr::Hole), Box::new(Expr::Int(-3)))),
        Box::new(Expr::Bind(Ref::new(1))),
    );
    let (branches, tokens) = grow_tree(&e);
    assert_eq!(counts(&branches), vec![2, 2, 0, 0, 0]);
    assert_eq!(tokens, vec!["+", "-", "_", "-3", "x"]);
    assert!(Tree::new(&branches).is_ok());
}

#[test]
fn empty_body_is_a_single_leaf() {
    let body = Body { stmts: vec![] };
    let (branches, tokens) = grow_tree(&body);
    assert_eq!(counts(&branches), vec![0]);
    assert_eq!(tokens, vec!["body: "]);
    assert!(Tree::new(&branches).is_ok());
}

#[test]
fn germinate_appends_to_existing_output() {
    let mut branches = vec![Branch(9)];
    let mut tokens = vec![String::from("old")];
    Stmt::Print(Expr::Int(5)).germinate(&mut branches, &mut tokens);
    assert_eq!(counts(&branches), vec![9, 1, 0]);
    assert_eq!(tokens, vec!["old", "print", "5"]);
    Var.germinate(&mut branches, &mut tokens);
    assert_eq!(tokens, vec!["old", "print", "5", "var"]);
}

#[test]
fn germination_is_repeatable() {
    let body = build_math();
    let first = grow_tree(&body);
    let second = grow_tree(&body);
    assert_eq!(first.0, second.0);
    assert_eq!(first.1, second.1);
}

#[test]
fn sample_program_layout() {
    let (branches, tokens) = grow_tree(&build_math());
    let tree = Tree::new(&branches).unwrap();
    // one unit of width per character, one unit of height per token
    let fits: Vec<Fit> = tokens.iter().map(|t| Fit(t.len() as u32, 1)).collect();
    let (bounds, pos) = layout_tree(&tree, &fits, 5).unwrap();
    assert_eq!(bounds[0].0, 23);
    assert_eq!(
        pos,
        vec![
            Pos(0, 0),
            Pos(6, 5),
            Pos(9, 10),
            Pos(12, 10),
            Pos(13, 5),
            Pos(18, 10),
            Pos(19, 15),
            Pos(20, 15),
            Pos(21, 20),
            Pos(22, 20),
        ]
    );
}

fn generated_expr(seed: u32, depth: u32) -> Expr {
    if depth == 0 {
        return match seed % 3 {
            0 => Expr::Hole,
            1 => Expr::Int(seed as i32 - 50),
            _ => Expr::Bind(Ref::new(seed as usize)),
        };
    }
    let left = Box::new(generated_expr(seed.wrapping_mul(7).wrapping_add(1), (depth - 1).saturating_sub(seed % 2)));
    let right = Box::new(generated_expr(seed.wrapping_mul(13).wrapping_add(5), depth - 1));
    if seed % 2 == 0 {
        Expr::Plus(left, right)
    } else {
        Expr::Minus(left, right)
    }
}

#[test]
fn generated_bodies_germinate_into_trees() {
    for seed in 0..40u32 {
        let mut stmts = vec![];
        for k in 0..(seed % 4) {
            let e = generated_expr(seed * 31 + k, (seed + k) % 5);
            if k % 2 == 0 {
                stmts.push(Stmt::Print(e));
            } else {
                stmts.push(Stmt::Let(Var, e));
            }
        }
        let body = Body { stmts };
        let (branches, tokens) = grow_tree(&body);
        assert_eq!(branches.len(), tokens.len());
        let tree = Tree::new(&branches).unwrap();
        let size = tree.flow_up(|_ix, kids: &[usize]| 1 + kids.iter().sum::<usize>());
        assert_eq!(size, branches.len());
    }
}

#[test]
fn sample_program_statements() {
    let body = build_math();
    assert_eq!(body.stmts.len(), 2);
    match &body.stmts[0] {
        Stmt::Let(Var, Expr::Int(1)) => {}
        _ => panic!("first statement is not `let x = 1`"),
    }
    match &body.stmts[1] {
        Stmt::Print(Expr::Plus(l, r)) => {
            assert!(matches!(**l, Expr::Int(4)));
            match &**r {
                Expr::Minus(a, c) => {
                    assert!(matches!(**a, Expr::Int(2)));
                    match &**c {
                        Expr::Bind(x) => assert_eq!(x.id, 0),
                        _ => panic!("expected the bound variable"),
                    }
                }
                _ => panic!("expected a difference"),
            }
        }
        _ => panic!("second statement is not `print(4 + (2 - x))`"),
    }
}
