//! Germination: flattening a concrete syntax tree into child counts and
//! display tokens, both in depth-first preorder.

use std::marker::PhantomData;
use vstd::prelude::*;
use crate::tree::{Branch, skip, subtree_end, is_preorder, is_forest, lemma_forest_concat, lemma_forest_node, lemma_subtree_end};

verus! {

/// The character of a decimal digit `d < 10`.
pub open spec fn digit_char(d: nat) -> char {
    if d == 0 {
        '0'
    } else if d == 1 {
        '1'
    } else if d == 2 {
        '2'
    } else if d == 3 {
        '3'
    } else if d == 4 {
        '4'
    } else if d == 5 {
        '5'
    } else if d == 6 {
        '6'
    } else if d == 7 {
        '7'
    } else if d == 8 {
        '8'
    } else {
        '9'
    }
}

/// Decimal digits of `n`, most significant first, without leading zeros.
pub open spec fn digits(n: nat) -> Seq<char>
    decreases n,
{
    if n < 10 {
        seq![digit_char(n)]
    } else {
        digits(n / 10).push(digit_char(n % 10))
    }
}

/// Decimal form of `i`, with a leading `-` when negative.
pub open spec fn decimal(i: int) -> Seq<char> {
    if i < 0 {
        seq!['-'] + digits((-i) as nat)
    } else {
        digits(i as nat)
    }
}

fn digit_str(d: u32) -> (r: &'static str)
    requires
        d < 10,
    ensures
        r@ == seq![digit_char(d as nat)],
{
    proof {
        reveal_strlit("0");
        reveal_strlit("1");
        reveal_strlit("2");
        reveal_strlit("3");
        reveal_strlit("4");
        reveal_strlit("5");
        reveal_strlit("6");
        reveal_strlit("7");
        reveal_strlit("8");
        reveal_strlit("9");
    }
    if d == 0 {
        assert("0"@ =~= seq!['0']);
        "0"
    } else if d == 1 {
        assert("1"@ =~= seq!['1']);
        "1"
    } else if d == 2 {
        assert("2"@ =~= seq!['2']);
        "2"
    } else if d == 3 {
        assert("3"@ =~= seq!['3']);
        "3"
    } else if d == 4 {
        assert("4"@ =~= seq!['4']);
        "4"
    } else if d == 5 {
        assert("5"@ =~= seq!['5']);
        "5"
    } else if d == 6 {
        assert("6"@ =~= seq!['6']);
        "6"
    } else if d == 7 {
        assert("7"@ =~= seq!['7']);
        "7"
    } else if d == 8 {
        assert("8"@ =~= seq!['8']);
        "8"
    } else {
        assert("9"@ =~= seq!['9']);
        "9"
    }
}

fn push_digits(s: &mut String, n: u32)
    ensures
        final(s)@ == old(s)@ + digits(n as nat),
    decreases n,
{
    if n >= 10 {
        push_digits(s, n / 10);
    }
    s.append(digit_str(n % 10));
    proof {
        if n >= 10 {
            assert(old(s)@ + digits(n as nat) =~= old(s)@ + digits((n / 10) as nat) + seq![
                digit_char((n % 10) as nat),
            ]);
        } else {
            assert(old(s)@ + digits(n as nat) =~= old(s)@ + seq![digit_char((n % 10) as nat)]);
        }
    }
}

/// The decimal token of an integer.
pub fn decimal_token(i: i32) -> (r: String)
    ensures
        r@ == decimal(i as int),
{
    let mut s = String::new();
    if i < 0 {
        s.append("-");
        proof {
            reveal_strlit("-");
            assert("-"@ =~= seq!['-']);
        }
        let m = (0 - (i as i64)) as u32;
        push_digits(&mut s, m);
        proof {
            assert(s@ =~= seq!['-'] + digits((-i) as nat));
        }
    } else {
        push_digits(&mut s, i as u32);
        proof {
            assert(s@ =~= digits(i as nat));
        }
    }
    s
}

/// The views of a sequence of tokens.
pub open spec fn token_texts(v: Seq<String>) -> Seq<Seq<char>> {
    v.map_values(|s: String| s@)
}

/// The product of growing a tree: one node with a known number of children
/// and a display form.
pub trait Wood {
    spec fn arity(&self) -> nat;

    spec fn text(&self) -> Seq<char>;

    fn branching_factor(&self) -> (r: usize)
        ensures
            r == self.arity(),
    ;

    fn token(&self) -> (r: String)
        ensures
            r@ == self.text(),
    ;
}

/// Emits one node: its child count and its token.
fn shoot<W: Wood>(w: &W, branches: &mut Vec<Branch>, tokens: &mut Vec<String>)
    requires
        w.arity() <= u32::MAX,
    ensures
        final(branches)@ == old(branches)@.push(Branch(w.arity() as u32)),
        token_texts(final(tokens)@) == token_texts(old(tokens)@).push(w.text()),
{
    let n = w.branching_factor();
    branches.push(Branch(n as u32));
    let t = w.token();
    tokens.push(t);
    proof {
        assert(token_texts(tokens@) =~= token_texts(old(tokens)@).push(w.text()));
    }
}

/// Anything that can germinate a tree: it emits itself, then each of its
/// children in order.
pub trait Seed {
    /// The child counts it emits, in preorder.
    spec fn branches(&self) -> Seq<Branch>;

    /// The tokens it emits, in preorder.
    spec fn texts(&self) -> Seq<Seq<char>>;

    /// Every node's child count fits a `Branch`.
    spec fn sized(&self) -> bool;

    fn germinate(&self, branches: &mut Vec<Branch>, tokens: &mut Vec<String>)
        requires
            self.sized(),
        ensures
            final(branches)@ == old(branches)@ + self.branches(),
            token_texts(final(tokens)@) == token_texts(old(tokens)@) + self.texts(),
    ;
}

/// Germinates `seed` into its child counts and tokens.
pub fn grow_tree<S: Seed>(seed: &S) -> (r: (Vec<Branch>, Vec<String>))
    requires
        seed.sized(),
    ensures
        r.0@ == seed.branches(),
        token_texts(r.1@) == seed.texts(),
{
    let mut branches: Vec<Branch> = Vec::new();
    let mut tokens: Vec<String> = Vec::new();
    seed.germinate(&mut branches, &mut tokens);
    proof {
        assert(branches@ =~= seq![] + seed.branches());
        assert(token_texts(tokens@) =~= token_texts(Seq::<String>::empty()) + seed.texts());
        assert(token_texts(Seq::<String>::empty()) =~= Seq::<Seq<char>>::empty());
    }
    (branches, tokens)
}

///////////////// REFS /////////////////
pub type RefId = usize;

/// A reference to a `T` by its id.
#[derive(Debug, PartialEq, Eq)]
pub struct Ref<T> {
    pub id: RefId,
    pub marker: PhantomData<T>,
}

impl<T> Copy for Ref<T> {

}

impl<T> Clone for Ref<T> {
    fn clone(&self) -> (r: Self)
        ensures
            r == *self,
    {
        *self
    }
}

impl<T> Ref<T> {
    pub fn new(id: RefId) -> (r: Self)
        ensures
            r.id == id,
    {
        Ref { id, marker: PhantomData }
    }
}

///////////////// REFERENT /////////////
pub struct Var;

pub struct VarBark;

impl Wood for VarBark {
    open spec fn arity(&self) -> nat {
        0
    }

    open spec fn text(&self) -> Seq<char> {
        "var"@
    }

    fn branching_factor(&self) -> (r: usize) {
        0
    }

    fn token(&self) -> (r: String) {
        "var".to_owned()
    }
}

impl Seed for Var {
    open spec fn branches(&self) -> Seq<Branch> {
        seq![Branch(0)]
    }

    open spec fn texts(&self) -> Seq<Seq<char>> {
        seq!["var"@]
    }

    open spec fn sized(&self) -> bool {
        true
    }

    fn germinate(&self, branches: &mut Vec<Branch>, tokens: &mut Vec<String>) {
        shoot(&VarBark, branches, tokens);
        proof {
            assert(branches@ =~= old(branches)@ + self.branches());
            assert(token_texts(tokens@) =~= token_texts(old(tokens)@) + self.texts());
        }
    }
}

///////////////// EXPR /////////////////
pub enum Expr {
    Hole,
    Bind(Ref<Var>),
    Int(i32),
    Minus(Box<Expr>, Box<Expr>),
    Plus(Box<Expr>, Box<Expr>),
}

pub enum ExprBark {
    Hole,
    Bind(Ref<Var>),
    Int(i32),
    Minus,
    Plus,
}

impl Wood for ExprBark {
    open spec fn arity(&self) -> nat {
        match self {
            ExprBark::Minus | ExprBark::Plus => 2,
            _ => 0,
        }
    }

    open spec fn text(&self) -> Seq<char> {
        match self {
            ExprBark::Hole => "_"@,
            ExprBark::Bind(_) => "x"@,
            ExprBark::Int(i) => decimal(*i as int),
            ExprBark::Minus => "-"@,
            ExprBark::Plus => "+"@,
        }
    }

    fn branching_factor(&self) -> (r: usize) {
        match self {
            ExprBark::Hole => 0,
            ExprBark::Bind(_) => 0,
            ExprBark::Int(_) => 0,
            ExprBark::Minus => 2,
            ExprBark::Plus => 2,
        }
    }

    fn token(&self) -> (r: String) {
        match self {
            ExprBark::Hole => "_".to_owned(),
            ExprBark::Bind(_) => "x".to_owned(),
            ExprBark::Int(i) => decimal_token(*i),
            ExprBark::Minus => "-".to_owned(),
            ExprBark::Plus => "+".to_owned(),
        }
    }
}

/// Child counts of an expression, in preorder.
pub open spec fn expr_branches(e: Expr) -> Seq<Branch>
    decreases e,
{
    match e {
        Expr::Minus(l, r) => seq![Branch(2)] + expr_branches(*l) + expr_branches(*r),
        Expr::Plus(l, r) => seq![Branch(2)] + expr_branches(*l) + expr_branches(*r),
        _ => seq![Branch(0)],
    }
}

/// Tokens of an expression, in preorder.
pub open spec fn expr_texts(e: Expr) -> Seq<Seq<char>>
    decreases e,
{
    match e {
        Expr::Hole => seq!["_"@],
        Expr::Bind(_) => seq!["x"@],
        Expr::Int(i) => seq![decimal(i as int)],
        Expr::Minus(l, r) => seq!["-"@] + expr_texts(*l) + expr_texts(*r),
        Expr::Plus(l, r) => seq!["+"@] + expr_texts(*l) + expr_texts(*r),
    }
}

fn germinate_expr(e: &Expr, branches: &mut Vec<Branch>, tokens: &mut Vec<String>)
    ensures
        final(branches)@ == old(branches)@ + expr_branches(*e),
        token_texts(final(tokens)@) == token_texts(old(tokens)@) + expr_texts(*e),
    decreases e,
{
    match e {
        Expr::Hole => shoot(&ExprBark::Hole, branches, tokens),
        Expr::Bind(r) => shoot(&ExprBark::Bind(*r), branches, tokens),
        Expr::Int(i) => shoot(&ExprBark::Int(*i), branches, tokens),
        Expr::Minus(left, right) => {
            shoot(&ExprBark::Minus, branches, tokens);
            germinate_expr(left, branches, tokens);
            germinate_expr(right, branches, tokens);
        },
        Expr::Plus(left, right) => {
            shoot(&ExprBark::Plus, branches, tokens);
            germinate_expr(left, branches, tokens);
            germinate_expr(right, branches, tokens);
        },
    }
    proof {
        assert(branches@ =~= old(branches)@ + expr_branches(*e));
        assert(token_texts(tokens@) =~= token_texts(old(tokens)@) + expr_texts(*e));
    }
}

impl Seed for Expr {
    open spec fn branches(&self) -> Seq<Branch> {
        expr_branches(*self)
    }

    open spec fn texts(&self) -> Seq<Seq<char>> {
        expr_texts(*self)
    }

    open spec fn sized(&self) -> bool {
        true
    }

    fn germinate(&self, branches: &mut Vec<Branch>, tokens: &mut Vec<String>) {
        germinate_expr(self, branches, tokens);
    }
}

////////////////// STMT ////////////////
pub enum Stmt {
    Let(Var, Expr),
    Print(Expr),
}

pub enum StmtBark {
    Let,
    Print,
}

impl Wood for StmtBark {
    open spec fn arity(&self) -> nat {
        match self {
            StmtBark::Let => 2,
            StmtBark::Print => 1,
        }
    }

    open spec fn text(&self) -> Seq<char> {
        match self {
            StmtBark::Let => "let"@,
            StmtBark::Print => "print"@,
        }
    }

    fn branching_factor(&self) -> (r: usize) {
        match self {
            StmtBark::Let => 2,
            StmtBark::Print => 1,
        }
    }

    fn token(&self) -> (r: String) {
        match self {
            StmtBark::Let => "let".to_owned(),
            StmtBark::Print => "print".to_owned(),
        }
    }
}

/// Child counts of a statement, in preorder.
pub open spec fn stmt_branches(s: Stmt) -> Seq<Branch> {
    match s {
        Stmt::Let(_, e) => seq![Branch(2), Branch(0)] + expr_branches(e),
        Stmt::Print(e) => seq![Branch(1)] + expr_branches(e),
    }
}

/// Tokens of a statement, in preorder.
pub open spec fn stmt_texts(s: Stmt) -> Seq<Seq<char>> {
    match s {
        Stmt::Let(_, e) => seq!["let"@, "var"@] + expr_texts(e),
        Stmt::Print(e) => seq!["print"@] + expr_texts(e),
    }
}

impl Seed for Stmt {
    open spec fn branches(&self) -> Seq<Branch> {
        stmt_branches(*self)
    }

    open spec fn texts(&self) -> Seq<Seq<char>> {
        stmt_texts(*self)
    }

    open spec fn sized(&self) -> bool {
        true
    }

    fn germinate(&self, branches: &mut Vec<Branch>, tokens: &mut Vec<String>) {
        match self {
            Stmt::Let(var, expr) => {
                shoot(&StmtBark::Let, branches, tokens);
                var.germinate(branches, tokens);
                expr.germinate(branches, tokens);
            },
            Stmt::Print(expr) => {
                shoot(&StmtBark::Print, branches, tokens);
                expr.germinate(branches, tokens);
            },
        }
        proof {
            assert(branches@ =~= old(branches)@ + self.branches());
            assert(token_texts(tokens@) =~= token_texts(old(tokens)@) + self.texts());
        }
    }
}

/// Child counts of a statement list, in preorder.
pub open spec fn stmts_branches(s: Seq<Stmt>) -> Seq<Branch>
    decreases s.len(),
{
    if s.len() == 0 {
        seq![]
    } else {
        stmts_branches(s.drop_last()) + stmt_branches(s.last())
    }
}

/// Tokens of a statement list, in preorder.
pub open spec fn stmts_texts(s: Seq<Stmt>) -> Seq<Seq<char>>
    decreases s.len(),
{
    if s.len() == 0 {
        seq![]
    } else {
        stmts_texts(s.drop_last()) + stmt_texts(s.last())
    }
}

pub struct Body {
    pub stmts: Vec<Stmt>,
}

pub struct BodyBark(pub usize);

impl Wood for BodyBark {
    open spec fn arity(&self) -> nat {
        self.0 as nat
    }

    open spec fn text(&self) -> Seq<char> {
        "body: "@
    }

    fn branching_factor(&self) -> (r: usize) {
        self.0
    }

    fn token(&self) -> (r: String) {
        "body: ".to_owned()
    }
}

impl Seed for Body {
    open spec fn branches(&self) -> Seq<Branch> {
        seq![Branch(self.stmts@.len() as u32)] + stmts_branches(self.stmts@)
    }

    open spec fn texts(&self) -> Seq<Seq<char>> {
        seq!["body: "@] + stmts_texts(self.stmts@)
    }

    open spec fn sized(&self) -> bool {
        self.stmts@.len() <= u32::MAX
    }

    fn germinate(&self, branches: &mut Vec<Branch>, tokens: &mut Vec<String>) {
        let n = self.stmts.len();
        shoot(&BodyBark(n), branches, tokens);
        let ghost b0 = branches@;
        let ghost t0 = token_texts(tokens@);
        let mut i: usize = 0;
        while i < n
            invariant
                n == self.stmts@.len(),
                i <= n,
                branches@ == b0 + stmts_branches(self.stmts@.take(i as int)),
                token_texts(tokens@) == t0 + stmts_texts(self.stmts@.take(i as int)),
            decreases n - i,
        {
            self.stmts[i].germinate(branches, tokens);
            proof {
                let s = self.stmts@.take(i + 1);
                assert(s.drop_last() =~= self.stmts@.take(i as int));
                assert(branches@ =~= b0 + stmts_branches(s));
                assert(token_texts(tokens@) =~= t0 + stmts_texts(s));
            }
            i = i + 1;
        }
        proof {
            assert(self.stmts@.take(n as int) =~= self.stmts@);
            assert(branches@ =~= old(branches)@ + self.branches());
            assert(token_texts(tokens@) =~= token_texts(old(tokens)@) + self.texts());
        }
    }
}

proof fn lemma_leaf_forest()
    ensures
        is_forest(seq![Branch(0)], 1),
{
    assert(skip(seq![Branch(0)], 0, 1) == skip(seq![Branch(0)], 1, 0));
}

proof fn lemma_expr_forest(e: Expr)
    ensures
        is_forest(expr_branches(e), 1),
        expr_branches(e).len() == expr_texts(e).len(),
    decreases e,
{
    match e {
        Expr::Minus(l, r) => {
            lemma_expr_forest(*l);
            lemma_expr_forest(*r);
            lemma_forest_concat(expr_branches(*l), expr_branches(*r), 1, 1);
            lemma_forest_node(expr_branches(*l) + expr_branches(*r), 2);
            assert(expr_branches(e) =~= seq![Branch(2)] + (expr_branches(*l) + expr_branches(*r)));
        },
        Expr::Plus(l, r) => {
            lemma_expr_forest(*l);
            lemma_expr_forest(*r);
            lemma_forest_concat(expr_branches(*l), expr_branches(*r), 1, 1);
            lemma_forest_node(expr_branches(*l) + expr_branches(*r), 2);
            assert(expr_branches(e) =~= seq![Branch(2)] + (expr_branches(*l) + expr_branches(*r)));
        },
        _ => {
            lemma_leaf_forest();
        },
    }
}

proof fn lemma_stmt_forest(s: Stmt)
    ensures
        is_forest(stmt_branches(s), 1),
        stmt_branches(s).len() == stmt_texts(s).len(),
{
    match s {
        Stmt::Let(_, e) => {
            lemma_leaf_forest();
            lemma_expr_forest(e);
            lemma_forest_concat(seq![Branch(0)], expr_branches(e), 1, 1);
            lemma_forest_node(seq![Branch(0)] + expr_branches(e), 2);
            assert(stmt_branches(s) =~= seq![Branch(2)] + (seq![Branch(0)] + expr_branches(e)));
        },
        Stmt::Print(e) => {
            lemma_expr_forest(e);
            lemma_forest_node(expr_branches(e), 1);
        },
    }
}

proof fn lemma_stmts_forest(s: Seq<Stmt>)
    ensures
        is_forest(stmts_branches(s), s.len()),
        stmts_branches(s).len() == stmts_texts(s).len(),
    decreases s.len(),
{
    if s.len() == 0 {
        assert(skip(stmts_branches(s), 0, 0) == 0);
    } else {
        lemma_stmts_forest(s.drop_last());
        lemma_stmt_forest(s.last());
        lemma_forest_concat(stmts_branches(s.drop_last()), stmt_branches(s.last()), (s.len() - 1) as nat, 1);
    }
}

/// Germinating a body yields the preorder encoding of exactly one tree, with
/// one token per node.
pub proof fn lemma_germinated_is_tree(body: Body)
    requires
        body.sized(),
    ensures
        is_preorder(body.branches()),
        body.branches().len() == body.texts().len(),
{
    let n = body.stmts@.len();
    lemma_stmts_forest(body.stmts@);
    lemma_forest_node(stmts_branches(body.stmts@), n as u32);
}

/// In a germinated body, each node's count is exactly the number of complete
/// subtrees that follow it before its own subtree ends.
pub proof fn lemma_germinated_counts(body: Body)
    requires
        body.sized(),
    ensures
        forall|i: int|
            0 <= i < body.branches().len() ==> {
                &&& skip(body.branches(), i + 1, body.branches()[i].0 as nat) == #[trigger] subtree_end(
                    body.branches(),
                    i,
                )
                &&& i < subtree_end(body.branches(), i) <= body.branches().len()
            },
{
    lemma_germinated_is_tree(body);
    let x = body.branches();
    assert forall|i: int| 0 <= i < x.len() implies skip(x, i + 1, x[i].0 as nat) == #[trigger] subtree_end(x, i)
        && i < subtree_end(x, i) <= x.len() by {
        lemma_subtree_end(x, i);
        assert(skip(x, i, 1) == skip(x, i + 1, x[i].0 as nat));
    }
}

/// Germinating the same body twice gives identical child counts and tokens.
pub proof fn lemma_germination_repeatable(
    body: Body,
    b1: Seq<Branch>,
    t1: Seq<String>,
    b2: Seq<Branch>,
    t2: Seq<String>,
)
    requires
        b1 == body.branches() && token_texts(t1) == body.texts(),
        b2 == body.branches() && token_texts(t2) == body.texts(),
    ensures
        b1 == b2,
        t1.len() == t2.len(),
        forall|i: int| 0 <= i < t1.len() ==> t1[i]@ == t2[i]@,
{
    assert(token_texts(t1).len() == t1.len());
    assert(token_texts(t2).len() == t2.len());
    assert forall|i: int| 0 <= i < t1.len() implies t1[i]@ == t2[i]@ by {
        assert(token_texts(t1)[i] == t1[i]@);
        assert(token_texts(t2)[i] == t2[i]@);
    }
}

/// The sample program `let x = 1; print(4 + (2 - x))`.
pub fn build_math() -> (body: Body)
    ensures
        body.stmts@ == seq![
            Stmt::Let(Var, Expr::Int(1)),
            Stmt::Print(
                Expr::Plus(
                    Box::new(Expr::Int(4)),
                    Box::new(
                        Expr::Minus(
                            Box::new(Expr::Int(2)),
                            Box::new(Expr::Bind(Ref { id: 0, marker: PhantomData })),
                        ),
                    ),
                ),
            ),
        ],
        body.sized(),
        body.branches() == seq![
            Branch(2),
            Branch(2),
            Branch(0),
            Branch(0),
            Branch(1),
            Branch(2),
            Branch(0),
            Branch(2),
            Branch(0),
            Branch(0),
        ],
        body.texts() == seq![
            "body: "@,
            "let"@,
            "var"@,
            decimal(1),
            "print"@,
            "+"@,
            decimal(4),
            "-"@,
            decimal(2),
            "x"@,
        ],
{
    let x: Ref<Var> = Ref { id: 0, marker: PhantomData };
    let difference = Expr::Minus(Box::new(Expr::Int(2)), Box::new(Expr::Bind(x)));
    let ghost d = difference;
    proof {
        assert(expr_branches(Expr::Int(2)) =~= seq![Branch(0)]);
        assert(expr_texts(Expr::Int(2)) =~= seq![decimal(2)]);
        assert(expr_branches(Expr::Bind(x)) =~= seq![Branch(0)]);
        assert(expr_texts(Expr::Bind(x)) =~= seq!["x"@]);
        assert(expr_branches(Expr::Int(4)) =~= seq![Branch(0)]);
        assert(expr_texts(Expr::Int(4)) =~= seq![decimal(4)]);
        assert(expr_branches(d) =~= seq![Branch(2), Branch(0), Branch(0)]);
        assert(expr_texts(d) =~= seq!["-"@, decimal(2), "x"@]);
    }
    let sum = Expr::Plus(Box::new(Expr::Int(4)), Box::new(difference));
    let ghost e = sum;
    proof {
        assert(expr_branches(e) =~= seq![Branch(2), Branch(0), Branch(2), Branch(0), Branch(0)]);
        assert(expr_texts(e) =~= seq!["+"@, decimal(4), "-"@, decimal(2), "x"@]);
        assert(expr_branches(Expr::Int(1)) =~= seq![Branch(0)]);
        assert(expr_texts(Expr::Int(1)) =~= seq![decimal(1)]);
    }
    let mut stmts: Vec<Stmt> = Vec::new();
    stmts.push(Stmt::Let(Var, Expr::Int(1)));
    stmts.push(Stmt::Print(sum));
    let body = Body { stmts };
    proof {
        assert(body.stmts@ =~= seq![
            Stmt::Let(Var, Expr::Int(1)),
            Stmt::Print(
                Expr::Plus(
                    Box::new(Expr::Int(4)),
                    Box::new(
                        Expr::Minus(
                            Box::new(Expr::Int(2)),
                            Box::new(Expr::Bind(Ref { id: 0, marker: PhantomData })),
                        ),
                    ),
                ),
            ),
        ]);
        let s = body.stmts@;
        assert(s.drop_last().drop_last() =~= Seq::<Stmt>::empty());
        assert(stmts_branches(s.drop_last().drop_last()) == Seq::<Branch>::empty());
        assert(stmts_texts(s.drop_last().drop_last()) == Seq::<Seq<char>>::empty());
        assert(s.drop_last().last() == s[0]);
        assert(stmts_branches(s.drop_last()) =~= seq![] + stmt_branches(s[0]));
        assert(stmts_texts(s.drop_last()) =~= seq![] + stmt_texts(s[0]));
        assert(body.branches() =~= seq![
            Branch(2),
            Branch(2),
            Branch(0),
            Branch(0),
            Branch(1),
            Branch(2),
            Branch(0),
            Branch(2),
            Branch(0),
            Branch(0),
        ]);
        assert(body.texts() =~= seq![
            "body: "@,
            "let"@,
            "var"@,
            decimal(1),
            "print"@,
            "+"@,
            decimal(4),
            "-"@,
            decimal(2),
            "x"@,
        ]);
    }
    body
}

} // verus!
