//! The syntax tree shared by the parser and the code generator, together
//! with the mathematical model of each node.

use vstd::prelude::*;

verus! {

/// Binary operator
#[derive(Debug, Clone, Copy, PartialEq, Eq, Structural)]
pub enum BinOp {
    /// Addition (+)
    Add,
    /// Subtraction (-)
    Sub,
    /// Multiplication (*)
    Mul,
    /// Division (/)
    Div,
    /// Equality (==)
    Equal,
    /// Inequality (!=)
    NotEqual,
    /// Less than (<)
    LessThan,
    /// Less than or equal (<=)
    LessThanOrEqual,
    /// Greater than (>)
    GreaterThan,
    /// Greater than or equal (>=)
    GreaterThanOrEqual,
    /// Logical AND (&&)
    And,
    /// Logical OR (||)
    Or,
}

/// Unary operator
#[derive(Debug, Clone, Copy, PartialEq, Eq, Structural)]
pub enum UnaryOp {
    /// Negation (-)
    Neg,
    /// Logical NOT (!)
    Not,
}

/// Type
#[derive(Debug, Clone, Copy, PartialEq, Eq, Structural)]
pub enum Type {
    I32,
    I64,
    F32,
    F64,
    Void,
    String,
}

/// Expression
#[allow(inconsistent_fields)]
#[derive(Debug, PartialEq)]
pub enum Expr<'a> {
    /// An integer literal
    IntLit(i64),
    /// A boolean literal
    BoolLit(bool),
    /// A binary operation
    BinOp {
        /// The left-hand side expression
        lhs: Box<Expr<'a>>,
        /// The operator
        op: BinOp,
        /// The right-hand side expression
        rhs: Box<Expr<'a>>,
    },
    /// A unary operation
    UnaryOp {
        /// The operator
        op: UnaryOp,
        /// The expression
        expr: Box<Expr<'a>>,
    },
    /// A function call
    FnCall {
        /// The function name
        name: &'a str,
        /// The arguments
        args: Vec<Expr<'a>>,
    },
    /// A variable reference (identifier)
    VarRef {
        /// The variable name
        name: &'a str,
    },
}

/// The mathematical value of an [`Expr`]: names are character sequences
/// and argument lists are sequences.
#[allow(inconsistent_fields)]
pub enum ExprView {
    IntLit(i64),
    BoolLit(bool),
    BinOp { lhs: Box<ExprView>, op: BinOp, rhs: Box<ExprView> },
    UnaryOp { op: UnaryOp, expr: Box<ExprView> },
    FnCall { name: Seq<char>, args: Seq<ExprView> },
    VarRef { name: Seq<char> },
}

/// The model of an expression.
pub open spec fn expr_view(e: Expr) -> ExprView
    decreases e,
{
    match e {
        Expr::IntLit(value) => ExprView::IntLit(value),
        Expr::BoolLit(value) => ExprView::BoolLit(value),
        Expr::BinOp { lhs, op, rhs } => ExprView::BinOp {
            lhs: Box::new(expr_view(*lhs)),
            op,
            rhs: Box::new(expr_view(*rhs)),
        },
        Expr::UnaryOp { op, expr } => ExprView::UnaryOp { op, expr: Box::new(expr_view(*expr)) },
        Expr::FnCall { name, args } => ExprView::FnCall { name: name@, args: exprs_view(args@) },
        Expr::VarRef { name } => ExprView::VarRef { name: name@ },
    }
}

/// The models of a sequence of expressions, element by element.
pub open spec fn exprs_view(es: Seq<Expr>) -> Seq<ExprView>
    decreases es,
{
    Seq::new(
        es.len(),
        |i: int|
            if 0 <= i < es.len() {
                expr_view(es[i])
            } else {
                arbitrary()
            },
    )
}

impl<'a> View for Expr<'a> {
    type V = ExprView;

    open spec fn view(&self) -> ExprView {
        expr_view(*self)
    }
}

impl<'a> Clone for Expr<'a> {
    /// A copy of the expression: a tree of its own with the same model.
    #[verifier::loop_isolation(false)]
    fn clone(&self) -> (copy: Self)
        ensures
            copy@ == self@,
        decreases self,
    {
        match self {
            Expr::IntLit(value) => Expr::IntLit(*value),
            Expr::BoolLit(value) => Expr::BoolLit(*value),
            Expr::BinOp { lhs, op, rhs } => Expr::BinOp {
                lhs: Box::new((**lhs).clone()),
                op: *op,
                rhs: Box::new((**rhs).clone()),
            },
            Expr::UnaryOp { op, expr } => Expr::UnaryOp {
                op: *op,
                expr: Box::new((**expr).clone()),
            },
            Expr::FnCall { name, args } => {
                let mut copies: Vec<Expr<'a>> = Vec::new();
                let mut i: usize = 0;
                while i < args.len()
                    invariant
                        0 <= i <= args.len(),
                        copies@.len() == i,
                        forall|j: int| 0 <= j < i ==> (#[trigger] copies@[j])@ == args@[j]@,
                    decreases args.len() - i,
                {
                    copies.push(args[i].clone());
                    i += 1;
                }
                assert(exprs_view(copies@) =~= exprs_view(args@));
                Expr::FnCall { name: *name, args: copies }
            },
            Expr::VarRef { name } => Expr::VarRef { name: *name },
        }
    }
}

/// Function parameter
#[derive(Debug, Clone, Copy, PartialEq)]
pub struct FunctionParameter<'a> {
    /// The name of the parameter
    pub name: &'a str,
    /// The type of the parameter
    pub ty: Type,
}

/// The model of a [`FunctionParameter`].
pub struct ParamView {
    pub name: Seq<char>,
    pub ty: Type,
}

impl<'a> View for FunctionParameter<'a> {
    type V = ParamView;

    open spec fn view(&self) -> ParamView {
        ParamView { name: self.name@, ty: self.ty }
    }
}

/// The models of a sequence of parameters, element by element.
pub open spec fn params_view(ps: Seq<FunctionParameter>) -> Seq<ParamView> {
    Seq::new(ps.len(), |i: int| ps[i]@)
}

/// Statements
#[allow(inconsistent_fields)]
#[derive(Debug, PartialEq)]
pub enum Stmt<'a> {
    /// A function declaration
    FnDecl {
        /// The name of the function
        name: &'a str,
        /// The parameters of the function
        params: Vec<FunctionParameter<'a>>,
        /// The return type of the function
        ty: Type,
        /// The body of the function
        body: Vec<Stmt<'a>>,
    },
    /// A variable declaration (let)
    LetDecl {
        /// The variable name
        name: &'a str,
        /// The type (optional)
        ty: Option<Type>,
        /// The value (optional)
        value: Option<Expr<'a>>,
    },
    /// A mutable variable declaration (var)
    VarDecl {
        /// The variable name
        name: &'a str,
        /// The type (optional)
        ty: Option<Type>,
        /// The value (optional)
        value: Option<Expr<'a>>,
    },
    /// An assignment statement
    Assign {
        /// The variable name
        name: &'a str,
        /// The value to assign
        value: Box<Expr<'a>>,
    },
    /// An if statement
    If {
        /// The condition
        condition: Box<Expr<'a>>,
        /// The then branch
        then_branch: Vec<Stmt<'a>>,
        /// The else branch (optional)
        else_branch: Option<Vec<Stmt<'a>>>,
    },
    /// A return statement
    Return {
        /// The expression to return (optional)
        expr: Option<Box<Expr<'a>>>,
    },
    /// An expression statement
    ExprStmt {
        /// The expression
        expr: Box<Expr<'a>>,
    },
    /// An expression whose value is the value of the enclosing block
    Expr {
        /// The expression
        expr: Box<Expr<'a>>,
    },
}

/// The mathematical value of a [`Stmt`].
#[allow(inconsistent_fields)]
pub enum StmtView {
    FnDecl { name: Seq<char>, params: Seq<ParamView>, ty: Type, body: Seq<StmtView> },
    LetDecl { name: Seq<char>, ty: Option<Type>, value: Option<ExprView> },
    VarDecl { name: Seq<char>, ty: Option<Type>, value: Option<ExprView> },
    Assign { name: Seq<char>, value: ExprView },
    If { condition: ExprView, then_branch: Seq<StmtView>, else_branch: Option<Seq<StmtView>> },
    Return { expr: Option<ExprView> },
    ExprStmt { expr: ExprView },
    Expr { expr: ExprView },
}

/// The model of a statement.
pub open spec fn stmt_view(s: Stmt) -> StmtView
    decreases s,
{
    match s {
        Stmt::FnDecl { name, params, ty, body } => StmtView::FnDecl {
            name: name@,
            params: params_view(params@),
            ty,
            body: stmts_view(body@),
        },
        Stmt::LetDecl { name, ty, value } => StmtView::LetDecl {
            name: name@,
            ty,
            value: match value {
                Some(e) => Some(e@),
                None => None,
            },
        },
        Stmt::VarDecl { name, ty, value } => StmtView::VarDecl {
            name: name@,
            ty,
            value: match value {
                Some(e) => Some(e@),
                None => None,
            },
        },
        Stmt::Assign { name, value } => StmtView::Assign { name: name@, value: (*value)@ },
        Stmt::If { condition, then_branch, else_branch } => StmtView::If {
            condition: (*condition)@,
            then_branch: stmts_view(then_branch@),
            else_branch: match else_branch {
                Some(b) => Some(stmts_view(b@)),
                None => None,
            },
        },
        Stmt::Return { expr } => StmtView::Return {
            expr: match expr {
                Some(e) => Some((*e)@),
                None => None,
            },
        },
        Stmt::ExprStmt { expr } => StmtView::ExprStmt { expr: (*expr)@ },
        Stmt::Expr { expr } => StmtView::Expr { expr: (*expr)@ },
    }
}

/// The models of a sequence of statements, element by element.
pub open spec fn stmts_view(ss: Seq<Stmt>) -> Seq<StmtView>
    decreases ss,
{
    Seq::new(
        ss.len(),
        |i: int|
            if 0 <= i < ss.len() {
                stmt_view(ss[i])
            } else {
                arbitrary()
            },
    )
}

impl<'a> View for Stmt<'a> {
    type V = StmtView;

    open spec fn view(&self) -> StmtView {
        stmt_view(*self)
    }
}

/// Whether no bare expression is among the first `n` of `stmts`, and every
/// block inside them is well formed.
pub open spec fn no_tail_among(stmts: Seq<StmtView>, n: nat) -> bool
    decreases stmts, 0nat, n,
{
    if n == 0 || n > stmts.len() {
        true
    } else {
        no_tail_among(stmts, (n - 1) as nat) && blocks_well_formed(stmts[n - 1]) && !(stmts[n
            - 1] is Expr)
    }
}

/// Whether a bare expression stands nowhere in `stmts` but at the end, and
/// so in every block inside: the value of a block is its last statement.
pub open spec fn tail_only_at_end(stmts: Seq<StmtView>) -> bool
    decreases stmts, 1nat, 0nat,
{
    stmts.len() == 0 || (no_tail_among(stmts, (stmts.len() - 1) as nat) && blocks_well_formed(
        stmts.last(),
    ))
}

/// Whether a bare expression stands only at the end of each block inside
/// `s`.
pub open spec fn blocks_well_formed(s: StmtView) -> bool
    decreases s, 2nat, 0nat,
{
    match s {
        StmtView::FnDecl { body, .. } => tail_only_at_end(body),
        StmtView::If { then_branch, else_branch, .. } => tail_only_at_end(then_branch) && match else_branch {
            Some(stmts) => tail_only_at_end(stmts),
            None => true,
        },
        _ => true,
    }
}

/// In a well-formed block, a bare expression is the last statement.
pub proof fn lemma_tail_is_last(stmts: Seq<StmtView>, i: int)
    requires
        tail_only_at_end(stmts),
        0 <= i < stmts.len(),
    ensures
        blocks_well_formed(stmts[i]),
        stmts[i] is Expr ==> i == stmts.len() - 1,
{
    if i < stmts.len() - 1 {
        lemma_no_tail_among(stmts, (stmts.len() - 1) as nat, i);
    }
}

/// Where no bare expression is among the first `n` statements, none of
/// them is one.
pub proof fn lemma_no_tail_among(stmts: Seq<StmtView>, n: nat, i: int)
    requires
        no_tail_among(stmts, n),
        0 <= i < n <= stmts.len(),
    ensures
        blocks_well_formed(stmts[i]),
        !(stmts[i] is Expr),
    decreases n,
{
    if i < n - 1 {
        lemma_no_tail_among(stmts, (n - 1) as nat, i);
    }
}

/// What holds of the first `n` statements holds of them in every sequence
/// that starts with them.
pub proof fn lemma_no_tail_among_prefix(a: Seq<StmtView>, b: Seq<StmtView>, n: nat)
    requires
        n <= a.len(),
        n <= b.len(),
        forall|i: int| 0 <= i < n ==> a[i] == b[i],
    ensures
        no_tail_among(a, n) == no_tail_among(b, n),
    decreases n,
{
    if n > 0 {
        lemma_no_tail_among_prefix(a, b, (n - 1) as nat);
    }
}

fn clone_params<'a>(params: &Vec<FunctionParameter<'a>>) -> (copies: Vec<FunctionParameter<'a>>)
    ensures
        params_view(copies@) == params_view(params@),
{
    let mut copies: Vec<FunctionParameter<'a>> = Vec::new();
    let mut i: usize = 0;
    while i < params.len()
        invariant
            0 <= i <= params.len(),
            copies@.len() == i,
            forall|j: int| 0 <= j < i ==> (#[trigger] copies@[j])@ == params@[j]@,
        decreases params.len() - i,
    {
        let param = &params[i];
        copies.push(FunctionParameter { name: param.name, ty: param.ty });
        i += 1;
    }
    assert(params_view(copies@) =~= params_view(params@));
    copies
}

#[verifier::loop_isolation(false)]
fn clone_stmts<'a>(stmts: &Vec<Stmt<'a>>) -> (copies: Vec<Stmt<'a>>)
    ensures
        stmts_view(copies@) == stmts_view(stmts@),
    decreases stmts,
{
    let mut copies: Vec<Stmt<'a>> = Vec::new();
    let mut i: usize = 0;
    while i < stmts.len()
        invariant
            0 <= i <= stmts.len(),
            copies@.len() == i,
            forall|j: int| 0 <= j < i ==> (#[trigger] copies@[j])@ == stmts@[j]@,
        decreases stmts.len() - i,
    {
        copies.push(stmts[i].clone());
        i += 1;
    }
    assert(stmts_view(copies@) =~= stmts_view(stmts@));
    copies
}

impl<'a> Clone for Stmt<'a> {
    /// A copy of the statement: a tree of its own with the same model.
    fn clone(&self) -> (copy: Self)
        ensures
            copy@ == self@,
        decreases self,
    {
        match self {
            Stmt::FnDecl { name, params, ty, body } => Stmt::FnDecl {
                name: *name,
                params: clone_params(params),
                ty: *ty,
                body: clone_stmts(body),
            },
            Stmt::LetDecl { name, ty, value } => Stmt::LetDecl {
                name: *name,
                ty: *ty,
                value: match value {
                    Some(e) => Some(e.clone()),
                    None => None,
                },
            },
            Stmt::VarDecl { name, ty, value } => Stmt::VarDecl {
                name: *name,
                ty: *ty,
                value: match value {
                    Some(e) => Some(e.clone()),
                    None => None,
                },
            },
            Stmt::Assign { name, value } => Stmt::Assign {
                name: *name,
                value: Box::new((**value).clone()),
            },
            Stmt::If { condition, then_branch, else_branch } => Stmt::If {
                condition: Box::new((**condition).clone()),
                then_branch: clone_stmts(then_branch),
                else_branch: match else_branch {
                    Some(stmts) => Some(clone_stmts(stmts)),
                    None => None,
                },
            },
            Stmt::Return { expr } => Stmt::Return {
                expr: match expr {
                    Some(e) => Some(Box::new((**e).clone())),
                    None => None,
                },
            },
            Stmt::ExprStmt { expr } => Stmt::ExprStmt { expr: Box::new((**expr).clone()) },
            Stmt::Expr { expr } => Stmt::Expr { expr: Box::new((**expr).clone()) },
        }
    }
}

/// The top-level program structure
#[derive(Debug, PartialEq)]
pub struct Program<'a> {
    /// The statements that make up the program
    pub statements: Vec<Stmt<'a>>,
}

impl<'a> Clone for Program<'a> {
    /// A copy of the program: a tree of its own with the same model.
    fn clone(&self) -> (copy: Self)
        ensures
            copy@ == self@,
    {
        Program { statements: clone_stmts(&self.statements) }
    }
}

impl<'a> View for Program<'a> {
    type V = Seq<StmtView>;

    open spec fn view(&self) -> Seq<StmtView> {
        stmts_view(self.statements@)
    }
}

} // verus!
