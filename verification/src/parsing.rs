use vstd::prelude::*;
use crate::typing::{Type, SpecType, type_view};
use crate::lexing::{Token, SpecToken, token_text, tokens_view, two_char_operators, one_char_operators};
use crate::text::{str_eq, decimal, digit_char, signed_decimal};
use vstd::string::StrSliceExecFns;

verus! {

broadcast use vstd::std_specs::vec::group_vec_axioms;

pub struct Program {
    pub body: Vec<Function>,
}

pub struct Function {
    pub name: String,
    pub body: Vec<BlockItem>,
    pub func_type: Type,
}

pub enum Statement {
    Return { value: Option<Box<Expression>> },
    Yield { value: Option<Box<Expression>> },
    Block { items: Vec<BlockItem> },
    Expression { expression: Box<Expression> },
}

#[allow(inconsistent_fields)]
pub enum Expression {
    UnaryOp { operator: String, target: Box<Expression>, expr_type: Type },
    BinaryOp { operator: String, left: Box<Expression>, right: Box<Expression>, expr_type: Type },
    Var { name: String, expr_type: Type },
    VarAssignment { name: String, value: Box<Expression>, expr_type: Type },
    Int32Constant { value: i32, expr_type: Type },
    BlockExpression { items: Vec<BlockItem>, expr_type: Type },
}

pub struct VarDeclaration {
    pub name: String,
    pub init_value: Option<Expression>,
    pub var_type: Type,
}

pub enum BlockItem {
    Statement(Statement),
    VarDeclaration(VarDeclaration),
}

// ---------------------------------------------------------------------------
// The mathematical values of the syntax tree.

pub struct SpecProgram {
    pub body: Seq<SpecFunction>,
}

pub struct SpecFunction {
    pub name: Seq<char>,
    pub body: Seq<SpecBlockItem>,
    pub func_type: SpecType,
}

pub enum SpecStatement {
    Return { value: Option<SpecExpr> },
    Yield { value: Option<SpecExpr> },
    Block { items: Seq<SpecBlockItem> },
    Expression { expression: SpecExpr },
}

#[allow(inconsistent_fields)]
pub enum SpecExpr {
    UnaryOp { operator: Seq<char>, target: Box<SpecExpr>, expr_type: SpecType },
    BinaryOp { operator: Seq<char>, left: Box<SpecExpr>, right: Box<SpecExpr>, expr_type: SpecType },
    Var { name: Seq<char>, expr_type: SpecType },
    VarAssignment { name: Seq<char>, value: Box<SpecExpr>, expr_type: SpecType },
    Int32Constant { value: i32, expr_type: SpecType },
    BlockExpression { items: Seq<SpecBlockItem>, expr_type: SpecType },
}

pub struct SpecVarDecl {
    pub name: Seq<char>,
    pub init_value: Option<SpecExpr>,
    pub var_type: SpecType,
}

pub enum SpecBlockItem {
    Statement(SpecStatement),
    VarDeclaration(SpecVarDecl),
}

pub open spec fn expr_view(e: Expression) -> SpecExpr
    decreases e,
{
    match e {
        Expression::UnaryOp { operator, target, expr_type } => SpecExpr::UnaryOp {
            operator: operator@,
            target: Box::new(expr_view(*target)),
            expr_type: type_view(expr_type),
        },
        Expression::BinaryOp { operator, left, right, expr_type } => SpecExpr::BinaryOp {
            operator: operator@,
            left: Box::new(expr_view(*left)),
            right: Box::new(expr_view(*right)),
            expr_type: type_view(expr_type),
        },
        Expression::Var { name, expr_type } => SpecExpr::Var { name: name@, expr_type: type_view(expr_type) },
        Expression::VarAssignment { name, value, expr_type } => SpecExpr::VarAssignment {
            name: name@,
            value: Box::new(expr_view(*value)),
            expr_type: type_view(expr_type),
        },
        Expression::Int32Constant { value, expr_type } => SpecExpr::Int32Constant {
            value,
            expr_type: type_view(expr_type),
        },
        Expression::BlockExpression { items, expr_type } => SpecExpr::BlockExpression {
            items: items_view(items@),
            expr_type: type_view(expr_type),
        },
    }
}

pub open spec fn opt_expr_view(e: Option<Box<Expression>>) -> Option<SpecExpr>
    decreases e,
{
    match e {
        Some(b) => Some(expr_view(*b)),
        None => None,
    }
}

pub open spec fn stmt_view(s: Statement) -> SpecStatement
    decreases s,
{
    match s {
        Statement::Return { value } => SpecStatement::Return { value: opt_expr_view(value) },
        Statement::Yield { value } => SpecStatement::Yield { value: opt_expr_view(value) },
        Statement::Block { items } => SpecStatement::Block { items: items_view(items@) },
        Statement::Expression { expression } => SpecStatement::Expression {
            expression: expr_view(*expression),
        },
    }
}

pub open spec fn item_view(b: BlockItem) -> SpecBlockItem
    decreases b,
{
    match b {
        BlockItem::Statement(s) => SpecBlockItem::Statement(stmt_view(s)),
        BlockItem::VarDeclaration(d) => SpecBlockItem::VarDeclaration(SpecVarDecl {
            name: d.name@,
            init_value: match d.init_value {
                Some(e) => Some(expr_view(e)),
                None => None,
            },
            var_type: type_view(d.var_type),
        }),
    }
}

pub open spec fn items_view(items: Seq<BlockItem>) -> Seq<SpecBlockItem>
    decreases items,
{
    if items.len() == 0 {
        Seq::empty()
    } else {
        seq![item_view(items[0])] + items_view(items.drop_first())
    }
}

impl View for Expression {
    type V = SpecExpr;

    open spec fn view(&self) -> SpecExpr {
        expr_view(*self)
    }
}

impl View for Statement {
    type V = SpecStatement;

    open spec fn view(&self) -> SpecStatement {
        stmt_view(*self)
    }
}

impl View for BlockItem {
    type V = SpecBlockItem;

    open spec fn view(&self) -> SpecBlockItem {
        item_view(*self)
    }
}

impl View for VarDeclaration {
    type V = SpecVarDecl;

    open spec fn view(&self) -> SpecVarDecl {
        match item_view(BlockItem::VarDeclaration(*self)) {
            SpecBlockItem::VarDeclaration(d) => d,
            _ => arbitrary(),
        }
    }
}

pub open spec fn function_view(f: Function) -> SpecFunction {
    SpecFunction { name: f.name@, body: items_view(f.body@), func_type: type_view(f.func_type) }
}

pub open spec fn functions_view(fs: Seq<Function>) -> Seq<SpecFunction> {
    fs.map_values(|f: Function| function_view(f))
}

impl View for Function {
    type V = SpecFunction;

    open spec fn view(&self) -> SpecFunction {
        function_view(*self)
    }
}

impl View for Program {
    type V = SpecProgram;

    open spec fn view(&self) -> SpecProgram {
        SpecProgram { body: functions_view(self.body@) }
    }
}

pub proof fn lemma_items_view_push(items: Seq<BlockItem>, item: BlockItem)
    ensures
        items_view(items.push(item)) == items_view(items).push(item_view(item)),
{
    lemma_items_view(items);
    lemma_items_view(items.push(item));
    assert(items_view(items.push(item)) =~= items_view(items).push(item_view(item)));
}

pub proof fn lemma_items_view(items: Seq<BlockItem>)
    ensures
        items_view(items).len() == items.len(),
        forall|i: int| 0 <= i < items.len() ==> #[trigger] items_view(items)[i] == item_view(items[i]),
    decreases items.len(),
{
    if items.len() > 0 {
        lemma_items_view(items.drop_first());
        assert forall|i: int| 0 <= i < items.len() implies #[trigger] items_view(items)[i] == item_view(items[i]) by {
            if i > 0 {
                assert(items.drop_first()[i - 1] == items[i]);
            }
        }
    }
}


impl Expression {
    /// A copy of this expression.
    pub fn duplicate(&self) -> (r: Expression)
        ensures
            r@ == self@,
        decreases self, 0int,
    {
        match self {
            Expression::UnaryOp { operator, target, expr_type } => Expression::UnaryOp {
                operator: operator.clone(),
                target: Box::new(target.duplicate()),
                expr_type: expr_type.duplicate(),
            },
            Expression::BinaryOp { operator, left, right, expr_type } => Expression::BinaryOp {
                operator: operator.clone(),
                left: Box::new(left.duplicate()),
                right: Box::new(right.duplicate()),
                expr_type: expr_type.duplicate(),
            },
            Expression::Var { name, expr_type } => Expression::Var { name: name.clone(), expr_type: expr_type.duplicate() },
            Expression::VarAssignment { name, value, expr_type } => Expression::VarAssignment {
                name: name.clone(),
                value: Box::new(value.duplicate()),
                expr_type: expr_type.duplicate(),
            },
            Expression::Int32Constant { value, expr_type } => Expression::Int32Constant {
                value: *value,
                expr_type: expr_type.duplicate(),
            },
            Expression::BlockExpression { items, expr_type } => {
                proof {
                    assert(decreases_to!(*self => *items));
                }
                Expression::BlockExpression { items: duplicate_items(items), expr_type: expr_type.duplicate() }
            },
        }
    }
}

impl Statement {
    /// A copy of this statement.
    pub fn duplicate(&self) -> (r: Statement)
        ensures
            r@ == self@,
        decreases self, 0int,
    {
        match self {
            Statement::Return { value } => Statement::Return {
                value: match value {
                    Some(e) => Some(Box::new(e.duplicate())),
                    None => None,
                },
            },
            Statement::Yield { value } => Statement::Yield {
                value: match value {
                    Some(e) => Some(Box::new(e.duplicate())),
                    None => None,
                },
            },
            Statement::Block { items } => {
                proof {
                    assert(decreases_to!(*self => *items));
                }
                Statement::Block { items: duplicate_items(items) }
            },
            Statement::Expression { expression } => Statement::Expression { expression: Box::new(expression.duplicate()) },
        }
    }
}

impl BlockItem {
    /// A copy of this item.
    pub fn duplicate(&self) -> (r: BlockItem)
        ensures
            r@ == self@,
        decreases self, 0int,
    {
        match self {
            BlockItem::Statement(s) => BlockItem::Statement(s.duplicate()),
            BlockItem::VarDeclaration(d) => BlockItem::VarDeclaration(VarDeclaration {
                name: d.name.clone(),
                init_value: match &d.init_value {
                    Some(e) => Some(e.duplicate()),
                    None => None,
                },
                var_type: d.var_type.duplicate(),
            }),
        }
    }
}

/// A copy of a list of items.
pub fn duplicate_items(items: &Vec<BlockItem>) -> (r: Vec<BlockItem>)
    ensures
        items_view(r@) == items_view(items@),
    decreases *items, 1int,
{
    let mut out: Vec<BlockItem> = Vec::new();
    let mut i: usize = 0;
    while i < items.len()
        invariant
            i <= items@.len(),
            out@.len() == i,
            forall|j: int| 0 <= j < i ==> item_view(#[trigger] out@[j]) == item_view(items@[j]),
        decreases items@.len() - i,
    {
        proof {
            assert(decreases_to!(*items => items@[i as int]));
        }
        out.push(items[i].duplicate());
        i = i + 1;
    }
    proof {
        lemma_items_view(out@);
        lemma_items_view(items@);
        assert(items_view(out@) =~= items_view(items@));
    }
    out
}

/// The type recorded on an expression.
pub open spec fn type_of(e: SpecExpr) -> SpecType {
    match e {
        SpecExpr::UnaryOp { expr_type, .. } => expr_type,
        SpecExpr::BinaryOp { expr_type, .. } => expr_type,
        SpecExpr::Var { expr_type, .. } => expr_type,
        SpecExpr::VarAssignment { expr_type, .. } => expr_type,
        SpecExpr::Int32Constant { expr_type, .. } => expr_type,
        SpecExpr::BlockExpression { expr_type, .. } => expr_type,
    }
}

/// The expression `e` with `t` recorded as its type.
pub open spec fn with_type(e: SpecExpr, t: SpecType) -> SpecExpr {
    match e {
        SpecExpr::UnaryOp { operator, target, .. } => SpecExpr::UnaryOp { operator, target, expr_type: t },
        SpecExpr::BinaryOp { operator, left, right, .. } => SpecExpr::BinaryOp { operator, left, right, expr_type: t },
        SpecExpr::Var { name, .. } => SpecExpr::Var { name, expr_type: t },
        SpecExpr::VarAssignment { name, value, .. } => SpecExpr::VarAssignment { name, value, expr_type: t },
        SpecExpr::Int32Constant { value, .. } => SpecExpr::Int32Constant { value, expr_type: t },
        SpecExpr::BlockExpression { items, .. } => SpecExpr::BlockExpression { items, expr_type: t },
    }
}

/// The type read from an expression is the type last recorded on it, and recording a type
/// changes nothing else.
pub proof fn law_type_after_set(e: SpecExpr, t: SpecType, u: SpecType)
    ensures
        type_of(with_type(e, t)) == t,
        with_type(with_type(e, u), t) == with_type(e, t),
        with_type(e, type_of(e)) == e,
{
}

impl Expression {
    pub fn get_type_ref(&self) -> (r: &Type)
        ensures
            r@ == type_of(self@),
    {
        match self {
            Expression::UnaryOp { expr_type, .. } => expr_type,
            Expression::BinaryOp { expr_type, .. } => expr_type,
            Expression::Var { expr_type, .. } => expr_type,
            Expression::VarAssignment { expr_type, .. } => expr_type,
            Expression::Int32Constant { expr_type, .. } => expr_type,
            Expression::BlockExpression { expr_type, .. } => expr_type,
        }
    }

    pub fn get_type(&self) -> (r: Type)
        ensures
            r@ == type_of(self@),
    {
        self.get_type_ref().duplicate()
    }

    /// Records `t` as the type of this expression.
    pub fn set_type(self, t: Type) -> (r: Expression)
        ensures
            r@ == with_type(self@, t@),
    {
        match self {
            Expression::UnaryOp { operator, target, .. } => Expression::UnaryOp { operator, target, expr_type: t },
            Expression::BinaryOp { operator, left, right, .. } => Expression::BinaryOp { operator, left, right, expr_type: t },
            Expression::Var { name, .. } => Expression::Var { name, expr_type: t },
            Expression::VarAssignment { name, value, .. } => Expression::VarAssignment { name, value, expr_type: t },
            Expression::Int32Constant { value, .. } => Expression::Int32Constant { value, expr_type: t },
            Expression::BlockExpression { items, .. } => Expression::BlockExpression { items, expr_type: t },
        }
    }
}

// ---------------------------------------------------------------------------
// The grammar, as functions on the token sequence.

/// Why a token sequence is not a program.
#[derive(Debug, Clone, Copy, PartialEq, Eq, Structural)]
pub enum ParseError {
    /// Tokens are left after the last function.
    UnexpectedTokens,
    /// A function header lacks `->` after its parameter list.
    ExpectedReturnType,
    /// An expected `i32` is missing.
    UnexpectedEndOfFile,
    /// A function header is not followed by `{`.
    ExpectedBlock,
    /// The tokens end inside a function body.
    UnclosedFunctionBody,
    /// The tokens end inside a block.
    UnclosedBlock,
    /// Inside a body, the tokens form neither a statement nor a declaration.
    UnexpectedTokenSequence,
    /// An expression, `return` or declaration is not closed by `;`.
    ExpectedSemicolon,
    /// An operator, `return`, `(` or `=` is not followed by an expression.
    ExpectedExpression,
    /// A unary operator is not followed by a factor.
    ExpectedFactor,
    /// A parenthesized expression is not closed by `)`.
    ExpectedClosingParen,
    /// The target of an assignment is not a variable.
    InvalidAssignmentTarget,
    /// A binary operator has no precedence.
    UnknownPrecedence,
    /// An integer literal does not fit in `i32`.
    InvalidIntLiteral,
    /// `let` is not followed by an identifier.
    ExpectedIdentifier,
    /// A declared variable has no `:` type annotation.
    ExpectedTypeAnnotation,
}

/// The text of the token at `i`, or nothing past the end.
pub open spec fn text_at(ts: Seq<SpecToken>, i: int) -> Option<Seq<char>> {
    if 0 <= i < ts.len() {
        Some(token_text(ts[i]))
    } else {
        None
    }
}

pub open spec fn is_text_at(ts: Seq<SpecToken>, i: int, t: Seq<char>) -> bool {
    text_at(ts, i) == Some(t)
}

pub open spec fn spec_is_unary_op(op: Seq<char>) -> bool {
    op == "-"@ || op == "!"@ || op == "~"@ || op == "++"@ || op == "--"@
}

pub open spec fn spec_is_binary_op(op: Seq<char>) -> bool {
    (!spec_is_unary_op(op) || op == "-"@) && op != ":"@
}

pub open spec fn spec_is_assignment_op(op: Seq<char>) -> bool {
    op == "="@ || op == "+="@ || op == "-="@ || op == "*="@ || op == "/="@
}

/// The precedence of a binary operator; `None` for an operator that has none.
pub open spec fn spec_precedence(op: Seq<char>) -> Option<nat> {
    if op == "*"@ || op == "/"@ {
        Some(50)
    } else if op == "+"@ || op == "-"@ {
        Some(45)
    } else if op == "<"@ || op == ">"@ || op == "<="@ || op == ">="@ {
        Some(35)
    } else if op == "=="@ || op == "!="@ {
        Some(30)
    } else if op == "&&"@ {
        Some(20)
    } else if op == "||"@ {
        Some(10)
    } else if op == "?"@ {
        Some(3)
    } else if spec_is_assignment_op(op) {
        Some(1)
    } else {
        None
    }
}

/// The characters of the operator texts the grammar compares with.
proof fn lemma_operator_texts()
    ensures
        "-"@.len() == 1 && "-"@[0] == '-',
        "!"@.len() == 1 && "!"@[0] == '!',
        "~"@.len() == 1 && "~"@[0] == '~',
        ":"@.len() == 1 && ":"@[0] == ':',
        "="@.len() == 1 && "="@[0] == '=',
        "*"@.len() == 1 && "*"@[0] == '*',
        "/"@.len() == 1 && "/"@[0] == '/',
        "+"@.len() == 1 && "+"@[0] == '+',
        "<"@.len() == 1 && "<"@[0] == '<',
        ">"@.len() == 1 && ">"@[0] == '>',
        "?"@.len() == 1 && "?"@[0] == '?',
        "++"@.len() == 2 && "++"@[0] == '+' && "++"@[1] == '+',
        "--"@.len() == 2 && "--"@[0] == '-' && "--"@[1] == '-',
        "+="@.len() == 2 && "+="@[0] == '+' && "+="@[1] == '=',
        "-="@.len() == 2 && "-="@[0] == '-' && "-="@[1] == '=',
        "*="@.len() == 2 && "*="@[0] == '*' && "*="@[1] == '=',
        "/="@.len() == 2 && "/="@[0] == '/' && "/="@[1] == '=',
        "<="@.len() == 2 && "<="@[0] == '<' && "<="@[1] == '=',
        ">="@.len() == 2 && ">="@[0] == '>' && ">="@[1] == '=',
        "=="@.len() == 2 && "=="@[0] == '=' && "=="@[1] == '=',
        "!="@.len() == 2 && "!="@[0] == '!' && "!="@[1] == '=',
        "&&"@.len() == 2 && "&&"@[0] == '&' && "&&"@[1] == '&',
        "||"@.len() == 2 && "||"@[0] == '|' && "||"@[1] == '|',
{
    reveal_strlit("-");
    reveal_strlit("!");
    reveal_strlit("~");
    reveal_strlit(":");
    reveal_strlit("=");
    reveal_strlit("*");
    reveal_strlit("/");
    reveal_strlit("+");
    reveal_strlit("<");
    reveal_strlit(">");
    reveal_strlit("?");
    reveal_strlit("++");
    reveal_strlit("--");
    reveal_strlit("+=");
    reveal_strlit("-=");
    reveal_strlit("*=");
    reveal_strlit("/=");
    reveal_strlit("<=");
    reveal_strlit(">=");
    reveal_strlit("==");
    reveal_strlit("!=");
    reveal_strlit("&&");
    reveal_strlit("||");
}

/// Every operator the grammar reads (a binary or assignment operator, a prefix operator,
/// the `->` of a signature and the `:` of a declaration) is one the operator pattern reads
/// whole: a two-character one among the two-character alternatives, a one-character one in
/// the one-character class.
pub proof fn law_grammar_operators_are_tokens(op: Seq<char>)
    requires
        spec_precedence(op) is Some || spec_is_unary_op(op) || op == "->"@ || op == ":"@,
    ensures
        (op.len() == 2 && two_char_operators().contains(op))
            || (op.len() == 1 && one_char_operators().contains(op[0])),
{
    lemma_operator_texts();
    reveal_strlit("->");
    reveal_strlit("-~!+*/<>=?:");
    let two = two_char_operators();
    let one = one_char_operators();
    assert(two[0] == "--"@ && two[1] == "->"@ && two[2] == "&&"@ && two[3] == "||"@);
    assert(two[4] == "=="@ && two[5] == "!="@ && two[6] == "<="@ && two[7] == ">="@);
    assert(two[8] == "+="@ && two[9] == "-="@ && two[10] == "/="@ && two[11] == "*="@);
    assert(two[12] == "++"@);
    assert(one[0] == '-' && one[1] == '~' && one[2] == '!' && one[3] == '+' && one[4] == '*');
    assert(one[5] == '/' && one[6] == '<' && one[7] == '>' && one[8] == '=' && one[9] == '?');
    assert(one[10] == ':');
}

/// Whether operator `a` binds tighter than operator `b`.
pub open spec fn binds_tighter(a: Seq<char>, b: Seq<char>) -> bool {
    spec_precedence(a) matches Some(pa) && spec_precedence(b) matches Some(pb) && pa > pb
}

/// Whether operators `a` and `b` bind alike.
pub open spec fn binds_alike(a: Seq<char>, b: Seq<char>) -> bool {
    spec_precedence(a) matches Some(pa) && spec_precedence(b) == Some(pa)
}

/// Operators bind in this order, tightest first: `*` and `/`; `+` and `-`; `<`, `>`, `<=`
/// and `>=`; `==` and `!=`; `&&`; `||`; `?`; and last the assignments `=`, `+=`, `-=`, `*=`
/// and `/=`, which all bind alike.
pub proof fn law_precedence_order()
    ensures
        binds_alike("*"@, "/"@),
        binds_tighter("*"@, "+"@),
        binds_alike("+"@, "-"@),
        binds_tighter("+"@, "<"@),
        binds_alike("<"@, ">"@) && binds_alike("<"@, "<="@) && binds_alike("<"@, ">="@),
        binds_tighter("<"@, "=="@),
        binds_alike("=="@, "!="@),
        binds_tighter("=="@, "&&"@),
        binds_tighter("&&"@, "||"@),
        binds_tighter("||"@, "?"@),
        binds_tighter("?"@, "="@),
        binds_alike("="@, "+="@) && binds_alike("="@, "-="@) && binds_alike("="@, "*="@) && binds_alike("="@, "/="@),
{
    lemma_operator_texts();
}

/// The constant that an integer literal token's text denotes.
pub open spec fn literal(text: Seq<char>) -> SpecExpr {
    SpecExpr::Int32Constant { value: spec_parse_i32(text).unwrap(), expr_type: SpecType::Unknown }
}

/// The binary operation `op` on `left` and `right`, its type not yet known.
pub open spec fn binary(op: Seq<char>, left: SpecExpr, right: SpecExpr) -> SpecExpr {
    SpecExpr::BinaryOp { operator: op, left: Box::new(left), right: Box::new(right), expr_type: SpecType::Unknown }
}

/// Whether `op` is an operator that joins two operands into a binary operation.
pub open spec fn joins_operands(op: Seq<char>) -> bool {
    spec_is_binary_op(op) && !spec_is_assignment_op(op) && spec_precedence(op) is Some
}

/// The tokens `x o1 y o2 z ;` of three integer literals and two operators.
pub open spec fn chain_tokens(x: Seq<char>, o1: Seq<char>, y: Seq<char>, o2: Seq<char>, z: Seq<char>) -> Seq<SpecToken> {
    seq![
        SpecToken::Int32Literal(x),
        SpecToken::Operator(o1),
        SpecToken::Int32Literal(y),
        SpecToken::Operator(o2),
        SpecToken::Int32Literal(z),
        SpecToken::Separator(";"@),
    ]
}

/// Precedence decides grouping: in `x o1 y o2 z`, the first operation is an operand of the
/// second when `o1` binds at least as tight as `o2` (so operators that bind alike group
/// from the left), and the second is an operand of the first otherwise.
pub proof fn law_precedence_groups(x: Seq<char>, o1: Seq<char>, y: Seq<char>, o2: Seq<char>, z: Seq<char>)
    requires
        spec_parse_i32(x) is Some,
        spec_parse_i32(y) is Some,
        spec_parse_i32(z) is Some,
        joins_operands(o1),
        joins_operands(o2),
    ensures
        spec_parse_expression(chain_tokens(x, o1, y, o2, z), 0, 0) == Ok::<Option<(SpecExpr, int)>, ParseError>(Some((
            if spec_precedence(o1).unwrap() >= spec_precedence(o2).unwrap() {
                binary(o2, binary(o1, literal(x), literal(y)), literal(z))
            } else {
                binary(o1, literal(x), binary(o2, literal(y), literal(z)))
            },
            5,
        ))),
{
    lemma_operator_texts();
    let ts = chain_tokens(x, o1, y, o2, z);
    let p1 = spec_precedence(o1).unwrap();
    let p2 = spec_precedence(o2).unwrap();
    assert(p1 > 0 && p2 > 0);
    let (lx, ly, lz) = (literal(x), literal(y), literal(z));
    assert(spec_parse_factor(ts, 0) == Ok::<Option<(SpecExpr, int)>, ParseError>(Some((lx, 1))));
    assert(spec_parse_factor(ts, 2) == Ok::<Option<(SpecExpr, int)>, ParseError>(Some((ly, 3))));
    assert(spec_parse_factor(ts, 4) == Ok::<Option<(SpecExpr, int)>, ParseError>(Some((lz, 5))));
    assert(spec_parse_operators(ts, 5, lz, p2) == Ok::<Option<(SpecExpr, int)>, ParseError>(Some((lz, 5))));
    assert(spec_parse_expression(ts, 4, p2) == Ok::<Option<(SpecExpr, int)>, ParseError>(Some((lz, 5))));
    if p1 >= p2 {
        assert(spec_parse_operators(ts, 3, ly, p1) == Ok::<Option<(SpecExpr, int)>, ParseError>(Some((ly, 3))));
        assert(spec_parse_expression(ts, 2, p1) == Ok::<Option<(SpecExpr, int)>, ParseError>(Some((ly, 3))));
        let b1 = binary(o1, lx, ly);
        let b2 = binary(o2, b1, lz);
        assert(spec_parse_operators(ts, 5, b2, 0) == Ok::<Option<(SpecExpr, int)>, ParseError>(Some((b2, 5))));
        assert(spec_parse_operators(ts, 3, b1, 0) == Ok::<Option<(SpecExpr, int)>, ParseError>(Some((b2, 5))));
        assert(spec_parse_operators(ts, 1, lx, 0) == Ok::<Option<(SpecExpr, int)>, ParseError>(Some((b2, 5))));
    } else {
        let b1 = binary(o2, ly, lz);
        let b2 = binary(o1, lx, b1);
        assert(spec_parse_operators(ts, 5, b1, p1) == Ok::<Option<(SpecExpr, int)>, ParseError>(Some((b1, 5))));
        assert(spec_parse_operators(ts, 3, ly, p1) == Ok::<Option<(SpecExpr, int)>, ParseError>(Some((b1, 5))));
        assert(spec_parse_expression(ts, 2, p1) == Ok::<Option<(SpecExpr, int)>, ParseError>(Some((b1, 5))));
        assert(spec_parse_operators(ts, 5, b2, 0) == Ok::<Option<(SpecExpr, int)>, ParseError>(Some((b2, 5))));
        assert(spec_parse_operators(ts, 1, lx, 0) == Ok::<Option<(SpecExpr, int)>, ParseError>(Some((b2, 5))));
    }
}

/// An addition or subtraction binds tighter than a comparison on either side of it:
/// `x + y < z` compares `x + y` with `z`, and `x < y + z` compares `x` with `y + z`, for
/// every literal, either additive operator and any of `<`, `>`, `<=` and `>=`.
pub proof fn law_additive_inside_comparison(x: Seq<char>, y: Seq<char>, z: Seq<char>, add: Seq<char>, rel: Seq<char>)
    requires
        spec_parse_i32(x) is Some,
        spec_parse_i32(y) is Some,
        spec_parse_i32(z) is Some,
        add == "+"@ || add == "-"@,
        rel == "<"@ || rel == ">"@ || rel == "<="@ || rel == ">="@,
    ensures
        spec_parse_expression(chain_tokens(x, add, y, rel, z), 0, 0) == Ok::<Option<(SpecExpr, int)>, ParseError>(
            Some((binary(rel, binary(add, literal(x), literal(y)), literal(z)), 5)),
        ),
        spec_parse_expression(chain_tokens(x, rel, y, add, z), 0, 0) == Ok::<Option<(SpecExpr, int)>, ParseError>(
            Some((binary(rel, literal(x), binary(add, literal(y), literal(z))), 5)),
        ),
{
    lemma_operator_texts();
    law_precedence_order();
    law_precedence_groups(x, add, y, rel, z);
    law_precedence_groups(x, rel, y, add, z);
}

pub open spec fn is_digit(c: char) -> bool {
    '0' <= c <= '9'
}

pub open spec fn all_digits(s: Seq<char>) -> bool {
    forall|i: int| 0 <= i < s.len() ==> is_digit(#[trigger] s[i])
}

/// The number that a sequence of decimal digits denotes.
pub open spec fn digits_value(s: Seq<char>) -> nat
    decreases s.len(),
{
    if s.len() == 0 {
        0
    } else {
        digits_value(s.drop_last()) * 10 + ((s.last() as nat) - ('0' as nat)) as nat
    }
}

/// The `i32` that `str::parse::<i32>` reads from `s`: an optional sign, then at least
/// one decimal digit, the value within the range of `i32`.
pub open spec fn spec_parse_i32(s: Seq<char>) -> Option<i32> {
    let neg = s.len() > 0 && s[0] == '-';
    let digits = if s.len() > 0 && (s[0] == '-' || s[0] == '+') {
        s.drop_first()
    } else {
        s
    };
    if digits.len() == 0 || !all_digits(digits) {
        None
    } else if neg {
        if digits_value(digits) <= 2147483648 {
            Some((-(digits_value(digits) as int)) as i32)
        } else {
            None
        }
    } else {
        if digits_value(digits) <= 2147483647 {
            Some(digits_value(digits) as i32)
        } else {
            None
        }
    }
}

pub open spec fn unknown_var(name: Seq<char>) -> SpecExpr {
    SpecExpr::Var { name, expr_type: SpecType::Unknown }
}

/// A factor at `pos`: a literal, a unary operation, a parenthesized expression or a
/// variable. `Ok(None)` when no factor starts there; then nothing is consumed.
pub open spec fn spec_parse_factor(ts: Seq<SpecToken>, pos: int) -> Result<Option<(SpecExpr, int)>, ParseError>
    decreases ts.len() - pos, 0int,
{
    if pos < 0 || pos >= ts.len() {
        Ok(None)
    } else {
        match ts[pos] {
            SpecToken::Int32Literal(content) => match spec_parse_i32(content) {
                Some(value) => Ok(Some((SpecExpr::Int32Constant { value, expr_type: SpecType::Unknown }, pos + 1))),
                None => Err(ParseError::InvalidIntLiteral),
            },
            SpecToken::Operator(op) => if spec_is_unary_op(op) {
                match spec_parse_factor(ts, pos + 1) {
                    Err(e) => Err(e),
                    Ok(None) => Err(ParseError::ExpectedFactor),
                    Ok(Some((target, p))) => Ok(Some((SpecExpr::UnaryOp {
                        operator: op,
                        target: Box::new(target),
                        expr_type: SpecType::Unknown,
                    }, p))),
                }
            } else {
                Ok(None)
            },
            SpecToken::Separator(sep) => if sep == "("@ {
                match spec_parse_expression(ts, pos + 1, 0) {
                    Err(e) => Err(e),
                    Ok(None) => Err(ParseError::ExpectedExpression),
                    Ok(Some((e, p))) => if is_text_at(ts, p, ")"@) {
                        Ok(Some((e, p + 1)))
                    } else {
                        Err(ParseError::ExpectedClosingParen)
                    },
                }
            } else {
                Ok(None)
            },
            SpecToken::Identifier(name) => if is_text_at(ts, pos + 1, "++"@) || is_text_at(ts, pos + 1, "--"@) {
                // the `++` or `--` itself is left in place
                Ok(Some((SpecExpr::UnaryOp {
                    operator: token_text(ts[pos + 1]) + "r"@,
                    target: Box::new(unknown_var(name)),
                    expr_type: SpecType::Unknown,
                }, pos + 1)))
            } else {
                Ok(Some((unknown_var(name), pos + 1)))
            },
            _ => Ok(None),
        }
    }
}

/// An expression at `pos` whose binary operators bind tighter than `min_precedence`.
pub open spec fn spec_parse_expression(ts: Seq<SpecToken>, pos: int, min_precedence: nat) -> Result<Option<(SpecExpr, int)>, ParseError>
    decreases ts.len() - pos, 1int,
{
    match spec_parse_factor(ts, pos) {
        Err(e) => Err(e),
        Ok(None) => Ok(None),
        Ok(Some((left, p))) => if pos < p <= ts.len() {
            spec_parse_operators(ts, p, left, min_precedence)
        } else {
            // unreachable: a factor consumes at least one token
            Ok(None)
        },
    }
}

/// The operand of `+=`, `-=`, `*=` or `/=` applied to the variable `name`.
pub open spec fn compound_value(op: Seq<char>, name: Seq<char>, rhs: SpecExpr) -> SpecExpr {
    if op.len() == 2 {
        SpecExpr::BinaryOp {
            operator: op.subrange(0, 1),
            left: Box::new(rhs),
            right: Box::new(unknown_var(name)),
            expr_type: SpecType::Unknown,
        }
    } else {
        rhs
    }
}

/// The binary operators that follow `left` at `pos`, by precedence climbing.
pub open spec fn spec_parse_operators(ts: Seq<SpecToken>, pos: int, left: SpecExpr, min_precedence: nat) -> Result<Option<(SpecExpr, int)>, ParseError>
    decreases ts.len() - pos, 2int,
{
    if pos < 0 || pos >= ts.len() {
        Ok(Some((left, pos)))
    } else {
        match ts[pos] {
            SpecToken::Operator(op) => if !spec_is_binary_op(op) {
                Ok(Some((left, pos)))
            } else {
                match spec_precedence(op) {
                    None => Err(ParseError::UnknownPrecedence),
                    Some(prec) => if prec <= min_precedence {
                        Ok(Some((left, pos)))
                    } else {
                        match spec_parse_expression(ts, pos + 1, prec) {
                            Err(e) => Err(e),
                            Ok(None) => Err(ParseError::ExpectedExpression),
                            Ok(Some((right, p))) => if pos < p <= ts.len() {
                                if spec_is_assignment_op(op) {
                                    match left {
                                        SpecExpr::Var { name, .. } => spec_parse_operators(
                                            ts,
                                            p,
                                            SpecExpr::VarAssignment {
                                                name,
                                                value: Box::new(compound_value(op, name, right)),
                                                expr_type: SpecType::Unknown,
                                            },
                                            min_precedence,
                                        ),
                                        _ => Err(ParseError::InvalidAssignmentTarget),
                                    }
                                } else {
                                    spec_parse_operators(
                                        ts,
                                        p,
                                        SpecExpr::BinaryOp {
                                            operator: op,
                                            left: Box::new(left),
                                            right: Box::new(right),
                                            expr_type: SpecType::Unknown,
                                        },
                                        min_precedence,
                                    )
                                }
                            } else {
                                // unreachable: an expression consumes at least one token
                                Ok(None)
                            },
                        }
                    },
                }
            },
            _ => Ok(Some((left, pos))),
        }
    }
}


/// A variable declaration `let name: i32;` or `let name: i32 = expression;` at `pos`.
pub open spec fn spec_parse_var_definition(ts: Seq<SpecToken>, pos: int) -> Result<Option<(SpecVarDecl, int)>, ParseError> {
    if !is_text_at(ts, pos, "let"@) {
        Ok(None)
    } else if !(pos + 1 < ts.len()) {
        Err(ParseError::ExpectedIdentifier)
    } else {
        match ts[pos + 1] {
            SpecToken::Identifier(name) => if !is_text_at(ts, pos + 2, ":"@) {
                Err(ParseError::ExpectedTypeAnnotation)
            } else if !is_text_at(ts, pos + 3, "i32"@) {
                Err(ParseError::UnexpectedEndOfFile)
            } else if is_text_at(ts, pos + 4, "="@) {
                match spec_parse_expression(ts, pos + 5, 0) {
                    Err(e) => Err(e),
                    Ok(None) => Err(ParseError::ExpectedExpression),
                    Ok(Some((init, p))) => if is_text_at(ts, p, ";"@) {
                        Ok(Some((SpecVarDecl { name, init_value: Some(init), var_type: SpecType::Int32 }, p + 1)))
                    } else {
                        Err(ParseError::ExpectedSemicolon)
                    },
                }
            } else if is_text_at(ts, pos + 4, ";"@) {
                Ok(Some((SpecVarDecl { name, init_value: None, var_type: SpecType::Int32 }, pos + 5)))
            } else {
                Err(ParseError::ExpectedSemicolon)
            },
            _ => Err(ParseError::ExpectedIdentifier),
        }
    }
}

/// A statement at `pos`: an expression followed by `;`, `return expression;`, or a block.
/// A block ends at its closing `}`, which it leaves in place.
pub open spec fn spec_parse_statement(ts: Seq<SpecToken>, pos: int) -> Result<Option<(SpecStatement, int)>, ParseError>
    decreases ts.len() - pos, 0int,
{
    match spec_parse_expression(ts, pos, 0) {
        Err(e) => Err(e),
        Ok(Some((expression, p))) => if is_text_at(ts, p, ";"@) {
            Ok(Some((SpecStatement::Expression { expression }, p + 1)))
        } else {
            Err(ParseError::ExpectedSemicolon)
        },
        Ok(None) => if is_text_at(ts, pos, "return"@) {
            match spec_parse_expression(ts, pos + 1, 0) {
                Err(e) => Err(e),
                Ok(None) => Err(ParseError::ExpectedExpression),
                Ok(Some((value, p))) => if is_text_at(ts, p, ";"@) {
                    Ok(Some((SpecStatement::Return { value: Some(value) }, p + 1)))
                } else {
                    Err(ParseError::ExpectedSemicolon)
                },
            }
        } else if is_text_at(ts, pos, "{"@) {
            match spec_parse_items(ts, pos + 1, false) {
                Err(e) => Err(e),
                Ok((items, p)) => Ok(Some((SpecStatement::Block { items }, p))),
            }
        } else {
            Ok(None)
        },
    }
}

/// A statement or, failing that, a variable declaration at `pos`.
pub open spec fn spec_parse_block_item(ts: Seq<SpecToken>, pos: int) -> Result<Option<(SpecBlockItem, int)>, ParseError>
    decreases ts.len() - pos, 1int,
{
    match spec_parse_statement(ts, pos) {
        Err(e) => Err(e),
        Ok(Some((statement, p))) => Ok(Some((SpecBlockItem::Statement(statement), p))),
        Ok(None) => match spec_parse_var_definition(ts, pos) {
            Err(e) => Err(e),
            Ok(None) => Ok(None),
            Ok(Some((declaration, p))) => Ok(Some((SpecBlockItem::VarDeclaration(declaration), p))),
        },
    }
}

/// The error for tokens that end inside a function body or a block.
pub open spec fn unclosed(in_function: bool) -> ParseError {
    if in_function {
        ParseError::UnclosedFunctionBody
    } else {
        ParseError::UnclosedBlock
    }
}

/// The items of a body from `pos` up to (not past) the `}` that closes it.
pub open spec fn spec_parse_items(ts: Seq<SpecToken>, pos: int, in_function: bool) -> Result<(Seq<SpecBlockItem>, int), ParseError>
    decreases ts.len() - pos, 2int,
{
    if pos < 0 || pos >= ts.len() {
        Err(unclosed(in_function))
    } else if token_text(ts[pos]) == "}"@ {
        Ok((Seq::empty(), pos))
    } else {
        match spec_parse_block_item(ts, pos) {
            Err(e) => Err(e),
            Ok(None) => Err(ParseError::UnexpectedTokenSequence),
            Ok(Some((item, p))) => if pos < p <= ts.len() {
                match spec_parse_items(ts, p, in_function) {
                    Err(e) => Err(e),
                    Ok((rest, q)) => Ok((seq![item] + rest, q)),
                }
            } else {
                // unreachable: an item consumes at least one token
                Err(ParseError::UnexpectedTokenSequence)
            },
        }
    }
}

/// The type of every function: no parameters, an `i32` result.
pub open spec fn spec_function_type() -> SpecType {
    SpecType::FuncType { return_type: Box::new(SpecType::Int32), param_types: Seq::empty() }
}

/// A function `func name() -> i32 { items }` at `pos`.
pub open spec fn spec_parse_function(ts: Seq<SpecToken>, pos: int) -> Result<Option<(SpecFunction, int)>, ParseError> {
    if !is_text_at(ts, pos, "func"@) || !(pos + 1 < ts.len()) || !(ts[pos + 1] is Identifier)
        || !is_text_at(ts, pos + 2, "("@) || !is_text_at(ts, pos + 3, ")"@) {
        Ok(None)
    } else if !is_text_at(ts, pos + 4, "->"@) {
        Err(ParseError::ExpectedReturnType)
    } else if !is_text_at(ts, pos + 5, "i32"@) {
        Err(ParseError::UnexpectedEndOfFile)
    } else if !is_text_at(ts, pos + 6, "{"@) {
        Err(ParseError::ExpectedBlock)
    } else {
        match spec_parse_items(ts, pos + 7, true) {
            Err(e) => Err(e),
            Ok((body, p)) => Ok(Some((
                SpecFunction { name: token_text(ts[pos + 1]), body, func_type: spec_function_type() },
                p + 1,
            ))),
        }
    }
}

/// The functions from `pos` to the end of the tokens.
pub open spec fn spec_parse_functions(ts: Seq<SpecToken>, pos: int) -> Result<Seq<SpecFunction>, ParseError>
    decreases ts.len() - pos,
{
    match spec_parse_function(ts, pos) {
        Err(e) => Err(e),
        Ok(None) => if 0 <= pos < ts.len() {
            Err(ParseError::UnexpectedTokens)
        } else {
            Ok(Seq::empty())
        },
        Ok(Some((f, p))) => if pos < p <= ts.len() {
            match spec_parse_functions(ts, p) {
                Err(e) => Err(e),
                Ok(rest) => Ok(seq![f] + rest),
            }
        } else {
            // unreachable: a function consumes at least one token
            Err(ParseError::UnexpectedTokens)
        },
    }
}

/// The program that the token sequence `ts` denotes.
pub open spec fn spec_parse(ts: Seq<SpecToken>) -> Result<SpecProgram, ParseError> {
    match spec_parse_functions(ts, 0) {
        Err(e) => Err(e),
        Ok(body) => Ok(SpecProgram { body }),
    }
}

// ---------------------------------------------------------------------------
// The parser.

/// `r` is the parse that `s` describes: the same error, the same absence of a match, or the
/// same value with the same end position, which lies after `pos` and within `len` tokens.
pub open spec fn agrees<T: View>(
    r: Result<Option<(T, usize)>, ParseError>,
    s: Result<Option<(T::V, int)>, ParseError>,
    pos: int,
    len: int,
) -> bool {
    match r {
        Err(e) => s == Err::<Option<(T::V, int)>, ParseError>(e),
        Ok(None) => s == Ok::<Option<(T::V, int)>, ParseError>(None),
        Ok(Some((v, p))) => s == Ok::<Option<(T::V, int)>, ParseError>(Some((v@, p as int))) && pos < p <= len,
    }
}

fn is_unary_op(operator: &String) -> (r: bool)
    ensures
        r == spec_is_unary_op(operator@),
{
    let op = operator.as_str();
    str_eq(op, "-") || str_eq(op, "!") || str_eq(op, "~") || str_eq(op, "++") || str_eq(op, "--")
}

fn is_binary_op(operator: &String) -> (r: bool)
    ensures
        r == spec_is_binary_op(operator@),
{
    (!is_unary_op(operator) || str_eq(operator.as_str(), "-")) && !str_eq(operator.as_str(), ":")
}

fn is_assignment_op(operator: &String) -> (r: bool)
    ensures
        r == spec_is_assignment_op(operator@),
{
    let op = operator.as_str();
    str_eq(op, "=") || str_eq(op, "+=") || str_eq(op, "-=") || str_eq(op, "*=") || str_eq(op, "/=")
}

/// The precedence of a binary operator; `None` for an operator that has none.
fn get_precedence(operator: &str) -> (r: Option<usize>)
    ensures
        match r {
            Some(p) => spec_precedence(operator@) == Some(p as nat),
            None => spec_precedence(operator@) is None,
        },
{
    let op = operator;
    if str_eq(op, "*") || str_eq(op, "/") {
        Some(50)
    } else if str_eq(op, "+") || str_eq(op, "-") {
        Some(45)
    } else if str_eq(op, "<") || str_eq(op, ">") || str_eq(op, "<=") || str_eq(op, ">=") {
        Some(35)
    } else if str_eq(op, "==") || str_eq(op, "!=") {
        Some(30)
    } else if str_eq(op, "&&") {
        Some(20)
    } else if str_eq(op, "||") {
        Some(10)
    } else if str_eq(op, "?") {
        Some(3)
    } else if str_eq(op, "=") || str_eq(op, "+=") || str_eq(op, "-=") || str_eq(op, "*=") || str_eq(op, "/=") {
        Some(1)
    } else {
        None
    }
}

proof fn lemma_digits_value_step(s: Seq<char>, i: int)
    requires
        0 <= i < s.len(),
    ensures
        digits_value(s.take(i + 1)) == digits_value(s.take(i)) * 10 + ((s[i] as nat) - ('0' as nat)) as nat,
{
    assert(s.take(i + 1).drop_last() == s.take(i));
}

proof fn lemma_digit_char(d: nat)
    requires
        d < 10,
    ensures
        is_digit(digit_char(d)),
        (digit_char(d) as nat) - ('0' as nat) == d,
{
}

/// The numeral `decimal(n)` is a nonempty run of digits that denotes `n`.
pub proof fn lemma_decimal_digits(n: nat)
    ensures
        decimal(n).len() > 0,
        all_digits(decimal(n)),
        digits_value(decimal(n)) == n,
    decreases n,
{
    lemma_digit_char(n % 10);
    if n < 10 {
        assert(decimal(n) == seq![digit_char(n)]);
        assert(decimal(n).drop_last() =~= Seq::<char>::empty());
        assert(digits_value(Seq::<char>::empty()) == 0);
        assert(n % 10 == n);
    } else {
        lemma_decimal_digits(n / 10);
        let s = decimal(n);
        let p = decimal(n / 10);
        assert(s == p + seq![digit_char(n % 10)]);
        assert(s.drop_last() =~= p);
        assert(s.last() == digit_char(n % 10));
        assert(digits_value(s) == digits_value(p) * 10 + ((s.last() as nat) - ('0' as nat)) as nat);
        assert((n / 10) * 10 + n % 10 == n);
        assert forall|i: int| 0 <= i < s.len() implies is_digit(#[trigger] s[i]) by {
            if i < p.len() {
                assert(s[i] == p[i]);
            }
        }
    }
}

/// Two numbers with the same decimal numeral are equal.
pub proof fn lemma_decimal_injective(n: nat, m: nat)
    requires
        decimal(n) == decimal(m),
    ensures
        n == m,
{
    lemma_decimal_digits(n);
    lemma_decimal_digits(m);
}

/// Reading back the decimal numeral of an `i32`, with its sign, as the text of a constant is
/// read, gives the same `i32`.
pub proof fn law_read_signed_decimal(v: i32)
    ensures
        spec_parse_i32(signed_decimal(v as int)) == Some(v),
{
    reveal_strlit("-");
    if v < 0 {
        let d = decimal((-v) as nat);
        lemma_decimal_digits((-v) as nat);
        let s = signed_decimal(v as int);
        assert(s == "-"@ + d);
        assert(s[0] == '-');
        assert(s.drop_first() =~= d);
    } else {
        let d = decimal(v as nat);
        lemma_decimal_digits(v as nat);
        assert(signed_decimal(v as int) == d);
        assert(is_digit(d[0]));
    }
}

/// Reads an `i32` as `str::parse::<i32>` does.
fn parse_i32(s: &str) -> (r: Option<i32>)
    ensures
        r == spec_parse_i32(s@),
{
    let n = s.unicode_len();
    if n == 0 {
        return None;
    }
    let first = s.get_char(0);
    let neg = first == '-';
    let start: usize = if first == '-' || first == '+' { 1 } else { 0 };
    let ghost digits = if first == '-' || first == '+' { s@.drop_first() } else { s@ };
    proof {
        assert(digits == s@.subrange(start as int, n as int));
    }
    if start == n {
        return None;
    }
    // the value read so far, stopped once it exceeds every value that fits
    let mut acc: u64 = 0;
    let mut i: usize = start;
    let mut all: bool = true;
    while i < n
        invariant
            n == s@.len(),
            start <= i <= n,
            digits == s@.subrange(start as int, n as int),
            all == all_digits(digits.take(i - start)),
            all ==> acc == if digits_value(digits.take(i - start)) <= 2147483648 {
                digits_value(digits.take(i - start))
            } else {
                2147483649
            },
        decreases n - i,
    {
        let c = s.get_char(i);
        proof {
            assert(digits.take(i - start + 1) == digits.take(i - start).push(c));
            assert(digits[i - start] == c);
        }
        if !('0' <= c && c <= '9') {
            all = false;
            proof {
                assert(!is_digit(digits.take(i - start + 1)[i - start]));
            }
        } else if all {
            proof {
                lemma_digits_value_step(digits, i - start);
            }
            let d = (c as u32 - '0' as u32) as u64;
            if acc <= 2147483648 {
                acc = acc * 10 + d;
            }
            if acc > 2147483648 {
                acc = 2147483649;
            }
        } else {
            proof {
                assert(!all_digits(digits.take(i - start + 1))) by {
                    let k = choose|k: int| 0 <= k < i - start && !is_digit(#[trigger] digits.take(i - start)[k]);
                    assert(digits.take(i - start + 1)[k] == digits.take(i - start)[k]);
                }
            }
        }
        i = i + 1;
    }
    proof {
        assert(digits.take(n - start) == digits);
    }
    if !all {
        return None;
    }
    if neg {
        if acc <= 2147483648 {
            Some((0i64 - acc as i64) as i32)
        } else {
            None
        }
    } else {
        if acc <= 2147483647 {
            Some(acc as i32)
        } else {
            None
        }
    }
}


fn unknown_var_expr(name: &String) -> (r: Expression)
    ensures
        r@ == unknown_var(name@),
{
    Expression::Var { name: name.clone(), expr_type: Type::Unknown }
}

/// A factor at `pos`: a literal, a unary operation, a parenthesized expression or a variable.
fn parse_factor(ts: &Vec<Token>, pos: usize) -> (r: Result<Option<(Expression, usize)>, ParseError>)
    ensures
        agrees(r, spec_parse_factor(tokens_view(ts@), pos as int), pos as int, ts@.len() as int),
    decreases ts@.len() - pos, 0int,
{
    let ghost tv = tokens_view(ts@);
    if pos >= ts.len() {
        return Ok(None);
    }
    let token = &ts[pos];
    assert(tv[pos as int] == token@);
    match token {
        Token::Int32Literal(content) => match parse_i32(content.as_str()) {
            Some(value) => Ok(Some((Expression::Int32Constant { value, expr_type: Type::Unknown }, pos + 1))),
            None => Err(ParseError::InvalidIntLiteral),
        },
        Token::Operator(operator) => {
            if is_unary_op(operator) {
                match parse_factor(ts, pos + 1) {
                    Err(e) => Err(e),
                    Ok(None) => Err(ParseError::ExpectedFactor),
                    Ok(Some((target, p))) => Ok(Some((Expression::UnaryOp {
                        operator: operator.clone(),
                        target: Box::new(target),
                        expr_type: Type::Unknown,
                    }, p))),
                }
            } else {
                Ok(None)
            }
        },
        Token::Separator(separator) => {
            if str_eq(separator.as_str(), "(") {
                match parse_expression(ts, pos + 1, 0) {
                    Err(e) => Err(e),
                    Ok(None) => Err(ParseError::ExpectedExpression),
                    Ok(Some((expression, p))) => {
                        if p < ts.len() && str_eq(ts[p].content(), ")") {
                            Ok(Some((expression, p + 1)))
                        } else {
                            Err(ParseError::ExpectedClosingParen)
                        }
                    },
                }
            } else {
                Ok(None)
            }
        },
        Token::Identifier(name) => {
            let var = unknown_var_expr(name);
            if pos + 1 < ts.len() {
                let next = ts[pos + 1].content();
                if str_eq(next, "++") || str_eq(next, "--") {
                    let mut modified_op = String::from_str(next);
                    modified_op.append("r");
                    return Ok(Some((Expression::UnaryOp {
                        operator: modified_op,
                        target: Box::new(var),
                        expr_type: Type::Unknown,
                    }, pos + 1)));
                }
            }
            Ok(Some((var, pos + 1)))
        },
        Token::Keyword(_) => Ok(None),
    }
}

/// An expression at `pos` whose binary operators bind tighter than `min_precedence`.
fn parse_expression(ts: &Vec<Token>, pos: usize, min_precedence: usize) -> (r: Result<Option<(Expression, usize)>, ParseError>)
    ensures
        agrees(r, spec_parse_expression(tokens_view(ts@), pos as int, min_precedence as nat), pos as int, ts@.len() as int),
    decreases ts@.len() - pos, 1int,
{
    let ghost tv = tokens_view(ts@);
    let (mut left, mut p) = match parse_factor(ts, pos) {
        Err(e) => return Err(e),
        Ok(None) => return Ok(None),
        Ok(Some(found)) => found,
    };
    loop
        invariant
            tv == tokens_view(ts@),
            pos < p <= ts@.len(),
            spec_parse_expression(tv, pos as int, min_precedence as nat)
                == spec_parse_operators(tv, p as int, left@, min_precedence as nat),
        decreases ts@.len() - p,
    {
        if p >= ts.len() {
            return Ok(Some((left, p)));
        }
        let token = &ts[p];
        assert(tv[p as int] == token@);
        let operator = match token {
            Token::Operator(operator) => operator,
            _ => {
                return Ok(Some((left, p)));
            },
        };
        if !is_binary_op(operator) {
            return Ok(Some((left, p)));
        }
        let precedence = match get_precedence(operator.as_str()) {
            None => {
                return Err(ParseError::UnknownPrecedence);
            },
            Some(precedence) => precedence,
        };
        if precedence <= min_precedence {
            return Ok(Some((left, p)));
        }
        let (right, p2) = match parse_expression(ts, p + 1, precedence) {
            Err(e) => {
                return Err(e);
            },
            Ok(None) => {
                return Err(ParseError::ExpectedExpression);
            },
            Ok(Some(found)) => found,
        };
        let ghost old_left = left@;
        if is_assignment_op(operator) {
            match left {
                Expression::Var { name, .. } => {
                    let value = if operator.unicode_len() == 2 {
                        let extra_op = String::from_str(operator.as_str().substring_char(0, 1));
                        let target = unknown_var_expr(&name);
                        Expression::BinaryOp {
                            operator: extra_op,
                            left: Box::new(right),
                            right: Box::new(target),
                            expr_type: Type::Unknown,
                        }
                    } else {
                        right
                    };
                    assert(value@ == compound_value(operator@, name@, right@));
                    left = Expression::VarAssignment { name, value: Box::new(value), expr_type: Type::Unknown };
                },
                _ => {
                    return Err(ParseError::InvalidAssignmentTarget);
                },
            }
        } else {
            left = Expression::BinaryOp {
                operator: operator.clone(),
                left: Box::new(left),
                right: Box::new(right),
                expr_type: Type::Unknown,
            };
        }
        assert(spec_parse_operators(tv, p as int, old_left, min_precedence as nat)
            == spec_parse_operators(tv, p2 as int, left@, min_precedence as nat));
        p = p2;
    }
}


fn is_text(ts: &Vec<Token>, i: usize, t: &str) -> (r: bool)
    ensures
        r == is_text_at(tokens_view(ts@), i as int, t@),
        r ==> i < ts.len(),
{
    i < ts.len() && str_eq(ts[i].content(), t)
}

/// A variable declaration `let name: i32;` or `let name: i32 = expression;` at `pos`.
fn parse_var_definition(ts: &Vec<Token>, pos: usize) -> (r: Result<Option<(VarDeclaration, usize)>, ParseError>)
    ensures
        agrees(r, spec_parse_var_definition(tokens_view(ts@), pos as int), pos as int, ts@.len() as int),
{
    let ghost tv = tokens_view(ts@);
    if !is_text(ts, pos, "let") {
        return Ok(None);
    }
    if pos + 1 >= ts.len() {
        return Err(ParseError::ExpectedIdentifier);
    }
    assert(tv[pos + 1] == ts@[pos + 1]@);
    let name = match &ts[pos + 1] {
        Token::Identifier(name) => name,
        _ => {
            return Err(ParseError::ExpectedIdentifier);
        },
    };
    if !is_text(ts, pos + 2, ":") {
        return Err(ParseError::ExpectedTypeAnnotation);
    }
    if !is_text(ts, pos + 3, "i32") {
        return Err(ParseError::UnexpectedEndOfFile);
    }
    if is_text(ts, pos + 4, "=") {
        match parse_expression(ts, pos + 5, 0) {
            Err(e) => Err(e),
            Ok(None) => Err(ParseError::ExpectedExpression),
            Ok(Some((init_value, p))) => {
                if is_text(ts, p, ";") {
                    Ok(Some((VarDeclaration { name: name.clone(), init_value: Some(init_value), var_type: Type::Int32 }, p + 1)))
                } else {
                    Err(ParseError::ExpectedSemicolon)
                }
            },
        }
    } else if is_text(ts, pos + 4, ";") {
        Ok(Some((VarDeclaration { name: name.clone(), init_value: None, var_type: Type::Int32 }, pos + 5)))
    } else {
        Err(ParseError::ExpectedSemicolon)
    }
}

/// A statement at `pos`: an expression followed by `;`, `return expression;`, or a block.
fn parse_statement(ts: &Vec<Token>, pos: usize) -> (r: Result<Option<(Statement, usize)>, ParseError>)
    ensures
        agrees(r, spec_parse_statement(tokens_view(ts@), pos as int), pos as int, ts@.len() as int),
    decreases ts@.len() - pos, 0int,
{
    match parse_expression(ts, pos, 0) {
        Err(e) => {
            return Err(e);
        },
        Ok(Some((expression, p))) => {
            if is_text(ts, p, ";") {
                return Ok(Some((Statement::Expression { expression: Box::new(expression) }, p + 1)));
            } else {
                return Err(ParseError::ExpectedSemicolon);
            }
        },
        Ok(None) => {},
    }
    if is_text(ts, pos, "return") {
        match parse_expression(ts, pos + 1, 0) {
            Err(e) => Err(e),
            Ok(None) => Err(ParseError::ExpectedExpression),
            Ok(Some((value, p))) => {
                if is_text(ts, p, ";") {
                    Ok(Some((Statement::Return { value: Some(Box::new(value)) }, p + 1)))
                } else {
                    Err(ParseError::ExpectedSemicolon)
                }
            },
        }
    } else if is_text(ts, pos, "{") {
        match parse_block_items(ts, pos + 1, false) {
            Err(e) => Err(e),
            Ok((items, p)) => Ok(Some((Statement::Block { items }, p))),
        }
    } else {
        Ok(None)
    }
}

/// A statement or, failing that, a variable declaration at `pos`.
fn parse_block_item(ts: &Vec<Token>, pos: usize) -> (r: Result<Option<(BlockItem, usize)>, ParseError>)
    ensures
        agrees(r, spec_parse_block_item(tokens_view(ts@), pos as int), pos as int, ts@.len() as int),
    decreases ts@.len() - pos, 1int,
{
    match parse_statement(ts, pos) {
        Err(e) => Err(e),
        Ok(Some((statement, p))) => Ok(Some((BlockItem::Statement(statement), p))),
        Ok(None) => match parse_var_definition(ts, pos) {
            Err(e) => Err(e),
            Ok(None) => Ok(None),
            Ok(Some((declaration, p))) => Ok(Some((BlockItem::VarDeclaration(declaration), p))),
        },
    }
}

/// The items of a body from `pos` up to (not past) the `}` that closes it.
fn parse_block_items(ts: &Vec<Token>, pos: usize, in_function: bool) -> (r: Result<(Vec<BlockItem>, usize), ParseError>)
    ensures
        match r {
            Err(e) => spec_parse_items(tokens_view(ts@), pos as int, in_function) == Err::<(Seq<SpecBlockItem>, int), ParseError>(e),
            Ok((items, p)) => spec_parse_items(tokens_view(ts@), pos as int, in_function)
                == Ok::<(Seq<SpecBlockItem>, int), ParseError>((items_view(items@), p as int))
                && pos <= p < ts@.len(),
        },
    decreases ts@.len() - pos, 2int,
{
    let ghost tv = tokens_view(ts@);
    let mut items: Vec<BlockItem> = Vec::new();
    let mut p = pos;
    proof {
        assert(items_view(items@) =~= Seq::<SpecBlockItem>::empty());
    }
    loop
        invariant
            tv == tokens_view(ts@),
            pos <= p,
            match spec_parse_items(tv, p as int, in_function) {
                Err(e) => spec_parse_items(tv, pos as int, in_function) == Err::<(Seq<SpecBlockItem>, int), ParseError>(e),
                Ok((rest, q)) => spec_parse_items(tv, pos as int, in_function)
                    == Ok::<(Seq<SpecBlockItem>, int), ParseError>((items_view(items@) + rest, q)),
            },
        decreases ts@.len() - p,
    {
        if p >= ts.len() {
            return Err(if in_function { ParseError::UnclosedFunctionBody } else { ParseError::UnclosedBlock });
        }
        if str_eq(ts[p].content(), "}") {
            proof {
                assert(items_view(items@) + Seq::<SpecBlockItem>::empty() == items_view(items@));
            }
            return Ok((items, p));
        }
        match parse_block_item(ts, p) {
            Err(e) => {
                return Err(e);
            },
            Ok(None) => {
                return Err(ParseError::UnexpectedTokenSequence);
            },
            Ok(Some((item, p2))) => {
                let ghost before = items@;
                items.push(item);
                proof {
                    lemma_items_view(before);
                    lemma_items_view(items@);
                    assert(items_view(items@) == items_view(before) + seq![item@]);
                    match spec_parse_items(tv, p2 as int, in_function) {
                        Ok((rest, q)) => {
                            assert(items_view(items@) + rest == items_view(before) + (seq![item@] + rest));
                        },
                        Err(e) => {},
                    }
                }
                p = p2;
            },
        }
    }
}


/// The type of every function: no parameters, an `i32` result.
fn function_type() -> (r: Type)
    ensures
        r@ == spec_function_type(),
{
    let params: Vec<Box<Type>> = Vec::new();
    proof {
        assert(params@ =~= Seq::<Box<Type>>::empty());
        assert(crate::typing::types_view(params@) =~= Seq::<SpecType>::empty());
    }
    let r = Type::FuncType { return_type: Box::new(Type::Int32), param_types: params };
    assert(type_view(Type::Int32) == SpecType::Int32);
    assert(r@ == type_view(r));
    assert(type_view(r) == SpecType::FuncType { return_type: Box::new(type_view(Type::Int32)), param_types: crate::typing::types_view(params@) });
    r
}

/// A function `func name() -> i32 { items }` at `pos`.
fn parse_function(ts: &Vec<Token>, pos: usize) -> (r: Result<Option<(Function, usize)>, ParseError>)
    ensures
        agrees(r, spec_parse_function(tokens_view(ts@), pos as int), pos as int, ts@.len() as int),
{
    let ghost tv = tokens_view(ts@);
    if !is_text(ts, pos, "func") || pos + 1 >= ts.len() {
        return Ok(None);
    }
    assert(tv[pos + 1] == ts@[pos + 1]@);
    let name = match &ts[pos + 1] {
        Token::Identifier(content) => content.clone(),
        _ => {
            return Ok(None);
        },
    };
    if !is_text(ts, pos + 2, "(") || !is_text(ts, pos + 3, ")") {
        return Ok(None);
    }
    if !is_text(ts, pos + 4, "->") {
        return Err(ParseError::ExpectedReturnType);
    }
    if !is_text(ts, pos + 5, "i32") {
        return Err(ParseError::UnexpectedEndOfFile);
    }
    if !is_text(ts, pos + 6, "{") {
        return Err(ParseError::ExpectedBlock);
    }
    match parse_block_items(ts, pos + 7, true) {
        Err(e) => Err(e),
        Ok((body, p)) => Ok(Some((Function { name, body, func_type: function_type() }, p + 1))),
    }
}

/// The program that a token sequence denotes: its functions, one after the other, and
/// nothing else.
pub fn parse(tokens: Vec<Token>) -> (r: Result<Program, ParseError>)
    ensures
        match r {
            Ok(program) => spec_parse(tokens_view(tokens@)) == Ok::<SpecProgram, ParseError>(program@),
            Err(e) => spec_parse(tokens_view(tokens@)) == Err::<SpecProgram, ParseError>(e),
        },
{
    let ghost tv = tokens_view(tokens@);
    let ts = &tokens;
    let mut functions: Vec<Function> = Vec::new();
    let mut p: usize = 0;
    proof {
        assert(functions_view(functions@) =~= Seq::<SpecFunction>::empty());
    }
    loop
        invariant
            tv == tokens_view(ts@),
            ts@ == tokens@,
            p <= ts@.len(),
            match spec_parse_functions(tv, p as int) {
                Err(e) => spec_parse_functions(tv, 0) == Err::<Seq<SpecFunction>, ParseError>(e),
                Ok(rest) => spec_parse_functions(tv, 0) == Ok::<Seq<SpecFunction>, ParseError>(functions_view(functions@) + rest),
            },
        decreases ts@.len() - p,
    {
        match parse_function(ts, p) {
            Err(e) => {
                assert(spec_parse_functions(tv, p as int) == Err::<Seq<SpecFunction>, ParseError>(e));
                return Err(e);
            },
            Ok(None) => {
                if p < ts.len() {
                    assert(spec_parse_functions(tv, p as int) == Err::<Seq<SpecFunction>, ParseError>(ParseError::UnexpectedTokens));
                    return Err(ParseError::UnexpectedTokens);
                }
                proof {
                    assert(functions_view(functions@) + Seq::<SpecFunction>::empty() == functions_view(functions@));
                }
                return Ok(Program { body: functions });
            },
            Ok(Some((f, p2))) => {
                let ghost before = functions@;
                functions.push(f);
                proof {
                    assert(functions_view(functions@) == functions_view(before) + seq![f@]);
                    match spec_parse_functions(tv, p2 as int) {
                        Ok(rest) => {
                            assert(functions_view(functions@) + rest == functions_view(before) + (seq![f@] + rest));
                        },
                        Err(e) => {},
                    }
                }
                p = p2;
            },
        }
    }
}

} // verus!
