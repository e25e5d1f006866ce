use vstd::prelude::*;
use crate::text::str_eq;
use crate::typing::{Type, SpecType, spec_convertable};
use crate::parsing::{
    BlockItem, Expression, Function, Program, Statement, VarDeclaration, SpecBlockItem, SpecExpr, SpecStatement,
    SpecFunction, SpecVarDecl, items_view, lemma_items_view, lemma_items_view_push, functions_view, type_of, with_type,
};

verus! {

/// Why the types of a program's expressions cannot be inferred.
#[derive(Debug)]
pub enum SolveError {
    /// The named identifier has no type.
    UnknownIdentifier(String),
    /// A binary operation asks whether a function type or the unknown type converts.
    InvalidConversionCheck,
    /// Neither operand of the named binary operator converts to the type of the other.
    InapplicableOperator(String),
}

pub enum SpecSolveError {
    UnknownIdentifier(Seq<char>),
    InvalidConversionCheck,
    InapplicableOperator(Seq<char>),
}

impl View for SolveError {
    type V = SpecSolveError;

    open spec fn view(&self) -> SpecSolveError {
        match self {
            SolveError::UnknownIdentifier(name) => SpecSolveError::UnknownIdentifier(name@),
            SolveError::InvalidConversionCheck => SpecSolveError::InvalidConversionCheck,
            SolveError::InapplicableOperator(op) => SpecSolveError::InapplicableOperator(op@),
        }
    }
}

/// The types of identifiers.
pub type TypeEnv = Map<Seq<char>, SpecType>;

/// Whether a type can be asked about conversions.
pub open spec fn is_checkable(t: SpecType) -> bool {
    t is Int32 || t is Any
}

/// An expression with its type, and the types of its operands, inferred, where its type is
/// still unknown. Declarations inside block expressions add to the identifier types.
pub open spec fn spec_solve_expression(e: SpecExpr, env: TypeEnv) -> Result<(SpecExpr, TypeEnv), SpecSolveError>
    decreases e, 0int,
{
    match e {
        SpecExpr::UnaryOp { operator, target, expr_type } => if !(expr_type is Unknown) {
            Ok((e, env))
        } else {
            match spec_solve_expression(*target, env) {
                Err(x) => Err(x),
                Ok((t2, env2)) => Ok((SpecExpr::UnaryOp { operator, target: Box::new(t2), expr_type: type_of(t2) }, env2)),
            }
        },
        SpecExpr::BinaryOp { operator, left, right, expr_type } => if !(expr_type is Unknown) {
            Ok((e, env))
        } else {
            match spec_solve_expression(*left, env) {
                Err(x) => Err(x),
                Ok((l2, env1)) => match spec_solve_expression(*right, env1) {
                    Err(x) => Err(x),
                    Ok((r2, env2)) => {
                        let lt = type_of(l2);
                        let rt = type_of(r2);
                        if !is_checkable(lt) {
                            Err(SpecSolveError::InvalidConversionCheck)
                        } else if spec_convertable(lt, rt) {
                            Ok((SpecExpr::BinaryOp {
                                operator,
                                left: Box::new(with_type(l2, rt)),
                                right: Box::new(r2),
                                expr_type: rt,
                            }, env2))
                        } else if !is_checkable(rt) {
                            Err(SpecSolveError::InvalidConversionCheck)
                        } else if spec_convertable(rt, lt) {
                            Ok((SpecExpr::BinaryOp {
                                operator,
                                left: Box::new(l2),
                                right: Box::new(with_type(r2, lt)),
                                expr_type: lt,
                            }, env2))
                        } else {
                            Err(SpecSolveError::InapplicableOperator(operator))
                        }
                    },
                },
            }
        },
        SpecExpr::Var { name, expr_type } => if !(expr_type is Unknown) {
            Ok((e, env))
        } else if env.contains_key(name) {
            Ok((SpecExpr::Var { name, expr_type: env[name] }, env))
        } else {
            Err(SpecSolveError::UnknownIdentifier(name))
        },
        SpecExpr::VarAssignment { name, value, expr_type } => if !(expr_type is Unknown) {
            Ok((e, env))
        } else if !env.contains_key(name) {
            Err(SpecSolveError::UnknownIdentifier(name))
        } else {
            match spec_solve_expression(*value, env) {
                Err(x) => Err(x),
                Ok((v2, env2)) => Ok((SpecExpr::VarAssignment { name, value: Box::new(v2), expr_type: env[name] }, env2)),
            }
        },
        SpecExpr::BlockExpression { items, expr_type } => match spec_solve_block(items, env) {
            Err(x) => Err(x),
            Ok((items2, env2)) => Ok((SpecExpr::BlockExpression { items: items2, expr_type }, env2)),
        },
        SpecExpr::Int32Constant { value, .. } => Ok((SpecExpr::Int32Constant { value, expr_type: SpecType::Int32 }, env)),
    }
}

pub open spec fn spec_solve_opt(value: Option<SpecExpr>, env: TypeEnv) -> Result<(Option<SpecExpr>, TypeEnv), SpecSolveError>
    decreases value, 1int,
{
    match value {
        None => Ok((None, env)),
        Some(v) => match spec_solve_expression(v, env) {
            Err(x) => Err(x),
            Ok((v2, env2)) => Ok((Some(v2), env2)),
        },
    }
}

pub open spec fn spec_solve_statement(s: SpecStatement, env: TypeEnv) -> Result<(SpecStatement, TypeEnv), SpecSolveError>
    decreases s, 0int,
{
    match s {
        SpecStatement::Expression { expression } => match spec_solve_expression(expression, env) {
            Err(x) => Err(x),
            Ok((e2, env2)) => Ok((SpecStatement::Expression { expression: e2 }, env2)),
        },
        SpecStatement::Return { value } => match spec_solve_opt(value, env) {
            Err(x) => Err(x),
            Ok((v2, env2)) => Ok((SpecStatement::Return { value: v2 }, env2)),
        },
        SpecStatement::Yield { value } => match spec_solve_opt(value, env) {
            Err(x) => Err(x),
            Ok((v2, env2)) => Ok((SpecStatement::Yield { value: v2 }, env2)),
        },
        SpecStatement::Block { items } => match spec_solve_block(items, env) {
            Err(x) => Err(x),
            Ok((items2, env2)) => Ok((SpecStatement::Block { items: items2 }, env2)),
        },
    }
}

/// An item with its types inferred; a declaration gives its variable its declared type
/// before its initial value is looked into.
pub open spec fn spec_solve_item(item: SpecBlockItem, env: TypeEnv) -> Result<(SpecBlockItem, TypeEnv), SpecSolveError>
    decreases item, 0int,
{
    match item {
        SpecBlockItem::Statement(s) => match spec_solve_statement(s, env) {
            Err(x) => Err(x),
            Ok((s2, env2)) => Ok((SpecBlockItem::Statement(s2), env2)),
        },
        SpecBlockItem::VarDeclaration(d) => match spec_solve_opt(d.init_value, env.insert(d.name, d.var_type)) {
            Err(x) => Err(x),
            Ok((v2, env2)) => Ok((SpecBlockItem::VarDeclaration(SpecVarDecl { init_value: v2, ..d }), env2)),
        },
    }
}

/// The items of a block with their types inferred, in order.
pub open spec fn spec_solve_block(items: Seq<SpecBlockItem>, env: TypeEnv) -> Result<(Seq<SpecBlockItem>, TypeEnv), SpecSolveError>
    decreases items, 0int,
{
    if items.len() == 0 {
        Ok((Seq::empty(), env))
    } else {
        match spec_solve_item(items[0], env) {
            Err(x) => Err(x),
            Ok((item2, env2)) => match spec_solve_block(items.drop_first(), env2) {
                Err(x) => Err(x),
                Ok((rest, env3)) => Ok((seq![item2] + rest, env3)),
            },
        }
    }
}

/// The types of the functions' names, later functions overriding earlier ones.
pub open spec fn spec_function_types(fs: Seq<SpecFunction>) -> TypeEnv
    decreases fs.len(),
{
    if fs.len() == 0 {
        Map::empty()
    } else {
        spec_function_types(fs.drop_last()).insert(fs.last().name, fs.last().func_type)
    }
}

/// The functions from the first on with their types inferred, the identifier types carried
/// from each function to the next.
pub open spec fn spec_solve_functions(fs: Seq<SpecFunction>, env: TypeEnv) -> Result<Seq<SpecFunction>, SpecSolveError>
    decreases fs.len(),
{
    if fs.len() == 0 {
        Ok(Seq::empty())
    } else {
        match spec_solve_block(fs[0].body, env) {
            Err(x) => Err(x),
            Ok((body, env2)) => match spec_solve_functions(fs.drop_first(), env2) {
                Err(x) => Err(x),
                Ok(rest) => Ok(seq![SpecFunction { body, ..fs[0] }] + rest),
            },
        }
    }
}

/// The program with the types of its expressions inferred.
pub open spec fn spec_solve_types(fs: Seq<SpecFunction>) -> Result<Seq<SpecFunction>, SpecSolveError> {
    spec_solve_functions(fs, spec_function_types(fs))
}


/// Whether a type is neither `any` nor unknown.
pub open spec fn known_type(t: SpecType) -> bool {
    !(t is Any) && !(t is Unknown)
}

/// Whether an expression records no type `any`, and every variable declared in it has a
/// known type.
pub open spec fn plain_expr(e: SpecExpr) -> bool
    decreases e, 0int,
{
    !(type_of(e) is Any) && match e {
        SpecExpr::UnaryOp { target, .. } => plain_expr(*target),
        SpecExpr::BinaryOp { left, right, .. } => plain_expr(*left) && plain_expr(*right),
        SpecExpr::VarAssignment { value, .. } => plain_expr(*value),
        SpecExpr::BlockExpression { items, .. } => plain_items(items),
        _ => true,
    }
}

pub open spec fn plain_stmt(s: SpecStatement) -> bool
    decreases s, 0int,
{
    match s {
        SpecStatement::Expression { expression } => plain_expr(expression),
        SpecStatement::Return { value } => match value {
            Some(e) => plain_expr(e),
            None => true,
        },
        SpecStatement::Yield { value } => match value {
            Some(e) => plain_expr(e),
            None => true,
        },
        SpecStatement::Block { items } => plain_items(items),
    }
}

pub open spec fn plain_item(b: SpecBlockItem) -> bool
    decreases b, 0int,
{
    match b {
        SpecBlockItem::Statement(s) => plain_stmt(s),
        SpecBlockItem::VarDeclaration(d) => known_type(d.var_type) && match d.init_value {
            Some(e) => plain_expr(e),
            None => true,
        },
    }
}

pub open spec fn plain_items(items: Seq<SpecBlockItem>) -> bool
    decreases items, 1int,
{
    items.len() == 0 || (plain_item(items[0]) && plain_items(items.drop_first()))
}

/// Whether every function has a known type, and no body records the type `any` or declares
/// a variable of a type that is not known.
pub open spec fn plain_functions(fs: Seq<SpecFunction>) -> bool {
    forall|i: int| 0 <= i < fs.len() ==> known_type(#[trigger] fs[i].func_type) && plain_items(fs[i].body)
}

/// Whether every identifier has a known type.
pub open spec fn known_env(env: TypeEnv) -> bool {
    forall|k: Seq<char>| #[trigger] env.contains_key(k) ==> known_type(env[k])
}

/// Whether inference leaves an expression as it is, whatever the identifier types: every
/// node it would look into already has its type, and a constant is typed `i32`.
pub open spec fn settled_expr(e: SpecExpr) -> bool
    decreases e, 0int,
{
    match e {
        SpecExpr::UnaryOp { target, expr_type, .. } =>
            !(expr_type is Unknown) || (settled_expr(*target) && type_of(*target) is Unknown),
        SpecExpr::BinaryOp { expr_type, .. } => !(expr_type is Unknown),
        SpecExpr::Var { expr_type, .. } => !(expr_type is Unknown),
        SpecExpr::VarAssignment { expr_type, .. } => !(expr_type is Unknown),
        SpecExpr::BlockExpression { items, .. } => settled_items(items),
        SpecExpr::Int32Constant { expr_type, .. } => expr_type is Int32,
    }
}

pub open spec fn settled_stmt(s: SpecStatement) -> bool
    decreases s, 0int,
{
    match s {
        SpecStatement::Expression { expression } => settled_expr(expression),
        SpecStatement::Return { value } => match value {
            Some(e) => settled_expr(e),
            None => true,
        },
        SpecStatement::Yield { value } => match value {
            Some(e) => settled_expr(e),
            None => true,
        },
        SpecStatement::Block { items } => settled_items(items),
    }
}

pub open spec fn settled_item(b: SpecBlockItem) -> bool
    decreases b, 0int,
{
    match b {
        SpecBlockItem::Statement(s) => settled_stmt(s),
        SpecBlockItem::VarDeclaration(d) => match d.init_value {
            Some(e) => settled_expr(e),
            None => true,
        },
    }
}

pub open spec fn settled_items(items: Seq<SpecBlockItem>) -> bool
    decreases items, 1int,
{
    items.len() == 0 || (settled_item(items[0]) && settled_items(items.drop_first()))
}

/// Inference settles: once it has succeeded on a program that records no type `any` and
/// whose functions and declared variables have known types, running it again on the result
/// succeeds and changes nothing.
pub proof fn law_solve_types_settles(fs: Seq<SpecFunction>)
    requires
        plain_functions(fs),
    ensures
        spec_solve_types(fs) matches Ok(fs2) ==> spec_solve_types(fs2) == Ok::<Seq<SpecFunction>, SpecSolveError>(fs2),
{
    lemma_function_types_known(fs);
    lemma_solve_functions_settle(fs, spec_function_types(fs));
    if let Ok(fs2) = spec_solve_types(fs) {
        lemma_settled_functions(fs2, spec_function_types(fs2));
    }
}

proof fn lemma_function_types_known(fs: Seq<SpecFunction>)
    requires
        forall|i: int| 0 <= i < fs.len() ==> known_type(#[trigger] fs[i].func_type),
    ensures
        known_env(spec_function_types(fs)),
    decreases fs.len(),
{
    if fs.len() > 0 {
        assert forall|i: int| 0 <= i < fs.drop_last().len() implies known_type(#[trigger] fs.drop_last()[i].func_type) by {
            assert(fs.drop_last()[i] == fs[i]);
        }
        lemma_function_types_known(fs.drop_last());
        assert(known_type(fs[fs.len() - 1].func_type));
    }
}

/// A first run leaves every function body settled.
proof fn lemma_solve_functions_settle(fs: Seq<SpecFunction>, env: TypeEnv)
    requires
        plain_functions(fs),
        known_env(env),
    ensures
        spec_solve_functions(fs, env) matches Ok(fs2) ==> forall|i: int| 0 <= i < fs2.len() ==> settled_items(#[trigger] fs2[i].body),
    decreases fs.len(),
{
    if fs.len() > 0 {
        assert(known_type(fs[0].func_type) && plain_items(fs[0].body));
        lemma_solve_block_settles(fs[0].body, env);
        if let Ok((body, env2)) = spec_solve_block(fs[0].body, env) {
            assert forall|i: int| 0 <= i < fs.drop_first().len() implies known_type(#[trigger] fs.drop_first()[i].func_type)
                && plain_items(fs.drop_first()[i].body) by {
                assert(fs.drop_first()[i] == fs[i + 1]);
            }
            lemma_solve_functions_settle(fs.drop_first(), env2);
            if let Ok(rest) = spec_solve_functions(fs.drop_first(), env2) {
                let fs2 = seq![SpecFunction { body, ..fs[0] }] + rest;
                assert forall|i: int| 0 <= i < fs2.len() implies settled_items(#[trigger] fs2[i].body) by {
                    if i > 0 {
                        assert(fs2[i] == rest[i - 1]);
                    }
                }
            }
        }
    }
}

proof fn lemma_solve_block_settles(items: Seq<SpecBlockItem>, env: TypeEnv)
    requires
        plain_items(items),
        known_env(env),
    ensures
        spec_solve_block(items, env) matches Ok((items2, env2)) ==> settled_items(items2) && known_env(env2),
    decreases items, 1int,
{
    if items.len() > 0 {
        lemma_solve_item_settles(items[0], env);
        if let Ok((item2, env1)) = spec_solve_item(items[0], env) {
            lemma_solve_block_settles(items.drop_first(), env1);
            if let Ok((rest, env3)) = spec_solve_block(items.drop_first(), env1) {
                let items2 = seq![item2] + rest;
                assert(items2[0] == item2);
                assert(items2.drop_first() =~= rest);
            }
        }
    }
}

proof fn lemma_solve_item_settles(item: SpecBlockItem, env: TypeEnv)
    requires
        plain_item(item),
        known_env(env),
    ensures
        spec_solve_item(item, env) matches Ok((item2, env2)) ==> settled_item(item2) && known_env(env2),
    decreases item, 0int,
{
    match item {
        SpecBlockItem::Statement(st) => lemma_solve_statement_settles(st, env),
        SpecBlockItem::VarDeclaration(d) => {
            let env1 = env.insert(d.name, d.var_type);
            assert(known_env(env1));
            if let Some(init) = d.init_value {
                lemma_solve_expression_settles(init, env1);
            }
        },
    }
}

proof fn lemma_solve_statement_settles(st: SpecStatement, env: TypeEnv)
    requires
        plain_stmt(st),
        known_env(env),
    ensures
        spec_solve_statement(st, env) matches Ok((st2, env2)) ==> settled_stmt(st2) && known_env(env2),
    decreases st, 0int,
{
    match st {
        SpecStatement::Expression { expression } => lemma_solve_expression_settles(expression, env),
        SpecStatement::Return { value } => if let Some(e) = value {
            lemma_solve_expression_settles(e, env);
        },
        SpecStatement::Yield { value } => if let Some(e) = value {
            lemma_solve_expression_settles(e, env);
        },
        SpecStatement::Block { items } => lemma_solve_block_settles(items, env),
    }
}

proof fn lemma_solve_expression_settles(e: SpecExpr, env: TypeEnv)
    requires
        plain_expr(e),
        known_env(env),
    ensures
        spec_solve_expression(e, env) matches Ok((e2, env2)) ==> {
            &&& settled_expr(e2)
            &&& !(type_of(e2) is Any)
            &&& known_env(env2)
        },
    decreases e, 0int,
{
    match e {
        SpecExpr::UnaryOp { target, .. } => lemma_solve_expression_settles(*target, env),
        SpecExpr::BinaryOp { left, right, .. } => {
            lemma_solve_expression_settles(*left, env);
            if let Ok((l2, env1)) = spec_solve_expression(*left, env) {
                lemma_solve_expression_settles(*right, env1);
            }
        },
        SpecExpr::VarAssignment { value, .. } => lemma_solve_expression_settles(*value, env),
        SpecExpr::BlockExpression { items, .. } => lemma_solve_block_settles(items, env),
        _ => {},
    }
}

/// A settled program is left as it is, whatever the identifier types.
proof fn lemma_settled_functions(fs: Seq<SpecFunction>, env: TypeEnv)
    requires
        forall|i: int| 0 <= i < fs.len() ==> settled_items(#[trigger] fs[i].body),
    ensures
        spec_solve_functions(fs, env) == Ok::<Seq<SpecFunction>, SpecSolveError>(fs),
    decreases fs.len(),
{
    if fs.len() > 0 {
        assert(settled_items(fs[0].body));
        lemma_settled_block(fs[0].body, env);
        let env2 = spec_solve_block(fs[0].body, env)->Ok_0.1;
        assert forall|i: int| 0 <= i < fs.drop_first().len() implies settled_items(#[trigger] fs.drop_first()[i].body) by {
            assert(fs.drop_first()[i] == fs[i + 1]);
        }
        lemma_settled_functions(fs.drop_first(), env2);
        assert(seq![SpecFunction { body: fs[0].body, ..fs[0] }] + fs.drop_first() =~= fs);
    } else {
        assert(fs =~= Seq::<SpecFunction>::empty());
    }
}

proof fn lemma_settled_block(items: Seq<SpecBlockItem>, env: TypeEnv)
    requires
        settled_items(items),
    ensures
        spec_solve_block(items, env) matches Ok((items2, _)) && items2 == items,
    decreases items, 1int,
{
    if items.len() > 0 {
        lemma_settled_item(items[0], env);
        let env1 = spec_solve_item(items[0], env)->Ok_0.1;
        lemma_settled_block(items.drop_first(), env1);
        assert(seq![items[0]] + items.drop_first() =~= items);
    } else {
        assert(items =~= Seq::<SpecBlockItem>::empty());
    }
}

proof fn lemma_settled_item(item: SpecBlockItem, env: TypeEnv)
    requires
        settled_item(item),
    ensures
        spec_solve_item(item, env) matches Ok((item2, _)) && item2 == item,
    decreases item, 0int,
{
    match item {
        SpecBlockItem::Statement(st) => lemma_settled_statement(st, env),
        SpecBlockItem::VarDeclaration(d) => if let Some(init) = d.init_value {
            lemma_settled_expression(init, env.insert(d.name, d.var_type));
        },
    }
}

proof fn lemma_settled_statement(st: SpecStatement, env: TypeEnv)
    requires
        settled_stmt(st),
    ensures
        spec_solve_statement(st, env) matches Ok((st2, _)) && st2 == st,
    decreases st, 0int,
{
    match st {
        SpecStatement::Expression { expression } => lemma_settled_expression(expression, env),
        SpecStatement::Return { value } => if let Some(e) = value {
            lemma_settled_expression(e, env);
        },
        SpecStatement::Yield { value } => if let Some(e) = value {
            lemma_settled_expression(e, env);
        },
        SpecStatement::Block { items } => lemma_settled_block(items, env),
    }
}

proof fn lemma_settled_expression(e: SpecExpr, env: TypeEnv)
    requires
        settled_expr(e),
    ensures
        spec_solve_expression(e, env) matches Ok((e2, _)) && e2 == e,
    decreases e, 0int,
{
    match e {
        SpecExpr::UnaryOp { target, .. } => {
            if settled_expr(*target) {
                lemma_settled_expression(*target, env);
            }
        },
        SpecExpr::BlockExpression { items, .. } => lemma_settled_block(items, env),
        _ => {},
    }
}

/// An identifier and its type.
pub struct TypeBinding {
    pub name: String,
    pub ty: Type,
}

/// The identifier types that a list of bindings gives, later bindings overriding earlier.
pub open spec fn env_of(bs: Seq<TypeBinding>) -> TypeEnv
    decreases bs.len(),
{
    if bs.len() == 0 {
        Map::empty()
    } else {
        env_of(bs.drop_last()).insert(bs.last().name@, bs.last().ty@)
    }
}

fn bind(env: &mut Vec<TypeBinding>, name: &String, ty: &Type)
    ensures
        env_of(final(env)@) == env_of(old(env)@).insert(name@, ty@),
{
    let ghost before = env@;
    env.push(TypeBinding { name: name.clone(), ty: ty.duplicate() });
    proof {
        assert(env@.drop_last() == before);
    }
}

fn lookup_type(env: &Vec<TypeBinding>, name: &String) -> (r: Option<Type>)
    ensures
        match r {
            Some(t) => env_of(env@).contains_key(name@) && env_of(env@)[name@] == t@,
            None => !env_of(env@).contains_key(name@),
        },
{
    let ghost full = env@;
    let mut i: usize = env.len();
    proof {
        assert(full.take(i as int) == full);
    }
    while i > 0
        invariant
            i <= full.len(),
            full == env@,
            env_of(full).contains_key(name@) == env_of(full.take(i as int)).contains_key(name@),
            env_of(full).contains_key(name@) ==> env_of(full)[name@] == env_of(full.take(i as int))[name@],
        decreases i,
    {
        proof {
            assert(full.take(i as int).drop_last() == full.take(i - 1));
            assert(full.take(i as int).last() == full[i - 1]);
        }
        if str_eq(env[i - 1].name.as_str(), name.as_str()) {
            return Some(env[i - 1].ty.duplicate());
        }
        i = i - 1;
    }
    proof {
        assert(full.take(0) =~= Seq::<TypeBinding>::empty());
    }
    None
}

fn is_checkable_type(t: &Type) -> (r: bool)
    ensures
        r == is_checkable(t@),
{
    match t {
        Type::Int32 => true,
        Type::Any => true,
        _ => false,
    }
}

fn is_unknown(t: &Type) -> (r: bool)
    ensures
        r == (t@ is Unknown),
{
    match t {
        Type::Unknown => true,
        _ => false,
    }
}

fn solve_types_expression(expression: &Expression, env: &mut Vec<TypeBinding>) -> (r: Result<Expression, SolveError>)
    ensures
        match r {
            Ok(e) => spec_solve_expression(expression@, env_of(old(env)@))
                == Ok::<(SpecExpr, TypeEnv), SpecSolveError>((e@, env_of(final(env)@))),
            Err(x) => spec_solve_expression(expression@, env_of(old(env)@))
                == Err::<(SpecExpr, TypeEnv), SpecSolveError>(x@),
        },
    decreases expression, 0int,
{
    match expression {
        Expression::UnaryOp { target, operator, expr_type } => {
            if !is_unknown(expr_type) {
                return Ok(expression.duplicate());
            }
            let t2 = solve_types_expression(target, env)?;
            let t = t2.get_type();
            Ok(Expression::UnaryOp { operator: operator.clone(), target: Box::new(t2), expr_type: t })
        },
        Expression::BinaryOp { left, operator, right, expr_type } => {
            if !is_unknown(expr_type) {
                return Ok(expression.duplicate());
            }
            let l2 = solve_types_expression(left, env)?;
            let r2 = solve_types_expression(right, env)?;
            let lt = l2.get_type();
            let rt = r2.get_type();
            if !is_checkable_type(&lt) {
                return Err(SolveError::InvalidConversionCheck);
            }
            if lt.is_convertable_to(&rt) {
                let cast = rt.duplicate();
                Ok(Expression::BinaryOp { operator: operator.clone(), left: Box::new(l2.set_type(cast)), right: Box::new(r2), expr_type: rt })
            } else {
                if !is_checkable_type(&rt) {
                    return Err(SolveError::InvalidConversionCheck);
                }
                if rt.is_convertable_to(&lt) {
                    let cast = lt.duplicate();
                    Ok(Expression::BinaryOp { operator: operator.clone(), left: Box::new(l2), right: Box::new(r2.set_type(cast)), expr_type: lt })
                } else {
                    Err(SolveError::InapplicableOperator(operator.clone()))
                }
            }
        },
        Expression::Var { expr_type, name } => {
            if !is_unknown(expr_type) {
                return Ok(expression.duplicate());
            }
            match lookup_type(env, name) {
                Some(t) => Ok(Expression::Var { name: name.clone(), expr_type: t }),
                None => Err(SolveError::UnknownIdentifier(name.clone())),
            }
        },
        Expression::VarAssignment { expr_type, name, value } => {
            if !is_unknown(expr_type) {
                return Ok(expression.duplicate());
            }
            let t = match lookup_type(env, name) {
                Some(t) => t,
                None => {
                    return Err(SolveError::UnknownIdentifier(name.clone()));
                },
            };
            let v2 = solve_types_expression(value, env)?;
            Ok(Expression::VarAssignment { name: name.clone(), value: Box::new(v2), expr_type: t })
        },
        Expression::BlockExpression { items, expr_type } => {
            proof {
                assert(decreases_to!(*expression => *items));
            }
            let items2 = solve_types_block(items, env)?;
            Ok(Expression::BlockExpression { items: items2, expr_type: expr_type.duplicate() })
        },
        Expression::Int32Constant { value, .. } => Ok(Expression::Int32Constant { value: *value, expr_type: Type::Int32 }),
    }
}

fn solve_types_value(value: &Option<Box<Expression>>, env: &mut Vec<TypeBinding>) -> (r: Result<Option<Box<Expression>>, SolveError>)
    ensures
        match r {
            Ok(v) => spec_solve_opt(crate::parsing::opt_expr_view(*value), env_of(old(env)@))
                == Ok::<(Option<SpecExpr>, TypeEnv), SpecSolveError>((crate::parsing::opt_expr_view(v), env_of(final(env)@))),
            Err(x) => spec_solve_opt(crate::parsing::opt_expr_view(*value), env_of(old(env)@))
                == Err::<(Option<SpecExpr>, TypeEnv), SpecSolveError>(x@),
        },
    decreases *value, 1int,
{
    match value {
        None => Ok(None),
        Some(e) => {
            let e2 = solve_types_expression(e, env)?;
            Ok(Some(Box::new(e2)))
        },
    }
}

fn solve_types_statement(statement: &Statement, env: &mut Vec<TypeBinding>) -> (r: Result<Statement, SolveError>)
    ensures
        match r {
            Ok(s) => spec_solve_statement(statement@, env_of(old(env)@))
                == Ok::<(SpecStatement, TypeEnv), SpecSolveError>((s@, env_of(final(env)@))),
            Err(x) => spec_solve_statement(statement@, env_of(old(env)@))
                == Err::<(SpecStatement, TypeEnv), SpecSolveError>(x@),
        },
    decreases statement, 0int,
{
    match statement {
        Statement::Expression { expression } => {
            let e2 = solve_types_expression(expression, env)?;
            Ok(Statement::Expression { expression: Box::new(e2) })
        },
        Statement::Yield { value } => {
            let v2 = solve_types_value(value, env)?;
            Ok(Statement::Yield { value: v2 })
        },
        Statement::Return { value } => {
            let v2 = solve_types_value(value, env)?;
            Ok(Statement::Return { value: v2 })
        },
        Statement::Block { items } => {
            proof {
                assert(decreases_to!(*statement => *items));
            }
            let items2 = solve_types_block(items, env)?;
            Ok(Statement::Block { items: items2 })
        },
    }
}

fn solve_types_item(item: &BlockItem, env: &mut Vec<TypeBinding>) -> (r: Result<BlockItem, SolveError>)
    ensures
        match r {
            Ok(item2) => spec_solve_item(item@, env_of(old(env)@))
                == Ok::<(SpecBlockItem, TypeEnv), SpecSolveError>((item2@, env_of(final(env)@))),
            Err(x) => spec_solve_item(item@, env_of(old(env)@)) == Err::<(SpecBlockItem, TypeEnv), SpecSolveError>(x@),
        },
    decreases item, 0int,
{
    match item {
        BlockItem::Statement(statement) => {
            let s2 = solve_types_statement(statement, env)?;
            Ok(BlockItem::Statement(s2))
        },
        BlockItem::VarDeclaration(declaration) => {
            bind(env, &declaration.name, &declaration.var_type);
            let init_value = match &declaration.init_value {
                None => None,
                Some(e) => Some(solve_types_expression(e, env)?),
            };
            Ok(BlockItem::VarDeclaration(VarDeclaration {
                name: declaration.name.clone(),
                init_value,
                var_type: declaration.var_type.duplicate(),
            }))
        },
    }
}

fn solve_types_block(block_items: &Vec<BlockItem>, env: &mut Vec<TypeBinding>) -> (r: Result<Vec<BlockItem>, SolveError>)
    ensures
        match r {
            Ok(items) => spec_solve_block(items_view(block_items@), env_of(old(env)@))
                == Ok::<(Seq<SpecBlockItem>, TypeEnv), SpecSolveError>((items_view(items@), env_of(final(env)@))),
            Err(x) => spec_solve_block(items_view(block_items@), env_of(old(env)@))
                == Err::<(Seq<SpecBlockItem>, TypeEnv), SpecSolveError>(x@),
        },
    decreases *block_items, 1int,
{
    let ghost iv = items_view(block_items@);
    let ghost e0 = env_of(env@);
    let mut out: Vec<BlockItem> = Vec::new();
    proof {
        lemma_items_view(block_items@);
        assert(iv.skip(0) == iv);
        assert(items_view(out@) =~= Seq::<SpecBlockItem>::empty());
    }
    let mut i: usize = 0;
    while i < block_items.len()
        invariant
            i <= block_items@.len(),
            iv == items_view(block_items@),
            iv.len() == block_items@.len(),
            e0 == env_of(old(env)@),
            forall|j: int| 0 <= j < block_items@.len() ==> #[trigger] iv[j] == crate::parsing::item_view(block_items@[j]),
            match spec_solve_block(iv.skip(i as int), env_of(env@)) {
                Ok((rest, ef)) => spec_solve_block(iv, e0)
                    == Ok::<(Seq<SpecBlockItem>, TypeEnv), SpecSolveError>((items_view(out@) + rest, ef)),
                Err(x) => spec_solve_block(iv, e0) == Err::<(Seq<SpecBlockItem>, TypeEnv), SpecSolveError>(x),
            },
        decreases block_items@.len() - i,
    {
        proof {
            assert(decreases_to!(*block_items => block_items@[i as int]));
            assert(iv.skip(i as int).drop_first() == iv.skip(i + 1));
            assert(iv.skip(i as int)[0] == iv[i as int]);
        }
        let ghost before_out = items_view(out@);
        let ghost old_out = out@;
        let ghost env_before = env_of(env@);
        let item = solve_types_item(&block_items[i], env)?;
        out.push(item);
        proof {
            lemma_items_view_push(old_out, item);
            match spec_solve_block(iv.skip(i + 1), env_of(env@)) {
                Ok((rest, ef)) => {
                    assert(items_view(out@) + rest =~= before_out + (seq![item@] + rest));
                },
                Err(x) => {},
            }
        }
        i = i + 1;
    }
    proof {
        assert(iv.skip(i as int) =~= Seq::<SpecBlockItem>::empty());
        assert(items_view(out@) + Seq::<SpecBlockItem>::empty() =~= items_view(out@));
    }
    Ok(out)
}


/// Infers the types of the program's expressions: the names of the functions get the
/// functions' types, every declaration its variable's type, and each expression whose type
/// is unknown the type of its value. On error the program is left as it was.
pub fn solve_types(ast: &mut Program) -> (r: Result<(), SolveError>)
    ensures
        match r {
            Ok(()) => spec_solve_types(old(ast)@.body) == Ok::<Seq<SpecFunction>, SpecSolveError>(final(ast)@.body),
            Err(x) => spec_solve_types(old(ast)@.body) == Err::<Seq<SpecFunction>, SpecSolveError>(x@)
                && final(ast)@ == old(ast)@,
        },
{
    let ghost fv = ast@.body;
    let mut env: Vec<TypeBinding> = Vec::new();
    let mut i: usize = 0;
    proof {
        assert(fv.take(0) =~= Seq::<SpecFunction>::empty());
    }
    while i < ast.body.len()
        invariant
            i <= ast.body@.len(),
            *ast == *old(ast),
            fv == functions_view(ast.body@),
            fv.len() == ast.body@.len(),
            env_of(env@) == spec_function_types(fv.take(i as int)),
        decreases ast.body@.len() - i,
    {
        proof {
            assert(fv[i as int] == crate::parsing::function_view(ast.body@[i as int]));
            assert(fv.take(i + 1).drop_last() == fv.take(i as int));
            assert(fv.take(i + 1).last() == fv[i as int]);
        }
        bind(&mut env, &ast.body[i].name, &ast.body[i].func_type);
        i = i + 1;
    }
    proof {
        assert(fv.take(i as int) == fv);
    }
    let ghost e0 = env_of(env@);
    let mut out: Vec<Function> = Vec::new();
    let mut i: usize = 0;
    proof {
        assert(fv.skip(0) == fv);
        assert(functions_view(out@) =~= Seq::<SpecFunction>::empty());
    }
    while i < ast.body.len()
        invariant
            i <= ast.body@.len(),
            *ast == *old(ast),
            fv == functions_view(ast.body@),
            fv.len() == ast.body@.len(),
            e0 == spec_function_types(fv),
            match spec_solve_functions(fv.skip(i as int), env_of(env@)) {
                Ok(rest) => spec_solve_functions(fv, e0) == Ok::<Seq<SpecFunction>, SpecSolveError>(functions_view(out@) + rest),
                Err(x) => spec_solve_functions(fv, e0) == Err::<Seq<SpecFunction>, SpecSolveError>(x),
            },
        decreases ast.body@.len() - i,
    {
        let func = &ast.body[i];
        proof {
            assert(fv[i as int] == crate::parsing::function_view(ast.body@[i as int]));
            assert(fv.skip(i as int).drop_first() == fv.skip(i + 1));
            assert(fv.skip(i as int)[0] == fv[i as int]);
        }
        let body = solve_types_block(&func.body, &mut env)?;
        let f2 = Function { name: func.name.clone(), body, func_type: func.func_type.duplicate() };
        let ghost before = out@;
        out.push(f2);
        proof {
            assert(functions_view(out@) =~= functions_view(before).push(f2@));
            match spec_solve_functions(fv.skip(i + 1), env_of(env@)) {
                Ok(rest) => {
                    assert(functions_view(out@) + rest =~= functions_view(before) + (seq![f2@] + rest));
                },
                Err(x) => {},
            }
        }
        i = i + 1;
    }
    proof {
        assert(fv.skip(i as int) =~= Seq::<SpecFunction>::empty());
        assert(functions_view(out@) + Seq::<SpecFunction>::empty() =~= functions_view(out@));
    }
    ast.body = out;
    Ok(())
}

} // verus!
