use vstd::prelude::*;
use crate::text::{str_eq, decimal, push_decimal};
use crate::passes::var_validation::{
    spec_vars_items, spec_vars_statement, spec_vars_expression, spec_validate_vars, lemma_vars_statement_keeps_scope,
    lemma_vars_expression_keeps_scope,
};
use crate::typing::Type;
use crate::parsing::{
    BlockItem, Expression, Function, Program, Statement, VarDeclaration, SpecBlockItem, SpecExpr, SpecStatement,
    SpecFunction, SpecVarDecl, items_view, lemma_items_view, functions_view,
};

verus! {

/// Why the variables of a program cannot be renamed after their scope levels.
#[derive(Debug)]
pub enum ScopeError {
    /// The named variable is used where no declaration of it is in scope.
    UnknownVariable(String),
    /// Blocks are nested deeper than a scope level can count.
    NestingTooDeep,
}

pub enum SpecScopeError {
    UnknownVariable(Seq<char>),
    NestingTooDeep,
}

impl View for ScopeError {
    type V = SpecScopeError;

    open spec fn view(&self) -> SpecScopeError {
        match self {
            ScopeError::UnknownVariable(name) => SpecScopeError::UnknownVariable(name@),
            ScopeError::NestingTooDeep => SpecScopeError::NestingTooDeep,
        }
    }
}

/// A declaration in scope: the variable's name and the name it is given.
pub struct Binding {
    pub name: String,
    pub alias: String,
}

pub open spec fn bindings_view(bs: Seq<Binding>) -> Seq<(Seq<char>, Seq<char>)> {
    bs.map_values(|b: Binding| (b.name@, b.alias@))
}

/// The new name of the innermost declaration of `name` in scope.
pub open spec fn spec_lookup(bs: Seq<(Seq<char>, Seq<char>)>, name: Seq<char>) -> Option<Seq<char>>
    decreases bs.len(),
{
    if bs.len() == 0 {
        None
    } else if bs.last().0 == name {
        Some(bs.last().1)
    } else {
        spec_lookup(bs.drop_last(), name)
    }
}

/// The name given to a variable declared at scope level `level`.
pub open spec fn spec_alias(name: Seq<char>, level: nat) -> Seq<char> {
    name + ":"@ + decimal(level)
}

/// The items of a block at scope level `level`, each declaration renamed after its scope level
/// and each use renamed after the innermost declaration in scope. Initial values of
/// declarations are kept as they are.
pub open spec fn spec_scope_items(items: Seq<SpecBlockItem>, level: nat, bs: Seq<(Seq<char>, Seq<char>)>) -> Result<Seq<SpecBlockItem>, SpecScopeError>
    decreases items, 0int,
{
    if items.len() == 0 {
        Ok(Seq::empty())
    } else {
        match items[0] {
            SpecBlockItem::VarDeclaration(d) => {
                let alias = spec_alias(d.name, level);
                match spec_scope_items(items.drop_first(), level, bs.push((d.name, alias))) {
                    Err(e) => Err(e),
                    Ok(rest) => Ok(seq![SpecBlockItem::VarDeclaration(SpecVarDecl { name: alias, ..d })] + rest),
                }
            },
            SpecBlockItem::Statement(s) => match spec_scope_statement(s, level, bs) {
                Err(e) => Err(e),
                Ok(s2) => match spec_scope_items(items.drop_first(), level, bs) {
                    Err(e) => Err(e),
                    Ok(rest) => Ok(seq![SpecBlockItem::Statement(s2)] + rest),
                },
            },
        }
    }
}

/// A nested block, one scope level deeper.
pub open spec fn spec_scope_nested(items: Seq<SpecBlockItem>, level: nat, bs: Seq<(Seq<char>, Seq<char>)>) -> Result<Seq<SpecBlockItem>, SpecScopeError>
    decreases items, 1int,
{
    if level >= u32::MAX {
        Err(SpecScopeError::NestingTooDeep)
    } else {
        spec_scope_items(items, level + 1, bs)
    }
}

pub open spec fn spec_scope_statement(s: SpecStatement, level: nat, bs: Seq<(Seq<char>, Seq<char>)>) -> Result<SpecStatement, SpecScopeError>
    decreases s, 0int,
{
    match s {
        SpecStatement::Expression { expression } => match spec_scope_expression(expression, level, bs) {
            Err(e) => Err(e),
            Ok(e2) => Ok(SpecStatement::Expression { expression: e2 }),
        },
        SpecStatement::Block { items } => match spec_scope_nested(items, level, bs) {
            Err(e) => Err(e),
            Ok(items2) => Ok(SpecStatement::Block { items: items2 }),
        },
        SpecStatement::Return { value } => match value {
            Some(v) => match spec_scope_expression(v, level, bs) {
                Err(e) => Err(e),
                Ok(v2) => Ok(SpecStatement::Return { value: Some(v2) }),
            },
            None => Ok(SpecStatement::Return { value: None }),
        },
        SpecStatement::Yield { value } => match value {
            Some(v) => match spec_scope_expression(v, level, bs) {
                Err(e) => Err(e),
                Ok(v2) => Ok(SpecStatement::Yield { value: Some(v2) }),
            },
            None => Ok(SpecStatement::Yield { value: None }),
        },
    }
}

pub open spec fn spec_scope_expression(e: SpecExpr, level: nat, bs: Seq<(Seq<char>, Seq<char>)>) -> Result<SpecExpr, SpecScopeError>
    decreases e, 0int,
{
    match e {
        SpecExpr::Var { name, expr_type } => match spec_lookup(bs, name) {
            None => Err(SpecScopeError::UnknownVariable(name)),
            Some(alias) => Ok(SpecExpr::Var { name: alias, expr_type }),
        },
        SpecExpr::VarAssignment { name, value, expr_type } => match spec_lookup(bs, name) {
            None => Err(SpecScopeError::UnknownVariable(name)),
            Some(alias) => match spec_scope_expression(*value, level, bs) {
                Err(e) => Err(e),
                Ok(v2) => Ok(SpecExpr::VarAssignment { name: alias, value: Box::new(v2), expr_type }),
            },
        },
        SpecExpr::UnaryOp { operator, target, expr_type } => match spec_scope_expression(*target, level, bs) {
            Err(e) => Err(e),
            Ok(t2) => Ok(SpecExpr::UnaryOp { operator, target: Box::new(t2), expr_type }),
        },
        SpecExpr::BinaryOp { operator, left, right, expr_type } => match spec_scope_expression(*left, level, bs) {
            Err(e) => Err(e),
            Ok(l2) => match spec_scope_expression(*right, level, bs) {
                Err(e) => Err(e),
                Ok(r2) => Ok(SpecExpr::BinaryOp { operator, left: Box::new(l2), right: Box::new(r2), expr_type }),
            },
        },
        SpecExpr::BlockExpression { items, expr_type } => match spec_scope_nested(items, level, bs) {
            Err(e) => Err(e),
            Ok(items2) => Ok(SpecExpr::BlockExpression { items: items2, expr_type }),
        },
        SpecExpr::Int32Constant { .. } => Ok(e),
    }
}

/// The functions of a program with their variables scoped, each from scope level 0 and no
/// declarations.
pub open spec fn spec_scope_functions(fs: Seq<SpecFunction>) -> Result<Seq<SpecFunction>, SpecScopeError>
    decreases fs.len(),
{
    if fs.len() == 0 {
        Ok(Seq::empty())
    } else {
        match spec_scope_items(fs[0].body, 0, Seq::empty()) {
            Err(e) => Err(e),
            Ok(body) => match spec_scope_functions(fs.drop_first()) {
                Err(e) => Err(e),
                Ok(rest) => Ok(seq![SpecFunction { body, ..fs[0] }] + rest),
            },
        }
    }
}


/// The names that the bindings `bs` declare.
pub open spec fn bound_names(bs: Seq<(Seq<char>, Seq<char>)>) -> Set<Seq<char>> {
    Set::new(|n: Seq<char>| exists|i: int| 0 <= i < bs.len() && #[trigger] bs[i].0 == n)
}

proof fn lemma_lookup_bound(bs: Seq<(Seq<char>, Seq<char>)>, name: Seq<char>)
    ensures
        spec_lookup(bs, name) is Some <==> bound_names(bs).contains(name),
    decreases bs.len(),
{
    if bs.len() > 0 {
        let init = bs.drop_last();
        lemma_lookup_bound(init, name);
        if bound_names(bs).contains(name) && bs.last().0 != name {
            let i = choose|i: int| 0 <= i < bs.len() && #[trigger] bs[i].0 == name;
            assert(init[i] == bs[i]);
        }
        if bound_names(init).contains(name) {
            let i = choose|i: int| 0 <= i < init.len() && #[trigger] init[i].0 == name;
            assert(bs[i] == init[i]);
        }
        if bs.last().0 == name {
            assert(bs[bs.len() - 1].0 == name);
        }
    }
}

proof fn lemma_bound_names_push(bs: Seq<(Seq<char>, Seq<char>)>, b: (Seq<char>, Seq<char>))
    ensures
        bound_names(bs.push(b)) == bound_names(bs).insert(b.0),
{
    let bs2 = bs.push(b);
    assert forall|n: Seq<char>| #[trigger] bound_names(bs2).contains(n) == bound_names(bs).insert(b.0).contains(n) by {
        if bound_names(bs2).contains(n) && n != b.0 {
            let i = choose|i: int| 0 <= i < bs2.len() && #[trigger] bs2[i].0 == n;
            assert(bs[i] == bs2[i]);
        }
        if bound_names(bs).contains(n) {
            let i = choose|i: int| 0 <= i < bs.len() && #[trigger] bs[i].0 == n;
            assert(bs2[i] == bs[i]);
        }
        if n == b.0 {
            assert(bs2[bs.len() as int].0 == n);
        }
    }
    assert(bound_names(bs2) =~= bound_names(bs).insert(b.0));
}

/// Validation is no stricter than scoping: when every variable of a program can be renamed
/// after its scope, every variable is defined before it is used and once in its scope.
pub proof fn law_scoped_programs_validate(fs: Seq<SpecFunction>)
    ensures
        spec_scope_functions(fs) is Ok ==> spec_validate_vars(fs) is Ok,
    decreases fs.len(),
{
    if fs.len() > 0 {
        assert(bound_names(Seq::empty()) =~= Set::<Seq<char>>::empty());
        lemma_scoped_items_validate(fs[0].body, 0, Seq::empty(), Set::empty(), Set::empty());
        law_scoped_programs_validate(fs.drop_first());
    }
}

proof fn lemma_scoped_items_validate(
    items: Seq<SpecBlockItem>,
    level: nat,
    bs: Seq<(Seq<char>, Seq<char>)>,
    vars: Set<Seq<char>>,
    defined: Set<Seq<char>>,
)
    requires
        bound_names(bs) == vars,
        defined.subset_of(vars),
    ensures
        spec_scope_items(items, level, bs) is Ok ==> spec_vars_items(items, vars, defined) is Ok,
    decreases items, 0int,
{
    if items.len() > 0 && spec_scope_items(items, level, bs) is Ok {
        match items[0] {
            SpecBlockItem::VarDeclaration(d) => {
                let bs2 = bs.push((d.name, spec_alias(d.name, level)));
                lemma_bound_names_push(bs, (d.name, spec_alias(d.name, level)));
                if !vars.contains(d.name) {
                    lemma_scoped_items_validate(items.drop_first(), level, bs2, vars.insert(d.name), defined.insert(d.name));
                } else {
                    assert(vars.insert(d.name) =~= vars);
                    lemma_scoped_items_validate(items.drop_first(), level, bs2, vars, defined);
                }
            },
            SpecBlockItem::Statement(st) => {
                lemma_scoped_statement_validates(st, level, bs, vars);
                lemma_vars_statement_keeps_scope(st, vars);
                lemma_scoped_items_validate(items.drop_first(), level, bs, vars, defined);
            },
        }
    }
}

proof fn lemma_scoped_statement_validates(st: SpecStatement, level: nat, bs: Seq<(Seq<char>, Seq<char>)>, vars: Set<Seq<char>>)
    requires
        bound_names(bs) == vars,
    ensures
        spec_scope_statement(st, level, bs) is Ok ==> spec_vars_statement(st, vars) is Ok,
    decreases st, 0int,
{
    match st {
        SpecStatement::Expression { expression } => lemma_scoped_expression_validates(expression, level, bs, vars),
        SpecStatement::Block { items } => {
            if level < u32::MAX {
                lemma_scoped_items_validate(items, level + 1, bs, vars, Set::empty());
            }
        },
        SpecStatement::Return { value } => if let Some(e) = value {
            lemma_scoped_expression_validates(e, level, bs, vars);
        },
        SpecStatement::Yield { value } => if let Some(e) = value {
            lemma_scoped_expression_validates(e, level, bs, vars);
        },
    }
}

proof fn lemma_scoped_expression_validates(e: SpecExpr, level: nat, bs: Seq<(Seq<char>, Seq<char>)>, vars: Set<Seq<char>>)
    requires
        bound_names(bs) == vars,
    ensures
        spec_scope_expression(e, level, bs) is Ok ==> spec_vars_expression(e, vars) is Ok,
    decreases e, 0int,
{
    match e {
        SpecExpr::Var { name, .. } => lemma_lookup_bound(bs, name),
        SpecExpr::VarAssignment { name, .. } => lemma_lookup_bound(bs, name),
        SpecExpr::UnaryOp { target, .. } => lemma_scoped_expression_validates(*target, level, bs, vars),
        SpecExpr::BinaryOp { left, right, .. } => {
            lemma_scoped_expression_validates(*left, level, bs, vars);
            lemma_vars_expression_keeps_scope(*left, vars);
            lemma_scoped_expression_validates(*right, level, bs, vars);
        },
        SpecExpr::BlockExpression { items, .. } => {
            if level < u32::MAX {
                lemma_scoped_items_validate(items, level + 1, bs, vars, Set::empty());
            }
            assert(spec_scope_expression(e, level, bs) is Ok ==> spec_scope_nested(items, level, bs) is Ok);
            assert(spec_vars_expression(e, vars) == crate::passes::var_validation::spec_vars_block(items, vars));
        },
        SpecExpr::Int32Constant { .. } => {},
    }
}

fn lookup(bs: &Vec<Binding>, name: &String) -> (r: Option<String>)
    ensures
        match r {
            Some(alias) => spec_lookup(bindings_view(bs@), name@) == Some(alias@),
            None => spec_lookup(bindings_view(bs@), name@) is None,
        },
{
    let ghost bv = bindings_view(bs@);
    let mut i: usize = bs.len();
    proof {
        assert(bv.take(i as int) == bv);
    }
    while i > 0
        invariant
            i <= bs@.len(),
            bv == bindings_view(bs@),
            spec_lookup(bv, name@) == spec_lookup(bv.take(i as int), name@),
        decreases i,
    {
        proof {
            assert(bv.take(i as int).drop_last() == bv.take(i - 1));
            assert(bv.take(i as int).last() == bv[i - 1]);
        }
        if str_eq(bs[i - 1].name.as_str(), name.as_str()) {
            return Some(bs[i - 1].alias.clone());
        }
        i = i - 1;
    }
    None
}

fn scope_vars_expression(expression: &Expression, bs: &mut Vec<Binding>, scope_level: u32) -> (r: Result<Expression, ScopeError>)
    ensures
        final(bs)@ == old(bs)@,
        match r {
            Ok(e) => spec_scope_expression(expression@, scope_level as nat, bindings_view(old(bs)@))
                == Ok::<SpecExpr, SpecScopeError>(e@),
            Err(x) => spec_scope_expression(expression@, scope_level as nat, bindings_view(old(bs)@))
                == Err::<SpecExpr, SpecScopeError>(x@),
        },
    decreases expression, 0int,
{
    match expression {
        Expression::Var { name, expr_type } => match lookup(bs, name) {
            None => Err(ScopeError::UnknownVariable(name.clone())),
            Some(alias) => Ok(Expression::Var { name: alias, expr_type: expr_type.duplicate() }),
        },
        Expression::VarAssignment { name, value, expr_type } => match lookup(bs, name) {
            None => Err(ScopeError::UnknownVariable(name.clone())),
            Some(alias) => {
                let v2 = scope_vars_expression(value, bs, scope_level)?;
                Ok(Expression::VarAssignment { name: alias, value: Box::new(v2), expr_type: expr_type.duplicate() })
            },
        },
        Expression::UnaryOp { operator, target, expr_type } => {
            let t2 = scope_vars_expression(target, bs, scope_level)?;
            Ok(Expression::UnaryOp { operator: operator.clone(), target: Box::new(t2), expr_type: expr_type.duplicate() })
        },
        Expression::BinaryOp { operator, left, right, expr_type } => {
            let l2 = scope_vars_expression(left, bs, scope_level)?;
            let r2 = scope_vars_expression(right, bs, scope_level)?;
            Ok(Expression::BinaryOp {
                operator: operator.clone(),
                left: Box::new(l2),
                right: Box::new(r2),
                expr_type: expr_type.duplicate(),
            })
        },
        Expression::BlockExpression { items, expr_type } => {
            proof {
                assert(decreases_to!(*expression => *items));
            }
            let items2 = scope_vars_nested(items, bs, scope_level)?;
            Ok(Expression::BlockExpression { items: items2, expr_type: expr_type.duplicate() })
        },
        Expression::Int32Constant { .. } => Ok(expression.duplicate()),
    }
}

fn scope_vars_statement(statement: &Statement, bs: &mut Vec<Binding>, scope_level: u32) -> (r: Result<Statement, ScopeError>)
    ensures
        final(bs)@ == old(bs)@,
        match r {
            Ok(s) => spec_scope_statement(statement@, scope_level as nat, bindings_view(old(bs)@))
                == Ok::<SpecStatement, SpecScopeError>(s@),
            Err(x) => spec_scope_statement(statement@, scope_level as nat, bindings_view(old(bs)@))
                == Err::<SpecStatement, SpecScopeError>(x@),
        },
    decreases statement, 0int,
{
    match statement {
        Statement::Expression { expression } => {
            let e2 = scope_vars_expression(expression, bs, scope_level)?;
            Ok(Statement::Expression { expression: Box::new(e2) })
        },
        Statement::Block { items } => {
            proof {
                assert(decreases_to!(*statement => *items));
            }
            let items2 = scope_vars_nested(items, bs, scope_level)?;
            Ok(Statement::Block { items: items2 })
        },
        Statement::Return { value } => match value {
            Some(v) => {
                let v2 = scope_vars_expression(v, bs, scope_level)?;
                Ok(Statement::Return { value: Some(Box::new(v2)) })
            },
            None => Ok(Statement::Return { value: None }),
        },
        Statement::Yield { value } => match value {
            Some(v) => {
                let v2 = scope_vars_expression(v, bs, scope_level)?;
                Ok(Statement::Yield { value: Some(Box::new(v2)) })
            },
            None => Ok(Statement::Yield { value: None }),
        },
    }
}

/// A nested block, one scope level deeper.
fn scope_vars_nested(block_items: &Vec<BlockItem>, bs: &mut Vec<Binding>, scope_level: u32) -> (r: Result<Vec<BlockItem>, ScopeError>)
    ensures
        final(bs)@ == old(bs)@,
        match r {
            Ok(items) => spec_scope_nested(items_view(block_items@), scope_level as nat, bindings_view(old(bs)@))
                == Ok::<Seq<SpecBlockItem>, SpecScopeError>(items_view(items@)),
            Err(x) => spec_scope_nested(items_view(block_items@), scope_level as nat, bindings_view(old(bs)@))
                == Err::<Seq<SpecBlockItem>, SpecScopeError>(x@),
        },
    decreases *block_items, 1int,
{
    if scope_level == u32::MAX {
        return Err(ScopeError::NestingTooDeep);
    }
    scope_vars_block(block_items, scope_level + 1, bs)
}

/// The name given to a variable declared at `scope_level`.
fn make_alias(name: &String, scope_level: u32) -> (r: String)
    ensures
        r@ == spec_alias(name@, scope_level as nat),
{
    let mut alias = name.clone();
    alias.append(":");
    push_decimal(&mut alias, scope_level as u64);
    alias
}

fn scope_vars_block(block_items: &Vec<BlockItem>, scope_level: u32, bs: &mut Vec<Binding>) -> (r: Result<Vec<BlockItem>, ScopeError>)
    ensures
        final(bs)@ == old(bs)@,
        match r {
            Ok(items) => spec_scope_items(items_view(block_items@), scope_level as nat, bindings_view(old(bs)@))
                == Ok::<Seq<SpecBlockItem>, SpecScopeError>(items_view(items@)),
            Err(x) => spec_scope_items(items_view(block_items@), scope_level as nat, bindings_view(old(bs)@))
                == Err::<Seq<SpecBlockItem>, SpecScopeError>(x@),
        },
    decreases *block_items, 0int,
{
    let ghost iv = items_view(block_items@);
    let ghost bs0 = bs@;
    let base = bs.len();
    let mut out: Vec<BlockItem> = Vec::new();
    proof {
        lemma_items_view(block_items@);
        assert(iv.skip(0) == iv);
        assert(items_view(out@) =~= Seq::<SpecBlockItem>::empty());
    }
    let mut i: usize = 0;
    while i < block_items.len()
        invariant
            i <= block_items@.len(),
            iv == items_view(block_items@),
            iv.len() == block_items@.len(),
            bs0 == old(bs)@,
            base == bs0.len(),
            bs@.len() >= base,
            bs@.subrange(0, base as int) == bs0,
            forall|j: int| 0 <= j < block_items@.len() ==> #[trigger] iv[j] == crate::parsing::item_view(block_items@[j]),
            match spec_scope_items(iv.skip(i as int), scope_level as nat, bindings_view(bs@)) {
                Ok(rest) => spec_scope_items(iv, scope_level as nat, bindings_view(bs0))
                    == Ok::<Seq<SpecBlockItem>, SpecScopeError>(items_view(out@) + rest),
                Err(x) => spec_scope_items(iv, scope_level as nat, bindings_view(bs0))
                    == Err::<Seq<SpecBlockItem>, SpecScopeError>(x),
            },
        decreases block_items@.len() - i,
    {
        proof {
            assert(decreases_to!(*block_items => block_items@[i as int]));
            assert(iv.skip(i as int).drop_first() == iv.skip(i + 1));
            assert(iv.skip(i as int)[0] == iv[i as int]);
        }
        let ghost before_out = items_view(out@);
        let ghost old_out = out@;
        let ghost bs_before = bs@;
        match &block_items[i] {
            BlockItem::VarDeclaration(var_declaration) => {
                let alias = make_alias(&var_declaration.name, scope_level);
                bs.push(Binding { name: var_declaration.name.clone(), alias: alias.clone() });
                let init_value = match &var_declaration.init_value {
                    Some(e) => Some(e.duplicate()),
                    None => None,
                };
                let item = BlockItem::VarDeclaration(VarDeclaration {
                    name: alias,
                    init_value,
                    var_type: var_declaration.var_type.duplicate(),
                });
                out.push(item);
                proof {
                    crate::parsing::lemma_items_view_push(old_out, item);
                    assert(items_view(out@) =~= before_out.push(item@));
                    assert(bindings_view(bs@) =~= bindings_view(bs_before).push((var_declaration.name@, alias@)));
                    assert(bs@.subrange(0, base as int) =~= bs0);
                    match spec_scope_items(iv.skip(i + 1), scope_level as nat, bindings_view(bs@)) {
                        Ok(rest) => {
                            assert(items_view(out@) + rest =~= before_out + (seq![item@] + rest));
                        },
                        Err(x) => {},
                    }
                }
            },
            BlockItem::Statement(statement) => {
                let s2 = scope_vars_statement(statement, bs, scope_level);
                match s2 {
                    Err(x) => {
                        bs.truncate(base);
                        proof {
                            assert(bs@ =~= bs0);
                        }
                        return Err(x);
                    },
                    Ok(s2) => {
                        let item = BlockItem::Statement(s2);
                        out.push(item);
                        proof {
                            crate::parsing::lemma_items_view_push(old_out, item);
                            assert(items_view(out@) =~= before_out.push(item@));
                            match spec_scope_items(iv.skip(i + 1), scope_level as nat, bindings_view(bs@)) {
                                Ok(rest) => {
                                    assert(items_view(out@) + rest =~= before_out + (seq![item@] + rest));
                                },
                                Err(x) => {},
                            }
                        }
                    },
                }
            },
        }
        i = i + 1;
    }
    bs.truncate(base);
    proof {
        assert(bs@ =~= bs0);
        assert(iv.skip(i as int) =~= Seq::<SpecBlockItem>::empty());
        assert(items_view(out@) + Seq::<SpecBlockItem>::empty() =~= items_view(out@));
    }
    Ok(out)
}


/// Renames the variables of every function after their scope levels: a declaration of `x`
/// at scope level `l` becomes `x:l`, and each use takes the name of the innermost declaration
/// in scope. On error the program is left as it was.
pub fn scope_vars(ast: &mut Program) -> (r: Result<(), ScopeError>)
    ensures
        match r {
            Ok(()) => spec_scope_functions(old(ast)@.body) == Ok::<Seq<SpecFunction>, SpecScopeError>(final(ast)@.body),
            Err(x) => spec_scope_functions(old(ast)@.body) == Err::<Seq<SpecFunction>, SpecScopeError>(x@)
                && final(ast)@ == old(ast)@,
        },
{
    let ghost fv = ast@.body;
    let mut out: Vec<Function> = Vec::new();
    let mut i: usize = 0;
    proof {
        assert(fv.skip(0) == fv);
        assert(functions_view(out@) =~= Seq::<SpecFunction>::empty());
    }
    while i < ast.body.len()
        invariant
            i <= ast.body@.len(),
            *ast == *old(ast),
            fv == functions_view(ast.body@),
            fv.len() == ast.body@.len(),
            match spec_scope_functions(fv.skip(i as int)) {
                Ok(rest) => spec_scope_functions(fv) == Ok::<Seq<SpecFunction>, SpecScopeError>(functions_view(out@) + rest),
                Err(x) => spec_scope_functions(fv) == Err::<Seq<SpecFunction>, SpecScopeError>(x),
            },
        decreases ast.body@.len() - i,
    {
        let func = &ast.body[i];
        proof {
            assert(fv[i as int] == crate::parsing::function_view(ast.body@[i as int]));
            assert(fv.skip(i as int).drop_first() == fv.skip(i + 1));
            assert(fv.skip(i as int)[0] == fv[i as int]);
        }
        let mut bs: Vec<Binding> = Vec::new();
        proof {
            assert(bindings_view(bs@) =~= Seq::<(Seq<char>, Seq<char>)>::empty());
        }
        let body = scope_vars_block(&func.body, 0, &mut bs)?;
        let f2 = Function { name: func.name.clone(), body, func_type: func.func_type.duplicate() };
        let ghost before = out@;
        out.push(f2);
        proof {
            assert(functions_view(out@) =~= functions_view(before).push(f2@));
            match spec_scope_functions(fv.skip(i + 1)) {
                Ok(rest) => {
                    assert(functions_view(out@) + rest =~= functions_view(before) + (seq![f2@] + rest));
                },
                Err(x) => {},
            }
        }
        i = i + 1;
    }
    proof {
        assert(fv.skip(i as int) =~= Seq::<SpecFunction>::empty());
        assert(functions_view(out@) + Seq::<SpecFunction>::empty() =~= functions_view(out@));
    }
    ast.body = out;
    Ok(())
}

} // verus!
