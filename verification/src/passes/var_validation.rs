use vstd::prelude::*;
use crate::text::str_eq;
use crate::parsing::{
    BlockItem, Expression, Program, Statement, SpecBlockItem, SpecExpr, SpecStatement, SpecFunction, items_view,
    lemma_items_view, functions_view,
};

verus! {

/// Why a program's variables are misused.
#[derive(Debug)]
pub enum VarError {
    /// The named variable is used where it is not defined.
    UsedBeforeDefinition(String),
    /// The named variable is defined twice in one scope.
    DuplicateVariable(String),
}

pub enum SpecVarError {
    UsedBeforeDefinition(Seq<char>),
    DuplicateVariable(Seq<char>),
}

impl View for VarError {
    type V = SpecVarError;

    open spec fn view(&self) -> SpecVarError {
        match self {
            VarError::UsedBeforeDefinition(name) => SpecVarError::UsedBeforeDefinition(name@),
            VarError::DuplicateVariable(name) => SpecVarError::DuplicateVariable(name@),
        }
    }
}

/// The names that a list of strings holds.
pub open spec fn name_set(names: Seq<String>) -> Set<Seq<char>> {
    Set::new(|n: Seq<char>| exists|i: int| 0 <= i < names.len() && #[trigger] names[i]@ == n)
}

/// The check of the items of a block, given the variables defined around it and those the
/// block has defined so far; the result is both sets after the items.
pub open spec fn spec_vars_items(items: Seq<SpecBlockItem>, vars: Set<Seq<char>>, defined: Set<Seq<char>>) -> Result<(Set<Seq<char>>, Set<Seq<char>>), SpecVarError>
    decreases items, 0int,
{
    if items.len() == 0 {
        Ok((vars, defined))
    } else {
        match items[0] {
            SpecBlockItem::VarDeclaration(d) => if !vars.contains(d.name) {
                if defined.contains(d.name) {
                    Err(SpecVarError::DuplicateVariable(d.name))
                } else {
                    spec_vars_items(items.drop_first(), vars.insert(d.name), defined.insert(d.name))
                }
            } else {
                spec_vars_items(items.drop_first(), vars, defined)
            },
            SpecBlockItem::Statement(s) => match spec_vars_statement(s, vars) {
                Err(e) => Err(e),
                Ok(v) => spec_vars_items(items.drop_first(), v, defined),
            },
        }
    }
}

/// The check of a block: its items, after which the variables it defined go out of scope.
pub open spec fn spec_vars_block(items: Seq<SpecBlockItem>, vars: Set<Seq<char>>) -> Result<Set<Seq<char>>, SpecVarError>
    decreases items, 1int,
{
    match spec_vars_items(items, vars, Set::empty()) {
        Err(e) => Err(e),
        Ok((v, defined)) => Ok(v.difference(defined)),
    }
}

pub open spec fn spec_vars_statement(s: SpecStatement, vars: Set<Seq<char>>) -> Result<Set<Seq<char>>, SpecVarError>
    decreases s, 0int,
{
    match s {
        SpecStatement::Expression { expression } => spec_vars_expression(expression, vars),
        SpecStatement::Block { items } => spec_vars_block(items, vars),
        SpecStatement::Return { value } => match value {
            Some(e) => spec_vars_expression(e, vars),
            None => Ok(vars),
        },
        SpecStatement::Yield { value } => match value {
            Some(e) => spec_vars_expression(e, vars),
            None => Ok(vars),
        },
    }
}

/// The check of an expression: every variable it reads, and every variable it assigns
/// (whose assigned value is not looked into), is defined.
pub open spec fn spec_vars_expression(e: SpecExpr, vars: Set<Seq<char>>) -> Result<Set<Seq<char>>, SpecVarError>
    decreases e, 0int,
{
    match e {
        SpecExpr::Var { name, .. } => if vars.contains(name) {
            Ok(vars)
        } else {
            Err(SpecVarError::UsedBeforeDefinition(name))
        },
        SpecExpr::VarAssignment { name, .. } => if vars.contains(name) {
            Ok(vars)
        } else {
            Err(SpecVarError::UsedBeforeDefinition(name))
        },
        SpecExpr::BinaryOp { left, right, .. } => match spec_vars_expression(*left, vars) {
            Err(e) => Err(e),
            Ok(v) => spec_vars_expression(*right, v),
        },
        SpecExpr::UnaryOp { target, .. } => spec_vars_expression(*target, vars),
        SpecExpr::BlockExpression { items, .. } => spec_vars_block(items, vars),
        SpecExpr::Int32Constant { .. } => Ok(vars),
    }
}

/// The check of a program's functions, each from no variables, from the first on.
pub open spec fn spec_validate_vars(fs: Seq<SpecFunction>) -> Result<(), SpecVarError>
    decreases fs.len(),
{
    if fs.len() == 0 {
        Ok(())
    } else {
        match spec_vars_block(fs[0].body, Set::empty()) {
            Err(e) => Err(e),
            Ok(_) => spec_validate_vars(fs.drop_first()),
        }
    }
}

/// The names an expression reads or assigns outside the blocks nested in it; the value given
/// to an assigned variable is not counted.
pub open spec fn names_used(e: SpecExpr) -> Set<Seq<char>>
    decreases e,
{
    match e {
        SpecExpr::Var { name, .. } => set![name],
        SpecExpr::VarAssignment { name, .. } => set![name],
        SpecExpr::UnaryOp { target, .. } => names_used(*target),
        SpecExpr::BinaryOp { left, right, .. } => names_used(*left).union(names_used(*right)),
        _ => Set::empty(),
    }
}

/// An expression passes the check only if every variable it reads or assigns outside its
/// nested blocks, in both operands of every binary operation, is in scope.
pub proof fn law_checked_names_in_scope(e: SpecExpr, vars: Set<Seq<char>>)
    ensures
        spec_vars_expression(e, vars) is Ok ==> names_used(e).subset_of(vars),
    decreases e,
{
    match e {
        SpecExpr::UnaryOp { target, .. } => law_checked_names_in_scope(*target, vars),
        SpecExpr::BinaryOp { left, right, .. } => {
            law_checked_names_in_scope(*left, vars);
            lemma_vars_expression_keeps_scope(*left, vars);
            law_checked_names_in_scope(*right, vars);
        },
        _ => {},
    }
}

/// Whether an expression holds no block expression.
pub open spec fn without_blocks(e: SpecExpr) -> bool
    decreases e,
{
    match e {
        SpecExpr::UnaryOp { target, .. } => without_blocks(*target),
        SpecExpr::BinaryOp { left, right, .. } => without_blocks(*left) && without_blocks(*right),
        SpecExpr::BlockExpression { .. } => false,
        _ => true,
    }
}

/// An expression without blocks passes the check, leaving the scope as it was, when every
/// variable it reads or assigns is in scope.
pub proof fn law_names_in_scope_pass(e: SpecExpr, vars: Set<Seq<char>>)
    requires
        without_blocks(e),
        names_used(e).subset_of(vars),
    ensures
        spec_vars_expression(e, vars) == Ok::<Set<Seq<char>>, SpecVarError>(vars),
    decreases e,
{
    match e {
        SpecExpr::Var { name, .. } => assert(names_used(e).contains(name)),
        SpecExpr::VarAssignment { name, .. } => assert(names_used(e).contains(name)),
        SpecExpr::UnaryOp { target, .. } => law_names_in_scope_pass(*target, vars),
        SpecExpr::BinaryOp { left, right, .. } => {
            law_names_in_scope_pass(*left, vars);
            law_names_in_scope_pass(*right, vars);
        },
        _ => {},
    }
}

/// A block's declarations go out of scope at its end: once a block has been checked, the
/// variables in scope are again those before it.
pub proof fn law_block_scope_restored(items: Seq<SpecBlockItem>, vars: Set<Seq<char>>)
    ensures
        spec_vars_block(items, vars) matches Ok(v) ==> v == vars,
    decreases items, 1int,
{
    lemma_vars_items(items, vars, Set::empty());
    if let Ok((v, d)) = spec_vars_items(items, vars, Set::empty()) {
        assert(v.difference(d) =~= vars);
    }
}

/// Checking items adds to the scope exactly the names they newly define.
proof fn lemma_vars_items(items: Seq<SpecBlockItem>, vars: Set<Seq<char>>, defined: Set<Seq<char>>)
    ensures
        spec_vars_items(items, vars, defined) matches Ok((v, d)) ==> {
            &&& defined.subset_of(d)
            &&& v == vars.union(d.difference(defined))
            &&& vars.disjoint(d.difference(defined))
        },
    decreases items, 0int,
{
    if items.len() > 0 {
        match items[0] {
            SpecBlockItem::VarDeclaration(decl) => {
                if !vars.contains(decl.name) {
                    if !defined.contains(decl.name) {
                        let vars2 = vars.insert(decl.name);
                        let defined2 = defined.insert(decl.name);
                        lemma_vars_items(items.drop_first(), vars2, defined2);
                        if let Ok((v, d)) = spec_vars_items(items.drop_first(), vars2, defined2) {
                            assert(d.difference(defined) =~= d.difference(defined2).insert(decl.name));
                            assert(v =~= vars.union(d.difference(defined)));
                        }
                    }
                } else {
                    lemma_vars_items(items.drop_first(), vars, defined);
                }
            },
            SpecBlockItem::Statement(st) => {
                lemma_vars_statement_keeps_scope(st, vars);
                if let Ok(v) = spec_vars_statement(st, vars) {
                    lemma_vars_items(items.drop_first(), v, defined);
                }
            },
        }
    }
}

pub proof fn lemma_vars_statement_keeps_scope(st: SpecStatement, vars: Set<Seq<char>>)
    ensures
        spec_vars_statement(st, vars) matches Ok(v) ==> v == vars,
    decreases st, 0int,
{
    match st {
        SpecStatement::Expression { expression } => lemma_vars_expression_keeps_scope(expression, vars),
        SpecStatement::Block { items } => law_block_scope_restored(items, vars),
        SpecStatement::Return { value } => if let Some(e) = value {
            lemma_vars_expression_keeps_scope(e, vars);
        },
        SpecStatement::Yield { value } => if let Some(e) = value {
            lemma_vars_expression_keeps_scope(e, vars);
        },
    }
}

pub proof fn lemma_vars_expression_keeps_scope(e: SpecExpr, vars: Set<Seq<char>>)
    ensures
        spec_vars_expression(e, vars) matches Ok(v) ==> v == vars,
    decreases e, 0int,
{
    match e {
        SpecExpr::BinaryOp { left, right, .. } => {
            lemma_vars_expression_keeps_scope(*left, vars);
            lemma_vars_expression_keeps_scope(*right, vars);
        },
        SpecExpr::UnaryOp { target, .. } => lemma_vars_expression_keeps_scope(*target, vars),
        SpecExpr::BlockExpression { items, .. } => law_block_scope_restored(items, vars),
        _ => {},
    }
}

fn contains_name(names: &Vec<String>, name: &String) -> (r: bool)
    ensures
        r == name_set(names@).contains(name@),
{
    let mut i: usize = 0;
    while i < names.len()
        invariant
            i <= names@.len(),
            forall|j: int| 0 <= j < i ==> names@[j]@ != name@,
        decreases names@.len() - i,
    {
        if str_eq(names[i].as_str(), name.as_str()) {
            assert(names@[i as int]@ == name@);
            return true;
        }
        i = i + 1;
    }
    false
}

fn push_name(names: &mut Vec<String>, name: &String)
    ensures
        name_set(final(names)@) == name_set(old(names)@).insert(name@),
{
    let ghost before = names@;
    names.push(name.clone());
    proof {
        assert forall|n: Seq<char>| #[trigger] name_set(names@).contains(n) == name_set(before).insert(name@).contains(n) by {
            if name_set(before).contains(n) {
                let i = choose|i: int| 0 <= i < before.len() && #[trigger] before[i]@ == n;
                assert(names@[i] == before[i]);
            }
            if name_set(names@).contains(n) && n != name@ {
                let i = choose|i: int| 0 <= i < names@.len() && #[trigger] names@[i]@ == n;
                assert(names@[i] == before[i]);
            }
            if n == name@ {
                assert(names@[before.len() as int]@ == n);
            }
        }
        assert(name_set(names@) =~= name_set(before).insert(name@));
    }
}

/// Keeps the names of `vars` that are not in `to_remove`.
fn remove_names(vars: &mut Vec<String>, to_remove: &Vec<String>)
    ensures
        name_set(final(vars)@) == name_set(old(vars)@).difference(name_set(to_remove@)),
{
    let mut kept: Vec<String> = Vec::new();
    let mut i: usize = 0;
    while i < vars.len()
        invariant
            i <= vars@.len(),
            *vars == *old(vars),
            forall|n: Seq<char>| #[trigger] name_set(kept@).contains(n) <==>
                (name_set(vars@.take(i as int)).contains(n) && !name_set(to_remove@).contains(n)),
        decreases vars@.len() - i,
    {
        let ghost before = kept@;
        if !contains_name(to_remove, &vars[i]) {
            push_name(&mut kept, &vars[i]);
        }
        proof {
            assert forall|n: Seq<char>| #[trigger] name_set(vars@.take(i + 1)).contains(n) <==>
                (name_set(vars@.take(i as int)).contains(n) || n == vars@[i as int]@) by {
                if name_set(vars@.take(i + 1)).contains(n) {
                    let k = choose|k: int| 0 <= k < i + 1 && #[trigger] vars@.take(i + 1)[k]@ == n;
                    if k < i {
                        assert(vars@.take(i as int)[k] == vars@.take(i + 1)[k]);
                    }
                }
                if name_set(vars@.take(i as int)).contains(n) {
                    let k = choose|k: int| 0 <= k < i && #[trigger] vars@.take(i as int)[k]@ == n;
                    assert(vars@.take(i + 1)[k] == vars@.take(i as int)[k]);
                }
                if n == vars@[i as int]@ {
                    assert(vars@.take(i + 1)[i as int] == vars@[i as int]);
                }
            }
        }
        i = i + 1;
    }
    proof {
        assert(vars@.take(vars@.len() as int) == vars@);
        assert(name_set(kept@) =~= name_set(vars@).difference(name_set(to_remove@)));
    }
    *vars = kept;
}


fn validate_vars_block(block_items: &Vec<BlockItem>, vars: &mut Vec<String>) -> (r: Result<(), VarError>)
    ensures
        match r {
            Ok(()) => spec_vars_block(items_view(block_items@), name_set(old(vars)@))
                == Ok::<Set<Seq<char>>, SpecVarError>(name_set(final(vars)@)),
            Err(e) => spec_vars_block(items_view(block_items@), name_set(old(vars)@))
                == Err::<Set<Seq<char>>, SpecVarError>(e@),
        },
    decreases *block_items, 1int,
{
    let ghost iv = items_view(block_items@);
    let ghost v0 = name_set(vars@);
    let mut to_remove: Vec<String> = Vec::new();
    proof {
        lemma_items_view(block_items@);
        assert(iv.skip(0) == iv);
        assert(name_set(to_remove@) =~= Set::<Seq<char>>::empty());
    }
    let mut i: usize = 0;
    while i < block_items.len()
        invariant
            i <= block_items@.len(),
            iv == items_view(block_items@),
            iv.len() == block_items@.len(),
            v0 == name_set(old(vars)@),
            forall|j: int| 0 <= j < block_items@.len() ==> #[trigger] iv[j] == crate::parsing::item_view(block_items@[j]),
            spec_vars_items(iv, v0, Set::empty())
                == spec_vars_items(iv.skip(i as int), name_set(vars@), name_set(to_remove@)),
        decreases block_items@.len() - i,
    {
        proof {
            assert(decreases_to!(*block_items => block_items@[i as int]));
            assert(iv.skip(i as int).drop_first() == iv.skip(i + 1));
            assert(iv.skip(i as int)[0] == iv[i as int]);
        }
        match &block_items[i] {
            BlockItem::VarDeclaration(var_declaration) => {
                if !contains_name(vars, &var_declaration.name) {
                    if contains_name(&to_remove, &var_declaration.name) {
                        return Err(VarError::DuplicateVariable(var_declaration.name.clone()));
                    }
                    push_name(vars, &var_declaration.name);
                    push_name(&mut to_remove, &var_declaration.name);
                }
            },
            BlockItem::Statement(statement) => {
                validate_vars_statement(statement, vars)?;
            },
        }
        i = i + 1;
    }
    proof {
        assert(iv.skip(i as int).len() == 0);
    }
    remove_names(vars, &to_remove);
    Ok(())
}

fn validate_vars_statement(statement: &Statement, vars: &mut Vec<String>) -> (r: Result<(), VarError>)
    ensures
        match r {
            Ok(()) => spec_vars_statement(statement@, name_set(old(vars)@))
                == Ok::<Set<Seq<char>>, SpecVarError>(name_set(final(vars)@)),
            Err(e) => spec_vars_statement(statement@, name_set(old(vars)@))
                == Err::<Set<Seq<char>>, SpecVarError>(e@),
        },
    decreases statement, 0int,
{
    match statement {
        Statement::Expression { expression } => validate_vars_expression(expression, vars),
        Statement::Block { items } => {
            proof {
                assert(decreases_to!(*statement => *items));
            }
            validate_vars_block(items, vars)
        },
        Statement::Return { value } | Statement::Yield { value } => match value {
            Some(expr) => validate_vars_expression(expr, vars),
            None => Ok(()),
        },
    }
}

fn validate_vars_expression(expression: &Expression, vars: &mut Vec<String>) -> (r: Result<(), VarError>)
    ensures
        match r {
            Ok(()) => spec_vars_expression(expression@, name_set(old(vars)@))
                == Ok::<Set<Seq<char>>, SpecVarError>(name_set(final(vars)@)),
            Err(e) => spec_vars_expression(expression@, name_set(old(vars)@))
                == Err::<Set<Seq<char>>, SpecVarError>(e@),
        },
    decreases expression, 0int,
{
    match expression {
        Expression::Var { name, .. } => {
            if !contains_name(vars, name) {
                return Err(VarError::UsedBeforeDefinition(name.clone()));
            }
            Ok(())
        },
        Expression::VarAssignment { name, .. } => {
            if !contains_name(vars, name) {
                return Err(VarError::UsedBeforeDefinition(name.clone()));
            }
            Ok(())
        },
        Expression::BinaryOp { left, right, .. } => {
            validate_vars_expression(left, vars)?;
            validate_vars_expression(right, vars)
        },
        Expression::UnaryOp { target, .. } => validate_vars_expression(target, vars),
        Expression::BlockExpression { items, .. } => {
            proof {
                assert(decreases_to!(*expression => *items));
            }
            validate_vars_block(items, vars)
        },
        Expression::Int32Constant { .. } => Ok(()),
    }
}

/// Checks, function by function, that every variable is defined before it is used and
/// defined once in its scope; the error is the first misuse.
pub fn validate_vars(ast: &Program) -> (r: Result<(), VarError>)
    ensures
        match r {
            Ok(()) => spec_validate_vars(ast@.body) == Ok::<(), SpecVarError>(()),
            Err(e) => spec_validate_vars(ast@.body) == Err::<(), SpecVarError>(e@),
        },
{
    let ghost fv = ast@.body;
    let mut i: usize = 0;
    proof {
        assert(fv.skip(0) == fv);
    }
    while i < ast.body.len()
        invariant
            i <= ast.body@.len(),
            fv == functions_view(ast.body@),
            fv.len() == ast.body@.len(),
            spec_validate_vars(fv) == spec_validate_vars(fv.skip(i as int)),
        decreases ast.body@.len() - i,
    {
        let func = &ast.body[i];
        proof {
            assert(fv[i as int] == crate::parsing::function_view(ast.body@[i as int]));
            assert(fv.skip(i as int).drop_first() == fv.skip(i + 1));
            assert(fv.skip(i as int)[0] == fv[i as int]);
        }
        let mut vars: Vec<String> = Vec::new();
        proof {
            assert(name_set(vars@) =~= Set::<Seq<char>>::empty());
        }
        validate_vars_block(&func.body, &mut vars)?;
        i = i + 1;
    }
    proof {
        assert(fv.skip(i as int).len() == 0);
    }
    Ok(())
}

} // verus!
