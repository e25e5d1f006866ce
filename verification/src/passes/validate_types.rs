use vstd::prelude::*;
use crate::typing::Type;
use crate::parsing::{
    BlockItem, Expression, Program, Statement, SpecBlockItem, SpecStatement, SpecFunction, items_view,
    lemma_items_view, functions_view,
};

verus! {

/// Why a program's values do not fit where they stand.
#[derive(Debug)]
pub enum TypeCheckError {
    /// The named function does not have a function type.
    IllegalFunctionType(String),
    /// A `return` gives no value where the function returns one.
    MissingReturnValue,
    /// A `return` gives a value where none is returned.
    UnexpectedReturnValue,
    /// A `yield` gives no value where the block yields one.
    MissingYieldValue,
    /// A `yield` gives a value where no block yields one.
    UnexpectedYieldValue,
}

pub enum SpecTypeCheckError {
    IllegalFunctionType(Seq<char>),
    MissingReturnValue,
    UnexpectedReturnValue,
    MissingYieldValue,
    UnexpectedYieldValue,
}

impl View for TypeCheckError {
    type V = SpecTypeCheckError;

    open spec fn view(&self) -> SpecTypeCheckError {
        match self {
            TypeCheckError::IllegalFunctionType(name) => SpecTypeCheckError::IllegalFunctionType(name@),
            TypeCheckError::MissingReturnValue => SpecTypeCheckError::MissingReturnValue,
            TypeCheckError::UnexpectedReturnValue => SpecTypeCheckError::UnexpectedReturnValue,
            TypeCheckError::MissingYieldValue => SpecTypeCheckError::MissingYieldValue,
            TypeCheckError::UnexpectedYieldValue => SpecTypeCheckError::UnexpectedYieldValue,
        }
    }
}

/// The first misplaced value among `items`, where `has_return` and `has_yield` tell whether a
/// `return` and a `yield` must give a value. Blocks nested in statements yield nothing.
pub open spec fn spec_check_block(items: Seq<SpecBlockItem>, has_return: bool, has_yield: bool) -> Result<(), SpecTypeCheckError>
    decreases items,
{
    if items.len() == 0 {
        Ok(())
    } else {
        match items[0] {
            SpecBlockItem::Statement(s) => match spec_check_statement(s, has_return, has_yield) {
                Err(e) => Err(e),
                Ok(()) => spec_check_block(items.drop_first(), has_return, has_yield),
            },
            SpecBlockItem::VarDeclaration(_) => spec_check_block(items.drop_first(), has_return, has_yield),
        }
    }
}

pub open spec fn spec_check_statement(s: SpecStatement, has_return: bool, has_yield: bool) -> Result<(), SpecTypeCheckError>
    decreases s,
{
    match s {
        SpecStatement::Expression { .. } => Ok(()),
        SpecStatement::Yield { value } => if has_yield {
            if value is Some {
                Ok(())
            } else {
                Err(SpecTypeCheckError::MissingYieldValue)
            }
        } else if value is Some {
            Err(SpecTypeCheckError::UnexpectedYieldValue)
        } else {
            Ok(())
        },
        SpecStatement::Return { value } => if has_return {
            if value is Some {
                Ok(())
            } else {
                Err(SpecTypeCheckError::MissingReturnValue)
            }
        } else if value is Some {
            Err(SpecTypeCheckError::UnexpectedReturnValue)
        } else {
            Ok(())
        },
        SpecStatement::Block { items } => spec_check_block(items, has_return, false),
    }
}

/// The check of a program's functions, from the first on.
pub open spec fn spec_validate_types(fs: Seq<SpecFunction>) -> Result<(), SpecTypeCheckError>
    decreases fs.len(),
{
    if fs.len() == 0 {
        Ok(())
    } else if !(fs[0].func_type is FuncType) {
        Err(SpecTypeCheckError::IllegalFunctionType(fs[0].name))
    } else {
        match spec_check_block(fs[0].body, true, false) {
            Err(e) => Err(e),
            Ok(()) => spec_validate_types(fs.drop_first()),
        }
    }
}

fn validate_types_block(block_items: &Vec<BlockItem>, return_type: Option<&Type>, yield_type: Option<&Type>) -> (r: Result<(), TypeCheckError>)
    ensures
        match r {
            Ok(()) => spec_check_block(items_view(block_items@), return_type is Some, yield_type is Some)
                == Ok::<(), SpecTypeCheckError>(()),
            Err(e) => spec_check_block(items_view(block_items@), return_type is Some, yield_type is Some)
                == Err::<(), SpecTypeCheckError>(e@),
        },
    decreases *block_items, 1int,
{
    let ghost iv = items_view(block_items@);
    let ghost has_return = return_type is Some;
    let ghost has_yield = yield_type is Some;
    proof {
        lemma_items_view(block_items@);
        assert(iv.skip(0) == iv);
    }
    let mut i: usize = 0;
    while i < block_items.len()
        invariant
            i <= block_items@.len(),
            iv == items_view(block_items@),
            iv.len() == block_items@.len(),
            has_return == return_type is Some,
            has_yield == yield_type is Some,
            forall|j: int| 0 <= j < block_items@.len() ==> #[trigger] iv[j] == crate::parsing::item_view(block_items@[j]),
            spec_check_block(iv, has_return, has_yield) == spec_check_block(iv.skip(i as int), has_return, has_yield),
        decreases block_items@.len() - i,
    {
        proof {
            assert(decreases_to!(*block_items => block_items@[i as int]));
            assert(iv.skip(i as int).drop_first() == iv.skip(i + 1));
            assert(iv.skip(i as int)[0] == iv[i as int]);
        }
        match &block_items[i] {
            BlockItem::Statement(statement) => {
                validate_types_statement(statement, return_type, yield_type)?;
            },
            BlockItem::VarDeclaration(var_definition) => {
                if let Some(expr) = &var_definition.init_value {
                    validate_types_expression(expr, return_type, &var_definition.var_type);
                }
            },
        }
        i = i + 1;
    }
    proof {
        assert(iv.skip(i as int).len() == 0);
    }
    Ok(())
}

fn validate_types_statement(statement: &Statement, return_type: Option<&Type>, yield_type: Option<&Type>) -> (r: Result<(), TypeCheckError>)
    ensures
        match r {
            Ok(()) => spec_check_statement(statement@, return_type is Some, yield_type is Some)
                == Ok::<(), SpecTypeCheckError>(()),
            Err(e) => spec_check_statement(statement@, return_type is Some, yield_type is Some)
                == Err::<(), SpecTypeCheckError>(e@),
        },
    decreases statement, 0int,
{
    match statement {
        Statement::Expression { expression } => {
            validate_types_expression(expression, return_type, &Type::Any);
            Ok(())
        },
        Statement::Yield { value } => {
            if let Some(expected) = yield_type {
                if let Some(expression) = value {
                    validate_types_expression(expression, return_type, expected);
                    Ok(())
                } else {
                    Err(TypeCheckError::MissingYieldValue)
                }
            } else if value.is_some() {
                Err(TypeCheckError::UnexpectedYieldValue)
            } else {
                Ok(())
            }
        },
        Statement::Return { value } => {
            if let Some(expected) = return_type {
                if let Some(expression) = value {
                    validate_types_expression(expression, return_type, expected);
                    Ok(())
                } else {
                    Err(TypeCheckError::MissingReturnValue)
                }
            } else if value.is_some() {
                Err(TypeCheckError::UnexpectedReturnValue)
            } else {
                Ok(())
            }
        },
        Statement::Block { items } => {
            proof {
                assert(decreases_to!(*statement => *items));
            }
            validate_types_block(items, return_type, None)
        },
    }
}

/// Expressions are not checked against the type expected of them: every expression passes.
fn validate_types_expression(_expression: &Expression, _return_type: Option<&Type>, _expected_type: &Type) {
}

/// Checks that every function has a function type, that each `return` gives a value, and
/// that no `yield` outside a yielding block gives one; the error is the first misplacement.
pub fn validate_types(ast: &mut Program) -> (r: Result<(), TypeCheckError>)
    ensures
        final(ast)@ == old(ast)@,
        match r {
            Ok(()) => spec_validate_types(old(ast)@.body) == Ok::<(), SpecTypeCheckError>(()),
            Err(e) => spec_validate_types(old(ast)@.body) == Err::<(), SpecTypeCheckError>(e@),
        },
{
    let ghost fv = ast@.body;
    let mut i: usize = 0;
    proof {
        assert(fv.skip(0) == fv);
    }
    while i < ast.body.len()
        invariant
            i <= ast.body@.len(),
            *ast == *old(ast),
            fv == functions_view(ast.body@),
            fv.len() == ast.body@.len(),
            spec_validate_types(fv) == spec_validate_types(fv.skip(i as int)),
        decreases ast.body@.len() - i,
    {
        let func = &ast.body[i];
        proof {
            assert(fv[i as int] == crate::parsing::function_view(ast.body@[i as int]));
            assert(fv.skip(i as int).drop_first() == fv.skip(i + 1));
            assert(fv.skip(i as int)[0] == fv[i as int]);
        }
        if let Type::FuncType { return_type, .. } = &func.func_type {
            validate_types_block(&func.body, Some(&**return_type), None)?;
        } else {
            return Err(TypeCheckError::IllegalFunctionType(func.name.clone()));
        }
        i = i + 1;
    }
    proof {
        assert(fv.skip(i as int).len() == 0);
    }
    Ok(())
}

} // verus!
