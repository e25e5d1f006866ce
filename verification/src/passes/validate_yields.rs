use vstd::prelude::*;
use crate::parsing::{
    BlockItem, Expression, Program, Statement, SpecBlockItem, SpecExpr, SpecStatement, SpecFunction, items_view,
    lemma_items_view, functions_view,
};

verus! {

/// Why a program's yields are misplaced.
#[derive(Debug)]
pub enum YieldError {
    /// A statement of a function's body, outside any block, is a `yield`.
    OutsideBlock,
    /// The body of the named function has no block that ends in a `yield`.
    OutsideBlockInFunction(String),
}

pub enum SpecYieldError {
    OutsideBlock,
    OutsideBlockInFunction(Seq<char>),
}

impl View for YieldError {
    type V = SpecYieldError;

    open spec fn view(&self) -> SpecYieldError {
        match self {
            YieldError::OutsideBlock => SpecYieldError::OutsideBlock,
            YieldError::OutsideBlockInFunction(name) => SpecYieldError::OutsideBlockInFunction(name@),
        }
    }
}

/// The check of the items of a body: `Some(true)` when, inside a block, some statement
/// yields; `None` when, outside any block, some statement does not pass.
pub open spec fn spec_yield_block(items: Seq<SpecBlockItem>, in_block: bool) -> Option<bool>
    decreases items,
{
    if items.len() == 0 {
        Some(false)
    } else {
        let rest = spec_yield_block(items.drop_first(), in_block);
        match items[0] {
            SpecBlockItem::Statement(s) => match spec_yield_statement(s, in_block) {
                None => None,
                Some(v) => if v {
                    if in_block {
                        Some(true)
                    } else {
                        rest
                    }
                } else if !in_block {
                    None
                } else {
                    rest
                },
            },
            SpecBlockItem::VarDeclaration(_) => rest,
        }
    }
}

/// The check of one statement: outside a block, a `return` or an expression passes; inside
/// one, a `yield` does; a block passes when one of its statements yields.
pub open spec fn spec_yield_statement(s: SpecStatement, in_block: bool) -> Option<bool>
    decreases s,
{
    match s {
        SpecStatement::Return { .. } => Some(!in_block),
        SpecStatement::Block { items } => spec_yield_block(items, true),
        SpecStatement::Expression { expression } => match expression {
            SpecExpr::BlockExpression { items, .. } => spec_yield_block(items, true),
            _ => Some(!in_block),
        },
        SpecStatement::Yield { .. } => Some(in_block),
    }
}

/// The result of the check of a program's functions, from the first on.
pub open spec fn spec_validate_yields(fs: Seq<SpecFunction>) -> Result<(), SpecYieldError>
    decreases fs.len(),
{
    if fs.len() == 0 {
        Ok(())
    } else {
        match spec_yield_block(fs[0].body, false) {
            None => Err(SpecYieldError::OutsideBlock),
            Some(false) => Err(SpecYieldError::OutsideBlockInFunction(fs[0].name)),
            Some(true) => spec_validate_yields(fs.drop_first()),
        }
    }
}

/// Outside any block a statement never counts as yielding, so the check of a function's
/// body never finds a yield: every function is rejected, and only a program without
/// functions passes.
pub proof fn law_yields_reject_every_function(fs: Seq<SpecFunction>)
    ensures
        spec_validate_yields(fs) is Ok <==> fs.len() == 0,
{
    if fs.len() > 0 {
        lemma_top_level_never_yields(fs[0].body);
    }
}

proof fn lemma_top_level_never_yields(items: Seq<SpecBlockItem>)
    ensures
        spec_yield_block(items, false) != Some(true),
    decreases items.len(),
{
    if items.len() > 0 {
        lemma_top_level_never_yields(items.drop_first());
    }
}

fn validate_block(block_items: &Vec<BlockItem>, in_block: bool) -> (r: Option<bool>)
    ensures
        r == spec_yield_block(items_view(block_items@), in_block),
    decreases *block_items, 1int,
{
    let ghost iv = items_view(block_items@);
    proof {
        lemma_items_view(block_items@);
        assert(iv.skip(0) == iv);
    }
    let mut i: usize = 0;
    while i < block_items.len()
        invariant
            i <= block_items@.len(),
            iv == items_view(block_items@),
            iv.len() == block_items@.len(),
            forall|j: int| 0 <= j < block_items@.len() ==> #[trigger] iv[j] == crate::parsing::item_view(block_items@[j]),
            spec_yield_block(iv, in_block) == spec_yield_block(iv.skip(i as int), in_block),
        decreases block_items@.len() - i,
    {
        proof {
            assert(decreases_to!(*block_items => block_items@[i as int]));
            assert(iv.skip(i as int).drop_first() == iv.skip(i + 1));
            assert(iv.skip(i as int)[0] == iv[i as int]);
        }
        match &block_items[i] {
            BlockItem::Statement(statement) => {
                match validate_statement(statement, in_block) {
                    None => {
                        return None;
                    },
                    Some(v) => {
                        if v {
                            if in_block {
                                return Some(true);
                            }
                        } else if !in_block {
                            return None;
                        }
                    },
                }
            },
            BlockItem::VarDeclaration(..) => {},
        }
        i = i + 1;
    }
    proof {
        assert(iv.skip(i as int).len() == 0);
    }
    Some(false)
}

fn validate_statement(statement: &Statement, in_block: bool) -> (r: Option<bool>)
    ensures
        r == spec_yield_statement(statement@, in_block),
    decreases statement, 0int,
{
    match statement {
        Statement::Return { .. } => Some(!in_block),
        Statement::Block { items } => {
            proof {
                assert(decreases_to!(*statement => *items));
            }
            validate_block(items, true)
        },
        Statement::Expression { expression } => match &**expression {
            Expression::BlockExpression { items, .. } => {
                proof {
                    assert(decreases_to!(*statement => *items));
                }
                validate_block(items, true)
            },
            _ => Some(!in_block),
        },
        Statement::Yield { .. } => Some(in_block),
    }
}

/// Checks where the functions' bodies yield.
pub fn validate_returns(ast: &Program) -> (r: Result<(), YieldError>)
    ensures
        match r {
            Ok(()) => spec_validate_yields(ast@.body) == Ok::<(), SpecYieldError>(()),
            Err(e) => spec_validate_yields(ast@.body) == Err::<(), SpecYieldError>(e@),
        },
{
    let ghost fv = ast@.body;
    let mut i: usize = 0;
    proof {
        assert(fv.skip(0) == fv);
    }
    while i < ast.body.len()
        invariant
            i <= ast.body@.len(),
            fv == functions_view(ast.body@),
            fv.len() == ast.body@.len(),
            spec_validate_yields(fv) == spec_validate_yields(fv.skip(i as int)),
        decreases ast.body@.len() - i,
    {
        let func = &ast.body[i];
        proof {
            assert(fv[i as int] == crate::parsing::function_view(ast.body@[i as int]));
            assert(fv.skip(i as int).drop_first() == fv.skip(i + 1));
            assert(fv.skip(i as int)[0] == fv[i as int]);
        }
        match validate_block(&func.body, false) {
            None => {
                return Err(YieldError::OutsideBlock);
            },
            Some(false) => {
                return Err(YieldError::OutsideBlockInFunction(func.name.clone()));
            },
            Some(true) => {},
        }
        i = i + 1;
    }
    proof {
        assert(fv.skip(i as int).len() == 0);
    }
    Ok(())
}

} // verus!
