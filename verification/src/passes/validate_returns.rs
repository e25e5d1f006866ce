use vstd::prelude::*;
use crate::parsing::{
    BlockItem, Expression, Program, Statement, SpecBlockItem, SpecExpr, SpecStatement, SpecFunction, items_view,
    lemma_items_view, functions_view,
};

verus! {

/// Whether some statement among `items` returns on every path.
pub open spec fn spec_block_returns(items: Seq<SpecBlockItem>) -> bool
    decreases items,
{
    if items.len() == 0 {
        false
    } else {
        (match items[0] {
            SpecBlockItem::Statement(s) => spec_statement_returns(s),
            SpecBlockItem::VarDeclaration(_) => false,
        }) || spec_block_returns(items.drop_first())
    }
}

/// Whether a statement returns on every path: a `return`, or a block (or block expression)
/// one of whose statements does.
pub open spec fn spec_statement_returns(s: SpecStatement) -> bool
    decreases s,
{
    match s {
        SpecStatement::Return { .. } => true,
        SpecStatement::Block { items } => spec_block_returns(items),
        SpecStatement::Expression { expression } => match expression {
            SpecExpr::BlockExpression { items, .. } => spec_block_returns(items),
            _ => false,
        },
        SpecStatement::Yield { .. } => false,
    }
}

/// The first function that does not return on every path, if any.
pub open spec fn spec_first_without_return(fs: Seq<SpecFunction>) -> Option<int> {
    if exists|i: int| 0 <= i < fs.len() && !spec_block_returns(fs[i].body) {
        Some(choose|i: int| 0 <= i < fs.len() && !spec_block_returns(fs[i].body)
            && forall|j: int| 0 <= j < i ==> spec_block_returns(#[trigger] fs[j].body))
    } else {
        None
    }
}

fn validate_block(block_items: &Vec<BlockItem>) -> (r: bool)
    ensures
        r == spec_block_returns(items_view(block_items@)),
    decreases *block_items, 1int,
{
    let ghost iv = items_view(block_items@);
    proof {
        lemma_items_view(block_items@);
        assert(iv.skip(0) == iv);
    }
    let mut i: usize = 0;
    while i < block_items.len()
        invariant
            i <= block_items@.len(),
            iv == items_view(block_items@),
            iv.len() == block_items@.len(),
            forall|j: int| 0 <= j < block_items@.len() ==> #[trigger] iv[j] == crate::parsing::item_view(block_items@[j]),
            spec_block_returns(iv) == spec_block_returns(iv.skip(i as int)),
        decreases block_items@.len() - i,
    {
        proof {
            assert(decreases_to!(*block_items => block_items@[i as int]));
            assert(iv.skip(i as int).drop_first() == iv.skip(i + 1));
            assert(iv.skip(i as int)[0] == iv[i as int]);
        }
        match &block_items[i] {
            BlockItem::Statement(statement) => {
                if validate_statement(statement) {
                    return true;
                }
            },
            BlockItem::VarDeclaration(..) => {},
        }
        i = i + 1;
    }
    proof {
        assert(iv.skip(i as int).len() == 0);
    }
    false
}

fn validate_statement(statement: &Statement) -> (r: bool)
    ensures
        r == spec_statement_returns(statement@),
    decreases statement, 0int,
{
    match statement {
        Statement::Return { .. } => true,
        Statement::Block { items } => {
            proof {
                assert(decreases_to!(*statement => *items));
            }
            validate_block(items)
        },
        Statement::Expression { expression } => match &**expression {
            Expression::BlockExpression { items, .. } => {
                proof {
                    assert(decreases_to!(*statement => *items));
                }
                validate_block(items)
            },
            _ => false,
        },
        Statement::Yield { .. } => false,
    }
}

/// Checks that every function returns on every path; the error names the first that does not.
pub fn validate_returns(ast: &Program) -> (r: Result<(), String>)
    ensures
        match r {
            Ok(()) => spec_first_without_return(ast@.body) is None,
            Err(name) => spec_first_without_return(ast@.body) matches Some(i) && name@ == ast@.body[i].name,
        },
{
    let ghost fv = ast@.body;
    let mut i: usize = 0;
    while i < ast.body.len()
        invariant
            i <= ast.body@.len(),
            fv == functions_view(ast.body@),
            fv.len() == ast.body@.len(),
            forall|j: int| 0 <= j < i ==> spec_block_returns(#[trigger] fv[j].body),
        decreases ast.body@.len() - i,
    {
        let func = &ast.body[i];
        if !validate_block(&func.body) {
            proof {
                let k = i as int;
                assert(fv[k] == crate::parsing::function_view(ast.body@[k]));
                assert(!spec_block_returns(fv[k].body));
                let c = choose|c: int| 0 <= c < fv.len() && !spec_block_returns(fv[c].body)
                    && forall|j: int| 0 <= j < c ==> spec_block_returns(#[trigger] fv[j].body);
                if c < k {
                } else if c > k {
                    assert(spec_block_returns(fv[k].body));
                }
                assert(c == k);
            }
            return Err(func.name.clone());
        }
        proof {
            assert(fv[i as int] == crate::parsing::function_view(ast.body@[i as int]));
        }
        i = i + 1;
    }
    Ok(())
}

} // verus!
