use vstd::prelude::*;
use crate::text::{signed_decimal, push_signed_decimal};
use crate::parsing::{
    BlockItem, Expression, Function, Program, Statement, VarDeclaration, SpecBlockItem, SpecExpr, SpecStatement,
    SpecFunction, SpecProgram, SpecVarDecl, items_view, lemma_items_view, functions_view,
};

verus! {

broadcast use vstd::std_specs::vec::group_vec_axioms;

/// `indent` levels of indentation, three spaces each.
pub open spec fn spec_indent(indent: nat) -> Seq<char>
    decreases indent,
{
    if indent == 0 {
        Seq::empty()
    } else {
        spec_indent((indent - 1) as nat) + "   "@
    }
}

pub fn indent_string(indent: usize) -> (r: String)
    ensures
        r@ == spec_indent(indent as nat),
{
    let mut r = String::new();
    let mut i: usize = 0;
    while i < indent
        invariant
            i <= indent,
            r@ == spec_indent(i as nat),
        decreases indent - i,
    {
        r.append("   ");
        i = i + 1;
    }
    r
}

// ---------------------------------------------------------------------------
// How deep the printed text of a tree is indented below its own indentation.

pub open spec fn max(a: nat, b: nat) -> nat {
    if a >= b { a } else { b }
}

pub open spec fn expr_depth(e: SpecExpr) -> nat
    decreases e, 0int,
{
    match e {
        SpecExpr::UnaryOp { target, .. } => 1 + expr_depth(*target),
        SpecExpr::VarAssignment { value, .. } => 1 + expr_depth(*value),
        SpecExpr::BinaryOp { left, right, .. } => 2 + max(expr_depth(*left), expr_depth(*right)),
        SpecExpr::BlockExpression { items, .. } => 1 + items_depth(items),
        _ => 0,
    }
}

pub open spec fn stmt_depth(s: SpecStatement) -> nat
    decreases s, 0int,
{
    match s {
        SpecStatement::Expression { expression } => 1 + expr_depth(expression),
        SpecStatement::Block { items } => 1 + items_depth(items),
        SpecStatement::Return { value } => match value {
            Some(e) => 1 + expr_depth(e),
            None => 0,
        },
        SpecStatement::Yield { value } => match value {
            Some(e) => 1 + expr_depth(e),
            None => 0,
        },
    }
}

pub open spec fn item_depth(b: SpecBlockItem) -> nat
    decreases b, 0int,
{
    match b {
        SpecBlockItem::Statement(s) => stmt_depth(s),
        SpecBlockItem::VarDeclaration(d) => match d.init_value {
            Some(e) => 1 + expr_depth(e),
            None => 0,
        },
    }
}

pub open spec fn items_depth(items: Seq<SpecBlockItem>) -> nat
    decreases items, 1int,
{
    if items.len() == 0 {
        0
    } else {
        max(item_depth(items[0]), items_depth(items.drop_first()))
    }
}

pub open spec fn function_depth(f: SpecFunction) -> nat {
    1 + items_depth(f.body)
}

pub open spec fn functions_depth(fs: Seq<SpecFunction>) -> nat
    decreases fs.len(),
{
    if fs.len() == 0 {
        0
    } else {
        max(function_depth(fs[0]), functions_depth(fs.drop_first()))
    }
}

pub open spec fn program_depth(p: SpecProgram) -> nat {
    1 + functions_depth(p.body)
}

// ---------------------------------------------------------------------------
// The printed text.

pub open spec fn pp_expr(e: SpecExpr, indent: nat) -> Seq<char>
    decreases e, 0int,
{
    let ind = spec_indent(indent);
    match e {
        SpecExpr::Var { name, .. } => ind + "Var[\""@ + name + "\"]"@,
        SpecExpr::UnaryOp { operator, target, .. } =>
            ind + "UnaryOp[\""@ + operator + "\"] {\n"@ + pp_expr(*target, indent + 1) + "\n"@ + ind + "}"@,
        SpecExpr::VarAssignment { name, value, .. } =>
            ind + "VarAssign[\""@ + name + "\"] {\n"@ + pp_expr(*value, indent + 1) + "\n"@ + ind + "}"@,
        SpecExpr::BinaryOp { operator, left, right, .. } =>
            ind + "BinaryOp[\""@ + operator + "\"] {\n"@ + "\t"@ + ind + "left=>{\n"@ + pp_expr(*left, indent + 2) + "\n"@
                + "\t"@ + ind + "}\n\t"@ + ind + "right=>{\n"@ + pp_expr(*right, indent + 2) + "\n"@
                + "\t"@ + ind + "}\n"@ + ind + "}"@,
        SpecExpr::Int32Constant { value, .. } => ind + "Int32Constant[\""@ + signed_decimal(value as int) + "\"]"@,
        SpecExpr::BlockExpression { items, .. } => ind + "BlockExpression {\n"@ + pp_items(items, indent + 1) + ind + "}"@,
    }
}

pub open spec fn pp_stmt(s: SpecStatement, indent: nat) -> Seq<char>
    decreases s, 0int,
{
    let ind = spec_indent(indent);
    match s {
        SpecStatement::Expression { expression } => pp_expr(expression, indent + 1),
        SpecStatement::Block { items } => ind + "Block {\n"@ + pp_items(items, indent + 1) + ind + "}"@,
        SpecStatement::Return { value } => match value {
            Some(e) => ind + "Return {\n"@ + pp_expr(e, indent + 1) + "\n"@ + ind + "}"@,
            None => ind + "Return{}"@,
        },
        SpecStatement::Yield { value } => match value {
            Some(e) => ind + "Yield {\n"@ + pp_expr(e, indent + 1) + "\n"@ + ind + "}"@,
            None => ind + "Yield{}"@,
        },
    }
}

pub open spec fn pp_var(d: SpecVarDecl, indent: nat) -> Seq<char>
    decreases d, 0int,
{
    let ind = spec_indent(indent);
    match d.init_value {
        Some(e) => ind + "VarDef[\""@ + d.name + "\"] {"@ + "\n"@ + pp_expr(e, indent + 1) + "\n"@ + ind + "}"@,
        None => ind + "VarDef[\""@ + d.name + "\"] {"@ + "}"@,
    }
}

pub open spec fn pp_item(b: SpecBlockItem, indent: nat) -> Seq<char>
    decreases b, 0int,
{
    match b {
        SpecBlockItem::Statement(s) => pp_stmt(s, indent),
        SpecBlockItem::VarDeclaration(d) => pp_var(d, indent),
    }
}

/// Each item printed on lines of its own.
pub open spec fn pp_items(items: Seq<SpecBlockItem>, indent: nat) -> Seq<char>
    decreases items, 1int,
{
    if items.len() == 0 {
        Seq::empty()
    } else {
        pp_item(items[0], indent) + "\n"@ + pp_items(items.drop_first(), indent)
    }
}

pub open spec fn pp_function(f: SpecFunction, indent: nat) -> Seq<char> {
    let ind = spec_indent(indent);
    ind + "Function[\""@ + f.name + "\"] {\n"@ + pp_items(f.body, indent + 1) + ind + "}"@
}

pub open spec fn pp_functions(fs: Seq<SpecFunction>, indent: nat) -> Seq<char>
    decreases fs.len(),
{
    if fs.len() == 0 {
        Seq::empty()
    } else {
        pp_function(fs[0], indent) + "\n"@ + pp_functions(fs.drop_first(), indent)
    }
}

pub open spec fn pp_program(p: SpecProgram, indent: nat) -> Seq<char> {
    let ind = spec_indent(indent);
    ind + "Program{\n"@ + pp_functions(p.body, indent + 1) + ind + "}"@
}


// ---------------------------------------------------------------------------
// Printing.

proof fn lemma_items_depth(items: Seq<SpecBlockItem>, i: int)
    requires
        0 <= i < items.len(),
    ensures
        item_depth(items[i]) <= items_depth(items),
    decreases i,
{
    if i > 0 {
        lemma_items_depth(items.drop_first(), i - 1);
        assert(items.drop_first()[i - 1] == items[i]);
    }
}

proof fn lemma_functions_depth(fs: Seq<SpecFunction>, i: int)
    requires
        0 <= i < fs.len(),
    ensures
        function_depth(fs[i]) <= functions_depth(fs),
    decreases i,
{
    if i > 0 {
        lemma_functions_depth(fs.drop_first(), i - 1);
        assert(fs.drop_first()[i - 1] == fs[i]);
    }
}

fn pretty_expr(e: &Expression, indent: usize) -> (r: String)
    requires
        indent + expr_depth(e@) <= usize::MAX,
    ensures
        r@ == pp_expr(e@, indent as nat),
    decreases e, 0int,
{
    let ind = indent_string(indent);
    let mut out = String::new();
    match e {
        Expression::Var { name, .. } => {
            out.append(ind.as_str());
            out.append("Var[\"");
            out.append(name.as_str());
            out.append("\"]");
            proof {
                assert(out@ =~= pp_expr(e@, indent as nat));
            }
        },
        Expression::UnaryOp { operator, target, .. } => {
            out.append(ind.as_str());
            out.append("UnaryOp[\"");
            out.append(operator.as_str());
            out.append("\"] {\n");
            let t = pretty_expr(target, indent + 1);
            out.append(t.as_str());
            out.append("\n");
            out.append(ind.as_str());
            out.append("}");
            proof {
                assert(out@ =~= pp_expr(e@, indent as nat));
            }
        },
        Expression::VarAssignment { name, value, .. } => {
            out.append(ind.as_str());
            out.append("VarAssign[\"");
            out.append(name.as_str());
            out.append("\"] {\n");
            let t = pretty_expr(value, indent + 1);
            out.append(t.as_str());
            out.append("\n");
            out.append(ind.as_str());
            out.append("}");
            proof {
                assert(out@ =~= pp_expr(e@, indent as nat));
            }
        },
        Expression::BinaryOp { operator, left, right, .. } => {
            out.append(ind.as_str());
            out.append("BinaryOp[\"");
            out.append(operator.as_str());
            out.append("\"] {\n");
            out.append("\t");
            out.append(ind.as_str());
            out.append("left=>{\n");
            let l = pretty_expr(left, indent + 2);
            out.append(l.as_str());
            out.append("\n");
            out.append("\t");
            out.append(ind.as_str());
            out.append("}\n\t");
            out.append(ind.as_str());
            out.append("right=>{\n");
            let r = pretty_expr(right, indent + 2);
            out.append(r.as_str());
            out.append("\n");
            out.append("\t");
            out.append(ind.as_str());
            out.append("}\n");
            out.append(ind.as_str());
            out.append("}");
            proof {
                assert(out@ =~= pp_expr(e@, indent as nat));
            }
        },
        Expression::Int32Constant { value, .. } => {
            out.append(ind.as_str());
            out.append("Int32Constant[\"");
            push_signed_decimal(&mut out, *value as i64);
            out.append("\"]");
            proof {
                assert(out@ =~= pp_expr(e@, indent as nat));
            }
        },
        Expression::BlockExpression { items, .. } => {
            proof {
                assert(decreases_to!(*e => *items));
            }
            out.append(ind.as_str());
            out.append("BlockExpression {\n");
            let t = pretty_items(items, indent + 1);
            out.append(t.as_str());
            out.append(ind.as_str());
            out.append("}");
            proof {
                assert(out@ =~= pp_expr(e@, indent as nat));
            }
        },
    }
    out
}

fn pretty_stmt(s: &Statement, indent: usize) -> (r: String)
    requires
        indent + stmt_depth(s@) <= usize::MAX,
    ensures
        r@ == pp_stmt(s@, indent as nat),
    decreases s, 0int,
{
    let ind = indent_string(indent);
    let mut out = String::new();
    match s {
        Statement::Expression { expression } => {
            return pretty_expr(expression, indent + 1);
        },
        Statement::Block { items } => {
            proof {
                assert(decreases_to!(*s => *items));
            }
            out.append(ind.as_str());
            out.append("Block {\n");
            let t = pretty_items(items, indent + 1);
            out.append(t.as_str());
            out.append(ind.as_str());
            out.append("}");
        },
        Statement::Return { value } | Statement::Yield { value } => {
            let keyword = match s {
                Statement::Return { .. } => "Return",
                _ => "Yield",
            };
            match value {
                Some(e) => {
                    out.append(ind.as_str());
                    out.append(keyword);
                    out.append(" {\n");
                    let t = pretty_expr(e, indent + 1);
                    out.append(t.as_str());
                    out.append("\n");
                    out.append(ind.as_str());
                    out.append("}");
                },
                None => {
                    out.append(ind.as_str());
                    out.append(keyword);
                    out.append("{}");
                },
            }
            proof {
                reveal_strlit("Return");
                reveal_strlit("Yield");
                reveal_strlit(" {\n");
                reveal_strlit("{}");
                reveal_strlit("Return {\n");
                reveal_strlit("Yield {\n");
                reveal_strlit("Return{}");
                reveal_strlit("Yield{}");
            }
        },
    }
    proof {
        assert(out@ =~= pp_stmt(s@, indent as nat));
    }
    out
}

fn pretty_var(d: &VarDeclaration, indent: usize) -> (r: String)
    requires
        indent + item_depth(SpecBlockItem::VarDeclaration(d@)) <= usize::MAX,
    ensures
        r@ == pp_var(d@, indent as nat),
    decreases d, 0int,
{
    let ind = indent_string(indent);
    let mut out = String::new();
    out.append(ind.as_str());
    out.append("VarDef[\"");
    out.append(d.name.as_str());
    out.append("\"] {");
    match &d.init_value {
        Some(e) => {
            out.append("\n");
            let t = pretty_expr(e, indent + 1);
            out.append(t.as_str());
            out.append("\n");
            out.append(ind.as_str());
            out.append("}");
        },
        None => {
            out.append("}");
        },
    }
    proof {
        assert(out@ =~= pp_var(d@, indent as nat));
    }
    out
}

fn pretty_item(b: &BlockItem, indent: usize) -> (r: String)
    requires
        indent + item_depth(b@) <= usize::MAX,
    ensures
        r@ == pp_item(b@, indent as nat),
    decreases b, 0int,
{
    match b {
        BlockItem::Statement(s) => pretty_stmt(s, indent),
        BlockItem::VarDeclaration(d) => pretty_var(d, indent),
    }
}

fn pretty_items(items: &Vec<BlockItem>, indent: usize) -> (r: String)
    requires
        indent + items_depth(items_view(items@)) <= usize::MAX,
    ensures
        r@ == pp_items(items_view(items@), indent as nat),
    decreases *items, 1int,
{
    let ghost iv = items_view(items@);
    proof {
        lemma_items_view(items@);
        assert(iv.skip(0) == iv);
    }
    let mut out = String::new();
    let mut i: usize = 0;
    while i < items.len()
        invariant
            i <= items@.len(),
            iv == items_view(items@),
            iv.len() == items@.len(),
            indent + items_depth(iv) <= usize::MAX,
            forall|j: int| 0 <= j < items@.len() ==> #[trigger] iv[j] == crate::parsing::item_view(items@[j]),
            pp_items(iv, indent as nat) == out@ + pp_items(iv.skip(i as int), indent as nat),
        decreases items@.len() - i,
    {
        proof {
            assert(decreases_to!(*items => items@[i as int]));
            assert(iv.skip(i as int).drop_first() == iv.skip(i + 1));
            assert(iv.skip(i as int)[0] == iv[i as int]);
            lemma_items_depth(iv, i as int);
        }
        let t = pretty_item(&items[i], indent);
        let ghost before = out@;
        out.append(t.as_str());
        out.append("\n");
        proof {
            assert(before + pp_items(iv.skip(i as int), indent as nat)
                =~= out@ + pp_items(iv.skip(i + 1), indent as nat));
        }
        i = i + 1;
    }
    proof {
        assert(iv.skip(i as int) =~= Seq::<SpecBlockItem>::empty());
        assert(out@ + Seq::<char>::empty() =~= out@);
    }
    out
}


fn pretty_function(f: &Function, indent: usize) -> (r: String)
    requires
        indent + function_depth(f@) <= usize::MAX,
    ensures
        r@ == pp_function(f@, indent as nat),
{
    let ind = indent_string(indent);
    let mut out = String::new();
    out.append(ind.as_str());
    out.append("Function[\"");
    out.append(f.name.as_str());
    out.append("\"] {\n");
    let t = pretty_items(&f.body, indent + 1);
    out.append(t.as_str());
    out.append(ind.as_str());
    out.append("}");
    proof {
        assert(out@ =~= pp_function(f@, indent as nat));
    }
    out
}

fn pretty_program(p: &Program, indent: usize) -> (r: String)
    requires
        indent + program_depth(p@) <= usize::MAX,
    ensures
        r@ == pp_program(p@, indent as nat),
{
    let ind = indent_string(indent);
    let mut out = String::new();
    out.append(ind.as_str());
    out.append("Program{\n");
    let ghost start = out@;
    let ghost fv = p@.body;
    let inner = indent + 1;
    proof {
        assert(fv.skip(0) == fv);
        assert(start =~= start + Seq::<char>::empty());
    }
    let mut i: usize = 0;
    while i < p.body.len()
        invariant
            i <= p.body@.len(),
            fv == functions_view(p.body@),
            fv.len() == p.body@.len(),
            inner == indent + 1,
            indent + program_depth(p@) <= usize::MAX,
            fv == p@.body,
            start + pp_functions(fv, inner as nat) == out@ + pp_functions(fv.skip(i as int), inner as nat),
        decreases p.body@.len() - i,
    {
        proof {
            assert(fv[i as int] == crate::parsing::function_view(p.body@[i as int]));
            assert(fv.skip(i as int).drop_first() == fv.skip(i + 1));
            assert(fv.skip(i as int)[0] == fv[i as int]);
            lemma_functions_depth(fv, i as int);
        }
        let t = pretty_function(&p.body[i], inner);
        let ghost before = out@;
        out.append(t.as_str());
        out.append("\n");
        proof {
            assert(before + pp_functions(fv.skip(i as int), inner as nat) =~= out@ + pp_functions(fv.skip(i + 1), inner as nat));
        }
        i = i + 1;
    }
    out.append(ind.as_str());
    out.append("}");
    proof {
        assert(fv.skip(i as int) =~= Seq::<SpecFunction>::empty());
        assert(out@ =~= pp_program(p@, indent as nat));
    }
    out
}

fn expr_depth_within(e: &Expression, cap: usize) -> (r: bool)
    ensures
        r == (expr_depth(e@) <= cap),
    decreases e, 0int,
{
    match e {
        Expression::UnaryOp { target, .. } => cap >= 1 && expr_depth_within(target, cap - 1),
        Expression::VarAssignment { value, .. } => cap >= 1 && expr_depth_within(value, cap - 1),
        Expression::BinaryOp { left, right, .. } => cap >= 2 && expr_depth_within(left, cap - 2)
            && expr_depth_within(right, cap - 2),
        Expression::BlockExpression { items, .. } => {
            proof {
                assert(decreases_to!(*e => *items));
            }
            cap >= 1 && items_depth_within(items, cap - 1)
        },
        _ => true,
    }
}

fn stmt_depth_within(s: &Statement, cap: usize) -> (r: bool)
    ensures
        r == (stmt_depth(s@) <= cap),
    decreases s, 0int,
{
    match s {
        Statement::Expression { expression } => cap >= 1 && expr_depth_within(expression, cap - 1),
        Statement::Block { items } => {
            proof {
                assert(decreases_to!(*s => *items));
            }
            cap >= 1 && items_depth_within(items, cap - 1)
        },
        Statement::Return { value } | Statement::Yield { value } => match value {
            Some(e) => cap >= 1 && expr_depth_within(e, cap - 1),
            None => true,
        },
    }
}

fn item_depth_within(b: &BlockItem, cap: usize) -> (r: bool)
    ensures
        r == (item_depth(b@) <= cap),
    decreases b, 0int,
{
    match b {
        BlockItem::Statement(st) => stmt_depth_within(st, cap),
        BlockItem::VarDeclaration(d) => match &d.init_value {
            Some(e) => cap >= 1 && expr_depth_within(e, cap - 1),
            None => true,
        },
    }
}

fn items_depth_within(items: &Vec<BlockItem>, cap: usize) -> (r: bool)
    ensures
        r == (items_depth(items_view(items@)) <= cap),
    decreases *items, 1int,
{
    let ghost iv = items_view(items@);
    proof {
        lemma_items_view(items@);
        assert(iv.skip(0) == iv);
    }
    let mut i: usize = 0;
    while i < items.len()
        invariant
            i <= items@.len(),
            iv == items_view(items@),
            iv.len() == items@.len(),
            forall|j: int| 0 <= j < items@.len() ==> #[trigger] iv[j] == crate::parsing::item_view(items@[j]),
            (items_depth(iv) <= cap) == (items_depth(iv.skip(i as int)) <= cap),
        decreases items@.len() - i,
    {
        proof {
            assert(decreases_to!(*items => items@[i as int]));
            assert(iv.skip(i as int).drop_first() == iv.skip(i + 1));
            assert(iv.skip(i as int)[0] == iv[i as int]);
        }
        if !item_depth_within(&items[i], cap) {
            return false;
        }
        i = i + 1;
    }
    proof {
        assert(iv.skip(i as int) =~= Seq::<SpecBlockItem>::empty());
    }
    true
}

/// Whether a program's text can be printed at indentation level `indent`: its deepest line
/// is indented by no more levels than a `usize` counts.
pub fn program_fits_indent(p: &Program, indent: usize) -> (r: bool)
    ensures
        r == (indent + program_depth(p@) <= usize::MAX),
{
    let cap = usize::MAX - indent;
    if cap < 1 {
        return false;
    }
    let ghost fv = p@.body;
    proof {
        assert(fv.skip(0) == fv);
    }
    let mut i: usize = 0;
    while i < p.body.len()
        invariant
            i <= p.body@.len(),
            cap == usize::MAX - indent,
            cap >= 1,
            fv == functions_view(p.body@),
            fv.len() == p.body@.len(),
            (functions_depth(fv) <= cap - 1) == (functions_depth(fv.skip(i as int)) <= cap - 1),
        decreases p.body@.len() - i,
    {
        proof {
            assert(fv.skip(i as int).drop_first() == fv.skip(i + 1));
            assert(fv.skip(i as int)[0] == fv[i as int]);
            assert(fv[i as int] == crate::parsing::function_view(p.body@[i as int]));
        }
        if cap - 1 < 1 || !items_depth_within(&p.body[i].body, cap - 2) {
            return false;
        }
        i = i + 1;
    }
    proof {
        assert(fv.skip(i as int) =~= Seq::<SpecFunction>::empty());
    }
    true
}

/// Printing of syntax trees, indented by three spaces per level.
pub trait PrettyPrint {
    /// How many levels deeper than its own the text of this tree is indented.
    spec fn depth(&self) -> nat;

    /// The printed text at indentation level `indent`.
    spec fn pretty_text(&self, indent: nat) -> Seq<char>;

    fn pretty_print(&self, indent: usize) -> (r: String)
        requires
            indent + self.depth() <= usize::MAX,
        ensures
            r@ == self.pretty_text(indent as nat),
    ;

    /// The printed text followed by a line break.
    fn pretty_println(&self, indent: usize) -> (r: String)
        requires
            indent + self.depth() <= usize::MAX,
        ensures
            r@ == self.pretty_text(indent as nat) + "\n"@,
    {
        let mut r = self.pretty_print(indent);
        r.append("\n");
        r
    }
}

impl PrettyPrint for Program {
    open spec fn depth(&self) -> nat {
        program_depth(self@)
    }

    open spec fn pretty_text(&self, indent: nat) -> Seq<char> {
        pp_program(self@, indent)
    }

    fn pretty_print(&self, indent: usize) -> (r: String) {
        pretty_program(self, indent)
    }
}

impl PrettyPrint for Function {
    open spec fn depth(&self) -> nat {
        function_depth(self@)
    }

    open spec fn pretty_text(&self, indent: nat) -> Seq<char> {
        pp_function(self@, indent)
    }

    fn pretty_print(&self, indent: usize) -> (r: String) {
        pretty_function(self, indent)
    }
}

impl PrettyPrint for BlockItem {
    open spec fn depth(&self) -> nat {
        item_depth(self@)
    }

    open spec fn pretty_text(&self, indent: nat) -> Seq<char> {
        pp_item(self@, indent)
    }

    fn pretty_print(&self, indent: usize) -> (r: String) {
        pretty_item(self, indent)
    }
}

impl PrettyPrint for Statement {
    open spec fn depth(&self) -> nat {
        stmt_depth(self@)
    }

    open spec fn pretty_text(&self, indent: nat) -> Seq<char> {
        pp_stmt(self@, indent)
    }

    fn pretty_print(&self, indent: usize) -> (r: String) {
        pretty_stmt(self, indent)
    }
}

impl PrettyPrint for Expression {
    open spec fn depth(&self) -> nat {
        expr_depth(self@)
    }

    open spec fn pretty_text(&self, indent: nat) -> Seq<char> {
        pp_expr(self@, indent)
    }

    fn pretty_print(&self, indent: usize) -> (r: String) {
        pretty_expr(self, indent)
    }
}

impl PrettyPrint for VarDeclaration {
    open spec fn depth(&self) -> nat {
        item_depth(SpecBlockItem::VarDeclaration(self@))
    }

    open spec fn pretty_text(&self, indent: nat) -> Seq<char> {
        pp_var(self@, indent)
    }

    fn pretty_print(&self, indent: usize) -> (r: String) {
        pretty_var(self, indent)
    }
}

} // verus!
