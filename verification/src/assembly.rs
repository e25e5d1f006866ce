use vstd::prelude::*;
use crate::text::{str_eq, decimal, signed_decimal, push_decimal, push_signed_decimal};
use crate::stack::{
    StackAddr, StackFrame, StackError, SpecAddr, SpecFrame, spec_n_byte_view, spec_has_free, spec_reserve, spec_reserve_var,
    spec_free, spec_free_var, spec_addr, is_free, spec_create_stack_frame, create_stack_frame, layout_ok, free_at,
    lemma_layout_reserve, lemma_layout_free, lemma_layout_reserve_var, lemma_frame_layout, sized_decls_items,
    frame_wf, law_free_undoes_reserve, law_operations_keep_frame_wf,
};
use crate::typing::{Type, SpecType, spec_size};
use crate::parsing::{
    BlockItem, Expression, Function, Program, Statement, SpecBlockItem, SpecExpr, SpecStatement, SpecFunction,
    items_view, lemma_items_view, functions_view, lemma_decimal_injective,
};

verus! {

/// The x86-64 general registers the generated code names: for each of A, B, C and D the
/// 8, 4 and 2 byte registers and the low and high bytes; for SI and DI the 8, 4 and 2 byte
/// registers and the low byte.
#[derive(Copy, Clone, PartialEq, Eq, Debug, Structural)]
pub enum Register {
    RAX, EAX, AX, AL, AH,
    RBX, EBX, BX, BL, BH,
    RCX, ECX, CX, CL, CH,
    RDX, EDX, DX, DL, DH,
    RSI, ESI, SI, SIL,
    RDI, EDI, DI, DIL,
}

/// The position of a register in the list above.
pub open spec fn reg_index(r: Register) -> nat {
    match r {
        Register::RAX => 0, Register::EAX => 1, Register::AX => 2, Register::AL => 3, Register::AH => 4,
        Register::RBX => 5, Register::EBX => 6, Register::BX => 7, Register::BL => 8, Register::BH => 9,
        Register::RCX => 10, Register::ECX => 11, Register::CX => 12, Register::CL => 13, Register::CH => 14,
        Register::RDX => 15, Register::EDX => 16, Register::DX => 17, Register::DL => 18, Register::DH => 19,
        Register::RSI => 20, Register::ESI => 21, Register::SI => 22, Register::SIL => 23,
        Register::RDI => 24, Register::EDI => 25, Register::DI => 26, Register::DIL => 27,
    }
}

/// The register at position `i` (below 28) of the list.
pub open spec fn reg_at(i: nat) -> Register {
    if i == 0 { Register::RAX } else if i == 1 { Register::EAX } else if i == 2 { Register::AX }
    else if i == 3 { Register::AL } else if i == 4 { Register::AH } else if i == 5 { Register::RBX }
    else if i == 6 { Register::EBX } else if i == 7 { Register::BX } else if i == 8 { Register::BL }
    else if i == 9 { Register::BH } else if i == 10 { Register::RCX } else if i == 11 { Register::ECX }
    else if i == 12 { Register::CX } else if i == 13 { Register::CL } else if i == 14 { Register::CH }
    else if i == 15 { Register::RDX } else if i == 16 { Register::EDX } else if i == 17 { Register::DX }
    else if i == 18 { Register::DL } else if i == 19 { Register::DH } else if i == 20 { Register::RSI }
    else if i == 21 { Register::ESI } else if i == 22 { Register::SI } else if i == 23 { Register::SIL }
    else if i == 24 { Register::RDI } else if i == 25 { Register::EDI } else if i == 26 { Register::DI }
    else { Register::DIL }
}

/// The first register of the group of `r`: registers with a high byte come in groups of 5,
/// the others (from position 20 on) in groups of 4.
pub open spec fn spec_as_nth(r: Register) -> Register {
    let num = reg_index(r);
    if num < 20 {
        reg_at((num - num % 5) as nat)
    } else {
        reg_at((num - (num - 20) % 4) as nat)
    }
}

pub open spec fn spec_has_8_bit_high(r: Register) -> bool {
    reg_index(r) < 20
}

/// The assembly name of a register: `%` and its name in lower case.
pub open spec fn reg_text(r: Register) -> Seq<char> {
    match r {
        Register::RAX => "%rax"@, Register::EAX => "%eax"@, Register::AX => "%ax"@, Register::AL => "%al"@,
        Register::AH => "%ah"@, Register::RBX => "%rbx"@, Register::EBX => "%ebx"@, Register::BX => "%bx"@,
        Register::BL => "%bl"@, Register::BH => "%bh"@, Register::RCX => "%rcx"@, Register::ECX => "%ecx"@,
        Register::CX => "%cx"@, Register::CL => "%cl"@, Register::CH => "%ch"@, Register::RDX => "%rdx"@,
        Register::EDX => "%edx"@, Register::DX => "%dx"@, Register::DL => "%dl"@, Register::DH => "%dh"@,
        Register::RSI => "%rsi"@, Register::ESI => "%esi"@, Register::SI => "%si"@, Register::SIL => "%sil"@,
        Register::RDI => "%rdi"@, Register::EDI => "%edi"@, Register::DI => "%di"@, Register::DIL => "%dil"@,
    }
}

impl Register {
    fn index(&self) -> (r: usize)
        ensures
            r == reg_index(*self),
    {
        match self {
            Register::RAX => 0, Register::EAX => 1, Register::AX => 2, Register::AL => 3, Register::AH => 4,
            Register::RBX => 5, Register::EBX => 6, Register::BX => 7, Register::BL => 8, Register::BH => 9,
            Register::RCX => 10, Register::ECX => 11, Register::CX => 12, Register::CL => 13, Register::CH => 14,
            Register::RDX => 15, Register::EDX => 16, Register::DX => 17, Register::DL => 18, Register::DH => 19,
            Register::RSI => 20, Register::ESI => 21, Register::SI => 22, Register::SIL => 23,
            Register::RDI => 24, Register::EDI => 25, Register::DI => 26, Register::DIL => 27,
        }
    }

    /// The register at position `i` of the list.
    fn variant(i: usize) -> (r: Register)
        requires
            i < 28,
        ensures
            r == reg_at(i as nat),
    {
        if i == 0 { Register::RAX } else if i == 1 { Register::EAX } else if i == 2 { Register::AX }
        else if i == 3 { Register::AL } else if i == 4 { Register::AH } else if i == 5 { Register::RBX }
        else if i == 6 { Register::EBX } else if i == 7 { Register::BX } else if i == 8 { Register::BL }
        else if i == 9 { Register::BH } else if i == 10 { Register::RCX } else if i == 11 { Register::ECX }
        else if i == 12 { Register::CX } else if i == 13 { Register::CL } else if i == 14 { Register::CH }
        else if i == 15 { Register::RDX } else if i == 16 { Register::EDX } else if i == 17 { Register::DX }
        else if i == 18 { Register::DL } else if i == 19 { Register::DH } else if i == 20 { Register::RSI }
        else if i == 21 { Register::ESI } else if i == 22 { Register::SI } else if i == 23 { Register::SIL }
        else if i == 24 { Register::RDI } else if i == 25 { Register::EDI } else if i == 26 { Register::DI }
        else { Register::DIL }
    }

    /// The first register of this register's group, whichever `n` is asked for.
    fn as_nth(&self, n: usize) -> (r: Register)
        ensures
            r == spec_as_nth(*self),
    {
        let num = self.index();
        if num < 20 {
            Self::variant(num - (num % 5))
        } else {
            Self::variant(num - ((num - 20) % 4))
        }
    }

    fn as_8_byte(&self) -> (r: Register)
        ensures
            r == spec_as_nth(*self),
    {
        self.as_nth(0)
    }

    fn as_4_byte(&self) -> (r: Register)
        ensures
            r == spec_as_nth(*self),
    {
        self.as_nth(1)
    }

    fn as_2_byte(&self) -> (r: Register)
        ensures
            r == spec_as_nth(*self),
    {
        self.as_nth(2)
    }

    fn as_1_byte(&self) -> (r: Register)
        ensures
            r == spec_as_nth(*self),
    {
        self.as_nth(3)
    }

    /// A view of 1, 2, 4 or 8 bytes.
    fn as_n_bytes(&self, num_bytes: u8) -> (r: Register)
        requires
            num_bytes == 1 || num_bytes == 2 || num_bytes == 4 || num_bytes == 8,
        ensures
            r == spec_as_nth(*self),
    {
        if num_bytes == 1 {
            self.as_1_byte()
        } else if num_bytes == 2 {
            self.as_2_byte()
        } else if num_bytes == 4 {
            self.as_4_byte()
        } else {
            self.as_8_byte()
        }
    }

    /// The high byte; only registers with one have it.
    fn as_8_bit_high(&self) -> (r: Register)
        requires
            spec_has_8_bit_high(*self),
        ensures
            r == spec_as_nth(*self),
    {
        self.as_nth(4)
    }

    fn has_8_bit_high(&self) -> (r: bool)
        ensures
            r == spec_has_8_bit_high(*self),
    {
        match self {
            Register::RSI | Register::ESI | Register::SI | Register::SIL | Register::RDI | Register::EDI
            | Register::DI | Register::DIL => false,
            _ => true,
        }
    }

    /// The assembly name of this register.
    pub fn name(&self) -> (r: &'static str)
        ensures
            r@ == reg_text(*self),
    {
        match self {
            Register::RAX => "%rax", Register::EAX => "%eax", Register::AX => "%ax", Register::AL => "%al",
            Register::AH => "%ah", Register::RBX => "%rbx", Register::EBX => "%ebx", Register::BX => "%bx",
            Register::BL => "%bl", Register::BH => "%bh", Register::RCX => "%rcx", Register::ECX => "%ecx",
            Register::CX => "%cx", Register::CL => "%cl", Register::CH => "%ch", Register::RDX => "%rdx",
            Register::EDX => "%edx", Register::DX => "%dx", Register::DL => "%dl", Register::DH => "%dh",
            Register::RSI => "%rsi", Register::ESI => "%esi", Register::SI => "%si", Register::SIL => "%sil",
            Register::RDI => "%rdi", Register::EDI => "%edi", Register::DI => "%di", Register::DIL => "%dil",
        }
    }
}


/// An operand: a constant, a stack slot or a register.
#[derive(Debug, Clone, Copy)]
pub enum Value {
    Int32Literal(i32),
    Address(StackAddr),
    Register(Register),
}

/// The mathematical value of a `Value`.
pub enum SpecValue {
    Int32Literal(i32),
    Address(SpecAddr),
    Register(Register),
}

impl View for Value {
    type V = SpecValue;

    open spec fn view(&self) -> SpecValue {
        match self {
            Value::Int32Literal(x) => SpecValue::Int32Literal(*x),
            Value::Address(a) => SpecValue::Address(a@),
            Value::Register(r) => SpecValue::Register(*r),
        }
    }
}

/// Whether two operands are the same: equal constants, slots at the same offset, or the
/// same register.
pub open spec fn value_eq(a: SpecValue, b: SpecValue) -> bool {
    match (a, b) {
        (SpecValue::Int32Literal(x), SpecValue::Int32Literal(y)) => x == y,
        (SpecValue::Address(x), SpecValue::Address(y)) => x.offset == y.offset,
        (SpecValue::Register(x), SpecValue::Register(y)) => x == y,
        _ => false,
    }
}

impl PartialEq for Value {
    fn eq(&self, other: &Self) -> (r: bool) {
        match (self, other) {
            (Value::Int32Literal(x), Value::Int32Literal(y)) => *x == *y,
            (Value::Address(x), Value::Address(y)) => x.offset() == y.offset(),
            (Value::Register(x), Value::Register(y)) => *x == *y,
            _ => false,
        }
    }
}

impl vstd::std_specs::cmp::PartialEqSpecImpl for Value {
    open spec fn obeys_eq_spec() -> bool {
        true
    }

    open spec fn eq_spec(&self, other: &Value) -> bool {
        value_eq(self@, other@)
    }
}

/// The assembly text of an operand.
pub open spec fn value_text(v: SpecValue) -> Seq<char> {
    match v {
        SpecValue::Int32Literal(x) => "$"@ + signed_decimal(x as int),
        SpecValue::Address(a) => "-"@ + decimal(a.offset) + "(%rbp)"@,
        SpecValue::Register(r) => reg_text(r),
    }
}

/// The view of `num_bytes` bytes of an operand, where there is one: the register of the
/// group (for 1, 2, 4 or 8 bytes, the count taken modulo 256) or the narrowed slot.
pub open spec fn spec_value_n_byte_view(v: SpecValue, num_bytes: nat) -> Option<SpecValue> {
    match v {
        SpecValue::Register(r) => {
            let n = num_bytes % 256;
            if n == 1 || n == 2 || n == 4 || n == 8 {
                Some(SpecValue::Register(spec_as_nth(r)))
            } else {
                None
            }
        },
        SpecValue::Address(a) => if num_bytes <= a.size && !a.is_view && a.offset + a.size <= usize::MAX {
            Some(SpecValue::Address(spec_n_byte_view(a, num_bytes)))
        } else {
            None
        },
        SpecValue::Int32Literal(_) => None,
    }
}

impl Value {
    /// Whether `get_n_byte_view` can narrow this operand to `num_bytes` bytes.
    pub fn has_n_byte_view(&self, num_bytes: usize) -> (r: bool)
        ensures
            r == spec_value_n_byte_view(self@, num_bytes as nat) is Some,
    {
        match self {
            Value::Register(_) => {
                let n = num_bytes % 256;
                n == 1 || n == 2 || n == 4 || n == 8
            },
            Value::Address(addr) => num_bytes <= addr.size() && !addr.is_view() && addr.offset() <= usize::MAX - addr.size(),
            Value::Int32Literal(_) => false,
        }
    }

    /// The view of `num_bytes` bytes of this operand; a constant has none.
    pub fn get_n_byte_view(&self, num_bytes: usize) -> (r: Value)
        requires
            spec_value_n_byte_view(self@, num_bytes as nat) is Some,
        ensures
            spec_value_n_byte_view(self@, num_bytes as nat) == Some(r@),
    {
        match self {
            Value::Register(register) => {
                let n = (num_bytes % 256) as u8;
                Value::Register(register.as_n_bytes(n))
            },
            Value::Address(addr) => Value::Address(addr.get_n_byte_view(num_bytes)),
            Value::Int32Literal(_) => Value::Int32Literal(0),
        }
    }

    /// The assembly text of this operand.
    pub fn to_text(&self) -> (r: String)
        ensures
            r@ == value_text(self@),
    {
        let mut r = String::new();
        push_value(&mut r, self);
        proof {
            assert(r@ =~= value_text(self@));
        }
        r
    }

    pub fn is_storage(&self) -> (r: bool)
        ensures
            r == (self@ is Register || self@ is Address),
    {
        matches!(self, Value::Register(..) | Value::Address(..))
    }
}

/// Appends the assembly text of `v` to `out`.
fn push_value(out: &mut String, v: &Value)
    ensures
        final(out)@ == old(out)@ + value_text(v@),
{
    match v {
        Value::Int32Literal(x) => {
            out.append("$");
            push_signed_decimal(out, *x as i64);
            proof {
                assert(final(out)@ =~= old(out)@ + ("$"@ + signed_decimal(*x as int)));
            }
        },
        Value::Address(addr) => {
            out.append("-");
            push_decimal(out, addr.offset() as u64);
            out.append("(%rbp)");
            proof {
                assert(final(out)@ =~= old(out)@ + ("-"@ + decimal(addr@.offset) + "(%rbp)"@));
            }
        },
        Value::Register(r) => {
            out.append(r.name());
        },
    }
}

#[derive(PartialEq, Eq, Copy, Clone, Debug, Structural)]
pub enum UnaryOperator {
    Compliment,
    Negate,
    Not,
}

/// The unary operator that an operator's text names.
pub open spec fn spec_unary_operator(op: Seq<char>) -> Option<UnaryOperator> {
    if op == "-"@ {
        Some(UnaryOperator::Negate)
    } else if op == "!"@ {
        Some(UnaryOperator::Not)
    } else if op == "~"@ {
        Some(UnaryOperator::Compliment)
    } else {
        None
    }
}

impl UnaryOperator {
    /// The unary operator that `value` names, if any.
    pub fn from_operator(value: &String) -> (r: Option<UnaryOperator>)
        ensures
            r == spec_unary_operator(value@),
    {
        let v = value.as_str();
        if str_eq(v, "-") {
            Some(UnaryOperator::Negate)
        } else if str_eq(v, "!") {
            Some(UnaryOperator::Not)
        } else if str_eq(v, "~") {
            Some(UnaryOperator::Compliment)
        } else {
            None
        }
    }
}

#[derive(PartialEq, Eq, Copy, Clone, Debug, Structural)]
pub enum BinaryOperator {
    Add,
    Subtract,
    Multiply,
    Divide,
    Equal,
    NotEqual,
    LessThan,
    LessOrEqual,
    GreaterThan,
    GreaterOrEqual,
}

/// The binary operator that an operator's text names.
pub open spec fn spec_binary_operator(op: Seq<char>) -> Option<BinaryOperator> {
    if op == "+"@ {
        Some(BinaryOperator::Add)
    } else if op == "-"@ {
        Some(BinaryOperator::Subtract)
    } else if op == "*"@ {
        Some(BinaryOperator::Multiply)
    } else if op == "/"@ {
        Some(BinaryOperator::Divide)
    } else if op == "=="@ {
        Some(BinaryOperator::Equal)
    } else if op == "!="@ {
        Some(BinaryOperator::NotEqual)
    } else if op == "<"@ {
        Some(BinaryOperator::LessThan)
    } else if op == "<="@ {
        Some(BinaryOperator::LessOrEqual)
    } else if op == ">"@ {
        Some(BinaryOperator::GreaterThan)
    } else if op == ">="@ {
        Some(BinaryOperator::GreaterOrEqual)
    } else {
        None
    }
}

impl BinaryOperator {
    /// The binary operator that `value` names, if any.
    pub fn from_operator(value: &String) -> (r: Option<BinaryOperator>)
        ensures
            r == spec_binary_operator(value@),
    {
        let v = value.as_str();
        if str_eq(v, "+") {
            Some(BinaryOperator::Add)
        } else if str_eq(v, "-") {
            Some(BinaryOperator::Subtract)
        } else if str_eq(v, "*") {
            Some(BinaryOperator::Multiply)
        } else if str_eq(v, "/") {
            Some(BinaryOperator::Divide)
        } else if str_eq(v, "==") {
            Some(BinaryOperator::Equal)
        } else if str_eq(v, "!=") {
            Some(BinaryOperator::NotEqual)
        } else if str_eq(v, "<") {
            Some(BinaryOperator::LessThan)
        } else if str_eq(v, "<=") {
            Some(BinaryOperator::LessOrEqual)
        } else if str_eq(v, ">") {
            Some(BinaryOperator::GreaterThan)
        } else if str_eq(v, ">=") {
            Some(BinaryOperator::GreaterOrEqual)
        } else {
            None
        }
    }
}


/// An instruction of the intermediate code, close to one or a few assembly instructions.
#[derive(Debug)]
pub enum Instruction {
    Unary { operator: UnaryOperator, target: Value, dest: Value },
    Binary { operator: BinaryOperator, left: Value, right: Value, dest: Value },
    Copy { src: Value, dest: Value },
    Jump { dest: String },
    JumpIfZero { condition: Value, dest: String },
    JumpNotZero { condition: Value, dest: String },
    Label { label: String },
    StackSetup { size: usize, func_name: String },
    StackCleanup { size: usize, return_label: String },
}

/// The mathematical value of an `Instruction`.
pub enum SpecInstruction {
    Unary { operator: UnaryOperator, target: SpecValue, dest: SpecValue },
    Binary { operator: BinaryOperator, left: SpecValue, right: SpecValue, dest: SpecValue },
    Copy { src: SpecValue, dest: SpecValue },
    Jump { dest: Seq<char> },
    JumpIfZero { condition: SpecValue, dest: Seq<char> },
    JumpNotZero { condition: SpecValue, dest: Seq<char> },
    Label { label: Seq<char> },
    StackSetup { size: nat, func_name: Seq<char> },
    StackCleanup { size: nat, return_label: Seq<char> },
}

impl View for Instruction {
    type V = SpecInstruction;

    open spec fn view(&self) -> SpecInstruction {
        match self {
            Instruction::Unary { operator, target, dest } => SpecInstruction::Unary { operator: *operator, target: target@, dest: dest@ },
            Instruction::Binary { operator, left, right, dest } => SpecInstruction::Binary {
                operator: *operator,
                left: left@,
                right: right@,
                dest: dest@,
            },
            Instruction::Copy { src, dest } => SpecInstruction::Copy { src: src@, dest: dest@ },
            Instruction::Jump { dest } => SpecInstruction::Jump { dest: dest@ },
            Instruction::JumpIfZero { condition, dest } => SpecInstruction::JumpIfZero { condition: condition@, dest: dest@ },
            Instruction::JumpNotZero { condition, dest } => SpecInstruction::JumpNotZero { condition: condition@, dest: dest@ },
            Instruction::Label { label } => SpecInstruction::Label { label: label@ },
            Instruction::StackSetup { size, func_name } => SpecInstruction::StackSetup { size: *size as nat, func_name: func_name@ },
            Instruction::StackCleanup { size, return_label } => SpecInstruction::StackCleanup {
                size: *size as nat,
                return_label: return_label@,
            },
        }
    }
}

pub open spec fn instructions_view(is: Seq<Instruction>) -> Seq<SpecInstruction> {
    is.map_values(|i: Instruction| i@)
}

/// `\tmovl src, dest` unless the operands are the same.
pub open spec fn move_text(src: SpecValue, dest: SpecValue) -> Seq<char> {
    if value_eq(src, dest) {
        Seq::empty()
    } else {
        "\tmovl "@ + value_text(src) + ", "@ + value_text(dest) + "\n"@
    }
}

/// The `set` instruction of a comparison.
pub open spec fn set_mnemonic(op: BinaryOperator) -> Seq<char> {
    match op {
        BinaryOperator::Equal => "\tsete "@,
        BinaryOperator::NotEqual => "\tsetne "@,
        BinaryOperator::GreaterThan => "\tsetg "@,
        BinaryOperator::GreaterOrEqual => "\tsetge "@,
        BinaryOperator::LessThan => "\tsetl "@,
        _ => "\tsetle "@,
    }
}

/// The relation that the x86 instruction `set` with mnemonic `m` tests after `cmpl b, a`,
/// which compares `a` with `b` as signed numbers.
pub open spec fn set_condition(m: Seq<char>, a: int, b: int) -> bool {
    if m == "\tsete "@ {
        a == b
    } else if m == "\tsetne "@ {
        a != b
    } else if m == "\tsetg "@ {
        a > b
    } else if m == "\tsetge "@ {
        a >= b
    } else if m == "\tsetl "@ {
        a < b
    } else if m == "\tsetle "@ {
        a <= b
    } else {
        false
    }
}

/// Whether `op` is a comparison operator of the language.
pub open spec fn is_comparison_text(op: Seq<char>) -> bool {
    op == "=="@ || op == "!="@ || op == "<"@ || op == "<="@ || op == ">"@ || op == ">="@
}

/// The relation between its left and right operands that a comparison operator names.
pub open spec fn source_relation(op: Seq<char>, l: int, r: int) -> bool {
    if op == "=="@ {
        l == r
    } else if op == "!="@ {
        l != r
    } else if op == "<"@ {
        l < r
    } else if op == "<="@ {
        l <= r
    } else if op == ">"@ {
        l > r
    } else {
        l >= r
    }
}

/// A comparison is rendered with the `set` instruction that tests the comparison's own
/// relation: with the left operand in the destination and `cmpl right, dest` before it, the
/// instruction sets the result exactly when `left op right` holds.
pub proof fn law_comparison_tests_its_relation(op: Seq<char>, l: int, r: int)
    requires
        is_comparison_text(op),
    ensures
        spec_binary_operator(op) matches Some(b) && set_condition(set_mnemonic(b), l, r) == source_relation(op, l, r),
{
    reveal_strlit("==");
    reveal_strlit("!=");
    reveal_strlit("<");
    reveal_strlit("<=");
    reveal_strlit(">");
    reveal_strlit(">=");
    reveal_strlit("+");
    reveal_strlit("-");
    reveal_strlit("*");
    reveal_strlit("/");
    reveal_strlit("\tsete ");
    reveal_strlit("\tsetne ");
    reveal_strlit("\tsetg ");
    reveal_strlit("\tsetge ");
    reveal_strlit("\tsetl ");
    reveal_strlit("\tsetle ");
    let e = "\tsete "@;
    let ne = "\tsetne "@;
    let g = "\tsetg "@;
    let ge = "\tsetge "@;
    let lt = "\tsetl "@;
    let le = "\tsetle "@;
    assert(e != ne && e != ge && e != le) by {
        assert(e.len() != ne.len());
    }
    assert(e != g) by {
        assert(e[4] != g[4]);
    }
    assert(e != lt) by {
        assert(e[4] != lt[4]);
    }
    assert(ne != g && ne != lt) by {
        assert(ne.len() != g.len());
    }
    assert(ne != ge) by {
        assert(ne[4] != ge[4]);
    }
    assert(ne != le) by {
        assert(ne[4] != le[4]);
    }
    assert(g != ge && g != le) by {
        assert(g.len() != ge.len());
    }
    assert(g != lt) by {
        assert(g[4] != lt[4]);
    }
    assert(ge != lt) by {
        assert(ge.len() != lt.len());
    }
    assert(ge != le) by {
        assert(ge[4] != le[4]);
    }
    assert(lt != le) by {
        assert(lt.len() != le.len());
    }
    let t_eq = "=="@;
    let t_ne = "!="@;
    let t_lt = "<"@;
    let t_le = "<="@;
    let t_gt = ">"@;
    let t_ge = ">="@;
    assert(t_eq != t_ne && t_eq != t_le && t_eq != t_ge) by {
        assert(t_eq[0] != t_ne[0] && t_eq[0] != t_le[0] && t_eq[0] != t_ge[0]);
    }
    assert(t_ne != t_le && t_ne != t_ge) by {
        assert(t_ne[0] != t_le[0] && t_ne[0] != t_ge[0]);
    }
    assert(t_le != t_ge) by {
        assert(t_le[0] != t_ge[0]);
    }
    assert(t_lt != t_gt) by {
        assert(t_lt[0] != t_gt[0]);
    }
    assert(t_lt.len() == 1 && t_gt.len() == 1 && t_eq.len() == 2 && t_ne.len() == 2 && t_le.len() == 2 && t_ge.len() == 2);
    assert("+"@ != t_lt && "+"@ != t_gt && "-"@ != t_lt && "-"@ != t_gt && "*"@ != t_lt && "*"@ != t_gt
        && "/"@ != t_lt && "/"@ != t_gt) by {
        assert("+"@[0] != t_lt[0] && "+"@[0] != t_gt[0] && "-"@[0] != t_lt[0] && "-"@[0] != t_gt[0]);
        assert("*"@[0] != t_lt[0] && "*"@[0] != t_gt[0] && "/"@[0] != t_lt[0] && "/"@[0] != t_gt[0]);
    }
}

/// The assembly text of an instruction; `None` where the destination of a result that is
/// read back one byte at a time has no one-byte view.
pub open spec fn spec_instruction_text(i: SpecInstruction) -> Option<Seq<char>> {
    match i {
        SpecInstruction::JumpIfZero { condition, dest } =>
            Some("\tcmpl "@ + value_text(condition) + ", 0\n"@ + "\tje "@ + dest + "\n"@),
        SpecInstruction::JumpNotZero { condition, dest } =>
            Some("\tcmpl "@ + value_text(condition) + ", 0\n"@ + "\tjne "@ + dest + "\n"@),
        SpecInstruction::Jump { dest } => Some("\tjmp "@ + dest + "\n"@),
        SpecInstruction::Copy { src, dest } => Some(
            if value_eq(src, dest) {
                Seq::empty()
            } else if src is Address && dest is Address {
                "\tmovl "@ + value_text(src) + ", %ecx\n"@ + "\tmovl %ecx, "@ + value_text(dest) + "\n"@
            } else {
                "\tmovl "@ + value_text(src) + ", "@ + value_text(dest) + "\n"@
            },
        ),
        SpecInstruction::Unary { operator, target, dest } => {
            let mv = move_text(target, dest);
            match operator {
                UnaryOperator::Negate => Some(mv + "\tneg "@ + value_text(dest) + "\n"@),
                UnaryOperator::Compliment => Some(mv + "\tnot "@ + value_text(dest) + "\n"@),
                UnaryOperator::Not => match spec_value_n_byte_view(dest, 1) {
                    None => None,
                    Some(low) => Some(mv + "\tcmpl $0, "@ + value_text(dest) + "\n"@ + "\tmovl $0, "@ + value_text(dest) + "\n"@
                        + "\tsete "@ + value_text(low) + "\n"@),
                },
            }
        },
        SpecInstruction::StackSetup { size, func_name } => Some(
            "\t.globl _"@ + func_name + "\n"@ + "_"@ + func_name + ":\n"@ + "\tpushq %rbp\n"@ + "\tmovq %rsp, %rbp\n"@
                + "\tsubq $"@ + decimal(size) + ", %rsp\n"@,
        ),
        SpecInstruction::StackCleanup { return_label, .. } => Some(
            return_label + ":\n"@ + "\tmovq %rbp, %rsp\n"@ + "\tpopq %rbp\n"@ + "\tret\n"@,
        ),
        SpecInstruction::Label { label } => Some(label + ":\n"@),
        SpecInstruction::Binary { operator, left, right, dest } => if operator == BinaryOperator::Divide {
            let eax = SpecValue::Register(Register::EAX);
            Some(move_text(left, eax) + "\tcdq\n"@ + "\tidiv "@ + value_text(right) + "\n"@ + move_text(eax, dest))
        } else {
            let mv = move_text(left, dest);
            match operator {
                BinaryOperator::Add => Some(mv + "\taddl "@ + value_text(right) + ", "@ + value_text(dest) + "\n"@),
                BinaryOperator::Subtract => Some(mv + "\tsubl "@ + value_text(right) + ", "@ + value_text(dest) + "\n"@),
                BinaryOperator::Multiply => Some(mv + "\timull "@ + value_text(right) + ", "@ + value_text(dest) + "\n"@),
                _ => match spec_value_n_byte_view(dest, 1) {
                    None => None,
                    Some(low) => Some(mv + "\tcmpl "@ + value_text(right) + ", "@ + value_text(dest) + "\n"@
                        + "movl $0, "@ + value_text(dest) + "\n"@ + set_mnemonic(operator) + value_text(low) + "\n"@),
                },
            }
        },
    }
}

/// Why the intermediate code cannot be turned into assembly text.
#[derive(Debug, Clone, Copy, PartialEq, Eq, Structural)]
pub enum RenderError {
    /// A result that is read back one byte at a time is not kept in a register or a slot.
    InvalidDestination,
}

fn move_if_needed(src: &Value, dest: &Value, out: &mut String)
    ensures
        final(out)@ == old(out)@ + move_text(src@, dest@),
{
    if *src != *dest {
        out.append("\tmovl ");
        push_value(out, src);
        out.append(", ");
        push_value(out, dest);
        out.append("\n");
        proof {
            assert(final(out)@ =~= old(out)@ + ("\tmovl "@ + value_text(src@) + ", "@ + value_text(dest@) + "\n"@));
        }
    } else {
        assert(final(out)@ =~= old(out)@ + Seq::<char>::empty());
    }
}


fn set_mnemonic_str(op: BinaryOperator) -> (r: &'static str)
    ensures
        r@ == set_mnemonic(op),
{
    match op {
        BinaryOperator::Equal => "\tsete ",
        BinaryOperator::NotEqual => "\tsetne ",
        BinaryOperator::GreaterThan => "\tsetg ",
        BinaryOperator::GreaterOrEqual => "\tsetge ",
        BinaryOperator::LessThan => "\tsetl ",
        _ => "\tsetle ",
    }
}

/// The text of a `Copy`.
pub open spec fn copy_text(src: SpecValue, dest: SpecValue) -> Seq<char> {
    if value_eq(src, dest) {
        Seq::empty()
    } else if src is Address && dest is Address {
        "\tmovl "@ + value_text(src) + ", %ecx\n"@ + "\tmovl %ecx, "@ + value_text(dest) + "\n"@
    } else {
        "\tmovl "@ + value_text(src) + ", "@ + value_text(dest) + "\n"@
    }
}

fn write_jump_if(condition: &Value, mnemonic: &str, dest: &String, out: &mut String)
    ensures
        final(out)@ == old(out)@ + ("\tcmpl "@ + value_text(condition@) + ", 0\n"@ + mnemonic@ + dest@ + "\n"@),
{
    out.append("\tcmpl ");
    push_value(out, condition);
    out.append(", 0\n");
    out.append(mnemonic);
    out.append(dest.as_str());
    out.append("\n");
    assert(final(out)@ =~= old(out)@ + ("\tcmpl "@ + value_text(condition@) + ", 0\n"@ + mnemonic@ + dest@ + "\n"@));
}

fn write_copy(src: &Value, dest: &Value, out: &mut String)
    ensures
        final(out)@ == old(out)@ + copy_text(src@, dest@),
{
    if *src != *dest {
        if matches!(src, Value::Address(..)) && matches!(dest, Value::Address(..)) {
            out.append("\tmovl ");
            push_value(out, src);
            out.append(", %ecx\n");
            out.append("\tmovl %ecx, ");
            push_value(out, dest);
            out.append("\n");
            assert(final(out)@ =~= old(out)@ + copy_text(src@, dest@));
        } else {
            out.append("\tmovl ");
            push_value(out, src);
            out.append(", ");
            push_value(out, dest);
            out.append("\n");
            assert(final(out)@ =~= old(out)@ + copy_text(src@, dest@));
        }
    } else {
        assert(final(out)@ =~= old(out)@ + copy_text(src@, dest@));
    }
}

/// Appends `mnemonic operand` and a line break.
fn write_op(mnemonic: &str, operand: &Value, out: &mut String)
    ensures
        final(out)@ == old(out)@ + (mnemonic@ + value_text(operand@) + "\n"@),
{
    out.append(mnemonic);
    push_value(out, operand);
    out.append("\n");
    assert(final(out)@ =~= old(out)@ + (mnemonic@ + value_text(operand@) + "\n"@));
}

/// Appends `mnemonic a, b` and a line break.
fn write_op2(mnemonic: &str, a: &Value, b: &Value, out: &mut String)
    ensures
        final(out)@ == old(out)@ + (mnemonic@ + value_text(a@) + ", "@ + value_text(b@) + "\n"@),
{
    out.append(mnemonic);
    push_value(out, a);
    out.append(", ");
    push_value(out, b);
    out.append("\n");
    assert(final(out)@ =~= old(out)@ + (mnemonic@ + value_text(a@) + ", "@ + value_text(b@) + "\n"@));
}

fn write_unary(operator: UnaryOperator, target: &Value, dest: &Value, out: &mut String) -> (r: Result<(), RenderError>)
    ensures
        match r {
            Ok(()) => spec_instruction_text(SpecInstruction::Unary { operator, target: target@, dest: dest@ })
                == Some(final(out)@.skip(old(out)@.len() as int)) && final(out)@ == old(out)@ + final(out)@.skip(old(out)@.len() as int),
            Err(_) => spec_instruction_text(SpecInstruction::Unary { operator, target: target@, dest: dest@ }) is None
                && final(out)@ == old(out)@,
        },
{
    let ghost start = out@;
    if operator == UnaryOperator::Not && !dest.has_n_byte_view(1) {
        return Err(RenderError::InvalidDestination);
    }
    move_if_needed(target, dest, out);
    let ghost mv = move_text(target@, dest@);
    match operator {
        UnaryOperator::Negate => {
            write_op("\tneg ", dest, out);
            assert(out@ =~= start + (mv + "\tneg "@ + value_text(dest@) + "\n"@));
        },
        UnaryOperator::Compliment => {
            write_op("\tnot ", dest, out);
            assert(out@ =~= start + (mv + "\tnot "@ + value_text(dest@) + "\n"@));
        },
        UnaryOperator::Not => {
            let low_byte_view = dest.get_n_byte_view(1);
            write_op("\tcmpl $0, ", dest, out);
            write_op("\tmovl $0, ", dest, out);
            write_op("\tsete ", &low_byte_view, out);
            assert(out@ =~= start + (mv + "\tcmpl $0, "@ + value_text(dest@) + "\n"@ + "\tmovl $0, "@ + value_text(dest@) + "\n"@
                + "\tsete "@ + value_text(low_byte_view@) + "\n"@));
        },
    }
    proof {
        assert(out@.skip(start.len() as int) =~= spec_instruction_text(SpecInstruction::Unary { operator, target: target@, dest: dest@ }).unwrap());
    }
    Ok(())
}

fn write_divide(left: &Value, right: &Value, dest: &Value, out: &mut String)
    ensures
        Some(final(out)@.skip(old(out)@.len() as int)) == spec_instruction_text(
            SpecInstruction::Binary { operator: BinaryOperator::Divide, left: left@, right: right@, dest: dest@ },
        ),
        final(out)@ == old(out)@ + final(out)@.skip(old(out)@.len() as int),
{
    let ghost start = out@;
    let eax = Value::Register(Register::EAX);
    move_if_needed(left, &eax, out);
    out.append("\tcdq\n");
    write_op("\tidiv ", right, out);
    move_if_needed(&eax, dest, out);
    let ghost t = move_text(left@, eax@) + "\tcdq\n"@ + "\tidiv "@ + value_text(right@) + "\n"@ + move_text(eax@, dest@);
    assert(out@ =~= start + t);
    assert(out@.skip(start.len() as int) =~= t);
}

fn write_arith(operator: BinaryOperator, left: &Value, right: &Value, dest: &Value, out: &mut String)
    requires
        operator == BinaryOperator::Add || operator == BinaryOperator::Subtract || operator == BinaryOperator::Multiply,
    ensures
        Some(final(out)@.skip(old(out)@.len() as int)) == spec_instruction_text(
            SpecInstruction::Binary { operator, left: left@, right: right@, dest: dest@ },
        ),
        final(out)@ == old(out)@ + final(out)@.skip(old(out)@.len() as int),
{
    let ghost start = out@;
    move_if_needed(left, dest, out);
    let ghost mv = move_text(left@, dest@);
    let mnemonic = match operator {
        BinaryOperator::Add => "\taddl ",
        BinaryOperator::Subtract => "\tsubl ",
        _ => "\timull ",
    };
    write_op2(mnemonic, right, dest, out);
    let ghost t = mv + mnemonic@ + value_text(right@) + ", "@ + value_text(dest@) + "\n"@;
    assert(out@ =~= start + t);
    assert(out@.skip(start.len() as int) =~= t);
}

fn write_compare(operator: BinaryOperator, left: &Value, right: &Value, dest: &Value, out: &mut String)
    requires
        !(operator == BinaryOperator::Add || operator == BinaryOperator::Subtract || operator == BinaryOperator::Multiply
            || operator == BinaryOperator::Divide),
        spec_value_n_byte_view(dest@, 1) is Some,
    ensures
        Some(final(out)@.skip(old(out)@.len() as int)) == spec_instruction_text(
            SpecInstruction::Binary { operator, left: left@, right: right@, dest: dest@ },
        ),
        final(out)@ == old(out)@ + final(out)@.skip(old(out)@.len() as int),
{
    let ghost start = out@;
    move_if_needed(left, dest, out);
    let ghost mv = move_text(left@, dest@);
    write_op2("\tcmpl ", right, dest, out);
    write_op("movl $0, ", dest, out);
    let low_view = dest.get_n_byte_view(1);
    write_op(set_mnemonic_str(operator), &low_view, out);
    let ghost t = mv + "\tcmpl "@ + value_text(right@) + ", "@ + value_text(dest@) + "\n"@
        + "movl $0, "@ + value_text(dest@) + "\n"@ + set_mnemonic(operator) + value_text(low_view@) + "\n"@;
    assert(out@ =~= start + t);
    assert(out@.skip(start.len() as int) =~= t);
}

fn write_binary(operator: BinaryOperator, left: &Value, right: &Value, dest: &Value, out: &mut String) -> (r: Result<(), RenderError>)
    ensures
        match r {
            Ok(()) => spec_instruction_text(SpecInstruction::Binary { operator, left: left@, right: right@, dest: dest@ })
                == Some(final(out)@.skip(old(out)@.len() as int)) && final(out)@ == old(out)@ + final(out)@.skip(old(out)@.len() as int),
            Err(_) => spec_instruction_text(SpecInstruction::Binary { operator, left: left@, right: right@, dest: dest@ }) is None
                && final(out)@ == old(out)@,
        },
{
    if operator == BinaryOperator::Divide {
        write_divide(left, right, dest, out);
    } else if operator == BinaryOperator::Add || operator == BinaryOperator::Subtract || operator == BinaryOperator::Multiply {
        write_arith(operator, left, right, dest, out);
    } else {
        if !dest.has_n_byte_view(1) {
            return Err(RenderError::InvalidDestination);
        }
        write_compare(operator, left, right, dest, out);
    }
    Ok(())
}

impl Instruction {
    /// Appends the assembly text of this instruction to `out`; on error `out` is left as it was.
    pub fn write_to(&self, out: &mut String) -> (r: Result<(), RenderError>)
        ensures
            match r {
                Ok(()) => spec_instruction_text(self@) == Some(final(out)@.skip(old(out)@.len() as int))
                    && final(out)@ == old(out)@ + final(out)@.skip(old(out)@.len() as int),
                Err(_) => spec_instruction_text(self@) is None && final(out)@ == old(out)@,
            },
    {
        let ghost start = out@;
        match self {
            Instruction::JumpIfZero { condition, dest } => {
                write_jump_if(condition, "\tje ", dest, out);
            },
            Instruction::JumpNotZero { condition, dest } => {
                write_jump_if(condition, "\tjne ", dest, out);
            },
            Instruction::Jump { dest } => {
                out.append("\tjmp ");
                out.append(dest.as_str());
                out.append("\n");
                assert(out@ =~= start + ("\tjmp "@ + dest@ + "\n"@));
            },
            Instruction::Copy { src, dest } => {
                write_copy(src, dest, out);
            },
            Instruction::Unary { operator, target, dest } => {
                return write_unary(*operator, target, dest, out);
            },
            Instruction::StackSetup { size, func_name } => {
                out.append("\t.globl _");
                out.append(func_name.as_str());
                out.append("\n");
                out.append("_");
                out.append(func_name.as_str());
                out.append(":\n");
                out.append("\tpushq %rbp\n");
                out.append("\tmovq %rsp, %rbp\n");
                out.append("\tsubq $");
                push_decimal(out, *size as u64);
                out.append(", %rsp\n");
                assert(out@ =~= start + ("\t.globl _"@ + func_name@ + "\n"@ + "_"@ + func_name@ + ":\n"@ + "\tpushq %rbp\n"@
                    + "\tmovq %rsp, %rbp\n"@ + "\tsubq $"@ + decimal(*size as nat) + ", %rsp\n"@));
            },
            Instruction::StackCleanup { return_label, .. } => {
                out.append(return_label.as_str());
                out.append(":\n");
                out.append("\tmovq %rbp, %rsp\n");
                out.append("\tpopq %rbp\n");
                out.append("\tret\n");
                assert(out@ =~= start + (return_label@ + ":\n"@ + "\tmovq %rbp, %rsp\n"@ + "\tpopq %rbp\n"@ + "\tret\n"@));
            },
            Instruction::Label { label } => {
                out.append(label.as_str());
                out.append(":\n");
                assert(out@ =~= start + (label@ + ":\n"@));
            },
            Instruction::Binary { operator, left, right, dest } => {
                return write_binary(*operator, left, right, dest, out);
            },
        }
        proof {
            assert(out@.skip(start.len() as int) =~= spec_instruction_text(self@).unwrap());
        }
        Ok(())
    }
}


/// How many labels of one name have been made.
struct LabelCount {
    name: String,
    count: usize,
}

/// Makes labels `name0`, `name1`, ... for each label name.
pub struct LabelManager {
    label_counts: Vec<LabelCount>,
}

spec fn label_index(counts: Seq<LabelCount>, name: Seq<char>) -> int {
    choose|i: int| 0 <= i < counts.len() && counts[i].name@ == name
}

/// The number of the last label made of each name.
pub open spec fn spec_label_text(name: Seq<char>, n: nat) -> Seq<char> {
    name + decimal(n)
}

/// Makes the next label of `name`: number 0 first, then one more each time.
pub open spec fn spec_gen_label(labels: Map<Seq<char>, nat>, name: Seq<char>) -> (Map<Seq<char>, nat>, Seq<char>) {
    let n: nat = if labels.contains_key(name) { labels[name] + 1 } else { 0 };
    (labels.insert(name, n), spec_label_text(name, n))
}

/// Whether another label of `name` can be numbered.
pub open spec fn can_gen_label(labels: Map<Seq<char>, nat>, name: Seq<char>) -> bool {
    labels.contains_key(name) ==> labels[name] < usize::MAX
}

/// A label made of a name differs from every label made of that name before it.
pub proof fn law_gen_label_fresh(labels: Map<Seq<char>, nat>, name: Seq<char>, earlier: nat)
    requires
        labels.contains_key(name),
        earlier <= labels[name],
    ensures
        spec_gen_label(labels, name).1 != spec_label_text(name, earlier),
{
    let n: nat = labels[name] + 1;
    let made = spec_gen_label(labels, name).1;
    if made == spec_label_text(name, earlier) {
        assert(made.subrange(name.len() as int, made.len() as int) =~= decimal(n));
        assert(spec_label_text(name, earlier).subrange(name.len() as int, made.len() as int) =~= decimal(earlier));
        lemma_decimal_injective(n, earlier);
    }
}

impl View for LabelManager {
    type V = Map<Seq<char>, nat>;

    closed spec fn view(&self) -> Map<Seq<char>, nat> {
        Map::new(
            |k: Seq<char>| exists|i: int| 0 <= i < self.label_counts@.len() && self.label_counts@[i].name@ == k,
            |k: Seq<char>| self.label_counts@[label_index(self.label_counts@, k)].count as nat,
        )
    }
}

impl LabelManager {
    /// Each name is listed once.
    pub closed spec fn wf(&self) -> bool {
        forall|i: int, j: int|
            0 <= i < self.label_counts@.len() && 0 <= j < self.label_counts@.len() && #[trigger] self.label_counts@[i].name@
                == #[trigger] self.label_counts@[j].name@ ==> i == j
    }

    proof fn lemma_index(&self, i: int)
        requires
            self.wf(),
            0 <= i < self.label_counts@.len(),
        ensures
            label_index(self.label_counts@, self.label_counts@[i].name@) == i,
            self@.contains_key(self.label_counts@[i].name@),
            self@[self.label_counts@[i].name@] == self.label_counts@[i].count,
    {
        let k = self.label_counts@[i].name@;
        assert(exists|j: int| 0 <= j < self.label_counts@.len() && self.label_counts@[j].name@ == k);
    }

    pub fn new() -> (r: LabelManager)
        ensures
            r.wf(),
            r@ == Map::<Seq<char>, nat>::empty(),
    {
        let r = LabelManager { label_counts: Vec::new() };
        assert(r@ =~= Map::<Seq<char>, nat>::empty());
        r
    }

    fn find(&self, name: &str) -> (r: Option<usize>)
        requires
            self.wf(),
        ensures
            match r {
                Some(i) => i < self.label_counts@.len() && self.label_counts@[i as int].name@ == name@,
                None => !self@.contains_key(name@),
            },
    {
        let mut i: usize = 0;
        while i < self.label_counts.len()
            invariant
                i <= self.label_counts@.len(),
                forall|j: int| 0 <= j < i ==> self.label_counts@[j].name@ != name@,
            decreases self.label_counts@.len() - i,
        {
            if str_eq(self.label_counts[i].name.as_str(), name) {
                return Some(i);
            }
            i = i + 1;
        }
        None
    }

    pub fn has_label(&self, name: &str) -> (r: bool)
        requires
            self.wf(),
        ensures
            r == self@.contains_key(name@),
    {
        match self.find(name) {
            Some(i) => {
                proof {
                    self.lemma_index(i as int);
                }
                true
            },
            None => false,
        }
    }

    /// How many labels of `name` there have been, less one; `None` before the first.
    pub fn label_count(&self, name: &str) -> (r: Option<usize>)
        requires
            self.wf(),
        ensures
            match r {
                Some(n) => self@.contains_key(name@) && self@[name@] == n,
                None => !self@.contains_key(name@),
            },
    {
        match self.find(name) {
            Some(i) => {
                proof {
                    self.lemma_index(i as int);
                }
                Some(self.label_counts[i].count)
            },
            None => None,
        }
    }

    /// The last label made of `name`; one must have been made.
    pub fn last_label(&self, name: &str) -> (r: String)
        requires
            self.wf(),
            self@.contains_key(name@),
        ensures
            r@ == spec_label_text(name@, self@[name@]),
    {
        let n = self.label_count(name).unwrap();
        let mut r = String::from_str(name);
        push_decimal(&mut r, n as u64);
        r
    }

    /// Makes the next label of `name`.
    pub fn gen_label(&mut self, name: &str) -> (r: String)
        requires
            old(self).wf(),
            can_gen_label(old(self)@, name@),
        ensures
            final(self).wf(),
            (final(self)@, r@) == spec_gen_label(old(self)@, name@),
    {
        let ghost old_counts = self.label_counts@;
        let ghost old_view = self@;
        match self.find(name) {
            Some(i) => {
                proof {
                    self.lemma_index(i as int);
                }
                let n = self.label_counts[i].count + 1;
                let entry = LabelCount { name: String::from_str(name), count: n };
                self.label_counts.set(i, entry);
                proof {
                    let nc = self.label_counts@;
                    assert forall|a: int, b: int|
                        0 <= a < nc.len() && 0 <= b < nc.len() && #[trigger] nc[a].name@ == #[trigger] nc[b].name@ implies a == b by {
                        assert(nc[a].name@ == old_counts[a].name@);
                        assert(nc[b].name@ == old_counts[b].name@);
                    }
                    assert forall|k: Seq<char>| #[trigger] self@.contains_key(k) == old_view.insert(name@, n as nat).contains_key(k) by {
                        if old_view.contains_key(k) {
                            let j = choose|j: int| 0 <= j < old_counts.len() && old_counts[j].name@ == k;
                            assert(nc[j].name@ == k);
                        }
                        if self@.contains_key(k) {
                            let j = choose|j: int| 0 <= j < nc.len() && nc[j].name@ == k;
                            assert(old_counts[j].name@ == k);
                        }
                    }
                    assert forall|k: Seq<char>| #[trigger] self@.contains_key(k) implies self@[k]
                        == old_view.insert(name@, n as nat)[k] by {
                        let j = label_index(nc, k);
                        assert(old_counts[j].name@ == k);
                        assert(label_index(old_counts, k) == j);
                    }
                    assert(self@ =~= old_view.insert(name@, n as nat));
                }
            },
            None => {
                self.label_counts.push(LabelCount { name: String::from_str(name), count: 0 });
                proof {
                    let nc = self.label_counts@;
                    assert(forall|i: int| 0 <= i < old_counts.len() ==> nc[i] == old_counts[i]);
                    assert forall|a: int, b: int|
                        0 <= a < nc.len() && 0 <= b < nc.len() && #[trigger] nc[a].name@ == #[trigger] nc[b].name@ implies a == b by {
                        if a < old_counts.len() && b == old_counts.len() {
                            assert(old_view.contains_key(old_counts[a].name@));
                        }
                        if b < old_counts.len() && a == old_counts.len() {
                            assert(old_view.contains_key(old_counts[b].name@));
                        }
                    }
                    assert forall|k: Seq<char>| #[trigger] self@.contains_key(k) == old_view.insert(name@, 0).contains_key(k) by {
                        if old_view.contains_key(k) {
                            let j = choose|j: int| 0 <= j < old_counts.len() && old_counts[j].name@ == k;
                            assert(nc[j] == old_counts[j]);
                        }
                        if self@.contains_key(k) && k != name@ {
                            let j = choose|j: int| 0 <= j < nc.len() && nc[j].name@ == k;
                            assert(old_counts[j] == nc[j]);
                        }
                        if k == name@ {
                            assert(nc[nc.len() - 1].name@ == k);
                        }
                    }
                    assert forall|k: Seq<char>| #[trigger] self@.contains_key(k) implies self@[k] == old_view.insert(name@, 0)[k] by {
                        let j = label_index(nc, k);
                        if k != name@ {
                            assert(old_counts[j] == nc[j]);
                            assert(label_index(old_counts, k) == j);
                        } else {
                            assert(j == nc.len() - 1);
                        }
                    }
                    assert(self@ =~= old_view.insert(name@, 0));
                }
            },
        }
        self.last_label(name)
    }

    pub fn gen_ret_label(&mut self) -> (r: String)
        requires
            old(self).wf(),
            can_gen_label(old(self)@, "return"@),
        ensures
            final(self).wf(),
            (final(self)@, r@) == spec_gen_label(old(self)@, "return"@),
    {
        self.gen_label("return")
    }

    pub fn last_ret_label(&self) -> (r: String)
        requires
            self.wf(),
            self@.contains_key("return"@),
        ensures
            r@ == spec_label_text("return"@, self@["return"@]),
    {
        self.last_label("return")
    }
}


/// Why a program cannot be turned into intermediate code.
#[derive(Debug)]
pub enum CodegenError {
    /// The stack frame of a function cannot be laid out.
    Stack(StackError),
    /// The named variable has no slot.
    UnknownVariable(String),
    /// The named variable is declared while a variable of that name has a slot.
    DuplicateVariable(String),
    /// A binary operation finds no free 4-byte slot for its right operand.
    NoFreeSlot,
    /// A slot is returned where its size has never had free slots.
    MissingFreeList,
    /// A slot is returned while it is free already.
    DoubleFree,
    /// The named operator is not a unary operator of the target.
    InvalidUnaryOperator(String),
    /// The named operator is not a binary operator of the target.
    InvalidBinaryOperator(String),
    /// A `return` jumps before any function's return label exists.
    NoReturnLabel,
    /// The stack frame would outgrow the address space.
    FrameTooLarge,
    /// A label name has been numbered as often as a count can hold.
    TooManyLabels,
}

pub enum SpecCodegenError {
    Stack(StackError),
    UnknownVariable(Seq<char>),
    DuplicateVariable(Seq<char>),
    NoFreeSlot,
    MissingFreeList,
    DoubleFree,
    InvalidUnaryOperator(Seq<char>),
    InvalidBinaryOperator(Seq<char>),
    NoReturnLabel,
    FrameTooLarge,
    TooManyLabels,
}

impl View for CodegenError {
    type V = SpecCodegenError;

    open spec fn view(&self) -> SpecCodegenError {
        match self {
            CodegenError::Stack(e) => SpecCodegenError::Stack(*e),
            CodegenError::UnknownVariable(n) => SpecCodegenError::UnknownVariable(n@),
            CodegenError::DuplicateVariable(n) => SpecCodegenError::DuplicateVariable(n@),
            CodegenError::NoFreeSlot => SpecCodegenError::NoFreeSlot,
            CodegenError::MissingFreeList => SpecCodegenError::MissingFreeList,
            CodegenError::DoubleFree => SpecCodegenError::DoubleFree,
            CodegenError::InvalidUnaryOperator(n) => SpecCodegenError::InvalidUnaryOperator(n@),
            CodegenError::InvalidBinaryOperator(n) => SpecCodegenError::InvalidBinaryOperator(n@),
            CodegenError::NoReturnLabel => SpecCodegenError::NoReturnLabel,
            CodegenError::FrameTooLarge => SpecCodegenError::FrameTooLarge,
            CodegenError::TooManyLabels => SpecCodegenError::TooManyLabels,
        }
    }
}

/// The state code generation threads: the function's stack frame and the label counts.
pub struct CgState {
    pub frame: SpecFrame,
    pub labels: Map<Seq<char>, nat>,
}

pub type CgResult = Result<(Seq<SpecInstruction>, CgState), SpecCodegenError>;

pub open spec fn eax() -> SpecValue {
    SpecValue::Register(Register::EAX)
}

/// The code of an expression whose value goes to `dest` (`%eax` if none is given). A binary
/// operation computes its right operand into a free 4-byte slot, its left operand into
/// `%eax`, and returns the slot afterwards.
pub open spec fn spec_cg_expression(e: SpecExpr, st: CgState, dest: Option<SpecValue>) -> CgResult
    decreases e, 0int,
{
    let d = match dest {
        Some(v) => v,
        None => eax(),
    };
    match e {
        SpecExpr::Var { name, .. } => if st.frame.vars.contains_key(name) {
            Ok((seq![SpecInstruction::Copy { src: SpecValue::Address(st.frame.vars[name]), dest: d }], st))
        } else {
            Err(SpecCodegenError::UnknownVariable(name))
        },
        SpecExpr::Int32Constant { value, .. } => Ok((seq![SpecInstruction::Copy { src: SpecValue::Int32Literal(value), dest: d }], st)),
        SpecExpr::VarAssignment { name, value, .. } => match spec_cg_expression(*value, st, Some(eax())) {
            Err(x) => Err(x),
            Ok((is, st1)) => if st1.frame.vars.contains_key(name) {
                Ok((is + seq![
                    SpecInstruction::Copy { src: eax(), dest: SpecValue::Address(st1.frame.vars[name]) },
                    SpecInstruction::Copy { src: eax(), dest: d },
                ], st1))
            } else {
                Err(SpecCodegenError::UnknownVariable(name))
            },
        },
        SpecExpr::UnaryOp { target, operator, .. } => match spec_cg_expression(*target, st, Some(eax())) {
            Err(x) => Err(x),
            Ok((is, st1)) => match spec_unary_operator(operator) {
                None => Err(SpecCodegenError::InvalidUnaryOperator(operator)),
                Some(op) => Ok((is.push(SpecInstruction::Unary { operator: op, target: eax(), dest: d }), st1)),
            },
        },
        SpecExpr::BinaryOp { operator, left, right, .. } => if !spec_has_free(st.frame, 4) {
            Err(SpecCodegenError::NoFreeSlot)
        } else {
            let (f1, temp) = spec_reserve(st.frame, 4);
            match spec_cg_expression(*right, CgState { frame: f1, labels: st.labels }, Some(SpecValue::Address(temp))) {
                Err(x) => Err(x),
                Ok((is1, st2)) => match spec_cg_expression(*left, st2, Some(eax())) {
                    Err(x) => Err(x),
                    Ok((is2, st3)) => match spec_binary_operator(operator) {
                        None => Err(SpecCodegenError::InvalidBinaryOperator(operator)),
                        Some(op) => if !st3.frame.free.contains_key(temp.size) {
                            Err(SpecCodegenError::MissingFreeList)
                        } else if is_free(st3.frame, temp) {
                            Err(SpecCodegenError::DoubleFree)
                        } else {
                            Ok((
                                is1 + is2 + seq![SpecInstruction::Binary { operator: op, left: eax(), right: SpecValue::Address(temp), dest: d }],
                                CgState { frame: spec_free(st3.frame, temp), labels: st3.labels },
                            ))
                        },
                    },
                },
            }
        },
        SpecExpr::BlockExpression { items, .. } => spec_cg_block(items, st, false),
    }
}

/// The code of an optional value computed into `%eax`.
pub open spec fn spec_cg_value(value: Option<SpecExpr>, st: CgState) -> CgResult
    decreases value, 1int,
{
    match value {
        None => Ok((Seq::empty(), st)),
        Some(e) => spec_cg_expression(e, st, Some(eax())),
    }
}

/// The code of a statement; a `yield` jumps to `block_end`, a `return` to the last return
/// label.
pub open spec fn spec_cg_statement(s: SpecStatement, st: CgState, block_end: Seq<char>) -> CgResult
    decreases s, 0int,
{
    match s {
        SpecStatement::Return { value } => match spec_cg_value(value, st) {
            Err(x) => Err(x),
            Ok((is, st1)) => if st1.labels.contains_key("return"@) {
                Ok((is.push(SpecInstruction::Jump { dest: spec_label_text("return"@, st1.labels["return"@]) }), st1))
            } else {
                Err(SpecCodegenError::NoReturnLabel)
            },
        },
        SpecStatement::Block { items } => spec_cg_block(items, st, false),
        SpecStatement::Expression { expression } => spec_cg_expression(expression, st, None),
        SpecStatement::Yield { value } => match spec_cg_value(value, st) {
            Err(x) => Err(x),
            Ok((is, st1)) => Ok((is.push(SpecInstruction::Jump { dest: block_end }), st1)),
        },
    }
}

/// The code of the items of a block, with the names of the variables the block declares, in
/// order. Each declaration takes a fresh slot at the end of the frame and stores its
/// initial value there.
pub open spec fn spec_cg_items(items: Seq<SpecBlockItem>, st: CgState, block_end: Seq<char>) -> Result<(Seq<SpecInstruction>, CgState, Seq<Seq<char>>), SpecCodegenError>
    decreases items, 0int,
{
    if items.len() == 0 {
        Ok((Seq::empty(), st, Seq::empty()))
    } else {
        let first: Result<(Seq<SpecInstruction>, CgState, Seq<Seq<char>>), SpecCodegenError> = match items[0] {
            SpecBlockItem::Statement(s) => match spec_cg_statement(s, st, block_end) {
                Err(x) => Err(x),
                Ok((is, st1)) => Ok((is, st1, Seq::empty())),
            },
            SpecBlockItem::VarDeclaration(d) => if st.frame.vars.contains_key(d.name) {
                Err(SpecCodegenError::DuplicateVariable(d.name))
            } else if st.frame.size + spec_size(d.var_type) > usize::MAX {
                Err(SpecCodegenError::FrameTooLarge)
            } else {
                let st1 = CgState { frame: spec_reserve_var(st.frame, d.name, spec_size(d.var_type)).0, labels: st.labels };
                match d.init_value {
                    None => Ok((Seq::empty(), st1, seq![d.name])),
                    Some(init) => match spec_cg_expression(init, st1, Some(eax())) {
                        Err(x) => Err(x),
                        Ok((is, st2)) => if st2.frame.vars.contains_key(d.name) {
                            Ok((is.push(SpecInstruction::Copy { src: eax(), dest: SpecValue::Address(st2.frame.vars[d.name]) }), st2, seq![d.name]))
                        } else {
                            Err(SpecCodegenError::UnknownVariable(d.name))
                        },
                    },
                }
            },
        };
        match first {
            Err(x) => Err(x),
            Ok((is1, st1, names1)) => match spec_cg_items(items.drop_first(), st1, block_end) {
                Err(x) => Err(x),
                Ok((is2, st2, names2)) => Ok((is1 + is2, st2, names1 + names2)),
            },
        }
    }
}

/// Returns the slots of the variables `names`, in order.
pub open spec fn spec_free_vars(f: SpecFrame, names: Seq<Seq<char>>) -> Result<SpecFrame, SpecCodegenError>
    decreases names.len(),
{
    if names.len() == 0 {
        Ok(f)
    } else if !f.vars.contains_key(names[0]) {
        Err(SpecCodegenError::UnknownVariable(names[0]))
    } else if !f.free.contains_key(f.vars[names[0]].size) {
        Err(SpecCodegenError::MissingFreeList)
    } else {
        spec_free_vars(spec_free_var(f, names[0]), names.drop_first())
    }
}

/// The code of a block: a block that is not a function body gets a fresh `block_end` label,
/// placed after its items; the block's variables are freed at its end.
pub open spec fn spec_cg_block(items: Seq<SpecBlockItem>, st: CgState, is_func: bool) -> CgResult
    decreases items, 1int,
{
    if !is_func && !can_gen_label(st.labels, "block_end"@) {
        Err(SpecCodegenError::TooManyLabels)
    } else {
        let labels1 = if is_func { st.labels } else { spec_gen_label(st.labels, "block_end"@).0 };
        let end_label = if is_func { Seq::empty() } else { spec_gen_label(st.labels, "block_end"@).1 };
        match spec_cg_items(items, CgState { frame: st.frame, labels: labels1 }, end_label) {
            Err(x) => Err(x),
            Ok((is, st2, names)) => {
                let is2 = if is_func { is } else { is.push(SpecInstruction::Label { label: end_label }) };
                match spec_free_vars(st2.frame, names) {
                    Err(x) => Err(x),
                    Ok(f3) => Ok((is2, CgState { frame: f3, labels: st2.labels })),
                }
            },
        }
    }
}

/// The code of a function: its frame set up, a fresh return label, its body, and the
/// return label with the frame taken down.
pub open spec fn spec_cg_function(f: SpecFunction, labels: Map<Seq<char>, nat>) -> Result<(Seq<SpecInstruction>, Map<Seq<char>, nat>), SpecCodegenError> {
    match spec_create_stack_frame(f.body) {
        Err(x) => Err(SpecCodegenError::Stack(x)),
        Ok(frame) => if !can_gen_label(labels, "return"@) {
            Err(SpecCodegenError::TooManyLabels)
        } else {
            let (labels1, ret_label) = spec_gen_label(labels, "return"@);
            match spec_cg_block(f.body, CgState { frame, labels: labels1 }, true) {
                Err(x) => Err(x),
                Ok((is, st2)) => Ok((
                    seq![SpecInstruction::StackSetup { size: frame.size, func_name: f.name }] + is
                        + seq![SpecInstruction::StackCleanup { size: st2.frame.size, return_label: ret_label }],
                    st2.labels,
                )),
            }
        },
    }
}

/// The code of the functions from the first on, the label counts carried along.
pub open spec fn spec_cg_functions(fs: Seq<SpecFunction>, labels: Map<Seq<char>, nat>) -> Result<Seq<SpecInstruction>, SpecCodegenError>
    decreases fs.len(),
{
    if fs.len() == 0 {
        Ok(Seq::empty())
    } else {
        match spec_cg_function(fs[0], labels) {
            Err(x) => Err(x),
            Ok((is, labels1)) => match spec_cg_functions(fs.drop_first(), labels1) {
                Err(x) => Err(x),
                Ok(rest) => Ok(is + rest),
            },
        }
    }
}

/// The intermediate code of a program.
pub open spec fn spec_create_tacky(fs: Seq<SpecFunction>) -> Result<Seq<SpecInstruction>, SpecCodegenError> {
    spec_cg_functions(fs, Map::empty())
}


/// Variables declared in a block go out of scope at its end: after the code of a block, the
/// frame binds exactly the variables it bound before, each to the same slot.
pub proof fn law_block_restores_vars(items: Seq<SpecBlockItem>, st: CgState, is_func: bool)
    ensures
        spec_cg_block(items, st, is_func) matches Ok((_, st2)) ==> st2.frame.vars == st.frame.vars,
    decreases items, 1int,
{
    if is_func || can_gen_label(st.labels, "block_end"@) {
        let labels1 = if is_func { st.labels } else { spec_gen_label(st.labels, "block_end"@).0 };
        let end_label = if is_func { Seq::empty() } else { spec_gen_label(st.labels, "block_end"@).1 };
        let st1 = CgState { frame: st.frame, labels: labels1 };
        lemma_items_bind_names(items, st1, end_label);
        if let Ok((is, st2, names)) = spec_cg_items(items, st1, end_label) {
            lemma_free_vars_unbinds(st2.frame, names);
            if let Ok(f3) = spec_free_vars(st2.frame, names) {
                assert(f3.vars =~= st.frame.vars);
            }
        }
    }
}

/// The code of an assignment `name = value` is the code that computes the value into
/// `%eax`, then a store of `%eax` into the slot that `name` was bound to before, then a copy
/// of `%eax` to the destination; nothing runs between the value's code and the store.
pub proof fn law_assignment_stores_value(
    name: Seq<char>,
    value: SpecExpr,
    t: SpecType,
    st: CgState,
    dest: Option<SpecValue>,
)
    ensures
        spec_cg_expression(SpecExpr::VarAssignment { name, value: Box::new(value), expr_type: t }, st, dest) matches Ok((is, _))
            ==> {
            &&& st.frame.vars.contains_key(name)
            &&& is.len() >= 2
            &&& spec_cg_expression(value, st, Some(eax())) matches Ok((iv, _)) && is.take(is.len() - 2) == iv
            &&& is[is.len() - 2] == SpecInstruction::Copy { src: eax(), dest: SpecValue::Address(st.frame.vars[name]) }
            &&& is[is.len() - 1] == SpecInstruction::Copy {
                src: eax(),
                dest: match dest {
                    Some(d) => d,
                    None => eax(),
                },
            }
        },
{
    lemma_expression_keeps_vars(value, st, Some(eax()));
    let e = SpecExpr::VarAssignment { name, value: Box::new(value), expr_type: t };
    if let Ok((is, _)) = spec_cg_expression(e, st, dest) {
        let (iv, st1) = spec_cg_expression(value, st, Some(eax()))->Ok_0;
        assert(is.take(is.len() - 2) =~= iv);
    }
}

/// Whether an expression holds no block expression.
pub open spec fn block_free_expr(e: SpecExpr) -> bool
    decreases e,
{
    match e {
        SpecExpr::UnaryOp { target, .. } => block_free_expr(*target),
        SpecExpr::BinaryOp { left, right, .. } => block_free_expr(*left) && block_free_expr(*right),
        SpecExpr::VarAssignment { value, .. } => block_free_expr(*value),
        SpecExpr::BlockExpression { .. } => false,
        _ => true,
    }
}

/// The code of an expression leaves the frame's variable bindings as they were; where the
/// expression holds no block, it leaves the whole state as it was, every temporary slot it
/// takes going back where it was taken from.
pub proof fn law_expression_restores_frame(e: SpecExpr, st: CgState, dest: Option<SpecValue>)
    requires
        frame_wf(st.frame),
    ensures
        spec_cg_expression(e, st, dest) matches Ok((_, st2)) ==> {
            &&& st2.frame.vars == st.frame.vars
            &&& block_free_expr(e) ==> st2 == st
        },
    decreases e,
{
    lemma_expression_keeps_vars(e, st, dest);
    match e {
        SpecExpr::VarAssignment { value, .. } => law_expression_restores_frame(*value, st, Some(eax())),
        SpecExpr::UnaryOp { target, .. } => law_expression_restores_frame(*target, st, Some(eax())),
        SpecExpr::BinaryOp { left, right, .. } => if spec_has_free(st.frame, 4) {
            let (f1, temp) = spec_reserve(st.frame, 4);
            law_operations_keep_frame_wf(st.frame, 4, Seq::empty(), temp);
            let st1 = CgState { frame: f1, labels: st.labels };
            law_expression_restores_frame(*right, st1, Some(SpecValue::Address(temp)));
            if let Ok((is1, st2)) = spec_cg_expression(*right, st1, Some(SpecValue::Address(temp))) {
                if block_free_expr(e) {
                    law_expression_restores_frame(*left, st2, Some(eax()));
                    law_free_undoes_reserve(st.frame, 4);
                }
            }
        },
        _ => {},
    }
}

/// Freeing variables unbinds exactly those variables.
proof fn lemma_free_vars_unbinds(f: SpecFrame, names: Seq<Seq<char>>)
    ensures
        spec_free_vars(f, names) matches Ok(f2) ==> f2.vars == f.vars.remove_keys(names.to_set()),
    decreases names.len(),
{
    if names.len() > 0 && f.vars.contains_key(names[0]) && f.free.contains_key(f.vars[names[0]].size) {
        let g = spec_free_var(f, names[0]);
        lemma_free_vars_unbinds(g, names.drop_first());
        if let Ok(f2) = spec_free_vars(f, names) {
            assert forall|k: Seq<char>| #[trigger] names.to_set().contains(k) <==>
                (k == names[0] || names.drop_first().to_set().contains(k)) by {
                if names.to_set().contains(k) && k != names[0] {
                    let i = choose|i: int| 0 <= i < names.len() && names[i] == k;
                    assert(names.drop_first()[i - 1] == k);
                }
                if names.drop_first().to_set().contains(k) {
                    let i = choose|i: int| 0 <= i < names.drop_first().len() && names.drop_first()[i] == k;
                    assert(names[i + 1] == k);
                }
                if k == names[0] {
                    assert(names.contains(k));
                }
            }
            assert(f2.vars =~= f.vars.remove_keys(names.to_set()));
        }
    }
}

/// The code of a block's items binds, besides the variables bound before, exactly the
/// variables the items declare, none of which was bound before.
proof fn lemma_items_bind_names(items: Seq<SpecBlockItem>, st: CgState, block_end: Seq<char>)
    ensures
        spec_cg_items(items, st, block_end) matches Ok((_, st2, names)) ==> {
            &&& st2.frame.vars.remove_keys(names.to_set()) == st.frame.vars
            &&& names.to_set().disjoint(st.frame.vars.dom())
        },
    decreases items, 0int,
{
    if items.len() == 0 {
        assert(Seq::<Seq<char>>::empty().to_set() =~= Set::<Seq<char>>::empty());
        assert(st.frame.vars.remove_keys(Set::<Seq<char>>::empty()) =~= st.frame.vars);
    } else {
        match items[0] {
            SpecBlockItem::Statement(s) => {
                lemma_statement_keeps_vars(s, st, block_end);
                if let Ok((is1, st1)) = spec_cg_statement(s, st, block_end) {
                    lemma_items_bind_names(items.drop_first(), st1, block_end);
                    if let Ok((is2, st2, names2)) = spec_cg_items(items.drop_first(), st1, block_end) {
                        assert(Seq::<Seq<char>>::empty() + names2 =~= names2);
                    }
                }
            },
            SpecBlockItem::VarDeclaration(d) => {
                if !st.frame.vars.contains_key(d.name) && st.frame.size + spec_size(d.var_type) <= usize::MAX {
                    let st1 = CgState { frame: spec_reserve_var(st.frame, d.name, spec_size(d.var_type)).0, labels: st.labels };
                    let first: Result<(Seq<SpecInstruction>, CgState, Seq<Seq<char>>), SpecCodegenError> = match d.init_value {
                        None => Ok((Seq::empty(), st1, seq![d.name])),
                        Some(init) => match spec_cg_expression(init, st1, Some(eax())) {
                            Err(x) => Err(x),
                            Ok((is, st2)) => if st2.frame.vars.contains_key(d.name) {
                                Ok((is.push(SpecInstruction::Copy { src: eax(), dest: SpecValue::Address(st2.frame.vars[d.name]) }), st2, seq![d.name]))
                            } else {
                                Err(SpecCodegenError::UnknownVariable(d.name))
                            },
                        },
                    };
                    if let Some(init) = d.init_value {
                        lemma_expression_keeps_vars(init, st1, Some(eax()));
                    }
                    if let Ok((is1, st2, names1)) = first {
                        assert(st2.frame.vars == st.frame.vars.insert(d.name, spec_addr(st.frame.size, spec_size(d.var_type))));
                        lemma_items_bind_names(items.drop_first(), st2, block_end);
                        if let Ok((is2, st3, names2)) = spec_cg_items(items.drop_first(), st2, block_end) {
                            let all = seq![d.name] + names2;
                            assert forall|k: Seq<char>| #[trigger] all.to_set().contains(k) <==>
                                (k == d.name || names2.to_set().contains(k)) by {
                                if all.to_set().contains(k) && k != d.name {
                                    let i = choose|i: int| 0 <= i < all.len() && all[i] == k;
                                    assert(names2[i - 1] == k);
                                }
                                if names2.to_set().contains(k) {
                                    let i = choose|i: int| 0 <= i < names2.len() && names2[i] == k;
                                    assert(all[i + 1] == k);
                                }
                                if k == d.name {
                                    assert(all[0] == k);
                                }
                            }
                            let r = st3.frame.vars.remove_keys(names2.to_set());
                            assert(r == st2.frame.vars);
                            assert(st3.frame.vars.remove_keys(all.to_set()) =~= r.remove(d.name));
                            assert(r.remove(d.name) =~= st.frame.vars);
                            assert(all.to_set().disjoint(st.frame.vars.dom()));
                        }
                    }
                }
            },
        }
    }
}

proof fn lemma_statement_keeps_vars(s: SpecStatement, st: CgState, block_end: Seq<char>)
    ensures
        spec_cg_statement(s, st, block_end) matches Ok((_, st2)) ==> st2.frame.vars == st.frame.vars,
    decreases s, 0int,
{
    match s {
        SpecStatement::Return { value } => if let Some(e) = value {
            lemma_expression_keeps_vars(e, st, Some(eax()));
        },
        SpecStatement::Yield { value } => if let Some(e) = value {
            lemma_expression_keeps_vars(e, st, Some(eax()));
        },
        SpecStatement::Block { items } => law_block_restores_vars(items, st, false),
        SpecStatement::Expression { expression } => lemma_expression_keeps_vars(expression, st, None),
    }
}

proof fn lemma_expression_keeps_vars(e: SpecExpr, st: CgState, dest: Option<SpecValue>)
    ensures
        spec_cg_expression(e, st, dest) matches Ok((_, st2)) ==> st2.frame.vars == st.frame.vars,
    decreases e, 0int,
{
    match e {
        SpecExpr::VarAssignment { value, .. } => lemma_expression_keeps_vars(*value, st, Some(eax())),
        SpecExpr::UnaryOp { target, .. } => lemma_expression_keeps_vars(*target, st, Some(eax())),
        SpecExpr::BinaryOp { left, right, .. } => if spec_has_free(st.frame, 4) {
            let (f1, temp) = spec_reserve(st.frame, 4);
            let st1 = CgState { frame: f1, labels: st.labels };
            lemma_expression_keeps_vars(*right, st1, Some(SpecValue::Address(temp)));
            if let Ok((is1, st2)) = spec_cg_expression(*right, st1, Some(SpecValue::Address(temp))) {
                lemma_expression_keeps_vars(*left, st2, Some(eax()));
            }
        },
        SpecExpr::BlockExpression { items, .. } => law_block_restores_vars(items, st, false),
        _ => {},
    }
}

/// The label an instruction jumps to, if it jumps.
pub open spec fn jump_target(i: SpecInstruction) -> Option<Seq<char>> {
    match i {
        SpecInstruction::Jump { dest } => Some(dest),
        SpecInstruction::JumpIfZero { dest, .. } => Some(dest),
        SpecInstruction::JumpNotZero { dest, .. } => Some(dest),
        _ => None,
    }
}

/// The label an instruction places, if it places one.
pub open spec fn placed_label(i: SpecInstruction) -> Option<Seq<char>> {
    match i {
        SpecInstruction::Label { label } => Some(label),
        SpecInstruction::StackCleanup { return_label, .. } => Some(return_label),
        _ => None,
    }
}

/// The labels that some instruction of `is` jumps to.
pub open spec fn jump_targets(is: Seq<SpecInstruction>) -> Set<Seq<char>> {
    Set::new(|l: Seq<char>| exists|k: int| 0 <= k < is.len() && #[trigger] jump_target(is[k]) == Some(l))
}

/// The labels that some instruction of `is` places.
pub open spec fn placed_labels(is: Seq<SpecInstruction>) -> Set<Seq<char>> {
    Set::new(|l: Seq<char>| exists|k: int| 0 <= k < is.len() && #[trigger] placed_label(is[k]) == Some(l))
}

/// Whether one of the items, outside any nested block, is a `yield`.
pub open spec fn yields_at_top(items: Seq<SpecBlockItem>) -> bool
    decreases items.len(),
{
    items.len() > 0 && (items[0] matches SpecBlockItem::Statement(SpecStatement::Yield { .. })
        || yields_at_top(items.drop_first()))
}

/// Every jump of the code of a program goes to a label that the code places, unless a
/// function's body has a `yield` outside any block (such a `yield` has no block to end).
pub proof fn law_jumps_have_labels(fs: Seq<SpecFunction>)
    requires
        forall|i: int| 0 <= i < fs.len() ==> !yields_at_top(#[trigger] fs[i].body),
    ensures
        spec_create_tacky(fs) matches Ok(is) ==> jump_targets(is).subset_of(placed_labels(is)),
{
    lemma_functions_jumps(fs, Map::empty());
}

proof fn lemma_functions_jumps(fs: Seq<SpecFunction>, labels: Map<Seq<char>, nat>)
    requires
        forall|i: int| 0 <= i < fs.len() ==> !yields_at_top(#[trigger] fs[i].body),
    ensures
        spec_cg_functions(fs, labels) matches Ok(is) ==> jump_targets(is).subset_of(placed_labels(is)),
    decreases fs.len(),
{
    if fs.len() > 0 {
        assert(!yields_at_top(fs[0].body));
        lemma_function_jumps(fs[0], labels);
        if let Ok((is1, labels1)) = spec_cg_function(fs[0], labels) {
            assert forall|i: int| 0 <= i < fs.drop_first().len() implies !yields_at_top(#[trigger] fs.drop_first()[i].body) by {
                assert(fs.drop_first()[i] == fs[i + 1]);
            }
            lemma_functions_jumps(fs.drop_first(), labels1);
            if let Ok(rest) = spec_cg_functions(fs.drop_first(), labels1) {
                lemma_label_sets_append(is1, rest);
            }
        }
    }
}

proof fn lemma_function_jumps(f: SpecFunction, labels: Map<Seq<char>, nat>)
    requires
        !yields_at_top(f.body),
    ensures
        spec_cg_function(f, labels) matches Ok((is, _)) ==> jump_targets(is).subset_of(placed_labels(is)),
{
    if let Ok(frame) = spec_create_stack_frame(f.body) {
        if can_gen_label(labels, "return"@) {
            let (labels1, ret_label) = spec_gen_label(labels, "return"@);
            let st = CgState { frame, labels: labels1 };
            lemma_block_jumps(f.body, st, true);
            if let Ok((is, st2)) = spec_cg_block(f.body, st, true) {
                let setup = SpecInstruction::StackSetup { size: frame.size, func_name: f.name };
                let cleanup = SpecInstruction::StackCleanup { size: st2.frame.size, return_label: ret_label };
                assert(ret_labels(labels1) == Set::empty().insert(ret_label));
                lemma_label_sets_one(setup);
                lemma_label_sets_one(cleanup);
                lemma_label_sets_append(seq![setup], is);
                lemma_label_sets_append(seq![setup] + is, seq![cleanup]);
            }
        }
    }
}

/// The current return label, if one has been made.
pub open spec fn ret_labels(labels: Map<Seq<char>, nat>) -> Set<Seq<char>> {
    if labels.contains_key("return"@) {
        Set::empty().insert(spec_label_text("return"@, labels["return"@]))
    } else {
        Set::empty()
    }
}

/// The two label counts agree on the return label.
pub open spec fn same_return(a: Map<Seq<char>, nat>, b: Map<Seq<char>, nat>) -> bool {
    &&& a.contains_key("return"@) == b.contains_key("return"@)
    &&& a.contains_key("return"@) ==> a["return"@] == b["return"@]
}

proof fn lemma_label_sets_append(a: Seq<SpecInstruction>, b: Seq<SpecInstruction>)
    ensures
        jump_targets(a + b) == jump_targets(a).union(jump_targets(b)),
        placed_labels(a + b) == placed_labels(a).union(placed_labels(b)),
{
    let ab = a + b;
    assert forall|l: Seq<char>| #[trigger] jump_targets(ab).contains(l) == jump_targets(a).union(jump_targets(b)).contains(l) by {
        if jump_targets(ab).contains(l) {
            let k = choose|k: int| 0 <= k < ab.len() && #[trigger] jump_target(ab[k]) == Some(l);
            if k < a.len() {
                assert(ab[k] == a[k]);
            } else {
                assert(ab[k] == b[k - a.len()]);
            }
        }
        if jump_targets(a).contains(l) {
            let k = choose|k: int| 0 <= k < a.len() && #[trigger] jump_target(a[k]) == Some(l);
            assert(ab[k] == a[k]);
        }
        if jump_targets(b).contains(l) {
            let k = choose|k: int| 0 <= k < b.len() && #[trigger] jump_target(b[k]) == Some(l);
            assert(ab[k + a.len()] == b[k]);
        }
    }
    assert forall|l: Seq<char>| #[trigger] placed_labels(ab).contains(l) == placed_labels(a).union(placed_labels(b)).contains(l) by {
        if placed_labels(ab).contains(l) {
            let k = choose|k: int| 0 <= k < ab.len() && #[trigger] placed_label(ab[k]) == Some(l);
            if k < a.len() {
                assert(ab[k] == a[k]);
            } else {
                assert(ab[k] == b[k - a.len()]);
            }
        }
        if placed_labels(a).contains(l) {
            let k = choose|k: int| 0 <= k < a.len() && #[trigger] placed_label(a[k]) == Some(l);
            assert(ab[k] == a[k]);
        }
        if placed_labels(b).contains(l) {
            let k = choose|k: int| 0 <= k < b.len() && #[trigger] placed_label(b[k]) == Some(l);
            assert(ab[k + a.len()] == b[k]);
        }
    }
    assert(jump_targets(ab) =~= jump_targets(a).union(jump_targets(b)));
    assert(placed_labels(ab) =~= placed_labels(a).union(placed_labels(b)));
}

proof fn lemma_label_sets_one(i: SpecInstruction)
    ensures
        jump_targets(seq![i]) == (match jump_target(i) {
            Some(l) => Set::empty().insert(l),
            None => Set::<Seq<char>>::empty(),
        }),
        placed_labels(seq![i]) == (match placed_label(i) {
            Some(l) => Set::empty().insert(l),
            None => Set::<Seq<char>>::empty(),
        }),
{
    let s = seq![i];
    assert forall|l: Seq<char>| #[trigger] jump_targets(s).contains(l) == (jump_target(i) == Some(l)) by {
        if jump_target(i) == Some(l) {
            assert(jump_target(s[0]) == Some(l));
        }
    }
    assert forall|l: Seq<char>| #[trigger] placed_labels(s).contains(l) == (placed_label(i) == Some(l)) by {
        if placed_label(i) == Some(l) {
            assert(placed_label(s[0]) == Some(l));
        }
    }
    match jump_target(i) {
        Some(l) => assert(jump_targets(s) =~= Set::empty().insert(l)),
        None => assert(jump_targets(s) =~= Set::<Seq<char>>::empty()),
    }
    match placed_label(i) {
        Some(l) => assert(placed_labels(s) =~= Set::empty().insert(l)),
        None => assert(placed_labels(s) =~= Set::<Seq<char>>::empty()),
    }
}

proof fn lemma_label_sets_empty()
    ensures
        jump_targets(Seq::<SpecInstruction>::empty()) == Set::<Seq<char>>::empty(),
        placed_labels(Seq::<SpecInstruction>::empty()) == Set::<Seq<char>>::empty(),
{
    assert(jump_targets(Seq::<SpecInstruction>::empty()) =~= Set::<Seq<char>>::empty());
    assert(placed_labels(Seq::<SpecInstruction>::empty()) =~= Set::<Seq<char>>::empty());
}

/// The code of a block jumps only to labels it places and to the return label; a function
/// body also jumps to its (empty) block end where it yields outside any block.
proof fn lemma_block_jumps(items: Seq<SpecBlockItem>, st: CgState, is_func: bool)
    ensures
        spec_cg_block(items, st, is_func) matches Ok((is, st2)) ==> {
            &&& same_return(st.labels, st2.labels)
            &&& (!is_func || !yields_at_top(items)) ==> jump_targets(is).subset_of(
                placed_labels(is).union(ret_labels(st.labels)))
        },
    decreases items, 1int,
{
    if is_func || can_gen_label(st.labels, "block_end"@) {
        reveal_strlit("return");
        reveal_strlit("block_end");
        let labels1 = if is_func { st.labels } else { spec_gen_label(st.labels, "block_end"@).0 };
        let end_label = if is_func { Seq::empty() } else { spec_gen_label(st.labels, "block_end"@).1 };
        assert("return"@ != "block_end"@);
        assert(same_return(st.labels, labels1));
        let st1 = CgState { frame: st.frame, labels: labels1 };
        lemma_items_jumps(items, st1, end_label);
        if let Ok((is, st2, names)) = spec_cg_items(items, st1, end_label) {
            if !is_func {
                let label = SpecInstruction::Label { label: end_label };
                lemma_label_sets_one(label);
                lemma_label_sets_append(is, seq![label]);
                assert(is.push(label) == is + seq![label]);
            }
        }
    }
}

proof fn lemma_items_jumps(items: Seq<SpecBlockItem>, st: CgState, block_end: Seq<char>)
    ensures
        spec_cg_items(items, st, block_end) matches Ok((is, st2, _)) ==> {
            &&& same_return(st.labels, st2.labels)
            &&& jump_targets(is).subset_of(placed_labels(is).union(ret_labels(st.labels)).insert(block_end))
            &&& !yields_at_top(items) ==> jump_targets(is).subset_of(placed_labels(is).union(ret_labels(st.labels)))
        },
    decreases items, 0int,
{
    if items.len() == 0 {
        lemma_label_sets_empty();
    } else {
        let first: Result<(Seq<SpecInstruction>, CgState, Seq<Seq<char>>), SpecCodegenError> = match items[0] {
            SpecBlockItem::Statement(s) => match spec_cg_statement(s, st, block_end) {
                Err(x) => Err(x),
                Ok((is, st1)) => Ok((is, st1, Seq::empty())),
            },
            SpecBlockItem::VarDeclaration(d) => if st.frame.vars.contains_key(d.name) {
                Err(SpecCodegenError::DuplicateVariable(d.name))
            } else if st.frame.size + spec_size(d.var_type) > usize::MAX {
                Err(SpecCodegenError::FrameTooLarge)
            } else {
                let st1 = CgState { frame: spec_reserve_var(st.frame, d.name, spec_size(d.var_type)).0, labels: st.labels };
                match d.init_value {
                    None => Ok((Seq::empty(), st1, seq![d.name])),
                    Some(init) => match spec_cg_expression(init, st1, Some(eax())) {
                        Err(x) => Err(x),
                        Ok((is, st2)) => if st2.frame.vars.contains_key(d.name) {
                            Ok((is.push(SpecInstruction::Copy { src: eax(), dest: SpecValue::Address(st2.frame.vars[d.name]) }), st2, seq![d.name]))
                        } else {
                            Err(SpecCodegenError::UnknownVariable(d.name))
                        },
                    },
                }
            },
        };
        match items[0] {
            SpecBlockItem::Statement(s) => {
                lemma_statement_jumps(s, st, block_end);
            },
            SpecBlockItem::VarDeclaration(d) => {
                lemma_label_sets_empty();
                if !st.frame.vars.contains_key(d.name) && st.frame.size + spec_size(d.var_type) <= usize::MAX {
                    let st1 = CgState { frame: spec_reserve_var(st.frame, d.name, spec_size(d.var_type)).0, labels: st.labels };
                    if let Some(init) = d.init_value {
                        lemma_expression_jumps(init, st1, Some(eax()));
                        if let Ok((is, st2)) = spec_cg_expression(init, st1, Some(eax())) {
                            let copy = SpecInstruction::Copy { src: eax(), dest: SpecValue::Address(st2.frame.vars[d.name]) };
                            lemma_label_sets_one(copy);
                            lemma_label_sets_append(is, seq![copy]);
                            assert(is.push(copy) == is + seq![copy]);
                        }
                    }
                }
            },
        }
        if let Ok((is1, st1, names1)) = first {
            lemma_items_jumps(items.drop_first(), st1, block_end);
            if let Ok((is2, st2, names2)) = spec_cg_items(items.drop_first(), st1, block_end) {
                lemma_label_sets_append(is1, is2);
                assert(ret_labels(st1.labels) == ret_labels(st.labels));
                if !yields_at_top(items) {
                    assert(!yields_at_top(items.drop_first()));
                }
            }
        }
    }
}

proof fn lemma_statement_jumps(s: SpecStatement, st: CgState, block_end: Seq<char>)
    ensures
        spec_cg_statement(s, st, block_end) matches Ok((is, st2)) ==> {
            &&& same_return(st.labels, st2.labels)
            &&& jump_targets(is).subset_of(placed_labels(is).union(ret_labels(st.labels)).insert(block_end))
            &&& !(s is Yield) ==> jump_targets(is).subset_of(placed_labels(is).union(ret_labels(st.labels)))
        },
    decreases s, 0int,
{
    match s {
        SpecStatement::Return { value } => {
            lemma_label_sets_empty();
            if let Some(e) = value {
                lemma_expression_jumps(e, st, Some(eax()));
            }
            if let Ok((is, st1)) = spec_cg_value(value, st) {
                if st1.labels.contains_key("return"@) {
                    let jump = SpecInstruction::Jump { dest: spec_label_text("return"@, st1.labels["return"@]) };
                    lemma_label_sets_one(jump);
                    lemma_label_sets_append(is, seq![jump]);
                    assert(is.push(jump) == is + seq![jump]);
                }
            }
        },
        SpecStatement::Yield { value } => {
            lemma_label_sets_empty();
            if let Some(e) = value {
                lemma_expression_jumps(e, st, Some(eax()));
            }
            if let Ok((is, st1)) = spec_cg_value(value, st) {
                let jump = SpecInstruction::Jump { dest: block_end };
                lemma_label_sets_one(jump);
                lemma_label_sets_append(is, seq![jump]);
                assert(is.push(jump) == is + seq![jump]);
            }
        },
        SpecStatement::Block { items } => lemma_block_jumps(items, st, false),
        SpecStatement::Expression { expression } => lemma_expression_jumps(expression, st, None),
    }
}

proof fn lemma_expression_jumps(e: SpecExpr, st: CgState, dest: Option<SpecValue>)
    ensures
        spec_cg_expression(e, st, dest) matches Ok((is, st2)) ==> {
            &&& same_return(st.labels, st2.labels)
            &&& jump_targets(is).subset_of(placed_labels(is).union(ret_labels(st.labels)))
        },
    decreases e, 0int,
{
    let d = match dest {
        Some(v) => v,
        None => eax(),
    };
    match e {
        SpecExpr::Var { name, .. } => {
            lemma_label_sets_one(SpecInstruction::Copy { src: SpecValue::Address(st.frame.vars[name]), dest: d });
        },
        SpecExpr::Int32Constant { value, .. } => {
            lemma_label_sets_one(SpecInstruction::Copy { src: SpecValue::Int32Literal(value), dest: d });
        },
        SpecExpr::VarAssignment { name, value, .. } => {
            lemma_expression_jumps(*value, st, Some(eax()));
            if let Ok((is, st1)) = spec_cg_expression(*value, st, Some(eax())) {
                let c1 = SpecInstruction::Copy { src: eax(), dest: SpecValue::Address(st1.frame.vars[name]) };
                let c2 = SpecInstruction::Copy { src: eax(), dest: d };
                lemma_label_sets_one(c1);
                lemma_label_sets_one(c2);
                lemma_label_sets_append(seq![c1], seq![c2]);
                assert(seq![c1, c2] == seq![c1] + seq![c2]);
                lemma_label_sets_append(is, seq![c1, c2]);
            }
        },
        SpecExpr::UnaryOp { target, operator, .. } => {
            lemma_expression_jumps(*target, st, Some(eax()));
            if let Ok((is, st1)) = spec_cg_expression(*target, st, Some(eax())) {
                if let Some(op) = spec_unary_operator(operator) {
                    let u = SpecInstruction::Unary { operator: op, target: eax(), dest: d };
                    lemma_label_sets_one(u);
                    lemma_label_sets_append(is, seq![u]);
                    assert(is.push(u) == is + seq![u]);
                }
            }
        },
        SpecExpr::BinaryOp { operator, left, right, .. } => if spec_has_free(st.frame, 4) {
            let (f1, temp) = spec_reserve(st.frame, 4);
            let st1 = CgState { frame: f1, labels: st.labels };
            lemma_expression_jumps(*right, st1, Some(SpecValue::Address(temp)));
            if let Ok((is1, st2)) = spec_cg_expression(*right, st1, Some(SpecValue::Address(temp))) {
                lemma_expression_jumps(*left, st2, Some(eax()));
                if let Ok((is2, st3)) = spec_cg_expression(*left, st2, Some(eax())) {
                    if let Some(op) = spec_binary_operator(operator) {
                        let b = SpecInstruction::Binary { operator: op, left: eax(), right: SpecValue::Address(temp), dest: d };
                        lemma_label_sets_one(b);
                        lemma_label_sets_append(is1, is2);
                        lemma_label_sets_append(is1 + is2, seq![b]);
                    }
                }
            }
        },
        SpecExpr::BlockExpression { items, .. } => lemma_block_jumps(items, st, false),
    }
}


/// The slots bound to variables.
pub open spec fn var_slots(vars: Map<Seq<char>, SpecAddr>) -> Set<SpecAddr> {
    Set::new(|a: SpecAddr| exists|n: Seq<char>| #[trigger] vars.contains_key(n) && vars[n] == a)
}

/// The frame's layout is sound with the temporaries `temps` and the variables' slots handed
/// out, no temporary is a variable's slot, and no two variables share a slot.
pub open spec fn cg_sound(f: SpecFrame, temps: Set<SpecAddr>) -> bool {
    &&& layout_ok(f, temps.union(var_slots(f.vars)))
    &&& temps.disjoint(var_slots(f.vars))
    &&& forall|n1: Seq<char>, n2: Seq<char>|
        #[trigger] f.vars.contains_key(n1) && #[trigger] f.vars.contains_key(n2) && f.vars[n1] == f.vars[n2] ==> n1 == n2
}

/// Whether every variable declared in an expression, initial values included, takes room.
pub open spec fn sized_code_expr(e: SpecExpr) -> bool
    decreases e, 0int,
{
    match e {
        SpecExpr::BinaryOp { left, right, .. } => sized_code_expr(*left) && sized_code_expr(*right),
        SpecExpr::VarAssignment { value, .. } => sized_code_expr(*value),
        SpecExpr::UnaryOp { target, .. } => sized_code_expr(*target),
        SpecExpr::BlockExpression { items, .. } => sized_code_items(items),
        _ => true,
    }
}

pub open spec fn sized_code_stmt(s: SpecStatement) -> bool
    decreases s, 0int,
{
    match s {
        SpecStatement::Expression { expression } => sized_code_expr(expression),
        SpecStatement::Block { items } => sized_code_items(items),
        SpecStatement::Return { value } => match value {
            Some(e) => sized_code_expr(e),
            None => true,
        },
        SpecStatement::Yield { value } => match value {
            Some(e) => sized_code_expr(e),
            None => true,
        },
    }
}

/// Whether every variable declared among the items, at any depth and in initial values,
/// takes room.
pub open spec fn sized_code_items(items: Seq<SpecBlockItem>) -> bool
    decreases items, 1int,
{
    items.len() == 0 || (sized_code_items(items.drop_first()) && sized_code_item(items[0]))
}

pub open spec fn sized_code_item(b: SpecBlockItem) -> bool
    decreases b, 0int,
{
    match b {
        SpecBlockItem::Statement(s) => sized_code_stmt(s),
        SpecBlockItem::VarDeclaration(d) => spec_size(d.var_type) > 0 && match d.init_value {
            Some(e) => sized_code_expr(e),
            None => true,
        },
    }
}

proof fn lemma_sized_code_items_all(items: Seq<SpecBlockItem>)
    ensures
        sized_code_items(items) <==> forall|i: int| 0 <= i < items.len() ==> sized_code_item(#[trigger] items[i]),
    decreases items.len(),
{
    if items.len() > 0 {
        lemma_sized_code_items_all(items.drop_first());
        if forall|i: int| 0 <= i < items.len() ==> sized_code_item(#[trigger] items[i]) {
            assert forall|i: int| 0 <= i < items.drop_first().len() implies sized_code_item(#[trigger] items.drop_first()[i]) by {
                assert(items.drop_first()[i] == items[i + 1]);
            }
        }
        if sized_code_items(items) {
            assert forall|i: int| 0 <= i < items.len() implies sized_code_item(#[trigger] items[i]) by {
                if i > 0 {
                    assert(items.drop_first()[i - 1] == items[i]);
                }
            }
        }
    }
}

/// Code that takes room in every declaration takes room in those the frame layout sees.
proof fn lemma_sized_code_items_decls(items: Seq<SpecBlockItem>)
    requires
        sized_code_items(items),
    ensures
        sized_decls_items(items),
    decreases items, 1int,
{
    lemma_sized_code_items_all(items);
    if items.len() > 0 {
        let init = items.drop_last();
        assert forall|i: int| 0 <= i < init.len() implies sized_code_item(#[trigger] init[i]) by {
            assert(init[i] == items[i]);
        }
        lemma_sized_code_items_all(init);
        lemma_sized_code_items_decls(init);
        assert(sized_code_item(items[items.len() - 1]));
        match items.last() {
            SpecBlockItem::Statement(st) => lemma_sized_code_stmt_decls(st),
            SpecBlockItem::VarDeclaration(d) => {},
        }
    }
}

proof fn lemma_sized_code_stmt_decls(st: SpecStatement)
    requires
        sized_code_stmt(st),
    ensures
        crate::stack::sized_decls_stmt(st),
    decreases st, 0int,
{
    match st {
        SpecStatement::Expression { expression } => lemma_sized_code_expr_decls(expression),
        SpecStatement::Block { items } => lemma_sized_code_items_decls(items),
        SpecStatement::Return { value } => if let Some(e) = value {
            lemma_sized_code_expr_decls(e);
        },
        SpecStatement::Yield { value } => if let Some(e) = value {
            lemma_sized_code_expr_decls(e);
        },
    }
}

proof fn lemma_sized_code_expr_decls(e: SpecExpr)
    requires
        sized_code_expr(e),
    ensures
        crate::stack::sized_decls_expr(e),
    decreases e, 0int,
{
    match e {
        SpecExpr::BinaryOp { left, right, .. } => {
            lemma_sized_code_expr_decls(*left);
            lemma_sized_code_expr_decls(*right);
        },
        SpecExpr::VarAssignment { value, .. } => lemma_sized_code_expr_decls(*value),
        SpecExpr::UnaryOp { target, .. } => lemma_sized_code_expr_decls(*target),
        SpecExpr::BlockExpression { items, .. } => lemma_sized_code_items_decls(items),
        _ => {},
    }
}

/// Code generation never returns a slot twice: for a program whose declared variables all
/// take room, it fails neither with `DoubleFree` nor with a frame layout that returns a slot
/// twice.
pub proof fn law_codegen_never_double_frees(fs: Seq<SpecFunction>)
    requires
        forall|i: int| 0 <= i < fs.len() ==> sized_code_items(#[trigger] fs[i].body),
    ensures
        spec_create_tacky(fs) != Err::<Seq<SpecInstruction>, SpecCodegenError>(SpecCodegenError::DoubleFree),
        spec_create_tacky(fs) != Err::<Seq<SpecInstruction>, SpecCodegenError>(
            SpecCodegenError::Stack(StackError::DoubleFree),
        ),
{
    lemma_cg_functions_sound(fs, Map::empty());
}

proof fn lemma_cg_functions_sound(fs: Seq<SpecFunction>, labels: Map<Seq<char>, nat>)
    requires
        forall|i: int| 0 <= i < fs.len() ==> sized_code_items(#[trigger] fs[i].body),
    ensures
        spec_cg_functions(fs, labels) matches Err(x) ==> !(x is DoubleFree) && x != SpecCodegenError::Stack(StackError::DoubleFree),
    decreases fs.len(),
{
    if fs.len() > 0 {
        assert(sized_code_items(fs[0].body));
        lemma_cg_function_sound(fs[0], labels);
        if let Ok((is1, labels1)) = spec_cg_function(fs[0], labels) {
            assert forall|i: int| 0 <= i < fs.drop_first().len() implies sized_code_items(#[trigger] fs.drop_first()[i].body) by {
                assert(fs.drop_first()[i] == fs[i + 1]);
            }
            lemma_cg_functions_sound(fs.drop_first(), labels1);
        }
    }
}

proof fn lemma_cg_function_sound(f: SpecFunction, labels: Map<Seq<char>, nat>)
    requires
        sized_code_items(f.body),
    ensures
        spec_cg_function(f, labels) matches Err(x) ==> !(x is DoubleFree) && x != SpecCodegenError::Stack(StackError::DoubleFree),
{
    lemma_sized_code_items_decls(f.body);
    let rs = lemma_frame_layout(f.body);
    if let Ok(frame) = spec_create_stack_frame(f.body) {
        assert(var_slots(frame.vars) =~= Set::<SpecAddr>::empty());
        assert(rs.union(var_slots(frame.vars)) =~= rs);
        assert(cg_sound(frame, rs));
        if can_gen_label(labels, "return"@) {
            let (labels1, ret_label) = spec_gen_label(labels, "return"@);
            lemma_cg_block_sound(f.body, CgState { frame, labels: labels1 }, true, rs);
        }
    }
}

proof fn lemma_cg_temp_reserve(f: SpecFrame, temps: Set<SpecAddr>, s: nat)
    requires
        cg_sound(f, temps),
        spec_has_free(f, s),
    ensures
        cg_sound(spec_reserve(f, s).0, temps.insert(spec_reserve(f, s).1)),
        !temps.contains(spec_reserve(f, s).1),
{
    let vs = var_slots(f.vars);
    let all = temps.union(vs);
    lemma_layout_reserve(f, all, s);
    let (g, a) = spec_reserve(f, s);
    assert(g.vars == f.vars);
    assert(all.insert(a) =~= temps.insert(a).union(vs));
}

proof fn lemma_cg_temp_free(f: SpecFrame, temps: Set<SpecAddr>, a: SpecAddr)
    requires
        cg_sound(f, temps.insert(a)),
        !temps.contains(a),
        f.free.contains_key(a.size),
    ensures
        !is_free(f, a),
        cg_sound(spec_free(f, a), temps),
{
    let vs = var_slots(f.vars);
    let all = temps.insert(a).union(vs);
    lemma_layout_free(f, all, a);
    assert(!vs.contains(a));
    assert(all.remove(a) =~= temps.union(vs));
}

proof fn lemma_cg_reserve_var(f: SpecFrame, temps: Set<SpecAddr>, name: Seq<char>, size: nat)
    requires
        cg_sound(f, temps),
        !f.vars.contains_key(name),
        size > 0,
    ensures
        cg_sound(spec_reserve_var(f, name, size).0, temps),
{
    let vs = var_slots(f.vars);
    let all = temps.union(vs);
    lemma_layout_reserve_var(f, all, name, size);
    let (g, c) = spec_reserve_var(f, name, size);
    assert(var_slots(g.vars) =~= vs.insert(c)) by {
        assert forall|a: SpecAddr| #[trigger] var_slots(g.vars).contains(a) <==> vs.insert(c).contains(a) by {
            if var_slots(g.vars).contains(a) {
                let n = choose|n: Seq<char>| #[trigger] g.vars.contains_key(n) && g.vars[n] == a;
                if n != name {
                    assert(f.vars.contains_key(n));
                }
            }
            if vs.contains(a) {
                let n = choose|n: Seq<char>| #[trigger] f.vars.contains_key(n) && f.vars[n] == a;
                assert(g.vars.contains_key(n));
            }
            if a == c {
                assert(g.vars.contains_key(name));
            }
        }
    }
    assert(all.insert(c) =~= temps.union(var_slots(g.vars)));
    assert forall|n1: Seq<char>, n2: Seq<char>|
        #[trigger] g.vars.contains_key(n1) && #[trigger] g.vars.contains_key(n2) && g.vars[n1] == g.vars[n2] implies n1 == n2 by {
        if n1 != name && n2 == name {
            assert(f.vars.contains_key(n1));
            assert(vs.contains(f.vars[n1]));
        }
        if n2 != name && n1 == name {
            assert(f.vars.contains_key(n2));
            assert(vs.contains(f.vars[n2]));
        }
        if n1 != name && n2 != name {
            assert(f.vars.contains_key(n1) && f.vars.contains_key(n2));
        }
    }
}

proof fn lemma_cg_free_var(f: SpecFrame, temps: Set<SpecAddr>, name: Seq<char>)
    requires
        cg_sound(f, temps),
        f.vars.contains_key(name),
        f.free.contains_key(f.vars[name].size),
    ensures
        cg_sound(spec_free_var(f, name), temps),
{
    let a = f.vars[name];
    let vs = var_slots(f.vars);
    let all = temps.union(vs);
    assert(vs.contains(a));
    lemma_layout_free(f, all, a);
    let g = spec_free_var(f, name);
    assert(g.free == spec_free(f, a).free && g.size == spec_free(f, a).size);
    assert(var_slots(g.vars) =~= vs.remove(a)) by {
        assert forall|b: SpecAddr| #[trigger] var_slots(g.vars).contains(b) <==> vs.remove(a).contains(b) by {
            if var_slots(g.vars).contains(b) {
                let n = choose|n: Seq<char>| #[trigger] g.vars.contains_key(n) && g.vars[n] == b;
                assert(f.vars.contains_key(n) && n != name);
            }
            if vs.remove(a).contains(b) {
                let n = choose|n: Seq<char>| #[trigger] f.vars.contains_key(n) && f.vars[n] == b;
                assert(n != name);
                assert(g.vars.contains_key(n));
            }
        }
    }
    assert(all.remove(a) =~= temps.union(var_slots(g.vars)));
    assert(layout_ok(spec_free(f, a), all.remove(a)));
    assert forall|k: nat, i: int| #[trigger] free_at(g, k, i) <==> free_at(spec_free(f, a), k, i) by {}
    assert(layout_ok(g, temps.union(var_slots(g.vars))));
    assert forall|n1: Seq<char>, n2: Seq<char>|
        #[trigger] g.vars.contains_key(n1) && #[trigger] g.vars.contains_key(n2) && g.vars[n1] == g.vars[n2] implies n1 == n2 by {
        assert(f.vars.contains_key(n1) && f.vars.contains_key(n2));
    }
}

proof fn lemma_cg_free_vars_sound(f: SpecFrame, temps: Set<SpecAddr>, names: Seq<Seq<char>>)
    requires
        cg_sound(f, temps),
    ensures
        match spec_free_vars(f, names) {
            Ok(g) => cg_sound(g, temps),
            Err(x) => !(x is DoubleFree) && !(x is Stack),
        },
    decreases names.len(),
{
    if names.len() > 0 && f.vars.contains_key(names[0]) && f.free.contains_key(f.vars[names[0]].size) {
        lemma_cg_free_var(f, temps, names[0]);
        lemma_cg_free_vars_sound(spec_free_var(f, names[0]), temps, names.drop_first());
    }
}

proof fn lemma_cg_block_sound(items: Seq<SpecBlockItem>, st: CgState, is_func: bool, temps: Set<SpecAddr>)
    requires
        cg_sound(st.frame, temps),
        sized_code_items(items),
    ensures
        match spec_cg_block(items, st, is_func) {
            Ok((_, st2)) => cg_sound(st2.frame, temps),
            Err(x) => !(x is DoubleFree) && !(x is Stack),
        },
    decreases items, 1int,
{
    if is_func || can_gen_label(st.labels, "block_end"@) {
        let labels1 = if is_func { st.labels } else { spec_gen_label(st.labels, "block_end"@).0 };
        let end_label = if is_func { Seq::empty() } else { spec_gen_label(st.labels, "block_end"@).1 };
        let st1 = CgState { frame: st.frame, labels: labels1 };
        lemma_cg_items_sound(items, st1, end_label, temps);
        if let Ok((is, st2, names)) = spec_cg_items(items, st1, end_label) {
            lemma_cg_free_vars_sound(st2.frame, temps, names);
        }
    }
}

proof fn lemma_cg_items_sound(items: Seq<SpecBlockItem>, st: CgState, block_end: Seq<char>, temps: Set<SpecAddr>)
    requires
        cg_sound(st.frame, temps),
        sized_code_items(items),
    ensures
        match spec_cg_items(items, st, block_end) {
            Ok((_, st2, _)) => cg_sound(st2.frame, temps),
            Err(x) => !(x is DoubleFree) && !(x is Stack),
        },
    decreases items, 0int,
{
    if items.len() > 0 {
        let first: Result<(Seq<SpecInstruction>, CgState, Seq<Seq<char>>), SpecCodegenError> = match items[0] {
            SpecBlockItem::Statement(s) => match spec_cg_statement(s, st, block_end) {
                Err(x) => Err(x),
                Ok((is, st1)) => Ok((is, st1, Seq::empty())),
            },
            SpecBlockItem::VarDeclaration(d) => if st.frame.vars.contains_key(d.name) {
                Err(SpecCodegenError::DuplicateVariable(d.name))
            } else if st.frame.size + spec_size(d.var_type) > usize::MAX {
                Err(SpecCodegenError::FrameTooLarge)
            } else {
                let st1 = CgState { frame: spec_reserve_var(st.frame, d.name, spec_size(d.var_type)).0, labels: st.labels };
                match d.init_value {
                    None => Ok((Seq::empty(), st1, seq![d.name])),
                    Some(init) => match spec_cg_expression(init, st1, Some(eax())) {
                        Err(x) => Err(x),
                        Ok((is, st2)) => if st2.frame.vars.contains_key(d.name) {
                            Ok((is.push(SpecInstruction::Copy { src: eax(), dest: SpecValue::Address(st2.frame.vars[d.name]) }), st2, seq![d.name]))
                        } else {
                            Err(SpecCodegenError::UnknownVariable(d.name))
                        },
                    },
                }
            },
        };
        assert(sized_code_item(items[0]));
        match items[0] {
            SpecBlockItem::Statement(s) => lemma_cg_statement_sound(s, st, block_end, temps),
            SpecBlockItem::VarDeclaration(d) => {
                if !st.frame.vars.contains_key(d.name) && st.frame.size + spec_size(d.var_type) <= usize::MAX {
                    lemma_cg_reserve_var(st.frame, temps, d.name, spec_size(d.var_type));
                    let st1 = CgState { frame: spec_reserve_var(st.frame, d.name, spec_size(d.var_type)).0, labels: st.labels };
                    if let Some(init) = d.init_value {
                        lemma_cg_expression_sound(init, st1, Some(eax()), temps);
                    }
                }
            },
        }
        if let Ok((is1, st1, names1)) = first {
            lemma_cg_items_sound(items.drop_first(), st1, block_end, temps);
        }
    }
}

proof fn lemma_cg_statement_sound(s: SpecStatement, st: CgState, block_end: Seq<char>, temps: Set<SpecAddr>)
    requires
        cg_sound(st.frame, temps),
        sized_code_stmt(s),
    ensures
        match spec_cg_statement(s, st, block_end) {
            Ok((_, st2)) => cg_sound(st2.frame, temps),
            Err(x) => !(x is DoubleFree) && !(x is Stack),
        },
    decreases s, 0int,
{
    match s {
        SpecStatement::Return { value } => if let Some(e) = value {
            lemma_cg_expression_sound(e, st, Some(eax()), temps);
        },
        SpecStatement::Yield { value } => if let Some(e) = value {
            lemma_cg_expression_sound(e, st, Some(eax()), temps);
        },
        SpecStatement::Block { items } => lemma_cg_block_sound(items, st, false, temps),
        SpecStatement::Expression { expression } => lemma_cg_expression_sound(expression, st, None, temps),
    }
}

proof fn lemma_cg_expression_sound(e: SpecExpr, st: CgState, dest: Option<SpecValue>, temps: Set<SpecAddr>)
    requires
        cg_sound(st.frame, temps),
        sized_code_expr(e),
    ensures
        match spec_cg_expression(e, st, dest) {
            Ok((_, st2)) => cg_sound(st2.frame, temps),
            Err(x) => !(x is DoubleFree) && !(x is Stack),
        },
    decreases e, 0int,
{
    match e {
        SpecExpr::VarAssignment { value, .. } => lemma_cg_expression_sound(*value, st, Some(eax()), temps),
        SpecExpr::UnaryOp { target, .. } => lemma_cg_expression_sound(*target, st, Some(eax()), temps),
        SpecExpr::BinaryOp { left, right, .. } => if spec_has_free(st.frame, 4) {
            lemma_cg_temp_reserve(st.frame, temps, 4);
            let (f1, temp) = spec_reserve(st.frame, 4);
            let t1 = temps.insert(temp);
            let st1 = CgState { frame: f1, labels: st.labels };
            lemma_cg_expression_sound(*right, st1, Some(SpecValue::Address(temp)), t1);
            if let Ok((is1, st2)) = spec_cg_expression(*right, st1, Some(SpecValue::Address(temp))) {
                lemma_cg_expression_sound(*left, st2, Some(eax()), t1);
                if let Ok((is2, st3)) = spec_cg_expression(*left, st2, Some(eax())) {
                    if st3.frame.free.contains_key(temp.size) {
                        lemma_cg_temp_free(st3.frame, temps, temp);
                    }
                }
            }
        },
        SpecExpr::BlockExpression { items, .. } => lemma_cg_block_sound(items, st, false, temps),
        _ => {},
    }
}

pub open spec fn opt_value_view(v: Option<Value>) -> Option<SpecValue> {
    match v {
        Some(x) => Some(x@),
        None => None,
    }
}

pub open spec fn cg_state(frame: SpecFrame, labels: Map<Seq<char>, nat>) -> CgState {
    CgState { frame, labels }
}

/// The outcome `r` of a code generation step agrees with `s`: on success, the instructions
/// were appended and the frame and labels are those `s` gives; otherwise the same error.
pub open spec fn cg_agrees(
    r: Result<(), CodegenError>,
    s: CgResult,
    old_is: Seq<Instruction>,
    new_is: Seq<Instruction>,
    frame: SpecFrame,
    labels: Map<Seq<char>, nat>,
) -> bool {
    match s {
        Ok((is, st)) => r is Ok && instructions_view(new_is) == instructions_view(old_is) + is && frame == st.frame
            && labels == st.labels,
        Err(x) => r matches Err(y) && y@ == x,
    }
}

proof fn lemma_instructions_push(is: Seq<Instruction>, i: Instruction)
    ensures
        instructions_view(is.push(i)) == instructions_view(is).push(i@),
        instructions_view(is.push(i)) == instructions_view(is) + seq![i@],
{
    assert(instructions_view(is.push(i)) =~= instructions_view(is).push(i@));
    assert(instructions_view(is.push(i)) =~= instructions_view(is) + seq![i@]);
}

fn create_tacky_expression(
    expression: &Expression,
    instructions: &mut Vec<Instruction>,
    stack_frame: &mut StackFrame,
    label_manager: &mut LabelManager,
    dest: Option<Value>,
) -> (r: Result<(), CodegenError>)
    requires
        old(stack_frame).wf(),
        old(label_manager).wf(),
    ensures
        final(stack_frame).wf(),
        final(label_manager).wf(),
        cg_agrees(
            r,
            spec_cg_expression(expression@, cg_state(old(stack_frame)@, old(label_manager)@), opt_value_view(dest)),
            old(instructions)@,
            final(instructions)@,
            final(stack_frame)@,
            final(label_manager)@,
        ),
    decreases expression, 0int,
{
    let ghost is0 = instructions@;
    let dest = match dest {
        Some(v) => v,
        None => Value::Register(Register::EAX),
    };
    match expression {
        Expression::Var { name, .. } => {
            if !stack_frame.has_var(name) {
                return Err(CodegenError::UnknownVariable(name.clone()));
            }
            let addr = *stack_frame.get_var(name);
            let instr = Instruction::Copy { src: Value::Address(addr), dest };
            instructions.push(instr);
            proof {
                lemma_instructions_push(is0, instr);
            }
            Ok(())
        },
        Expression::Int32Constant { value, .. } => {
            let instr = Instruction::Copy { src: Value::Int32Literal(*value), dest };
            instructions.push(instr);
            proof {
                lemma_instructions_push(is0, instr);
            }
            Ok(())
        },
        Expression::VarAssignment { name, value, .. } => {
            create_tacky_expression(value, instructions, stack_frame, label_manager, Some(Value::Register(Register::EAX)))?;
            if !stack_frame.has_var(name) {
                return Err(CodegenError::UnknownVariable(name.clone()));
            }
            let addr = *stack_frame.get_var(name);
            let ghost is1 = instructions@;
            let i1 = Instruction::Copy { src: Value::Register(Register::EAX), dest: Value::Address(addr) };
            let i2 = Instruction::Copy { src: Value::Register(Register::EAX), dest };
            instructions.push(i1);
            instructions.push(i2);
            proof {
                lemma_instructions_push(is1, i1);
                lemma_instructions_push(is1.push(i1), i2);
                let (is_a, st1) = spec_cg_expression((**value)@, cg_state(old(stack_frame)@, old(label_manager)@), Some(eax()))->Ok_0;
                assert(instructions_view(is1) == instructions_view(is0) + is_a);
                assert(instructions_view(instructions@) =~= instructions_view(is0) + (is_a + seq![i1@, i2@]));
            }
            Ok(())
        },
        Expression::UnaryOp { target, operator, .. } => {
            create_tacky_expression(target, instructions, stack_frame, label_manager, Some(Value::Register(Register::EAX)))?;
            let op = match UnaryOperator::from_operator(operator) {
                Some(op) => op,
                None => {
                    return Err(CodegenError::InvalidUnaryOperator(operator.clone()));
                },
            };
            let ghost is1 = instructions@;
            let instr = Instruction::Unary { target: Value::Register(Register::EAX), operator: op, dest };
            instructions.push(instr);
            proof {
                lemma_instructions_push(is1, instr);
            }
            Ok(())
        },
        Expression::BinaryOp { operator, left, right, .. } => {
            if !stack_frame.has_free(4) {
                return Err(CodegenError::NoFreeSlot);
            }
            proof {
                stack_frame.lemma_wf();
            }
            let ghost f0 = stack_frame@;
            let temp = stack_frame.reserve(4);
            proof {
                assert(f0.free[4][f0.free[4].len() - 1] == temp@);
            }
            let ghost f1 = stack_frame@;
            create_tacky_expression(right, instructions, stack_frame, label_manager, Some(Value::Address(temp)))?;
            let ghost is1 = instructions@;
            let ghost st2 = cg_state(stack_frame@, label_manager@);
            create_tacky_expression(left, instructions, stack_frame, label_manager, Some(Value::Register(Register::EAX)))?;
            let op = match BinaryOperator::from_operator(operator) {
                Some(op) => op,
                None => {
                    return Err(CodegenError::InvalidBinaryOperator(operator.clone()));
                },
            };
            if !stack_frame.has_free_list(temp.size()) {
                return Err(CodegenError::MissingFreeList);
            }
            if stack_frame.is_free_slot(&temp) {
                return Err(CodegenError::DoubleFree);
            }
            let ghost is2 = instructions@;
            let instr = Instruction::Binary {
                operator: op,
                left: Value::Register(Register::EAX),
                right: Value::Address(temp),
                dest,
            };
            instructions.push(instr);
            stack_frame.free(temp);
            proof {
                lemma_instructions_push(is2, instr);
                let (a, st2s) = spec_cg_expression((**right)@, cg_state(f1, old(label_manager)@), Some(SpecValue::Address(temp@)))->Ok_0;
                let (b, st3s) = spec_cg_expression((**left)@, st2, Some(eax()))->Ok_0;
                assert(instructions_view(is1) == instructions_view(is0) + a);
                assert(instructions_view(is2) == instructions_view(is1) + b);
                assert(instructions_view(instructions@) =~= instructions_view(is0) + (a + b + seq![instr@]));
            }
            Ok(())
        },
        Expression::BlockExpression { items, .. } => {
            proof {
                assert(decreases_to!(*expression => *items));
            }
            create_tacky_block(items, instructions, stack_frame, label_manager, false)
        },
    }
}


fn create_tacky_value(
    value: &Option<Box<Expression>>,
    instructions: &mut Vec<Instruction>,
    stack_frame: &mut StackFrame,
    label_manager: &mut LabelManager,
) -> (r: Result<(), CodegenError>)
    requires
        old(stack_frame).wf(),
        old(label_manager).wf(),
    ensures
        final(stack_frame).wf(),
        final(label_manager).wf(),
        cg_agrees(
            r,
            spec_cg_value(crate::parsing::opt_expr_view(*value), cg_state(old(stack_frame)@, old(label_manager)@)),
            old(instructions)@,
            final(instructions)@,
            final(stack_frame)@,
            final(label_manager)@,
        ),
    decreases *value, 1int,
{
    match value {
        Some(expr) => create_tacky_expression(expr, instructions, stack_frame, label_manager, Some(Value::Register(Register::EAX))),
        None => {
            assert(instructions_view(instructions@) =~= instructions_view(instructions@) + Seq::<SpecInstruction>::empty());
            Ok(())
        },
    }
}

fn create_tacky_statement(
    statement: &Statement,
    instructions: &mut Vec<Instruction>,
    stack_frame: &mut StackFrame,
    label_manager: &mut LabelManager,
    block_end: &String,
) -> (r: Result<(), CodegenError>)
    requires
        old(stack_frame).wf(),
        old(label_manager).wf(),
    ensures
        final(stack_frame).wf(),
        final(label_manager).wf(),
        cg_agrees(
            r,
            spec_cg_statement(statement@, cg_state(old(stack_frame)@, old(label_manager)@), block_end@),
            old(instructions)@,
            final(instructions)@,
            final(stack_frame)@,
            final(label_manager)@,
        ),
    decreases statement, 0int,
{
    match statement {
        Statement::Return { value } => {
            create_tacky_value(value, instructions, stack_frame, label_manager)?;
            if !label_manager.has_label("return") {
                return Err(CodegenError::NoReturnLabel);
            }
            let ghost is1 = instructions@;
            let instr = Instruction::Jump { dest: label_manager.last_ret_label() };
            instructions.push(instr);
            proof {
                lemma_instructions_push(is1, instr);
            }
            Ok(())
        },
        Statement::Block { items } => {
            proof {
                assert(decreases_to!(*statement => *items));
            }
            create_tacky_block(items, instructions, stack_frame, label_manager, false)
        },
        Statement::Expression { expression } => create_tacky_expression(expression, instructions, stack_frame, label_manager, None),
        Statement::Yield { value } => {
            create_tacky_value(value, instructions, stack_frame, label_manager)?;
            let ghost is1 = instructions@;
            let instr = Instruction::Jump { dest: block_end.clone() };
            instructions.push(instr);
            proof {
                lemma_instructions_push(is1, instr);
            }
            Ok(())
        },
    }
}

pub open spec fn names_view(names: Seq<String>) -> Seq<Seq<char>> {
    names.map_values(|n: String| n@)
}

/// The code of the items of a block; returns the names of the variables it declares.
fn create_tacky_items(
    block_items: &Vec<BlockItem>,
    instructions: &mut Vec<Instruction>,
    stack_frame: &mut StackFrame,
    label_manager: &mut LabelManager,
    block_end: &String,
) -> (r: Result<Vec<String>, CodegenError>)
    requires
        old(stack_frame).wf(),
        old(label_manager).wf(),
    ensures
        final(stack_frame).wf(),
        final(label_manager).wf(),
        match spec_cg_items(items_view(block_items@), cg_state(old(stack_frame)@, old(label_manager)@), block_end@) {
            Ok((is, st, names)) => r matches Ok(vars) && names_view(vars@) == names
                && instructions_view(final(instructions)@) == instructions_view(old(instructions)@) + is
                && final(stack_frame)@ == st.frame && final(label_manager)@ == st.labels,
            Err(x) => r matches Err(y) && y@ == x,
        },
    decreases *block_items, 0int,
{
    let ghost iv = items_view(block_items@);
    let ghost is0 = instructions@;
    let ghost st0 = cg_state(stack_frame@, label_manager@);
    let mut variables: Vec<String> = Vec::new();
    proof {
        lemma_items_view(block_items@);
        assert(iv.skip(0) == iv);
        assert(names_view(variables@) =~= Seq::<Seq<char>>::empty());
        assert(instructions_view(is0) + Seq::<SpecInstruction>::empty() =~= instructions_view(is0));
    }
    let mut i: usize = 0;
    while i < block_items.len()
        invariant
            i <= block_items@.len(),
            iv == items_view(block_items@),
            iv.len() == block_items@.len(),
            is0 == old(instructions)@,
            st0 == cg_state(old(stack_frame)@, old(label_manager)@),
            stack_frame.wf(),
            label_manager.wf(),
            forall|j: int| 0 <= j < block_items@.len() ==> #[trigger] iv[j] == crate::parsing::item_view(block_items@[j]),
            instructions_view(instructions@).len() >= instructions_view(is0).len(),
            instructions_view(instructions@) == instructions_view(is0)
                + instructions_view(instructions@).skip(instructions_view(is0).len() as int),
            match spec_cg_items(iv.skip(i as int), cg_state(stack_frame@, label_manager@), block_end@) {
                Ok((is_rest, st_f, names_rest)) => spec_cg_items(iv, st0, block_end@)
                    == Ok::<(Seq<SpecInstruction>, CgState, Seq<Seq<char>>), SpecCodegenError>((
                        instructions_view(instructions@).skip(instructions_view(is0).len() as int) + is_rest,
                        st_f,
                        names_view(variables@) + names_rest,
                    )),
                Err(x) => spec_cg_items(iv, st0, block_end@)
                    == Err::<(Seq<SpecInstruction>, CgState, Seq<Seq<char>>), SpecCodegenError>(x),
            },
        decreases block_items@.len() - i,
    {
        proof {
            assert(decreases_to!(*block_items => block_items@[i as int]));
            assert(iv.skip(i as int).drop_first() == iv.skip(i + 1));
            assert(iv.skip(i as int)[0] == iv[i as int]);
        }
        let ghost done = instructions_view(instructions@).skip(instructions_view(is0).len() as int);
        let ghost names_done = names_view(variables@);
        let ghost is_before = instructions@;
        let ghost st_before = cg_state(stack_frame@, label_manager@);
        match &block_items[i] {
            BlockItem::Statement(statement) => {
                let res = create_tacky_statement(statement, instructions, stack_frame, label_manager, block_end);
                match res {
                    Err(x) => {
                        return Err(x);
                    },
                    Ok(()) => {},
                }
                proof {
                    let (is1, st1) = spec_cg_statement(statement@, st_before, block_end@)->Ok_0;
                    assert(instructions_view(instructions@) =~= instructions_view(is0) + (done + is1));
                    assert(instructions_view(instructions@).skip(instructions_view(is0).len() as int) =~= done + is1);
                    assert(names_done + Seq::<Seq<char>>::empty() =~= names_done);
                    match spec_cg_items(iv.skip(i + 1), cg_state(stack_frame@, label_manager@), block_end@) {
                        Ok((is_rest, st_f, names_rest)) => {
                            assert(done + (is1 + is_rest) =~= (done + is1) + is_rest);
                            assert(names_done + (Seq::<Seq<char>>::empty() + names_rest) =~= names_done + names_rest);
                        },
                        Err(x) => {},
                    }
                }
            },
            BlockItem::VarDeclaration(var_declaration) => {
                if stack_frame.has_var(&var_declaration.name) {
                    return Err(CodegenError::DuplicateVariable(var_declaration.name.clone()));
                }
                let size = var_declaration.var_type.get_size();
                if stack_frame.size() > usize::MAX - size {
                    return Err(CodegenError::FrameTooLarge);
                }
                let _ = stack_frame.reserve_var(var_declaration.name.clone(), size);
                let ghost st1 = cg_state(stack_frame@, label_manager@);
                let ghost is1 = instructions@;
                let ghost added: Seq<SpecInstruction>;
                match &var_declaration.init_value {
                    None => {
                        proof {
                            added = Seq::empty();
                        }
                    },
                    Some(init) => {
                        let res = create_tacky_expression(init, instructions, stack_frame, label_manager, Some(Value::Register(Register::EAX)));
                        match res {
                            Err(x) => {
                                return Err(x);
                            },
                            Ok(()) => {},
                        }
                        if !stack_frame.has_var(&var_declaration.name) {
                            return Err(CodegenError::UnknownVariable(var_declaration.name.clone()));
                        }
                        let addr = *stack_frame.get_var(&var_declaration.name);
                        let ghost is2 = instructions@;
                        let instr = Instruction::Copy { src: Value::Register(Register::EAX), dest: Value::Address(addr) };
                        instructions.push(instr);
                        proof {
                            lemma_instructions_push(is2, instr);
                            let (ise, st2) = spec_cg_expression(init@, st1, Some(eax()))->Ok_0;
                            added = ise.push(instr@);
                        }
                    },
                }
                let ghost vbefore = variables@;
                variables.push(var_declaration.name.clone());
                proof {
                    assert(names_view(variables@) =~= names_done + seq![var_declaration.name@]);
                    assert(instructions_view(instructions@) =~= instructions_view(is0) + (done + added));
                    assert(instructions_view(instructions@).skip(instructions_view(is0).len() as int) =~= done + added);
                    match spec_cg_items(iv.skip(i + 1), cg_state(stack_frame@, label_manager@), block_end@) {
                        Ok((is_rest, st_f, names_rest)) => {
                            assert(done + (added + is_rest) =~= (done + added) + is_rest);
                            assert(names_done + (seq![var_declaration.name@] + names_rest)
                                =~= (names_done + seq![var_declaration.name@]) + names_rest);
                        },
                        Err(x) => {},
                    }
                }
            },
        }
        i = i + 1;
    }
    proof {
        assert(iv.skip(i as int) =~= Seq::<SpecBlockItem>::empty());
        let done = instructions_view(instructions@).skip(instructions_view(is0).len() as int);
        assert(done + Seq::<SpecInstruction>::empty() =~= done);
        assert(names_view(variables@) + Seq::<Seq<char>>::empty() =~= names_view(variables@));
    }
    Ok(variables)
}

fn create_tacky_block(
    block_items: &Vec<BlockItem>,
    instructions: &mut Vec<Instruction>,
    stack_frame: &mut StackFrame,
    label_manager: &mut LabelManager,
    is_func: bool,
) -> (r: Result<(), CodegenError>)
    requires
        old(stack_frame).wf(),
        old(label_manager).wf(),
    ensures
        final(stack_frame).wf(),
        final(label_manager).wf(),
        cg_agrees(
            r,
            spec_cg_block(items_view(block_items@), cg_state(old(stack_frame)@, old(label_manager)@), is_func),
            old(instructions)@,
            final(instructions)@,
            final(stack_frame)@,
            final(label_manager)@,
        ),
    decreases *block_items, 1int,
{
    let ghost is0 = instructions@;
    let end_label = if !is_func {
        match label_manager.label_count("block_end") {
            Some(n) => {
                if n == usize::MAX {
                    return Err(CodegenError::TooManyLabels);
                }
            },
            None => {},
        }
        label_manager.gen_label("block_end")
    } else {
        String::new()
    };
    let ghost st1 = cg_state(stack_frame@, label_manager@);
    let ghost is_start = instructions@;
    let variables = create_tacky_items(block_items, instructions, stack_frame, label_manager, &end_label)?;
    let ghost is1 = instructions@;
    if !is_func {
        let instr = Instruction::Label { label: end_label };
        instructions.push(instr);
        proof {
            lemma_instructions_push(is1, instr);
        }
    }
    let ghost is2 = instructions@;
    let ghost f2 = stack_frame@;
    let ghost l2 = label_manager@;
    proof {
        let (is_items, st2, names) = spec_cg_items(items_view(block_items@), st1, end_label@)->Ok_0;
        let is_all = if is_func { is_items } else { is_items.push(SpecInstruction::Label { label: end_label@ }) };
        assert(instructions_view(is2) =~= instructions_view(is0) + is_all);
    }
    let mut j: usize = 0;
    proof {
        assert(names_view(variables@).skip(0) == names_view(variables@));
    }
    while j < variables.len()
        invariant
            j <= variables@.len(),
            stack_frame.wf(),
            label_manager.wf(),
            label_manager@ == l2,
            instructions@ == is2,
            match spec_cg_block(items_view(block_items@), cg_state(old(stack_frame)@, old(label_manager)@), is_func) {
                Ok((is_all, st_f)) => instructions_view(is2) == instructions_view(old(instructions)@) + is_all
                    && st_f.labels == l2
                    && spec_free_vars(f2, names_view(variables@)) == Ok::<SpecFrame, SpecCodegenError>(st_f.frame),
                Err(x) => spec_free_vars(f2, names_view(variables@)) == Err::<SpecFrame, SpecCodegenError>(x),
            },
            spec_free_vars(f2, names_view(variables@)) == spec_free_vars(stack_frame@, names_view(variables@).skip(j as int)),
        decreases variables@.len() - j,
    {
        let name = &variables[j];
        proof {
            let nv = names_view(variables@);
            assert(nv.skip(j as int).drop_first() == nv.skip(j + 1));
            assert(nv.skip(j as int)[0] == name@);
        }
        if !stack_frame.has_var(name) {
            return Err(CodegenError::UnknownVariable(name.clone()));
        }
        let size = stack_frame.get_var(name).size();
        if !stack_frame.has_free_list(size) {
            return Err(CodegenError::MissingFreeList);
        }
        stack_frame.free_var(name);
        j = j + 1;
    }
    proof {
        assert(names_view(variables@).skip(j as int) =~= Seq::<Seq<char>>::empty());
    }
    Ok(())
}


fn create_tacky_func(function: &Function, instructions: &mut Vec<Instruction>, label_manager: &mut LabelManager) -> (r: Result<(), CodegenError>)
    requires
        old(label_manager).wf(),
    ensures
        final(label_manager).wf(),
        match spec_cg_function(function@, old(label_manager)@) {
            Ok((is, labels)) => r is Ok && instructions_view(final(instructions)@) == instructions_view(old(instructions)@) + is
                && final(label_manager)@ == labels,
            Err(x) => r matches Err(y) && y@ == x,
        },
{
    let ghost is0 = instructions@;
    let mut stack = match create_stack_frame(function) {
        Ok(frame) => frame,
        Err(x) => {
            return Err(CodegenError::Stack(x));
        },
    };
    let ghost frame0 = stack@;
    let setup = Instruction::StackSetup { func_name: function.name.clone(), size: stack.size() };
    instructions.push(setup);
    let ghost is1 = instructions@;
    match label_manager.label_count("return") {
        Some(n) => {
            if n == usize::MAX {
                return Err(CodegenError::TooManyLabels);
            }
        },
        None => {},
    }
    let ret_label = label_manager.gen_ret_label();
    create_tacky_block(&function.body, instructions, &mut stack, label_manager, true)?;
    let ghost is2 = instructions@;
    let cleanup = Instruction::StackCleanup { return_label: ret_label, size: stack.size() };
    instructions.push(cleanup);
    proof {
        lemma_instructions_push(is0, setup);
        lemma_instructions_push(is2, cleanup);
        let (labels1, rl) = spec_gen_label(old(label_manager)@, "return"@);
        let (isb, st2) = spec_cg_block(function@.body, CgState { frame: frame0, labels: labels1 }, true)->Ok_0;
        assert(instructions_view(is2) == instructions_view(is1) + isb);
        assert(instructions_view(instructions@) =~= instructions_view(is0) + (seq![setup@] + isb + seq![cleanup@]));
    }
    Ok(())
}

/// The intermediate code of a program: the code of its functions, one after the other.
pub fn create_tacky(ast: Program) -> (r: Result<Vec<Instruction>, CodegenError>)
    ensures
        match spec_create_tacky(ast@.body) {
            Ok(is) => r matches Ok(v) && instructions_view(v@) == is,
            Err(x) => r matches Err(y) && y@ == x,
        },
{
    let ghost fv = ast@.body;
    let mut instructions: Vec<Instruction> = Vec::new();
    let mut label_manager = LabelManager::new();
    let mut i: usize = 0;
    proof {
        assert(fv.skip(0) == fv);
        assert(instructions_view(instructions@) =~= Seq::<SpecInstruction>::empty());
    }
    while i < ast.body.len()
        invariant
            i <= ast.body@.len(),
            fv == functions_view(ast.body@),
            fv.len() == ast.body@.len(),
            label_manager.wf(),
            match spec_cg_functions(fv.skip(i as int), label_manager@) {
                Ok(rest) => spec_create_tacky(fv) == Ok::<Seq<SpecInstruction>, SpecCodegenError>(instructions_view(instructions@) + rest),
                Err(x) => spec_create_tacky(fv) == Err::<Seq<SpecInstruction>, SpecCodegenError>(x),
            },
        decreases ast.body@.len() - i,
    {
        let func = &ast.body[i];
        proof {
            assert(fv[i as int] == crate::parsing::function_view(ast.body@[i as int]));
            assert(fv.skip(i as int).drop_first() == fv.skip(i + 1));
            assert(fv.skip(i as int)[0] == fv[i as int]);
        }
        let ghost is_before = instructions_view(instructions@);
        let ghost l_before = label_manager@;
        create_tacky_func(func, &mut instructions, &mut label_manager)?;
        proof {
            let (is_f, l1) = spec_cg_function(fv[i as int], l_before)->Ok_0;
            match spec_cg_functions(fv.skip(i + 1), label_manager@) {
                Ok(rest) => {
                    assert(instructions_view(instructions@) + rest =~= is_before + (is_f + rest));
                },
                Err(x) => {},
            }
        }
        i = i + 1;
    }
    proof {
        assert(fv.skip(i as int) =~= Seq::<SpecFunction>::empty());
        assert(instructions_view(instructions@) + Seq::<SpecInstruction>::empty() =~= instructions_view(instructions@));
    }
    Ok(instructions)
}

/// The text of the instructions `is`, one after the other; `None` if one has none.
pub open spec fn spec_instructions_text(is: Seq<SpecInstruction>) -> Option<Seq<char>>
    decreases is.len(),
{
    if is.len() == 0 {
        Some(Seq::empty())
    } else {
        match (spec_instructions_text(is.drop_last()), spec_instruction_text(is.last())) {
            (Some(a), Some(b)) => Some(a + b),
            _ => None,
        }
    }
}

/// Instructions are rendered one by one: the text of two runs of instructions, one after
/// the other, is the text of the first followed by that of the second, and there is none
/// where either has none.
pub proof fn law_instructions_text_append(a: Seq<SpecInstruction>, b: Seq<SpecInstruction>)
    ensures
        spec_instructions_text(a + b) == (match (spec_instructions_text(a), spec_instructions_text(b)) {
            (Some(x), Some(y)) => Some(x + y),
            _ => None,
        }),
    decreases b.len(),
{
    if b.len() == 0 {
        assert(a + b =~= a);
        if let Some(x) = spec_instructions_text(a) {
            assert(x + Seq::<char>::empty() =~= x);
        }
    } else {
        let b1 = b.drop_last();
        law_instructions_text_append(a, b1);
        assert((a + b).drop_last() =~= a + b1);
        assert((a + b).last() == b.last());
        if let (Some(x), Some(y1), Some(z)) = (spec_instructions_text(a), spec_instructions_text(b1), spec_instruction_text(b.last())) {
            assert(x + y1 + z =~= x + (y1 + z));
        }
    }
}

/// The entry point that calls `main`.
pub open spec fn asm_header() -> Seq<char> {
    "\t.globl WinMain\n"@ + "WinMain:\n"@ + "\tcall _main\n"@ + "\tret\n"@
}

/// The assembly text of a program's intermediate code: the entry point, then the
/// instructions.
pub open spec fn spec_render_asm(is: Seq<SpecInstruction>) -> Option<Seq<char>> {
    match spec_instructions_text(is) {
        Some(t) => Some(asm_header() + t),
        None => None,
    }
}

proof fn lemma_instructions_text_none(is: Seq<SpecInstruction>, k: int)
    requires
        0 <= k <= is.len(),
        spec_instructions_text(is.take(k)) is None,
    ensures
        spec_instructions_text(is) is None,
    decreases is.len() - k,
{
    if k < is.len() {
        assert(is.take(k + 1).drop_last() == is.take(k));
        lemma_instructions_text_none(is, k + 1);
    } else {
        assert(is.take(k) == is);
    }
}

/// The assembly text of a program's intermediate code.
pub fn render_asm(instructions: &Vec<Instruction>) -> (r: Result<String, RenderError>)
    ensures
        match r {
            Ok(text) => spec_render_asm(instructions_view(instructions@)) == Some(text@),
            Err(_) => spec_render_asm(instructions_view(instructions@)) is None,
        },
{
    let ghost iv = instructions_view(instructions@);
    let mut out = String::new();
    out.append("\t.globl WinMain\n");
    out.append("WinMain:\n");
    out.append("\tcall _main\n");
    out.append("\tret\n");
    proof {
        assert(out@ =~= asm_header());
        assert(iv.take(0) =~= Seq::<SpecInstruction>::empty());
        assert(out@ =~= asm_header() + Seq::<char>::empty());
    }
    let mut i: usize = 0;
    while i < instructions.len()
        invariant
            i <= instructions@.len(),
            iv == instructions_view(instructions@),
            iv.len() == instructions@.len(),
            spec_instructions_text(iv.take(i as int)) matches Some(t) && out@ == asm_header() + t,
        decreases instructions@.len() - i,
    {
        proof {
            assert(iv.take(i + 1).drop_last() == iv.take(i as int));
            assert(iv.take(i + 1).last() == instructions@[i as int]@);
        }
        let ghost before = out@;
        match instructions[i].write_to(&mut out) {
            Err(e) => {
                proof {
                    lemma_instructions_text_none(iv, i + 1);
                }
                return Err(e);
            },
            Ok(()) => {},
        }
        proof {
            let t = spec_instructions_text(iv.take(i as int))->Some_0;
            let b = out@.skip(before.len() as int);
            assert(out@ =~= asm_header() + (t + b));
        }
        i = i + 1;
    }
    proof {
        assert(iv.take(i as int) =~= iv);
    }
    Ok(out)
}

} // verus!
