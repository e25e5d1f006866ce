use vstd::prelude::*;

verus! {

broadcast use vstd::std_specs::vec::group_vec_axioms;

/// The types of the language.
pub enum Type {
    Int32,
    FuncType { return_type: Box<Type>, param_types: Vec<Box<Type>> },
    Unknown,
    Any,
}

/// The mathematical value of a `Type`.
pub enum SpecType {
    Int32,
    FuncType { return_type: Box<SpecType>, param_types: Seq<SpecType> },
    Unknown,
    Any,
}

pub open spec fn type_view(t: Type) -> SpecType
    decreases t,
{
    match t {
        Type::Int32 => SpecType::Int32,
        Type::FuncType { return_type, param_types } => SpecType::FuncType {
            return_type: Box::new(type_view(*return_type)),
            param_types: types_view(param_types@),
        },
        Type::Unknown => SpecType::Unknown,
        Type::Any => SpecType::Any,
    }
}

pub open spec fn types_view(ts: Seq<Box<Type>>) -> Seq<SpecType>
    decreases ts,
{
    if ts.len() == 0 {
        Seq::empty()
    } else {
        seq![type_view(*ts[0])] + types_view(ts.drop_first())
    }
}

impl View for Type {
    type V = SpecType;

    open spec fn view(&self) -> SpecType {
        type_view(*self)
    }
}

/// The size in bytes of a value of type `t` (a function stands for its return value).
pub open spec fn spec_size(t: SpecType) -> nat
    decreases t,
{
    match t {
        SpecType::Int32 => 4,
        SpecType::FuncType { return_type, .. } => spec_size(*return_type),
        SpecType::Unknown => 0,
        SpecType::Any => 0,
    }
}

/// Whether a value of type `from` may be used where `to` is expected.
/// Asked only of `Int32` and `Any` (see `Type::is_convertable_to`).
pub open spec fn spec_convertable(from: SpecType, to: SpecType) -> bool {
    match from {
        SpecType::Int32 => to is Int32,
        _ => true,
    }
}

/// The text of a type: `i32`, `unknown`, `any`, or `fn(params) -> result` with the
/// parameter types separated by `, `.
pub open spec fn type_text(t: SpecType) -> Seq<char>
    decreases t,
{
    match t {
        SpecType::Int32 => "i32"@,
        SpecType::FuncType { return_type, param_types } =>
            "fn("@ + params_text(param_types) + ") -> "@ + type_text(*return_type),
        SpecType::Unknown => "unknown"@,
        SpecType::Any => "any"@,
    }
}

/// The texts of the types `ps`, separated by `, `.
pub open spec fn params_text(ps: Seq<SpecType>) -> Seq<char>
    decreases ps,
{
    if ps.len() == 0 {
        Seq::empty()
    } else if ps.len() == 1 {
        type_text(ps[0])
    } else {
        params_text(ps.drop_last()) + ", "@ + type_text(ps.last())
    }
}

proof fn lemma_types_view_len(ts: Seq<Box<Type>>)
    ensures
        types_view(ts).len() == ts.len(),
        forall|i: int| 0 <= i < ts.len() ==> #[trigger] types_view(ts)[i] == type_view(*ts[i]),
    decreases ts.len(),
{
    if ts.len() > 0 {
        lemma_types_view_len(ts.drop_first());
        assert forall|i: int| 0 <= i < ts.len() implies #[trigger] types_view(ts)[i] == type_view(*ts[i]) by {
            if i > 0 {
                assert(ts.drop_first()[i - 1] == ts[i]);
            }
        }
    }
}

proof fn lemma_types_view_ext(a: Seq<Box<Type>>, b: Seq<Box<Type>>)
    requires
        a.len() == b.len(),
        forall|i: int| 0 <= i < a.len() ==> type_view(*#[trigger] a[i]) == type_view(*b[i]),
    ensures
        types_view(a) == types_view(b),
{
    lemma_types_view_len(a);
    lemma_types_view_len(b);
    assert(types_view(a) =~= types_view(b));
}

impl Type {
    pub fn get_size(&self) -> (r: usize)
        ensures
            r == spec_size(self@),
        decreases self,
    {
        match self {
            Type::Int32 => 4,
            Type::FuncType { return_type, .. } => return_type.get_size(),
            Type::Unknown => 0,
            Type::Any => 0,
        }
    }

    /// Function types and the unknown type cannot be asked about conversions.
    pub fn is_convertable_to(&self, other: &Type) -> (r: bool)
        requires
            self@ is Int32 || self@ is Any,
        ensures
            r == spec_convertable(self@, other@),
    {
        match self {
            Type::Int32 => matches!(other, Type::Int32),
            _ => true,
        }
    }

    /// The text of this type, as `type_text` gives it.
    pub fn to_text(&self) -> (r: String)
        ensures
            r@ == type_text(self@),
        decreases self,
    {
        match self {
            Type::Int32 => String::from_str("i32"),
            Type::FuncType { return_type, param_types } => {
                let ghost ps = types_view(param_types@);
                proof {
                    lemma_types_view_len(param_types@);
                }
                let mut s = String::from_str("fn(");
                let mut i: usize = 0;
                while i < param_types.len()
                    invariant
                        *self matches Type::FuncType { param_types: pt, .. } && pt == *param_types,
                        ps == types_view(param_types@),
                        ps.len() == param_types@.len(),
                        forall|j: int| 0 <= j < ps.len() ==> #[trigger] ps[j] == type_view(*param_types@[j]),
                        i <= param_types.len(),
                        s@ == "fn("@ + params_text(ps.take(i as int)),
                    decreases param_types.len() - i,
                {
                    proof {
                        assert(decreases_to!(param_types => param_types[i as int]));
                        assert(decreases_to!(*self => param_types[i as int]));
                    }
                    let ghost before = s@;
                    if i > 0 {
                        s.append(", ");
                    }
                    let p = param_types[i].to_text();
                    s.append(p.as_str());
                    proof {
                        let t = ps.take(i + 1);
                        assert(t.drop_last() =~= ps.take(i as int));
                        assert(t.last() == ps[i as int]);
                        if i == 0 {
                            assert(ps.take(0) =~= Seq::<SpecType>::empty());
                            assert(s@ =~= "fn("@ + params_text(t));
                        } else {
                            assert(s@ =~= "fn("@ + params_text(t));
                        }
                    }
                    i = i + 1;
                }
                proof {
                    assert(ps.take(i as int) =~= ps);
                }
                s.append(") -> ");
                let r = return_type.to_text();
                s.append(r.as_str());
                s
            },
            Type::Unknown => String::from_str("unknown"),
            Type::Any => String::from_str("any"),
        }
    }

    /// A copy of this type.
    pub fn duplicate(&self) -> (r: Type)
        ensures
            r@ == self@,
        decreases self,
    {
        match self {
            Type::Int32 => Type::Int32,
            Type::FuncType { return_type, param_types } => {
                let mut params: Vec<Box<Type>> = Vec::new();
                let mut i: usize = 0;
                while i < param_types.len()
                    invariant
                        *self matches Type::FuncType { param_types: pt, .. } && pt == *param_types,
                        i <= param_types.len(),
                        params@.len() == i,
                        forall|j: int| 0 <= j < i ==> type_view(*#[trigger] params@[j]) == type_view(*param_types@[j]),
                    decreases param_types.len() - i,
                {
                    proof {
                        assert(decreases_to!(param_types => param_types[i as int]));
                        assert(decreases_to!(*self => param_types[i as int]));
                    }
                    let p = param_types[i].duplicate();
                    params.push(Box::new(p));
                    i = i + 1;
                }
                proof {
                    lemma_types_view_ext(params@, param_types@);
                }
                Type::FuncType { return_type: Box::new(return_type.duplicate()), param_types: params }
            },
            Type::Unknown => Type::Unknown,
            Type::Any => Type::Any,
        }
    }
}

} // verus!
