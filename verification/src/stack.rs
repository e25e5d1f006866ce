use vstd::prelude::*;
use std::collections::HashMap;
use crate::text::{str_eq, decimal, push_decimal};
use crate::typing::spec_size;
use crate::parsing::{
    BlockItem, Expression, Function, Statement, SpecBlockItem, SpecExpr, SpecStatement, items_view,
    lemma_items_view,
};

verus! {

broadcast use vstd::std_specs::hash::group_hash_axioms;

/// A slot of a stack frame: `size` bytes at `offset` below the frame base. A view is a
/// narrower slot that shares the end of the slot it was taken from.
#[derive(Clone, Copy, Debug, Eq)]
pub struct StackAddr {
    offset: usize,
    size: usize,
    is_view: bool,
}

/// The mathematical value of a `StackAddr`.
pub struct SpecAddr {
    pub offset: nat,
    pub size: nat,
    pub is_view: bool,
}

impl View for StackAddr {
    type V = SpecAddr;

    closed spec fn view(&self) -> SpecAddr {
        SpecAddr { offset: self.offset as nat, size: self.size as nat, is_view: self.is_view }
    }
}

/// Two slots are the same slot when they start at the same offset.
impl PartialEq for StackAddr {
    fn eq(&self, other: &Self) -> (r: bool) {
        self.offset == other.offset
    }
}

impl vstd::std_specs::cmp::PartialEqSpecImpl for StackAddr {
    open spec fn obeys_eq_spec() -> bool {
        true
    }

    open spec fn eq_spec(&self, other: &StackAddr) -> bool {
        self@.offset == other@.offset
    }
}

/// A fresh slot (not a view).
pub open spec fn spec_addr(offset: nat, size: nat) -> SpecAddr {
    SpecAddr { offset, size, is_view: false }
}

/// The view of the last `num_bytes` bytes of the slot `a`.
pub open spec fn spec_n_byte_view(a: SpecAddr, num_bytes: nat) -> SpecAddr {
    SpecAddr { offset: a.offset + (a.size - num_bytes) as nat, size: num_bytes, is_view: true }
}

impl StackAddr {
    fn new(offset: usize, size: usize) -> (r: StackAddr)
        ensures
            r@ == spec_addr(offset as nat, size as nat),
    {
        StackAddr { offset, size, is_view: false }
    }

    pub fn offset(&self) -> (r: usize)
        ensures
            r == self@.offset,
    {
        self.offset
    }

    pub fn size(&self) -> (r: usize)
        ensures
            r == self@.size,
    {
        self.size
    }

    pub fn is_view(&self) -> (r: bool)
        ensures
            r == self@.is_view,
    {
        self.is_view
    }

    /// The assembly text of this slot: its offset below the frame base `%rbp`.
    pub fn to_text(&self) -> (r: String)
        ensures
            r@ == "-"@ + decimal(self@.offset) + "(%rbp)"@,
    {
        let mut r = String::from_str("-");
        push_decimal(&mut r, self.offset as u64);
        r.append("(%rbp)");
        r
    }

    /// The view of the last `num_bytes` bytes of this slot; a view cannot be narrowed again.
    pub fn get_n_byte_view(&self, num_bytes: usize) -> (r: StackAddr)
        requires
            num_bytes <= self@.size,
            !self@.is_view,
            self@.offset + self@.size <= usize::MAX,
        ensures
            r@ == spec_n_byte_view(self@, num_bytes as nat),
    {
        let offset = self.offset + (self.size - num_bytes);
        StackAddr { offset, size: num_bytes, is_view: true }
    }
}


/// The slot of a variable.
struct VarSlot {
    name: String,
    addr: StackAddr,
}

/// The layout of one function's stack frame: its size so far, the free slots of each size,
/// and the slots of the variables that are in scope.
pub struct StackFrame {
    free_mem: HashMap<usize, Vec<StackAddr>>,
    size: usize,
    var_map: Vec<VarSlot>,
}

/// The mathematical value of a `StackFrame`.
pub struct SpecFrame {
    /// The free slots of each size that has had any; the last is handed out first.
    pub free: Map<nat, Seq<SpecAddr>>,
    pub size: nat,
    /// The slot of each variable in scope.
    pub vars: Map<Seq<char>, SpecAddr>,
}

pub open spec fn addrs_view(addrs: Seq<StackAddr>) -> Seq<SpecAddr> {
    addrs.map_values(|a: StackAddr| a@)
}

spec fn var_index(vars: Seq<VarSlot>, name: Seq<char>) -> int {
    choose|i: int| 0 <= i < vars.len() && vars[i].name@ == name
}

spec fn free_view(lists: Map<usize, Vec<StackAddr>>) -> Map<nat, Seq<SpecAddr>> {
    Map::new(
        |k: nat| k <= usize::MAX && lists.contains_key(k as usize),
        |k: nat| addrs_view(lists[k as usize]@),
    )
}

spec fn vars_view(vars: Seq<VarSlot>) -> Map<Seq<char>, SpecAddr> {
    Map::new(
        |k: Seq<char>| exists|i: int| 0 <= i < vars.len() && vars[i].name@ == k,
        |k: Seq<char>| vars[var_index(vars, k)].addr@,
    )
}

impl View for StackFrame {
    type V = SpecFrame;

    closed spec fn view(&self) -> SpecFrame {
        SpecFrame { free: free_view(self.free_mem@), size: self.size as nat, vars: vars_view(self.var_map@) }
    }
}

/// The free slots of size `size` (none if that size has never had any).
pub open spec fn free_list(f: SpecFrame, size: nat) -> Seq<SpecAddr> {
    if f.free.contains_key(size) {
        f.free[size]
    } else {
        Seq::empty()
    }
}

/// Every free slot is filed under its own size, and no free slot or variable slot is a view.
pub open spec fn frame_wf(f: SpecFrame) -> bool {
    &&& forall|k: nat, i: int| #![trigger f.free[k][i]]
        f.free.contains_key(k) && 0 <= i < f.free[k].len() ==> f.free[k][i].size == k && !f.free[k][i].is_view
    &&& forall|name: Seq<char>| #[trigger] f.vars.contains_key(name) ==> !f.vars[name].is_view
}

pub open spec fn spec_new_frame() -> SpecFrame {
    SpecFrame { free: Map::empty(), size: 0, vars: Map::empty() }
}

/// A fresh slot of `size` bytes at the end of the frame joins the free slots of its size.
pub open spec fn spec_alloc(f: SpecFrame, size: nat) -> SpecFrame {
    SpecFrame {
        free: f.free.insert(size, free_list(f, size).push(spec_addr(f.size, size))),
        size: f.size + size,
        vars: f.vars,
    }
}

pub open spec fn spec_has_free(f: SpecFrame, size: nat) -> bool {
    f.free.contains_key(size) && f.free[size].len() > 0
}

pub open spec fn spec_alloc_if_missing(f: SpecFrame, size: nat) -> SpecFrame {
    if spec_has_free(f, size) {
        f
    } else {
        spec_alloc(f, size)
    }
}

/// Takes the last free slot of `size` bytes (there must be one).
pub open spec fn spec_reserve(f: SpecFrame, size: nat) -> (SpecFrame, SpecAddr) {
    (SpecFrame { free: f.free.insert(size, f.free[size].drop_last()), size: f.size, vars: f.vars }, f.free[size].last())
}

/// A fresh slot of `size` bytes at the end of the frame, bound to the variable `name`.
pub open spec fn spec_reserve_var(f: SpecFrame, name: Seq<char>, size: nat) -> (SpecFrame, SpecAddr) {
    (
        SpecFrame { free: f.free, size: f.size + size, vars: f.vars.insert(name, spec_addr(f.size, size)) },
        spec_addr(f.size, size),
    )
}

/// Returns the slot of the variable `name` to the free slots of its size.
pub open spec fn spec_free_var(f: SpecFrame, name: Seq<char>) -> SpecFrame {
    let a = f.vars[name];
    SpecFrame { free: f.free.insert(a.size, f.free[a.size].push(a)), size: f.size, vars: f.vars.remove(name) }
}

/// Whether a free slot of the size of `a` starts where `a` does.
pub open spec fn is_free(f: SpecFrame, a: SpecAddr) -> bool {
    exists|i: int| 0 <= i < free_list(f, a.size).len() && #[trigger] free_list(f, a.size)[i].offset == a.offset
}

/// Returns the slot `a` to the free slots of its size.
pub open spec fn spec_free(f: SpecFrame, a: SpecAddr) -> SpecFrame {
    SpecFrame { free: f.free.insert(a.size, f.free[a.size].push(a)), size: f.size, vars: f.vars }
}

impl StackFrame {
    /// The representation: names are listed once, and the view is well formed.
    pub closed spec fn wf(&self) -> bool {
        &&& forall|i: int, j: int|
            0 <= i < self.var_map@.len() && 0 <= j < self.var_map@.len() && #[trigger] self.var_map@[i].name@
                == #[trigger] self.var_map@[j].name@ ==> i == j
        &&& frame_wf(self@)
    }

    proof fn lemma_var_index(&self, i: int)
        requires
            self.wf(),
            0 <= i < self.var_map@.len(),
        ensures
            var_index(self.var_map@, self.var_map@[i].name@) == i,
            self@.vars.contains_key(self.var_map@[i].name@),
            self@.vars[self.var_map@[i].name@] == self.var_map@[i].addr@,
    {
        let k = self.var_map@[i].name@;
        assert(exists|j: int| 0 <= j < self.var_map@.len() && self.var_map@[j].name@ == k);
    }

    fn new() -> (r: StackFrame)
        ensures
            r.wf(),
            r@ == spec_new_frame(),
    {
        let r = StackFrame { free_mem: HashMap::new(), size: 0, var_map: Vec::new() };
        assert(r@.free =~= Map::<nat, Seq<SpecAddr>>::empty());
        assert(r@.vars =~= Map::<Seq<char>, SpecAddr>::empty());
        r
    }

    /// The position in `var_map` of the variable `name`.
    fn find_var(&self, name: &str) -> (r: Option<usize>)
        requires
            self.wf(),
        ensures
            match r {
                Some(i) => i < self.var_map@.len() && self.var_map@[i as int].name@ == name@,
                None => !self@.vars.contains_key(name@),
            },
    {
        let mut i: usize = 0;
        while i < self.var_map.len()
            invariant
                i <= self.var_map@.len(),
                forall|j: int| 0 <= j < i ==> self.var_map@[j].name@ != name@,
            decreases self.var_map@.len() - i,
        {
            if str_eq(self.var_map[i].name.as_str(), name) {
                return Some(i);
            }
            i = i + 1;
        }
        None
    }

    /// Replaces the free slots of `size` bytes by `addrs`, keeping the rest.
    fn set_free(&mut self, size: usize, addrs: Vec<StackAddr>)
        requires
            old(self).wf(),
            forall|i: int| 0 <= i < addrs@.len() ==> (#[trigger] addrs@[i])@.size == size && !addrs@[i]@.is_view,
        ensures
            final(self).wf(),
            final(self)@ == (SpecFrame {
                free: old(self)@.free.insert(size as nat, addrs_view(addrs@)),
                size: old(self)@.size,
                vars: old(self)@.vars,
            }),
    {
        let ghost old_view = self@;
        let ghost av = addrs_view(addrs@);
        self.free_mem.insert(size, addrs);
        proof {
            assert(self@.free =~= old_view.free.insert(size as nat, av));
            assert(self@.vars == old_view.vars);
        }
    }

    /// The free slots of `size` bytes, copied out.
    fn get_free(&self, size: usize) -> (r: Vec<StackAddr>)
        requires
            self.wf(),
        ensures
            addrs_view(r@) == free_list(self@, size as nat),
            forall|i: int| 0 <= i < r@.len() ==> (#[trigger] r@[i])@.size == size && !r@[i]@.is_view,
    {
        match self.free_mem.get(&size) {
            Some(src) => {
                let mut copy: Vec<StackAddr> = Vec::new();
                let mut j: usize = 0;
                while j < src.len()
                    invariant
                        j <= src@.len(),
                        copy@ == src@.take(j as int),
                    decreases src@.len() - j,
                {
                    copy.push(src[j]);
                    proof {
                        assert(src@.take(j + 1) == src@.take(j as int).push(src@[j as int]));
                    }
                    j = j + 1;
                }
                proof {
                    assert(src@.take(src@.len() as int) == src@);
                    assert(self@.free.contains_key(size as nat));
                    assert forall|i2: int| 0 <= i2 < copy@.len() implies (#[trigger] copy@[i2])@.size == size && !copy@[i2]@.is_view by {
                        assert(self@.free[size as nat][i2] == copy@[i2]@);
                    }
                }
                copy
            },
            None => {
                let r: Vec<StackAddr> = Vec::new();
                assert(addrs_view(r@) =~= Seq::<SpecAddr>::empty());
                r
            },
        }
    }

    /// Adds a fresh slot of `size` bytes at the end of the frame to the free slots.
    pub fn allocate(&mut self, size: usize)
        requires
            old(self).wf(),
            old(self)@.size + size <= usize::MAX,
        ensures
            final(self).wf(),
            final(self)@ == spec_alloc(old(self)@, size as nat),
    {
        let addr = StackAddr::new(self.size, size);
        let mut addrs = self.get_free(size);
        let ghost before = addrs@;
        addrs.push(addr);
        proof {
            assert(addrs_view(addrs@) == addrs_view(before).push(addr@));
        }
        self.set_free(size, addrs);
        let ghost mid = self@;
        self.size = self.size + size;
        proof {
            assert(self@.free == mid.free);
            assert(self@.vars == mid.vars);
        }
    }

    pub fn has_free(&self, size: usize) -> (r: bool)
        requires
            self.wf(),
        ensures
            r == spec_has_free(self@, size as nat),
    {
        match self.free_mem.get(&size) {
            Some(addrs) => addrs.len() > 0,
            None => false,
        }
    }

    pub fn alloc_if_missing(&mut self, size: usize)
        requires
            old(self).wf(),
            !spec_has_free(old(self)@, size as nat) ==> old(self)@.size + size <= usize::MAX,
        ensures
            final(self).wf(),
            final(self)@ == spec_alloc_if_missing(old(self)@, size as nat),
    {
        if !self.has_free(size) {
            self.allocate(size);
        }
    }

    /// Takes the last free slot of `size` bytes; there must be one.
    pub fn reserve(&mut self, size: usize) -> (r: StackAddr)
        requires
            old(self).wf(),
            spec_has_free(old(self)@, size as nat),
        ensures
            final(self).wf(),
            (final(self)@, r@) == spec_reserve(old(self)@, size as nat),
    {
        let mut addrs = self.get_free(size);
        let ghost before = addrs@;
        let addr = addrs.pop().unwrap();
        proof {
            assert(addrs_view(addrs@) == addrs_view(before).drop_last());
            assert(addrs_view(before).last() == addr@);
        }
        self.set_free(size, addrs);
        addr
    }

    /// Binds the variable `name`, which must not be bound yet, to a fresh slot of `size`
    /// bytes at the end of the frame.
    pub fn reserve_var(&mut self, name: String, size: usize) -> (r: StackAddr)
        requires
            old(self).wf(),
            !old(self)@.vars.contains_key(name@),
            old(self)@.size + size <= usize::MAX,
        ensures
            final(self).wf(),
            (final(self)@, r@) == spec_reserve_var(old(self)@, name@, size as nat),
    {
        let addr = StackAddr::new(self.size, size);
        let ghost old_view = self@;
        self.size = self.size + size;
        let ghost old_vars = self.var_map@;
        let ghost key = name@;
        self.var_map.push(VarSlot { name, addr });
        proof {
            let nv = self.var_map@;
            assert(forall|i: int| 0 <= i < old_vars.len() ==> nv[i] == old_vars[i]);
            assert(nv[nv.len() - 1].name@ == key);
            assert forall|a: int, b: int|
                0 <= a < nv.len() && 0 <= b < nv.len() && #[trigger] nv[a].name@ == #[trigger] nv[b].name@ implies a == b by {
                if a < old_vars.len() && b == old_vars.len() {
                    assert(old_view.vars.contains_key(old_vars[a].name@));
                }
                if b < old_vars.len() && a == old_vars.len() {
                    assert(old_view.vars.contains_key(old_vars[b].name@));
                }
            }
            assert forall|k: Seq<char>| #[trigger] self@.vars.contains_key(k) == old_view.vars.insert(key, addr@).contains_key(k) by {
                if old_view.vars.contains_key(k) {
                    let j = choose|j: int| 0 <= j < old_vars.len() && old_vars[j].name@ == k;
                    assert(nv[j] == old_vars[j]);
                }
                if self@.vars.contains_key(k) && k != key {
                    let j = choose|j: int| 0 <= j < nv.len() && nv[j].name@ == k;
                    assert(old_vars[j] == nv[j]);
                }
            }
            assert forall|k: Seq<char>| #[trigger] self@.vars.contains_key(k) implies self@.vars[k]
                == old_view.vars.insert(key, addr@)[k] by {
                let j = var_index(nv, k);
                if k != key {
                    assert(old_vars[j] == nv[j]);
                    assert(var_index(old_vars, k) == j);
                } else {
                    assert(j == nv.len() - 1);
                }
            }
            assert(self@.vars =~= old_view.vars.insert(key, addr@));
            assert(self@.free =~= old_view.free) by {
                assert(self.free_mem@ == old(self).free_mem@);
            }
        }
        addr
    }

    /// The slot of the variable `name`, which must be bound.
    pub fn get_var(&self, name: &String) -> (r: &StackAddr)
        requires
            self.wf(),
            self@.vars.contains_key(name@),
        ensures
            r@ == self@.vars[name@],
    {
        let i = self.find_var(name.as_str()).unwrap();
        proof {
            self.lemma_var_index(i as int);
        }
        &self.var_map[i].addr
    }

    /// Returns the slot of the variable `name` to the free slots of its size, which must
    /// have had free slots before.
    pub fn free_var(&mut self, name: &String)
        requires
            old(self).wf(),
            old(self)@.vars.contains_key(name@),
            old(self)@.free.contains_key(old(self)@.vars[name@].size),
        ensures
            final(self).wf(),
            final(self)@ == spec_free_var(old(self)@, name@),
    {
        let i = self.find_var(name.as_str()).unwrap();
        proof {
            self.lemma_var_index(i as int);
        }
        let ghost old_vars = self.var_map@;
        let ghost old_view = self@;
        let ghost key = name@;
        let slot = self.var_map.remove(i);
        let addr = slot.addr;
        proof {
            let nv = self.var_map@;
            assert forall|a: int, b: int|
                0 <= a < nv.len() && 0 <= b < nv.len() && #[trigger] nv[a].name@ == #[trigger] nv[b].name@ implies a == b by {
                let oa = if a < i { a } else { a + 1 };
                let ob = if b < i { b } else { b + 1 };
                assert(nv[a] == old_vars[oa]);
                assert(nv[b] == old_vars[ob]);
            }
            assert forall|k: Seq<char>| #[trigger] self@.vars.contains_key(k) == old_view.vars.remove(key).contains_key(k) by {
                if old_view.vars.contains_key(k) && k != key {
                    let j = choose|j: int| 0 <= j < old_vars.len() && old_vars[j].name@ == k;
                    assert(j != i);
                    let jj = if j < i { j } else { j - 1 };
                    assert(nv[jj] == old_vars[j]);
                }
                if self@.vars.contains_key(k) {
                    let j = choose|j: int| 0 <= j < nv.len() && nv[j].name@ == k;
                    let oj = if j < i { j } else { j + 1 };
                    assert(old_vars[oj] == nv[j]);
                }
            }
            assert forall|k: Seq<char>| #[trigger] self@.vars.contains_key(k) implies self@.vars[k]
                == old_view.vars.remove(key)[k] by {
                let j = var_index(nv, k);
                let oj = if j < i { j } else { j + 1 };
                assert(old_vars[oj] == nv[j]);
                assert(var_index(old_vars, k) == oj);
            }
            assert(self@.vars =~= old_view.vars.remove(key));
            assert(self@.free =~= old_view.free) by {
                assert(self.free_mem@ == old(self).free_mem@);
            }
            assert(addr@ == old_view.vars[key]);
        }
        let mut addrs = self.get_free(addr.size);
        let ghost before = addrs@;
        addrs.push(addr);
        proof {
            assert(addrs_view(addrs@) == addrs_view(before).push(addr@));
        }
        self.set_free(addr.size, addrs);
    }

    /// Returns the slot `addr` to the free slots of its size, which must have had free
    /// slots before; the slot must not be a view nor be free already.
    pub fn free(&mut self, addr: StackAddr)
        requires
            old(self).wf(),
            !addr@.is_view,
            old(self)@.free.contains_key(addr@.size),
            !is_free(old(self)@, addr@),
        ensures
            final(self).wf(),
            final(self)@ == spec_free(old(self)@, addr@),
    {
        let mut addrs = self.get_free(addr.size);
        let ghost before = addrs@;
        addrs.push(addr);
        proof {
            assert(addrs_view(addrs@) == addrs_view(before).push(addr@));
        }
        self.set_free(addr.size, addrs);
    }

    pub fn size(&self) -> (r: usize)
        ensures
            r == self@.size,
    {
        self.size
    }

    /// Whether the variable `name` is bound.
    pub fn has_var(&self, name: &String) -> (r: bool)
        requires
            self.wf(),
        ensures
            r == self@.vars.contains_key(name@),
    {
        match self.find_var(name.as_str()) {
            Some(i) => {
                proof {
                    self.lemma_var_index(i as int);
                }
                true
            },
            None => false,
        }
    }

    /// Whether slots of `size` bytes have ever been free.
    pub fn has_free_list(&self, size: usize) -> (r: bool)
        requires
            self.wf(),
        ensures
            r == self@.free.contains_key(size as nat),
    {
        self.free_mem.contains_key(&size)
    }

    /// Whether a free slot of the size of `addr` starts where `addr` does.
    pub fn is_free_slot(&self, addr: &StackAddr) -> (r: bool)
        requires
            self.wf(),
        ensures
            r == is_free(self@, addr@),
    {
        let addrs = self.get_free(addr.size);
        let mut i: usize = 0;
        while i < addrs.len()
            invariant
                i <= addrs@.len(),
                addrs_view(addrs@) == free_list(self@, addr@.size),
                forall|j: int| 0 <= j < i ==> addrs@[j]@.offset != addr@.offset,
            decreases addrs@.len() - i,
        {
            if addrs[i] == *addr {
                assert(free_list(self@, addr@.size)[i as int] == addrs@[i as int]@);
                return true;
            }
            i = i + 1;
        }
        proof {
            assert forall|j: int| 0 <= j < free_list(self@, addr@.size).len() implies
                #[trigger] free_list(self@, addr@.size)[j].offset != addr@.offset by {
                assert(free_list(self@, addr@.size)[j] == addrs@[j]@);
            }
        }
        false
    }

    pub proof fn lemma_wf(&self)
        requires
            self.wf(),
        ensures
            frame_wf(self@),
    {
    }
}

/// Why a stack frame cannot be laid out.
#[derive(Debug, Clone, Copy, PartialEq, Eq, Structural)]
pub enum StackError {
    /// A slot would be returned to the free slots while a slot at the same offset is free.
    DoubleFree,
    /// The frame would outgrow the address space.
    FrameTooLarge,
}

/// `spec_alloc_if_missing`, failing where the frame would outgrow the address space.
pub open spec fn spec_alloc_checked(f: SpecFrame, size: nat) -> Result<SpecFrame, StackError> {
    if spec_has_free(f, size) {
        Ok(f)
    } else if f.size + size > usize::MAX {
        Err(StackError::FrameTooLarge)
    } else {
        Ok(spec_alloc(f, size))
    }
}

/// The frame after laying out the temporaries of expression `e`: each binary operation
/// takes a 4-byte slot (after its right operand), which it keeps.
pub open spec fn spec_frame_expr(f: SpecFrame, e: SpecExpr) -> Result<SpecFrame, StackError>
    decreases e, 0int,
{
    match e {
        SpecExpr::BinaryOp { left, right, .. } => match spec_frame_expr(f, *right) {
            Err(x) => Err(x),
            Ok(f1) => match spec_alloc_checked(f1, 4) {
                Err(x) => Err(x),
                Ok(f2) => spec_frame_expr(spec_reserve(f2, 4).0, *left),
            },
        },
        SpecExpr::VarAssignment { value, .. } => spec_frame_expr(f, *value),
        SpecExpr::UnaryOp { target, .. } => spec_frame_expr(f, *target),
        SpecExpr::Var { .. } => Ok(f),
        SpecExpr::Int32Constant { .. } => Ok(f),
        SpecExpr::BlockExpression { items, .. } => spec_frame_block(f, items),
    }
}

pub open spec fn spec_frame_stmt(f: SpecFrame, s: SpecStatement) -> Result<SpecFrame, StackError>
    decreases s, 0int,
{
    match s {
        SpecStatement::Expression { expression } => spec_frame_expr(f, expression),
        SpecStatement::Block { items } => spec_frame_block(f, items),
        SpecStatement::Return { value } => match value {
            Some(e) => spec_frame_expr(f, e),
            None => Ok(f),
        },
        SpecStatement::Yield { value } => match value {
            Some(e) => spec_frame_expr(f, e),
            None => Ok(f),
        },
    }
}

/// The frame after the items of a block, with the slots of the block's variables in the
/// order they were declared. Each variable takes a free slot of its size.
pub open spec fn spec_frame_items(f: SpecFrame, items: Seq<SpecBlockItem>) -> Result<(SpecFrame, Seq<SpecAddr>), StackError>
    decreases items, 0int,
{
    if items.len() == 0 {
        Ok((f, Seq::empty()))
    } else {
        match spec_frame_items(f, items.drop_last()) {
            Err(x) => Err(x),
            Ok((g, scope)) => match items.last() {
                SpecBlockItem::Statement(s) => match spec_frame_stmt(g, s) {
                    Err(x) => Err(x),
                    Ok(h) => Ok((h, scope)),
                },
                SpecBlockItem::VarDeclaration(d) => match spec_alloc_checked(g, spec_size(d.var_type)) {
                    Err(x) => Err(x),
                    Ok(h) => {
                        let (h2, a) = spec_reserve(h, spec_size(d.var_type));
                        Ok((h2, scope.push(a)))
                    },
                },
            },
        }
    }
}

/// Returns the slots `scope` to the free slots, in order.
pub open spec fn spec_free_all(f: SpecFrame, scope: Seq<SpecAddr>) -> Result<SpecFrame, StackError>
    decreases scope.len(),
{
    if scope.len() == 0 {
        Ok(f)
    } else {
        match spec_free_all(f, scope.drop_last()) {
            Err(x) => Err(x),
            Ok(g) => if is_free(g, scope.last()) {
                Err(StackError::DoubleFree)
            } else {
                Ok(spec_free(g, scope.last()))
            },
        }
    }
}

/// The frame after a block: its items, then its variables' slots returned.
pub open spec fn spec_frame_block(f: SpecFrame, items: Seq<SpecBlockItem>) -> Result<SpecFrame, StackError>
    decreases items, 1int,
{
    match spec_frame_items(f, items) {
        Err(x) => Err(x),
        Ok((g, scope)) => spec_free_all(g, scope),
    }
}

/// The frame of a function: the slots its body needs, laid out from an empty frame.
pub open spec fn spec_create_stack_frame(body: Seq<SpecBlockItem>) -> Result<SpecFrame, StackError> {
    spec_frame_block(spec_new_frame(), body)
}


/// Every size that has free slots in `a` has them in `b`.
pub open spec fn keeps_sizes(a: SpecFrame, b: SpecFrame) -> bool {
    forall|k: nat| #[trigger] a.free.contains_key(k) ==> b.free.contains_key(k)
}

proof fn lemma_keeps_sizes_trans(a: SpecFrame, b: SpecFrame, c: SpecFrame)
    requires
        keeps_sizes(a, b),
        keeps_sizes(b, c),
    ensures
        keeps_sizes(a, c),
{
    assert forall|k: nat| #[trigger] a.free.contains_key(k) implies c.free.contains_key(k) by {
        assert(b.free.contains_key(k));
    }
}

proof fn lemma_frame_items_error(f: SpecFrame, items: Seq<SpecBlockItem>, k: int)
    requires
        0 <= k <= items.len(),
        spec_frame_items(f, items.take(k)) is Err,
    ensures
        spec_frame_items(f, items) == spec_frame_items(f, items.take(k)),
    decreases items.len() - k,
{
    if k < items.len() {
        assert(items.take(k + 1).drop_last() == items.take(k));
        lemma_frame_items_error(f, items, k + 1);
    } else {
        assert(items.take(k) == items);
    }
}

proof fn lemma_free_all_error(f: SpecFrame, scope: Seq<SpecAddr>, k: int)
    requires
        0 <= k <= scope.len(),
        spec_free_all(f, scope.take(k)) is Err,
    ensures
        spec_free_all(f, scope) == spec_free_all(f, scope.take(k)),
    decreases scope.len() - k,
{
    if k < scope.len() {
        assert(scope.take(k + 1).drop_last() == scope.take(k));
        lemma_free_all_error(f, scope, k + 1);
    } else {
        assert(scope.take(k) == scope);
    }
}

fn alloc_checked(frame: &mut StackFrame, size: usize) -> (r: Result<(), StackError>)
    requires
        old(frame).wf(),
    ensures
        final(frame).wf(),
        keeps_sizes(old(frame)@, final(frame)@),
        final(frame)@.size >= old(frame)@.size,
        match r {
            Ok(()) => spec_alloc_checked(old(frame)@, size as nat) == Ok::<SpecFrame, StackError>(final(frame)@),
            Err(x) => spec_alloc_checked(old(frame)@, size as nat) == Err::<SpecFrame, StackError>(x),
        },
{
    if frame.has_free(size) {
        return Ok(());
    }
    if frame.size() > usize::MAX - size {
        return Err(StackError::FrameTooLarge);
    }
    frame.allocate(size);
    Ok(())
}

fn update_stack_frame_expression(frame: &mut StackFrame, expression: &Expression) -> (r: Result<(), StackError>)
    requires
        old(frame).wf(),
    ensures
        final(frame).wf(),
        keeps_sizes(old(frame)@, final(frame)@),
        match r {
            Ok(()) => spec_frame_expr(old(frame)@, expression@) == Ok::<SpecFrame, StackError>(final(frame)@),
            Err(x) => spec_frame_expr(old(frame)@, expression@) == Err::<SpecFrame, StackError>(x),
        },
    decreases expression, 0int,
{
    match expression {
        Expression::BinaryOp { left, right, .. } => {
            let ghost f0 = frame@;
            update_stack_frame_expression(frame, right)?;
            let ghost f1 = frame@;
            let res = alloc_checked(frame, 4);
            if let Err(x) = res {
                proof {
                    assert forall|k: nat| #[trigger] f0.free.contains_key(k) implies frame@.free.contains_key(k) by {
                        assert(f1.free.contains_key(k));
                    }
                }
                return Err(x);
            }
            let ghost f2 = frame@;
            let _temp = frame.reserve(4);
            let ghost f3 = frame@;
            let r = update_stack_frame_expression(frame, left);
            proof {
                assert forall|k: nat| #[trigger] f0.free.contains_key(k) implies frame@.free.contains_key(k) by {
                    assert(f1.free.contains_key(k));
                    assert(f2.free.contains_key(k));
                    assert(f3.free.contains_key(k));
                }
            }
            r
        },
        Expression::VarAssignment { value, .. } => update_stack_frame_expression(frame, value),
        Expression::UnaryOp { target, .. } => update_stack_frame_expression(frame, target),
        Expression::Var { .. } => Ok(()),
        Expression::Int32Constant { .. } => Ok(()),
        Expression::BlockExpression { items, .. } => {
            proof {
                assert(decreases_to!(*expression => *items));
            }
            update_stack_frame_block(frame, items)
        },
    }
}

fn update_stack_frame_statement(frame: &mut StackFrame, statement: &Statement) -> (r: Result<(), StackError>)
    requires
        old(frame).wf(),
    ensures
        final(frame).wf(),
        keeps_sizes(old(frame)@, final(frame)@),
        match r {
            Ok(()) => spec_frame_stmt(old(frame)@, statement@) == Ok::<SpecFrame, StackError>(final(frame)@),
            Err(x) => spec_frame_stmt(old(frame)@, statement@) == Err::<SpecFrame, StackError>(x),
        },
    decreases statement, 0int,
{
    match statement {
        Statement::Expression { expression } => update_stack_frame_expression(frame, expression),
        Statement::Block { items } => {
            proof {
                assert(decreases_to!(*statement => *items));
            }
            update_stack_frame_block(frame, items)
        },
        Statement::Return { value } | Statement::Yield { value } => match value {
            Some(e) => update_stack_frame_expression(frame, e),
            None => Ok(()),
        },
    }
}

/// Lays out the items of a block; returns the slots of the block's variables.
fn update_stack_frame_items(frame: &mut StackFrame, block_items: &Vec<BlockItem>) -> (r: Result<Vec<StackAddr>, StackError>)
    requires
        old(frame).wf(),
    ensures
        final(frame).wf(),
        keeps_sizes(old(frame)@, final(frame)@),
        match r {
            Ok(scope) => spec_frame_items(old(frame)@, items_view(block_items@))
                == Ok::<(SpecFrame, Seq<SpecAddr>), StackError>((final(frame)@, addrs_view(scope@)))
                && forall|k: int| 0 <= k < scope@.len() ==> final(frame)@.free.contains_key(#[trigger] scope@[k]@.size)
                    && !scope@[k]@.is_view,
            Err(x) => spec_frame_items(old(frame)@, items_view(block_items@))
                == Err::<(SpecFrame, Seq<SpecAddr>), StackError>(x),
        },
    decreases *block_items, 0int,
{
    let ghost f0 = frame@;
    let ghost iv = items_view(block_items@);
    proof {
        lemma_items_view(block_items@);
    }
    let mut scope: Vec<StackAddr> = Vec::new();
    let mut i: usize = 0;
    proof {
        assert(iv.take(0) =~= Seq::<SpecBlockItem>::empty());
        assert(addrs_view(scope@) =~= Seq::<SpecAddr>::empty());
    }
    while i < block_items.len()
        invariant
            i <= block_items@.len(),
            iv == items_view(block_items@),
            iv.len() == block_items@.len(),
            f0 == old(frame)@,
            forall|j: int| 0 <= j < block_items@.len() ==> #[trigger] iv[j] == crate::parsing::item_view(block_items@[j]),
            frame.wf(),
            keeps_sizes(f0, frame@),
            spec_frame_items(f0, iv.take(i as int)) == Ok::<(SpecFrame, Seq<SpecAddr>), StackError>((frame@, addrs_view(scope@))),
            forall|j: int| 0 <= j < scope@.len() ==> frame@.free.contains_key(#[trigger] scope@[j]@.size) && !scope@[j]@.is_view,
        decreases block_items@.len() - i,
    {
        proof {
            assert(iv.take(i + 1).drop_last() == iv.take(i as int));
            assert(iv.take(i + 1).last() == iv[i as int]);
            assert(decreases_to!(*block_items => block_items@[i as int]));
        }
        let ghost before = frame@;
        let ghost sv = addrs_view(scope@);
        match &block_items[i] {
            BlockItem::Statement(statement) => {
                let res = update_stack_frame_statement(frame, statement);
                match res {
                    Err(x) => {
                        proof {
                            assert(spec_frame_items(f0, iv.take(i + 1)) == Err::<(SpecFrame, Seq<SpecAddr>), StackError>(x));
                            lemma_frame_items_error(f0, iv, i + 1);
                            lemma_keeps_sizes_trans(f0, before, frame@);
                        }
                        return Err(x);
                    },
                    Ok(()) => {},
                }
                proof {
                    assert(keeps_sizes(f0, frame@)) by {
                        assert forall|k: nat| #[trigger] f0.free.contains_key(k) implies frame@.free.contains_key(k) by {
                            assert(before.free.contains_key(k));
                        }
                    }
                    assert forall|j: int| 0 <= j < scope@.len() implies frame@.free.contains_key(#[trigger] scope@[j]@.size) && !scope@[j]@.is_view by {
                        assert(before.free.contains_key(scope@[j]@.size));
                    }
                }
            },
            BlockItem::VarDeclaration(var_declaration) => {
                let var_size = var_declaration.var_type.get_size();
                let res = alloc_checked(frame, var_size);
                match res {
                    Err(x) => {
                        proof {
                            assert(spec_frame_items(f0, iv.take(i + 1)) == Err::<(SpecFrame, Seq<SpecAddr>), StackError>(x));
                            lemma_frame_items_error(f0, iv, i + 1);
                            lemma_keeps_sizes_trans(f0, before, frame@);
                        }
                        return Err(x);
                    },
                    Ok(()) => {},
                }
                proof {
                    frame.lemma_wf();
                }
                let ghost mid = frame@;
                let addr = frame.reserve(var_size);
                let ghost old_scope = scope@;
                scope.push(addr);
                proof {
                    assert(addrs_view(scope@) == sv.push(addr@));
                    assert(mid.free[var_size as nat][mid.free[var_size as nat].len() - 1] == addr@);
                    assert(addr@.size == var_size && !addr@.is_view);
                    assert(frame@.free.contains_key(var_size as nat));
                    assert(scope@[scope@.len() - 1] == addr);
                    assert(keeps_sizes(f0, frame@)) by {
                        assert forall|k: nat| #[trigger] f0.free.contains_key(k) implies frame@.free.contains_key(k) by {
                            assert(before.free.contains_key(k));
                            assert(mid.free.contains_key(k));
                        }
                    }
                    assert forall|j: int| 0 <= j < scope@.len() implies frame@.free.contains_key(#[trigger] scope@[j]@.size) && !scope@[j]@.is_view by {
                        if j < scope@.len() - 1 {
                            assert(scope@[j] == old_scope[j]);
                            assert(before.free.contains_key(scope@[j]@.size));
                            assert(mid.free.contains_key(scope@[j]@.size));
                        }
                    }
                }
            },
        }
        assert(forall|j: int| 0 <= j < scope@.len() ==> frame@.free.contains_key(#[trigger] scope@[j]@.size) && !scope@[j]@.is_view);
        i = i + 1;
    }
    proof {
        assert(iv.take(block_items@.len() as int) == iv);
    }
    Ok(scope)
}

/// Returns the slots `scope` to the free slots, in order.
fn free_scope(frame: &mut StackFrame, scope: &Vec<StackAddr>) -> (r: Result<(), StackError>)
    requires
        old(frame).wf(),
        forall|k: int| 0 <= k < scope@.len() ==> old(frame)@.free.contains_key(#[trigger] scope@[k]@.size) && !scope@[k]@.is_view,
    ensures
        final(frame).wf(),
        keeps_sizes(old(frame)@, final(frame)@),
        match r {
            Ok(()) => spec_free_all(old(frame)@, addrs_view(scope@)) == Ok::<SpecFrame, StackError>(final(frame)@),
            Err(x) => spec_free_all(old(frame)@, addrs_view(scope@)) == Err::<SpecFrame, StackError>(x),
        },
{
    let ghost g = frame@;
    let ghost sv = addrs_view(scope@);
    let mut j: usize = 0;
    proof {
        assert(sv.take(0) =~= Seq::<SpecAddr>::empty());
    }
    while j < scope.len()
        invariant
            j <= scope@.len(),
            sv == addrs_view(scope@),
            g == old(frame)@,
            frame.wf(),
            keeps_sizes(g, frame@),
            spec_free_all(g, sv.take(j as int)) == Ok::<SpecFrame, StackError>(frame@),
            forall|k: int| 0 <= k < scope@.len() ==> frame@.free.contains_key(#[trigger] scope@[k]@.size) && !scope@[k]@.is_view,
        decreases scope@.len() - j,
    {
        proof {
            assert(sv.take(j + 1).drop_last() == sv.take(j as int));
            assert(sv.take(j + 1).last() == scope@[j as int]@);
        }
        let addr = scope[j];
        if frame.is_free_slot(&addr) {
            proof {
                assert(spec_free_all(g, sv.take(j + 1)) == Err::<SpecFrame, StackError>(StackError::DoubleFree));
                lemma_free_all_error(g, sv, j + 1);
            }
            return Err(StackError::DoubleFree);
        }
        let ghost before = frame@;
        frame.free(addr);
        proof {
            assert(keeps_sizes(g, frame@)) by {
                assert forall|k: nat| #[trigger] g.free.contains_key(k) implies frame@.free.contains_key(k) by {
                    assert(before.free.contains_key(k));
                }
            }
            assert forall|k: int| 0 <= k < scope@.len() implies frame@.free.contains_key(#[trigger] scope@[k]@.size) && !scope@[k]@.is_view by {
                assert(before.free.contains_key(scope@[k]@.size));
            }
        }
        j = j + 1;
    }
    proof {
        assert(sv.take(scope@.len() as int) == sv);
    }
    Ok(())
}

fn update_stack_frame_block(frame: &mut StackFrame, block_items: &Vec<BlockItem>) -> (r: Result<(), StackError>)
    requires
        old(frame).wf(),
    ensures
        final(frame).wf(),
        keeps_sizes(old(frame)@, final(frame)@),
        match r {
            Ok(()) => spec_frame_block(old(frame)@, items_view(block_items@)) == Ok::<SpecFrame, StackError>(final(frame)@),
            Err(x) => spec_frame_block(old(frame)@, items_view(block_items@)) == Err::<SpecFrame, StackError>(x),
        },
    decreases *block_items, 1int,
{
    let ghost f0 = frame@;
    let scope = update_stack_frame_items(frame, block_items)?;
    let ghost mid = frame@;
    let r = free_scope(frame, &scope);
    proof {
        assert forall|k: nat| #[trigger] f0.free.contains_key(k) implies frame@.free.contains_key(k) by {
            assert(mid.free.contains_key(k));
        }
    }
    r
}

/// Lays out the stack frame of a function: the slots of its variables and temporaries.
pub fn create_stack_frame(func: &Function) -> (r: Result<StackFrame, StackError>)
    ensures
        match r {
            Ok(frame) => frame.wf() && spec_create_stack_frame(func@.body) == Ok::<SpecFrame, StackError>(frame@),
            Err(x) => spec_create_stack_frame(func@.body) == Err::<SpecFrame, StackError>(x),
        },
{
    let mut stack_frame = StackFrame::new();
    update_stack_frame_block(&mut stack_frame, &func.body)?;
    Ok(stack_frame)
}



/// Whether the frame has a free slot at position `i` of its list for size `k`.
pub open spec fn free_at(f: SpecFrame, k: nat, i: int) -> bool {
    f.free.contains_key(k) && 0 <= i < f.free[k].len()
}

/// The layout of a frame is sound, given the slots `rs` handed out and not returned: every
/// slot has room and lies below the frame's size, a free slot is filed under its size, and
/// no two slots, free or handed out, start at one offset.
pub open spec fn layout_ok(f: SpecFrame, rs: Set<SpecAddr>) -> bool {
    &&& forall|k: nat, i: int| #[trigger] free_at(f, k, i) ==>
        f.free[k][i].size == k && k > 0 && f.free[k][i].offset < f.size
    &&& forall|k1: nat, i1: int, k2: nat, i2: int|
        free_at(f, k1, i1) && free_at(f, k2, i2) && #[trigger] f.free[k1][i1].offset == #[trigger] f.free[k2][i2].offset
            ==> k1 == k2 && i1 == i2
    &&& forall|a: SpecAddr| #[trigger] rs.contains(a) ==> a.size > 0 && a.offset < f.size
    &&& forall|a: SpecAddr, k: nat, i: int| #[trigger] rs.contains(a) && #[trigger] free_at(f, k, i) ==> f.free[k][i].offset != a.offset
    &&& forall|a: SpecAddr, b: SpecAddr| #[trigger] rs.contains(a) && #[trigger] rs.contains(b) && a.offset == b.offset ==> a == b
}

proof fn lemma_layout_alloc(f: SpecFrame, rs: Set<SpecAddr>, s: nat)
    requires
        layout_ok(f, rs),
        s > 0,
    ensures
        layout_ok(spec_alloc(f, s), rs),
        spec_has_free(spec_alloc(f, s), s),
{
    let g = spec_alloc(f, s);
    let old_list = free_list(f, s);
    assert forall|k: nat, i: int| free_at(g, k, i) implies (k != s || i < old_list.len() ==> free_at(f, k, i) && g.free[k][i] == f.free[k][i])
        && (k == s && i == old_list.len() ==> g.free[k][i] == spec_addr(f.size, s)) by {
        if k == s && i < old_list.len() {
            assert(f.free.contains_key(s));
        }
    }
    assert forall|k: nat, i: int| #[trigger] free_at(g, k, i) implies g.free[k][i].size == k && k > 0 && g.free[k][i].offset < g.size by {
        if k != s || i < old_list.len() {
            assert(free_at(f, k, i));
        }
    }
    assert forall|k1: nat, i1: int, k2: nat, i2: int|
        free_at(g, k1, i1) && free_at(g, k2, i2) && #[trigger] g.free[k1][i1].offset == #[trigger] g.free[k2][i2].offset
            implies k1 == k2 && i1 == i2 by {
        if k1 != s || i1 < old_list.len() {
            assert(free_at(f, k1, i1));
        }
        if k2 != s || i2 < old_list.len() {
            assert(free_at(f, k2, i2));
        }
    }
    assert forall|a: SpecAddr, k: nat, i: int| #[trigger] rs.contains(a) && #[trigger] free_at(g, k, i) implies g.free[k][i].offset != a.offset by {
        if k != s || i < old_list.len() {
            assert(free_at(f, k, i));
        }
    }
    assert(g.free[s].len() > 0);
}

pub(crate) proof fn lemma_layout_reserve(f: SpecFrame, rs: Set<SpecAddr>, s: nat)
    requires
        layout_ok(f, rs),
        spec_has_free(f, s),
    ensures
        layout_ok(spec_reserve(f, s).0, rs.insert(spec_reserve(f, s).1)),
        !rs.contains(spec_reserve(f, s).1),
        spec_reserve(f, s).1.size == s,
{
    let (g, a) = spec_reserve(f, s);
    let n = f.free[s].len() - 1;
    assert(free_at(f, s, n));
    assert(a == f.free[s][n]);
    assert forall|k: nat, i: int| free_at(g, k, i) implies free_at(f, k, i) && g.free[k][i] == f.free[k][i]
        && !(k == s && i == n) by {
        if k == s {
            assert(g.free[s][i] == f.free[s][i]);
        }
    }
    let rs2 = rs.insert(a);
    assert forall|k: nat, i: int| #[trigger] free_at(g, k, i) implies g.free[k][i].size == k && k > 0 && g.free[k][i].offset < g.size by {
        assert(free_at(f, k, i));
    }
    assert forall|k1: nat, i1: int, k2: nat, i2: int|
        free_at(g, k1, i1) && free_at(g, k2, i2) && #[trigger] g.free[k1][i1].offset == #[trigger] g.free[k2][i2].offset
            implies k1 == k2 && i1 == i2 by {
        assert(free_at(f, k1, i1));
        assert(free_at(f, k2, i2));
    }
    assert forall|b: SpecAddr| #[trigger] rs2.contains(b) implies b.size > 0 && b.offset < g.size by {
        if b == a {
            assert(free_at(f, s, n));
        }
    }
    assert forall|b: SpecAddr, k: nat, i: int| #[trigger] rs2.contains(b) && #[trigger] free_at(g, k, i) implies g.free[k][i].offset != b.offset by {
        assert(free_at(f, k, i));
        if b == a {
            assert(f.free[k][i].offset != f.free[s][n].offset);
        }
    }
    assert forall|b: SpecAddr, c: SpecAddr| #[trigger] rs2.contains(b) && #[trigger] rs2.contains(c) && b.offset == c.offset implies b == c by {
        if b == a && c != a {
            assert(rs.contains(c) && free_at(f, s, n));
        }
        if c == a && b != a {
            assert(rs.contains(b) && free_at(f, s, n));
        }
    }
    if rs.contains(a) {
        assert(free_at(f, s, n));
    }
}

pub(crate) proof fn lemma_layout_free(f: SpecFrame, rs: Set<SpecAddr>, a: SpecAddr)
    requires
        layout_ok(f, rs),
        rs.contains(a),
        f.free.contains_key(a.size),
    ensures
        !is_free(f, a),
        layout_ok(spec_free(f, a), rs.remove(a)),
{
    if is_free(f, a) {
        let i = choose|i: int| 0 <= i < free_list(f, a.size).len() && #[trigger] free_list(f, a.size)[i].offset == a.offset;
        assert(free_at(f, a.size, i));
    }
    let g = spec_free(f, a);
    let s = a.size;
    let n = f.free[s].len();
    let rs2 = rs.remove(a);
    assert forall|k: nat, i: int| free_at(g, k, i) implies (!(k == s && i == n) ==> free_at(f, k, i) && g.free[k][i] == f.free[k][i])
        && (k == s && i == n ==> g.free[k][i] == a) by {
    }
    assert forall|k: nat, i: int| #[trigger] free_at(g, k, i) implies g.free[k][i].size == k && k > 0 && g.free[k][i].offset < g.size by {
        if !(k == s && i == n) {
            assert(free_at(f, k, i));
        }
    }
    assert forall|k1: nat, i1: int, k2: nat, i2: int|
        free_at(g, k1, i1) && free_at(g, k2, i2) && #[trigger] g.free[k1][i1].offset == #[trigger] g.free[k2][i2].offset
            implies k1 == k2 && i1 == i2 by {
        if !(k1 == s && i1 == n) {
            assert(free_at(f, k1, i1));
        }
        if !(k2 == s && i2 == n) {
            assert(free_at(f, k2, i2));
        }
    }
    assert forall|b: SpecAddr, k: nat, i: int| #[trigger] rs2.contains(b) && #[trigger] free_at(g, k, i) implies g.free[k][i].offset != b.offset by {
        if !(k == s && i == n) {
            assert(free_at(f, k, i));
        } else {
            assert(rs.contains(b) && rs.contains(a));
        }
    }
}


/// Binding a variable to a fresh slot that takes room keeps the layout sound, the new slot
/// counted as handed out.
pub(crate) proof fn lemma_layout_reserve_var(f: SpecFrame, rs: Set<SpecAddr>, name: Seq<char>, size: nat)
    requires
        layout_ok(f, rs),
        size > 0,
    ensures
        layout_ok(spec_reserve_var(f, name, size).0, rs.insert(spec_reserve_var(f, name, size).1)),
        !rs.contains(spec_reserve_var(f, name, size).1),
{
    let (g, c) = spec_reserve_var(f, name, size);
    assert forall|k: nat, i: int| #[trigger] free_at(g, k, i) implies g.free[k][i].size == k && k > 0 && g.free[k][i].offset < g.size by {
        assert(free_at(f, k, i));
    }
    assert forall|k1: nat, i1: int, k2: nat, i2: int|
        free_at(g, k1, i1) && free_at(g, k2, i2) && #[trigger] g.free[k1][i1].offset == #[trigger] g.free[k2][i2].offset
            implies k1 == k2 && i1 == i2 by {
        assert(free_at(f, k1, i1) && free_at(f, k2, i2));
    }
    let rs2 = rs.insert(c);
    assert forall|b: SpecAddr, k: nat, i: int| #[trigger] rs2.contains(b) && #[trigger] free_at(g, k, i) implies g.free[k][i].offset != b.offset by {
        assert(free_at(f, k, i));
    }
}

/// The frame of a function body whose declarations all take room is laid out soundly,
/// with no variable bound, unless it outgrows the address space.
pub(crate) proof fn lemma_frame_layout(body: Seq<SpecBlockItem>) -> (rs: Set<SpecAddr>)
    requires
        sized_decls_items(body),
    ensures
        match spec_create_stack_frame(body) {
            Ok(g) => layout_ok(g, rs) && g.vars == Map::<Seq<char>, SpecAddr>::empty(),
            Err(x) => x == StackError::FrameTooLarge,
        },
{
    let f = spec_new_frame();
    assert(layout_ok(f, Set::empty()));
    lemma_layout_block(f, Set::empty(), body)
}

/// Whether every variable declared in an expression takes room.
pub open spec fn sized_decls_expr(e: SpecExpr) -> bool
    decreases e, 0int,
{
    match e {
        SpecExpr::BinaryOp { left, right, .. } => sized_decls_expr(*left) && sized_decls_expr(*right),
        SpecExpr::VarAssignment { value, .. } => sized_decls_expr(*value),
        SpecExpr::UnaryOp { target, .. } => sized_decls_expr(*target),
        SpecExpr::BlockExpression { items, .. } => sized_decls_items(items),
        _ => true,
    }
}

/// Whether every variable declared in a statement takes room.
pub open spec fn sized_decls_stmt(s: SpecStatement) -> bool
    decreases s, 0int,
{
    match s {
        SpecStatement::Expression { expression } => sized_decls_expr(expression),
        SpecStatement::Block { items } => sized_decls_items(items),
        SpecStatement::Return { value } => match value {
            Some(e) => sized_decls_expr(e),
            None => true,
        },
        SpecStatement::Yield { value } => match value {
            Some(e) => sized_decls_expr(e),
            None => true,
        },
    }
}

/// Whether every variable declared among the items, at any depth, takes room.
pub open spec fn sized_decls_items(items: Seq<SpecBlockItem>) -> bool
    decreases items, 1int,
{
    items.len() == 0 || (sized_decls_items(items.drop_last()) && match items.last() {
        SpecBlockItem::Statement(s) => sized_decls_stmt(s),
        SpecBlockItem::VarDeclaration(d) => spec_size(d.var_type) > 0,
    })
}

/// A function's frame is laid out without ever returning a slot twice when every variable
/// it declares takes room: the layout succeeds unless the frame outgrows the address space.
pub proof fn law_layout_never_double_frees(body: Seq<SpecBlockItem>)
    requires
        sized_decls_items(body),
    ensures
        spec_create_stack_frame(body) is Ok || spec_create_stack_frame(body) == Err::<SpecFrame, StackError>(
            StackError::FrameTooLarge,
        ),
{
    let _ = lemma_frame_layout(body);
}

proof fn lemma_layout_alloc_checked(f: SpecFrame, rs: Set<SpecAddr>, s: nat)
    requires
        layout_ok(f, rs),
        s > 0,
    ensures
        match spec_alloc_checked(f, s) {
            Ok(g) => layout_ok(g, rs) && spec_has_free(g, s),
            Err(x) => x == StackError::FrameTooLarge,
        },
{
    if !spec_has_free(f, s) && f.size + s <= usize::MAX {
        lemma_layout_alloc(f, rs, s);
    }
}

proof fn lemma_layout_expr(f: SpecFrame, rs: Set<SpecAddr>, e: SpecExpr) -> (rs2: Set<SpecAddr>)
    requires
        layout_ok(f, rs),
        sized_decls_expr(e),
    ensures
        match spec_frame_expr(f, e) {
            Ok(g) => layout_ok(g, rs2) && rs.subset_of(rs2) && g.vars == f.vars && f.free.dom().subset_of(g.free.dom()),
            Err(x) => x == StackError::FrameTooLarge,
        },
    decreases e, 0int,
{
    match e {
        SpecExpr::BinaryOp { left, right, .. } => {
            let rs1 = lemma_layout_expr(f, rs, *right);
            match spec_frame_expr(f, *right) {
                Err(_) => rs,
                Ok(f1) => {
                    lemma_layout_alloc_checked(f1, rs1, 4);
                    match spec_alloc_checked(f1, 4) {
                        Err(_) => rs,
                        Ok(f2) => {
                            lemma_layout_reserve(f2, rs1, 4);
                            let (f3, a) = spec_reserve(f2, 4);
                            let rs3 = lemma_layout_expr(f3, rs1.insert(a), *left);
                            rs3
                        },
                    }
                },
            }
        },
        SpecExpr::VarAssignment { value, .. } => lemma_layout_expr(f, rs, *value),
        SpecExpr::UnaryOp { target, .. } => lemma_layout_expr(f, rs, *target),
        SpecExpr::BlockExpression { items, .. } => lemma_layout_block(f, rs, items),
        _ => rs,
    }
}

proof fn lemma_layout_stmt(f: SpecFrame, rs: Set<SpecAddr>, s: SpecStatement) -> (rs2: Set<SpecAddr>)
    requires
        layout_ok(f, rs),
        sized_decls_stmt(s),
    ensures
        match spec_frame_stmt(f, s) {
            Ok(g) => layout_ok(g, rs2) && rs.subset_of(rs2) && g.vars == f.vars && f.free.dom().subset_of(g.free.dom()),
            Err(x) => x == StackError::FrameTooLarge,
        },
    decreases s, 0int,
{
    match s {
        SpecStatement::Expression { expression } => lemma_layout_expr(f, rs, expression),
        SpecStatement::Block { items } => lemma_layout_block(f, rs, items),
        SpecStatement::Return { value } => match value {
            Some(e) => lemma_layout_expr(f, rs, e),
            None => rs,
        },
        SpecStatement::Yield { value } => match value {
            Some(e) => lemma_layout_expr(f, rs, e),
            None => rs,
        },
    }
}

proof fn lemma_layout_items(f: SpecFrame, rs: Set<SpecAddr>, items: Seq<SpecBlockItem>) -> (rs2: Set<SpecAddr>)
    requires
        layout_ok(f, rs),
        sized_decls_items(items),
    ensures
        match spec_frame_items(f, items) {
            Ok((g, scope)) => {
                &&& layout_ok(g, rs2)
                &&& rs.subset_of(rs2)
                &&& g.vars == f.vars
                &&& f.free.dom().subset_of(g.free.dom())
                &&& forall|j: int| 0 <= j < scope.len() ==> rs2.contains(#[trigger] scope[j]) && !rs.contains(scope[j])
                    && g.free.contains_key(scope[j].size)
                &&& scope.no_duplicates()
            },
            Err(x) => x == StackError::FrameTooLarge,
        },
    decreases items, 0int,
{
    if items.len() == 0 {
        rs
    } else {
        let rs1 = lemma_layout_items(f, rs, items.drop_last());
        match spec_frame_items(f, items.drop_last()) {
            Err(_) => rs,
            Ok((g, scope)) => match items.last() {
                SpecBlockItem::Statement(s) => {
                    let rs3 = lemma_layout_stmt(g, rs1, s);
                    rs3
                },
                SpecBlockItem::VarDeclaration(d) => {
                    let size = spec_size(d.var_type);
                    lemma_layout_alloc_checked(g, rs1, size);
                    match spec_alloc_checked(g, size) {
                        Err(_) => rs,
                        Ok(h) => {
                            lemma_layout_reserve(h, rs1, size);
                            let (h2, a) = spec_reserve(h, size);
                            let scope2 = scope.push(a);
                            assert forall|j: int| 0 <= j < scope2.len() implies rs1.insert(a).contains(#[trigger] scope2[j])
                                && !rs.contains(scope2[j]) && h2.free.contains_key(scope2[j].size) by {
                                if j < scope.len() {
                                    assert(scope2[j] == scope[j]);
                                }
                            }
                            assert forall|i: int, j: int| 0 <= i < scope2.len() && 0 <= j < scope2.len() && i != j
                                implies scope2[i] != scope2[j] by {
                                if i < scope.len() {
                                    assert(scope2[i] == scope[i]);
                                    assert(rs1.contains(scope[i]));
                                }
                                if j < scope.len() {
                                    assert(scope2[j] == scope[j]);
                                    assert(rs1.contains(scope[j]));
                                }
                            }
                            rs1.insert(a)
                        },
                    }
                },
            },
        }
    }
}

proof fn lemma_layout_free_all(f: SpecFrame, rs: Set<SpecAddr>, scope: Seq<SpecAddr>)
    requires
        layout_ok(f, rs),
        forall|j: int| 0 <= j < scope.len() ==> rs.contains(#[trigger] scope[j]) && f.free.contains_key(scope[j].size),
        scope.no_duplicates(),
    ensures
        spec_free_all(f, scope) matches Ok(g) && layout_ok(g, rs.difference(scope.to_set())) && g.vars == f.vars
            && f.free.dom().subset_of(g.free.dom()),
    decreases scope.len(),
{
    if scope.len() == 0 {
        assert(rs.difference(scope.to_set()) =~= rs);
    } else {
        let init = scope.drop_last();
        let a = scope.last();
        assert forall|j: int| 0 <= j < init.len() implies rs.contains(#[trigger] init[j]) && f.free.contains_key(init[j].size) by {
            assert(init[j] == scope[j]);
        }
        assert(init.no_duplicates()) by {
            assert forall|i: int, j: int| 0 <= i < init.len() && 0 <= j < init.len() && i != j implies init[i] != init[j] by {
                assert(init[i] == scope[i] && init[j] == scope[j]);
            }
        }
        lemma_layout_free_all(f, rs, init);
        let g1 = spec_free_all(f, init)->Ok_0;
        let rs1 = rs.difference(init.to_set());
        assert(rs.contains(scope[scope.len() - 1]) && f.free.contains_key(scope[scope.len() - 1].size));
        assert(!init.to_set().contains(a)) by {
            if init.to_set().contains(a) {
                let j = choose|j: int| 0 <= j < init.len() && init[j] == a;
                assert(scope[j] == scope[scope.len() - 1]);
            }
        }
        lemma_layout_free(g1, rs1, a);
        assert(rs1.remove(a) =~= rs.difference(scope.to_set())) by {
            assert forall|b: SpecAddr| #[trigger] scope.to_set().contains(b) <==> (init.to_set().contains(b) || b == a) by {
                if scope.to_set().contains(b) && b != a {
                    let j = choose|j: int| 0 <= j < scope.len() && scope[j] == b;
                    assert(init[j] == b);
                }
                if init.to_set().contains(b) {
                    let j = choose|j: int| 0 <= j < init.len() && init[j] == b;
                    assert(scope[j] == b);
                }
                if b == a {
                    assert(scope[scope.len() - 1] == b);
                }
            }
        }
    }
}

proof fn lemma_layout_block(f: SpecFrame, rs: Set<SpecAddr>, items: Seq<SpecBlockItem>) -> (rs2: Set<SpecAddr>)
    requires
        layout_ok(f, rs),
        sized_decls_items(items),
    ensures
        match spec_frame_block(f, items) {
            Ok(g) => layout_ok(g, rs2) && rs.subset_of(rs2) && g.vars == f.vars && f.free.dom().subset_of(g.free.dom()),
            Err(x) => x == StackError::FrameTooLarge,
        },
    decreases items, 1int,
{
    let rs1 = lemma_layout_items(f, rs, items);
    match spec_frame_items(f, items) {
        Err(_) => rs,
        Ok((g, scope)) => {
            lemma_layout_free_all(g, rs1, scope);
            let rs2 = rs1.difference(scope.to_set());
            assert forall|b: SpecAddr| #[trigger] rs.contains(b) implies rs2.contains(b) by {
                if scope.to_set().contains(b) {
                    let j = choose|j: int| 0 <= j < scope.len() && scope[j] == b;
                    assert(!rs.contains(scope[j]));
                }
            }
            rs2
        },
    }
}

/// A variable keeps the slot it was bound to until it is freed: allocating, reserving and
/// returning free slots, and binding or freeing other variables, leave its binding as it
/// was; freeing it unbinds it.
pub proof fn law_binding_persists(f: SpecFrame, name: Seq<char>, other: Seq<char>, size: nat, a: SpecAddr)
    requires
        f.vars.contains_key(name),
        other != name,
    ensures
        spec_alloc(f, size).vars == f.vars,
        spec_alloc_if_missing(f, size).vars == f.vars,
        spec_reserve(f, size).0.vars == f.vars,
        spec_free(f, a).vars == f.vars,
        spec_reserve_var(f, other, size).0.vars.contains_key(name),
        spec_reserve_var(f, other, size).0.vars[name] == f.vars[name],
        spec_free_var(f, other).vars.contains_key(name),
        spec_free_var(f, other).vars[name] == f.vars[name],
        !spec_free_var(f, name).vars.contains_key(name),
{
}

/// Returning a reserved slot gives back the frame it was reserved from.
pub proof fn law_free_undoes_reserve(f: SpecFrame, size: nat)
    requires
        frame_wf(f),
        spec_has_free(f, size),
    ensures
        spec_free(spec_reserve(f, size).0, spec_reserve(f, size).1) == f,
{
    let (g, a) = spec_reserve(f, size);
    assert(f.free[size][f.free[size].len() - 1] == a);
    assert(f.free[size].drop_last().push(f.free[size].last()) =~= f.free[size]);
    assert(spec_free(g, a).free =~= f.free);
}

/// A slot reserved right after an allocation of the same size is the fresh slot at the old
/// end of the frame, and the free slots are as before (with the size now listed).
pub proof fn law_reserve_after_alloc(f: SpecFrame, size: nat)
    ensures
        spec_reserve(spec_alloc(f, size), size).1 == spec_addr(f.size, size),
        spec_reserve(spec_alloc(f, size), size).0 == (SpecFrame {
            free: f.free.insert(size, free_list(f, size)),
            size: f.size + size,
            vars: f.vars,
        }),
{
    let g = spec_alloc(f, size);
    assert(g.free[size].drop_last() =~= free_list(f, size));
    assert(spec_reserve(g, size).0.free =~= f.free.insert(size, free_list(f, size)));
}

/// After a variable is bound, looking it up gives its slot, and every other variable keeps
/// its slot.
pub proof fn law_get_after_reserve_var(f: SpecFrame, name: Seq<char>, size: nat, other: Seq<char>)
    ensures
        spec_reserve_var(f, name, size).0.vars[name] == spec_reserve_var(f, name, size).1,
        other != name ==> spec_reserve_var(f, name, size).0.vars.contains_key(other) == f.vars.contains_key(other),
        other != name && f.vars.contains_key(other) ==> spec_reserve_var(f, name, size).0.vars[other] == f.vars[other],
{
}

/// Freeing a variable that was just bound unbinds it again and files its fresh slot among
/// the free slots of its size.
pub proof fn law_free_var_after_reserve_var(f: SpecFrame, name: Seq<char>, size: nat)
    requires
        !f.vars.contains_key(name),
        f.free.contains_key(size),
    ensures
        spec_free_var(spec_reserve_var(f, name, size).0, name) == (SpecFrame {
            free: f.free.insert(size, f.free[size].push(spec_addr(f.size, size))),
            size: f.size + size,
            vars: f.vars,
        }),
{
    let g = spec_reserve_var(f, name, size).0;
    assert(g.vars.remove(name) =~= f.vars);
}

/// A frame never shrinks: it grows by the size asked for when a slot is allocated (by
/// `allocate`, by `alloc_if_missing` when no slot of that size is free, and by
/// `reserve_var`), and reserving, looking up or freeing a slot leaves its size as it was.
pub proof fn law_frame_size(f: SpecFrame, size: nat, name: Seq<char>, a: SpecAddr)
    ensures
        spec_alloc(f, size).size == f.size + size,
        spec_alloc_if_missing(f, size).size == if spec_has_free(f, size) { f.size } else { f.size + size },
        spec_reserve(f, size).0.size == f.size,
        spec_reserve_var(f, name, size).0.size == f.size + size,
        spec_free_var(f, name).size == f.size,
        spec_free(f, a).size == f.size,
{
}

/// Every operation on a frame keeps it well formed and never shrinks it.
pub proof fn law_operations_keep_frame_wf(f: SpecFrame, size: nat, name: Seq<char>, a: SpecAddr)
    requires
        frame_wf(f),
    ensures
        frame_wf(spec_alloc(f, size)) && spec_alloc(f, size).size >= f.size,
        spec_has_free(f, size) ==> frame_wf(spec_reserve(f, size).0) && !spec_reserve(f, size).1.is_view
            && spec_reserve(f, size).1.size == size,
        frame_wf(spec_reserve_var(f, name, size).0) && spec_reserve_var(f, name, size).0.size >= f.size,
        f.vars.contains_key(name) && f.free.contains_key(f.vars[name].size) ==> frame_wf(spec_free_var(f, name)),
        !a.is_view && f.free.contains_key(a.size) ==> frame_wf(spec_free(f, a)),
{
    let g = spec_alloc(f, size);
    assert forall|k: nat, i: int| #![trigger g.free[k][i]]
        g.free.contains_key(k) && 0 <= i < g.free[k].len() implies g.free[k][i].size == k && !g.free[k][i].is_view by {
        if k == size && i < free_list(f, size).len() {
            assert(g.free[k][i] == f.free[k][i]);
        }
    }
    if spec_has_free(f, size) {
        let h = spec_reserve(f, size).0;
        assert forall|k: nat, i: int| #![trigger h.free[k][i]]
            h.free.contains_key(k) && 0 <= i < h.free[k].len() implies h.free[k][i].size == k && !h.free[k][i].is_view by {
            if k == size {
                assert(h.free[k][i] == f.free[k][i]);
            }
        }
        assert(f.free[size][f.free[size].len() - 1] == spec_reserve(f, size).1);
    }
    if f.vars.contains_key(name) && f.free.contains_key(f.vars[name].size) {
        let h = spec_free_var(f, name);
        let sz = f.vars[name].size;
        assert forall|k: nat, i: int| #![trigger h.free[k][i]]
            h.free.contains_key(k) && 0 <= i < h.free[k].len() implies h.free[k][i].size == k && !h.free[k][i].is_view by {
            if k == sz && i < f.free[sz].len() {
                assert(h.free[k][i] == f.free[k][i]);
            }
        }
    }
    if !a.is_view && f.free.contains_key(a.size) {
        let h = spec_free(f, a);
        assert forall|k: nat, i: int| #![trigger h.free[k][i]]
            h.free.contains_key(k) && 0 <= i < h.free[k].len() implies h.free[k][i].size == k && !h.free[k][i].is_view by {
            if k == a.size && i < f.free[a.size].len() {
                assert(h.free[k][i] == f.free[k][i]);
            }
        }
    }
}

} // verus!
