use vstd::prelude::*;
use crate::ops::{BinOp, RelOp};
use crate::value::{DistanceF64, Value};

verus! {

/// A jump target: a numbered label or a named one (an interned name).
#[derive(Clone, Copy, PartialEq, Eq, Structural, Debug)]
pub enum Label {
    Label(usize),
    Named(usize),
}

/// An output register of an instruction: a register or a stack slot.
#[derive(Clone, Copy, PartialEq, Eq, Structural, Debug)]
pub enum OR {
    REG(usize),
    STACK(usize),
}

/// An input register of an instruction.
#[derive(Clone, Copy, PartialEq, Eq, Structural, Debug)]
pub enum IR {
    REG(usize),
    CONST(Constant),
    STACK(usize),
    STACKPOP,
    RETVAL,
}

/// The instructions of the virtual machine.
#[derive(Clone, Copy, PartialEq, Eq, Structural, Debug)]
pub enum OpCode {
    LABEL(Label),
    MOV(OR, IR),
    ADD(OR, IR, IR),
    SUB(OR, IR, IR),
    MUL(OR, IR, IR),
    DIV(OR, IR, IR),
    MOD(OR, IR, IR),
    POW(OR, IR, IR),
    LT(OR, IR, IR),
    LTE(OR, IR, IR),
    GT(OR, IR, IR),
    GTE(OR, IR, IR),
    EQ(OR, IR, IR),
    NEQ(OR, IR, IR),
    PUSH(IR),
    POP(OR),
    PUSHA,
    POPA,
    JUMP(Label),
    JUMPR(Label),
    NOP,
    BT(IR, Label),
    BF(IR, Label),
    CALL(usize, usize),
    RETURN(IR),
    HLT,
}

/// A constant as the compiler sees it. Numbers are held by the
/// decomposition of their floating-point value.
#[derive(Clone, Copy, PartialEq, Eq, Structural, Hash, Debug)]
pub enum Constant {
    Number(DistanceF64),
    Identifier(usize),
    Boolean(bool),
    Nil,
}

/// The logical operators on two booleans.
pub open spec fn boolean_binary(op: BinOp, a: Constant, b: Constant) -> bool {
    (op == BinOp::And || op == BinOp::Or) && a is Boolean && b is Boolean
}

/// Equality and inequality of two booleans.
pub open spec fn boolean_logical(op: RelOp, a: Constant, b: Constant) -> bool {
    (op == RelOp::EqualEqual || op == RelOp::NotEqual) && a is Boolean && b is Boolean
}

impl Constant {
    /// `self op other` for the logical operators on booleans. (The
    /// arithmetic operators work on the floating-point values of numbers.)
    pub fn compute_binary(&self, op: BinOp, other: Constant) -> (r: Constant)
        requires
            boolean_binary(op, *self, other),
        ensures
            r == Constant::Boolean(if op == BinOp::And {
                self->Boolean_0 && other->Boolean_0
            } else {
                self->Boolean_0 || other->Boolean_0
            }),
    {
        match (self, other) {
            (Constant::Boolean(b1), Constant::Boolean(b2)) => {
                if op == BinOp::Or {
                    Constant::Boolean(*b1 || b2)
                } else {
                    Constant::Boolean(*b1 && b2)
                }
            },
            _ => Constant::Nil,
        }
    }

    /// `self op other` for equality and inequality of booleans. (The other
    /// comparisons work on the floating-point values of numbers.)
    pub fn compute_logical(&self, op: RelOp, other: Constant) -> (r: Constant)
        requires
            boolean_logical(op, *self, other),
        ensures
            r == Constant::Boolean(if op == RelOp::EqualEqual {
                self->Boolean_0 == other->Boolean_0
            } else {
                self->Boolean_0 != other->Boolean_0
            }),
    {
        match (self, other) {
            (Constant::Boolean(b1), Constant::Boolean(b2)) => {
                if op == RelOp::NotEqual {
                    Constant::Boolean(*b1 != b2)
                } else {
                    Constant::Boolean(*b1 == b2)
                }
            },
            _ => Constant::Nil,
        }
    }
}

/// The values that a program uses, each stored once.
#[derive(Clone, Debug)]
pub struct ConstantPool {
    pub pool: Vec<Value>,
}

/// The pool's values after inserting `v`: unchanged where `v` is there,
/// else `v` appended.
pub open spec fn pool_after(values: Seq<Value>, v: Value) -> Seq<Value> {
    if values.contains(v) {
        values
    } else {
        values.push(v)
    }
}

/// The index that inserting `v` gives: where `v` already is, else the end.
pub open spec fn pool_index(values: Seq<Value>, v: Value) -> int {
    if values.contains(v) {
        values.index_of(v)
    } else {
        values.len() as int
    }
}

/// In a pool without duplicates, reading at the index that inserting `v`
/// gives returns `v`, the pool keeps no duplicates, and inserting `v` a
/// second time changes nothing and gives the same index.
pub proof fn lemma_pool_read_back(values: Seq<Value>, v: Value)
    requires
        values.no_duplicates(),
    ensures
        0 <= pool_index(values, v) < pool_after(values, v).len(),
        pool_after(values, v)[pool_index(values, v)] == v,
        pool_after(values, v).no_duplicates(),
        pool_after(pool_after(values, v), v) == pool_after(values, v),
        pool_index(pool_after(values, v), v) == pool_index(values, v),
{
    let after = pool_after(values, v);
    if !values.contains(v) {
        assert(after[values.len() as int] == v);
        assert(after.contains(v));
        assert forall|a: int, b: int| 0 <= a < b < after.len() implies after[a] != after[b] by {
            if b == values.len() {
                assert(values.contains(values[a]));
            }
        }
        let k = after.index_of(v);
        assert(after[k] == v);
        if k < values.len() {
            assert(values[k] == v);
        }
    }
}

impl ConstantPool {
    /// No value is stored twice.
    pub open spec fn wf(&self) -> bool {
        self.pool@.no_duplicates()
    }

    pub open spec fn values(&self) -> Seq<Value> {
        self.pool@
    }

    /// An empty pool.
    pub fn new() -> (r: Self)
        ensures
            r.wf(),
            r.values() == Seq::<Value>::empty(),
    {
        ConstantPool { pool: Vec::new() }
    }

    /// The index of `value`, which is appended if it is not stored yet.
    pub fn insert(&mut self, value: Value) -> (r: usize)
        requires
            old(self).wf(),
            old(self).values().len() < usize::MAX,
        ensures
            final(self).wf(),
            final(self).values() == pool_after(old(self).values(), value),
            r == pool_index(old(self).values(), value),
            old(self).values().contains(value) ==> final(self).values() == old(self).values() && r
                < old(self).values().len() && old(self).values()[r as int] == value,
            !old(self).values().contains(value) ==> final(self).values() == old(self).values().push(value)
                && r == old(self).values().len(),
            r < final(self).values().len(),
            final(self).values()[r as int] == value,
            old(self).values().is_prefix_of(final(self).values()),
            forall|k: int| 0 <= k < final(self).values().len() && final(self).values()[k] == value ==> k == r,
    {
        let mut i: usize = 0;
        while i < self.pool.len()
            invariant
                i <= self.pool@.len(),
                self.pool@ == old(self).pool@,
                old(self).wf(),
                forall|j: int| 0 <= j < i ==> self.pool@[j] != value,
            decreases self.pool@.len() - i,
        {
            if self.pool[i] == value {
                proof {
                    let k = self.pool@.index_of(value);
                    assert(self.pool@.contains(value));
                    assert(self.pool@[k] == value);
                }
                return i;
            }
            i = i + 1;
        }
        self.pool.push(value);
        proof {
            assert forall|a: int, b: int| 0 <= a < b < self.pool@.len() implies self.pool@[a] != self.pool@[b] by {
                if b == self.pool@.len() - 1 {
                    assert(old(self).pool@[a] != value);
                } else {
                    assert(old(self).pool@[a] != old(self).pool@[b]);
                }
            }
        }
        self.pool.len() - 1
    }

    /// The value stored at `value_index`.
    pub fn get(&self, value_index: usize) -> (r: &Value)
        requires
            value_index < self.values().len(),
        ensures
            *r == self.values()[value_index as int],
    {
        &self.pool[value_index]
    }
}

} // verus!
