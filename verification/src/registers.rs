//! A machine of named registers and the conditional instructions that change them.
//!
//! An instruction reads `b inc 5 if a > 1`: a register, `inc` or `dec`, an amount,
//! and a condition that compares two operands. Registers start at 0.

use crate::text::{isize_value, parse_isize, same_text, string_views, words, words_of};
use vstd::prelude::*;

verus! {

/// The named registers. A register that was never read or written is absent.
#[derive(Debug)]
pub struct Register {
    names: Vec<String>,
    values: Vec<isize>,
}

/// The contents of a list of names.
pub open spec fn name_views(names: Seq<String>) -> Seq<Seq<char>> {
    names.map_values(|name: String| name@)
}

impl View for Register {
    type V = Map<Seq<char>, isize>;

    closed spec fn view(&self) -> Map<Seq<char>, isize> {
        Map::new(
            |name: Seq<char>| name_views(self.names@).contains(name),
            |name: Seq<char>| self.values@[name_views(self.names@).index_of(name)],
        )
    }
}

impl Register {
    /// Whether no register is listed twice.
    pub closed spec fn well_formed(&self) -> bool {
        &&& self.names@.len() == self.values@.len()
        &&& name_views(self.names@).no_duplicates()
    }

    /// No registers.
    pub fn new() -> (reg: Register)
        ensures
            reg.well_formed(),
            reg@ == Map::<Seq<char>, isize>::empty(),
    {
        let reg = Register { names: Vec::new(), values: Vec::new() };
        assert(reg@ =~= Map::<Seq<char>, isize>::empty());
        reg
    }

    /// Where the register of the given name stands in the lists, if it is present.
    fn find(&self, name: &String) -> (at: Option<usize>)
        requires
            self.well_formed(),
        ensures
            match at {
                Some(i) => i < self.names@.len() && self.names@[i as int]@ == name@
                    && self@.contains_key(name@) && self@[name@] == self.values@[i as int],
                None => !self@.contains_key(name@),
            },
            self.names@.len() == self.values@.len(),
            name_views(self.names@).no_duplicates(),
    {
        let ghost views = name_views(self.names@);
        let mut i: usize = 0;
        while i < self.names.len()
            invariant
                i <= self.names.len(),
                self.well_formed(),
                views == name_views(self.names@),
                forall|k: int| 0 <= k < i ==> views[k] != name@,
            decreases self.names.len() - i,
        {
            if self.names[i] == *name {
                proof {
                    assert(views[i as int] == name@);
                    assert(views.contains(name@));
                    let found = views.index_of(name@);
                    assert(views[found] == name@);
                    assert(found == i);
                }
                return Some(i);
            }
            i = i + 1;
        }
        proof {
            if views.contains(name@) {
                let k = choose|k: int| 0 <= k < views.len() && views[k] == name@;
                assert(false);
            }
        }
        None
    }

    /// The value of a register, if it is present.
    pub fn get(&self, name: &str) -> (value: Option<isize>)
        requires
            self.well_formed(),
        ensures
            value == if self@.contains_key(name@) {
                Some(self@[name@])
            } else {
                None
            },
    {
        let key = String::from_str(name);
        match self.find(&key) {
            Some(i) => Some(self.values[i]),
            None => None,
        }
    }

    /// Sets a register, which is added if it was absent.
    pub fn set(&mut self, name: &str, value: isize)
        requires
            old(self).well_formed(),
        ensures
            final(self).well_formed(),
            final(self)@ == old(self)@.insert(name@, value),
    {
        let key = String::from_str(name);
        let ghost before = self@;
        let ghost old_views = name_views(self.names@);
        assert(old_views.no_duplicates() && self.names@.len() == self.values@.len());
        match self.find(&key) {
            Some(i) => {
                self.values.set(i, value);
                proof {
                    assert(name_views(self.names@) == old_views);
                    assert(self@ =~= before.insert(name@, value)) by {
                        assert forall|k: Seq<char>| old_views.contains(k) implies #[trigger] self@[k]
                            == before.insert(name@, value)[k] by {
                            let at = old_views.index_of(k);
                            assert(old_views[at] == k);
                            if k == name@ {
                                assert(old_views[i as int] == name@);
                                assert(at == i);
                            }
                        }
                    }
                }
            },
            None => {
                self.names.push(key);
                self.values.push(value);
                proof {
                    let views = name_views(self.names@);
                    assert(views == old_views.push(name@));
                    assert(views.no_duplicates());
                    assert(self@ =~= before.insert(name@, value)) by {
                        assert forall|k: Seq<char>| views.contains(k) implies (k == name@
                            || old_views.contains(k)) && #[trigger] self@[k] == before.insert(
                            name@,
                            value,
                        )[k] by {
                            let at = views.index_of(k);
                            assert(views[at] == k);
                            if k != name@ {
                                assert(old_views[at] == k);
                                let was = old_views.index_of(k);
                                assert(old_views[was] == k);
                                assert(views[was] == k);
                                assert(was == at);
                            }
                        }
                        assert forall|k: Seq<char>| old_views.contains(k) || k == name@ implies
                            views.contains(k) by {
                            if k == name@ {
                                assert(views[views.len() - 1] == k);
                            } else {
                                let was = old_views.index_of(k);
                                assert(old_views[was] == k);
                                assert(views[was] == k);
                            }
                        }
                    }
                }
            },
        }
    }

    /// A register with the largest value, and that value; nothing if there is no
    /// register.
    pub fn largest(&self) -> (top: Option<(String, isize)>)
        requires
            self.well_formed(),
        ensures
            match top {
                Some((name, value)) => {
                    &&& self@.contains_key(name@)
                    &&& self@[name@] == value
                    &&& forall|other: Seq<char>|
                        self@.contains_key(other) ==> #[trigger] self@[other] <= value
                },
                None => self@.dom() =~= Set::<Seq<char>>::empty(),
            },
    {
        let ghost views = name_views(self.names@);
        if self.names.len() == 0 {
            return None;
        }
        let mut best: usize = 0;
        let mut i: usize = 1;
        while i < self.names.len()
            invariant
                1 <= i <= self.names.len(),
                self.well_formed(),
                best < i,
                forall|k: int| 0 <= k < i ==> self.values@[k] <= self.values@[best as int],
            decreases self.names.len() - i,
        {
            if self.values[i] > self.values[best] {
                best = i;
            }
            i = i + 1;
        }
        let name = self.names[best].clone();
        proof {
            assert(views[best as int] == name@);
            let at = views.index_of(name@);
            assert(views[at] == name@);
            assert(at == best);
            assert forall|other: Seq<char>| self@.contains_key(other) implies #[trigger] self@[other]
                <= self.values@[best as int] by {
                let k = views.index_of(other);
                assert(views[k] == other);
            }
        }
        Some((name, self.values[best]))
    }

    /// The value of a register, which is added with the value 0 if it was absent.
    pub fn fetch(&mut self, name: &str) -> (value: isize)
        requires
            old(self).well_formed(),
        ensures
            final(self).well_formed(),
            old(self)@.contains_key(name@) ==> final(self)@ == old(self)@ && value == old(self)@[name@],
            !old(self)@.contains_key(name@) ==> final(self)@ == old(self)@.insert(name@, 0)
                && value == 0,
    {
        match self.get(name) {
            Some(value) => value,
            None => {
                self.set(name, 0);
                0
            },
        }
    }
}

/// A number or a truth value.
#[derive(Debug, Clone, Copy, PartialEq, Eq, Structural)]
pub enum Constant {
    Num(isize),
    Bool(bool),
}

impl Constant {
    /// The constant as a number: a truth value counts 1 if true and 0 if false.
    pub fn as_num(&self) -> (n: isize)
        ensures
            n == match *self {
                Constant::Num(n) => n,
                Constant::Bool(b) => if b {
                    1isize
                } else {
                    0isize
                },
            },
    {
        match *self {
            Constant::Num(n) => n,
            Constant::Bool(b) => if b {
                1
            } else {
                0
            },
        }
    }

    /// The truth value. A number has none.
    pub fn as_bool(&self) -> (b: bool)
        requires
            *self is Bool,
        ensures
            *self == Constant::Bool(b),
    {
        match *self {
            Constant::Num(_) => false,
            Constant::Bool(b) => b,
        }
    }
}

/// What an instruction does or compares.
#[derive(Debug, Clone, Copy, PartialEq, Eq, Structural)]
pub enum Operator {
    Inc,
    Dec,
    Eq,
    Ne,
    Lt,
    Gt,
    Ge,
    Le,
}

/// The name of a register, or a constant.
#[derive(Debug)]
pub enum Operand {
    Ident(String),
    Const(Constant),
}

/// What an operand stands for.
pub enum OperandModel {
    Ident(Seq<char>),
    Const(Constant),
}

impl View for Operand {
    type V = OperandModel;

    open spec fn view(&self) -> OperandModel {
        match *self {
            Operand::Ident(name) => OperandModel::Ident(name@),
            Operand::Const(c) => OperandModel::Const(c),
        }
    }
}

impl OperandModel {
    /// The value of the operand: that of the register, 0 if it is absent, or that
    /// of the constant.
    pub open spec fn value(self, regs: Map<Seq<char>, isize>) -> isize {
        match self {
            OperandModel::Ident(name) => if regs.contains_key(name) {
                regs[name]
            } else {
                0
            },
            OperandModel::Const(c) => match c {
                Constant::Num(n) => n,
                Constant::Bool(b) => if b {
                    1
                } else {
                    0
                },
            },
        }
    }

    /// The registers after the operand was read: reading an absent register adds
    /// it with the value 0.
    pub open spec fn touch(self, regs: Map<Seq<char>, isize>) -> Map<Seq<char>, isize> {
        match self {
            OperandModel::Ident(name) => if regs.contains_key(name) {
                regs
            } else {
                regs.insert(name, 0)
            },
            OperandModel::Const(c) => regs,
        }
    }
}

impl Operand {
    /// Whether the operand names a register.
    pub fn is_ident(&self) -> (named: bool)
        ensures
            named == (self@ is Ident),
    {
        match *self {
            Operand::Ident(..) => true,
            _ => false,
        }
    }

    /// The name of the register. A constant has none.
    pub fn ident(&self) -> (name: &str)
        requires
            self@ is Ident,
        ensures
            self@ == OperandModel::Ident(name@),
    {
        match self {
            Operand::Ident(s) => s.as_str(),
            Operand::Const(_) => "",
        }
    }

    /// The value of the operand. Reading an absent register adds it with the value 0.
    pub fn resolve(&self, reg: &mut Register) -> (value: isize)
        requires
            old(reg).well_formed(),
        ensures
            final(reg).well_formed(),
            value == self@.value(old(reg)@),
            final(reg)@ == self@.touch(old(reg)@),
    {
        match self {
            Operand::Ident(s) => reg.fetch(s.as_str()),
            Operand::Const(c) => c.as_num(),
        }
    }
}

impl Operand {
    /// The value of the operand, without adding an absent register.
    pub fn peek(&self, reg: &Register) -> (value: isize)
        requires
            reg.well_formed(),
        ensures
            value == self@.value(reg@),
    {
        match self {
            Operand::Ident(s) => match reg.get(s.as_str()) {
                Some(value) => value,
                None => 0,
            },
            Operand::Const(c) => c.as_num(),
        }
    }
}

/// Reading an operand does not change the value of any operand.
pub proof fn lemma_touch_keeps_values(
    read: OperandModel,
    other: OperandModel,
    regs: Map<Seq<char>, isize>,
)
    ensures
        other.value(read.touch(regs)) == other.value(regs),
{
}

/// An operator and its two operands.
#[derive(Debug)]
pub struct BinaryOperation {
    op: Operator,
    left: Operand,
    right: Operand,
}

/// What an operation stands for.
pub struct OperationModel {
    pub op: Operator,
    pub left: OperandModel,
    pub right: OperandModel,
}

impl View for BinaryOperation {
    type V = OperationModel;

    closed spec fn view(&self) -> OperationModel {
        OperationModel { op: self.op, left: self.left@, right: self.right@ }
    }
}

impl OperationModel {
    /// The registers after both operands were read, the left one first.
    pub open spec fn touch(self, regs: Map<Seq<char>, isize>) -> Map<Seq<char>, isize> {
        self.right.touch(self.left.touch(regs))
    }

    /// What a comparison of the two operands gives.
    pub open spec fn holds(self, regs: Map<Seq<char>, isize>) -> bool {
        let l = self.left.value(regs);
        let r = self.right.value(self.left.touch(regs));
        match self.op {
            Operator::Eq => l == r,
            Operator::Ne => l != r,
            Operator::Lt => l < r,
            Operator::Le => l <= r,
            Operator::Ge => l >= r,
            Operator::Gt => l > r,
            _ => false,
        }
    }

    /// The new value of the target register of `inc` or `dec`: its value, 0 if it
    /// is absent, changed by that of the right operand.
    pub open spec fn target_value(self, regs: Map<Seq<char>, isize>) -> int {
        let amount = self.right.value(regs);
        let now = self.left.value(self.right.touch(regs));
        if self.op == Operator::Inc {
            now + amount
        } else {
            now - amount
        }
    }

    /// Whether the operation can be applied: `inc` and `dec` need a register as
    /// their left operand and a result that the register can hold.
    pub open spec fn applies(self, regs: Map<Seq<char>, isize>) -> bool {
        self.op == Operator::Inc || self.op == Operator::Dec ==> self.left is Ident && isize::MIN
            <= self.target_value(regs) <= isize::MAX
    }

    /// What applying the operation gives.
    pub open spec fn result(self, regs: Map<Seq<char>, isize>) -> Constant {
        if self.op == Operator::Inc || self.op == Operator::Dec {
            Constant::Num(self.target_value(regs) as isize)
        } else {
            Constant::Bool(self.holds(regs))
        }
    }

    /// The registers after the operation was applied.
    pub open spec fn effect(self, regs: Map<Seq<char>, isize>) -> Map<Seq<char>, isize> {
        if self.op == Operator::Inc || self.op == Operator::Dec {
            self.right.touch(regs).insert(self.left->Ident_0, self.target_value(regs) as isize)
        } else {
            self.touch(regs)
        }
    }
}

impl BinaryOperation {
    /// The operation with the given operator and operands.
    pub fn new(op: Operator, left: Operand, right: Operand) -> (operation: BinaryOperation)
        ensures
            operation@ == (OperationModel { op, left: left@, right: right@ }),
    {
        BinaryOperation { op, left, right }
    }

    /// Applies the operation to the registers: a comparison gives a truth value,
    /// `inc` and `dec` change the target register and give its new value.
    pub fn apply(&self, reg: &mut Register) -> (result: Constant)
        requires
            old(reg).well_formed(),
            self@.applies(old(reg)@),
        ensures
            final(reg).well_formed(),
            result == self@.result(old(reg)@),
            final(reg)@ == self@.effect(old(reg)@),
    {
        match self.op {
            Operator::Eq => Constant::Bool(self.eq(reg)),
            Operator::Ne => Constant::Bool(self.ne(reg)),
            Operator::Le => Constant::Bool(self.le(reg)),
            Operator::Ge => Constant::Bool(self.ge(reg)),
            Operator::Lt => Constant::Bool(self.lt(reg)),
            Operator::Gt => Constant::Bool(self.gt(reg)),
            Operator::Inc => Constant::Num(self.inc(reg)),
            Operator::Dec => Constant::Num(self.dec(reg)),
        }
    }

    /// Whether the operation can be applied to the registers.
    pub fn can_apply(&self, reg: &Register) -> (can: bool)
        requires
            reg.well_formed(),
        ensures
            can == self@.applies(reg@),
    {
        match self.op {
            Operator::Inc => {
                if !self.left.is_ident() {
                    return false;
                }
                proof {
                    lemma_touch_keeps_values(self@.right, self@.left, reg@);
                }
                self.left.peek(reg).checked_add(self.right.peek(reg)).is_some()
            },
            Operator::Dec => {
                if !self.left.is_ident() {
                    return false;
                }
                proof {
                    lemma_touch_keeps_values(self@.right, self@.left, reg@);
                }
                self.left.peek(reg).checked_sub(self.right.peek(reg)).is_some()
            },
            _ => true,
        }
    }

    /// Whether the comparison holds of the registers, without changing them.
    fn holds(&self, reg: &Register) -> (holds: bool)
        requires
            reg.well_formed(),
        ensures
            holds == self@.holds(reg@),
    {
        proof {
            lemma_touch_keeps_values(self@.left, self@.right, reg@);
        }
        let l = self.left.peek(reg);
        let r = self.right.peek(reg);
        match self.op {
            Operator::Eq => l == r,
            Operator::Ne => l != r,
            Operator::Lt => l < r,
            Operator::Le => l <= r,
            Operator::Ge => l >= r,
            Operator::Gt => l > r,
            _ => false,
        }
    }

    fn eq(&self, reg: &mut Register) -> (holds: bool)
        requires
            old(reg).well_formed(),
        ensures
            final(reg).well_formed(),
            final(reg)@ == self@.touch(old(reg)@),
            holds == (self@.left.value(old(reg)@) == self@.right.value(
                self@.left.touch(old(reg)@),
            )),
    {
        let l = self.left.resolve(reg);
        let r = self.right.resolve(reg);
        l == r
    }

    fn ne(&self, reg: &mut Register) -> (holds: bool)
        requires
            old(reg).well_formed(),
        ensures
            final(reg).well_formed(),
            final(reg)@ == self@.touch(old(reg)@),
            holds == (self@.left.value(old(reg)@) != self@.right.value(
                self@.left.touch(old(reg)@),
            )),
    {
        !self.eq(reg)
    }

    fn lt(&self, reg: &mut Register) -> (holds: bool)
        requires
            old(reg).well_formed(),
        ensures
            final(reg).well_formed(),
            final(reg)@ == self@.touch(old(reg)@),
            holds == (self@.left.value(old(reg)@) < self@.right.value(
                self@.left.touch(old(reg)@),
            )),
    {
        let l = self.left.resolve(reg);
        let r = self.right.resolve(reg);
        l < r
    }

    fn le(&self, reg: &mut Register) -> (holds: bool)
        requires
            old(reg).well_formed(),
        ensures
            final(reg).well_formed(),
            final(reg)@ == self@.touch(old(reg)@),
            holds == (self@.left.value(old(reg)@) <= self@.right.value(
                self@.left.touch(old(reg)@),
            )),
    {
        let l = self.left.resolve(reg);
        let r = self.right.resolve(reg);
        l <= r
    }

    fn ge(&self, reg: &mut Register) -> (holds: bool)
        requires
            old(reg).well_formed(),
        ensures
            final(reg).well_formed(),
            final(reg)@ == self@.touch(old(reg)@),
            holds == (self@.left.value(old(reg)@) >= self@.right.value(
                self@.left.touch(old(reg)@),
            )),
    {
        !self.lt(reg)
    }

    fn gt(&self, reg: &mut Register) -> (holds: bool)
        requires
            old(reg).well_formed(),
        ensures
            final(reg).well_formed(),
            final(reg)@ == self@.touch(old(reg)@),
            holds == (self@.left.value(old(reg)@) > self@.right.value(
                self@.left.touch(old(reg)@),
            )),
    {
        !self.le(reg)
    }

    fn inc(&self, reg: &mut Register) -> (value: isize)
        requires
            old(reg).well_formed(),
            self@.op == Operator::Inc,
            self@.applies(old(reg)@),
        ensures
            final(reg).well_formed(),
            value == self@.target_value(old(reg)@),
            final(reg)@ == self@.effect(old(reg)@),
    {
        let id = self.left.ident();
        let n = self.right.resolve(reg);
        let r = reg.fetch(id);
        let value = r + n;
        reg.set(id, value);
        proof {
            let touched = self@.right.touch(old(reg)@);
            assert(self@.left.touch(touched).insert(id@, value) =~= touched.insert(id@, value));
        }
        value
    }

    fn dec(&self, reg: &mut Register) -> (value: isize)
        requires
            old(reg).well_formed(),
            self@.op == Operator::Dec,
            self@.applies(old(reg)@),
        ensures
            final(reg).well_formed(),
            value == self@.target_value(old(reg)@),
            final(reg)@ == self@.effect(old(reg)@),
    {
        let id = self.left.ident();
        let n = self.right.resolve(reg);
        let r = reg.fetch(id);
        let value = r - n;
        reg.set(id, value);
        proof {
            let touched = self@.right.touch(old(reg)@);
            assert(self@.left.touch(touched).insert(id@, value) =~= touched.insert(id@, value));
        }
        value
    }
}

/// An instruction: an operation and the condition on which it is applied.
#[derive(Debug)]
pub struct Statement {
    condition: BinaryOperation,
    operation: BinaryOperation,
}

/// What an instruction stands for.
pub struct StatementModel {
    pub condition: OperationModel,
    pub operation: OperationModel,
}

impl View for Statement {
    type V = StatementModel;

    closed spec fn view(&self) -> StatementModel {
        StatementModel { condition: self.condition@, operation: self.operation@ }
    }
}

impl StatementModel {
    /// Whether the instruction can be applied: the condition is a comparison, and
    /// the operation, if the condition holds, can be applied after it.
    pub open spec fn applies(self, regs: Map<Seq<char>, isize>) -> bool {
        &&& self.condition.op != Operator::Inc
        &&& self.condition.op != Operator::Dec
        &&& self.condition.holds(regs) ==> self.operation.applies(self.condition.touch(regs))
    }

    /// What applying the instruction gives: the result of the operation as a
    /// number, if the condition holds.
    pub open spec fn result(self, regs: Map<Seq<char>, isize>) -> Option<isize> {
        if self.condition.holds(regs) {
            Some(
                match self.operation.result(self.condition.touch(regs)) {
                    Constant::Num(n) => n,
                    Constant::Bool(b) => if b {
                        1isize
                    } else {
                        0isize
                    },
                },
            )
        } else {
            None
        }
    }

    /// The registers after the instruction was applied.
    pub open spec fn effect(self, regs: Map<Seq<char>, isize>) -> Map<Seq<char>, isize> {
        if self.condition.holds(regs) {
            self.operation.effect(self.condition.touch(regs))
        } else {
            self.condition.touch(regs)
        }
    }
}

impl Statement {
    /// The instruction that applies `operation` if `condition` holds.
    pub fn new(condition: BinaryOperation, operation: BinaryOperation) -> (statement: Statement)
        ensures
            statement@ == (StatementModel { condition: condition@, operation: operation@ }),
    {
        Statement { condition, operation }
    }

    /// Applies the instruction to the registers: if the condition holds, the
    /// operation is applied and its result returned as a number.
    pub fn apply(&self, reg: &mut Register) -> (result: Option<isize>)
        requires
            old(reg).well_formed(),
            self@.applies(old(reg)@),
        ensures
            final(reg).well_formed(),
            result == self@.result(old(reg)@),
            final(reg)@ == self@.effect(old(reg)@),
    {
        if self.condition.apply(reg).as_bool() {
            Some(self.operation.apply(reg).as_num())
        } else {
            None
        }
    }
}

/// Whether an operation can be applied is decided by the values of its operands,
/// which reading other operands before does not change.
pub proof fn lemma_applies_after_touch(
    operation: OperationModel,
    condition: OperationModel,
    regs: Map<Seq<char>, isize>,
)
    ensures
        operation.applies(condition.touch(regs)) == operation.applies(regs),
{
    let once = condition.left.touch(regs);
    let twice = condition.touch(regs);
    lemma_touch_keeps_values(condition.left, operation.right, regs);
    lemma_touch_keeps_values(condition.right, operation.right, once);
    lemma_touch_keeps_values(condition.left, operation.left, regs);
    lemma_touch_keeps_values(condition.right, operation.left, once);
    lemma_touch_keeps_values(operation.right, operation.left, twice);
    lemma_touch_keeps_values(operation.right, operation.left, regs);
}

/// The registers after the first `count` instructions of a program were applied.
pub open spec fn after(
    program: Seq<StatementModel>,
    regs: Map<Seq<char>, isize>,
    count: nat,
) -> Map<Seq<char>, isize>
    decreases count,
{
    if count == 0 || count > program.len() {
        regs
    } else {
        program[count - 1].effect(after(program, regs, (count - 1) as nat))
    }
}

/// What a list of instructions stands for.
pub open spec fn statement_models(program: Seq<Statement>) -> Seq<StatementModel> {
    program.map_values(|statement: Statement| statement@)
}

impl Statement {
    /// Whether the instruction can be applied to the registers.
    pub fn can_apply(&self, reg: &Register) -> (can: bool)
        requires
            reg.well_formed(),
        ensures
            can == self@.applies(reg@),
    {
        match self.condition.op {
            Operator::Inc => false,
            Operator::Dec => false,
            _ => {
                proof {
                    lemma_applies_after_touch(self@.operation, self@.condition, reg@);
                }
                !self.condition.holds(reg) || self.operation.can_apply(reg)
            },
        }
    }

    /// Applies the instruction if it can be applied, and leaves the registers as
    /// they are if not.
    pub fn checked_apply(&self, reg: &mut Register) -> (result: Option<Option<isize>>)
        requires
            old(reg).well_formed(),
        ensures
            final(reg).well_formed(),
            match result {
                Some(applied) => {
                    &&& self@.applies(old(reg)@)
                    &&& applied == self@.result(old(reg)@)
                    &&& final(reg)@ == self@.effect(old(reg)@)
                },
                None => !self@.applies(old(reg)@) && final(reg)@ == old(reg)@,
            },
    {
        if self.can_apply(reg) {
            Some(self.apply(reg))
        } else {
            None
        }
    }
}

/// Applies the instructions of a program in order, up to the first that cannot
/// be applied, and says how many were applied.
pub fn run(program: &[Statement], reg: &mut Register) -> (applied: usize)
    requires
        old(reg).well_formed(),
    ensures
        final(reg).well_formed(),
        applied <= program@.len(),
        final(reg)@ == after(statement_models(program@), old(reg)@, applied as nat),
        forall|i: int|
            0 <= i < applied ==> (#[trigger] statement_models(program@)[i]).applies(
                after(statement_models(program@), old(reg)@, i as nat),
            ),
        applied < program@.len() ==> !statement_models(program@)[applied as int].applies(
            final(reg)@,
        ),
{
    let ghost models = statement_models(program@);
    let mut i: usize = 0;
    while i < program.len()
        invariant
            i <= program.len(),
            reg.well_formed(),
            models == statement_models(program@),
            reg@ == after(models, old(reg)@, i as nat),
            forall|k: int|
                0 <= k < i ==> (#[trigger] models[k]).applies(after(models, old(reg)@, k as nat)),
        decreases program.len() - i,
    {
        proof {
            assert(models[i as int] == program@[i as int]@);
        }
        match program[i].checked_apply(reg) {
            Some(_) => {},
            None => {
                return i;
            },
        }
        i = i + 1;
    }
    i
}

/// The message of an error without a message of its own.
pub const MALFORMED: &'static str = "malformed input";

/// The message for an instruction that has not seven words with `if` in the middle.
pub const NOT_A_STATEMENT: &'static str = "length is not 7 or token 3 is not if";

/// The message for an instruction whose target is a constant.
pub const NOT_AN_IDENTIFIER: &'static str = "left operand is not an identifier";

/// The message for a word that is no operator.
pub const UNKNOWN_OPERATOR: &'static str = "unknown operator";

/// The message for a word that is no constant.
pub const NOT_A_CONSTANT: &'static str = "not a constant";

/// Why a text could not be read: the message, the text, and a column.
#[derive(Debug)]
pub struct ParseError {
    msg: &'static str,
    data: String,
    column: usize,
}

/// What an error stands for.
pub struct ErrorModel {
    pub msg: Seq<char>,
    pub data: Seq<char>,
    pub column: nat,
}

impl View for ParseError {
    type V = ErrorModel;

    closed spec fn view(&self) -> ErrorModel {
        ErrorModel { msg: self.msg@, data: self.data@, column: self.column as nat }
    }
}

impl ParseError {
    /// The error that `data` is malformed.
    pub fn new(data: &str) -> (error: ParseError)
        ensures
            error@ == (ErrorModel { msg: MALFORMED@, data: data@, column: 0 }),
    {
        ParseError { msg: MALFORMED, data: String::from_str(data), column: 0 }
    }

    /// The error that `data` could not be read, with the reason.
    pub fn with_msg(data: &str, msg: &'static str) -> (error: ParseError)
        ensures
            error@ == (ErrorModel { msg: msg@, data: data@, column: 0 }),
    {
        ParseError { msg, data: String::from_str(data), column: 0 }
    }

    /// What went wrong.
    pub fn msg(&self) -> (msg: &'static str)
        ensures
            msg@ == self@.msg,
    {
        self.msg
    }

    /// The text that could not be read.
    pub fn data(&self) -> (data: &str)
        ensures
            data@ == self@.data,
    {
        self.data.as_str()
    }

    /// The column that the error points at.
    pub fn column(&self) -> (column: usize)
        ensures
            column == self@.column,
    {
        self.column
    }
}

/// The error that `data` could not be read for the reason `msg`.
pub open spec fn failure(data: Seq<char>, msg: Seq<char>) -> ErrorModel {
    ErrorModel { msg, data, column: 0 }
}

/// The operator that a word writes.
pub open spec fn operator_of(word: Seq<char>) -> Option<Operator> {
    if word == "inc"@ {
        Some(Operator::Inc)
    } else if word == "dec"@ {
        Some(Operator::Dec)
    } else if word == "=="@ {
        Some(Operator::Eq)
    } else if word == "!="@ {
        Some(Operator::Ne)
    } else if word == "<"@ {
        Some(Operator::Lt)
    } else if word == ">"@ {
        Some(Operator::Gt)
    } else if word == "<="@ {
        Some(Operator::Le)
    } else if word == ">="@ {
        Some(Operator::Ge)
    } else {
        None
    }
}

/// The constant that a word writes: a number, or else `true` or `false`.
pub open spec fn constant_of(word: Seq<char>) -> Option<Constant> {
    match isize_value(word) {
        Some(n) => Some(Constant::Num(n)),
        None => if word == "true"@ {
            Some(Constant::Bool(true))
        } else if word == "false"@ {
            Some(Constant::Bool(false))
        } else {
            None
        },
    }
}

/// The operand that a word writes: a constant, or else the name of a register.
pub open spec fn operand_of(word: Seq<char>) -> OperandModel {
    match constant_of(word) {
        Some(c) => OperandModel::Const(c),
        None => OperandModel::Ident(word),
    }
}

/// The instruction that a line writes: `{register} {op} {operand} if {operand}
/// {op} {operand}`, in words separated by whitespace.
pub open spec fn statement_of(line: Seq<char>) -> Result<StatementModel, ErrorModel> {
    let w = words(line);
    if w.len() != 7 || w[3] != "if"@ {
        Err(failure(line, NOT_A_STATEMENT@))
    } else if operator_of(w[1]) is None {
        Err(failure(w[1], UNKNOWN_OPERATOR@))
    } else if !(operand_of(w[0]) is Ident) {
        Err(failure(line, NOT_AN_IDENTIFIER@))
    } else if operator_of(w[5]) is None {
        Err(failure(w[5], UNKNOWN_OPERATOR@))
    } else {
        Ok(
            StatementModel {
                operation: OperationModel {
                    op: operator_of(w[1])->0,
                    left: operand_of(w[0]),
                    right: operand_of(w[2]),
                },
                condition: OperationModel {
                    op: operator_of(w[5])->0,
                    left: operand_of(w[4]),
                    right: operand_of(w[6]),
                },
            },
        )
    }
}

impl Operator {
    /// Reads an operator: `inc`, `dec`, `==`, `!=`, `<`, `>`, `<=` or `>=`.
    pub fn parse(s: &str) -> (read: Result<Operator, ParseError>)
        ensures
            match read {
                Ok(op) => operator_of(s@) == Some(op),
                Err(error) => operator_of(s@) is None && error@ == failure(s@, UNKNOWN_OPERATOR@),
            },
    {
        if same_text(s, "inc") {
            Ok(Operator::Inc)
        } else if same_text(s, "dec") {
            Ok(Operator::Dec)
        } else if same_text(s, "==") {
            Ok(Operator::Eq)
        } else if same_text(s, "!=") {
            Ok(Operator::Ne)
        } else if same_text(s, "<") {
            Ok(Operator::Lt)
        } else if same_text(s, ">") {
            Ok(Operator::Gt)
        } else if same_text(s, "<=") {
            Ok(Operator::Le)
        } else if same_text(s, ">=") {
            Ok(Operator::Ge)
        } else {
            Err(ParseError::with_msg(s, UNKNOWN_OPERATOR))
        }
    }
}

impl Constant {
    /// Reads a constant: a number, `true` or `false`.
    pub fn parse(s: &str) -> (read: Result<Constant, ParseError>)
        ensures
            match read {
                Ok(c) => constant_of(s@) == Some(c),
                Err(error) => constant_of(s@) is None && error@ == failure(s@, NOT_A_CONSTANT@),
            },
    {
        match parse_isize(s) {
            Some(n) => Ok(Constant::Num(n)),
            None => {
                if same_text(s, "true") {
                    Ok(Constant::Bool(true))
                } else if same_text(s, "false") {
                    Ok(Constant::Bool(false))
                } else {
                    Err(ParseError::with_msg(s, NOT_A_CONSTANT))
                }
            },
        }
    }
}

impl Operand {
    /// Reads an operand: a constant, or else the name of a register. This never fails.
    pub fn parse(s: &str) -> (read: Result<Operand, ParseError>)
        ensures
            read matches Ok(operand) && operand@ == operand_of(s@),
    {
        match Constant::parse(s) {
            Ok(c) => Ok(Operand::Const(c)),
            Err(_) => Ok(Operand::Ident(String::from_str(s))),
        }
    }
}

impl Statement {
    /// Reads an instruction such as `c dec -10 if a >= 1`.
    pub fn parse(s: &str) -> (read: Result<Statement, ParseError>)
        ensures
            match read {
                Ok(statement) => statement_of(s@) == Ok::<StatementModel, ErrorModel>(statement@),
                Err(error) => statement_of(s@) == Err::<StatementModel, ErrorModel>(error@),
            },
    {
        let tokens = words_of(s);
        proof {
            assert(forall|i: int|
                0 <= i < tokens@.len() ==> (#[trigger] tokens@[i])@ == string_views(tokens@)[i]);
        }
        if tokens.len() != 7 || !same_text(tokens[3].as_str(), "if") {
            return Err(ParseError::with_msg(s, NOT_A_STATEMENT));
        }
        let op = match Operator::parse(tokens[1].as_str()) {
            Ok(op) => op,
            Err(error) => {
                return Err(error);
            },
        };
        let left = match Operand::parse(tokens[0].as_str()) {
            Ok(operand) => operand,
            Err(error) => {
                return Err(error);
            },
        };
        if !left.is_ident() {
            return Err(ParseError::with_msg(s, NOT_AN_IDENTIFIER));
        }
        let right = match Operand::parse(tokens[2].as_str()) {
            Ok(operand) => operand,
            Err(error) => {
                return Err(error);
            },
        };
        let target_op = BinaryOperation { op, left, right };
        let condition_op = match Operator::parse(tokens[5].as_str()) {
            Ok(op) => op,
            Err(error) => {
                return Err(error);
            },
        };
        let condition_left = match Operand::parse(tokens[4].as_str()) {
            Ok(operand) => operand,
            Err(error) => {
                return Err(error);
            },
        };
        let condition_right = match Operand::parse(tokens[6].as_str()) {
            Ok(operand) => operand,
            Err(error) => {
                return Err(error);
            },
        };
        let condition = BinaryOperation {
            op: condition_op,
            left: condition_left,
            right: condition_right,
        };
        Ok(Statement { operation: target_op, condition })
    }
}

impl std::str::FromStr for Operator {
    type Err = ParseError;

    /// Reads an operator: `inc`, `dec`, `==`, `!=`, `<`, `>`, `<=` or `>=`.
    fn from_str(s: &str) -> (read: Result<Self, Self::Err>)
        ensures
            match read {
                Ok(op) => operator_of(s@) == Some(op),
                Err(error) => operator_of(s@) is None && error@ == failure(s@, UNKNOWN_OPERATOR@),
            },
    {
        Operator::parse(s)
    }
}

impl std::str::FromStr for Constant {
    type Err = ParseError;

    /// Reads a constant: a number, `true` or `false`.
    fn from_str(s: &str) -> (read: Result<Self, Self::Err>)
        ensures
            match read {
                Ok(c) => constant_of(s@) == Some(c),
                Err(error) => constant_of(s@) is None && error@ == failure(s@, NOT_A_CONSTANT@),
            },
    {
        Constant::parse(s)
    }
}

impl std::str::FromStr for Operand {
    type Err = ParseError;

    /// Reads an operand: a constant, or else the name of a register. This never fails.
    fn from_str(s: &str) -> (read: Result<Self, Self::Err>)
        ensures
            read matches Ok(operand) && operand@ == operand_of(s@),
    {
        Operand::parse(s)
    }
}

impl std::str::FromStr for Statement {
    type Err = ParseError;

    /// Reads an instruction such as `c dec -10 if a >= 1`.
    fn from_str(s: &str) -> (read: Result<Self, Self::Err>)
        ensures
            match read {
                Ok(statement) => statement_of(s@) == Ok::<StatementModel, ErrorModel>(statement@),
                Err(error) => statement_of(s@) == Err::<StatementModel, ErrorModel>(error@),
            },
    {
        Statement::parse(s)
    }
}

} // verus!
