use vstd::prelude::*;

use crate::lox_value::LoxValue;

verus! {

/// The number of values the machine's stack holds.
pub const STACK_SIZE: usize = 10;

/// A stack-top cursor: the index of the next free slot of a stack.
#[derive(Clone, Copy, Debug, PartialEq, Eq, Structural)]
pub struct Sp {
    index: usize,
}

impl Sp {
    /// The slot this cursor points at.
    pub closed spec fn index(&self) -> nat {
        self.index as nat
    }

    /// A cursor at the base of a stack.
    pub fn create() -> (r: Sp)
        ensures
            r.index() == 0,
    {
        Sp { index: 0 }
    }

    /// The value in the slot under the cursor.
    pub fn get_value(&self, stack: &Stack) -> (r: LoxValue)
        requires
            stack.wf(),
            self.index() < STACK_SIZE,
        ensures
            r == stack.slots()[self.index() as int],
    {
        stack.bytes[self.index]
    }

    /// Writes `value` into the slot under the cursor.
    pub fn write_value(&self, stack: &mut Stack, value: &LoxValue)
        requires
            old(stack).wf(),
            self.index() < STACK_SIZE,
        ensures
            final(stack).wf(),
            final(stack).slots() == old(stack).slots().update(self.index() as int, *value),
            final(stack).top() == old(stack).top(),
    {
        stack.bytes.set(self.index, *value);
    }

    /// Moves the cursor `offset` slots up.
    pub fn inc(&mut self, offset: usize)
        requires
            old(self).index() + offset <= STACK_SIZE,
        ensures
            final(self).index() == old(self).index() + offset,
    {
        self.index = self.index + offset;
    }

    /// Moves the cursor `offset` slots down.
    pub fn dec(&mut self, offset: usize)
        requires
            offset <= old(self).index(),
        ensures
            final(self).index() == old(self).index() - offset,
    {
        self.index = self.index - offset;
    }
}

/// A value stack of fixed capacity. Its stack-top cursor never leaves
/// `0..=STACK_SIZE`; pushing onto a full stack or popping an empty one fails
/// and leaves it as it was.
#[derive(Debug)]
pub struct Stack {
    bytes: Vec<LoxValue>,
    top: Sp,
}

impl Stack {
    /// Every slot, used or not.
    pub closed spec fn slots(&self) -> Seq<LoxValue> {
        self.bytes@
    }

    /// The index of the first free slot.
    pub closed spec fn top(&self) -> nat {
        self.top.index()
    }

    /// The values on the stack, bottom to top.
    pub open spec fn contents(&self) -> Seq<LoxValue> {
        self.slots().subrange(0, self.top() as int)
    }

    pub closed spec fn wf(&self) -> bool {
        &&& self.bytes@.len() == STACK_SIZE
        &&& self.top.index() <= STACK_SIZE
    }

    /// An empty stack with `STACK_SIZE` slots.
    pub fn new() -> (r: Stack)
        ensures
            r.wf(),
            r.contents() == Seq::<LoxValue>::empty(),
    {
        let mut bytes: Vec<LoxValue> = Vec::new();
        let mut k: usize = 0;
        while k < STACK_SIZE
            invariant
                k <= STACK_SIZE,
                bytes@.len() == k,
            decreases STACK_SIZE - k,
        {
            bytes.push(LoxValue::zero());
            k = k + 1;
        }
        let r = Stack { bytes, top: Sp::create() };
        assert(r.contents() =~= Seq::<LoxValue>::empty());
        r
    }

    /// A cursor at the base of the stack.
    pub fn get_base_sp(&self) -> (r: Sp)
        ensures
            r.index() == 0,
    {
        Sp::create()
    }

    /// The number of values on the stack.
    pub fn len(&self) -> (r: usize)
        requires
            self.wf(),
        ensures
            r == self.contents().len(),
            r == self.top(),
    {
        self.top.index
    }

    /// Pushes `value`; fails, changing nothing, when the stack is full.
    pub fn push(&mut self, value: LoxValue) -> (r: bool)
        requires
            old(self).wf(),
        ensures
            final(self).wf(),
            r == (old(self).contents().len() < STACK_SIZE),
            r ==> final(self).contents() == old(self).contents().push(value),
            !r ==> final(self).contents() == old(self).contents(),
    {
        if self.top.index >= STACK_SIZE {
            return false;
        }
        let sp = self.top;
        sp.write_value(self, &value);
        self.top.inc(1);
        assert(self.contents() =~= old(self).contents().push(value));
        true
    }

    /// Pops the top value; `None`, changing nothing, when the stack is empty.
    pub fn pop(&mut self) -> (r: Option<LoxValue>)
        requires
            old(self).wf(),
        ensures
            final(self).wf(),
            old(self).contents().len() == 0 ==> r is None && final(self).contents() == old(
                self,
            ).contents(),
            old(self).contents().len() > 0 ==> r == Some(old(self).contents().last())
                && final(self).contents() == old(self).contents().drop_last(),
    {
        if self.top.index == 0 {
            return None;
        }
        self.top.dec(1);
        let value = self.top.get_value(self);
        assert(self.contents() =~= old(self).contents().drop_last());
        Some(value)
    }

    /// The values on the stack up to the cursor `up_to`, bottom to top.
    pub fn get_stack_iterator(&self, up_to: Sp) -> (r: StackIterator)
        requires
            self.wf(),
            up_to.index() <= STACK_SIZE,
        ensures
            r.wf(),
            r.remaining() == self.slots().subrange(0, up_to.index() as int),
    {
        StackIterator::new(self, &up_to)
    }

    /// The values on the stack, bottom to top.
    pub fn values(&self) -> (r: Vec<LoxValue>)
        requires
            self.wf(),
        ensures
            r@ == self.contents(),
    {
        let mut r: Vec<LoxValue> = Vec::new();
        let mut k: usize = 0;
        while k < self.top.index
            invariant
                self.wf(),
                k <= self.top(),
                r@ == self.slots().subrange(0, k as int),
            decreases self.top() - k,
        {
            r.push(self.bytes[k]);
            k = k + 1;
            assert(r@ =~= self.slots().subrange(0, k as int));
        }
        r
    }
}

/// The values of a stack from its base up to a cursor, handed out one by
/// one.
pub struct StackIterator {
    items: Vec<LoxValue>,
    curr: usize,
}

impl StackIterator {
    /// The values not yet handed out.
    pub closed spec fn remaining(&self) -> Seq<LoxValue> {
        self.items@.subrange(self.curr as int, self.items@.len() as int)
    }

    pub closed spec fn wf(&self) -> bool {
        self.curr <= self.items@.len()
    }

    pub fn new(stack: &Stack, sp: &Sp) -> (r: StackIterator)
        requires
            stack.wf(),
            sp.index() <= STACK_SIZE,
        ensures
            r.wf(),
            r.remaining() == stack.slots().subrange(0, sp.index() as int),
    {
        let mut items: Vec<LoxValue> = Vec::new();
        let mut k: usize = 0;
        while k < sp.index
            invariant
                stack.wf(),
                k <= sp.index() <= STACK_SIZE,
                items@ == stack.slots().subrange(0, k as int),
            decreases sp.index() - k,
        {
            items.push(stack.bytes[k]);
            k = k + 1;
            assert(items@ =~= stack.slots().subrange(0, k as int));
        }
        let r = StackIterator { items, curr: 0 };
        assert(r.remaining() =~= items@);
        r
    }

    /// The next value, bottom first; `None` once all are handed out.
    pub fn next(&mut self) -> (r: Option<LoxValue>)
        requires
            old(self).wf(),
        ensures
            final(self).wf(),
            old(self).remaining().len() == 0 ==> r is None && final(self).remaining() == old(
                self,
            ).remaining(),
            old(self).remaining().len() > 0 ==> r == Some(old(self).remaining()[0])
                && final(self).remaining() == old(self).remaining().drop_first(),
    {
        if self.curr >= self.items.len() {
            return None;
        }
        let value = self.items[self.curr];
        self.curr = self.curr + 1;
        assert(self.remaining() =~= old(self).remaining().drop_first());
        Some(value)
    }
}

} // verus!
