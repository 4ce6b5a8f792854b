//! A stack that can take snapshots of itself and roll back to them.
use vstd::prelude::*;

verus! {

/// An operation recorded in the stack's log.
#[derive(Debug)]
pub enum StackOp<T> {
    Push(T),
    Pop(T),
}

/// The contents that a log of operations leaves, starting from empty.
pub open spec fn replay<T>(ops: Seq<StackOp<T>>) -> Seq<T>
    decreases ops.len(),
{
    if ops.len() == 0 {
        Seq::empty()
    } else {
        match ops.last() {
            StackOp::Push(v) => replay(ops.drop_last()).push(v),
            StackOp::Pop(_) => replay(ops.drop_last()).drop_last(),
        }
    }
}

/// Whether each recorded pop removed the value it records.
pub open spec fn log_consistent<T>(ops: Seq<StackOp<T>>) -> bool
    decreases ops.len(),
{
    if ops.len() == 0 {
        true
    } else {
        log_consistent(ops.drop_last()) && match ops.last() {
            StackOp::Push(_) => true,
            StackOp::Pop(v) => replay(ops.drop_last()).len() > 0 && replay(ops.drop_last()).last() == v,
        }
    }
}

proof fn lemma_consistent_prefix<T>(ops: Seq<StackOp<T>>, i: int)
    requires
        log_consistent(ops),
        0 <= i <= ops.len(),
    ensures
        log_consistent(ops.subrange(0, i)),
    decreases ops.len(),
{
    if i == ops.len() {
        assert(ops.subrange(0, i) =~= ops);
    } else {
        assert(ops.drop_last().subrange(0, i) =~= ops.subrange(0, i));
        lemma_consistent_prefix(ops.drop_last(), i);
    }
}

/// A last-in first-out stack with snapshots.  `snapshot` saves the current
/// contents; `restore` returns to the most recently saved contents.
#[derive(Debug)]
pub struct Stack<T: Copy> {
    ops: Vec<StackOp<T>>,
    stack: Vec<T>,
    snapshots: Vec<usize>,
}

impl<T: Copy> Stack<T> {
    /// The contents, bottom first.
    pub closed spec fn contents(&self) -> Seq<T> {
        self.stack@
    }

    /// The saved contents, oldest snapshot first.
    pub closed spec fn saved(&self) -> Seq<Seq<T>> {
        self.snapshots@.map_values(|k: usize| replay(self.ops@.subrange(0, k as int)))
    }

    /// The internal log agrees with the contents and the snapshots.
    pub closed spec fn wf(&self) -> bool {
        &&& log_consistent(self.ops@)
        &&& self.stack@ == replay(self.ops@)
        &&& forall|i: int| 0 <= i < self.snapshots@.len() ==> #[trigger] self.snapshots@[i] <= self.ops@.len()
        &&& forall|i: int, j: int| 0 <= i <= j < self.snapshots@.len() ==> #[trigger] self.snapshots@[i] <= #[trigger] self.snapshots@[j]
    }

    /// Creates an empty stack.
    pub fn new() -> (r: Self)
        ensures
            r.wf(),
            r.contents().len() == 0,
            r.saved().len() == 0,
    {
        let r = Stack { ops: Vec::new(), stack: Vec::new(), snapshots: Vec::new() };
        assert(r.saved() =~= Seq::empty());
        r
    }

    /// Whether the stack holds no element.
    pub fn is_empty(&self) -> (r: bool)
        ensures
            r == (self.contents().len() == 0),
    {
        self.stack.len() == 0
    }

    pub fn len(&self) -> (r: usize)
        ensures
            r == self.contents().len(),
    {
        self.stack.len()
    }

    /// Pushes `value` on top.
    pub fn push(&mut self, value: T)
        requires
            old(self).wf(),
        ensures
            final(self).wf(),
            final(self).contents() == old(self).contents().push(value),
            final(self).saved() == old(self).saved(),
    {
        let ghost old_ops = self.ops@;
        self.ops.push(StackOp::Push(value));
        self.stack.push(value);
        proof {
            assert(self.ops@.drop_last() =~= old_ops);
            assert forall|i: int| 0 <= i < self.snapshots@.len() implies
                #[trigger] self.ops@.subrange(0, self.snapshots@[i] as int) =~= old_ops.subrange(0, self.snapshots@[i] as int) by {}
            assert(self.saved() =~= old(self).saved());
        }
    }

    /// Removes the top element and returns it, or `None` when empty.
    pub fn pop(&mut self) -> (r: Option<T>)
        requires
            old(self).wf(),
        ensures
            final(self).wf(),
            final(self).saved() == old(self).saved(),
            old(self).contents().len() == 0 ==> r.is_none() && final(self).contents() == old(self).contents(),
            old(self).contents().len() > 0 ==> r == Some(old(self).contents().last())
                && final(self).contents() == old(self).contents().drop_last(),
    {
        let ghost old_ops = self.ops@;
        match self.stack.pop() {
            Some(v) => {
                self.ops.push(StackOp::Pop(v));
                proof {
                    assert(self.ops@.drop_last() =~= old_ops);
                    assert forall|i: int| 0 <= i < self.snapshots@.len() implies
                        #[trigger] self.ops@.subrange(0, self.snapshots@[i] as int) =~= old_ops.subrange(0, self.snapshots@[i] as int) by {}
                    assert(self.saved() =~= old(self).saved());
                }
                Some(v)
            },
            None => None,
        }
    }

    /// The top element, or `None` when empty.
    pub fn peek(&self) -> (r: Option<&T>)
        ensures
            self.contents().len() == 0 ==> r.is_none(),
            self.contents().len() > 0 ==> r == Some(&self.contents().last()),
    {
        if self.stack.len() == 0 {
            None
        } else {
            Some(&self.stack[self.stack.len() - 1])
        }
    }

    /// The contents, bottom first.
    pub fn as_slice(&self) -> (r: &[T])
        ensures
            r@ == self.contents(),
    {
        self.stack.as_slice()
    }

    /// Returns to the contents saved by the most recent `snapshot`, which is
    /// then dropped; without a snapshot, empties the stack.
    pub fn restore(&mut self)
        requires
            old(self).wf(),
        ensures
            final(self).wf(),
            old(self).saved().len() > 0 ==> final(self).contents() == old(self).saved().last()
                && final(self).saved() == old(self).saved().drop_last(),
            old(self).saved().len() == 0 ==> final(self).contents().len() == 0 && final(self).saved().len() == 0,
    {
        match self.snapshots.pop() {
            Some(k) => {
                let ghost old_ops = self.ops@;
                assert(k == old(self).snapshots@.last());
                self.rewind_to(k);
                self.ops.truncate(k);
                proof {
                    assert(self.ops@ =~= old_ops.subrange(0, k as int));
                    lemma_consistent_prefix(old_ops, k as int);
                    assert forall|i: int| 0 <= i < self.snapshots@.len() implies #[trigger] self.snapshots@[i] <= self.ops@.len() by {
                        assert(old(self).snapshots@[i] <= old(self).snapshots@[old(self).snapshots@.len() - 1]);
                    }
                    assert forall|i: int| 0 <= i < self.snapshots@.len() implies
                        #[trigger] self.ops@.subrange(0, self.snapshots@[i] as int) =~= old_ops.subrange(0, self.snapshots@[i] as int) by {
                        assert(old(self).snapshots@[i] <= old(self).snapshots@[old(self).snapshots@.len() - 1]);
                    }
                    assert(self.saved() =~= old(self).saved().drop_last());
                }
            },
            None => {
                self.clear();
                assert(self.saved() =~= Seq::empty());
            },
        }
    }

    /// Undoes the logged operations from position `index` on.
    fn rewind_to(&mut self, index: usize)
        requires
            log_consistent(old(self).ops@),
            old(self).stack@ == replay(old(self).ops@),
            index <= old(self).ops@.len(),
        ensures
            final(self).ops@ == old(self).ops@,
            final(self).snapshots@ == old(self).snapshots@,
            final(self).stack@ == replay(old(self).ops@.subrange(0, index as int)),
    {
        let mut i = self.ops.len();
        assert(self.ops@.subrange(0, i as int) =~= self.ops@);
        while i > index
            invariant
                index <= i <= self.ops@.len(),
                self.ops@ == old(self).ops@,
                self.snapshots@ == old(self).snapshots@,
                log_consistent(self.ops@),
                self.stack@ == replay(self.ops@.subrange(0, i as int)),
            decreases i,
        {
            let ghost pre = self.ops@.subrange(0, i as int);
            proof {
                lemma_consistent_prefix(self.ops@, i as int);
                assert(pre.drop_last() =~= self.ops@.subrange(0, i - 1));
            }
            match self.ops[i - 1] {
                StackOp::Push(_) => {
                    self.stack.pop();
                },
                StackOp::Pop(elem) => {
                    self.stack.push(elem);
                },
            }
            i = i - 1;
            assert(self.stack@ =~= replay(self.ops@.subrange(0, i as int)));
        }
    }

    /// Saves the current contents.
    pub fn snapshot(&mut self)
        requires
            old(self).wf(),
        ensures
            final(self).wf(),
            final(self).contents() == old(self).contents(),
            final(self).saved() == old(self).saved().push(old(self).contents()),
    {
        let n = self.ops.len();
        self.snapshots.push(n);
        proof {
            assert(self.ops@.subrange(0, n as int) =~= self.ops@);
            assert(self.saved() =~= old(self).saved().push(old(self).contents()));
        }
    }

    /// Drops the most recent snapshot, keeping the contents.
    pub fn clear_snapshot(&mut self)
        requires
            old(self).wf(),
        ensures
            final(self).wf(),
            final(self).contents() == old(self).contents(),
            final(self).saved() == if old(self).saved().len() > 0 {
                old(self).saved().drop_last()
            } else {
                old(self).saved()
            },
    {
        self.snapshots.pop();
        assert(self.saved() =~= if old(self).saved().len() > 0 {
            old(self).saved().drop_last()
        } else {
            old(self).saved()
        });
    }

    /// Empties the stack and drops all snapshots.
    pub fn clear(&mut self)
        ensures
            final(self).wf(),
            final(self).contents().len() == 0,
            final(self).saved().len() == 0,
    {
        self.ops.clear();
        self.stack.clear();
        self.snapshots.clear();
        assert(self.saved() =~= Seq::empty());
    }
}

} // verus!
