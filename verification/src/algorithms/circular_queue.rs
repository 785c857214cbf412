//! A first-in first-out queue of fixed capacity over a ring of slots.
use vstd::prelude::*;

verus! {

/// A queue of at most `k` values in `k` slots. Two counters, which wrap
/// around at the end of `usize`, number the values that went in (`back`) and
/// came out (`front`); a value lives in the slot of its number modulo `k`,
/// and a free slot holds -1.
pub struct MyCircularQueue {
    front: usize,
    back: usize,
    elements: Vec<i32>,
}

/// `b - a` modulo the size of `usize`, as `usize::wrapping_sub` computes it.
pub open spec fn wrapped_diff(b: usize, a: usize) -> int {
    if b >= a {
        b - a
    } else {
        b - a + usize::MAX + 1
    }
}

/// `a + 1`, back to 0 after `usize::MAX`, as `usize::wrapping_add` computes it.
pub open spec fn wrapped_succ(a: usize) -> int {
    if a == usize::MAX {
        0
    } else {
        a + 1
    }
}

proof fn lemma_mod_distinct(a: int, b: int, m: int)
    requires
        0 <= a,
        0 < b - a < m,
    ensures
        a % m != b % m,
{
    vstd::arithmetic::div_mod::lemma_fundamental_div_mod(a, m);
    vstd::arithmetic::div_mod::lemma_fundamental_div_mod(b, m);
    assert(a % m != b % m) by (nonlinear_arith)
        requires
            0 <= a,
            0 < b - a < m,
            a == m * (a / m) + a % m,
            b == m * (b / m) + b % m,
            0 <= a % m < m,
            0 <= b % m < m,
    ;
}

impl MyCircularQueue {
    /// The number of the next value to come out.
    pub closed spec fn front_count(&self) -> usize {
        self.front
    }

    /// The number of the next value to go in.
    pub closed spec fn back_count(&self) -> usize {
        self.back
    }

    /// The slots.
    pub closed spec fn slots(&self) -> Seq<i32> {
        self.elements@
    }

    /// The capacity: the number of slots.
    pub open spec fn capacity(&self) -> int {
        self.slots().len() as int
    }

    /// How many values are in the queue.
    pub open spec fn count(&self) -> int {
        wrapped_diff(self.back_count(), self.front_count())
    }

    /// No more values are in the queue than it has slots.
    pub open spec fn wf(&self) -> bool {
        self.count() <= self.capacity()
    }

    /// The values in the queue, oldest first.
    pub open spec fn contents(&self) -> Seq<i32> {
        Seq::new(
            self.count() as nat,
            |j: int| self.slots()[(self.front_count() + j) % self.capacity()],
        )
    }

    /// An empty queue with `k` slots, each holding -1.
    pub fn new(k: i32) -> (q: Self)
        requires
            k >= 0,
        ensures
            q.wf(),
            q.front_count() == 0,
            q.back_count() == 0,
            q.slots() == Seq::new(k as nat, |_i: int| -1i32),
            q.contents() == Seq::<i32>::empty(),
    {
        let n = k as usize;
        let mut elements: Vec<i32> = Vec::new();
        let mut i: usize = 0;
        while i < n
            invariant
                i <= n,
                elements@ == Seq::new(i as nat, |_i: int| -1i32),
            decreases n - i,
        {
            elements.push(-1);
            i += 1;
            assert(elements@ =~= Seq::new(i as nat, |_i: int| -1i32));
        }
        let q = Self { front: 0, back: 0, elements };
        assert(q.contents() =~= Seq::<i32>::empty());
        q
    }

    /// Puts `value` in at the back, unless the queue is full; whether it did.
    pub fn en_queue(&mut self, value: i32) -> (res: bool)
        requires
            old(self).wf(),
        ensures
            final(self).wf(),
            res == (old(self).count() < old(self).capacity()),
            res ==> final(self).slots() == old(self).slots().update(
                (old(self).back_count() as int) % old(self).capacity(),
                value,
            ) && final(self).back_count() == wrapped_succ(old(self).back_count())
                && final(self).front_count() == old(self).front_count(),
            !res ==> *final(self) == *old(self),
            res && old(self).front_count() <= old(self).back_count() < usize::MAX
                ==> final(self).contents() == old(self).contents().push(value),
    {
        let back = self.back;
        let front = self.front;
        let len = back.wrapping_sub(front);
        if len >= self.elements.len() {
            return false;
        }
        let idx = back % self.elements.len();
        let ghost old_q = *self;
        self.elements.set(idx, value);
        self.back = back.wrapping_add(1);
        proof {
            if old_q.front_count() <= old_q.back_count() < usize::MAX {
                let cap = old_q.capacity();
                assert forall|j: int| 0 <= j < old_q.count() implies #[trigger] self.contents()[j]
                    == old_q.contents()[j] by {
                    lemma_mod_distinct(front + j, back as int, cap);
                }
                assert(self.contents() =~= old_q.contents().push(value));
            }
        }
        true
    }

    /// Takes the value at the front out, unless the queue is empty, leaving -1
    /// in its slot; whether it did.
    pub fn de_queue(&mut self) -> (res: bool)
        requires
            old(self).wf(),
        ensures
            final(self).wf(),
            res == (old(self).count() != 0),
            res ==> final(self).slots() == old(self).slots().update(
                (old(self).front_count() as int) % old(self).capacity(),
                -1i32,
            ) && final(self).front_count() == wrapped_succ(old(self).front_count())
                && final(self).back_count() == old(self).back_count(),
            !res ==> *final(self) == *old(self),
            res && old(self).front_count() <= old(self).back_count() ==> final(self).contents()
                == old(self).contents().drop_first(),
    {
        if self.is_empty() {
            return false;
        }
        let front = self.front;
        let idx = front % self.elements.len();
        let ghost old_q = *self;
        self.elements.set(idx, -1);
        self.front = front.wrapping_add(1);
        proof {
            if old_q.front_count() <= old_q.back_count() {
                let cap = old_q.capacity();
                assert forall|j: int| 0 <= j < old_q.count() - 1 implies #[trigger] self.contents()[j]
                    == old_q.contents()[j + 1] by {
                    lemma_mod_distinct(front as int, front + 1 + j, cap);
                }
                assert(self.contents() =~= old_q.contents().drop_first());
            }
        }
        true
    }

    /// The value at the front, or -1 where the queue is empty.
    pub fn front(&self) -> (res: i32)
        requires
            self.wf(),
        ensures
            res == (if self.count() == 0 {
                -1i32
            } else {
                self.slots()[(self.front_count() as int) % self.capacity()]
            }),
            self.count() != 0 ==> res == self.contents()[0],
    {
        if self.is_empty() {
            -1
        } else {
            let idx = self.front % self.elements.len();
            self.elements[idx]
        }
    }

    /// The value at the back, or -1 where the queue is empty.
    pub fn rear(&self) -> (res: i32)
        requires
            self.wf(),
        ensures
            res == (if self.count() == 0 {
                -1i32
            } else {
                self.slots()[wrapped_diff(self.back_count(), 1) % self.capacity()]
            }),
            self.count() != 0 && self.front_count() <= self.back_count() ==> res
                == self.contents().last(),
    {
        if self.is_empty() {
            -1
        } else {
            let idx = self.back.wrapping_sub(1) % self.elements.len();
            self.elements[idx]
        }
    }

    /// Whether the queue holds no value.
    pub fn is_empty(&self) -> (res: bool)
        ensures
            res == (self.count() == 0),
    {
        self.back.wrapping_sub(self.front) == 0
    }

    /// Whether the queue holds as many values as it has slots.
    pub fn is_full(&self) -> (res: bool)
        ensures
            res == (self.count() >= self.capacity()),
    {
        let len = self.back.wrapping_sub(self.front);
        len >= self.elements.len()
    }
}

} // verus!
