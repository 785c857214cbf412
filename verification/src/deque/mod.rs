//! A work-stealing deque: one worker pushes and pops at the bottom, any
//! number of stealers take from the top.
//!
//! The values live in a ring buffer of slots that doubles when full. The
//! worker and the stealers share the deque behind a verified reader-writer
//! lock, so each operation runs on its own and a steal never loses a race.
use vstd::prelude::*;
use vstd::rwlock::{RwLock, RwLockPredicate};
use std::sync::Arc;

verus! {

/// The number of slots that a new deque starts with.
pub const MIN_SIZE: usize = 32;

/// When stealing some data, this is an enumeration of the possible outcomes.
#[derive(PartialEq, Debug)]
pub enum Stolen<T> {
    /// The deque was empty at the time of stealing
    Empty,
    /// The stealer lost the race for stealing data, and a retry may return more
    /// data.
    Abort,
    /// The stealer has successfully stolen some data.
    Data(T),
}

/// A ring of slots, each empty or holding one value.
pub struct Buffer<T> {
    storage: Vec<Option<T>>,
}

/// The position `(head + j) % n` of the ring, for `head, j < n`.
fn slot(head: usize, j: usize, n: usize) -> (r: usize)
    requires
        head < n,
        j < n,
    ensures
        r == (head + j) % (n as int),
{
    proof {
        vstd::arithmetic::div_mod::lemma_fundamental_div_mod(head + j, n as int);
        let x = head + j;
        let m = n as int;
        assert(x % m == if x < m {
            x
        } else {
            x - m
        }) by (nonlinear_arith)
            requires
                0 <= x < 2 * m,
                m > 0,
                x == m * (x / m) + x % m,
                0 <= x % m < m,
        ;
    }
    if j < n - head {
        head + j
    } else {
        j - (n - head)
    }
}

/// `n` empty slots.
fn allocate<T>(number: usize) -> (v: Vec<Option<T>>)
    ensures
        v@.len() == number,
        forall|i: int| 0 <= i < number ==> v@[i] is None,
{
    let mut v: Vec<Option<T>> = Vec::with_capacity(number);
    let mut i: usize = 0;
    while i < number
        invariant
            i <= number,
            v@.len() == i,
            forall|k: int| 0 <= k < i ==> v@[k] is None,
        decreases number - i,
    {
        v.push(None);
        i += 1;
    }
    v
}

impl<T> Buffer<T> {
    /// The slots.
    pub closed spec fn slots(&self) -> Seq<Option<T>> {
        self.storage@
    }

    /// A buffer of `size` empty slots.
    pub fn new(size: usize) -> (b: Self)
        ensures
            b.slots().len() == size,
            forall|i: int| 0 <= i < size ==> b.slots()[i] is None,
    {
        Buffer { storage: allocate(size) }
    }

    /// The number of slots.
    pub fn size(&self) -> (n: usize)
        ensures
            n == self.slots().len(),
    {
        self.storage.len()
    }

    /// Takes the value out of slot `i`, leaving it empty.
    fn take(&mut self, i: usize) -> (t: T)
        requires
            i < old(self).slots().len(),
            old(self).slots()[i as int] is Some,
        ensures
            t == old(self).slots()[i as int]->0,
            final(self).slots() == old(self).slots().update(i as int, None),
    {
        let mut out: Option<T> = None;
        self.storage.set_and_swap(i, &mut out);
        out.unwrap()
    }

    /// Puts `t` in slot `i`.
    fn put(&mut self, i: usize, t: T)
        requires
            i < old(self).slots().len(),
        ensures
            final(self).slots() == old(self).slots().update(i as int, Some(t)),
    {
        self.storage.set(i, Some(t));
    }

    /// Doubles the ring, moving the `len` values that start at slot `head`
    /// to the first slots of the new ring, in order.
    pub fn grow(&mut self, head: usize, len: usize)
        requires
            head < old(self).slots().len(),
            len <= old(self).slots().len(),
            forall|j: int|
                0 <= j < len ==> (#[trigger] old(self).slots()[(head + j) % (old(
                    self,
                ).slots().len() as int)]) is Some,
        ensures
            final(self).slots().len() == 2 * old(self).slots().len(),
            forall|j: int|
                0 <= j < len ==> #[trigger] final(self).slots()[j] == old(self).slots()[(head + j)
                    % (old(self).slots().len() as int)],
    {
        let n = self.storage.len();
        let ghost old_slots = self.storage@;
        let mut fresh: Vec<Option<T>> = Vec::new();
        let mut j: usize = 0;
        while j < len
            invariant
                n == old_slots.len(),
                head < n,
                len <= n,
                j <= len,
                fresh@.len() == j,
                self.storage@.len() == n,
                forall|k: int| 0 <= k < j ==> #[trigger] fresh@[k] == old_slots[(head + k) % (n as int)],
                forall|k: int|
                    j <= k < len ==> #[trigger] self.storage@[(head + k) % (n as int)]
                        == old_slots[(head + k) % (n as int)],
            decreases len - j,
        {
            let i = slot(head, j, n);
            let mut out: Option<T> = None;
            self.storage.set_and_swap(i, &mut out);
            fresh.push(out);
            proof {
                assert forall|k: int| j < k < len implies #[trigger] self.storage@[(head + k) % (
                n as int)] == old_slots[(head + k) % (n as int)] by {
                    vstd::arithmetic::div_mod::lemma_fundamental_div_mod(head + k, n as int);
                    vstd::arithmetic::div_mod::lemma_fundamental_div_mod(head + j, n as int);
                    let a = head + j;
                    let b = head + k;
                    let m = n as int;
                    assert(a % m != b % m) by (nonlinear_arith)
                        requires
                            0 <= a < b,
                            b - a < m,
                            a == m * (a / m) + a % m,
                            b == m * (b / m) + b % m,
                            0 <= a % m < m,
                            0 <= b % m < m,
                    ;
                }
            }
            j += 1;
        }
        let mut k: usize = 0;
        while k < n
            invariant
                k <= n,
                fresh@.len() == len + k,
                forall|q: int| 0 <= q < len ==> #[trigger] fresh@[q] == old_slots[(head + q) % (
                n as int)],
            decreases n - k,
        {
            fresh.push(None);
            k += 1;
        }
        let mut k: usize = 0;
        while k < n - len
            invariant
                k <= n - len,
                fresh@.len() == len + n + k,
                forall|q: int| 0 <= q < len ==> #[trigger] fresh@[q] == old_slots[(head + q) % (
                n as int)],
            decreases n - len - k,
        {
            fresh.push(None);
            k += 1;
        }
        self.storage = fresh;
    }
}

/// The values of a deque in a ring: `len` of them, the one at the top in slot
/// `head` and each next one in the slot after.
pub struct Deque<T> {
    head: usize,
    len: usize,
    buffer: Buffer<T>,
}

impl<T> Deque<T> {
    /// The number of slots.
    pub closed spec fn size(&self) -> int {
        self.buffer.slots().len() as int
    }

    /// At least `MIN_SIZE` slots; the top value's slot is one of them; every
    /// value has its slot and holds it.
    pub closed spec fn wf(&self) -> bool {
        &&& self.size() >= MIN_SIZE
        &&& self.head < self.size()
        &&& self.len <= self.size()
        &&& forall|j: int|
            0 <= j < self.len ==> (#[trigger] self.buffer.slots()[(self.head + j) % self.size()]) is Some
    }
}

impl<T> View for Deque<T> {
    type V = Seq<T>;

    /// The values, from the top (where stealers take) to the bottom (where the
    /// worker pushes and pops).
    closed spec fn view(&self) -> Seq<T> {
        Seq::new(self.len as nat, |j: int| self.buffer.slots()[(self.head + j) % self.size()]->0)
    }
}

impl<T> Deque<T> {
    /// An empty deque of `MIN_SIZE` slots.
    pub fn new() -> (d: Self)
        ensures
            d.wf(),
            d@ == Seq::<T>::empty(),
    {
        let d = Deque { head: 0, len: 0, buffer: Buffer::new(MIN_SIZE) };
        assert(d@ =~= Seq::<T>::empty());
        d
    }

    /// Takes the value at the bottom, the one pushed last, if any.
    pub fn pop(&mut self) -> (res: Option<T>)
        requires
            old(self).wf(),
        ensures
            final(self).wf(),
            old(self)@.len() == 0 ==> res is None && final(self)@ == old(self)@,
            old(self)@.len() > 0 ==> res == Some(old(self)@.last()) && final(self)@ == old(
                self,
            )@.drop_last(),
    {
        if self.len == 0 {
            return None;
        }
        let n = self.buffer.size();
        let ghost old_view = self@;
        let i = slot(self.head, self.len - 1, n);
        let t = self.buffer.take(i);
        self.len = self.len - 1;
        proof {
            assert forall|j: int| 0 <= j < self.len implies (#[trigger] self.buffer.slots()[(self.head
                + j) % self.size()]) is Some && self.buffer.slots()[(self.head + j) % self.size()]->0
                == old_view[j] by {
                lemma_slots_differ(self.head as int, j, self.len as int, n as int);
            }
            assert(self@ =~= old_view.drop_last());
        }
        Some(t)
    }

    /// Takes the value at the top, the oldest one, if any: `Empty` where there
    /// is none.
    pub fn steal(&mut self) -> (res: Stolen<T>)
        requires
            old(self).wf(),
        ensures
            final(self).wf(),
            old(self)@.len() == 0 ==> res is Empty && final(self)@ == old(self)@,
            old(self)@.len() > 0 ==> res == Stolen::Data(old(self)@[0]) && final(self)@ == old(
                self,
            )@.drop_first(),
    {
        if self.len == 0 {
            return Stolen::Empty;
        }
        let n = self.buffer.size();
        let ghost old_view = self@;
        let ghost old_head = self.head;
        proof {
            assert((old_head + 0) % (n as int) == old_head) by {
                vstd::arithmetic::div_mod::lemma_small_mod(old_head as nat, n as nat);
            }
        }
        let t = self.buffer.take(self.head);
        self.head = slot(self.head, 1, n);
        self.len = self.len - 1;
        proof {
            assert forall|j: int| 0 <= j < self.len implies (#[trigger] self.buffer.slots()[(self.head
                + j) % self.size()]) is Some && self.buffer.slots()[(self.head + j) % self.size()]->0
                == old_view[j + 1] by {
                lemma_mod_shift(old_head as int, j, n as int);
                lemma_slots_differ(old_head as int, 0, j + 1, n as int);
            }
            assert(self@ =~= old_view.drop_first());
        }
        Stolen::Data(t)
    }

    /// Puts `t` at the bottom, doubling the ring first where it is full.
    pub fn push(&mut self, t: T)
        requires
            old(self).wf(),
        ensures
            final(self).wf(),
            final(self)@ == old(self)@.push(t),
    {
        let ghost old_view = self@;
        if self.len == self.buffer.size() {
            let n = self.buffer.size();
            self.buffer.grow(self.head, self.len);
            self.head = 0;
            proof {
                let m = self.size();
                assert forall|j: int| 0 <= j < self.len implies (#[trigger] self.buffer.slots()[(
                self.head + j) % m]) is Some && self.buffer.slots()[(self.head + j) % m]->0
                    == old_view[j] by {
                    vstd::arithmetic::div_mod::lemma_small_mod(j as nat, m as nat);
                }
                assert(self@ =~= old_view);
            }
        }
        let n = self.buffer.size();
        let ghost mid_view = self@;
        let i = slot(self.head, self.len, n);
        self.buffer.put(i, t);
        self.len = self.len + 1;
        proof {
            assert forall|j: int| 0 <= j < self.len implies (#[trigger] self.buffer.slots()[(self.head
                + j) % self.size()]) is Some && self.buffer.slots()[(self.head + j) % self.size()]->0
                == mid_view.push(t)[j] by {
                if j < self.len - 1 {
                    lemma_slots_differ(self.head as int, j, self.len - 1, n as int);
                }
            }
            assert(self@ =~= mid_view.push(t));
        }
    }
}

/// Two positions less than a full turn apart are different slots.
proof fn lemma_slots_differ(head: int, j: int, k: int, n: int)
    requires
        0 <= head,
        0 <= j < k,
        k - j < n,
    ensures
        (head + j) % n != (head + k) % n,
{
    vstd::arithmetic::div_mod::lemma_fundamental_div_mod(head + j, n);
    vstd::arithmetic::div_mod::lemma_fundamental_div_mod(head + k, n);
    let a = head + j;
    let b = head + k;
    assert(a % n != b % n) by (nonlinear_arith)
        requires
            0 <= a < b,
            b - a < n,
            a == n * (a / n) + a % n,
            b == n * (b / n) + b % n,
            0 <= a % n < n,
            0 <= b % n < n,
    ;
}

/// Moving the start one slot on and the offset one back names the same slot.
proof fn lemma_mod_shift(head: int, j: int, n: int)
    requires
        0 <= head < n,
        0 <= j,
    ensures
        ((head + 1) % n + j) % n == (head + (j + 1)) % n,
{
    if head + 1 < n {
        vstd::arithmetic::div_mod::lemma_small_mod((head + 1) as nat, n as nat);
    } else {
        vstd::arithmetic::div_mod::lemma_mod_self_0(n);
        vstd::arithmetic::div_mod::lemma_mod_add_multiples_vanish(j, n);
    }
}

/// The invariant that the lock keeps of the deque inside it.
pub struct WellFormed;

impl<T> RwLockPredicate<Deque<T>> for WellFormed {
    open spec fn inv(self, d: Deque<T>) -> bool {
        d.wf()
    }
}

/// The pushing and popping half of the work-stealing deque.
pub struct Worker<T> {
    deque: Arc<RwLock<Deque<T>, WellFormed>>,
}

/// The stealing half of the work-stealing deque. Stealers have access to the
/// opposite end of the deque from the worker, and they only have access to the
/// `steal` method.
pub struct Stealer<T> {
    deque: Arc<RwLock<Deque<T>, WellFormed>>,
}

impl<T> Clone for Stealer<T> {
    /// Another stealer of the same deque.
    fn clone(&self) -> (s: Self) {
        Stealer { deque: Arc::clone(&self.deque) }
    }
}

impl<T> Worker<T> {
    /// The lock that holds the deque.
    pub closed spec fn shared(&self) -> RwLock<Deque<T>, WellFormed> {
        *self.deque
    }

    /// Takes the value pushed last, if the deque holds any.
    pub fn pop(&self) -> Option<T> {
        let (mut d, handle) = self.deque.acquire_write();
        let res = d.pop();
        handle.release_write(d);
        res
    }

    /// Puts `t` at the bottom of the deque.
    pub fn push(&self, t: T) {
        let (mut d, handle) = self.deque.acquire_write();
        d.push(t);
        handle.release_write(d);
    }
}

impl<T> Stealer<T> {
    /// The lock that holds the deque.
    pub closed spec fn shared(&self) -> RwLock<Deque<T>, WellFormed> {
        *self.deque
    }

    /// Takes the oldest value, if the deque holds any: `Data` with it, or
    /// `Empty`. A steal holds the lock, so it never loses a race.
    pub fn steal(&self) -> (res: Stolen<T>)
        ensures
            !(res is Abort),
    {
        let (mut d, handle) = self.deque.acquire_write();
        let res = d.steal();
        handle.release_write(d);
        res
    }
}

/// A new, empty deque: its worker and a first stealer.
pub fn new<T>() -> (res: (Worker<T>, Stealer<T>))
    ensures
        res.0.shared() == res.1.shared(),
        res.0.shared().pred() == WellFormed,
{
    let lock = RwLock::new(Deque::new(), Ghost(WellFormed));
    let deque = Arc::new(lock);
    (Worker { deque: Arc::clone(&deque) }, Stealer { deque })
}

} // verus!
