use vstd::prelude::*;
use vstd::layout::size_of;

use crate::zeroed::Zeroed;

verus! {

/// `2^k`.
pub open spec fn pow2(k: nat) -> nat
    decreases k,
{
    if k == 0 {
        1
    } else {
        2 * pow2((k - 1) as nat)
    }
}

/// Capacity, in items, of the block at position `k` (counting from zero) of a
/// generation whose arena was configured with `init`: the first block already
/// holds `2 * init` items, and every later one twice as many as the one before.
pub open spec fn block_capacity(init: nat, k: nat) -> nat {
    init * pow2(k + 1)
}

/// Number of slots reserved by the first `b` blocks of a generation.
pub open spec fn reserved_for(init: nat, b: nat) -> nat
    decreases b,
{
    if b == 0 {
        0
    } else {
        reserved_for(init, (b - 1) as nat) + block_capacity(init, (b - 1) as nat)
    }
}

pub proof fn lemma_pow2_positive(k: nat)
    ensures
        pow2(k) >= 1,
    decreases k,
{
    if k > 0 {
        lemma_pow2_positive((k - 1) as nat);
    }
}

pub proof fn lemma_block_capacity_at_least_two(init: nat, k: nat)
    requires
        init >= 1,
    ensures
        block_capacity(init, k) >= 2,
        block_capacity(init, k) >= 2 * init,
{
    lemma_pow2_positive(k);
    assert(pow2(k + 1) == 2 * pow2(k));
    assert(init * pow2(k + 1) >= init * 2) by (nonlinear_arith)
        requires
            pow2(k + 1) >= 2,
            init >= 1,
    ;
}

/// More blocks always reserve strictly more slots.
pub proof fn lemma_reserved_strictly_increasing(init: nat, a: nat, b: nat)
    requires
        init >= 1,
        a < b,
    ensures
        reserved_for(init, a) < reserved_for(init, b),
    decreases b,
{
    lemma_block_capacity_at_least_two(init, (b - 1) as nat);
    if a < b - 1 {
        lemma_reserved_strictly_increasing(init, a, (b - 1) as nat);
    }
}

/// The first `b` blocks reserve `init * (2^(b + 1) - 2)` slots.
pub proof fn lemma_reserved_closed_form(init: nat, b: nat)
    ensures
        reserved_for(init, b) + 2 * init == init * pow2(b + 1),
    decreases b,
{
    if b == 0 {
        assert(pow2(0) == 1);
        assert(pow2(1) == 2);
        assert(init * pow2(1) == init * 2);
    } else {
        lemma_reserved_closed_form(init, (b - 1) as nat);
        assert(block_capacity(init, (b - 1) as nat) == init * pow2(b));
        assert(pow2(b + 1) == 2 * pow2(b));
        assert(init * pow2(b + 1) == init * pow2(b) + init * pow2(b)) by (nonlinear_arith)
            requires
                pow2(b + 1) == 2 * pow2(b),
        ;
    }
}

/// A sequence of `n` zero values.
pub open spec fn zeros<T: Zeroed>(n: nat) -> Seq<T> {
    Seq::new(n, |_i: int| T::zero())
}

/// A bump allocator that hands out zero-initialised slots of one item type
/// and frees them only all at once.
///
/// Slots live in blocks whose capacities double within a generation. A slot
/// is named by its address: its position among all slots reserved in the
/// current generation, counted in block order and, within a block, in
/// ascending order. Addresses handed out so far are exactly `0 .. vended()`.
/// Dropping the arena frees every block, as `clear` does.
pub struct TNonFreePooledMemManager<T, const INIT_SIZE: usize> {
    /// Capacity of the next block to be allocated.
    cur_size: usize,
    /// Address of the next slot to hand out.
    cur_item: usize,
    /// Capacity of every block of this generation, in allocation order.
    blocks: Vec<usize>,
    /// Backing store: the blocks of this generation, one after another.
    slots: Vec<T>,
}

impl<T: Zeroed, const INIT_SIZE: usize> TNonFreePooledMemManager<T, INIT_SIZE> {
    /// Capacities of the blocks of the current generation, in allocation order.
    pub closed spec fn capacities(&self) -> Seq<usize> {
        self.blocks@
    }

    /// Number of slots handed out in the current generation.
    pub closed spec fn vended(&self) -> nat {
        self.cur_item as nat
    }

    /// Contents of every reserved slot, by address.
    pub closed spec fn slots(&self) -> Seq<T> {
        self.slots@
    }

    /// Capacity that the next block will be allocated with, before doubling.
    pub closed spec fn next_capacity(&self) -> nat {
        self.cur_size as nat
    }

    /// Addresses handed out in the current generation.
    pub open spec fn handed_out(&self) -> Set<nat> {
        Set::new(|a: nat| a < self.vended())
    }

    /// Every reserved slot has been handed out: the next acquisition needs a
    /// new block.
    pub open spec fn is_full(&self) -> bool {
        self.vended() == self.slots().len()
    }

    /// The state of an arena that has just been created or released.
    pub open spec fn is_fresh(&self) -> bool {
        &&& self.capacities().len() == 0
        &&& self.vended() == 0
        &&& self.slots().len() == 0
        &&& self.next_capacity() == INIT_SIZE
    }

    /// The next block fits in memory: its slot count in `usize`, and the whole
    /// backing store in `isize::MAX` bytes.
    pub open spec fn can_grow(&self) -> bool {
        let n = self.slots().len() + 2 * self.next_capacity();
        &&& n <= usize::MAX
        &&& n * size_of::<T>() <= isize::MAX
    }

    /// `n` more acquisitions fit in memory, whatever blocks they allocate:
    /// twice the slots handed out after them, plus `2 * INIT_SIZE`, fit in
    /// `usize` and, as bytes, in `isize::MAX`.
    pub open spec fn can_hand_out(&self, n: nat) -> bool {
        let m = 2 * (self.vended() + n) + 2 * INIT_SIZE;
        &&& m <= usize::MAX
        &&& m * size_of::<T>() <= isize::MAX
    }

    pub closed spec fn wf(&self) -> bool {
        let b = self.blocks@.len();
        &&& INIT_SIZE >= 1
        &&& forall|k: int|
            0 <= k < b ==> #[trigger] self.blocks@[k] == block_capacity(INIT_SIZE as nat, k as nat)
        &&& self.cur_size == INIT_SIZE * pow2(b)
        &&& self.slots@.len() == reserved_for(INIT_SIZE as nat, b)
        &&& self.cur_item <= self.slots@.len()
        &&& (b == 0 ==> self.cur_item == 0)
        &&& (b > 0 ==> reserved_for(INIT_SIZE as nat, (b - 1) as nat) < self.cur_item)
        &&& forall|i: int|
            self.cur_item <= i < self.slots@.len() ==> #[trigger] self.slots@[i] == T::zero()
    }

    /// Creates an empty arena; its first block will hold `2 * INIT_SIZE` items.
    pub fn new() -> (r: Self)
        requires
            INIT_SIZE >= 1,
        ensures
            r.wf(),
            r.is_fresh(),
    {
        let r = TNonFreePooledMemManager {
            cur_size: INIT_SIZE,
            cur_item: 0,
            blocks: Vec::new(),
            slots: Vec::new(),
        };
        assert(r.cur_size == INIT_SIZE * pow2(0)) by (nonlinear_arith)
            requires
                r.cur_size == INIT_SIZE,
                pow2(0) == 1,
        ;
        r
    }

    /// Hands out the next slot and returns its address. The slot holds the
    /// zero value. When the active block is exhausted (or there is none yet),
    /// the capacity doubles and a new zeroed block of that capacity is
    /// allocated first.
    pub fn new_item(&mut self) -> (r: usize)
        requires
            old(self).wf(),
            old(self).is_full() ==> old(self).can_grow(),
        ensures
            final(self).wf(),
            r == old(self).vended(),
            !old(self).handed_out().contains(r as nat),
            final(self).handed_out() == old(self).handed_out().insert(r as nat),
            final(self).vended() == old(self).vended() + 1,
            final(self).slots()[r as int] == T::zero(),
            !old(self).is_full() ==> {
                &&& final(self).capacities() == old(self).capacities()
                &&& final(self).slots() == old(self).slots()
                &&& final(self).next_capacity() == old(self).next_capacity()
            },
            old(self).is_full() ==> {
                &&& final(self).next_capacity() == 2 * old(self).next_capacity()
                &&& final(self).capacities() == old(self).capacities().push(
                    final(self).next_capacity() as usize,
                )
                &&& final(self).slots() == old(self).slots() + zeros::<T>(
                    final(self).next_capacity(),
                )
            },
    {
        if self.cur_item == self.slots.len() {
            let ghost b = self.blocks@.len();
            let ghost old_slots = self.slots@;
            let ghost old_blocks = self.blocks@;
            self.cur_size = self.cur_size + self.cur_size;
            let cap = self.cur_size;
            let mut j: usize = 0;
            while j < cap
                invariant
                    j <= cap,
                    cap == self.cur_size,
                    self.blocks@ == old_blocks,
                    self.cur_item == old_slots.len(),
                    self.slots@ == old_slots + zeros::<T>(j as nat),
                decreases cap - j,
            {
                self.slots.push(T::zeroed());
                proof {
                    assert(self.slots@ =~= old_slots + zeros::<T>((j + 1) as nat));
                }
                j = j + 1;
            }
            self.blocks.push(cap);
            proof {
                assert(pow2(b + 1) == 2 * pow2(b));
                assert(INIT_SIZE * pow2(b + 1) == 2 * (INIT_SIZE * pow2(b))) by (nonlinear_arith)
                    requires
                        pow2(b + 1) == 2 * pow2(b),
                ;
                assert(self.blocks@[b as int] == block_capacity(INIT_SIZE as nat, b));
                lemma_block_capacity_at_least_two(INIT_SIZE as nat, b);
                assert(reserved_for(INIT_SIZE as nat, b + 1) == reserved_for(INIT_SIZE as nat, b)
                    + block_capacity(INIT_SIZE as nat, b));
            }
        }
        let r = self.cur_item;
        self.cur_item = self.cur_item + 1;
        r
    }

    /// Frees every block and returns the arena to its just-created state.
    /// Every address handed out before is invalid afterwards. On an arena
    /// that holds no block this changes nothing.
    pub fn clear(&mut self)
        requires
            old(self).wf(),
        ensures
            final(self).wf(),
            final(self).is_fresh(),
            old(self).capacities().len() == 0 ==> *final(self) == *old(self),
    {
        if self.blocks.len() != 0 {
            self.blocks = Vec::new();
            self.slots = Vec::new();
            self.cur_size = INIT_SIZE;
            self.cur_item = 0;
            assert(self.cur_size == INIT_SIZE * pow2(0)) by (nonlinear_arith)
                requires
                    self.cur_size == INIT_SIZE,
                    pow2(0) == 1,
            ;
        } else {
            assert(INIT_SIZE * pow2(0) == INIT_SIZE) by (nonlinear_arith)
                requires
                    pow2(0) == 1,
            ;
        }
    }

    /// Whether `new_item` can be called: either a reserved slot is left, or
    /// the next block fits in memory.
    pub fn can_acquire(&self) -> (r: bool)
        requires
            self.wf(),
        ensures
            r == (self.is_full() ==> self.can_grow()),
    {
        if self.cur_item < self.slots.len() {
            return true;
        }
        let item_size = core::mem::size_of::<T>();
        match self.slots.len().checked_add(self.cur_size) {
            None => false,
            Some(half) => match half.checked_add(self.cur_size) {
                None => false,
                Some(n) => match n.checked_mul(item_size) {
                    None => false,
                    Some(bytes) => bytes <= isize::MAX as usize,
                },
            },
        }
    }

    /// Slots are handed out in address order from the reserved ones, and
    /// every reserved slot not handed out yet holds the zero value.
    pub proof fn lemma_unvended_zero(&self)
        requires
            self.wf(),
        ensures
            self.vended() <= self.slots().len(),
            forall|i: int|
                self.vended() <= i < self.slots().len() ==> #[trigger] self.slots()[i]
                    == T::zero(),
    {
    }

    /// Room for `n + 1` acquisitions is room for the next one, and for `n`
    /// more after it.
    pub proof fn lemma_can_hand_out_next(&self, n: nat)
        requires
            self.wf(),
            self.can_hand_out(n + 1),
        ensures
            self.is_full() ==> self.can_grow(),
    {
        let b = self.blocks@.len();
        lemma_reserved_closed_form(INIT_SIZE as nat, b);
        assert(INIT_SIZE * pow2(b + 1) == 2 * (INIT_SIZE * pow2(b))) by (nonlinear_arith)
            requires
                pow2(b + 1) == 2 * pow2(b),
        ;
        let m = 2 * (self.vended() + n + 1) + 2 * INIT_SIZE;
        if self.is_full() {
            let g = self.slots().len() + 2 * self.next_capacity();
            assert(g <= m);
            assert(g * size_of::<T>() <= m * size_of::<T>()) by (nonlinear_arith)
                requires
                    g <= m,
            ;
        }
    }

    /// Whether `n` more acquisitions fit in memory.
    pub fn can_hand_out_count(&self, n: usize) -> (r: bool)
        requires
            self.wf(),
        ensures
            r == self.can_hand_out(n as nat),
    {
        let item_size = core::mem::size_of::<T>();
        match self.cur_item.checked_add(n) {
            None => false,
            Some(total) => match total.checked_add(INIT_SIZE) {
                None => false,
                Some(half) => match half.checked_mul(2) {
                    None => false,
                    Some(m) => match m.checked_mul(item_size) {
                        None => false,
                        Some(bytes) => bytes <= isize::MAX as usize,
                    },
                },
            },
        }
    }

    /// The item in the slot at `addr`.
    pub fn get(&self, addr: usize) -> (r: &T)
        requires
            self.wf(),
            addr < self.slots().len(),
        ensures
            *r == self.slots()[addr as int],
    {
        &self.slots[addr]
    }

    /// Stores `value` in the slot at `addr`, which must have been handed out.
    pub fn set(&mut self, addr: usize, value: T)
        requires
            old(self).wf(),
            addr < old(self).vended(),
        ensures
            final(self).wf(),
            final(self).slots() == old(self).slots().update(addr as int, value),
            final(self).capacities() == old(self).capacities(),
            final(self).vended() == old(self).vended(),
            final(self).next_capacity() == old(self).next_capacity(),
    {
        self.slots.set(addr, value);
    }

    /// Capacities of the blocks of the current generation, in allocation order.
    pub fn block_capacities(&self) -> (r: &Vec<usize>)
        ensures
            r@ == self.capacities(),
    {
        &self.blocks
    }

    /// Number of slots handed out in the current generation.
    pub fn vended_count(&self) -> (r: usize)
        ensures
            r == self.vended(),
    {
        self.cur_item
    }

    /// Number of slots reserved by the blocks of the current generation.
    pub fn reserved_count(&self) -> (r: usize)
        ensures
            r == self.slots().len(),
    {
        self.slots.len()
    }

    /// Capacity of the last block allocated, or `INIT_SIZE` when there is none;
    /// the next block will have twice this capacity.
    pub fn current_capacity(&self) -> (r: usize)
        ensures
            r == self.next_capacity(),
    {
        self.cur_size
    }

    /// Applies `visitor` to every reserved slot, handed out or not, in
    /// ascending address order (block order, then order within a block), and
    /// returns what it gave back for each. The last block is walked to its
    /// full capacity, so slots not yet handed out are visited too.
    pub fn for_each_allocated<R, F: Fn(usize, &T) -> R>(&self, visitor: F) -> (r: Vec<R>)
        requires
            self.wf(),
            forall|a: usize, t: &T| visitor.requires((a, t)),
        ensures
            r@.len() == self.slots().len(),
            forall|i: int|
                0 <= i < r@.len() ==> visitor.ensures((i as usize, &self.slots()[i]), #[trigger] r@[i]),
    {
        let mut out: Vec<R> = Vec::new();
        let n = self.slots.len();
        let mut i: usize = 0;
        while i < n
            invariant
                i <= n,
                n == self.slots@.len(),
                out@.len() == i,
                forall|a: usize, t: &T| visitor.requires((a, t)),
                forall|k: int|
                    0 <= k < i ==> visitor.ensures((k as usize, &self.slots@[k]), #[trigger] out@[k]),
            decreases n - i,
        {
            let v = visitor(i, &self.slots[i]);
            out.push(v);
            i = i + 1;
        }
        out
    }

    /// The block at position `k` of a generation (counting from zero) holds
    /// `INIT_SIZE * 2^(k + 1)` items: the K-th block, counting from one, holds
    /// `INIT_SIZE * 2^K`.
    pub proof fn lemma_block_capacities(&self)
        requires
            self.wf(),
        ensures
            forall|k: int|
                0 <= k < self.capacities().len() ==> #[trigger] self.capacities()[k] as nat
                    == INIT_SIZE * pow2((k + 1) as nat),
    {
    }

    /// After `n` acquisitions in a generation, the number of blocks is the
    /// smallest `B` for which the first `B` blocks reserve at least `n` slots.
    pub proof fn lemma_block_count(&self)
        requires
            self.wf(),
        ensures
            reserved_for(INIT_SIZE as nat, self.capacities().len()) >= self.vended(),
            forall|b: nat|
                b < self.capacities().len() ==> #[trigger] reserved_for(INIT_SIZE as nat, b)
                    < self.vended(),
    {
        let nb = self.capacities().len();
        assert forall|b: nat| b < nb implies #[trigger] reserved_for(INIT_SIZE as nat, b)
            < self.vended() by {
            if b < nb - 1 {
                lemma_reserved_strictly_increasing(INIT_SIZE as nat, b, (nb - 1) as nat);
            }
        }
    }

    /// The blocks of a generation depend only on how many slots were handed
    /// out in it. A cleared arena is in the same state as a new one, so the
    /// same acquisitions then allocate the same block sizes again.
    pub proof fn lemma_same_progression(a: &Self, b: &Self)
        requires
            a.wf(),
            b.wf(),
            a.vended() == b.vended(),
        ensures
            a.capacities() == b.capacities(),
            a.next_capacity() == b.next_capacity(),
            a.slots().len() == b.slots().len(),
    {
        a.lemma_block_count();
        b.lemma_block_count();
        let na = a.capacities().len();
        let nb = b.capacities().len();
        if na < nb {
            assert(reserved_for(INIT_SIZE as nat, na) < b.vended());
        }
        if nb < na {
            assert(reserved_for(INIT_SIZE as nat, nb) < a.vended());
        }
        assert(na == nb);
        assert(a.capacities() =~= b.capacities());
    }

    /// When exactly `2 * INIT_SIZE` slots have been handed out, the first
    /// block is full and is the only one: enumeration visits exactly the slots
    /// handed out.
    pub proof fn lemma_first_block_full(&self)
        requires
            self.wf(),
            self.vended() == 2 * INIT_SIZE,
        ensures
            self.capacities() =~= seq![(2 * INIT_SIZE) as usize],
            self.slots().len() == self.vended(),
    {
        self.lemma_block_count();
        let nb = self.capacities().len();
        assert(pow2(0) == 1);
        assert(pow2(1) == 2);
        assert(reserved_for(INIT_SIZE as nat, 0) == 0);
        assert(block_capacity(INIT_SIZE as nat, 0) == INIT_SIZE * 2);
        assert(reserved_for(INIT_SIZE as nat, 1) == 2 * INIT_SIZE);
        if nb > 1 {
            assert(reserved_for(INIT_SIZE as nat, 1) < self.vended());
        }
        assert(nb == 1);
    }

    /// When `2 * INIT_SIZE + 1` slots have been handed out, the second block
    /// has just been started: the slots reserved are the `2 * INIT_SIZE` of
    /// the first block and all `4 * INIT_SIZE` of the second, and every slot
    /// of the second block but its first still holds the zero value.
    pub proof fn lemma_second_block_started(&self)
        requires
            self.wf(),
            self.vended() == 2 * INIT_SIZE + 1,
        ensures
            self.capacities() =~= seq![(2 * INIT_SIZE) as usize, (4 * INIT_SIZE) as usize],
            self.slots().len() == 6 * INIT_SIZE,
            forall|i: int|
                self.vended() <= i < self.slots().len() ==> #[trigger] self.slots()[i]
                    == T::zero(),
    {
        self.lemma_block_count();
        let nb = self.capacities().len();
        assert(pow2(0) == 1);
        assert(pow2(1) == 2);
        assert(pow2(2) == 4);
        assert(reserved_for(INIT_SIZE as nat, 0) == 0);
        assert(block_capacity(INIT_SIZE as nat, 0) == INIT_SIZE * 2);
        assert(reserved_for(INIT_SIZE as nat, 1) == 2 * INIT_SIZE);
        assert(block_capacity(INIT_SIZE as nat, 1) == INIT_SIZE * 4);
        assert(reserved_for(INIT_SIZE as nat, 2) == 6 * INIT_SIZE);
        if nb > 2 {
            assert(reserved_for(INIT_SIZE as nat, 2) < self.vended());
        }
        assert(nb == 2);
    }
}

} // verus!
