//! A fixed-capacity ring of tagged slots.
//!
//! Every slot carries the full logical position it was last written under, so a
//! reader can tell the value for position `p` from a stale value left behind by
//! position `p - cap`, or from a slot that was never written at `p`.
//!
//! Payloads are held in `ManuallyDrop`: overwriting a slot or discarding the
//! buffer never destroys a value. Draining live values is the caller's task.
//! Writing takes `&mut self`, so the single-writer rule is enforced by the
//! borrow checker rather than left to the caller.
use std::mem::ManuallyDrop;
use vstd::arithmetic::div_mod::{
    lemma_mod_add_multiples_vanish,
    lemma_mod_breakdown,
    lemma_mod_equivalence,
    lemma_small_mod,
};
use vstd::prelude::*;

verus! {

/// Whether `n` is a power of two: one bit set, no other.
pub open spec fn is_power_of_two(n: usize) -> bool {
    n > 0 && n & ((n - 1) as usize) == 0
}

/// A position below a power-of-two `cap` can be moved one whole cycle on
/// without leaving `usize`.
pub proof fn lemma_cycle_fits(p: usize, cap: usize)
    requires
        is_power_of_two(cap),
        p < cap,
    ensures
        p + cap <= usize::MAX,
{
    assert((p + cap) as usize == p + cap) by (bit_vector)
        requires
            cap > 0 && cap & ((cap - 1) as usize) == 0,
            p < cap,
    ;
}

/// Masking with `cap - 1` is reduction modulo a power-of-two `cap`.
pub proof fn lemma_mask_is_mod(x: usize, cap: usize)
    requires
        is_power_of_two(cap),
    ensures
        x & ((cap - 1) as usize) == x % cap,
    decreases cap,
{
    if cap == 1 {
        assert(x & 0 == 0) by (bit_vector);
    } else {
        let half: usize = cap / 2;
        assert(is_power_of_two(half) && half * 2 == cap && ((cap - 1) as usize) / 2 == half - 1
            && ((cap - 1) as usize) % 2 == 1) by (bit_vector)
            requires
                cap > 1 && cap & ((cap - 1) as usize) == 0,
                half == cap / 2,
        ;
        lemma_mask_is_mod(x / 2, half);
        let m: usize = (cap - 1) as usize;
        assert(x & m == 2 * ((x / 2) & (m / 2)) + ((x % 2) & (m % 2))) by (bit_vector);
        assert((x % 2) & 1 == x % 2) by (bit_vector);
        lemma_mod_breakdown(x as int, 2, half as int);
    }
}

/// Reads the payload of an optional cell.
pub open spec fn cell_value<T>(c: Option<ManuallyDrop<T>>) -> Option<T> {
    match c {
        Some(m) => Some(m@),
        None => None,
    }
}

/// A slot in buffer.
#[derive(Debug)]
pub struct Slot<T> {
    index: usize,
    data: Option<ManuallyDrop<T>>,
}

impl<T> Slot<T> {
    /// The logical position this slot was last written under.
    pub closed spec fn tag(&self) -> int {
        self.index as int
    }

    /// The payload resident in this slot, if it was ever written.
    pub closed spec fn value(&self) -> Option<T> {
        cell_value(self.data)
    }
}

/// A buffer that holds values in a queue.
///
/// This is just a buffer: dropping it does not drop the values it holds.
#[derive(Debug)]
pub struct Buffer<T> {
    slots: Vec<Slot<T>>,
    cap: usize,
}

impl<T> Buffer<T> {
    /// The capacity, fixed for the buffer's lifetime.
    pub closed spec fn spec_cap(&self) -> nat {
        self.cap as nat
    }

    /// The physical slot at array position `a`.
    pub closed spec fn slot(&self, a: int) -> Slot<T> {
        self.slots@[a]
    }

    /// The capacity is a power of two and the slot array has exactly that many
    /// slots; every tag names a logical position that maps to its own slot.
    pub closed spec fn wf(&self) -> bool {
        &&& is_power_of_two(self.cap)
        &&& self.slots@.len() == self.cap
        &&& forall|a: int| 0 <= a < self.cap ==> #[trigger] self.slots@[a].index % self.cap == a
    }

    /// The physical slot that logical position `p` maps to.
    pub open spec fn address_of(&self, p: int) -> int {
        p % (self.spec_cap() as int)
    }

    /// The payload in the slot of `p`, whichever position wrote it.
    pub open spec fn value_at(&self, p: int) -> Option<T> {
        self.slot(self.address_of(p)).value()
    }

    /// The value published at logical position `p`: present exactly when the
    /// slot of `p` is tagged with `p` itself.
    pub open spec fn published(&self, p: int) -> Option<T> {
        if self.slot(self.address_of(p)).tag() == p {
            self.value_at(p)
        } else {
            None
        }
    }

    /// `self` is what `write(p, v)` leaves when applied to `before`: position `p`
    /// holds `v`, every other position of the same slot holds nothing, and every
    /// other slot is as it was.
    pub open spec fn follows_write(&self, before: Self, p: int, v: T) -> bool {
        &&& self.spec_cap() == before.spec_cap()
        &&& self.value_at(p) == Some(v)
        &&& self.slot(self.address_of(p)).tag() == p
        &&& forall|q: int|
            #![trigger self.published(q)]
            q >= 0 ==> self.published(q) == if q == p {
                Some(v)
            } else if self.address_of(q) == self.address_of(p) {
                None
            } else {
                before.published(q)
            }
        &&& forall|q: int|
            #![trigger self.value_at(q)]
            q >= 0 && self.address_of(q) != self.address_of(p) ==> self.value_at(q)
                == before.value_at(q)
    }

    /// Allocates a new buffer with the specified capacity.
    ///
    /// Slot `a` starts tagged `a + cap`, one whole cycle ahead of the first
    /// position that maps to it, and holds no payload.
    pub fn new(cap: usize) -> (r: Self)
        requires
            is_power_of_two(cap),
        ensures
            r.wf(),
            r.spec_cap() == cap,
            forall|a: int| 0 <= a < cap ==> (#[trigger] r.slot(a)).tag() == a + cap,
            forall|a: int| 0 <= a < cap ==> (#[trigger] r.slot(a)).value() is None,
            forall|p: int| p >= 0 ==> (#[trigger] r.published(p)) is None,
    {
        let mut slots: Vec<Slot<T>> = Vec::with_capacity(cap);
        let mut i: usize = 0;
        while i < cap
            invariant
                i <= cap,
                is_power_of_two(cap),
                slots@.len() == i,
                forall|a: int| 0 <= a < i ==> (#[trigger] slots@[a]).index == a + cap,
                forall|a: int| 0 <= a < i ==> (#[trigger] slots@[a]).data is None,
            decreases cap - i,
        {
            proof {
                lemma_cycle_fits(i, cap);
            }
            slots.push(Slot { index: i + cap, data: None });
            i = i + 1;
        }
        let r = Buffer { slots, cap };
        assert forall|a: int| 0 <= a < cap implies #[trigger] r.slots@[a].index % r.cap == a by {
            assert((a + cap) % (cap as int) == a) by (nonlinear_arith)
                requires
                    0 <= a < cap,
            ;
        }
        assert forall|p: int| p >= 0 implies (#[trigger] r.published(p)) is None by {
            assert(0 <= r.address_of(p) < cap) by (nonlinear_arith)
                requires
                    cap > 0,
                    r.address_of(p) == p % (cap as int),
            ;
        }
        r
    }

    /// Returns the capacity.
    pub fn cap(&self) -> (r: usize)
        ensures
            r == self.spec_cap(),
    {
        self.cap
    }

    /// Returns the slot that `index` maps to.
    pub fn at(&self, index: usize) -> (r: &Slot<T>)
        requires
            self.wf(),
        ensures
            *r == self.slot(self.address_of(index as int)),
    {
        proof {
            lemma_mask_is_mod(index, self.cap);
        }
        &self.slots[index & (self.cap - 1)]
    }

    /// Writes `value` into the specified `index`.
    ///
    /// The slot's previous payload is overwritten without being destroyed.
    pub fn write(&mut self, index: usize, value: T)
        requires
            old(self).wf(),
        ensures
            final(self).wf(),
            final(self).follows_write(*old(self), index as int, value),
    {
        proof {
            lemma_mask_is_mod(index, self.cap);
        }
        let a: usize = index & (self.cap - 1);
        let ghost before = *self;
        self.slots.set(a, Slot { index, data: Some(ManuallyDrop::new(value)) });
        let ghost cap = self.cap as int;
        assert forall|q: int| q >= 0 implies #[trigger] (self.published(q)) == if q == index {
            Some(value)
        } else if self.address_of(q) == self.address_of(index as int) {
            None
        } else {
            before.published(q)
        } by {
            assert(0 <= q % cap < cap) by (nonlinear_arith)
                requires
                    cap > 0,
            ;
        }
    }
}

impl<T: Copy> Buffer<T> {
    /// Reads a value from the specified `index`.
    ///
    /// Returns `Some(v)` if `v` is at `index`; or `None` if there's no valid
    /// value for `index`. The slot is left as it is.
    pub fn read(&self, index: usize) -> (r: Option<ManuallyDrop<T>>)
        requires
            self.wf(),
        ensures
            cell_value(r) == self.published(index as int),
    {
        let slot = self.at(index);
        if slot.index != index {
            return None;
        }
        slot.data
    }

    /// Reads a value from the specified `index` without checking the index.
    ///
    /// Returns the payload of the slot that `index` maps to, whichever position
    /// wrote it.
    pub fn read_unchecked(&self, index: usize) -> (r: ManuallyDrop<T>)
        requires
            self.wf(),
            self.value_at(index as int) is Some,
        ensures
            r@ == self.value_at(index as int)->Some_0,
    {
        let slot = self.at(index);
        slot.data.unwrap()
    }
}

/// What a reader finds at position `p` after the writes `ws`, in order, on a
/// buffer of capacity `cap` that held nothing: the value of the last write to
/// the slot of `p`, provided that write was made at `p` itself.
pub open spec fn last_write_at<T>(ws: Seq<(int, T)>, cap: int, p: int) -> Option<T>
    decreases ws.len(),
{
    if ws.len() == 0 {
        None
    } else {
        let (q, v) = ws.last();
        if q == p {
            Some(v)
        } else if q % cap == p % cap {
            None
        } else {
            last_write_at(ws.drop_last(), cap, p)
        }
    }
}

/// Tag and payload agree: after any run of writes from a buffer that held
/// nothing, position `p` shows exactly the value last written at `p`, and
/// nothing once a later write to another position has reused its slot. A value
/// written under one position is never seen under another.
pub proof fn lemma_read_sees_last_write<T>(states: Seq<Buffer<T>>, ws: Seq<(int, T)>, p: int)
    requires
        states.len() == ws.len() + 1,
        p >= 0,
        forall|q: int| q >= 0 ==> (#[trigger] states[0].published(q)) is None,
        forall|i: int| 0 <= i < ws.len() ==> (#[trigger] ws[i]).0 >= 0,
        forall|i: int|
            0 <= i < ws.len() ==> #[trigger] states[i + 1].follows_write(
                states[i],
                ws[i].0,
                ws[i].1,
            ),
    ensures
        states.last().spec_cap() == states[0].spec_cap(),
        states.last().published(p) == last_write_at(ws, states[0].spec_cap() as int, p),
    decreases ws.len(),
{
    if ws.len() > 0 {
        let n = ws.len() - 1;
        let earlier = states.drop_last();
        assert forall|i: int| 0 <= i < ws.drop_last().len() implies #[trigger] earlier[i + 1].follows_write(
            earlier[i],
            ws.drop_last()[i].0,
            ws.drop_last()[i].1,
        ) by {
            assert(states[i + 1].follows_write(states[i], ws[i].0, ws[i].1));
        }
        assert(forall|i: int| 0 <= i < ws.drop_last().len() ==> (#[trigger] ws.drop_last()[i]).0 == ws[i].0);
        lemma_read_sees_last_write(earlier, ws.drop_last(), p);
        assert(states[n + 1].follows_write(states[n], ws[n].0, ws[n].1));
        assert(ws[n] == ws.last());
        assert(states[n] == earlier.last());
    }
}

/// A position whose slot has been reused one cycle later reads as nothing:
/// after `write(p, v1)` and then `write(p + cap, v2)`, position `p` holds no
/// value and `p + cap` holds `v2`.
pub proof fn lemma_stale_position_reads_nothing<T>(
    b0: Buffer<T>,
    b1: Buffer<T>,
    b2: Buffer<T>,
    p: int,
    v1: T,
    v2: T,
)
    requires
        b0.wf(),
        p >= 0,
        b1.follows_write(b0, p, v1),
        b2.follows_write(b1, p + b0.spec_cap(), v2),
    ensures
        b2.published(p) is None,
        b2.published(p + b0.spec_cap()) == Some(v2),
{
    lemma_mod_add_multiples_vanish(p, b0.spec_cap() as int);
    assert(b2.published(p) == None::<T>);
}

/// Capacity masking: positions one capacity apart share a slot, and distinct
/// positions less than one capacity apart never do.
pub proof fn lemma_capacity_masking<T>(b: Buffer<T>, p: int, q: int)
    requires
        b.wf(),
        p >= 0,
        q >= 0,
    ensures
        b.address_of(p) == b.address_of(p + b.spec_cap()),
        q != p && -(b.spec_cap() as int) < p - q < b.spec_cap() ==> b.address_of(p) != b.address_of(q),
{
    let c = b.spec_cap() as int;
    lemma_mod_add_multiples_vanish(p, c);
    if q != p && -c < p - q < c && p % c == q % c {
        lemma_mod_equivalence(p, q, c);
        lemma_mod_equivalence(q, p, c);
        if p > q {
            lemma_small_mod((p - q) as nat, c as nat);
        } else {
            lemma_small_mod((q - p) as nat, c as nat);
        }
    }
}

} // verus!
