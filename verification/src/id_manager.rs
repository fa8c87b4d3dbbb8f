//! An ID manager: a bidirectional associative store that assigns stable,
//! monotonically increasing identifiers to user values and supports lookup
//! in both directions.
//!
//! Three managers share one interface and differ in how the two indexes
//! share the stored value: `IDManager1` duplicates the value (and therefore
//! asks for `Clone`), `IDManager2` keys its reverse index by reference, and
//! `IDManager3` shares a single reference-counted handle between both
//! indexes, which is the recommended design.

use std::hash::Hash;
use std::io::Write;
use std::rc::Rc;
use vstd::prelude::*;
use vstd::std_specs::cmp::PartialEqSpec;

verus! {

/// `==` on `T` agrees with logical equality: the executable comparison
/// decides exactly whether the two values are equal. The managers' contracts
/// are stated under this condition; it holds for the integer and boolean
/// types and for tuples of them.
pub open spec fn eq_reflects<T: PartialEq>() -> bool {
    &&& T::obeys_eq_spec()
    &&& forall|x: T, y: T| (#[trigger] x.eq_spec(&y)) <==> x == y
}

/// `clone` on `T` returns a value equal to its argument. `IDManager1`
/// duplicates the stored value, so its insert contract is stated under this
/// condition.
pub open spec fn clone_reflects<T: Clone>() -> bool {
    forall|x: T, y: T| (#[trigger] call_ensures(T::clone, (&x,), y)) ==> y == x
}

/// An opaque identifier issued by a manager: a nonnegative counter value.
/// Identifiers compare by value and are never reissued by the manager that
/// retired them.
#[derive(Copy, Clone, Debug, PartialEq, Eq, Hash, Structural)]
pub struct ID(usize);

impl ID {
    /// The numeric value behind the identifier.
    pub closed spec fn value(self) -> nat {
        self.0 as nat
    }

    /// Advance to the next identifier.
    pub fn step(&mut self)
        requires
            old(self).value() < usize::MAX,
        ensures
            final(self).value() == old(self).value() + 1,
    {
        self.0 += 1;
    }
}

impl Default for ID {
    /// The first identifier a fresh manager will issue.
    fn default() -> (r: Self)
        ensures
            r.value() == 0,
    {
        ID(0)
    }
}

/// Writes one diagnostic line for a removal of an absent value.
///
/// Relies on `std::io::stderr`: the warning channel is the standard error
/// stream, and writing to it computes nothing.
#[verifier::external_body]
fn warn_missing_item() {
    let _ = writeln!(std::io::stderr(), "Warning: tried to delete nonexistent item");
}

/// Returns a second handle on the same allocation.
///
/// Relies on `Rc::clone`: the clone of a reference-counted handle refers to
/// the very value the argument refers to; no new value is created.
#[verifier::external_body]
fn share<T>(h: &Rc<T>) -> (r: Rc<T>)
    ensures
        r == *h,
{
    Rc::clone(h)
}

/// The recommended manager: both indexes hold a reference-counted handle on
/// one shared value, so `T` need not be duplicable and no unchecked aliasing
/// is involved.
pub struct IDManager3<T> where T: Eq + Hash {
    next_id: ID,
    id_to_item: Vec<(ID, Rc<T>)>,
    item_to_id: Vec<(Rc<T>, ID)>,
}

impl<T> IDManager3<T> where T: Eq + Hash {
    /// Number of live associations.
    pub closed spec fn count(self) -> nat {
        self.id_to_item@.len()
    }

    /// The identifier of the association at position `i`, in insertion order.
    pub closed spec fn id_at(self, i: int) -> nat {
        self.id_to_item@[i].0.value()
    }

    /// The value of the association at position `i`.
    pub closed spec fn item_at(self, i: int) -> T {
        *self.id_to_item@[i].1
    }

    /// The identifier the next insert will issue.
    pub closed spec fn next(self) -> nat {
        self.next_id.value()
    }

    /// Whether some live association carries the identifier `id`.
    pub open spec fn has_id(self, id: nat) -> bool {
        exists|i: int| 0 <= i < self.count() && self.id_at(i) == id
    }

    /// The value associated with a live identifier.
    pub open spec fn item_of(self, id: nat) -> T {
        self.item_at(choose|i: int| 0 <= i < self.count() && self.id_at(i) == id)
    }

    /// Whether some live association carries a value equal to `v`.
    pub open spec fn has_item(self, v: T) -> bool {
        exists|i: int| 0 <= i < self.count() && self.item_at(i) == v
    }

    /// The identifier associated with a live value.
    pub open spec fn id_of(self, v: T) -> nat {
        self.id_at(choose|i: int| 0 <= i < self.count() && self.item_at(i) == v)
    }

    /// The internal invariant: the reverse index mirrors the forward index
    /// entry for entry, identifiers grow along insertion order and stay below
    /// the counter, and no two associations carry equal values.
    pub closed spec fn wf(self) -> bool {
        &&& self.item_to_id@.len() == self.id_to_item@.len()
        &&& forall|i: int|
            0 <= i < self.id_to_item@.len() ==> (#[trigger] self.item_to_id@[i]).0
                == self.id_to_item@[i].1 && self.item_to_id@[i].1 == self.id_to_item@[i].0
        &&& forall|i: int, j: int|
            0 <= i < j < self.count() ==> #[trigger] self.id_at(i) < #[trigger] self.id_at(j)
        &&& forall|i: int| 0 <= i < self.count() ==> #[trigger] self.id_at(i) < self.next()
        &&& forall|i: int, j: int|
            0 <= i < self.count() && 0 <= j < self.count() && i != j ==> #[trigger] self.item_at(i)
                != #[trigger] self.item_at(j)
    }

    /// Returns an empty manager whose counter starts at zero.
    pub fn new() -> (r: Self)
        ensures
            r.wf(),
            r.count() == 0,
            r.next() == 0,
    {
        Default::default()
    }

    /// Scans the reverse index for an association whose value equals `item`.
    fn find_item(&self, item: &T) -> (r: Option<usize>)
        requires
            self.wf(),
            eq_reflects::<T>(),
        ensures
            match r {
                Some(k) => k < self.count() && self.item_at(k as int) == *item,
                None => !self.has_item(*item),
            },
    {
        let n = self.item_to_id.len();
        for k in 0..n
            invariant
                n == self.count(),
                self.wf(),
                eq_reflects::<T>(),
                forall|j: int| 0 <= j < k ==> #[trigger] self.item_at(j) != *item,
        {
            let pair = &self.item_to_id[k];
            if *pair.0 == *item {
                return Some(k);
            }
        }
        None
    }

    /// The identifier currently associated with a value equal to `item`,
    /// if any.
    pub fn get_id(&self, item: &T) -> (r: Option<ID>)
        requires
            self.wf(),
            eq_reflects::<T>(),
        ensures
            match r {
                Some(id) => self.has_item(*item) && id.value() == self.id_of(*item),
                None => !self.has_item(*item),
            },
    {
        match self.find_item(item) {
            Some(k) => Some(self.item_to_id[k].1),
            None => None,
        }
    }

    /// The stored value associated with `id`, if that identifier is live.
    pub fn get_item(&self, id: ID) -> (r: Option<&T>)
        requires
            self.wf(),
        ensures
            match r {
                Some(t) => self.has_id(id.value()) && *t == self.item_of(id.value()),
                None => !self.has_id(id.value()),
            },
    {
        let n = self.id_to_item.len();
        for k in 0..n
            invariant
                n == self.count(),
                self.wf(),
                forall|j: int| 0 <= j < k ==> #[trigger] self.id_at(j) != id.value(),
        {
            let pair = &self.id_to_item[k];
            if pair.0 == id {
                proof {
                    assert(self.id_at(k as int) == id.value());
                    assert(self.has_id(id.value()));
                    lemma_id_pins_position(*self, id.value(), k as int);
                }
                return Some(&*pair.1);
            }
        }
        None
    }

    /// Removes the association for a value equal to `item`, if one is live,
    /// and reports whether anything was removed. When nothing was, one
    /// warning line goes to the standard error stream and the manager is
    /// unchanged. The counter is not decremented: the removed identifier is
    /// retired for good.
    pub fn delete(&mut self, item: &T) -> (r: bool)
        requires
            old(self).wf(),
            eq_reflects::<T>(),
        ensures
            final(self).wf(),
            final(self).next() == old(self).next(),
            r == old(self).has_item(*item),
            !final(self).has_item(*item),
            forall|id: nat|
                #[trigger] final(self).has_id(id) <==> old(self).has_id(id) && old(self).item_of(id)
                    != *item,
            forall|id: nat|
                #[trigger] final(self).has_id(id) ==> final(self).item_of(id) == old(self).item_of(
                    id,
                ),
            forall|w: T| #[trigger] final(self).has_item(w) <==> old(self).has_item(w) && w != *item,
            !r ==> *final(self) == *old(self),
    {
        match self.find_item(item) {
            Some(k) => {
                self.id_to_item.remove(k);
                self.item_to_id.remove(k);
                proof {
                    lemma_drop_entry(*old(self), *final(self), k as int, *item);
                }
                true
            },
            None => {
                warn_missing_item();
                false
            },
        }
    }

    /// Takes ownership of `item`, issues the identifier the counter holds,
    /// installs a shared handle on `item` in both indexes and advances the
    /// counter. If an equal value was already stored, its association is
    /// removed first, so the displaced identifier retires and the bijection
    /// between the indexes is preserved. Exhaustion of the identifier space
    /// is refused by the precondition: a verified caller can never ask the
    /// counter to pass the largest representable identifier.
    pub fn insert(&mut self, item: T) -> (r: ID)
        requires
            old(self).wf(),
            eq_reflects::<T>(),
            old(self).next() < usize::MAX,
        ensures
            final(self).wf(),
            r.value() == old(self).next(),
            final(self).next() == old(self).next() + 1,
            final(self).has_id(r.value()),
            final(self).item_of(r.value()) == item,
            final(self).has_item(item),
            final(self).id_of(item) == r.value(),
            forall|id: nat|
                #[trigger] final(self).has_id(id) <==> id == r.value() || (old(self).has_id(id)
                    && old(self).item_of(id) != item),
            forall|id: nat|
                id != r.value() && #[trigger] final(self).has_id(id) ==> final(self).item_of(id)
                    == old(self).item_of(id),
            forall|w: T| #[trigger] final(self).has_item(w) <==> w == item || old(self).has_item(w),
    {
        let id = self.next_id;
        match self.find_item(&item) {
            Some(k) => {
                self.id_to_item.remove(k);
                self.item_to_id.remove(k);
                proof {
                    lemma_drop_entry(*old(self), *self, k as int, item);
                }
            },
            None => {},
        }
        let ghost mid = *self;
        let h = Rc::new(item);
        self.id_to_item.push((id, share(&h)));
        self.item_to_id.push((h, id));
        self.next_id.step();
        proof {
            lemma_add_entry(mid, *self, id.value(), item);
            assert forall|idv: nat|
                final(self).has_id(idv) <==> idv == id.value() || (old(self).has_id(idv) && old(
                    self,
                ).item_of(idv) != item) by {
                if !old(self).has_item(item) {
                    if old(self).has_id(idv) {
                        let i = choose|i: int|
                            0 <= i < old(self).count() && old(self).id_at(i) == idv;
                        assert(old(self).item_of(idv) == old(self).item_at(i));
                    }
                }
            }
        }
        id
    }
}

/// The effect of appending a fresh association to both indexes: the new
/// identifier resolves to the new value and back, every prior association
/// survives unchanged, and the invariant is preserved, the appended
/// identifier being larger than every live one.
proof fn lemma_add_entry<T: Eq + Hash>(m1: IDManager3<T>, m2: IDManager3<T>, idv: nat, v: T)
    requires
        m1.wf(),
        !m1.has_item(v),
        m1.next() == idv,
        m2.next() == idv + 1,
        m2.id_to_item@.len() == m1.id_to_item@.len() + 1,
        m2.id_to_item@ == m1.id_to_item@.push(m2.id_to_item@.last()),
        m2.item_to_id@ == m1.item_to_id@.push(m2.item_to_id@.last()),
        m2.id_at(m1.count() as int) == idv,
        m2.item_at(m1.count() as int) == v,
        m2.item_to_id@.last().0 == m2.id_to_item@.last().1,
        m2.item_to_id@.last().1 == m2.id_to_item@.last().0,
    ensures
        m2.wf(),
        m2.has_id(idv),
        m2.item_of(idv) == v,
        m2.has_item(v),
        m2.id_of(v) == idv,
        forall|id: nat| #[trigger] m2.has_id(id) <==> id == idv || m1.has_id(id),
        forall|id: nat|
            id != idv && #[trigger] m2.has_id(id) ==> m2.item_of(id) == m1.item_of(id),
        forall|w: T| #[trigger] m2.has_item(w) <==> w == v || m1.has_item(w),
{
    let n = m1.count() as int;
    assert forall|j: int| 0 <= j < n implies m2.id_at(j) == m1.id_at(j) && m2.item_at(j)
        == m1.item_at(j) by {
        assert(m2.id_to_item@[j] == m1.id_to_item@[j]);
    }
    assert(m2.wf());
    assert(0 <= n < m2.count() && m2.id_at(n) == idv);
    assert(m2.has_id(idv));
    assert(0 <= n < m2.count() && m2.item_at(n) == v);
    assert(m2.has_item(v));
    assert forall|id: nat| m2.has_id(id) implies id == idv || m1.has_id(id) by {
        let j = choose|j: int| 0 <= j < m2.count() && m2.id_at(j) == id;
        if j < n {
            assert(0 <= j < m1.count() && m1.id_at(j) == id);
        }
    }
    assert forall|id: nat| id != idv && m2.has_id(id) implies m2.item_of(id) == m1.item_of(
        id,
    ) by {
        let j = choose|j: int| 0 <= j < m2.count() && m2.id_at(j) == id;
        assert(j != n);
        assert(0 <= j < m1.count() && m1.id_at(j) == id);
        lemma_id_pins_position(m2, id, j);
        lemma_id_pins_position(m1, id, j);
    }
    lemma_id_pins_position(m2, idv, n);
    lemma_item_pins_position(m2, v, n);
    assert forall|w: T| m2.has_item(w) implies w == v || m1.has_item(w) by {
        let j = choose|j: int| 0 <= j < m2.count() && m2.item_at(j) == w;
        if j < n {
            assert(0 <= j < m1.count() && m1.item_at(j) == w);
        }
    }
    assert forall|w: T| m1.has_item(w) implies m2.has_item(w) by {
        let i = choose|i: int| 0 <= i < m1.count() && m1.item_at(i) == w;
        assert(0 <= i < m2.count() && m2.item_at(i) == w);
    }
}

/// In a well-formed manager the identifiers strictly increase along the
/// index, so an identifier determines its position: the chosen witness for
/// `id` is the position `j` it is known to sit at, and `item_of` reads that
/// position.
proof fn lemma_id_pins_position<T: Eq + Hash>(m: IDManager3<T>, id: nat, j: int)
    requires
        m.wf(),
        0 <= j < m.count(),
        m.id_at(j) == id,
    ensures
        (choose|i: int| 0 <= i < m.count() && m.id_at(i) == id) == j,
        m.item_of(id) == m.item_at(j),
{
    let i = choose|i: int| 0 <= i < m.count() && m.id_at(i) == id;
    assert(0 <= i < m.count() && m.id_at(i) == id);
    if i < j {
        assert(m.id_at(i) < m.id_at(j));
    }
    if j < i {
        assert(m.id_at(j) < m.id_at(i));
    }
}

/// No two live associations carry equal values, so a value determines its
/// position as well, and `id_of` reads that position.
proof fn lemma_item_pins_position<T: Eq + Hash>(m: IDManager3<T>, v: T, j: int)
    requires
        m.wf(),
        0 <= j < m.count(),
        m.item_at(j) == v,
    ensures
        (choose|i: int| 0 <= i < m.count() && m.item_at(i) == v) == j,
        m.id_of(v) == m.id_at(j),
{
    let i = choose|i: int| 0 <= i < m.count() && m.item_at(i) == v;
    assert(0 <= i < m.count() && m.item_at(i) == v);
    assert(i == j);
}

/// Bijection: in a well-formed manager, every live identifier resolves to a
/// value that resolves back to exactly that identifier.
pub proof fn lemma_bijection<T: Eq + Hash>(m: IDManager3<T>, id: nat)
    requires
        m.wf(),
        m.has_id(id),
    ensures
        m.has_item(m.item_of(id)),
        m.id_of(m.item_of(id)) == id,
{
    let i = choose|i: int| 0 <= i < m.count() && m.id_at(i) == id;
    lemma_id_pins_position(m, id, i);
    lemma_item_pins_position(m, m.item_at(i), i);
}

/// Index symmetry: in a well-formed manager, every live value resolves to an
/// identifier that resolves back to an equal value.
pub proof fn lemma_index_symmetry<T: Eq + Hash>(m: IDManager3<T>, v: T)
    requires
        m.wf(),
        m.has_item(v),
    ensures
        m.has_id(m.id_of(v)),
        m.item_of(m.id_of(v)) == v,
{
    let i = choose|i: int| 0 <= i < m.count() && m.item_at(i) == v;
    lemma_item_pins_position(m, v, i);
    lemma_id_pins_position(m, m.id_at(i), i);
}

/// Every live identifier lies strictly below the counter. Since an insert
/// issues exactly the counter's value, it never returns an identifier that
/// is still live.
pub proof fn lemma_live_ids_below_next<T: Eq + Hash>(m: IDManager3<T>, id: nat)
    requires
        m.wf(),
        m.has_id(id),
    ensures
        id < m.next(),
{
}

/// Monotonicity: an insert returns the counter's value and leaves the
/// counter one higher, and no operation lowers the counter. So for an insert
/// that returned `first` and a later insert that returned `second`, the
/// earlier identifier is strictly smaller.
pub proof fn lemma_ids_monotonic<T: Eq + Hash>(
    after_first: IDManager3<T>,
    before_second: IDManager3<T>,
    first: nat,
    second: nat,
)
    requires
        first < after_first.next(),
        after_first.next() <= before_second.next(),
        second == before_second.next(),
    ensures
        first < second,
{
}

/// No reuse: an identifier live in some manager state is never issued by an
/// insert performed on any state whose counter is at least as far along —
/// in particular not after the association is removed, since removal keeps
/// the counter where it was.
pub proof fn lemma_no_reuse<T: Eq + Hash>(
    holder: IDManager3<T>,
    id: nat,
    later: IDManager3<T>,
)
    requires
        holder.wf(),
        holder.has_id(id),
        holder.next() <= later.next(),
    ensures
        later.next() != id,
{
}

/// The effect of dropping the entry at position `k` from both indexes:
/// exactly the association holding `v` disappears, every other association
/// survives unchanged, and the invariant is preserved.
proof fn lemma_drop_entry<T: Eq + Hash>(m0: IDManager3<T>, m1: IDManager3<T>, k: int, v: T)
    requires
        m0.wf(),
        0 <= k < m0.count(),
        m0.item_at(k) == v,
        m1.id_to_item@ == m0.id_to_item@.remove(k),
        m1.item_to_id@ == m0.item_to_id@.remove(k),
        m1.next_id == m0.next_id,
    ensures
        m1.wf(),
        !m1.has_item(v),
        forall|id: nat| #[trigger] m1.has_id(id) <==> m0.has_id(id) && m0.item_of(id) != v,
        forall|id: nat| #[trigger] m1.has_id(id) ==> m1.item_of(id) == m0.item_of(id),
        forall|w: T| #[trigger] m1.has_item(w) <==> m0.has_item(w) && w != v,
{
    m0.id_to_item@.remove_ensures(k);
    m0.item_to_id@.remove_ensures(k);
    assert forall|j: int| 0 <= j < m1.count() implies m1.id_at(j) == m0.id_at(
        if j < k {
            j
        } else {
            j + 1
        },
    ) && m1.item_at(j) == m0.item_at(
        if j < k {
            j
        } else {
            j + 1
        },
    ) by {
        if j < k {
            assert(m1.id_to_item@[j] == m0.id_to_item@[j]);
        } else {
            assert(m1.id_to_item@[j] == m0.id_to_item@[j + 1]);
        }
    }
    assert(m1.wf());
    assert forall|id: nat| m1.has_id(id) implies m0.has_id(id) && m0.item_of(id) != v
        && m1.item_of(id) == m0.item_of(id) by {
        let j = choose|j: int| 0 <= j < m1.count() && m1.id_at(j) == id;
        let j0 = if j < k {
            j
        } else {
            j + 1
        };
        assert(0 <= j0 < m0.count() && m0.id_at(j0) == id);
        let i0 = choose|i: int| 0 <= i < m0.count() && m0.id_at(i) == id;
        assert(i0 == j0) by {
            if i0 < j0 {
                assert(m0.id_at(i0) < m0.id_at(j0));
            }
            if j0 < i0 {
                assert(m0.id_at(j0) < m0.id_at(i0));
            }
        }
        assert(m0.item_of(id) == m0.item_at(j0));
        assert(j0 != k);
        assert(m0.item_at(j0) != m0.item_at(k));
        let j1 = choose|i: int| 0 <= i < m1.count() && m1.id_at(i) == id;
        assert(j1 == j) by {
            if j1 < j {
                assert(m1.id_at(j1) < m1.id_at(j));
            }
            if j < j1 {
                assert(m1.id_at(j) < m1.id_at(j1));
            }
        }
    }
    assert forall|id: nat| m0.has_id(id) && m0.item_of(id) != v implies m1.has_id(id) by {
        let i = choose|i: int| 0 <= i < m0.count() && m0.id_at(i) == id;
        assert(m0.item_of(id) == m0.item_at(i));
        assert(i != k);
        let j = if i < k {
            i
        } else {
            i - 1
        };
        assert(0 <= j < m1.count() && m1.id_at(j) == id);
    }
    assert forall|j: int| 0 <= j < m1.count() implies m1.item_at(j) != v by {
        let j0 = if j < k {
            j
        } else {
            j + 1
        };
        assert(j0 != k);
        assert(m0.item_at(j0) != m0.item_at(k));
    }
    assert forall|w: T| m1.has_item(w) implies m0.has_item(w) && w != v by {
        let j = choose|j: int| 0 <= j < m1.count() && m1.item_at(j) == w;
        let j0 = if j < k {
            j
        } else {
            j + 1
        };
        assert(0 <= j0 < m0.count() && m0.item_at(j0) == w);
        assert(j0 != k);
        assert(m0.item_at(j0) != m0.item_at(k));
    }
    assert forall|w: T| m0.has_item(w) && w != v implies m1.has_item(w) by {
        let i = choose|i: int| 0 <= i < m0.count() && m0.item_at(i) == w;
        assert(i != k);
        let j = if i < k {
            i
        } else {
            i - 1
        };
        assert(0 <= j < m1.count() && m1.item_at(j) == w);
    }
}

impl<T> Default for IDManager3<T> where T: Eq + Hash {
    /// An empty manager: both indexes empty, counter at zero.
    fn default() -> (r: Self)
        ensures
            r.wf(),
            r.count() == 0,
            r.next() == 0,
    {
        Self { next_id: Default::default(), id_to_item: Vec::new(), item_to_id: Vec::new() }
    }
}

/// Round trip: after an insert, the inserted value resolves back to the
/// identifier the insert returned. The first three premises are what
/// `insert` ensures of its final state and result; the fourth admits any
/// result that meets `get_id`'s contract for that state. Only the returned
/// identifier qualifies.
pub proof fn lemma_round_trip<T: Eq + Hash>(m: IDManager3<T>, v: T, r: ID, out: Option<ID>)
    requires
        m.wf(),
        m.has_item(v),
        m.id_of(v) == r.value(),
        match out {
            Some(id) => m.has_item(v) && id.value() == m.id_of(v),
            None => !m.has_item(v),
        },
    ensures
        out is Some,
        out->0.value() == r.value(),
{
}

/// Idempotent remove: a removal leaves no association for the removed
/// value, so an immediate second removal must report absence and leave the
/// manager untouched. The first premise is what `delete` ensures of its
/// final state after a successful removal; the last two admit any result
/// and state that meet `delete`'s contract for the second call.
pub proof fn lemma_remove_idempotent<T: Eq + Hash>(
    m1: IDManager3<T>,
    m2: IDManager3<T>,
    v: T,
    r2: bool,
)
    requires
        m1.wf(),
        !m1.has_item(v),
        r2 == m1.has_item(v),
        !r2 ==> m2 == m1,
    ensures
        !r2,
        m2 == m1,
{
}

/// The first attempt: each index owns a copy of the value of its own, so
/// the stored type must be duplicable. Simple, but both inefficient for
/// values that are expensive to copy and closed to types that cannot be
/// copied at all.
pub struct IDManager1<T> where T: Eq + Hash {
    next_id: ID,
    id_to_item: Vec<(ID, T)>,
    item_to_id: Vec<(T, ID)>,
}

impl<T> IDManager1<T> where T: Eq + Hash {
    /// Number of live associations.
    pub closed spec fn count(self) -> nat {
        self.id_to_item@.len()
    }

    /// The identifier of the association at position `i`, in insertion order.
    pub closed spec fn id_at(self, i: int) -> nat {
        self.id_to_item@[i].0.value()
    }

    /// The value of the association at position `i`.
    pub closed spec fn item_at(self, i: int) -> T {
        self.id_to_item@[i].1
    }

    /// The identifier the next insert will issue.
    pub closed spec fn next(self) -> nat {
        self.next_id.value()
    }

    /// Whether some live association carries the identifier `id`.
    pub open spec fn has_id(self, id: nat) -> bool {
        exists|i: int| 0 <= i < self.count() && self.id_at(i) == id
    }

    /// The value associated with a live identifier.
    pub open spec fn item_of(self, id: nat) -> T {
        self.item_at(choose|i: int| 0 <= i < self.count() && self.id_at(i) == id)
    }

    /// Whether some live association carries a value equal to `v`.
    pub open spec fn has_item(self, v: T) -> bool {
        exists|i: int| 0 <= i < self.count() && self.item_at(i) == v
    }

    /// The identifier associated with a live value.
    pub open spec fn id_of(self, v: T) -> nat {
        self.id_at(choose|i: int| 0 <= i < self.count() && self.item_at(i) == v)
    }

    /// The internal invariant, as for the recommended manager: the reverse
    /// index mirrors the forward index entry for entry — here with a copy of
    /// the value equal to the stored one — identifiers grow along insertion
    /// order and stay below the counter, and no two associations carry equal
    /// values.
    pub closed spec fn wf(self) -> bool {
        &&& self.item_to_id@.len() == self.id_to_item@.len()
        &&& forall|i: int|
            0 <= i < self.id_to_item@.len() ==> (#[trigger] self.item_to_id@[i]).0
                == self.id_to_item@[i].1 && self.item_to_id@[i].1 == self.id_to_item@[i].0
        &&& forall|i: int, j: int|
            0 <= i < j < self.count() ==> #[trigger] self.id_at(i) < #[trigger] self.id_at(j)
        &&& forall|i: int| 0 <= i < self.count() ==> #[trigger] self.id_at(i) < self.next()
        &&& forall|i: int, j: int|
            0 <= i < self.count() && 0 <= j < self.count() && i != j ==> #[trigger] self.item_at(i)
                != #[trigger] self.item_at(j)
    }
}

impl<T> Default for IDManager1<T> where T: Eq + Hash {
    /// An empty manager: both indexes empty, counter at zero.
    fn default() -> (r: Self)
        ensures
            r.wf(),
            r.count() == 0,
            r.next() == 0,
    {
        Self { next_id: Default::default(), id_to_item: Vec::new(), item_to_id: Vec::new() }
    }
}

impl<T> IDManager1<T> where T: Clone + Eq + Hash {
    /// Returns an empty manager whose counter starts at zero.
    pub fn new() -> (r: Self)
        ensures
            r.wf(),
            r.count() == 0,
            r.next() == 0,
    {
        Default::default()
    }

    /// Scans the reverse index for an association whose value equals `item`.
    fn find_item(&self, item: &T) -> (r: Option<usize>)
        requires
            self.wf(),
            eq_reflects::<T>(),
        ensures
            match r {
                Some(k) => k < self.count() && self.item_at(k as int) == *item,
                None => !self.has_item(*item),
            },
    {
        let n = self.item_to_id.len();
        for k in 0..n
            invariant
                n == self.count(),
                self.wf(),
                eq_reflects::<T>(),
                forall|j: int| 0 <= j < k ==> #[trigger] self.item_at(j) != *item,
        {
            let pair = &self.item_to_id[k];
            if pair.0 == *item {
                return Some(k);
            }
        }
        None
    }

    /// The identifier currently associated with a value equal to `item`,
    /// if any.
    pub fn get_id(&self, item: &T) -> (r: Option<ID>)
        requires
            self.wf(),
            eq_reflects::<T>(),
        ensures
            match r {
                Some(id) => self.has_item(*item) && id.value() == self.id_of(*item),
                None => !self.has_item(*item),
            },
    {
        match self.find_item(item) {
            Some(k) => Some(self.item_to_id[k].1),
            None => None,
        }
    }

    /// The stored value associated with `id`, if that identifier is live.
    pub fn get_item(&self, id: ID) -> (r: Option<&T>)
        requires
            self.wf(),
        ensures
            match r {
                Some(t) => self.has_id(id.value()) && *t == self.item_of(id.value()),
                None => !self.has_id(id.value()),
            },
    {
        let n = self.id_to_item.len();
        for k in 0..n
            invariant
                n == self.count(),
                self.wf(),
                forall|j: int| 0 <= j < k ==> #[trigger] self.id_at(j) != id.value(),
        {
            let pair = &self.id_to_item[k];
            if pair.0 == id {
                proof {
                    assert(self.id_at(k as int) == id.value());
                    assert(self.has_id(id.value()));
                    lemma_id_pins_position1(*self, id.value(), k as int);
                }
                return Some(&pair.1);
            }
        }
        None
    }

    /// Takes ownership of `item`, issues the identifier the counter holds,
    /// stores a copy in the forward index and the original in the reverse
    /// index, and advances the counter. If an equal value was already stored,
    /// its association is removed first. As for the recommended manager,
    /// exhaustion of the identifier space is refused by the precondition.
    pub fn insert(&mut self, item: T) -> (r: ID)
        requires
            old(self).wf(),
            eq_reflects::<T>(),
            clone_reflects::<T>(),
            old(self).next() < usize::MAX,
        ensures
            final(self).wf(),
            r.value() == old(self).next(),
            final(self).next() == old(self).next() + 1,
            final(self).has_id(r.value()),
            final(self).item_of(r.value()) == item,
            final(self).has_item(item),
            final(self).id_of(item) == r.value(),
            forall|id: nat|
                #[trigger] final(self).has_id(id) <==> id == r.value() || (old(self).has_id(id)
                    && old(self).item_of(id) != item),
            forall|id: nat|
                id != r.value() && #[trigger] final(self).has_id(id) ==> final(self).item_of(id)
                    == old(self).item_of(id),
            forall|w: T| #[trigger] final(self).has_item(w) <==> w == item || old(self).has_item(w),
    {
        let id = self.next_id;
        match self.find_item(&item) {
            Some(k) => {
                self.id_to_item.remove(k);
                self.item_to_id.remove(k);
                proof {
                    lemma_drop_entry1(*old(self), *self, k as int, item);
                }
            },
            None => {},
        }
        let ghost mid = *self;
        let copy = item.clone();
        self.id_to_item.push((id, copy));
        self.item_to_id.push((item, id));
        self.next_id.step();
        proof {
            lemma_add_entry1(mid, *self, id.value(), item);
            assert forall|idv: nat|
                final(self).has_id(idv) <==> idv == id.value() || (old(self).has_id(idv) && old(
                    self,
                ).item_of(idv) != item) by {
                if !old(self).has_item(item) {
                    if old(self).has_id(idv) {
                        let i = choose|i: int|
                            0 <= i < old(self).count() && old(self).id_at(i) == idv;
                        assert(old(self).item_of(idv) == old(self).item_at(i));
                    }
                }
            }
        }
        id
    }

    /// Removes the association for a value equal to `item`, if one is live,
    /// and reports whether anything was removed. When nothing was, one
    /// warning line goes to the standard error stream and the manager is
    /// unchanged. The counter is not decremented.
    pub fn delete(&mut self, item: &T) -> (r: bool)
        requires
            old(self).wf(),
            eq_reflects::<T>(),
        ensures
            final(self).wf(),
            final(self).next() == old(self).next(),
            r == old(self).has_item(*item),
            !final(self).has_item(*item),
            forall|id: nat|
                #[trigger] final(self).has_id(id) <==> old(self).has_id(id) && old(self).item_of(id)
                    != *item,
            forall|id: nat|
                #[trigger] final(self).has_id(id) ==> final(self).item_of(id) == old(self).item_of(
                    id,
                ),
            forall|w: T| #[trigger] final(self).has_item(w) <==> old(self).has_item(w) && w != *item,
            !r ==> *final(self) == *old(self),
    {
        match self.find_item(item) {
            Some(k) => {
                self.id_to_item.remove(k);
                self.item_to_id.remove(k);
                proof {
                    lemma_drop_entry1(*old(self), *final(self), k as int, *item);
                }
                true
            },
            None => {
                warn_missing_item();
                false
            },
        }
    }
}

/// The effect of dropping the entry at position `k` from both indexes of the
/// duplicating manager; the counterpart of the lemma for the recommended
/// manager.
proof fn lemma_drop_entry1<T: Eq + Hash>(m0: IDManager1<T>, m1: IDManager1<T>, k: int, v: T)
    requires
        m0.wf(),
        0 <= k < m0.count(),
        m0.item_at(k) == v,
        m1.id_to_item@ == m0.id_to_item@.remove(k),
        m1.item_to_id@ == m0.item_to_id@.remove(k),
        m1.next_id == m0.next_id,
    ensures
        m1.wf(),
        !m1.has_item(v),
        forall|id: nat| #[trigger] m1.has_id(id) <==> m0.has_id(id) && m0.item_of(id) != v,
        forall|id: nat| #[trigger] m1.has_id(id) ==> m1.item_of(id) == m0.item_of(id),
        forall|w: T| #[trigger] m1.has_item(w) <==> m0.has_item(w) && w != v,
{
    m0.id_to_item@.remove_ensures(k);
    m0.item_to_id@.remove_ensures(k);
    assert forall|j: int| 0 <= j < m1.count() implies m1.id_at(j) == m0.id_at(
        if j < k {
            j
        } else {
            j + 1
        },
    ) && m1.item_at(j) == m0.item_at(
        if j < k {
            j
        } else {
            j + 1
        },
    ) by {
        if j < k {
            assert(m1.id_to_item@[j] == m0.id_to_item@[j]);
        } else {
            assert(m1.id_to_item@[j] == m0.id_to_item@[j + 1]);
        }
    }
    assert(m1.wf());
    assert forall|id: nat| m1.has_id(id) implies m0.has_id(id) && m0.item_of(id) != v
        && m1.item_of(id) == m0.item_of(id) by {
        let j = choose|j: int| 0 <= j < m1.count() && m1.id_at(j) == id;
        let j0 = if j < k {
            j
        } else {
            j + 1
        };
        assert(0 <= j0 < m0.count() && m0.id_at(j0) == id);
        lemma_id_pins_position1(m0, id, j0);
        assert(j0 != k);
        assert(m0.item_at(j0) != m0.item_at(k));
        lemma_id_pins_position1(m1, id, j);
    }
    assert forall|id: nat| m0.has_id(id) && m0.item_of(id) != v implies m1.has_id(id) by {
        let i = choose|i: int| 0 <= i < m0.count() && m0.id_at(i) == id;
        assert(m0.item_of(id) == m0.item_at(i));
        assert(i != k);
        let j = if i < k {
            i
        } else {
            i - 1
        };
        assert(0 <= j < m1.count() && m1.id_at(j) == id);
    }
    assert forall|j: int| 0 <= j < m1.count() implies m1.item_at(j) != v by {
        let j0 = if j < k {
            j
        } else {
            j + 1
        };
        assert(j0 != k);
        assert(m0.item_at(j0) != m0.item_at(k));
    }
    assert forall|w: T| m1.has_item(w) implies m0.has_item(w) && w != v by {
        let j = choose|j: int| 0 <= j < m1.count() && m1.item_at(j) == w;
        let j0 = if j < k {
            j
        } else {
            j + 1
        };
        assert(0 <= j0 < m0.count() && m0.item_at(j0) == w);
        assert(j0 != k);
        assert(m0.item_at(j0) != m0.item_at(k));
    }
    assert forall|w: T| m0.has_item(w) && w != v implies m1.has_item(w) by {
        let i = choose|i: int| 0 <= i < m0.count() && m0.item_at(i) == w;
        assert(i != k);
        let j = if i < k {
            i
        } else {
            i - 1
        };
        assert(0 <= j < m1.count() && m1.item_at(j) == w);
    }
}

/// The effect of appending a fresh association to both indexes of the
/// duplicating manager; the counterpart of the lemma for the recommended
/// manager.
proof fn lemma_add_entry1<T: Eq + Hash>(m1: IDManager1<T>, m2: IDManager1<T>, idv: nat, v: T)
    requires
        m1.wf(),
        !m1.has_item(v),
        m1.next() == idv,
        m2.next() == idv + 1,
        m2.id_to_item@.len() == m1.id_to_item@.len() + 1,
        m2.id_to_item@ == m1.id_to_item@.push(m2.id_to_item@.last()),
        m2.item_to_id@ == m1.item_to_id@.push(m2.item_to_id@.last()),
        m2.id_at(m1.count() as int) == idv,
        m2.item_at(m1.count() as int) == v,
        m2.item_to_id@.last().0 == m2.id_to_item@.last().1,
        m2.item_to_id@.last().1 == m2.id_to_item@.last().0,
    ensures
        m2.wf(),
        m2.has_id(idv),
        m2.item_of(idv) == v,
        m2.has_item(v),
        m2.id_of(v) == idv,
        forall|id: nat| #[trigger] m2.has_id(id) <==> id == idv || m1.has_id(id),
        forall|id: nat|
            id != idv && #[trigger] m2.has_id(id) ==> m2.item_of(id) == m1.item_of(id),
        forall|w: T| #[trigger] m2.has_item(w) <==> w == v || m1.has_item(w),
{
    let n = m1.count() as int;
    assert forall|j: int| 0 <= j < n implies m2.id_at(j) == m1.id_at(j) && m2.item_at(j)
        == m1.item_at(j) by {
        assert(m2.id_to_item@[j] == m1.id_to_item@[j]);
    }
    assert(m2.wf());
    assert(0 <= n < m2.count() && m2.id_at(n) == idv);
    assert(m2.has_id(idv));
    assert(0 <= n < m2.count() && m2.item_at(n) == v);
    assert(m2.has_item(v));
    assert forall|id: nat| m2.has_id(id) implies id == idv || m1.has_id(id) by {
        let j = choose|j: int| 0 <= j < m2.count() && m2.id_at(j) == id;
        if j < n {
            assert(0 <= j < m1.count() && m1.id_at(j) == id);
        }
    }
    assert forall|id: nat| id != idv && m2.has_id(id) implies m2.item_of(id) == m1.item_of(
        id,
    ) by {
        let j = choose|j: int| 0 <= j < m2.count() && m2.id_at(j) == id;
        assert(j != n);
        assert(0 <= j < m1.count() && m1.id_at(j) == id);
        lemma_id_pins_position1(m2, id, j);
        lemma_id_pins_position1(m1, id, j);
    }
    lemma_id_pins_position1(m2, idv, n);
    lemma_item_pins_position1(m2, v, n);
    assert forall|w: T| m2.has_item(w) implies w == v || m1.has_item(w) by {
        let j = choose|j: int| 0 <= j < m2.count() && m2.item_at(j) == w;
        if j < n {
            assert(0 <= j < m1.count() && m1.item_at(j) == w);
        }
    }
    assert forall|w: T| m1.has_item(w) implies m2.has_item(w) by {
        let i = choose|i: int| 0 <= i < m1.count() && m1.item_at(i) == w;
        assert(0 <= i < m2.count() && m2.item_at(i) == w);
    }
}

/// An identifier determines its position in the duplicating manager's index,
/// as it does in the recommended manager's.
proof fn lemma_id_pins_position1<T: Eq + Hash>(m: IDManager1<T>, id: nat, j: int)
    requires
        m.wf(),
        0 <= j < m.count(),
        m.id_at(j) == id,
    ensures
        (choose|i: int| 0 <= i < m.count() && m.id_at(i) == id) == j,
        m.item_of(id) == m.item_at(j),
{
    let i = choose|i: int| 0 <= i < m.count() && m.id_at(i) == id;
    assert(0 <= i < m.count() && m.id_at(i) == id);
    if i < j {
        assert(m.id_at(i) < m.id_at(j));
    }
    if j < i {
        assert(m.id_at(j) < m.id_at(i));
    }
}

/// A value determines its position in the duplicating manager's index, as it
/// does in the recommended manager's.
proof fn lemma_item_pins_position1<T: Eq + Hash>(m: IDManager1<T>, v: T, j: int)
    requires
        m.wf(),
        0 <= j < m.count(),
        m.item_at(j) == v,
    ensures
        (choose|i: int| 0 <= i < m.count() && m.item_at(i) == v) == j,
        m.id_of(v) == m.id_at(j),
{
    let i = choose|i: int| 0 <= i < m.count() && m.item_at(i) == v;
    assert(0 <= i < m.count() && m.item_at(i) == v);
    assert(i == j);
}

/// The second attempt: the reverse index is keyed by reference instead of by
/// a copy. The original design filled that index with aliases into the
/// forward index's own storage, which is unsound when the storage relocates;
/// no safe insert can be written for this shape, so this manager offers the
/// lookup surface only and its indexes can only be empty. It is kept as the
/// stepping stone between the duplicating manager and the recommended,
/// handle-sharing one.
pub struct IDManager2<'a, T> where T: Eq + Hash {
    next_id: ID,
    id_to_item: Vec<(ID, T)>,
    item_to_id: Vec<(&'a T, ID)>,
}

impl<'a, T> IDManager2<'a, T> where T: Eq + Hash {
    /// Number of live associations.
    pub closed spec fn count(self) -> nat {
        self.id_to_item@.len()
    }

    /// The identifier of the association at position `i`, in insertion order.
    pub closed spec fn id_at(self, i: int) -> nat {
        self.id_to_item@[i].0.value()
    }

    /// The value of the association at position `i`.
    pub closed spec fn item_at(self, i: int) -> T {
        self.id_to_item@[i].1
    }

    /// The identifier the next insert will issue.
    pub closed spec fn next(self) -> nat {
        self.next_id.value()
    }

    /// Whether some live association carries the identifier `id`.
    pub open spec fn has_id(self, id: nat) -> bool {
        exists|i: int| 0 <= i < self.count() && self.id_at(i) == id
    }

    /// The value associated with a live identifier.
    pub open spec fn item_of(self, id: nat) -> T {
        self.item_at(choose|i: int| 0 <= i < self.count() && self.id_at(i) == id)
    }

    /// Whether some live association carries a value equal to `v`.
    pub open spec fn has_item(self, v: T) -> bool {
        exists|i: int| 0 <= i < self.count() && self.item_at(i) == v
    }

    /// The identifier associated with a live value.
    pub open spec fn id_of(self, v: T) -> nat {
        self.id_at(choose|i: int| 0 <= i < self.count() && self.item_at(i) == v)
    }

    /// The internal invariant, as for the other managers, with the reverse
    /// index's keys held by reference.
    pub closed spec fn wf(self) -> bool {
        &&& self.item_to_id@.len() == self.id_to_item@.len()
        &&& forall|i: int|
            0 <= i < self.id_to_item@.len() ==> *(#[trigger] self.item_to_id@[i]).0
                == self.id_to_item@[i].1 && self.item_to_id@[i].1 == self.id_to_item@[i].0
        &&& forall|i: int, j: int|
            0 <= i < j < self.count() ==> #[trigger] self.id_at(i) < #[trigger] self.id_at(j)
        &&& forall|i: int| 0 <= i < self.count() ==> #[trigger] self.id_at(i) < self.next()
        &&& forall|i: int, j: int|
            0 <= i < self.count() && 0 <= j < self.count() && i != j ==> #[trigger] self.item_at(i)
                != #[trigger] self.item_at(j)
    }

    /// Returns an empty manager whose counter starts at zero.
    pub fn new() -> (r: Self)
        ensures
            r.wf(),
            r.count() == 0,
            r.next() == 0,
    {
        Default::default()
    }

    /// The identifier currently associated with a value equal to `item`,
    /// if any.
    pub fn get_id(&self, item: &T) -> (r: Option<ID>)
        requires
            self.wf(),
            eq_reflects::<T>(),
        ensures
            match r {
                Some(id) => self.has_item(*item) && id.value() == self.id_of(*item),
                None => !self.has_item(*item),
            },
    {
        let n = self.item_to_id.len();
        for k in 0..n
            invariant
                n == self.count(),
                self.wf(),
                eq_reflects::<T>(),
                forall|j: int| 0 <= j < k ==> #[trigger] self.item_at(j) != *item,
        {
            let pair = &self.item_to_id[k];
            if *pair.0 == *item {
                proof {
                    assert(self.item_at(k as int) == *item);
                    assert(self.has_item(*item));
                    let i = choose|i: int| 0 <= i < self.count() && self.item_at(i) == *item;
                    assert(i == k as int);
                }
                return Some(pair.1);
            }
        }
        None
    }

    /// The stored value associated with `id`, if that identifier is live.
    pub fn get_item(&self, id: ID) -> (r: Option<&T>)
        requires
            self.wf(),
        ensures
            match r {
                Some(t) => self.has_id(id.value()) && *t == self.item_of(id.value()),
                None => !self.has_id(id.value()),
            },
    {
        let n = self.id_to_item.len();
        for k in 0..n
            invariant
                n == self.count(),
                self.wf(),
                forall|j: int| 0 <= j < k ==> #[trigger] self.id_at(j) != id.value(),
        {
            let pair = &self.id_to_item[k];
            if pair.0 == id {
                proof {
                    assert(self.id_at(k as int) == id.value());
                    assert(self.has_id(id.value()));
                    let i = choose|i: int| 0 <= i < self.count() && self.id_at(i) == id.value();
                    assert(i == k as int) by {
                        if i < k as int {
                            assert(self.id_at(i) < self.id_at(k as int));
                        }
                        if (k as int) < i {
                            assert(self.id_at(k as int) < self.id_at(i));
                        }
                    }
                }
                return Some(&pair.1);
            }
        }
        None
    }
}

impl<'a, T> Default for IDManager2<'a, T> where T: Eq + Hash {
    /// An empty manager: both indexes empty, counter at zero.
    fn default() -> (r: Self)
        ensures
            r.wf(),
            r.count() == 0,
            r.next() == 0,
    {
        Self { next_id: Default::default(), id_to_item: Vec::new(), item_to_id: Vec::new() }
    }
}

} // verus!
