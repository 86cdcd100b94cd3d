use vstd::prelude::*;

use crate::error::StructureError;
use crate::marks::marked_count;

verus! {

broadcast use vstd::seq_lib::to_multiset_update, vstd::seq_lib::to_multiset_build,
    vstd::seq_lib::to_multiset_len;

/// Element types with a total order given by an integer rank.
pub trait Ranked: Copy {
    /// Where the value stands in the order.
    spec fn rank(&self) -> int;

    /// Whether `self` comes strictly before `other`.
    fn ranks_below(&self, other: &Self) -> (r: bool)
        ensures
            r == (self.rank() < other.rank()),
    ;
}

impl Ranked for u8 {
    open spec fn rank(&self) -> int {
        *self as int
    }

    fn ranks_below(&self, other: &Self) -> (r: bool) {
        *self < *other
    }
}

impl Ranked for u16 {
    open spec fn rank(&self) -> int {
        *self as int
    }

    fn ranks_below(&self, other: &Self) -> (r: bool) {
        *self < *other
    }
}

impl Ranked for u32 {
    open spec fn rank(&self) -> int {
        *self as int
    }

    fn ranks_below(&self, other: &Self) -> (r: bool) {
        *self < *other
    }
}

impl Ranked for u64 {
    open spec fn rank(&self) -> int {
        *self as int
    }

    fn ranks_below(&self, other: &Self) -> (r: bool) {
        *self < *other
    }
}

impl Ranked for usize {
    open spec fn rank(&self) -> int {
        *self as int
    }

    fn ranks_below(&self, other: &Self) -> (r: bool) {
        *self < *other
    }
}

impl Ranked for i32 {
    open spec fn rank(&self) -> int {
        *self as int
    }

    fn ranks_below(&self, other: &Self) -> (r: bool) {
        *self < *other
    }
}

impl Ranked for i64 {
    open spec fn rank(&self) -> int {
        *self as int
    }

    fn ranks_below(&self, other: &Self) -> (r: bool) {
        *self < *other
    }
}

/// The position of the parent of position `i > 0` in the implicit tree.
pub open spec fn parent(i: int) -> int {
    (i - 1) / 2
}

/// Every element other than the root ranks no lower than its parent.
pub open spec fn heap_ordered<T: Ranked>(s: Seq<T>) -> bool {
    forall|i: int| 0 < i < s.len() ==> (#[trigger] s[parent(i)]).rank() <= s[i].rank()
}

/// `s` with the elements at positions `i` and `j` exchanged.
pub open spec fn swapped<T>(s: Seq<T>, i: int, j: int) -> Seq<T> {
    s.update(i, s[j]).update(j, s[i])
}

/// `s` after the element at `k` has moved towards the root, one exchange
/// with its parent at a time, for as long as it ranks below that parent.
pub open spec fn sifted_up<T: Ranked>(s: Seq<T>, k: int) -> Seq<T>
    decreases k,
{
    if 0 < k < s.len() && s[k].rank() < s[parent(k)].rank() {
        sifted_up(swapped(s, parent(k), k), parent(k))
    } else {
        s
    }
}

/// The child of `k` that an element moving down from `k` is compared with:
/// the right one where it ranks below the left one, else the left one.
pub open spec fn lower_child<T: Ranked>(s: Seq<T>, k: int) -> int {
    if 2 * k + 2 < s.len() && s[2 * k + 2].rank() < s[2 * k + 1].rank() {
        2 * k + 2
    } else {
        2 * k + 1
    }
}

/// `s` after the element at `k` has moved towards the leaves, one exchange
/// with its lower child at a time, for as long as that child ranks below it.
pub open spec fn sifted_down<T: Ranked>(s: Seq<T>, k: int) -> Seq<T>
    decreases s.len() - k,
{
    if 0 <= k && 2 * k + 1 < s.len() && s[lower_child(s, k)].rank() < s[k].rank() {
        sifted_down(swapped(s, k, lower_child(s, k)), lower_child(s, k))
    } else {
        s
    }
}

/// `s` after the element at `k` has been moved to its place: up where it
/// ranks below its parent, else down.
pub open spec fn restored<T: Ranked>(s: Seq<T>, k: int) -> Seq<T> {
    if 0 < k < s.len() && s[k].rank() < s[parent(k)].rank() {
        sifted_up(s, k)
    } else {
        sifted_down(s, k)
    }
}

/// What removing position `index` leaves: the last element takes its place
/// and is then moved to where it belongs.
pub open spec fn removed_at<T: Ranked>(s: Seq<T>, index: int) -> Seq<T> {
    restored(s.update(index, s.last()).drop_last(), index)
}

/// The heap order holds on every edge but the one that ends at `k`, and the
/// parent of `k` ranks no higher than the children of `k`.
spec fn ordered_except_up<T: Ranked>(s: Seq<T>, k: int) -> bool {
    &&& forall|i: int|
        0 < i < s.len() && i != k ==> (#[trigger] s[parent(i)]).rank() <= s[i].rank()
    &&& forall|i: int|
        0 < i < s.len() && parent(i) == k && k > 0 ==> s[parent(k)].rank() <= (#[trigger] s[i]).rank()
}

/// The heap order holds on every edge but those that start at `k`, and the
/// parent of `k` ranks no higher than the children of `k`.
spec fn ordered_except_down<T: Ranked>(s: Seq<T>, k: int) -> bool {
    &&& forall|i: int|
        0 < i < s.len() && parent(i) != k ==> (#[trigger] s[parent(i)]).rank() <= s[i].rank()
    &&& forall|i: int|
        0 < i < s.len() && parent(i) == k && k > 0 ==> s[parent(k)].rank() <= (#[trigger] s[i]).rank()
}

/// Exchanging two positions keeps the multiset of elements.
proof fn lemma_swap_multiset<T>(s: Seq<T>, i: int, j: int)
    requires
        0 <= i < s.len(),
        0 <= j < s.len(),
    ensures
        s.update(i, s[j]).update(j, s[i]).to_multiset() == s.to_multiset(),
{
    broadcast use vstd::multiset::group_multiset_axioms, vstd::seq_lib::to_multiset_contains;

    if i != j {
        let t = s.update(i, s[j]);
        let m = s.to_multiset();
        assert(t.to_multiset() == m.insert(s[j]).remove(s[i]));
        assert(t[j] == s[j]);
        assert(t.update(j, s[i]).to_multiset() == t.to_multiset().insert(s[i]).remove(s[j]));
        assert(s.contains(s[i]));
        assert(m.count(s[i]) > 0);
        assert(m.insert(s[j]).remove(s[i]).insert(s[i]).remove(s[j]) =~= m);
    } else {
        assert(s.update(i, s[j]).update(j, s[i]) =~= s);
    }
}

/// Exchanges the elements at positions `i` and `j`.
fn swap_at<T: Copy>(v: &mut Vec<T>, i: usize, j: usize)
    requires
        i < old(v)@.len(),
        j < old(v)@.len(),
    ensures
        final(v)@ == swapped(old(v)@, i as int, j as int),
        final(v)@.to_multiset() == old(v)@.to_multiset(),
{
    proof {
        lemma_swap_multiset(v@, i as int, j as int);
    }
    let a = v[i];
    let b = v[j];
    v[i] = b;
    v[j] = a;
}

/// Moves the element at `k` towards the root while it ranks below its parent.
fn sift_up<T: Ranked>(v: &mut Vec<T>, k: usize)
    requires
        k < old(v)@.len(),
        ordered_except_up(old(v)@, k as int),
    ensures
        final(v)@ == sifted_up(old(v)@, k as int),
        heap_ordered(final(v)@),
        final(v)@.len() == old(v)@.len(),
        final(v)@.to_multiset() == old(v)@.to_multiset(),
{
    let mut idx = k;
    while idx > 0
        invariant
            idx < v@.len(),
            v@.len() == old(v)@.len(),
            ordered_except_up(v@, idx as int),
            v@.to_multiset() == old(v)@.to_multiset(),
            sifted_up(v@, idx as int) == sifted_up(old(v)@, k as int),
        ensures
            v@ == sifted_up(old(v)@, k as int),
            heap_ordered(v@),
            v@.len() == old(v)@.len(),
            v@.to_multiset() == old(v)@.to_multiset(),
        decreases idx,
    {
        let p = (idx - 1) / 2;
        if v[idx].ranks_below(&v[p]) {
            let ghost s = v@;
            swap_at(v, p, idx);
            proof {
                let t = v@;
                assert forall|i: int|
                    0 < i < t.len() && i != p implies (#[trigger] t[parent(i)]).rank() <= t[i].rank() by {
                    if i != idx as int && parent(i) == idx as int {
                        assert(s[parent(idx as int)].rank() <= s[i].rank());
                    } else if i != idx as int && parent(i) == p as int {
                        assert(s[parent(i)].rank() <= s[i].rank());
                    }
                }
                assert forall|i: int|
                    0 < i < t.len() && parent(i) == p && p > 0 implies t[parent(p as int)].rank() <= (
                    #[trigger] t[i]).rank() by {
                    assert(s[parent(p as int)].rank() <= s[p as int].rank());
                    if i != idx as int {
                        assert(s[parent(i)].rank() <= s[i].rank());
                    }
                }
            }
            idx = p;
        } else {
            proof {
                let t = v@;
                assert forall|i: int| 0 < i < t.len() implies (#[trigger] t[parent(i)]).rank()
                    <= t[i].rank() by {
                    if i == idx as int {
                        assert(parent(i) == p as int);
                    }
                }
            }
            break;
        }
    }
}

/// Moves the element at `k` towards the leaves while a child ranks below it,
/// exchanging it with the lower-ranked child (the left one on a tie).
fn sift_down<T: Ranked>(v: &mut Vec<T>, k: usize)
    requires
        k < old(v)@.len(),
        ordered_except_down(old(v)@, k as int),
        k > 0 ==> old(v)@[parent(k as int)].rank() <= old(v)@[k as int].rank(),
    ensures
        final(v)@ == sifted_down(old(v)@, k as int),
        heap_ordered(final(v)@),
        final(v)@.len() == old(v)@.len(),
        final(v)@.to_multiset() == old(v)@.to_multiset(),
{
    let n = v.len();
    let mut idx = k;
    loop
        invariant
            idx < n,
            v@.len() == n,
            n == old(v)@.len(),
            ordered_except_down(v@, idx as int),
            idx > 0 ==> v@[parent(idx as int)].rank() <= v@[idx as int].rank(),
            v@.to_multiset() == old(v)@.to_multiset(),
            sifted_down(v@, idx as int) == sifted_down(old(v)@, k as int),
        ensures
            v@ == sifted_down(old(v)@, k as int),
            heap_ordered(v@),
            v@.len() == old(v)@.len(),
            v@.to_multiset() == old(v)@.to_multiset(),
        decreases n - idx,
    {
        let left = if idx < n / 2 { 2 * idx + 1 } else { n };
        if left >= n {
            proof {
                let t = v@;
                assert forall|i: int| 0 < i < t.len() implies (#[trigger] t[parent(i)]).rank()
                    <= t[i].rank() by {
                    if parent(i) == idx as int {
                        assert(i >= 2 * idx + 1);
                        assert(2 * idx + 1 >= n) by (nonlinear_arith)
                            requires idx >= n / 2, n > 0;
                    }
                }
            }
            break;
        }
        let right = left + 1;
        let smallest = if right < n && v[right].ranks_below(&v[left]) {
            right
        } else {
            left
        };
        if !v[smallest].ranks_below(&v[idx]) {
            proof {
                let t = v@;
                assert forall|i: int| 0 < i < t.len() implies (#[trigger] t[parent(i)]).rank()
                    <= t[i].rank() by {
                    if parent(i) == idx as int {
                        assert(i == left as int || i == right as int);
                    }
                }
            }
            break;
        }
        let ghost s = v@;
        swap_at(v, idx, smallest);
        proof {
            let t = v@;
            assert(parent(smallest as int) == idx as int);
            assert forall|i: int|
                0 < i < t.len() && parent(i) != smallest implies (#[trigger] t[parent(i)]).rank()
                    <= t[i].rank() by {
                if i == idx as int {
                    assert(s[parent(idx as int)].rank() <= s[smallest as int].rank());
                } else if parent(i) == idx as int {
                    assert(i == left as int || i == right as int);
                }
            }
            assert forall|i: int|
                0 < i < t.len() && parent(i) == smallest && smallest > 0 implies t[parent(
                    smallest as int,
                )].rank() <= (#[trigger] t[i]).rank() by {
                assert(s[parent(i)].rank() <= s[i].rank());
            }
        }
        idx = smallest;
    }
}

/// `after` holds the elements of `before` and one more: what `insert` leaves.
pub open spec fn insert_step<T>(before: Seq<T>, after: Seq<T>) -> bool {
    exists|x: T| after.to_multiset() == #[trigger] before.to_multiset().insert(x)
}

/// `after` holds the elements of `before` but the one at a position of
/// `before`: what a successful `remove` leaves.
pub open spec fn remove_step<T>(before: Seq<T>, after: Seq<T>) -> bool {
    exists|i: int|
        0 <= i < before.len() && after.to_multiset() == before.to_multiset().remove(#[trigger] before[i])
}

/// Starting from an empty heap, after a run of insertions and successful
/// removals (`inserted[t]` tells which one step `t` was), the heap holds as
/// many elements as there were insertions less removals.
pub proof fn lemma_size_law<T>(states: Seq<Seq<T>>, inserted: Seq<bool>)
    requires
        states.len() == inserted.len() + 1,
        states[0].len() == 0,
        forall|t: int|
            0 <= t < inserted.len() ==> (#[trigger] inserted[t] ==> insert_step(states[t], states[t + 1])) && (
            !inserted[t] ==> remove_step(states[t], states[t + 1])),
    ensures
        states.last().len() == marked_count(inserted) - (inserted.len() - marked_count(inserted)),
    decreases inserted.len(),
{
    broadcast use vstd::multiset::group_multiset_axioms, vstd::multiset::group_multiset_properties,
        vstd::seq_lib::to_multiset_contains;

    if inserted.len() > 0 {
        let t = inserted.len() - 1;
        let earlier = states.drop_last();
        assert forall|u: int| 0 <= u < inserted.drop_last().len() implies (#[trigger] inserted.drop_last()[u]
            ==> insert_step(earlier[u], earlier[u + 1])) && (!inserted.drop_last()[u] ==> remove_step(
            earlier[u],
            earlier[u + 1],
        )) by {
            assert(inserted[u] == inserted.drop_last()[u]);
        }
        lemma_size_law(earlier, inserted.drop_last());
        let before = states[t];
        let after = states[t + 1];
        assert(inserted[t] ==> insert_step(before, after));
        if inserted[t] {
            let x = choose|x: T| after.to_multiset() == #[trigger] before.to_multiset().insert(x);
            assert(after.to_multiset().len() == after.len());
            assert(before.to_multiset().len() == before.len());
            assert(after.len() == before.len() + 1);
        } else {
            assert(remove_step(before, after));
            let i = choose|i: int|
                0 <= i < before.len() && after.to_multiset() == before.to_multiset().remove(
                    #[trigger] before[i],
                );
            assert(before.contains(before[i]));
            assert(before.to_multiset().count(before[i]) > 0);
            assert(after.to_multiset().len() == after.len());
            assert(before.to_multiset().len() == before.len());
            assert(after.len() + 1 == before.len());
        }
    }
}

/// A binary min-heap kept in a vector: the children of position `i` sit at
/// `2i + 1` and `2i + 2`, and no child ranks below its parent.
#[derive(Debug)]
pub struct MinHeap<T>(Vec<T>);

impl<T> View for MinHeap<T> {
    type V = Seq<T>;

    closed spec fn view(&self) -> Seq<T> {
        self.0@
    }
}

impl<T: Ranked> MinHeap<T> {
    /// The heap order holds over the whole sequence.
    pub open spec fn well_formed(&self) -> bool {
        heap_ordered(self@)
    }

    /// An empty heap with room reserved for `capacity` elements.
    pub fn new(capacity: usize) -> (h: Self)
        ensures
            h.well_formed(),
            h@ == Seq::<T>::empty(),
    {
        MinHeap(Vec::with_capacity(capacity))
    }

    /// Adds `elem` at the end and moves it up past every parent that ranks
    /// above it.
    pub fn insert(&mut self, elem: T)
        requires
            old(self).well_formed(),
        ensures
            final(self).well_formed(),
            final(self)@ == sifted_up(old(self)@.push(elem), old(self)@.len() as int),
            final(self)@.len() == old(self)@.len() + 1,
            final(self)@.to_multiset() == old(self)@.to_multiset().insert(elem),
    {
        let idx = self.0.len();
        self.0.push(elem);
        proof {
            let s = self.0@;
            assert(s.drop_last() == old(self)@);
            assert forall|i: int|
                0 < i < s.len() && parent(i) == idx && idx > 0 implies s[parent(idx as int)].rank() <= (
                #[trigger] s[i]).rank() by {
                assert(i > idx);
            }
        }
        sift_up(&mut self.0, idx);
    }

    /// Removes and returns the element at `index`: the last element takes its
    /// place and moves down, or up where it ranks below its new parent, until
    /// the heap order holds again. An index past the end is reported as
    /// `IndexOutOfRange` and leaves the heap unchanged.
    pub fn remove(&mut self, index: usize) -> (r: Result<T, StructureError>)
        requires
            old(self).well_formed(),
        ensures
            final(self).well_formed(),
            index < old(self)@.len() ==> r == Ok::<T, StructureError>(old(self)@[index as int])
                && final(self)@ == removed_at(old(self)@, index as int)
                && final(self)@.len() == old(self)@.len() - 1
                && final(self)@.to_multiset() == old(self)@.to_multiset().remove(
                old(self)@[index as int],
            ),
            index >= old(self)@.len() ==> r == Err::<T, StructureError>(
                StructureError::IndexOutOfRange,
            ) && final(self)@ == old(self)@,
    {
        let length = self.0.len();
        if index >= length {
            return Err(StructureError::IndexOutOfRange);
        }
        let last = length - 1;
        swap_at(&mut self.0, index, last);
        let ghost swapped = self.0@;
        let removed = self.0.pop().unwrap();
        proof {
            assert(self.0@ == swapped.drop_last());
            assert(swapped =~= self.0@.push(removed));
            assert(removed == old(self)@[index as int]);
            assert(swapped.to_multiset() == self.0@.to_multiset().insert(removed));
            assert(self.0@.to_multiset() =~= old(self)@.to_multiset().remove(removed));
            assert(self.0@ =~= old(self)@.update(index as int, old(self)@.last()).drop_last());
            if index == last {
                assert(sifted_down(self.0@, index as int) == self.0@);
            }
        }
        if index < last {
            let s = &self.0;
            let ghost o = old(self)@;
            if index > 0 && s[index].ranks_below(&s[(index - 1) / 2]) {
                proof {
                    let t = self.0@;
                    assert forall|i: int|
                        0 < i < t.len() && parent(i) == index implies t[parent(index as int)].rank()
                            <= (#[trigger] t[i]).rank() by {
                        assert(o[parent(index as int)].rank() <= o[index as int].rank());
                        assert(o[parent(i)].rank() <= o[i].rank());
                    }
                    assert forall|i: int|
                        0 < i < t.len() && i != index implies (#[trigger] t[parent(i)]).rank()
                            <= t[i].rank() by {
                        if parent(i) == index {
                            assert(o[parent(index as int)].rank() <= o[index as int].rank());
                            assert(o[parent(i)].rank() <= o[i].rank());
                        }
                    }
                }
                sift_up(&mut self.0, index);
            } else {
                proof {
                    let t = self.0@;
                    assert forall|i: int|
                        0 < i < t.len() && parent(i) == index && index > 0 implies t[parent(
                            index as int,
                        )].rank() <= (#[trigger] t[i]).rank() by {
                        assert(o[parent(index as int)].rank() <= o[index as int].rank());
                        assert(o[parent(i)].rank() <= o[i].rank());
                    }
                }
                sift_down(&mut self.0, index);
            }
        }
        Ok(removed)
    }

    /// The elements in storage order.
    pub fn values(&self) -> (r: &Vec<T>)
        ensures
            r@ == self@,
    {
        &self.0
    }

    /// The number of elements held.
    pub fn len(&self) -> (n: usize)
        ensures
            n == self@.len(),
    {
        self.0.len()
    }
}

} // verus!
