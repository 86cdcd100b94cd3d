use vstd::prelude::*;

use crate::error::StructureError;
use crate::marks::{
    lemma_marked_count_bound, lemma_marked_count_mark, lemma_marked_count_none, marked_count,
};

verus! {

/// A square matrix of booleans with `capacity` rows and columns.
#[derive(Debug)]
pub struct Array2D {
    values: Vec<Vec<bool>>,
    capacity: usize,
}

impl View for Array2D {
    type V = Seq<Seq<bool>>;

    closed spec fn view(&self) -> Seq<Seq<bool>> {
        self.values@.map_values(|row: Vec<bool>| row@)
    }
}

/// `m` has `n` rows of `n` entries each.
pub open spec fn is_square(m: Seq<Seq<bool>>, n: nat) -> bool {
    &&& m.len() == n
    &&& forall|i: int| 0 <= i < n ==> (#[trigger] m[i]).len() == n
}

impl Array2D {
    /// The number of rows, which is also the number of columns.
    pub closed spec fn size(&self) -> nat {
        self.capacity as nat
    }

    /// The storage holds `capacity` rows of `capacity` entries.
    pub open spec fn well_formed(&self) -> bool {
        is_square(self@, self.size())
    }

    /// A `capacity` by `capacity` matrix with every entry false.
    pub fn new(capacity: usize) -> (a: Self)
        ensures
            a.well_formed(),
            a.size() == capacity,
            forall|i: int, j: int| 0 <= i < capacity && 0 <= j < capacity ==> !(#[trigger] a@[i][j]),
    {
        let mut outer: Vec<Vec<bool>> = Vec::with_capacity(capacity);
        let mut i: usize = 0;
        while i < capacity
            invariant
                i <= capacity,
                outer@.len() == i,
                forall|k: int| 0 <= k < i ==> (#[trigger] outer@[k])@.len() == 0,
            decreases capacity - i,
        {
            outer.push(Vec::with_capacity(capacity));
            i = i + 1;
        }
        let mut ndarr = Array2D { values: outer, capacity };
        ndarr.zeros();
        ndarr
    }

    /// Fills every empty row with `capacity` false entries.
    fn zeros(&mut self)
        requires
            old(self).values@.len() == old(self).capacity,
            forall|k: int| 0 <= k < old(self).capacity ==> (#[trigger] old(self).values@[k])@.len() == 0,
        ensures
            final(self).well_formed(),
            final(self).size() == old(self).size(),
            forall|i: int, j: int|
                0 <= i < final(self).size() && 0 <= j < final(self).size() ==> !(
                #[trigger] final(self)@[i][j]),
    {
        let n = self.capacity;
        let mut i: usize = 0;
        while i < n
            invariant
                n == self.capacity,
                i <= n,
                self.values@.len() == n,
                forall|k: int| 0 <= k < i ==> (#[trigger] self.values@[k])@ == Seq::new(n as nat, |c: int| false),
                forall|k: int| i <= k < n ==> (#[trigger] self.values@[k])@.len() == 0,
            decreases n - i,
        {
            let mut j: usize = 0;
            while j < n
                invariant
                    n == self.capacity,
                    i < n,
                    j <= n,
                    self.values@.len() == n,
                    forall|k: int| 0 <= k < i ==> (#[trigger] self.values@[k])@ == Seq::new(n as nat, |c: int| false),
                    forall|k: int| i < k < n ==> (#[trigger] self.values@[k])@.len() == 0,
                    self.values@[i as int]@ == Seq::new(j as nat, |c: int| false),
                decreases n - j,
            {
                self.values[i].push(false);
                proof {
                    assert(self.values@[i as int]@ =~= Seq::new((j + 1) as nat, |c: int| false));
                }
                j = j + 1;
            }
            i = i + 1;
        }
    }
}

/// `m` holds an entry for `(a, b)` exactly when it holds one for `(b, a)`.
pub open spec fn is_symmetric(m: Seq<Seq<bool>>) -> bool {
    forall|a: int, b: int| 0 <= a < m.len() && 0 <= b < m.len() ==> #[trigger] m[a][b] == m[b][a]
}

/// `p` is a walk in the graph whose adjacency matrix is `m`: each vertex is
/// in range and each one is adjacent to the next.
pub open spec fn is_walk(m: Seq<Seq<bool>>, p: Seq<int>) -> bool {
    &&& forall|k: int| 0 <= k < p.len() ==> 0 <= #[trigger] p[k] < m.len()
    &&& forall|k: int| 0 <= k < p.len() - 1 ==> #[trigger] m[p[k]][p[k + 1]]
}

/// Some walk leads from `a` to `b`; a vertex in range reaches itself.
pub open spec fn reachable(m: Seq<Seq<bool>>, a: int, b: int) -> bool {
    exists|p: Seq<int>|
        #![trigger is_walk(m, p), p[0], p.last()]
        p.len() > 0 && p[0] == a && p.last() == b && is_walk(m, p)
}

/// A walk to `u` followed by an edge from `u` to `w` is a walk to `w`.
proof fn lemma_reachable_step(m: Seq<Seq<bool>>, a: int, u: int, w: int)
    requires
        reachable(m, a, u),
        0 <= w < m.len(),
        m[u][w],
    ensures
        reachable(m, a, w),
{
    let p = choose|p: Seq<int>| p.len() > 0 && p[0] == a && p.last() == u && is_walk(m, p);
    let q = p.push(w);
    assert(q[q.len() - 2] == u);
    assert(is_walk(m, q));
    assert(q[0] == a && q.last() == w);
}

/// A set of vertices that holds `p[0]` and every neighbour of each of its
/// members holds every vertex of the walk `p`.
proof fn lemma_closed_holds_walk(m: Seq<Seq<bool>>, marks: Seq<bool>, p: Seq<int>)
    requires
        marks.len() == m.len(),
        is_walk(m, p),
        p.len() > 0,
        marks[p[0]],
        forall|v: int, w: int|
            0 <= v < m.len() && 0 <= w < m.len() && marks[v] && #[trigger] m[v][w] ==> marks[w],
    ensures
        marks[p.last()],
    decreases p.len(),
{
    if p.len() > 1 {
        let q = p.drop_last();
        assert(is_walk(m, q));
        lemma_closed_holds_walk(m, marks, q);
        let k = p.len() - 2;
        assert(m[p[k]][p[k + 1]]);
    }
}

/// `after` is `before` with the entries for `(a, b)` and `(b, a)` set to
/// `present` and every other entry kept.
pub open spec fn pair_set(
    before: Seq<Seq<bool>>,
    after: Seq<Seq<bool>>,
    a: int,
    b: int,
    present: bool,
) -> bool {
    &&& after.len() == before.len()
    &&& forall|i: int| 0 <= i < before.len() ==> (#[trigger] after[i]).len() == before[i].len()
    &&& forall|i: int, j: int|
        0 <= i < before.len() && 0 <= j < before[i].len() ==> #[trigger] after[i][j] == if (i == a
            && j == b) || (i == b && j == a) {
            present
        } else {
            before[i][j]
        }
}

/// Setting the entries of a pair gives both of them the new value, and
/// keeps a symmetric matrix symmetric.
pub proof fn lemma_pair_set_symmetric(
    before: Seq<Seq<bool>>,
    after: Seq<Seq<bool>>,
    a: int,
    b: int,
    present: bool,
)
    requires
        is_square(before, before.len()),
        0 <= a < before.len(),
        0 <= b < before.len(),
        pair_set(before, after, a, b, present),
    ensures
        after[a][b] == present,
        after[b][a] == present,
        is_symmetric(before) ==> is_symmetric(after),
{
    assert(after[a][b] == present);
    assert(after[b][a] == present);
    if is_symmetric(before) {
        assert forall|i: int, j: int| 0 <= i < after.len() && 0 <= j < after.len() implies #[trigger] after[i][j]
            == after[j][i] by {
            assert(before[i][j] == before[j][i]);
        }
    }
}

/// An undirected graph over the vertices `0 .. capacity`, kept as a symmetric
/// adjacency matrix.
#[derive(Debug)]
pub struct BiGraph(Array2D);

impl View for BiGraph {
    type V = Seq<Seq<bool>>;

    closed spec fn view(&self) -> Seq<Seq<bool>> {
        self.0@
    }
}

impl BiGraph {
    /// The number of vertices.
    pub closed spec fn capacity(&self) -> nat {
        self.0.size()
    }

    /// The matrix is square and symmetric.
    pub open spec fn well_formed(&self) -> bool {
        &&& is_square(self@, self.capacity())
        &&& is_symmetric(self@)
    }

    /// A graph of `capacity` vertices and no edges.
    pub fn new(capacity: usize) -> (g: Self)
        ensures
            g.well_formed(),
            g.capacity() == capacity,
            forall|i: int, j: int| 0 <= i < capacity && 0 <= j < capacity ==> !(#[trigger] g@[i][j]),
    {
        BiGraph(Array2D::new(capacity))
    }

    /// Sets the entry for the pair `(node1, node2)` in both directions to
    /// `present`, or reports `IndexOutOfRange` and changes nothing.
    fn set_connection(&mut self, node1: usize, node2: usize, present: bool) -> (r: Result<
        (),
        StructureError,
    >)
        requires
            old(self).well_formed(),
        ensures
            final(self).well_formed(),
            final(self).capacity() == old(self).capacity(),
            node1 < old(self).capacity() && node2 < old(self).capacity() ==> r == Ok::<
                (),
                StructureError,
            >(()) && pair_set(old(self)@, final(self)@, node1 as int, node2 as int, present),
            !(node1 < old(self).capacity() && node2 < old(self).capacity()) ==> r == Err::<
                (),
                StructureError,
            >(StructureError::IndexOutOfRange) && final(self)@ == old(self)@,
    {
        if node1 >= self.0.capacity || node2 >= self.0.capacity {
            return Err(StructureError::IndexOutOfRange);
        }
        proof {
            assert(self.0.values@[node1 as int]@ == self@[node1 as int]);
            assert(self.0.values@[node2 as int]@ == self@[node2 as int]);
        }
        self.0.values[node1][node2] = present;
        proof {
            assert(self.0.values@[node2 as int]@.len() == self.capacity());
        }
        self.0.values[node2][node1] = present;
        proof {
            let o = old(self)@;
            let m1 = o.update(node1 as int, o[node1 as int].update(node2 as int, present));
            let m2 = m1.update(node2 as int, m1[node2 as int].update(node1 as int, present));
            assert(self@ =~= m2);
            assert(pair_set(o, m2, node1 as int, node2 as int, present));
            let n = self.capacity() as int;
            assert forall|a: int, b: int| 0 <= a < n && 0 <= b < n implies #[trigger] m2[a][b] == m2[b][a] by {
                assert(o[a][b] == o[b][a]);
            }
        }
        Ok(())
    }

    /// Connects `node1` and `node2`, or reports `IndexOutOfRange` and changes
    /// nothing when either is not a vertex.
    pub fn add_connection(&mut self, node1: usize, node2: usize) -> (r: Result<(), StructureError>)
        requires
            old(self).well_formed(),
        ensures
            final(self).well_formed(),
            final(self).capacity() == old(self).capacity(),
            node1 < old(self).capacity() && node2 < old(self).capacity() ==> r == Ok::<
                (),
                StructureError,
            >(()) && pair_set(old(self)@, final(self)@, node1 as int, node2 as int, true),
            !(node1 < old(self).capacity() && node2 < old(self).capacity()) ==> r == Err::<
                (),
                StructureError,
            >(StructureError::IndexOutOfRange) && final(self)@ == old(self)@,
    {
        self.set_connection(node1, node2, true)
    }

    /// Disconnects `node1` and `node2`, or reports `IndexOutOfRange` and
    /// changes nothing when either is not a vertex.
    pub fn remove_connection(&mut self, node1: usize, node2: usize) -> (r: Result<(), StructureError>)
        requires
            old(self).well_formed(),
        ensures
            final(self).well_formed(),
            final(self).capacity() == old(self).capacity(),
            node1 < old(self).capacity() && node2 < old(self).capacity() ==> r == Ok::<
                (),
                StructureError,
            >(()) && pair_set(old(self)@, final(self)@, node1 as int, node2 as int, false),
            !(node1 < old(self).capacity() && node2 < old(self).capacity()) ==> r == Err::<
                (),
                StructureError,
            >(StructureError::IndexOutOfRange) && final(self)@ == old(self)@,
    {
        self.set_connection(node1, node2, false)
    }

    /// Breadth-first search from `start_node`: whether a walk leads from it
    /// to `end_node`. Each vertex is queued at most once, so the search ends
    /// after at most `capacity` expansions. `IndexOutOfRange` when either
    /// vertex is not in the graph.
    pub fn breadth_first_search(&self, start_node: usize, end_node: usize) -> (r: Result<
        bool,
        StructureError,
    >)
        requires
            self.well_formed(),
        ensures
            start_node < self.capacity() && end_node < self.capacity() ==> r == Ok::<
                bool,
                StructureError,
            >(reachable(self@, start_node as int, end_node as int)),
            !(start_node < self.capacity() && end_node < self.capacity()) ==> r == Err::<
                bool,
                StructureError,
            >(StructureError::IndexOutOfRange),
    {
        let n = self.0.capacity;
        if start_node >= n || end_node >= n {
            return Err(StructureError::IndexOutOfRange);
        }
        let ghost m = self@;
        proof {
            let p = seq![start_node as int];
            assert(p.last() == start_node as int);
            assert(is_walk(m, p));
        }
        if start_node == end_node {
            return Ok(true);
        }
        let mut visited: Vec<bool> = Vec::with_capacity(n);
        let mut v: usize = 0;
        while v < n
            invariant
                v <= n,
                visited@ == Seq::new(v as nat, |k: int| false),
            decreases n - v,
        {
            visited.push(false);
            proof {
                assert(visited@ =~= Seq::new((v + 1) as nat, |k: int| false));
            }
            v = v + 1;
        }
        proof {
            lemma_marked_count_none(visited@);
            lemma_marked_count_mark(visited@, start_node as int);
        }
        visited[start_node] = true;
        let mut queue: Vec<usize> = Vec::with_capacity(n);
        queue.push(start_node);
        proof {
            assert forall|x: int|
                0 <= x < n && #[trigger] visited@[x] implies exists|k: int|
                    0 <= k < queue@.len() && #[trigger] queue@[k] == x by {
                assert(x == start_node as int);
                assert(queue@[0] == x);
            }
        }
        let mut head: usize = 0;
        while head < queue.len()
            invariant
                self.well_formed(),
                m == self@,
                n == self.capacity(),
                start_node < n,
                end_node < n,
                visited@.len() == n,
                head <= queue@.len(),
                queue@.len() == marked_count(visited@),
                forall|k: int| 0 <= k < queue@.len() ==> (#[trigger] queue@[k]) < n && visited@[queue@[k] as int],
                forall|x: int|
                    0 <= x < n && #[trigger] visited@[x] ==> exists|k: int|
                        0 <= k < queue@.len() && #[trigger] queue@[k] == x,
                forall|x: int| 0 <= x < n && #[trigger] visited@[x] ==> reachable(m, start_node as int, x),
                !visited@[end_node as int],
                visited@[start_node as int],
                forall|k: int, w: int|
                    0 <= k < head && 0 <= w < n && #[trigger] m[queue@[k] as int][w] ==> visited@[w],
            decreases n - head,
        {
            proof {
                lemma_marked_count_bound(visited@);
            }
            let u = queue[head];
            proof {
                assert(self.0.values@[u as int]@ == m[u as int]);
            }
            let mut w: usize = 0;
            while w < n
                invariant
                    self.well_formed(),
                    m == self@,
                    n == self.capacity(),
                    start_node < n,
                    end_node < n,
                    u < n,
                    u == queue@[head as int],
                    self.0.values@[u as int]@ == m[u as int],
                    w <= n,
                    visited@.len() == n,
                    head < queue@.len(),
                    queue@.len() == marked_count(visited@),
                    forall|k: int| 0 <= k < queue@.len() ==> (#[trigger] queue@[k]) < n && visited@[queue@[k] as int],
                    forall|x: int|
                        0 <= x < n && #[trigger] visited@[x] ==> exists|k: int|
                            0 <= k < queue@.len() && #[trigger] queue@[k] == x,
                    forall|x: int| 0 <= x < n && #[trigger] visited@[x] ==> reachable(m, start_node as int, x),
                    !visited@[end_node as int],
                    visited@[start_node as int],
                visited@[start_node as int],
                    forall|k: int, x: int|
                        0 <= k < head && 0 <= x < n && #[trigger] m[queue@[k] as int][x] ==> visited@[x],
                    forall|x: int| 0 <= x < w && #[trigger] m[u as int][x] ==> visited@[x],
                decreases n - w,
            {
                if self.0.values[u][w] && !visited[w] {
                    proof {
                        assert(visited@[u as int]);
                        lemma_reachable_step(m, start_node as int, u as int, w as int);
                    }
                    if w == end_node {
                        return Ok(true);
                    }
                    proof {
                        lemma_marked_count_mark(visited@, w as int);
                    }
                    let ghost before = queue@;
                    visited[w] = true;
                    queue.push(w);
                    proof {
                        assert(queue@[queue@.len() - 1] == w);
                        assert forall|x: int|
                            0 <= x < n && #[trigger] visited@[x] implies exists|k: int|
                                0 <= k < queue@.len() && #[trigger] queue@[k] == x by {
                            if x != w as int {
                                let k = choose|k: int| 0 <= k < before.len() && before[k] == x;
                                assert(queue@[k] == x);
                            }
                        }
                    }
                }
                w = w + 1;
            }
            head = head + 1;
        }
        proof {
            let marks = visited@;
            assert forall|x: int, y: int|
                0 <= x < n && 0 <= y < n && marks[x] && #[trigger] m[x][y] implies marks[y] by {
                let k = choose|k: int| 0 <= k < queue@.len() && queue@[k] == x;
                assert(m[queue@[k] as int][y]);
            }
            if reachable(m, start_node as int, end_node as int) {
                let p = choose|p: Seq<int>|
                    p.len() > 0 && p[0] == start_node as int && p.last() == end_node as int && is_walk(m, p);
                lemma_closed_holds_walk(m, marks, p);
            }
        }
        Ok(false)
    }

    /// Whether `node1` and `node2` are connected; `None` when either is not
    /// a vertex.
    pub fn is_connected(&self, node1: usize, node2: usize) -> (r: Option<bool>)
        requires
            self.well_formed(),
        ensures
            node1 < self.capacity() && node2 < self.capacity() ==> r == Some(
                self@[node1 as int][node2 as int],
            ),
            !(node1 < self.capacity() && node2 < self.capacity()) ==> r == None::<bool>,
    {
        if node1 >= self.0.capacity || node2 >= self.0.capacity {
            return None;
        }
        proof {
            assert(self.0.values@[node1 as int]@ == self@[node1 as int]);
        }
        Some(self.0.values[node1][node2])
    }

    /// The number of vertices.
    pub fn vertex_count(&self) -> (n: usize)
        ensures
            n == self.capacity(),
    {
        self.0.capacity
    }
}

} // verus!
