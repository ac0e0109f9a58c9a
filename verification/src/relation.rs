//! Pairwise relations over a finite set of indexed elements.

use vstd::prelude::*;

verus! {

/// A binary relation value `R(x, y)` that can be read from the other side:
/// `inverse(R(x, y))` is `R(y, x)`.
pub trait InvertibleRelation: Sized {
    /// The relation seen from the other element.
    spec fn inverse_spec(&self) -> Self;

    fn inverse(&self) -> (res: Self)
        ensures
            res == self.inverse_spec(),
    ;
}

/// Number of unordered pairs among `n` elements: `n * (n - 1) / 2`, and 0
/// for no element.
pub open spec fn pair_count(n: nat) -> nat
    decreases n,
{
    if n == 0 {
        0
    } else {
        (pair_count((n - 1) as nat) + (n - 1)) as nat
    }
}

/// The recursive count is the closed form.
pub proof fn lemma_pair_count_closed_form(n: nat)
    ensures
        2 * pair_count(n) == n * (n - 1),
        pair_count(n) == (n * (n - 1)) / 2,
    decreases n,
{
    if n > 0 {
        lemma_pair_count_closed_form((n - 1) as nat);
        assert(2 * (pair_count((n - 1) as nat) + (n - 1)) == n * (n - 1)) by (nonlinear_arith)
            requires
                2 * pair_count((n - 1) as nat) == (n - 1) * (n - 2),
        ;
    } else {
        assert(n * (n - 1) == 0) by (nonlinear_arith)
            requires
                n == 0,
        ;
    }
}

/// More elements have at least as many pairs.
pub proof fn lemma_pair_count_monotonic(a: nat, b: nat)
    requires
        a <= b,
    ensures
        pair_count(a) <= pair_count(b),
    decreases b,
{
    if a < b {
        lemma_pair_count_monotonic(a, (b - 1) as nat);
    }
}

/// Place of the pair `(low, high)` in the linear buffer, for `low < high`:
/// the pairs come ordered by `high`, then by `low`.
pub open spec fn pair_index(low: int, high: int) -> int {
    pair_count(high as nat) + low
}

/// Two pairs with the same place are the same pair, and the place of a
/// pair among `n` elements is below `pair_count(n)`.
pub proof fn lemma_pair_index(l1: int, h1: int, l2: int, h2: int)
    requires
        0 <= l1 < h1,
        0 <= l2 < h2,
    ensures
        pair_index(l1, h1) == pair_index(l2, h2) ==> l1 == l2 && h1 == h2,
        h1 < h2 ==> pair_index(l1, h1) < pair_index(l2, h2),
        pair_index(l1, h1) < pair_count((h1 + 1) as nat),
{
    if h1 < h2 {
        lemma_pair_count_monotonic((h1 + 1) as nat, h2 as nat);
    } else if h2 < h1 {
        lemma_pair_count_monotonic((h2 + 1) as nat, h1 as nat);
    }
}

/// Number of stored relations for `nb_elements` elements.
pub fn buffer_size(nb_elements: usize) -> (res: usize)
    requires
        pair_count(nb_elements as nat) <= usize::MAX,
    ensures
        res == pair_count(nb_elements as nat),
{
    proof {
        lemma_pair_count_closed_form(nb_elements as nat);
    }
    if nb_elements == 0 {
        0
    } else if nb_elements % 2 == 0 {
        let h: usize = nb_elements / 2;
        assert(h * (nb_elements - 1) == pair_count(nb_elements as nat)) by (nonlinear_arith)
            requires
                2 * pair_count(nb_elements as nat) == nb_elements * (nb_elements - 1),
                nb_elements == 2 * h,
        ;
        h * (nb_elements - 1)
    } else {
        let h: usize = (nb_elements - 1) / 2;
        assert(nb_elements * h == pair_count(nb_elements as nat)) by (nonlinear_arith)
            requires
                2 * pair_count(nb_elements as nat) == nb_elements * (nb_elements - 1),
                nb_elements - 1 == 2 * h,
        ;
        nb_elements * h
    }
}

/// Index of an element after the element `removed` has left: the elements
/// behind it move down by one.
pub open spec fn index_after_removal(i: int, removed: int) -> int {
    if i > removed {
        i - 1
    } else {
        i
    }
}

/// Index that an element had before the element `removed` left.
pub open spec fn index_before_removal(i: int, removed: int) -> int {
    if i >= removed {
        i + 1
    } else {
        i
    }
}

/// An antisymmetric relation over the elements `0..size`: for each ordered
/// pair an optional value, `None` on the diagonal, and the value of
/// `(j, i)` the inverse of that of `(i, j)`. One value is stored for each
/// unordered pair, in a linear buffer.
#[derive(Debug)]
pub struct RelationMatrix<T> {
    size: usize,
    array: Vec<Option<T>>,
}

impl<T: InvertibleRelation + Copy> Clone for RelationMatrix<T> {
    fn clone(&self) -> (res: Self)
        ensures
            res.same_as(self),
    {
        let mut array: Vec<Option<T>> = Vec::new();
        let n = self.array.len();
        let mut i: usize = 0;
        while i < n
            invariant
                n == self.array@.len(),
                i <= n,
                array@ == self.array@.subrange(0, i as int),
            decreases n - i,
        {
            array.push(self.array[i]);
            assert(array@ =~= self.array@.subrange(0, i + 1));
            i += 1;
        }
        assert(array@ =~= self.array@);
        RelationMatrix { size: self.size, array }
    }
}

impl<T: InvertibleRelation + Copy> RelationMatrix<T> {
    /// The buffer holds one slot for each unordered pair.
    pub closed spec fn wf(&self) -> bool {
        self.array@.len() == pair_count(self.size as nat)
    }

    /// Number of elements.
    pub closed spec fn spec_size(&self) -> nat {
        self.size as nat
    }

    /// The relation of `lhs` to `rhs`; `None` outside the matrix and on the
    /// diagonal.
    pub closed spec fn spec_get(&self, lhs: int, rhs: int) -> Option<T> {
        if 0 <= lhs < rhs < self.size {
            self.array@[pair_index(lhs, rhs)]
        } else if 0 <= rhs < lhs < self.size {
            match self.array@[pair_index(rhs, lhs)] {
                Some(r) => Some(r.inverse_spec()),
                None => None,
            }
        } else {
            None
        }
    }

    /// The two matrices have the same elements and the same relations.
    pub open spec fn same_as(&self, other: &Self) -> bool {
        &&& self.wf() == other.wf()
        &&& self.spec_size() == other.spec_size()
        &&& forall|i: int, j: int| #[trigger] self.spec_get(i, j) == other.spec_get(i, j)
    }

    /// `self` has the elements and relations of `before`, and one more
    /// element, the last, with no relation.
    pub open spec fn extends(&self, before: &Self) -> bool {
        &&& self.wf()
        &&& self.spec_size() == before.spec_size() + 1
        &&& forall|i: int, j: int|
            0 <= i < before.spec_size() && 0 <= j < before.spec_size() ==> #[trigger] self.spec_get(i, j)
                == before.spec_get(i, j)
        &&& forall|j: int|
            0 <= j < self.spec_size() ==> (#[trigger] self.spec_get(before.spec_size() as int, j)).is_none()
        &&& forall|j: int|
            0 <= j < self.spec_size() ==> (#[trigger] self.spec_get(j, before.spec_size() as int)).is_none()
    }

    /// `self` is `before` without its element `removed`: the other elements
    /// keep their relations, and those behind `removed` moved down by one.
    pub open spec fn is_removal_from(&self, before: &Self, removed: int) -> bool {
        &&& self.wf()
        &&& self.spec_size() + 1 == before.spec_size()
        &&& forall|i: int, j: int|
            0 <= i < self.spec_size() && 0 <= j < self.spec_size() ==> #[trigger] self.spec_get(i, j)
                == before.spec_get(index_before_removal(i, removed), index_before_removal(j, removed))
    }

    /// Read from the other side, a relation is its inverse.
    pub proof fn lemma_get_reversed(&self, lhs: int, rhs: int)
        requires
            lhs < rhs,
        ensures
            self.spec_get(rhs, lhs) == (match self.spec_get(lhs, rhs) {
                Some(r) => Some(r.inverse_spec()),
                None => None,
            }),
    {
    }

    /// There is no relation on the diagonal, nor outside the matrix.
    pub proof fn lemma_get_none(&self, lhs: int, rhs: int)
        requires
            lhs == rhs || !(0 <= lhs < self.spec_size()) || !(0 <= rhs < self.spec_size()),
        ensures
            self.spec_get(lhs, rhs).is_none(),
    {
    }

    /// A matrix over `size` elements with no relation.
    pub fn new(size: usize) -> (res: RelationMatrix<T>)
        requires
            pair_count(size as nat) <= usize::MAX,
        ensures
            res.wf(),
            res.spec_size() == size,
            forall|i: int, j: int| (#[trigger] res.spec_get(i, j)).is_none(),
    {
        let len = buffer_size(size);
        let mut array: Vec<Option<T>> = Vec::new();
        let mut i: usize = 0;
        while i < len
            invariant
                i <= len,
                array@.len() == i,
                forall|p: int| 0 <= p < i ==> (#[trigger] array@[p]).is_none(),
            decreases len - i,
        {
            array.push(None);
            i += 1;
        }
        let res = RelationMatrix { size, array };
        proof {
            assert forall|i: int, j: int| (#[trigger] res.spec_get(i, j)).is_none() by {
                if 0 <= i < j < size {
                    lemma_pair_index(i, j, i, j);
                    lemma_pair_count_monotonic((j + 1) as nat, size as nat);
                } else if 0 <= j < i < size {
                    lemma_pair_index(j, i, j, i);
                    lemma_pair_count_monotonic((i + 1) as nat, size as nat);
                }
            }
        }
        res
    }

    /// Number of elements.
    pub fn size(&self) -> (res: usize)
        ensures
            res == self.spec_size(),
    {
        self.size
    }

    /// Number of slots in the buffer: one for each unordered pair.
    pub fn buffer_len(&self) -> (res: usize)
        requires
            self.wf(),
        ensures
            res == pair_count(self.spec_size()),
    {
        self.array.len()
    }

    /// Place in the buffer of the pair `(low, high)`.
    pub fn linearized_index(&self, low: usize, high: usize) -> (res: usize)
        requires
            self.wf(),
            low < high,
            high < self.spec_size(),
        ensures
            res == pair_index(low as int, high as int),
            res < pair_count(self.spec_size()),
    {
        proof {
            lemma_pair_index(low as int, high as int, low as int, high as int);
            lemma_pair_count_monotonic((high + 1) as nat, self.size as nat);
            lemma_pair_count_monotonic(high as nat, (high + 1) as nat);
            assert(self.array@.len() == self.array.len());
        }
        let high_offset = buffer_size(high);
        high_offset + low
    }

    /// The relation of `lhs` to `rhs`.
    pub fn get(&self, lhs: usize, rhs: usize) -> (res: Option<T>)
        requires
            self.wf(),
            lhs != rhs ==> lhs < self.spec_size() && rhs < self.spec_size(),
        ensures
            res == self.spec_get(lhs as int, rhs as int),
    {
        if lhs < rhs {
            let index = self.linearized_index(lhs, rhs);
            self.array[index]
        } else if lhs > rhs {
            let index = self.linearized_index(rhs, lhs);
            match &self.array[index] {
                Some(r) => Some(r.inverse()),
                None => None,
            }
        } else {
            None
        }
    }

    /// Sets the relation of `lhs` to `rhs`, and with it that of `rhs` to
    /// `lhs`. Nothing changes where `lhs == rhs`.
    pub fn set(&mut self, lhs: usize, rhs: usize, relation: Option<T>)
        requires
            old(self).wf(),
            lhs != rhs ==> lhs < old(self).spec_size() && rhs < old(self).spec_size(),
        ensures
            final(self).wf(),
            final(self).spec_size() == old(self).spec_size(),
            lhs == rhs ==> final(self).same_as(old(self)),
            lhs < rhs ==> final(self).spec_get(lhs as int, rhs as int) == relation,
            lhs > rhs ==> final(self).spec_get(rhs as int, lhs as int) == (match relation {
                Some(r) => Some(r.inverse_spec()),
                None => None,
            }),
            forall|i: int, j: int|
                !(i == lhs && j == rhs) && !(i == rhs && j == lhs) ==> #[trigger] final(self).spec_get(i, j)
                    == old(self).spec_get(i, j),
    {
        if lhs < rhs {
            let index = self.linearized_index(lhs, rhs);
            self.array[index] = relation;
            proof {
                self.lemma_slot_updated(old(self), lhs as int, rhs as int);
            }
        } else if lhs > rhs {
            let index = self.linearized_index(rhs, lhs);
            self.array[index] = match relation {
                Some(r) => Some(r.inverse()),
                None => None,
            };
            proof {
                self.lemma_slot_updated(old(self), rhs as int, lhs as int);
            }
        }
    }

    /// Adds an element, the last, with no relation to the others, and
    /// returns its index.
    pub fn add_element(&mut self) -> (res: usize)
        requires
            old(self).wf(),
            pair_count((old(self).spec_size() + 1) as nat) <= usize::MAX,
        ensures
            res == old(self).spec_size(),
            final(self).extends(old(self)),
    {
        let size = self.size;
        proof {
            // From two elements on there are at least as many pairs as
            // elements but one, so the new size fits.
            if size >= 2 {
                lemma_pair_count_monotonic(2, size as nat);
                assert(pair_count(2) == 1) by {
                    reveal_with_fuel(pair_count, 3);
                }
            }
            assert(pair_count((size + 1) as nat) == pair_count(size as nat) + size);
        }
        let mut added: usize = 0;
        while added < size
            invariant
                added <= size,
                self.size == size,
                self.array@.len() == pair_count(size as nat) + added,
                pair_count((size + 1) as nat) <= usize::MAX,
                self.array@.subrange(0, pair_count(size as nat) as int) == old(self).array@,
                forall|p: int|
                    pair_count(size as nat) <= p < self.array@.len() ==> (#[trigger] self.array@[p]).is_none(),
            decreases size - added,
        {
            self.array.push(None);
            added += 1;
            assert(self.array@.subrange(0, pair_count(size as nat) as int) =~= old(self).array@);
        }
        self.size = size + 1;
        proof {
            let before = old(self);
            assert forall|i: int, j: int| 0 <= i < size && 0 <= j < size implies #[trigger] self.spec_get(i, j)
                == before.spec_get(i, j) by {
                if i < j {
                    lemma_pair_index(i, j, i, j);
                    lemma_pair_count_monotonic((j + 1) as nat, size as nat);
                    assert(self.array@[pair_index(i, j)] == self.array@.subrange(
                        0,
                        pair_count(size as nat) as int,
                    )[pair_index(i, j)]);
                } else if j < i {
                    lemma_pair_index(j, i, j, i);
                    lemma_pair_count_monotonic((i + 1) as nat, size as nat);
                    assert(self.array@[pair_index(j, i)] == self.array@.subrange(
                        0,
                        pair_count(size as nat) as int,
                    )[pair_index(j, i)]);
                }
            }
            assert forall|j: int| 0 <= j < size + 1 implies (#[trigger] self.spec_get(size as int, j)).is_none() by {
                if j < size {
                    lemma_pair_index(j, size as int, j, size as int);
                }
            }
            assert forall|j: int| 0 <= j < size + 1 implies (#[trigger] self.spec_get(j, size as int)).is_none() by {
                if j < size {
                    lemma_pair_index(j, size as int, j, size as int);
                }
            }
        }
        size
    }

    /// Removes the element `index` with all its relations. The elements
    /// behind it move down by one.
    pub fn remove_element(&mut self, index: usize)
        requires
            old(self).wf(),
            index < old(self).spec_size(),
        ensures
            final(self).is_removal_from(old(self), index as int),
    {
        let size = self.size;
        let ghost before = *self;
        let ghost k = index as int;
        proof {
            lemma_pair_count_monotonic(index as nat, size as nat);
            assert(self.array@.len() == self.array.len());
        }
        // The slots of the pairs that stay are moved down over those of the
        // pairs that leave, in the order of the buffer.
        let mut dest: usize = buffer_size(index);
        let mut high: usize = index + 1;
        while high < size
            invariant
                self.size == size,
                before.size == size,
                self.array@.len() == pair_count(size as nat),
                before.array@.len() == pair_count(size as nat),
                k == index,
                index < high <= size,
                dest == pair_count((high - 1) as nat),
                forall|l: int, h: int|
                    0 <= l < h < high - 1 ==> self.array@[#[trigger] pair_index(l, h)] == before.array@[pair_index(
                        index_before_removal(l, k),
                        index_before_removal(h, k),
                    )],
                forall|p: int| dest <= p < self.array@.len() ==> #[trigger] self.array@[p] == before.array@[p],
            decreases size - high,
        {
            let mut low: usize = 0;
            let ghost row_start = dest as int;
            while low < high
                invariant
                    self.size == size,
                    before.size == size,
                    self.array@.len() == pair_count(size as nat),
                    before.array@.len() == pair_count(size as nat),
                    k == index,
                    index < high < size,
                    low <= high,
                    row_start == pair_count((high - 1) as nat),
                    dest == row_start + index_after_removal(low as int, k),
                    forall|l: int, h: int|
                        0 <= l < h < high - 1 ==> self.array@[#[trigger] pair_index(l, h)] == before.array@[pair_index(
                            index_before_removal(l, k),
                            index_before_removal(h, k),
                        )],
                    forall|l: int|
                        0 <= l < dest - row_start ==> self.array@[#[trigger] pair_index(l, high - 1)]
                            == before.array@[pair_index(index_before_removal(l, k), high as int)],
                    forall|p: int| dest <= p < self.array@.len() ==> #[trigger] self.array@[p] == before.array@[p],
                decreases high - low,
            {
                if low != index {
                    proof {
                        lemma_pair_index(low as int, high as int, low as int, high as int);
                        lemma_pair_count_monotonic((high + 1) as nat, size as nat);
                        lemma_pair_count_monotonic(high as nat, (high + 1) as nat);
                    }
                    let src = self.linearized_index(low, high);
                    let moved = self.array[src];
                    let ghost prev = self.array@;
                    self.array[dest] = moved;
                    proof {
                        let l_new = dest - row_start;
                        assert(index_before_removal(l_new, k) == low);
                        assert(pair_index(l_new, high - 1) == dest);
                        assert forall|l: int, h: int| 0 <= l < h < high - 1 implies self.array@[#[trigger] pair_index(
                            l,
                            h,
                        )] == before.array@[pair_index(index_before_removal(l, k), index_before_removal(h, k))] by {
                            lemma_pair_index(l, h, l_new, high - 1);
                            assert(self.array@[pair_index(l, h)] == prev[pair_index(l, h)]);
                        }
                        assert forall|l: int| 0 <= l < l_new + 1 implies self.array@[#[trigger] pair_index(
                            l,
                            high - 1,
                        )] == before.array@[pair_index(index_before_removal(l, k), high as int)] by {
                            if l < l_new {
                                assert(self.array@[pair_index(l, high - 1)] == prev[pair_index(l, high - 1)]);
                            }
                        }
                    }
                    dest += 1;
                }
                low += 1;
            }
            proof {
                assert(dest == pair_count(high as nat));
                assert forall|l: int, h: int| 0 <= l < h < high implies self.array@[#[trigger] pair_index(l, h)]
                    == before.array@[pair_index(index_before_removal(l, k), index_before_removal(h, k))] by {
                    if h == high - 1 {
                        assert(index_before_removal(h, k) == high);
                    }
                }
            }
            high += 1;
        }
        self.size = size - 1;
        self.array.truncate(dest);
        proof {
            assert forall|i: int, j: int| 0 <= i < self.spec_size() && 0 <= j < self.spec_size() implies #[trigger] self.spec_get(
                i,
                j,
            ) == before.spec_get(index_before_removal(i, k), index_before_removal(j, k)) by {
                if i < j {
                    lemma_pair_index(i, j, i, j);
                    lemma_pair_count_monotonic((j + 1) as nat, (size - 1) as nat);
                } else if j < i {
                    lemma_pair_index(j, i, j, i);
                    lemma_pair_count_monotonic((i + 1) as nat, (size - 1) as nat);
                }
            }
        }
    }

    /// After a change of the one slot of the pair `(low, high)` every other
    /// pair reads as before.
    proof fn lemma_slot_updated(&self, before: &Self, low: int, high: int)
        requires
            before.wf(),
            0 <= low < high < before.size,
            self.size == before.size,
            self.array@ == before.array@.update(pair_index(low, high), self.array@[pair_index(low, high)]),
        ensures
            forall|i: int, j: int|
                !(i == low && j == high) && !(i == high && j == low) ==> #[trigger] self.spec_get(i, j)
                    == before.spec_get(i, j),
    {
        lemma_pair_index(low, high, low, high);
        lemma_pair_count_monotonic((high + 1) as nat, self.size as nat);
        assert forall|i: int, j: int| !(i == low && j == high) && !(i == high && j == low) implies #[trigger] self.spec_get(
            i,
            j,
        ) == before.spec_get(i, j) by {
            if 0 <= i < j < self.size {
                lemma_pair_index(i, j, low, high);
                lemma_pair_count_monotonic((j + 1) as nat, self.size as nat);
            } else if 0 <= j < i < self.size {
                lemma_pair_index(j, i, low, high);
                lemma_pair_count_monotonic((i + 1) as nat, self.size as nat);
            }
        }
    }
}

/// In the forest `parents` every element points to itself, then a root,
/// or to an element of lower index.
pub open spec fn parents_decrease(parents: Seq<usize>) -> bool {
    forall|i: int| 0 <= i < parents.len() ==> #[trigger] parents[i] <= i
}

/// The root of the tree of `i` in the forest `parents`.
pub open spec fn root_of(parents: Seq<usize>, i: int) -> int
    decreases i,
{
    if 0 <= i < parents.len() && parents[i] < i {
        root_of(parents, parents[i] as int)
    } else {
        i
    }
}

proof fn lemma_root_is_root(parents: Seq<usize>, i: int)
    requires
        parents_decrease(parents),
        0 <= i < parents.len(),
    ensures
        0 <= root_of(parents, i) <= i,
        parents[root_of(parents, i)] == root_of(parents, i),
    decreases i,
{
    if parents[i] < i {
        lemma_root_is_root(parents, parents[i] as int);
    }
}

/// Hanging the root `hi` under the root `lo` moves the elements of the
/// tree of `hi` to that of `lo`, and no other.
proof fn lemma_root_after_union(parents: Seq<usize>, hi: int, lo: int, i: int)
    requires
        parents_decrease(parents),
        0 <= lo < hi < parents.len(),
        parents[hi] == hi,
        parents[lo] == lo,
        0 <= i < parents.len(),
    ensures
        root_of(parents.update(hi, lo as usize), i) == (if root_of(parents, i) == hi {
            lo
        } else {
            root_of(parents, i)
        }),
    decreases i,
{
    let joined = parents.update(hi, lo as usize);
    if i == hi {
        assert(joined[hi] == lo);
        assert(root_of(joined, lo) == lo);
    } else if parents[i] < i {
        lemma_root_after_union(parents, hi, lo, parents[i] as int);
    }
}

fn get_representative(parents: &Vec<usize>, i: usize) -> (res: usize)
    requires
        parents_decrease(parents@),
        i < parents@.len(),
    ensures
        res == root_of(parents@, i as int),
        res <= i,
        parents@[res as int] == res,
{
    let mut result = i;
    loop
        invariant
            parents_decrease(parents@),
            result <= i,
            i < parents@.len(),
            root_of(parents@, result as int) == root_of(parents@, i as int),
        decreases result,
    {
        let parent = parents[result];
        if parent == result {
            return result;
        }
        result = parent;
    }
}

impl<T: InvertibleRelation + Copy> RelationMatrix<T> {
    /// The elements `i` and `j` have a relation.
    pub open spec fn linked(&self, i: int, j: int) -> bool {
        0 <= i < self.spec_size() && 0 <= j < self.spec_size() && self.spec_get(i, j).is_some()
    }

    /// `path` is a walk in the matrix: each of its elements has a relation
    /// to the next.
    pub open spec fn is_path(&self, path: Seq<int>) -> bool {
        &&& path.len() > 0
        &&& forall|k: int| 0 <= k < path.len() ==> 0 <= #[trigger] path[k] < self.spec_size()
        &&& forall|k: int| 0 <= k < path.len() - 1 ==> self.linked(#[trigger] path[k], path[k + 1])
    }

    /// A walk leads from `a` to `b`.
    pub open spec fn connected(&self, a: int, b: int) -> bool {
        exists|path: Seq<int>| #[trigger] self.is_path(path) && path.first() == a && path.last() == b
    }

    /// From every element a walk leads to every other.
    pub open spec fn spec_is_single_connected_component(&self) -> bool {
        forall|a: int, b: int|
            0 <= a < self.spec_size() && 0 <= b < self.spec_size() ==> #[trigger] self.connected(a, b)
    }

    /// A relation can be walked both ways.
    pub proof fn lemma_linked_symmetric(&self, i: int, j: int)
        requires
            self.linked(i, j),
        ensures
            self.linked(j, i),
    {
    }

    /// Every element is connected to itself.
    pub proof fn lemma_connected_reflexive(&self, a: int)
        requires
            0 <= a < self.spec_size(),
        ensures
            self.connected(a, a),
    {
        let path = seq![a];
        assert(self.is_path(path));
        assert(path.first() == a && path.last() == a);
    }

    /// Two elements with a relation are connected.
    pub proof fn lemma_connected_linked(&self, a: int, b: int)
        requires
            self.linked(a, b),
        ensures
            self.connected(a, b),
    {
        let path = seq![a, b];
        assert(self.is_path(path));
        assert(path.first() == a && path.last() == b);
    }

    /// A walk can be walked backward.
    pub proof fn lemma_connected_symmetric(&self, a: int, b: int)
        requires
            self.connected(a, b),
        ensures
            self.connected(b, a),
    {
        let path = choose|path: Seq<int>| #[trigger] self.is_path(path) && path.first() == a && path.last() == b;
        let back = Seq::new(path.len(), |k: int| path[path.len() - 1 - k]);
        assert forall|k: int| 0 <= k < back.len() - 1 implies self.linked(#[trigger] back[k], back[k + 1]) by {
            let m = path.len() - 2 - k;
            assert(self.linked(path[m], path[m + 1]));
            self.lemma_linked_symmetric(path[m], path[m + 1]);
        }
        assert(self.is_path(back));
        assert(back.first() == b && back.last() == a);
    }

    /// A walk can go on with another.
    pub proof fn lemma_connected_transitive(&self, a: int, b: int, c: int)
        requires
            self.connected(a, b),
            self.connected(b, c),
        ensures
            self.connected(a, c),
    {
        let first = choose|path: Seq<int>| #[trigger] self.is_path(path) && path.first() == a && path.last() == b;
        let second = choose|path: Seq<int>| #[trigger] self.is_path(path) && path.first() == b && path.last() == c;
        let rest = second.subrange(1, second.len() as int);
        let whole = first + rest;
        assert forall|k: int| 0 <= k < whole.len() - 1 implies self.linked(#[trigger] whole[k], whole[k + 1]) by {
            if k < first.len() - 1 {
                assert(self.linked(first[k], first[k + 1]));
            } else if k == first.len() - 1 {
                assert(whole[k] == second[0]);
                assert(whole[k + 1] == second[1]);
                assert(self.linked(second[0int], second[0int + 1]));
            } else {
                let m = k - first.len() + 1;
                assert(whole[k] == second[m]);
                assert(whole[k + 1] == second[m + 1]);
                assert(self.linked(second[m], second[m + 1]));
            }
        }
        assert forall|k: int| 0 <= k < whole.len() implies 0 <= #[trigger] whole[k] < self.spec_size() by {
            if k >= first.len() {
                assert(whole[k] == second[k - first.len() + 1]);
            }
        }
        assert(self.is_path(whole));
        assert(whole.first() == a);
        if rest.len() == 0 {
            assert(whole.last() == first.last());
        } else {
            assert(whole.last() == second.last());
        }
        assert(whole.first() == a && whole.last() == c);
    }

    /// A labelling of the elements that is the same on both ends of every
    /// relation is the same on both ends of every walk.
    pub proof fn lemma_labels_along_path(&self, labels: Seq<int>, path: Seq<int>, k: int)
        requires
            self.is_path(path),
            labels.len() == self.spec_size(),
            forall|i: int, j: int| #[trigger] self.linked(i, j) ==> labels[i] == labels[j],
            0 <= k < path.len(),
        ensures
            labels[path[k]] == labels[path[0]],
        decreases k,
    {
        if k > 0 {
            self.lemma_labels_along_path(labels, path, k - 1);
            assert(self.linked(path[k - 1], path[k - 1 + 1]));
        }
    }

    /// Whether all the elements are connected by relations: from each a
    /// walk leads to each other. So it is for no element and for one.
    pub fn is_single_connected_component(&self) -> (res: bool)
        requires
            self.wf(),
        ensures
            res == self.spec_is_single_connected_component(),
    {
        let n = self.size;
        // A forest over the elements: each points to itself or to an
        // element of lower index, and the elements of a tree are connected.
        let mut representatives: Vec<usize> = Vec::new();
        let mut i: usize = 0;
        while i < n
            invariant
                i <= n,
                representatives@.len() == i,
                forall|j: int| 0 <= j < i ==> #[trigger] representatives@[j] == j,
            decreases n - i,
        {
            representatives.push(i);
            i += 1;
        }
        proof {
            assert forall|j: int| 0 <= j < n implies self.connected(j, #[trigger] root_of(representatives@, j)) by {
                self.lemma_connected_reflexive(j);
            }
        }
        let mut rhs: usize = 1;
        while rhs < n
            invariant
                self.wf(),
                n == self.spec_size(),
                1 <= rhs,
                n > 0 ==> rhs <= n,
                representatives@.len() == n,
                parents_decrease(representatives@),
                forall|j: int| 0 <= j < n ==> self.connected(j, #[trigger] root_of(representatives@, j)),
                forall|l: int, r: int|
                    0 <= l < r < rhs && r < n && #[trigger] self.linked(l, r) ==> root_of(representatives@, l)
                        == root_of(representatives@, r),
            decreases n - rhs,
        {
            let mut lhs: usize = 0;
            while lhs < rhs
                invariant
                    self.wf(),
                    n == self.spec_size(),
                    lhs <= rhs < n,
                    representatives@.len() == n,
                    parents_decrease(representatives@),
                    forall|j: int| 0 <= j < n ==> self.connected(j, #[trigger] root_of(representatives@, j)),
                    forall|l: int, r: int|
                        0 <= l < r && (r < rhs || (r == rhs && l < lhs)) && #[trigger] self.linked(l, r) ==> root_of(
                            representatives@,
                            l,
                        ) == root_of(representatives@, r),
                decreases rhs - lhs,
            {
                if self.get(lhs, rhs).is_some() {
                    let a = get_representative(&representatives, lhs);
                    let b = get_representative(&representatives, rhs);
                    if a != b {
                        let hi = if a > b { a } else { b };
                        let lo = if a > b { b } else { a };
                        let ghost before = representatives@;
                        representatives[hi] = lo;
                        proof {
                            // The two roots are connected through the relation.
                            self.lemma_connected_linked(lhs as int, rhs as int);
                            self.lemma_connected_symmetric(lhs as int, a as int);
                            self.lemma_connected_transitive(a as int, lhs as int, rhs as int);
                            self.lemma_connected_transitive(a as int, rhs as int, b as int);
                            self.lemma_connected_symmetric(a as int, b as int);
                            assert(self.connected(hi as int, lo as int));
                            assert forall|j: int| 0 <= j < n implies root_of(representatives@, j) == (if root_of(
                                before,
                                j,
                            ) == hi {
                                lo as int
                            } else {
                                root_of(before, j)
                            }) by {
                                lemma_root_after_union(before, hi as int, lo as int, j);
                            }
                            assert forall|j: int| 0 <= j < n implies self.connected(
                                j,
                                #[trigger] root_of(representatives@, j),
                            ) by {
                                assert(self.connected(j, root_of(before, j)));
                                if root_of(before, j) == hi {
                                    self.lemma_connected_transitive(j, hi as int, lo as int);
                                }
                            }
                        }
                    }
                }
                lhs += 1;
            }
            rhs += 1;
        }
        // One tree holds all the elements if each has the root 0.
        let mut output: usize = 0;
        while output < n
            invariant
                self.wf(),
                n == self.spec_size(),
                output <= n,
                representatives@.len() == n,
                parents_decrease(representatives@),
                forall|j: int| 0 <= j < n ==> self.connected(j, #[trigger] root_of(representatives@, j)),
                forall|l: int, r: int|
                    0 <= l < r < n && #[trigger] self.linked(l, r) ==> root_of(representatives@, l) == root_of(
                        representatives@,
                        r,
                    ),
                forall|j: int| 0 <= j < output ==> #[trigger] root_of(representatives@, j) == 0,
            decreases n - output,
        {
            if get_representative(&representatives, output) != 0 {
                proof {
                    let roots = Seq::new(n as nat, |j: int| root_of(representatives@, j));
                    assert forall|i: int, j: int| #[trigger] self.linked(i, j) implies roots[i] == roots[j] by {
                        if i < j {
                        } else if j < i {
                            self.lemma_linked_symmetric(i, j);
                        }
                    }
                    if self.connected(output as int, 0) {
                        let path = choose|path: Seq<int>| #[trigger]
                            self.is_path(path) && path.first() == output && path.last() == 0;
                        self.lemma_labels_along_path(roots, path, path.len() - 1);
                        lemma_root_is_root(representatives@, 0);
                        assert(false);
                    }
                }
                return false;
            }
            output += 1;
        }
        proof {
            assert forall|a: int, b: int| 0 <= a < n && 0 <= b < n implies #[trigger] self.connected(a, b) by {
                assert(self.connected(a, root_of(representatives@, a)));
                assert(self.connected(b, root_of(representatives@, b)));
                self.lemma_connected_symmetric(b, 0);
                self.lemma_connected_transitive(a, 0, b);
            }
        }
        true
    }
}

impl<T: InvertibleRelation + Copy> RelationMatrix<T> {
    /// The relation of `j` to `i` is the inverse of that of `i` to `j`.
    /// Read from the element of higher index this takes a relation whose
    /// inverse, taken twice, gives it back.
    pub proof fn lemma_get_antisymmetric(&self, i: int, j: int)
        requires
            i != j,
            i > j ==> (match self.spec_get(j, i) {
                Some(r) => r.inverse_spec().inverse_spec() == r,
                None => true,
            }),
        ensures
            self.spec_get(j, i) == (match self.spec_get(i, j) {
                Some(r) => Some(r.inverse_spec()),
                None => None,
            }),
    {
    }

    /// Removing the element `k` and then adding an element gives a matrix
    /// of the same size, in which the elements other than `k` have kept
    /// their relations, under their new indices, and the last element has
    /// none.
    pub proof fn lemma_remove_then_add(before: &Self, without: &Self, restored: &Self, k: int)
        requires
            0 <= k < before.spec_size(),
            without.is_removal_from(before, k),
            restored.extends(without),
        ensures
            restored.wf(),
            restored.spec_size() == before.spec_size(),
            forall|i: int, j: int|
                0 <= i < before.spec_size() && 0 <= j < before.spec_size() && i != k && j != k
                    ==> restored.spec_get(index_after_removal(i, k), index_after_removal(j, k))
                    == #[trigger] before.spec_get(i, j),
            forall|j: int|
                0 <= j < restored.spec_size() ==> (#[trigger] restored.spec_get(restored.spec_size() - 1, j)).is_none(),
            forall|j: int|
                0 <= j < restored.spec_size() ==> (#[trigger] restored.spec_get(j, restored.spec_size() - 1)).is_none(),
    {
        assert forall|i: int, j: int|
            0 <= i < before.spec_size() && 0 <= j < before.spec_size() && i != k && j != k implies restored.spec_get(
            index_after_removal(i, k),
            index_after_removal(j, k),
        ) == #[trigger] before.spec_get(i, j) by {
            let a = index_after_removal(i, k);
            let b = index_after_removal(j, k);
            assert(index_before_removal(a, k) == i);
            assert(index_before_removal(b, k) == j);
            assert(restored.spec_get(a, b) == without.spec_get(a, b));
        }
    }

    /// No element, or one, makes one connected component.
    pub proof fn lemma_few_elements_connected(&self)
        requires
            self.spec_size() <= 1,
        ensures
            self.spec_is_single_connected_component(),
    {
        assert forall|a: int, b: int|
            0 <= a < self.spec_size() && 0 <= b < self.spec_size() implies #[trigger] self.connected(a, b) by {
            self.lemma_connected_reflexive(a);
        }
    }

    /// Elements that can be labelled so that every relation joins two
    /// elements of one label, and that do not all have one label, do not
    /// make one connected component. So it is for two pairs of elements
    /// with a relation inside each pair and none between them.
    pub proof fn lemma_separated_not_connected(&self, labels: Seq<int>, a: int, b: int)
        requires
            labels.len() == self.spec_size(),
            forall|i: int, j: int| #[trigger] self.linked(i, j) ==> labels[i] == labels[j],
            0 <= a < self.spec_size(),
            0 <= b < self.spec_size(),
            labels[a] != labels[b],
        ensures
            !self.spec_is_single_connected_component(),
    {
        if self.connected(a, b) {
            let path = choose|path: Seq<int>| #[trigger] self.is_path(path) && path.first() == a && path.last() == b;
            self.lemma_labels_along_path(labels, path, path.len() - 1);
        }
    }

    /// Along a chain the first element is connected to every other.
    proof fn lemma_chain_from_first(&self, i: int)
        requires
            forall|e: int| 0 <= e < self.spec_size() - 1 ==> #[trigger] self.linked(e, e + 1),
            0 <= i < self.spec_size(),
        ensures
            self.connected(0, i),
        decreases i,
    {
        if i == 0 {
            self.lemma_connected_reflexive(0);
        } else {
            self.lemma_chain_from_first(i - 1);
            assert(self.linked(i - 1, i - 1 + 1));
            self.lemma_connected_linked(i - 1, i);
            self.lemma_connected_transitive(0, i - 1, i);
        }
    }

    /// Elements of which each has a relation to the next make one
    /// connected component; so does a cycle, which is such a chain with a
    /// relation of the last element to the first.
    pub proof fn lemma_chain_connected(&self)
        requires
            forall|e: int| 0 <= e < self.spec_size() - 1 ==> #[trigger] self.linked(e, e + 1),
        ensures
            self.spec_is_single_connected_component(),
    {
        assert forall|a: int, b: int|
            0 <= a < self.spec_size() && 0 <= b < self.spec_size() implies #[trigger] self.connected(a, b) by {
            self.lemma_chain_from_first(a);
            self.lemma_chain_from_first(b);
            self.lemma_connected_symmetric(0, a);
            self.lemma_connected_transitive(a, 0, b);
        }
    }
}

} // verus!
