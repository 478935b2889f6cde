use vstd::prelude::*;
use vstd::relations::injective_on;
use vstd::set_lib::{lemma_map_size, lemma_set_disjoint_lens};

verus! {

/// `splits` is a valid set of cut positions for cutting a sequence of length `len`
/// into `n` non-empty parts: `n - 1` strictly increasing positions in `[1, len - 1]`.
pub open spec fn valid_splits(splits: Seq<usize>, len: nat, n: nat) -> bool {
    &&& 1 <= n <= len
    &&& splits.len() + 1 == n
    &&& forall|j: int| 0 <= j < splits.len() ==> 1 <= #[trigger] splits[j] < len
    &&& forall|i: int, j: int| 0 <= i < j < splits.len() ==> splits[i] < splits[j]
}

/// `s` comes strictly before `t` in lexicographic order (sequences of one length).
pub open spec fn lex_lt(s: Seq<usize>, t: Seq<usize>) -> bool {
    exists|k: int|
        0 <= k < s.len() && k < t.len() && s[k] < t[k] && forall|j: int|
            0 <= j < k ==> s[j] == t[j]
}

/// Start of part `k` under `splits` (the end of the last part is `len`).
pub open spec fn part_bound(splits: Seq<usize>, len: nat, k: int) -> int {
    if k <= 0 {
        0
    } else if k <= splits.len() {
        splits[k - 1] as int
    } else {
        len as int
    }
}

/// The parts into which `splits` cuts `items`, in order.
pub open spec fn parts_of<T>(items: Seq<T>, splits: Seq<usize>) -> Seq<Seq<T>> {
    Seq::new(
        (splits.len() + 1) as nat,
        |k: int|
            items.subrange(
                part_bound(splits, items.len(), k),
                part_bound(splits, items.len(), k + 1),
            ),
    )
}

/// The contents of a sequence of slices.
pub open spec fn slices_view<T>(v: Seq<&[T]>) -> Seq<Seq<T>> {
    v.map_values(|x: &[T]| x@)
}

/// Cuts a sequence into a given number of contiguous parts.
pub trait ContiguousPartitionExt {
    type Item;

    spec fn elements(&self) -> Seq<Self::Item>;

    /// All ways to cut `self` into `n` contiguous non-empty parts; `None` unless
    /// `1 <= n <= len`.
    fn contiguous_partitions(&self, n: usize) -> (r: Option<ContiguousPartitions<'_, Self::Item>>)
        ensures
            r is Some <==> 1 <= n <= self.elements().len(),
            r matches Some(p) ==> {
                &&& p.wf()
                &&& p.items() == self.elements()
                &&& p.parts() == n
                &&& forall|u: Seq<usize>| valid_splits(u, self.elements().len(), n as nat) ==> !p.done(u)
            },
    ;
}

impl<T> ContiguousPartitionExt for [T] {
    type Item = T;

    open spec fn elements(&self) -> Seq<T> {
        self@
    }

    fn contiguous_partitions(&self, n: usize) -> (r: Option<ContiguousPartitions<'_, T>>) {
        ContiguousPartitions::new(self, n)
    }
}

/// The partitions of a sequence into `n` contiguous non-empty parts, handed out one at
/// a time in lexicographic order of their cut positions.
pub struct ContiguousPartitions<'a, T> {
    items: &'a [T],
    n: usize,
    split_indices: Vec<usize>,
    finished: bool,
}

impl<'a, T> ContiguousPartitions<'a, T> {
    /// The sequence being cut.
    pub closed spec fn items(&self) -> Seq<T> {
        self.items@
    }

    /// The number of parts of each partition.
    pub closed spec fn parts(&self) -> nat {
        self.n as nat
    }

    /// The cut positions of the partition that is handed out next.
    pub closed spec fn splits(&self) -> Seq<usize> {
        self.split_indices@
    }

    /// Every partition has been handed out.
    pub closed spec fn is_finished(&self) -> bool {
        self.finished
    }

    /// The current cut positions are valid ones.
    pub open spec fn wf(&self) -> bool {
        valid_splits(self.splits(), self.items().len(), self.parts())
    }

    /// The partition cut at `u` has already been handed out.
    pub open spec fn done(&self, u: Seq<usize>) -> bool {
        self.is_finished() || lex_lt(u, self.splits())
    }

    pub fn new(items: &'a [T], n: usize) -> (r: Option<Self>)
        ensures
            r is Some <==> 1 <= n <= items@.len(),
            r matches Some(p) ==> {
                &&& p.wf()
                &&& p.items() == items@
                &&& p.parts() == n
                &&& forall|u: Seq<usize>| valid_splits(u, items@.len(), n as nat) ==> !p.done(u)
            },
    {
        let len = items.len();
        if n == 0 || n > len {
            return None;
        }
        let mut split_indices: Vec<usize> = Vec::new();
        let mut k: usize = 1;
        while k < n
            invariant
                1 <= k <= n <= len,
                split_indices@.len() == k - 1,
                forall|j: int| 0 <= j < split_indices@.len() ==> split_indices@[j] == j + 1,
            decreases n - k,
        {
            split_indices.push(k);
            k = k + 1;
        }
        let r = Self { items, n, split_indices, finished: false };
        assert forall|u: Seq<usize>| valid_splits(u, items@.len(), n as nat) implies !r.done(u) by {
            if lex_lt(u, r.splits()) {
                let k = choose|k: int|
                    0 <= k < u.len() && k < r.splits().len() && u[k] < r.splits()[k] && forall|
                        j: int,
                    | 0 <= j < k ==> u[j] == r.splits()[j];
                lemma_prefix_fixed(u, k);
            }
        }
        Some(r)
    }

    /// The partition cut at the current positions.
    fn build_partition(&self) -> (r: Vec<&'a [T]>)
        requires
            self.wf(),
        ensures
            slices_view(r@) == parts_of(self.items(), self.splits()),
    {
        if self.n == 1 {
            let r = vec![self.items];
            assert(self.items@.subrange(0, self.items@.len() as int) =~= self.items@);
            assert(slices_view(r@) =~= parts_of(self.items(), self.splits()));
            return r;
        }
        let ghost splits = self.split_indices@;
        let ghost len = self.items@.len();
        let mut result: Vec<&'a [T]> = Vec::with_capacity(self.n);
        let mut start: usize = 0;
        let mut k: usize = 0;
        while k < self.split_indices.len()
            invariant
                self.wf(),
                splits == self.split_indices@,
                len == self.items@.len(),
                k <= splits.len(),
                start == part_bound(splits, len, k as int),
                result@.len() == k,
                forall|j: int|
                    0 <= j < k ==> (#[trigger] result@[j])@ == parts_of(self.items@, splits)[j],
            decreases splits.len() - k,
        {
            let split = self.split_indices[k];
            result.push(&self.items[start..split]);
            start = split;
            k = k + 1;
        }
        result.push(&self.items[start..self.items.len()]);
        assert(slices_view(result@) =~= parts_of(self.items(), self.splits()));
        result
    }

    /// Moves to the next cut positions in lexicographic order; `false`, and nothing
    /// changed, when the current ones are the last.
    fn advance(&mut self) -> (moved: bool)
        requires
            old(self).wf(),
        ensures
            final(self).wf(),
            final(self).items() == old(self).items(),
            final(self).parts() == old(self).parts(),
            final(self).is_finished() == old(self).is_finished(),
            moved ==> lex_successor(old(self).splits(), final(self).splits(), old(self).items().len(), old(self).parts()),
            !moved ==> final(self).splits() == old(self).splits() && is_lex_last(old(self).splits(), old(self).items().len(), old(self).parts()),
    {
        if self.n <= 1 {
            proof {
                lemma_single_part_last(self.split_indices@, self.items@.len());
            }
            return false;
        }
        let len = self.items.len();
        let ghost s = self.split_indices@;
        let m = self.split_indices.len();
        let mut i: usize = m;
        assert(s[0] >= 1);
        while i > 0
            invariant
                self.split_indices@ == s,
                old(self).split_indices@ == s,
                self.items == old(self).items,
                self.n == old(self).n,
                self.finished == old(self).finished,
                self.n >= 2,
                len >= 2,
                valid_splits(s, len as nat, self.n as nat),
                self.n as nat == m + 1,
                len == self.items@.len(),
                m == s.len(),
                i <= m,
                forall|j: int| i <= j < m ==> #[trigger] s[j] == len - m + j,
            decreases i,
        {
            i = i - 1;
            let max = if i + 1 < m {
                self.split_indices[i + 1] - 1
            } else {
                len - 1
            };
            if self.split_indices[i] < max {
                let bumped = self.split_indices[i] + 1;
                self.split_indices.set(i, bumped);
                let mut j: usize = i + 1;
                while j < m
                    invariant
                        old(self).split_indices@ == s,
                        self.items == old(self).items,
                        self.n == old(self).n,
                        self.finished == old(self).finished,
                        i < j <= m,
                        m == s.len(),
                        self.split_indices@.len() == m,
                        forall|k: int| 0 <= k < i ==> self.split_indices@[k] == s[k],
                        self.split_indices@[i as int] == s[i as int] + 1,
                        forall|k: int| i < k < j ==> self.split_indices@[k] == s[i as int] + 1 + (k - i),
                        s[i as int] + (m - i) < len,
                    decreases m - j,
                {
                    let v = self.split_indices[j - 1] + 1;
                    self.split_indices.set(j, v);
                    j = j + 1;
                }
                proof {
                    lemma_bump_is_successor(s, self.split_indices@, len as nat, i as int);
                }
                return true;
            }
        }
        proof {
            lemma_top_is_last(s, len as nat);
        }
        false
    }

    /// The next partition, in lexicographic order of cut positions; `None` once all
    /// have been handed out. Each partition is handed out exactly once.
    pub fn next(&mut self) -> (r: Option<Vec<&'a [T]>>)
        requires
            old(self).wf(),
        ensures
            final(self).wf(),
            final(self).items() == old(self).items(),
            final(self).parts() == old(self).parts(),
            r is None <==> old(self).is_finished(),
            r matches Some(p) ==> slices_view(p@) == parts_of(old(self).items(), old(self).splits()),
            old(self).is_finished() ==> *final(self) == *old(self),
            !old(self).is_finished() ==> !final(self).is_finished() ==> lex_lt(old(self).splits(), final(self).splits()),
            forall|u: Seq<usize>|
                valid_splits(u, old(self).items().len(), old(self).parts()) ==> (final(self).done(u) <==> (old(self).done(u) || (!old(self).is_finished() && u == old(self).splits()))),
    {
        if self.finished {
            return None;
        }
        let ghost before = *self;
        let partition = self.build_partition();
        if !self.advance() {
            self.finished = true;
            proof {
                assert forall|u: Seq<usize>|
                    valid_splits(u, before.items().len(), before.parts()) implies (self.done(u) <==> (before.done(u) || u == before.splits())) by {
                    if u != before.splits() {
                        lemma_lex_total(u, before.splits());
                    }
                }
            }
        } else {
            proof {
                assert forall|u: Seq<usize>|
                    valid_splits(u, before.items().len(), before.parts()) implies (self.done(u) <==> (before.done(u) || u == before.splits())) by {
                    lemma_successor_step(before.splits(), self.splits(), u, before.items().len(), before.parts());
                }
            }
        }
        Some(partition)
    }
}

/// The parts of a valid cut are non-empty and concatenate back to the sequence.
pub proof fn lemma_parts_rebuild<T>(items: Seq<T>, u: Seq<usize>, n: nat)
    requires
        valid_splits(u, items.len(), n),
    ensures
        parts_of(items, u).len() == n,
        forall|k: int| 0 <= k < n ==> (#[trigger] parts_of(items, u)[k]).len() > 0,
        parts_of(items, u).flatten() == items,
{
    let ps = parts_of(items, u);
    let len = items.len();
    assert forall|k: int| 0 <= k < n implies (#[trigger] ps[k]).len() > 0 by {
        if 0 < k < n - 1 {
            assert(u[k - 1] < u[k]);
        }
        assert(part_bound(u, len, k) < part_bound(u, len, k + 1));
    }
    lemma_parts_prefix(items, u, n, n);
    assert(ps.subrange(0, n as int) =~= ps);
    assert(items.subrange(0, len as int) =~= items);
}

proof fn lemma_parts_prefix<T>(items: Seq<T>, u: Seq<usize>, n: nat, k: nat)
    requires
        valid_splits(u, items.len(), n),
        k <= n,
    ensures
        parts_of(items, u).subrange(0, k as int).flatten() == items.subrange(
            0,
            part_bound(u, items.len(), k as int),
        ),
    decreases k,
{
    let ps = parts_of(items, u);
    let len = items.len();
    if k == 0 {
        assert(ps.subrange(0, 0) =~= Seq::<Seq<T>>::empty());
        assert(items.subrange(0, 0) =~= Seq::<T>::empty());
    } else {
        lemma_parts_prefix(items, u, n, (k - 1) as nat);
        let front = ps.subrange(0, k - 1);
        assert(ps.subrange(0, k as int) =~= front.push(ps[k - 1]));
        front.lemma_flatten_push(ps[k - 1]);
        assert(0 <= part_bound(u, len, k - 1) <= part_bound(u, len, k as int) <= len);
        assert(items.subrange(0, part_bound(u, len, k - 1)) + items.subrange(
            part_bound(u, len, k - 1),
            part_bound(u, len, k as int),
        ) =~= items.subrange(0, part_bound(u, len, k as int)));
    }
}

/// Different valid cuts give different partitions.
pub proof fn lemma_parts_distinct<T>(items: Seq<T>, u: Seq<usize>, w: Seq<usize>, n: nat)
    requires
        valid_splits(u, items.len(), n),
        valid_splits(w, items.len(), n),
        u != w,
    ensures
        parts_of(items, u) != parts_of(items, w),
{
    let len = items.len();
    lemma_lex_total(u, w);
    let (a, b) = if lex_lt(u, w) {
        (u, w)
    } else {
        (w, u)
    };
    let k = choose|k: int|
        0 <= k < a.len() && k < b.len() && a[k] < b[k] && forall|j: int| 0 <= j < k ==> a[j] == b[j];
    assert(part_bound(a, len, k) == part_bound(b, len, k));
    assert(parts_of(items, a)[k].len() != parts_of(items, b)[k].len());
}

/// Cutting into one part gives the whole sequence as the one partition.
pub proof fn lemma_one_part<T>(items: Seq<T>, u: Seq<usize>)
    requires
        valid_splits(u, items.len(), 1),
    ensures
        u == Seq::<usize>::empty(),
        parts_of(items, u) == seq![items],
{
    assert(u =~= Seq::<usize>::empty());
    assert(items.subrange(0, items.len() as int) =~= items);
    assert(parts_of(items, u) =~= seq![items]);
}

/// Cutting into as many parts as there are items gives the singletons as the one
/// partition.
pub proof fn lemma_all_parts<T>(items: Seq<T>, u: Seq<usize>)
    requires
        valid_splits(u, items.len(), items.len()),
    ensures
        forall|j: int| 0 <= j < u.len() ==> #[trigger] u[j] == j + 1,
        parts_of(items, u) == Seq::new(items.len(), |k: int| seq![items[k]]),
{
    lemma_spacing(u, items.len(), items.len());
    assert forall|k: int| 0 <= k < items.len() implies #[trigger] parts_of(items, u)[k] =~= seq![items[k]] by {
        assert(part_bound(u, items.len(), k) == k);
        assert(part_bound(u, items.len(), k + 1) == k + 1);
    }
    assert(parts_of(items, u) =~= Seq::new(items.len(), |k: int| seq![items[k]]));
}

/// The valid cuts of a sequence of length `len` into `n` parts.
pub open spec fn cut_set(len: nat, n: nat) -> Set<Seq<usize>> {
    Set::new(|u: Seq<usize>| valid_splits(u, len, n))
}

/// The number of ways to choose `k` of `m` things.
pub open spec fn binomial(m: nat, k: nat) -> nat
    decreases m,
{
    if k == 0 {
        1
    } else if m == 0 {
        0
    } else {
        binomial((m - 1) as nat, (k - 1) as nat) + binomial((m - 1) as nat, k)
    }
}

/// A sequence of length `len` can be cut into `n` contiguous non-empty parts in exactly
/// `binomial(len - 1, n - 1)` ways.
pub proof fn lemma_cut_count(len: nat, n: nat)
    requires
        1 <= len <= usize::MAX,
        1 <= n,
    ensures
        cut_set(len, n).finite(),
        cut_set(len, n).len() == binomial((len - 1) as nat, (n - 1) as nat),
    decreases len,
{
    if n == 1 {
        assert forall|u: Seq<usize>| #[trigger] cut_set(len, 1).contains(u) <==> u == Seq::<
            usize,
        >::empty() by {
            if u.len() == 0 {
                assert(u =~= Seq::<usize>::empty());
            }
        }
        assert(cut_set(len, 1) =~= set![Seq::<usize>::empty()]);
    } else if len == 1 {
        assert(cut_set(len, n) =~= Set::<Seq<usize>>::empty());
    } else {
        let last = (len - 1) as usize;
        let a = cut_set((len - 1) as nat, n);
        let w = cut_set((len - 1) as nat, (n - 1) as nat);
        let f = |x: Seq<usize>| x.push(last);
        let b = w.map(f);
        lemma_cut_count((len - 1) as nat, n);
        lemma_cut_count((len - 1) as nat, (n - 1) as nat);
        assert(injective_on(f, w)) by {
            assert forall|x: Seq<usize>, y: Seq<usize>|
                w.contains(x) && w.contains(y) && #[trigger] f(x) == #[trigger] f(y) implies x == y by {
                assert(x =~= f(x).drop_last());
                assert(y =~= f(y).drop_last());
            }
        }
        lemma_map_size(w, b, f);
        assert forall|u: Seq<usize>| #[trigger] cut_set(len, n).contains(u) <==> (a + b).contains(u) by {
            if valid_splits(u, len, n) {
                lemma_spacing(u, len, n);
                if u[n - 2] < last {
                    assert(valid_splits(u, (len - 1) as nat, n));
                } else {
                    let x = u.drop_last();
                    assert(valid_splits(x, (len - 1) as nat, (n - 1) as nat));
                    assert(u =~= f(x));
                    assert(w.contains(x));
                }
            }
            if b.contains(u) {
                let x = choose|x: Seq<usize>| w.contains(x) && u == f(x);
                assert(valid_splits(u, len, n));
            }
        }
        assert(cut_set(len, n) =~= a + b);
        assert(a.disjoint(b)) by {
            assert forall|u: Seq<usize>| a.contains(u) implies !b.contains(u) by {
                if b.contains(u) {
                    let x = choose|x: Seq<usize>| w.contains(x) && u == f(x);
                    assert(u[n - 2] == last);
                }
            }
        }
        lemma_set_disjoint_lens(a, b);
    }
}

/// `t` is the valid cut sequence that directly follows `s` in lexicographic order.
pub open spec fn lex_successor(s: Seq<usize>, t: Seq<usize>, len: nat, n: nat) -> bool {
    &&& valid_splits(t, len, n)
    &&& lex_lt(s, t)
    &&& forall|u: Seq<usize>| valid_splits(u, len, n) ==> !(lex_lt(s, u) && lex_lt(u, t))
}

/// No valid cut sequence comes after `s`.
pub open spec fn is_lex_last(s: Seq<usize>, len: nat, n: nat) -> bool {
    forall|u: Seq<usize>| valid_splits(u, len, n) ==> !lex_lt(s, u)
}

/// Valid cuts keep their distance: each is at least its index past the first, and leaves
/// room for the ones after it.
proof fn lemma_spacing(u: Seq<usize>, len: nat, n: nat)
    requires
        valid_splits(u, len, n),
    ensures
        forall|i: int, j: int| 0 <= i <= j < u.len() ==> u[j] >= u[i] + (j - i),
        forall|j: int| 0 <= j < u.len() ==> #[trigger] u[j] <= len - u.len() + j,
        forall|j: int| 0 <= j < u.len() ==> #[trigger] u[j] >= j + 1,
{
    assert forall|i: int, j: int| 0 <= i <= j < u.len() implies u[j] >= u[i] + (j - i) by {
        lemma_spacing_from(u, len, n, i, j);
    }
    assert forall|j: int| 0 <= j < u.len() implies #[trigger] u[j] <= len - u.len() + j by {
        lemma_spacing_from(u, len, n, j, u.len() - 1);
    }
    assert forall|j: int| 0 <= j < u.len() implies #[trigger] u[j] >= j + 1 by {
        lemma_spacing_from(u, len, n, 0, j);
    }
}

proof fn lemma_spacing_from(u: Seq<usize>, len: nat, n: nat, i: int, j: int)
    requires
        valid_splits(u, len, n),
        0 <= i <= j < u.len(),
    ensures
        u[j] >= u[i] + (j - i),
    decreases j - i,
{
    if i < j {
        lemma_spacing_from(u, len, n, i, j - 1);
        assert(u[j - 1] < u[j]);
    }
}

/// Nothing valid comes before the cuts `1, 2, ..., k` at the first differing place.
proof fn lemma_prefix_fixed(u: Seq<usize>, k: int)
    requires
        0 <= k < u.len(),
        u[k] < k + 1,
    ensures
        forall|len: nat, n: nat| !valid_splits(u, len, n),
{
    assert forall|len: nat, n: nat| !valid_splits(u, len, n) by {
        if valid_splits(u, len, n) {
            lemma_spacing(u, len, n);
        }
    }
}

proof fn lemma_single_part_last(s: Seq<usize>, len: nat)
    requires
        valid_splits(s, len, 1),
    ensures
        is_lex_last(s, len, 1),
{
}

proof fn lemma_top_is_last(s: Seq<usize>, len: nat)
    requires
        valid_splits(s, len, s.len() + 1),
        forall|j: int| 0 <= j < s.len() ==> #[trigger] s[j] == len - s.len() + j,
    ensures
        is_lex_last(s, len, s.len() + 1),
{
    assert forall|u: Seq<usize>| valid_splits(u, len, s.len() + 1) implies !lex_lt(s, u) by {
        lemma_spacing(u, len, s.len() + 1);
    }
}

proof fn lemma_bump_is_successor(s: Seq<usize>, t: Seq<usize>, len: nat, i: int)
    requires
        valid_splits(s, len, s.len() + 1),
        0 <= i < s.len(),
        t.len() == s.len(),
        forall|j: int| i < j < s.len() ==> #[trigger] s[j] == len - s.len() + j,
        forall|k: int| 0 <= k < i ==> t[k] == s[k],
        t[i] == s[i] + 1,
        forall|k: int| i < k < s.len() ==> t[k] == s[i] + 1 + (k - i),
        s[i] + (s.len() - i) < len,
    ensures
        lex_successor(s, t, len, s.len() + 1),
{
    let n = s.len() + 1;
    lemma_spacing(s, len, n);
    assert(lex_lt(s, t));
    assert forall|u: Seq<usize>| valid_splits(u, len, n) implies !(lex_lt(s, u) && lex_lt(u, t)) by {
        if lex_lt(s, u) && lex_lt(u, t) {
            lemma_spacing(u, len, n);
            let k = choose|k: int|
                0 <= k < s.len() && k < u.len() && s[k] < u[k] && forall|j: int|
                    0 <= j < k ==> s[j] == u[j];
            let k2 = choose|k2: int|
                0 <= k2 < u.len() && k2 < t.len() && u[k2] < t[k2] && forall|j: int|
                    0 <= j < k2 ==> u[j] == t[j];
            if k < i {
                if k2 < k {
                    assert(u[k2] == s[k2]);
                } else if k2 > k {
                    assert(u[k] == t[k]);
                }
            } else if k == i {
                if k2 < i {
                    assert(u[k2] == s[k2]);
                } else if k2 > i {
                    assert(u[i] == t[i]);
                    assert(u[k2] >= u[i] + (k2 - i));
                }
            } else {
                assert(u[k] <= len - u.len() + k);
            }
        }
    }
}

/// Stepping from `s` to its successor `t` marks exactly `s` as handed out.
proof fn lemma_successor_step(s: Seq<usize>, t: Seq<usize>, u: Seq<usize>, len: nat, n: nat)
    requires
        valid_splits(s, len, n),
        valid_splits(u, len, n),
        lex_successor(s, t, len, n),
    ensures
        lex_lt(u, t) <==> (lex_lt(u, s) || u == s),
{
    if lex_lt(u, s) {
        lemma_lex_trans(u, s, t);
    }
    if u == s {
    }
    if lex_lt(u, t) && !lex_lt(u, s) && u != s {
        lemma_lex_total(u, s);
    }
}

pub proof fn lemma_lex_trans(a: Seq<usize>, b: Seq<usize>, c: Seq<usize>)
    requires
        a.len() == b.len() == c.len(),
        lex_lt(a, b),
        lex_lt(b, c),
    ensures
        lex_lt(a, c),
{
    let k1 = choose|k: int|
        0 <= k < a.len() && k < b.len() && a[k] < b[k] && forall|j: int| 0 <= j < k ==> a[j] == b[j];
    let k2 = choose|k: int|
        0 <= k < b.len() && k < c.len() && b[k] < c[k] && forall|j: int| 0 <= j < k ==> b[j] == c[j];
    let k = if k1 < k2 {
        k1
    } else {
        k2
    };
    assert(a[k] < c[k]);
    assert(forall|j: int| 0 <= j < k ==> a[j] == c[j]);
}

pub proof fn lemma_lex_total(a: Seq<usize>, b: Seq<usize>)
    requires
        a.len() == b.len(),
        a != b,
    ensures
        lex_lt(a, b) || lex_lt(b, a),
{
    assert(!(a =~= b));
    let d = choose|d: int| 0 <= d < a.len() && a[d] != b[d];
    lemma_first_difference(a, b, d);
}

proof fn lemma_first_difference(a: Seq<usize>, b: Seq<usize>, d: int)
    requires
        a.len() == b.len(),
        0 <= d < a.len(),
        a[d] != b[d],
    ensures
        lex_lt(a, b) || lex_lt(b, a),
    decreases d,
{
    if forall|j: int| 0 <= j < d ==> a[j] == b[j] {
        if a[d] < b[d] {
            assert(lex_lt(a, b));
        } else {
            assert(lex_lt(b, a));
        }
    } else {
        let e = choose|e: int| 0 <= e < d && a[e] != b[e];
        lemma_first_difference(a, b, e);
    }
}

} // verus!
