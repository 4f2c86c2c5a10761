use vstd::prelude::*;

use crate::index::{IndexError, TimedIndex, TimelessIndex, TracingIndex};

verus! {

/// One arena entry: a value and the version at which it was created.
#[derive(Debug, Clone, PartialEq)]
pub struct Trace<X> {
    pub val: X,
    pub birth: usize,
}

/// A vector that keeps its history.
///
/// Every value ever inserted stays in an append-only arena, where its position
/// never changes. Each version of the vector is an ordering: the sequence of
/// arena positions that make up its content. Appending at the end extends the
/// latest ordering in place; every other structural edit records a new one.
#[derive(Debug, Clone, PartialEq)]
pub struct TracingVec<X> {
    mem: Vec<Trace<X>>,
    snapshots: Vec<Vec<usize>>,
}

/// No arena position occurs twice in `s`.
pub open spec fn distinct(s: Seq<usize>) -> bool {
    forall|i: int, j: int| 0 <= i < s.len() && 0 <= j < s.len() && i != j ==> s[i] != s[j]
}

/// Every arena position in `s` is below `n`.
pub open spec fn bounded(s: Seq<usize>, n: int) -> bool {
    forall|i: int| 0 <= i < s.len() ==> s[i] < n
}

/// The position at which arena position `p` occurs in `s`.
pub open spec fn position_of(s: Seq<usize>, p: usize) -> int {
    choose|i: int| 0 <= i < s.len() && s[i] == p
}

proof fn lemma_insert_fresh(s: Seq<usize>, i: int, n: int)
    requires
        distinct(s),
        bounded(s, n),
        0 <= i <= s.len(),
        0 <= n <= usize::MAX,
    ensures
        distinct(s.insert(i, n as usize)),
        bounded(s.insert(i, n as usize), n + 1),
        s.insert(i, n as usize)[i] == n,
{
    let t = s.insert(i, n as usize);
    assert forall|a: int, b: int| 0 <= a < t.len() && 0 <= b < t.len() && a != b implies t[a] != t[b] by {
        if a != i && b != i {
            let a0 = if a < i { a } else { a - 1 };
            let b0 = if b < i { b } else { b - 1 };
            assert(t[a] == s[a0] && t[b] == s[b0]);
        } else if a == i {
            let b0 = if b < i { b } else { b - 1 };
            assert(t[b] == s[b0]);
        } else {
            let a0 = if a < i { a } else { a - 1 };
            assert(t[a] == s[a0]);
        }
    }
}

proof fn lemma_remove_entry(s: Seq<usize>, i: int, n: int)
    requires
        distinct(s),
        bounded(s, n),
        0 <= i < s.len(),
    ensures
        distinct(s.remove(i)),
        bounded(s.remove(i), n),
        !s.remove(i).contains(s[i]),
        forall|p: usize| s.remove(i).contains(p) ==> #[trigger] s.contains(p),
{
    let t = s.remove(i);
    assert forall|a: int| 0 <= a < t.len() implies t[a] == s[if a < i { a } else { a + 1 }] by {}
    assert forall|p: usize| t.contains(p) implies #[trigger] s.contains(p) by {
        let a = choose|a: int| 0 <= a < t.len() && t[a] == p;
        assert(s[if a < i { a } else { a + 1 }] == p);
    }
    if t.contains(s[i]) {
        let a = choose|a: int| 0 <= a < t.len() && t[a] == s[i];
        assert(s[if a < i { a } else { a + 1 }] == s[i]);
    }
}

/// An arena of `n` entries born at `births`, under the version chain
/// `versions`, is consistent: the chain is never empty, it and each ordering
/// fit in a `usize`, every ordering names
/// only arena entries, none of them twice, and no entry was born after the
/// last version.
pub open spec fn well_laid_out(n: nat, births: Seq<usize>, versions: Seq<Seq<usize>>) -> bool {
    &&& 1 <= versions.len() <= usize::MAX
    &&& forall|v: int| 0 <= v < versions.len() ==> #[trigger] versions[v].len() <= usize::MAX
    &&& births.len() == n
    &&& forall|v: int| 0 <= v < versions.len() ==> bounded(#[trigger] versions[v], n as int)
    &&& forall|v: int| 0 <= v < versions.len() ==> distinct(#[trigger] versions[v])
    &&& forall|p: int| 0 <= p < births.len() ==> #[trigger] births[p] < versions.len()
}

/// The positions from `a` up to, not including, `b`.
pub open spec fn gap(a: int, b: int) -> Seq<usize> {
    Seq::new(if b > a { (b - a) as nat } else { 0 }, |i: int| (a + i) as usize)
}

/// The anchor candidates of a batched removal of the positions `ps`, given in
/// the caller's order: the first position, then, for each later one, the
/// positions that lie between it and the one given before it.
pub open spec fn anchor_candidates(ps: Seq<usize>) -> Seq<usize>
    decreases ps.len(),
{
    if ps.len() <= 1 {
        ps
    } else {
        anchor_candidates(ps.drop_last()) + gap(ps[ps.len() - 2] + 1, ps.last() as int)
    }
}

/// `s` without the entries at the positions in `ps`.
pub open spec fn without_positions(s: Seq<usize>, ps: Seq<usize>) -> Seq<usize>
    decreases s.len(),
{
    if s.len() == 0 {
        s
    } else if ps.contains((s.len() - 1) as usize) {
        without_positions(s.drop_last(), ps)
    } else {
        without_positions(s.drop_last(), ps).push(s.last())
    }
}

/// `without_positions` keeps no repeats, drops exactly the listed entries and
/// keeps the others.
proof fn lemma_without_positions(s: Seq<usize>, ps: Seq<usize>)
    requires
        distinct(s),
    ensures
        distinct(without_positions(s, ps)),
        forall|p: usize| #[trigger] without_positions(s, ps).contains(p) <==> (exists|i: int|
            0 <= i < s.len() && s[i] == p && !ps.contains(i as usize)),
    decreases s.len(),
{
    if s.len() > 0 {
        let t = s.drop_last();
        assert(distinct(t));
        lemma_without_positions(t, ps);
        let w = without_positions(t, ps);
        assert forall|p: usize| #[trigger] without_positions(s, ps).contains(p) <==> (exists|i: int|
            0 <= i < s.len() && s[i] == p && !ps.contains(i as usize)) by {
            if without_positions(s, ps).contains(p) {
                if w.contains(p) {
                    let i = choose|i: int| 0 <= i < t.len() && t[i] == p && !ps.contains(i as usize);
                    assert(s[i] == p);
                } else {
                    let k = choose|k: int| 0 <= k < without_positions(s, ps).len() && without_positions(s, ps)[k] == p;
                    if k < w.len() {
                        assert(w[k] == p);
                    }
                    assert(s[s.len() - 1] == p);
                }
            }
            if exists|i: int| 0 <= i < s.len() && s[i] == p && !ps.contains(i as usize) {
                let i = choose|i: int| 0 <= i < s.len() && s[i] == p && !ps.contains(i as usize);
                if i < s.len() - 1 {
                    assert(t[i] == p);
                    assert(w.contains(p));
                    if !ps.contains((s.len() - 1) as usize) {
                        let k = choose|k: int| 0 <= k < w.len() && w[k] == p;
                        assert(w.push(s.last())[k] == p);
                    }
                } else {
                    assert(w.push(s.last())[w.len() as int] == p);
                }
            }
        }
        if !ps.contains((s.len() - 1) as usize) {
            let n = w.push(s.last());
            if w.contains(s.last()) {
                let i = choose|i: int| 0 <= i < t.len() && t[i] == s.last() && !ps.contains(i as usize);
                assert(s[i] == s[s.len() - 1]);
            }
            assert forall|a: int, b: int| 0 <= a < n.len() && 0 <= b < n.len() && a != b implies n[a]
                != n[b] by {
                if a == w.len() {
                    assert(w.contains(n[b]));
                } else if b == w.len() {
                    assert(w.contains(n[a]));
                }
            }
        }
    }
}

/// The first place in `ps` whose position an earlier place already holds.
pub open spec fn first_repeat(ps: Seq<usize>) -> Option<int>
    decreases ps.len(),
{
    if ps.len() == 0 {
        None
    } else {
        match first_repeat(ps.drop_last()) {
            Some(j) => Some(j),
            None => if ps.drop_last().contains(ps.last()) {
                Some(ps.len() - 1)
            } else {
                None
            },
        }
    }
}

/// Once a prefix of `ps` holds a repeat, the first repeat of `ps` is that one.
proof fn lemma_first_repeat_prefix(ps: Seq<usize>, n: int)
    requires
        0 <= n <= ps.len(),
        first_repeat(ps.take(n)) is Some,
    ensures
        first_repeat(ps) == first_repeat(ps.take(n)),
    decreases ps.len() - n,
{
    if n < ps.len() {
        assert(ps.take(n + 1).drop_last() =~= ps.take(n));
        lemma_first_repeat_prefix(ps, n + 1);
    } else {
        assert(ps.take(n) =~= ps);
    }
}

/// `a`, or `n` where `a` lies past it.
pub open spec fn clamp(a: int, n: int) -> int {
    if a <= n {
        a
    } else {
        n
    }
}

/// In a sequence without repeats, an entry's position is the one it stands at.
proof fn lemma_position_of(s: Seq<usize>, i: int)
    requires
        distinct(s),
        0 <= i < s.len(),
    ensures
        position_of(s, s[i]) == i,
        s.contains(s[i]),
{
    assert(s[i] == s[i]);
}

impl<X> TracingVec<X> {
    /// The values of the arena, by arena position.
    pub closed spec fn arena(&self) -> Seq<X> {
        self.mem@.map_values(|t: Trace<X>| t.val)
    }

    /// The version at which each arena entry was created, by arena position.
    pub closed spec fn births(&self) -> Seq<usize> {
        self.mem@.map_values(|t: Trace<X>| t.birth)
    }

    /// The version chain: the ordering recorded at each pseudotime.
    pub closed spec fn versions(&self) -> Seq<Seq<usize>> {
        self.snapshots@.map_values(|s: Vec<usize>| s@)
    }

    /// The current version number.
    pub open spec fn now(&self) -> int {
        self.versions().len() - 1
    }

    /// The latest ordering.
    pub open spec fn current(&self) -> Seq<usize> {
        self.versions().last()
    }

    /// The values of the latest ordering, in order.
    pub open spec fn latest_values(&self) -> Seq<X> {
        self.current().map_values(|p: usize| self.arena()[p as int])
    }

    /// The version chain is never empty, it and each ordering fit in a
    /// `usize`, every ordering names only arena
    /// entries, none of them twice, and no entry was born after the present.
    pub open spec fn wf(&self) -> bool {
        &&& 1 <= self.versions().len() <= usize::MAX
        &&& forall|v: int| 0 <= v < self.versions().len() ==> #[trigger] self.versions()[v].len()
            <= usize::MAX
        &&& self.births().len() == self.arena().len()
        &&& forall|v: int| 0 <= v < self.versions().len() ==> bounded(
            #[trigger] self.versions()[v],
            self.arena().len() as int,
        )
        &&& forall|v: int| 0 <= v < self.versions().len() ==> distinct(#[trigger] self.versions()[v])
        &&& forall|p: int| 0 <= p < self.births().len() ==> #[trigger] self.births()[p] <= self.now()
    }

    /// Whether arena position `p` is in the latest ordering.
    pub open spec fn alive(&self, p: usize) -> bool {
        self.current().contains(p)
    }

    /// The arena position that a coordinate names, or why it names none.
    pub open spec fn resolve(&self, index: TracingIndex) -> Result<usize, IndexError> {
        match index {
            TracingIndex::Timed(t) => if t.pseudotime >= self.versions().len() {
                Err(IndexError::VersionDoesNotExist(t))
            } else if t.pos >= self.versions()[t.pseudotime as int].len() {
                Err(IndexError::IndexOutOfBounds(t))
            } else {
                Ok(self.versions()[t.pseudotime as int][t.pos as int])
            },
            TracingIndex::Timeless(t) => if t.pos < self.arena().len() {
                Ok(t.pos)
            } else {
                Err(IndexError::DataDoesNotExist(t))
            },
        }
    }

    /// Where the entry that a coordinate names stands in the latest ordering,
    /// or why it stands nowhere.
    pub open spec fn current_position(&self, index: TracingIndex) -> Result<usize, IndexError> {
        match self.resolve(index) {
            Err(e) => Err(e),
            Ok(p) => if self.alive(p) {
                Ok(position_of(self.current(), p) as usize)
            } else {
                Err(IndexError::DataAlreadyDead(TimelessIndex { pos: p }))
            },
        }
    }

    /// `later` is a state that this one can turn into by the vector's
    /// operations: earlier orderings are kept, the latest one only grows at its
    /// end, the arena only grows and births are kept, and an entry that is
    /// dead stays dead.
    pub open spec fn evolves_to(&self, later: &Self) -> bool {
        &&& later.versions().len() >= self.versions().len()
        &&& forall|v: int| 0 <= v < self.now() ==> #[trigger] later.versions()[v] == self.versions()[v]
        &&& self.current().is_prefix_of(later.versions()[self.now()])
        &&& self.arena().len() <= later.arena().len()
        &&& self.births().is_prefix_of(later.births())
        &&& forall|p: usize| #![trigger later.alive(p)]
            p < self.arena().len() && !self.alive(p) ==> !later.alive(p)
    }

    /// Every value that this state stores is stored unchanged in `later`:
    /// no value was written in place.
    pub open spec fn keeps_values(&self, later: &Self) -> bool {
        self.arena().is_prefix_of(later.arena())
    }

    /// Wraps each value as an arena entry born at version 0, in order.
    fn traces_of(values: Vec<X>) -> (r: Vec<Trace<X>>)
        ensures
            r@.map_values(|t: Trace<X>| t.val) == values@,
            r@.map_values(|t: Trace<X>| t.birth) == Seq::new(values@.len(), |i: int| 0usize),
    {
        let ghost orig = values@;
        let ghost n = values@.len();
        let mut values = values;
        let mut reversed: Vec<X> = Vec::new();
        while values.len() > 0
            invariant
                values@.len() + reversed@.len() == n,
                forall|k: int| 0 <= k < values@.len() ==> values@[k] == orig[k],
                forall|k: int| 0 <= k < reversed@.len() ==> reversed@[k] == orig[n - 1 - k],
            decreases values@.len(),
        {
            let val = values.pop().unwrap();
            reversed.push(val);
        }
        let mut r: Vec<Trace<X>> = Vec::new();
        while reversed.len() > 0
            invariant
                r@.len() + reversed@.len() == n,
                forall|k: int| #![trigger r@[k]] 0 <= k < r@.len() ==> r@[k].val == orig[k] && r@[k].birth == 0,
                forall|k: int| 0 <= k < reversed@.len() ==> reversed@[k] == orig[n - 1 - k],
            decreases reversed@.len(),
        {
            let val = reversed.pop().unwrap();
            r.push(Trace { val, birth: 0 });
        }
        assert(r@.map_values(|t: Trace<X>| t.val) =~= orig);
        let ghost bs = r@.map_values(|t: Trace<X>| t.birth);
        assert forall|k: int| 0 <= k < n implies #[trigger] bs[k] == 0usize by {
            assert(r@[k].birth == 0);
        }
        assert(bs =~= Seq::new(n, |i: int| 0usize));
        r
    }

    /// A vector whose first version holds `values`, in order.
    pub fn from_vec(values: Vec<X>) -> (r: Self)
        ensures
            r.wf(),
            r.arena() == values@,
            r.births() == Seq::new(values@.len(), |i: int| 0usize),
            r.versions() == seq![Seq::new(values@.len(), |i: int| i as usize)],
    {
        let n = values.len();
        let mem = Self::traces_of(values);
        let mut ordering: Vec<usize> = Vec::new();
        let mut i: usize = 0;
        while i < n
            invariant
                i <= n,
                ordering@ == Seq::new(i as nat, |k: int| k as usize),
            decreases n - i,
        {
            ordering.push(i);
            i += 1;
            assert(ordering@ =~= Seq::new(i as nat, |k: int| k as usize));
        }
        let r = TracingVec { mem, snapshots: vec![ordering] };
        assert(r.versions() =~= seq![Seq::new(n as nat, |k: int| k as usize)]);
        r
    }

    /// A vector over the arena `mem`, whose entries count as born at version
    /// 0, and the version chain `snapshots`. The caller vouches that the two
    /// are consistent.
    pub fn from_raw_parts(mem: Vec<X>, snapshots: Vec<Vec<usize>>) -> (r: Self)
        requires
            well_laid_out(
                mem@.len(),
                Seq::new(mem@.len(), |i: int| 0usize),
                snapshots@.map_values(|s: Vec<usize>| s@),
            ),
        ensures
            r.wf(),
            r.arena() == mem@,
            r.births() == Seq::new(mem@.len(), |i: int| 0usize),
            r.versions() == snapshots@.map_values(|s: Vec<usize>| s@),
    {
        TracingVec { snapshots, mem: Self::traces_of(mem) }
    }

    /// The arena and the version chain, as they are stored.
    pub fn into_parts(self) -> (r: (Vec<Trace<X>>, Vec<Vec<usize>>))
        ensures
            r.0@.map_values(|t: Trace<X>| t.val) == self.arena(),
            r.0@.map_values(|t: Trace<X>| t.birth) == self.births(),
            r.1@.map_values(|s: Vec<usize>| s@) == self.versions(),
    {
        (self.mem, self.snapshots)
    }

    /// A vector over the arena `mem` and the version chain `snapshots`, if
    /// they are consistent.
    pub fn from_parts(mem: Vec<Trace<X>>, snapshots: Vec<Vec<usize>>) -> (r: Option<Self>)
        ensures
            r is Some <==> well_laid_out(
                mem@.len(),
                mem@.map_values(|t: Trace<X>| t.birth),
                snapshots@.map_values(|s: Vec<usize>| s@),
            ),
            r is Some ==> {
                &&& r->Some_0.arena() == mem@.map_values(|t: Trace<X>| t.val)
                &&& r->Some_0.births() == mem@.map_values(|t: Trace<X>| t.birth)
                &&& r->Some_0.versions() == snapshots@.map_values(|s: Vec<usize>| s@)
            },
    {
        let ghost births = mem@.map_values(|t: Trace<X>| t.birth);
        let ghost versions = snapshots@.map_values(|s: Vec<usize>| s@);
        let n = mem.len();
        if snapshots.len() == 0 {
            return None;
        }
        let mut p: usize = 0;
        while p < n
            invariant
                n == mem@.len(),
                births == mem@.map_values(|t: Trace<X>| t.birth),
                p <= n,
                forall|q: int| 0 <= q < p ==> #[trigger] births[q] < snapshots@.len(),
            decreases n - p,
        {
            if mem[p].birth >= snapshots.len() {
                assert(births[p as int] >= snapshots@.len());
                return None;
            }
            p += 1;
        }
        let count = snapshots.len();
        let mut v: usize = 0;
        while v < snapshots.len()
            invariant
                n == mem@.len(),
                count == snapshots@.len(),
                versions == snapshots@.map_values(|s: Vec<usize>| s@),
                v <= snapshots@.len(),
                forall|w: int| 0 <= w < v ==> (#[trigger] versions[w]).len() <= usize::MAX,
                forall|w: int| 0 <= w < v ==> bounded(#[trigger] versions[w], n as int),
                forall|w: int| 0 <= w < v ==> distinct(#[trigger] versions[w]),
            decreases snapshots@.len() - v,
        {
            let ordering = &snapshots[v];
            assert(ordering@ == versions[v as int]);
            let _ = ordering.len();
            let mut seen: Vec<bool> = Vec::new();
            while seen.len() < n
                invariant
                    seen@.len() <= n,
                    forall|q: int| 0 <= q < seen@.len() ==> !seen@[q],
                decreases n - seen@.len(),
            {
                seen.push(false);
            }
            let mut i: usize = 0;
            while i < ordering.len()
                invariant
                    seen@.len() == n,
                    n == mem@.len(),
                    versions == snapshots@.map_values(|s: Vec<usize>| s@),
                    v < snapshots@.len(),
                    ordering@ == versions[v as int],
                    i <= ordering@.len(),
                    bounded(ordering@.take(i as int), n as int),
                    distinct(ordering@.take(i as int)),
                    forall|q: int| 0 <= q < n ==> seen@[q] == ordering@.take(i as int).contains(
                        q as usize,
                    ),
                decreases ordering@.len() - i,
            {
                let q = ordering[i];
                if q >= n {
                    assert(!bounded(versions[v as int], n as int));
                    return None;
                }
                if seen[q] {
                    proof {
                        let k = choose|k: int| 0 <= k < i && ordering@.take(i as int)[k] == q;
                        assert(ordering@[k] == ordering@[i as int]);
                        assert(!distinct(versions[v as int]));
                    }
                    return None;
                }
                let ghost before = ordering@.take(i as int);
                let ghost seen_before = seen@;
                seen.set(q, true);
                proof {
                    let after = ordering@.take(i as int + 1);
                    assert(after =~= before.push(q));
                    assert forall|a: int, b: int| 0 <= a < after.len() && 0 <= b < after.len() && a
                        != b implies after[a] != after[b] by {
                        if a == i {
                            assert(before.contains(after[b]) || b == i);
                        } else if b == i {
                            assert(before.contains(after[a]));
                        }
                    }
                    assert forall|r: int| 0 <= r < n implies seen@[r] == after.contains(
                        r as usize,
                    ) by {
                        assert(after[i as int] == q);
                        if r != q {
                            assert(seen@[r] == seen_before[r]);
                            assert(seen_before[r] == before.contains(r as usize));
                        }
                        if after.contains(r as usize) && r != q {
                            let k = choose|k: int| 0 <= k < after.len() && after[k] == r as usize;
                            assert(before[k] == r as usize);
                        }
                        if before.contains(r as usize) {
                            let k = choose|k: int| 0 <= k < before.len() && before[k] == r as usize;
                            assert(after[k] == r as usize);
                        }
                    }
                }
                i += 1;
            }
            assert(ordering@.take(i as int) =~= ordering@);
            v += 1;
        }
        let r = TracingVec { mem, snapshots };
        assert(r.versions() == versions);
        Some(r)
    }

    /// An empty vector: an empty arena and one empty version.
    pub fn new() -> (r: Self)
        ensures
            r.wf(),
            r.arena() == Seq::<X>::empty(),
            r.versions() == seq![Seq::<usize>::empty()],
    {
        let r = TracingVec { mem: Vec::new(), snapshots: vec![Vec::new()] };
        assert(r.versions() =~= seq![Seq::<usize>::empty()]);
        assert(r.arena() =~= Seq::<X>::empty());
        r
    }

    fn pseudotime(&self) -> (r: usize)
        requires
            self.wf(),
        ensures
            r == self.now(),
    {
        self.snapshots.len() - 1
    }

    fn last_obj_index(&self) -> (r: usize)
        requires
            self.mem.len() > 0,
        ensures
            r == self.arena().len() - 1,
    {
        self.mem.len() - 1
    }

    fn latest_snapshot(&self) -> (r: &Vec<usize>)
        requires
            self.wf(),
        ensures
            r@ == self.current(),
    {
        &self.snapshots[self.snapshots.len() - 1]
    }

    /// Stores a new arena entry and returns its position.
    fn store(&mut self, val: X, birth: usize) -> (r: usize)
        requires
            old(self).arena().len() < usize::MAX,
        ensures
            r == old(self).arena().len(),
            final(self).arena() == old(self).arena().push(val),
            final(self).births() == old(self).births().push(birth),
            final(self).versions() == old(self).versions(),
    {
        self.mem.push(Trace { val, birth });
        proof {
            assert(self.arena() =~= old(self).arena().push(val));
            assert(self.births() =~= old(self).births().push(birth));
            assert(self.versions() =~= old(self).versions());
        }
        self.last_obj_index()
    }

    /// Records `ordering` as a new version.
    fn record(&mut self, ordering: Vec<usize>)
        ensures
            final(self).versions() == old(self).versions().push(ordering@),
            final(self).versions().len() <= usize::MAX,
            ordering@.len() <= usize::MAX,
            final(self).arena() == old(self).arena(),
            final(self).births() == old(self).births(),
    {
        let _ = ordering.len();
        self.snapshots.push(ordering);
        let _ = self.snapshots.len();
        proof {
            assert(self.versions() =~= old(self).versions().push(ordering@));
            assert(self.arena() =~= old(self).arena());
            assert(self.births() =~= old(self).births());
        }
    }

    /// Appends `val` at the end. The latest ordering grows in place: no new
    /// version is recorded, since no earlier coordinate can be disturbed.
    pub fn push(&mut self, val: X)
        requires
            old(self).wf(),
            old(self).arena().len() < usize::MAX,
        ensures
            final(self).wf(),
            final(self).arena() == old(self).arena().push(val),
            final(self).births() == old(self).births().push(old(self).now() as usize),
            final(self).versions() == old(self).versions().update(
                old(self).now(),
                old(self).current().push(old(self).arena().len() as usize),
            ),
            final(self).now() == old(self).now(),
            final(self).latest_values() == old(self).latest_values().push(val),
            old(self).evolves_to(&*final(self)),
            old(self).keeps_values(&*final(self)),
    {
        let birth = self.pseudotime();
        let pos = self.store(val, birth);
        let mut latest = self.snapshots.pop().unwrap();
        latest.push(pos);
        let _ = latest.len();
        self.snapshots.push(latest);
        proof {
            let o = old(self).current();
            let n = o.push(pos);
            assert(self.versions() =~= old(self).versions().update(old(self).now(), n));
            lemma_insert_fresh(o, o.len() as int, pos as int);
            assert(o.insert(o.len() as int, pos) =~= n);
            assert(self.births() =~= old(self).births().push(birth));
            assert(self.latest_values() =~= old(self).latest_values().push(val));
            assert(o.is_prefix_of(n));
            assert(old(self).arena().is_prefix_of(self.arena()));
            assert(old(self).births().is_prefix_of(self.births()));
            assert forall|p: usize| #![trigger self.alive(p)]
                p < old(self).arena().len() && !old(self).alive(p) implies !self.alive(p) by {
                if self.alive(p) {
                    let i = choose|i: int| 0 <= i < n.len() && n[i] == p;
                    assert(i < o.len());
                    assert(o[i] == p);
                }
            }
        }
    }

    /// A new version `n` that holds only arena entries, none twice, and of the
    /// old entries only living ones, keeps the vector well formed and is a step
    /// of its evolution.
    proof fn lemma_new_version(&self, later: &Self, n: Seq<usize>)
        requires
            self.wf(),
            later.versions() == self.versions().push(n),
            self.arena().is_prefix_of(later.arena()),
            self.births().is_prefix_of(later.births()),
            later.births().len() == later.arena().len(),
            forall|p: int| self.births().len() <= p < later.births().len()
                ==> #[trigger] later.births()[p] <= later.now(),
            distinct(n),
            bounded(n, later.arena().len() as int),
            n.len() <= usize::MAX,
            later.versions().len() <= usize::MAX,
            forall|p: usize| #[trigger] n.contains(p) && p < self.arena().len() ==> self.alive(p),
        ensures
            later.wf(),
            self.evolves_to(later),
    {
        assert(later.current() == n);
        assert forall|v: int| 0 <= v < later.versions().len() implies bounded(
            #[trigger] later.versions()[v],
            later.arena().len() as int,
        ) by {
            if v < self.versions().len() {
                assert(later.versions()[v] == self.versions()[v]);
            }
        }
        assert forall|v: int| 0 <= v < later.versions().len() implies distinct(
            #[trigger] later.versions()[v],
        ) by {
            if v < self.versions().len() {
                assert(later.versions()[v] == self.versions()[v]);
            }
        }
        assert forall|p: int| 0 <= p < later.births().len() implies #[trigger] later.births()[p]
            <= later.now() by {
            if p < self.births().len() {
                assert(later.births()[p] == self.births()[p]);
            }
        }
        assert(later.versions()[self.now()] == self.current());
        assert forall|p: usize| #![trigger later.alive(p)]
            p < self.arena().len() && !self.alive(p) implies !later.alive(p) by {
            if later.alive(p) {
                assert(n.contains(p));
            }
        }
    }

    /// The arena position at `index.pos` of version `index.pseudotime`.
    fn val_location(&self, index: TimedIndex) -> (r: Result<usize, IndexError>)
        requires
            self.wf(),
        ensures
            r == self.resolve(TracingIndex::Timed(index)),
    {
        if index.pseudotime >= self.snapshots.len() {
            return Err(IndexError::VersionDoesNotExist(index));
        }
        let snapshot = &self.snapshots[index.pseudotime];
        if index.pos >= snapshot.len() {
            return Err(IndexError::IndexOutOfBounds(index));
        }
        Ok(snapshot[index.pos])
    }

    /// Turns a coordinate into the arena position it names.
    pub fn into_timeless(&self, index: TracingIndex) -> (r: Result<TimelessIndex, IndexError>)
        requires
            self.wf(),
        ensures
            r == (match self.resolve(index) {
                Ok(p) => Ok(TimelessIndex { pos: p }),
                Err(e) => Err(e),
            }),
            r is Ok ==> r->Ok_0.pos < self.arena().len(),
    {
        match index {
            TracingIndex::Timed(t) => match self.val_location(t) {
                Ok(pos) => Ok(TimelessIndex { pos }),
                Err(e) => Err(e),
            },
            TracingIndex::Timeless(t) => if self.mem.len() > t.pos {
                Ok(t)
            } else {
                Err(IndexError::DataDoesNotExist(t))
            },
        }
    }

    /// Whether the arena entry at `pos` is in the latest ordering.
    fn holds(&self, pos: usize) -> (r: bool)
        requires
            self.wf(),
        ensures
            r == self.alive(pos),
    {
        let latest = self.latest_snapshot();
        let mut i: usize = 0;
        while i < latest.len()
            invariant
                latest@ == self.current(),
                0 <= i <= latest.len(),
                forall|j: int| 0 <= j < i ==> latest@[j] != pos,
            decreases latest.len() - i,
        {
            if latest[i] == pos {
                assert(latest@[i as int] == pos);
                return true;
            }
            i += 1;
        }
        false
    }

    /// Whether the coordinate names an arena entry that is in the latest
    /// ordering; a coordinate that names none is not alive.
    pub fn is_alive(&self, index: TracingIndex) -> (r: bool)
        requires
            self.wf(),
        ensures
            r == (self.resolve(index) is Ok && self.alive(self.resolve(index)->Ok_0)),
    {
        match self.into_timeless(index) {
            Ok(t) => self.holds(t.pos),
            Err(_) => false,
        }
    }

    /// Whether the coordinate names an arena entry at all.
    pub fn contains(&self, index: TracingIndex) -> (r: bool)
        requires
            self.wf(),
        ensures
            r == self.resolve(index) is Ok,
    {
        self.into_timeless(index).is_ok()
    }

    /// The value at arena position `pos`, to be changed in place.
    fn value_mut(&mut self, pos: usize) -> (r: &mut X)
        requires
            old(self).wf(),
            pos < old(self).arena().len(),
        ensures
            *r == old(self).arena()[pos as int],
            final(self).arena() == old(self).arena().update(pos as int, *final(r)),
            old(self).evolves_to(&*final(self)),
            final(self).versions() == old(self).versions(),
            final(self).births() == old(self).births(),
            final(self).arena().len() == old(self).arena().len(),
            final(self).wf(),
    {
        proof {
            old(self).lemma_same_layout();
        }
        &mut self.mem[pos].val
    }

    /// The value of the arena entry that `index` names, alive or not, to be
    /// changed in place. Only that value changes.
    pub fn get_mut(&mut self, index: TracingIndex) -> (r: Result<&mut X, IndexError>)
        requires
            old(self).wf(),
        ensures
            old(self).evolves_to(&*final(self)),
            final(self).versions() == old(self).versions(),
            final(self).births() == old(self).births(),
            match old(self).resolve(index) {
                Err(e) => r == Err::<&mut X, IndexError>(e) && *final(self) == *old(self),
                Ok(p) => r is Ok && *r->Ok_0 == old(self).arena()[p as int]
                    && final(self).arena() == old(self).arena().update(p as int, *final(r->Ok_0)),
            },
            final(self).arena().len() == old(self).arena().len(),
            final(self).wf(),
    {
        match self.into_timeless(index) {
            Ok(t) => Ok(self.value_mut(t.pos)),
            Err(e) => Err(e),
        }
    }

    /// Changing arena values in place keeps the vector well formed and is a
    /// step of its evolution.
    proof fn lemma_same_layout(&self)
        requires
            self.wf(),
        ensures
            forall|m: Self|
                m.versions() == self.versions() && m.births() == self.births() && m.arena().len()
                    == self.arena().len() ==> #[trigger] m.wf(),
            forall|m: Self|
                m.versions() == self.versions() && m.births() == self.births() && m.arena().len()
                    == self.arena().len() ==> #[trigger] self.evolves_to(&m),
    {
        assert forall|m: Self|
            m.versions() == self.versions() && m.births() == self.births() && m.arena().len()
                == self.arena().len() implies #[trigger] self.evolves_to(&m) by {
            assert(self.current() =~= m.versions()[self.now()].subrange(0, self.current().len() as int));
            assert(self.births() =~= m.births().subrange(0, self.births().len() as int));
        }
        assert forall|m: Self|
            m.versions() == self.versions() && m.births() == self.births() && m.arena().len()
                == self.arena().len() implies #[trigger] m.wf() by {
            assert forall|v: int| 0 <= v < m.versions().len() implies bounded(
                #[trigger] m.versions()[v],
                m.arena().len() as int,
            ) by {
                assert(bounded(self.versions()[v], self.arena().len() as int));
            }
        }
    }

    /// The position in the latest ordering of the entry that `index` names.
    fn latest_index(&self, index: TracingIndex) -> (r: Result<usize, IndexError>)
        requires
            self.wf(),
        ensures
            r == self.current_position(index),
            r is Ok ==> r->Ok_0 < self.current().len() && self.current()[r->Ok_0 as int]
                == self.resolve(index)->Ok_0,
    {
        let t = match self.into_timeless(index) {
            Ok(t) => t,
            Err(e) => return Err(e),
        };
        let latest = self.latest_snapshot();
        assert(distinct(self.versions()[self.now()]));
        let mut i: usize = 0;
        while i < latest.len()
            invariant
                latest@ == self.current(),
                distinct(latest@),
                self.resolve(index) == Ok::<usize, IndexError>(t.pos),
                0 <= i <= latest.len(),
                forall|j: int| 0 <= j < i ==> latest@[j] != t.pos,
            decreases latest.len() - i,
        {
            if latest[i] == t.pos {
                proof {
                    lemma_position_of(latest@, i as int);
                    assert(self.alive(t.pos));
                }
                return Ok(i);
            }
            i += 1;
        }
        Err(IndexError::DataAlreadyDead(t))
    }

    /// The value of the arena entry that `index` names, alive or not.
    pub fn get(&self, index: TracingIndex) -> (r: Result<&X, IndexError>)
        requires
            self.wf(),
        ensures
            self.resolve(index) is Ok <==> r is Ok,
            r is Ok ==> *r->Ok_0 == self.arena()[self.resolve(index)->Ok_0 as int],
            r is Err ==> r->Err_0 == self.resolve(index)->Err_0,
    {
        match self.into_timeless(index) {
            Ok(t) => Ok(&self.mem[t.pos].val),
            Err(e) => Err(e),
        }
    }

    /// The current positions of the coordinates `indices`, in the given
    /// order; the first coordinate that has none decides the error.
    pub open spec fn positions_of(&self, indices: Seq<TracingIndex>) -> Result<Seq<usize>, IndexError>
        decreases indices.len(),
    {
        if indices.len() == 0 {
            Ok(Seq::empty())
        } else {
            match self.positions_of(indices.drop_last()) {
                Err(e) => Err(e),
                Ok(ps) => match self.current_position(indices.last()) {
                    Err(e) => Err(e),
                    Ok(p) => Ok(ps.push(p)),
                },
            }
        }
    }

    /// What a batched removal of `indices` resolves them to. An empty list is
    /// refused; otherwise every coordinate is resolved first, and the first
    /// that fails decides the error. When all resolve, an entry named a
    /// second time counts as already removed.
    pub open spec fn batch(&self, indices: Seq<TracingIndex>) -> Result<Seq<usize>, IndexError> {
        if indices.len() == 0 {
            Err(IndexError::NoIndicesProvided)
        } else {
            match self.positions_of(indices) {
                Err(e) => Err(e),
                Ok(ps) => match first_repeat(ps) {
                    Some(j) => Err(
                        IndexError::DataAlreadyDead(TimelessIndex { pos: self.current()[ps[j] as int] }),
                    ),
                    None => Ok(ps),
                },
            }
        }
    }

    /// The arena positions at the current positions `ps`.
    pub open spec fn entries_at(&self, ps: Seq<usize>) -> Seq<TimelessIndex> {
        ps.map_values(|p: usize| TimelessIndex { pos: self.current()[p as int] })
    }

    /// `later` is this state with `val` stored as a new entry and placed at
    /// position `p` of a new version.
    pub open spec fn inserts_at(&self, later: &Self, p: int, val: X) -> bool {
        &&& later.arena() == self.arena().push(val)
        &&& later.births() == self.births().push((self.now() + 1) as usize)
        &&& later.versions() == self.versions().push(
            self.current().insert(p, self.arena().len() as usize),
        )
    }

    /// The limits of the machine leave room for one more entry and version.
    pub open spec fn has_room(&self) -> bool {
        &&& self.arena().len() < usize::MAX
        &&& self.versions().len() < usize::MAX
    }

    /// `later` is this state after the entries at current positions `ps`
    /// were dropped from a new version and `val` was stored and placed at the
    /// anchor `a` of that version (at its end, where `a` lies past it).
    pub open spec fn replaces_at(&self, later: &Self, ps: Seq<usize>, a: int, val: X) -> bool {
        let rest = without_positions(self.current(), ps);
        &&& later.arena() == self.arena().push(val)
        &&& later.births() == self.births().push((self.now() + 1) as usize)
        &&& later.versions() == self.versions().push(
            rest.insert(clamp(a, rest.len() as int), self.arena().len() as usize),
        )
    }

    /// After a replacement the vector is well formed, each removed entry is
    /// dead and the new one alive.
    proof fn lemma_replace_step(&self, later: &Self, ps: Seq<usize>, a: int, val: X)
        requires
            self.wf(),
            self.has_room(),
            self.replaces_at(later, ps, a, val),
            a >= 0,
            later.versions().len() <= usize::MAX,
            later.current().len() <= usize::MAX,
            forall|k: int| 0 <= k < ps.len() ==> ps[k] < self.current().len(),
        ensures
            later.wf(),
            self.evolves_to(later),
            forall|k: int| 0 <= k < ps.len() ==> !later.alive(#[trigger] self.current()[ps[k] as int]),
            later.alive(self.arena().len() as usize),
    {
        let cur = self.current();
        let rest = without_positions(cur, ps);
        let at = clamp(a, rest.len() as int);
        let n = self.arena().len();
        assert(distinct(self.versions()[self.now()]));
        assert(bounded(self.versions()[self.now()], n as int));
        lemma_without_positions(cur, ps);
        assert forall|i: int| 0 <= i < rest.len() implies rest[i] < n by {
            assert(rest.contains(rest[i]));
        }
        lemma_insert_fresh(rest, at, n as int);
        let m = rest.insert(at, n as usize);
        assert forall|q: usize| #[trigger] m.contains(q) && q < n implies self.alive(q) by {
            let k = choose|k: int| 0 <= k < m.len() && m[k] == q;
            let i = if k < at { k } else { k - 1 };
            assert(rest[i] == q);
            assert(rest.contains(q));
        }
        self.lemma_new_version(later, m);
        assert forall|k: int| 0 <= k < ps.len() implies !later.alive(
            #[trigger] cur[ps[k] as int],
        ) by {
            let q = cur[ps[k] as int];
            assert(q < n);
            if later.alive(q) {
                let j = choose|j: int| 0 <= j < m.len() && m[j] == q;
                let i = if j < at { j } else { j - 1 };
                assert(rest[i] == q);
                assert(rest.contains(q));
                let w = choose|w: int| 0 <= w < cur.len() && cur[w] == q && !ps.contains(w as usize);
                assert(ps.contains(ps[k]));
            }
        }
        assert(m[at] == n);
    }

    /// Stores `val` and places it at `absolute_index` of a new version.
    fn try_insert(&mut self, absolute_index: usize, val: X) -> (r: TimedIndex)
        requires
            old(self).wf(),
            old(self).has_room(),
            absolute_index <= old(self).current().len(),
        ensures
            final(self).wf(),
            old(self).evolves_to(&*final(self)),
            old(self).keeps_values(&*final(self)),
            old(self).inserts_at(&*final(self), absolute_index as int, val),
            r == (TimedIndex { pos: absolute_index, pseudotime: (old(self).now() + 1) as usize }),
    {
        let birth = self.pseudotime() + 1;
        let mut ordering = self.latest_snapshot().clone();
        assert(ordering@ =~= old(self).current());
        let pos = self.store(val, birth);
        ordering.insert(absolute_index, pos);
        self.record(ordering);
        proof {
            lemma_insert_fresh(old(self).current(), absolute_index as int, pos as int);
            let n = ordering@;
            assert forall|q: usize| #[trigger] n.contains(q) && q < old(self).arena().len() implies old(
                self,
            ).alive(q) by {
                let k = choose|k: int| 0 <= k < n.len() && n[k] == q;
                if k < absolute_index {
                    assert(old(self).current()[k] == q);
                } else if k > absolute_index {
                    assert(old(self).current()[k - 1] == q);
                }
            }
            old(self).lemma_new_version(&*self, n);
        }
        TimedIndex { pos: absolute_index, pseudotime: birth }
    }

    /// Stores `val` just before the entry that `index` names, in a new version,
    /// and returns the new entry's coordinate in that version.
    pub fn try_insert_before(&mut self, index: TracingIndex, val: X) -> (r: Result<
        TimedIndex,
        IndexError,
    >)
        requires
            old(self).wf(),
            old(self).has_room(),
        ensures
            final(self).wf(),
            old(self).evolves_to(&*final(self)),
            old(self).keeps_values(&*final(self)),
            match old(self).current_position(index) {
                Err(e) => r == Err::<TimedIndex, IndexError>(e) && *final(self) == *old(self),
                Ok(p) => r == Ok::<TimedIndex, IndexError>(
                    TimedIndex { pos: p, pseudotime: (old(self).now() + 1) as usize },
                ) && old(self).inserts_at(&*final(self), p as int, val),
            },
    {
        let absolute_index = match self.latest_index(index) {
            Ok(p) => p,
            Err(e) => return Err(e),
        };
        Ok(self.try_insert(absolute_index, val))
    }

    /// Stores `val` just after the entry that `index` names, in a new version,
    /// and returns the new entry's coordinate in that version.
    pub fn try_insert_after(&mut self, index: TracingIndex, val: X) -> (r: Result<
        TimedIndex,
        IndexError,
    >)
        requires
            old(self).wf(),
            old(self).has_room(),
        ensures
            final(self).wf(),
            old(self).evolves_to(&*final(self)),
            old(self).keeps_values(&*final(self)),
            match old(self).current_position(index) {
                Err(e) => r == Err::<TimedIndex, IndexError>(e) && *final(self) == *old(self),
                Ok(p) => r == Ok::<TimedIndex, IndexError>(
                    TimedIndex { pos: (p + 1) as usize, pseudotime: (old(self).now() + 1) as usize },
                ) && old(self).inserts_at(&*final(self), p + 1, val),
            },
    {
        let absolute_index = match self.latest_index(index) {
            Ok(p) => p,
            Err(e) => return Err(e),
        };
        let len = self.latest_snapshot().len();
        assert(absolute_index < len);
        Ok(self.try_insert(absolute_index + 1, val))
    }

    /// As `try_insert_before`, for a coordinate known to be alive.
    pub fn insert_before(&mut self, index: TracingIndex, val: X) -> (r: TimedIndex)
        requires
            old(self).wf(),
            old(self).has_room(),
            old(self).current_position(index) is Ok,
        ensures
            final(self).wf(),
            old(self).evolves_to(&*final(self)),
            old(self).keeps_values(&*final(self)),
            r == (TimedIndex {
                pos: old(self).current_position(index)->Ok_0,
                pseudotime: (old(self).now() + 1) as usize,
            }),
            old(self).inserts_at(&*final(self), old(self).current_position(index)->Ok_0 as int, val),
    {
        match self.try_insert_before(index, val) {
            Ok(t) => t,
            Err(_) => {
                assert(false);
                TimedIndex { pos: 0, pseudotime: 0 }
            },
        }
    }

    /// As `try_insert_after`, for a coordinate known to be alive.
    pub fn insert_after(&mut self, index: TracingIndex, val: X) -> (r: TimedIndex)
        requires
            old(self).wf(),
            old(self).has_room(),
            old(self).current_position(index) is Ok,
        ensures
            final(self).wf(),
            old(self).evolves_to(&*final(self)),
            old(self).keeps_values(&*final(self)),
            r == (TimedIndex {
                pos: (old(self).current_position(index)->Ok_0 + 1) as usize,
                pseudotime: (old(self).now() + 1) as usize,
            }),
            old(self).inserts_at(&*final(self), old(self).current_position(index)->Ok_0 + 1, val),
    {
        match self.try_insert_after(index, val) {
            Ok(t) => t,
            Err(_) => {
                assert(false);
                TimedIndex { pos: 0, pseudotime: 0 }
            },
        }
    }

    /// Drops the last entry of the latest ordering, in a new version, and
    /// returns its arena position. A new version is recorded even when the
    /// vector is empty.
    pub fn pop(&mut self) -> (r: Option<TimelessIndex>)
        requires
            old(self).wf(),
            old(self).has_room(),
        ensures
            final(self).wf(),
            old(self).evolves_to(&*final(self)),
            old(self).keeps_values(&*final(self)),
            final(self).arena() == old(self).arena(),
            final(self).births() == old(self).births(),
            old(self).current().len() == 0 ==> r is None && final(self).versions()
                == old(self).versions().push(old(self).current()),
            old(self).current().len() > 0 ==> r == Some(
                TimelessIndex { pos: old(self).current().last() },
            ) && final(self).versions() == old(self).versions().push(
                old(self).current().drop_last(),
            ),
    {
        let mut ordering = self.latest_snapshot().clone();
        assert(ordering@ =~= old(self).current());
        let popped = ordering.pop();
        self.record(ordering);
        proof {
            let o = old(self).current();
            if o.len() > 0 {
                lemma_remove_entry(o, o.len() - 1, old(self).arena().len() as int);
                assert(o.remove(o.len() - 1) =~= o.drop_last());
                assert forall|q: usize| #[trigger] ordering@.contains(q) && q < old(
                    self,
                ).arena().len() implies old(self).alive(q) by {
                    assert(o.remove(o.len() - 1).contains(q));
                }
            } else {
                assert forall|q: usize| #[trigger] ordering@.contains(q) && q < old(
                    self,
                ).arena().len() implies old(self).alive(q) by {}
            }
            old(self).lemma_new_version(&*self, ordering@);
        }
        match popped {
            Some(pos) => Some(TimelessIndex { pos }),
            None => None,
        }
    }

    /// Drops the entry that `index` names from a new version and returns its
    /// arena position.
    pub fn try_remove(&mut self, index: TracingIndex) -> (r: Result<TimelessIndex, IndexError>)
        requires
            old(self).wf(),
            old(self).has_room(),
        ensures
            final(self).wf(),
            old(self).evolves_to(&*final(self)),
            old(self).keeps_values(&*final(self)),
            match old(self).current_position(index) {
                Err(e) => r == Err::<TimelessIndex, IndexError>(e) && *final(self) == *old(self),
                Ok(p) => {
                    &&& r == Ok::<TimelessIndex, IndexError>(
                        TimelessIndex { pos: old(self).current()[p as int] },
                    )
                    &&& r->Ok_0.pos == old(self).resolve(index)->Ok_0
                    &&& final(self).arena() == old(self).arena()
                    &&& final(self).births() == old(self).births()
                    &&& final(self).versions() == old(self).versions().push(
                        old(self).current().remove(p as int),
                    )
                    &&& !final(self).alive(r->Ok_0.pos)
                },
            },
    {
        let absolute_index = match self.latest_index(index) {
            Ok(p) => p,
            Err(e) => return Err(e),
        };
        let mut ordering = self.latest_snapshot().clone();
        assert(ordering@ =~= old(self).current());
        let pos = ordering.remove(absolute_index);
        self.record(ordering);
        proof {
            let o = old(self).current();
            lemma_remove_entry(o, absolute_index as int, old(self).arena().len() as int);
            old(self).lemma_new_version(&*self, ordering@);
        }
        Ok(TimelessIndex { pos })
    }

    /// As `try_remove`, for a coordinate known to be alive.
    pub fn remove(&mut self, index: TracingIndex) -> (r: TimelessIndex)
        requires
            old(self).wf(),
            old(self).has_room(),
            old(self).current_position(index) is Ok,
        ensures
            final(self).wf(),
            old(self).evolves_to(&*final(self)),
            old(self).keeps_values(&*final(self)),
            r == (TimelessIndex {
                pos: old(self).current()[old(self).current_position(index)->Ok_0 as int],
            }),
            r.pos == old(self).resolve(index)->Ok_0,
            final(self).arena() == old(self).arena(),
            final(self).births() == old(self).births(),
            final(self).versions() == old(self).versions().push(
                old(self).current().remove(old(self).current_position(index)->Ok_0 as int),
            ),
            !final(self).alive(r.pos),
    {
        match self.try_remove(index) {
            Ok(t) => t,
            Err(_) => {
                assert(false);
                TimelessIndex { pos: 0 }
            },
        }
    }

    /// Resolves `indices` for a batched removal. Returns the anchor
    /// candidates, the arena positions of the entries to remove in the given
    /// order, and the latest ordering without them. Nothing is changed.
    #[verifier::spinoff_prover]
    #[verifier::rlimit(30)]
    fn try_remove_all(&self, indices: &Vec<TracingIndex>) -> (r: Result<
        (Vec<usize>, Vec<TimelessIndex>, Vec<usize>),
        IndexError,
    >)
        requires
            self.wf(),
        ensures
            match self.batch(indices@) {
                Err(e) => r == Err::<(Vec<usize>, Vec<TimelessIndex>, Vec<usize>), IndexError>(e),
                Ok(ps) => r is Ok && r->Ok_0.0@ == anchor_candidates(ps) && r->Ok_0.1@
                    == self.entries_at(ps) && r->Ok_0.2@ == without_positions(self.current(), ps),
            },
    {
        if indices.len() == 0 {
            return Err(IndexError::NoIndicesProvided);
        }
        let latest = self.latest_snapshot();
        let mut keep: Vec<bool> = Vec::new();
        let mut j: usize = 0;
        while j < latest.len()
            invariant
                j <= latest.len(),
                keep@.len() == j,
                forall|k: int| 0 <= k < j ==> keep@[k],
            decreases latest.len() - j,
        {
            keep.push(true);
            j += 1;
        }
        // Resolve every coordinate first, in the given order.
        let mut absolute: Vec<usize> = Vec::new();
        let mut i: usize = 0;
        while i < indices.len()
            invariant
                latest@ == self.current(),
                self.wf(),
                i <= indices.len(),
                self.positions_of(indices@.take(i as int)) == Ok::<Seq<usize>, IndexError>(absolute@),
                forall|k: int| 0 <= k < absolute@.len() ==> absolute@[k] < latest@.len(),
            decreases indices.len() - i,
        {
            let ghost prefix = indices@.take(i as int + 1);
            assert(prefix.drop_last() =~= indices@.take(i as int));
            let abs = match self.latest_index(indices[i]) {
                Ok(p) => p,
                Err(e) => {
                    assert(self.positions_of(prefix) == Err::<Seq<usize>, IndexError>(e));
                    assert(self.positions_of(indices@) == Err::<Seq<usize>, IndexError>(e)) by {
                        lemma_first_error(self, indices@, i as int + 1);
                    }
                    return Err(e);
                },
            };
            absolute.push(abs);
            i += 1;
        }
        assert(indices@.take(indices@.len() as int) =~= indices@);
        let ghost ps = absolute@;

        // Then refuse an entry that is named twice.
        let mut i: usize = 0;
        while i < absolute.len()
            invariant
                absolute@ == ps,
                latest@ == self.current(),
                self.positions_of(indices@) == Ok::<Seq<usize>, IndexError>(ps),
                indices@.len() > 0,
                i <= ps.len(),
                first_repeat(ps.take(i as int)) is None,
                keep@.len() == latest.len(),
                forall|k: int| 0 <= k < ps.len() ==> ps[k] < latest@.len(),
                forall|k: int| 0 <= k < keep@.len() ==> keep@[k] == !ps.take(i as int).contains(k as usize),
            decreases ps.len() - i,
        {
            let abs = absolute[i];
            let ghost before = ps.take(i as int);
            let ghost after = ps.take(i as int + 1);
            assert(after.drop_last() =~= before);
            assert(after.last() == abs);
            if !keep[abs] {
                let e = IndexError::DataAlreadyDead(TimelessIndex { pos: latest[abs] });
                proof {
                    assert(before.contains(abs));
                    assert(first_repeat(after) == Some(i as int));
                    lemma_first_repeat_prefix(ps, i as int + 1);
                    assert(first_repeat(ps) == Some(i as int));
                    assert(self.positions_of(indices@) == Ok::<Seq<usize>, IndexError>(ps));
                    assert(indices@.len() > 0);
                    assert(e == IndexError::DataAlreadyDead(
                        TimelessIndex { pos: self.current()[ps[i as int] as int] },
                    ));
                }
                return Err(e);
            }
            keep.set(abs, false);
            proof {
                assert forall|k: int| 0 <= k < keep@.len() implies keep@[k] == !after.contains(
                    k as usize,
                ) by {
                    if k == abs {
                        assert(after[i as int] == abs);
                    } else {
                        if after.contains(k as usize) {
                            let m = choose|m: int| 0 <= m < after.len() && after[m] == k as usize;
                            assert(before[m] == k as usize);
                        }
                        if before.contains(k as usize) {
                            let m = choose|m: int| 0 <= m < before.len() && before[m] == k as usize;
                            assert(after[m] == k as usize);
                        }
                    }
                }
            }
            i += 1;
        }
        assert(ps.take(ps.len() as int) =~= ps);

        // Anchor candidates: the first position, then every position skipped over.
        let mut anchors: Vec<usize> = Vec::new();
        anchors.push(absolute[0]);
        assert(anchors@ =~= anchor_candidates(ps.take(1)));
        let len = latest.len();
        let mut last_pos: usize = absolute[0] + 1;
        let mut k: usize = 1;
        while k < absolute.len()
            invariant
                absolute@ == ps,
                len == latest@.len(),
                1 <= k <= ps.len(),
                last_pos == ps[k - 1] + 1,
                anchors@ == anchor_candidates(ps.take(k as int)),
                forall|m: int| 0 <= m < ps.len() ==> ps[m] < latest@.len(),
            decreases ps.len() - k,
        {
            let abs = absolute[k];
            let mut q: usize = last_pos;
            while q < abs
                invariant
                    last_pos <= q,
                    q <= abs || q == last_pos,
                    anchors@ == anchor_candidates(ps.take(k as int)) + gap(last_pos as int, q as int),
                decreases abs - q,
            {
                anchors.push(q);
                proof {
                    assert(anchor_candidates(ps.take(k as int)) + gap(last_pos as int, q + 1) =~= (
                    anchor_candidates(ps.take(k as int)) + gap(last_pos as int, q as int)).push(q));
                }
                q += 1;
            }
            proof {
                let next = ps.take(k as int + 1);
                assert(next.drop_last() =~= ps.take(k as int));
                assert(gap(last_pos as int, q as int) =~= gap(last_pos as int, abs as int));
            }
            last_pos = abs + 1;
            k += 1;
        }
        assert(ps.take(ps.len() as int) =~= ps);

        // The entries to remove, in the caller's order.
        let mut removed: Vec<TimelessIndex> = Vec::new();
        let mut k: usize = 0;
        while k < absolute.len()
            invariant
                absolute@ == ps,
                latest@ == self.current(),
                k <= ps.len(),
                forall|m: int| 0 <= m < ps.len() ==> ps[m] < latest@.len(),
                removed@ == self.entries_at(ps.take(k as int)),
            decreases ps.len() - k,
        {
            removed.push(TimelessIndex { pos: latest[absolute[k]] });
            assert(self.entries_at(ps.take(k as int + 1)) =~= self.entries_at(ps.take(k as int)).push(
                TimelessIndex { pos: latest@[ps[k as int] as int] },
            ));
            k += 1;
        }

        // The latest ordering without them.
        let mut ordering: Vec<usize> = Vec::new();
        let mut j: usize = 0;
        while j < latest.len()
            invariant
                latest@ == self.current(),
                j <= latest.len(),
                keep@.len() == latest.len(),
                forall|m: int| 0 <= m < keep@.len() ==> keep@[m] == !ps.contains(m as usize),
                ordering@ == without_positions(latest@.take(j as int), ps),
            decreases latest.len() - j,
        {
            assert(latest@.take(j as int + 1).drop_last() =~= latest@.take(j as int));
            if keep[j] {
                ordering.push(latest[j]);
            }
            j += 1;
        }
        assert(latest@.take(latest@.len() as int) =~= latest@);
        Ok((anchors, removed, ordering))
    }

    /// Drops the entries that `indices` name from a new version and puts `val`
    /// in their stead, at the first anchor candidate. Returns the arena
    /// positions of the dropped entries, in the given order.
    pub fn try_replace(&mut self, indices: Vec<TracingIndex>, val: X) -> (r: Result<
        Vec<TimelessIndex>,
        IndexError,
    >)
        requires
            old(self).wf(),
            old(self).has_room(),
        ensures
            final(self).wf(),
            old(self).evolves_to(&*final(self)),
            old(self).keeps_values(&*final(self)),
            match old(self).batch(indices@) {
                Err(e) => r == Err::<Vec<TimelessIndex>, IndexError>(e) && *final(self) == *old(self),
                Ok(ps) => {
                    &&& r is Ok
                    &&& r->Ok_0@ == old(self).entries_at(ps)
                    &&& old(self).replaces_at(&*final(self), ps, ps[0] as int, val)
                    &&& forall|k: int| 0 <= k < ps.len() ==> !final(self).alive(#[trigger] r->Ok_0@[k].pos)
                    &&& final(self).alive(old(self).arena().len() as usize)
                },
            },
    {
        let (anchors, removed, mut ordering) = match self.try_remove_all(&indices) {
            Ok(parts) => parts,
            Err(e) => return Err(e),
        };
        let ghost ps = old(self).batch(indices@)->Ok_0;
        proof {
            lemma_batch_bounds(&*old(self), indices@);
            lemma_anchor_head(ps);
        }
        let birth = self.pseudotime() + 1;
        let pos = self.store(val, birth);
        let anchor = if anchors[0] <= ordering.len() {
            anchors[0]
        } else {
            ordering.len()
        };
        ordering.insert(anchor, pos);
        self.record(ordering);
        proof {
            old(self).lemma_replace_step(&*self, ps, ps[0] as int, val);
        }
        Ok(removed)
    }

    /// As `try_replace`, for coordinates known to resolve.
    pub fn replace(&mut self, indices: Vec<TracingIndex>, val: X) -> (r: Vec<TimelessIndex>)
        requires
            old(self).wf(),
            old(self).has_room(),
            old(self).batch(indices@) is Ok,
        ensures
            final(self).wf(),
            old(self).evolves_to(&*final(self)),
            old(self).keeps_values(&*final(self)),
            r@ == old(self).entries_at(old(self).batch(indices@)->Ok_0),
            old(self).replaces_at(
                &*final(self),
                old(self).batch(indices@)->Ok_0,
                old(self).batch(indices@)->Ok_0[0] as int,
                val,
            ),
            forall|k: int| 0 <= k < r@.len() ==> !final(self).alive(#[trigger] r@[k].pos),
            final(self).alive(old(self).arena().len() as usize),
    {
        let ghost ps = old(self).batch(indices@)->Ok_0;
        proof {
            lemma_batch_bounds(&*old(self), indices@);
        }
        match self.try_replace(indices, val) {
            Ok(r) => r,
            Err(_) => {
                assert(false);
                Vec::new()
            },
        }
    }
}

impl<X> TracingVec<X> {
    /// The values that an ordering lists, in order.
    pub open spec fn values_of(&self, ordering: Seq<usize>) -> Seq<X> {
        ordering.map_values(|p: usize| self.arena()[p as int])
    }

    /// References to the values that `ordering` lists, in order.
    fn refs_of<'a>(&'a self, ordering: &Vec<usize>) -> (r: Vec<&'a X>)
        requires
            bounded(ordering@, self.arena().len() as int),
        ensures
            r@.len() == ordering@.len(),
            forall|i: int| 0 <= i < r@.len() ==> *r@[i] == self.values_of(ordering@)[i],
    {
        let mut r: Vec<&X> = Vec::new();
        let mut i: usize = 0;
        while i < ordering.len()
            invariant
                bounded(ordering@, self.arena().len() as int),
                i <= ordering@.len(),
                r@.len() == i,
                forall|k: int| 0 <= k < i ==> *r@[k] == self.values_of(ordering@)[k],
            decreases ordering@.len() - i,
        {
            let pos = ordering[i];
            assert(self.mem@[pos as int].val == self.arena()[pos as int]);
            r.push(&self.mem[pos].val);
            i += 1;
        }
        r
    }

    /// The values of the first version, in order.
    pub fn oldest(&self) -> (r: Vec<&X>)
        requires
            self.wf(),
        ensures
            r@.len() == self.versions()[0].len(),
            forall|i: int| 0 <= i < r@.len() ==> *r@[i] == self.values_of(self.versions()[0])[i],
    {
        assert(bounded(self.versions()[0], self.arena().len() as int));
        self.refs_of(&self.snapshots[0])
    }

    /// The values of the latest version, in order.
    pub fn latest(&self) -> (r: Vec<&X>)
        requires
            self.wf(),
        ensures
            r@.len() == self.current().len(),
            forall|i: int| 0 <= i < r@.len() ==> *r@[i] == self.latest_values()[i],
    {
        assert(bounded(self.versions()[self.now()], self.arena().len() as int));
        self.refs_of(self.latest_snapshot())
    }

    /// Mutable references to the values of the latest version, in order.
    /// Entries of the latest version are distinct, so no value is borrowed
    /// twice; only those values can change.
    pub fn latest_mut(&mut self) -> (r: Vec<&mut X>)
        requires
            old(self).wf(),
        ensures
            r@.len() == old(self).current().len(),
            forall|i: int| 0 <= i < r@.len() ==> *(#[trigger] r@[i]) == old(self).latest_values()[i],
            old(self).evolves_to(&*final(self)),
            final(self).versions() == old(self).versions(),
            final(self).births() == old(self).births(),
            final(self).arena().len() == old(self).arena().len(),
            forall|p: int|
                0 <= p < old(self).arena().len() && !old(self).alive(p as usize)
                    ==> #[trigger] final(self).arena()[p] == old(self).arena()[p],
            forall|i: int|
                0 <= i < r@.len() ==> final(self).arena()[old(self).current()[i] as int]
                    == *final(#[trigger] r@[i]),
            final(self).wf(),
    {
        proof {
            old(self).lemma_same_layout();
        }
        self.latest_refs()
    }

    /// Borrows the value of each entry of the latest version, one by one.
    fn latest_refs(&mut self) -> (r: Vec<&mut X>)
        requires
            old(self).wf(),
        ensures
            r@.len() == old(self).current().len(),
            forall|i: int| 0 <= i < r@.len() ==> *(#[trigger] r@[i]) == old(self).latest_values()[i],
            old(self).evolves_to(&*final(self)),
            final(self).versions() == old(self).versions(),
            final(self).births() == old(self).births(),
            final(self).arena().len() == old(self).arena().len(),
            forall|p: int|
                0 <= p < old(self).arena().len() && !old(self).alive(p as usize)
                    ==> #[trigger] final(self).arena()[p] == old(self).arena()[p],
            forall|i: int|
                0 <= i < r@.len() ==> final(self).arena()[old(self).current()[i] as int]
                    == *final(#[trigger] r@[i]),
    {
        let latest = self.latest_snapshot().clone();
        let ghost cur = old(self).current();
        let ghost n = old(self).arena().len();
        let total = self.mem.len();
        assert(latest@ =~= cur);
        assert(distinct(old(self).versions()[old(self).now()]));
        assert(bounded(old(self).versions()[old(self).now()], n as int));
        let mut all = value_refs(self.mem.as_mut_slice());
        let ghost refs = all@;
        let mut r: Vec<&mut X> = Vec::new();
        let mut i: usize = 0;
        while i < latest.len()
            invariant
                latest@ == cur,
                distinct(cur),
                bounded(cur, n as int),
                refs.len() == n,
                n == total,
                all@.len() == n,
                i <= cur.len(),
                r@.len() == i,
                forall|j: int| 0 <= j < n ==> #[trigger] refs[j] is Some,
                forall|k: int|
                    0 <= k < i ==> *(#[trigger] r@[k]) == *refs[cur[k] as int]->Some_0 && *final(
                        r@[k]) == *final(refs[cur[k] as int]->Some_0),
                forall|j: int|
                    0 <= j < n ==> #[trigger] all@[j] == (if cur.take(i as int).contains(j as usize) {
                        None
                    } else {
                        refs[j]
                    }),
            decreases cur.len() - i,
        {
            let pos = latest[i];
            assert(!cur.take(i as int).contains(pos)) by {
                let t0 = cur.take(i as int);
                if t0.contains(pos) {
                    let k = choose|k: int| 0 <= k < t0.len() && #[trigger] t0[k] == pos;
                    assert(cur[k] == cur[i as int]);
                }
            }
            let ghost before = all@;
            let taken = all.remove(pos);
            all.insert(pos, None);
            assert(taken == refs[pos as int]);
            let v = taken.unwrap();
            r.push(v);
            proof {
                assert(*r@[i as int] == *refs[cur[i as int] as int]->Some_0);
                assert(*final(r@[i as int]) == *final(refs[cur[i as int] as int]->Some_0));
                assert(cur.take(i as int + 1) =~= cur.take(i as int).push(pos));
                assert forall|j: int| 0 <= j < n implies #[trigger] all@[j] == (if cur.take(
                    i as int + 1,
                ).contains(j as usize) {
                    None
                } else {
                    refs[j]
                }) by {
                    if j != pos {
                        assert(all@[j] == before[j]);
                        let t0 = cur.take(i as int);
                        let t1 = cur.take(i as int + 1);
                        if t1.contains(j as usize) {
                            let k = choose|k: int| 0 <= k < t1.len() && #[trigger] t1[k] == j as usize;
                            assert(t1[i as int] == pos);
                            assert(j as usize as int == j);
                            assert(k < i);
                            assert(t1[k] == cur[k]);
                            assert(t0[k] == j as usize);
                        }
                        if t0.contains(j as usize) {
                            let k = choose|k: int| 0 <= k < t0.len() && #[trigger] t0[k] == j as usize;
                            assert(t1[k] == j as usize);
                        }
                    } else {
                        assert(cur.take(i as int + 1)[i as int] == pos);
                    }
                }
            }
            i += 1;
        }
        proof {
            assert(cur.take(cur.len() as int) =~= cur);
            assert(has_resolved(all));
            assert forall|j: int| 0 <= j < n && !cur.contains(j as usize)
                implies *final(refs[j]->Some_0) == *refs[j]->Some_0 by {
                assert(all@[j] == refs[j]);
                assert(has_resolved(all@[j]));
            }
        }
        r
    }

    /// Mutable references to the values of the latest version, in order.
    pub fn iter_mut(&mut self) -> (r: Vec<&mut X>)
        requires
            old(self).wf(),
        ensures
            r@.len() == old(self).current().len(),
            forall|i: int| 0 <= i < r@.len() ==> *(#[trigger] r@[i]) == old(self).latest_values()[i],
            old(self).evolves_to(&*final(self)),
            final(self).versions() == old(self).versions(),
            final(self).births() == old(self).births(),
            final(self).arena().len() == old(self).arena().len(),
            forall|p: int|
                0 <= p < old(self).arena().len() && !old(self).alive(p as usize)
                    ==> #[trigger] final(self).arena()[p] == old(self).arena()[p],
            forall|i: int|
                0 <= i < r@.len() ==> final(self).arena()[old(self).current()[i] as int]
                    == *final(#[trigger] r@[i]),
            final(self).wf(),
    {
        proof {
            old(self).lemma_same_layout();
        }
        self.latest_refs()
    }

    /// Each value of the latest version, mutably, with its coordinate at the
    /// present version, in order.
    pub fn iter_mut_indices(&mut self) -> (r: Vec<(TimedIndex, &mut X)>)
        requires
            old(self).wf(),
        ensures
            r@.len() == old(self).current().len(),
            forall|i: int|
                0 <= i < r@.len() ==> (#[trigger] r@[i]).0 == (TimedIndex {
                    pos: i as usize,
                    pseudotime: old(self).now() as usize,
                }) && *r@[i].1 == old(self).latest_values()[i],
            old(self).evolves_to(&*final(self)),
            final(self).versions() == old(self).versions(),
            final(self).births() == old(self).births(),
            final(self).arena().len() == old(self).arena().len(),
            forall|p: int|
                0 <= p < old(self).arena().len() && !old(self).alive(p as usize)
                    ==> #[trigger] final(self).arena()[p] == old(self).arena()[p],
            forall|i: int|
                0 <= i < r@.len() ==> final(self).arena()[old(self).current()[i] as int]
                    == *final((#[trigger] r@[i]).1),
            final(self).wf(),
    {
        proof {
            old(self).lemma_same_layout();
        }
        let keys = self.indices();
        let refs = self.latest_refs();
        zip_refs(&keys, refs)
    }

    /// Each value of the latest version, mutably, with its arena position, in
    /// order.
    pub fn iter_mut_timeless_indices(&mut self) -> (r: Vec<(TimelessIndex, &mut X)>)
        requires
            old(self).wf(),
        ensures
            r@.len() == old(self).current().len(),
            forall|i: int|
                0 <= i < r@.len() ==> (#[trigger] r@[i]).0 == (TimelessIndex {
                    pos: old(self).current()[i],
                }) && *r@[i].1 == old(self).latest_values()[i],
            old(self).evolves_to(&*final(self)),
            final(self).versions() == old(self).versions(),
            final(self).births() == old(self).births(),
            final(self).arena().len() == old(self).arena().len(),
            forall|p: int|
                0 <= p < old(self).arena().len() && !old(self).alive(p as usize)
                    ==> #[trigger] final(self).arena()[p] == old(self).arena()[p],
            forall|i: int|
                0 <= i < r@.len() ==> final(self).arena()[old(self).current()[i] as int]
                    == *final((#[trigger] r@[i]).1),
            final(self).wf(),
    {
        proof {
            old(self).lemma_same_layout();
        }
        let keys = self.timeless_indices();
        let refs = self.latest_refs();
        zip_refs(&keys, refs)
    }

    /// The values of the latest version, in order.
    pub fn iter(&self) -> (r: Vec<&X>)
        requires
            self.wf(),
        ensures
            r@.len() == self.current().len(),
            forall|i: int| 0 <= i < r@.len() ==> *r@[i] == self.latest_values()[i],
    {
        self.latest()
    }

    /// The number of entries in the latest version.
    pub fn len(&self) -> (r: usize)
        requires
            self.wf(),
        ensures
            r == self.current().len(),
    {
        self.latest_snapshot().len()
    }

    /// Whether the latest version holds no entry.
    pub fn is_empty(&self) -> (r: bool)
        requires
            self.wf(),
        ensures
            r == (self.current().len() == 0),
    {
        self.latest_snapshot().len() == 0
    }

    /// The coordinate of the first entry of the latest version, if any.
    pub fn try_first_index(&self) -> (r: Option<TimedIndex>)
        requires
            self.wf(),
        ensures
            r == (if self.current().len() == 0 {
                None
            } else {
                Some(TimedIndex { pos: 0, pseudotime: self.now() as usize })
            }),
    {
        if self.latest_snapshot().len() == 0 {
            None
        } else {
            Some(TimedIndex { pos: 0, pseudotime: self.pseudotime() })
        }
    }

    /// As `try_first_index`, for a vector known not to be empty.
    pub fn first_index(&self) -> (r: TimedIndex)
        requires
            self.wf(),
            self.current().len() > 0,
        ensures
            r == (TimedIndex { pos: 0, pseudotime: self.now() as usize }),
    {
        TimedIndex { pos: 0, pseudotime: self.pseudotime() }
    }

    /// The coordinate of the last entry of the latest version, if any.
    pub fn try_last_index(&self) -> (r: Option<TimedIndex>)
        requires
            self.wf(),
        ensures
            r == (if self.current().len() == 0 {
                None
            } else {
                Some(
                    TimedIndex {
                        pos: (self.current().len() - 1) as usize,
                        pseudotime: self.now() as usize,
                    },
                )
            }),
    {
        let pseudotime = self.pseudotime();
        let len = self.latest_snapshot().len();
        if len == 0 {
            None
        } else {
            Some(TimedIndex { pseudotime, pos: len - 1 })
        }
    }

    /// As `try_last_index`, for a vector known not to be empty.
    pub fn last_index(&self) -> (r: TimedIndex)
        requires
            self.wf(),
            self.current().len() > 0,
        ensures
            r == (TimedIndex {
                pos: (self.current().len() - 1) as usize,
                pseudotime: self.now() as usize,
            }),
    {
        TimedIndex { pos: self.latest_snapshot().len() - 1, pseudotime: self.pseudotime() }
    }

    /// The coordinates, at the present version, of every entry of the latest
    /// version, in order.
    pub fn indices(&self) -> (r: Vec<TimedIndex>)
        requires
            self.wf(),
        ensures
            r@ == Seq::new(
                self.current().len(),
                |i: int| TimedIndex { pos: i as usize, pseudotime: self.now() as usize },
            ),
    {
        let pseudotime = self.pseudotime();
        let len = self.latest_snapshot().len();
        let mut r: Vec<TimedIndex> = Vec::new();
        let mut pos: usize = 0;
        while pos < len
            invariant
                len == self.current().len(),
                pseudotime == self.now(),
                pos <= len,
                r@ == Seq::new(
                    pos as nat,
                    |i: int| TimedIndex { pos: i as usize, pseudotime: pseudotime },
                ),
            decreases len - pos,
        {
            r.push(TimedIndex { pos, pseudotime });
            pos += 1;
            assert(r@ =~= Seq::new(
                pos as nat,
                |i: int| TimedIndex { pos: i as usize, pseudotime: pseudotime },
            ));
        }
        r
    }

    /// The arena positions of the entries of the latest version, in order.
    pub fn timeless_indices(&self) -> (r: Vec<TimelessIndex>)
        requires
            self.wf(),
        ensures
            r@ == self.current().map_values(|p: usize| TimelessIndex { pos: p }),
    {
        let latest = self.latest_snapshot();
        let mut r: Vec<TimelessIndex> = Vec::new();
        let mut i: usize = 0;
        while i < latest.len()
            invariant
                i <= latest@.len(),
                r@ == latest@.take(i as int).map_values(|p: usize| TimelessIndex { pos: p }),
            decreases latest@.len() - i,
        {
            r.push(TimelessIndex { pos: latest[i] });
            i += 1;
            assert(r@ =~= latest@.take(i as int).map_values(|p: usize| TimelessIndex { pos: p }));
        }
        assert(latest@.take(i as int) =~= latest@);
        r
    }

    /// Each entry of the latest version with its coordinate at the present
    /// version, in order.
    pub fn iter_indices(&self) -> (r: Vec<(TimedIndex, &X)>)
        requires
            self.wf(),
        ensures
            r@.len() == self.current().len(),
            forall|i: int| #![trigger r@[i]] 0 <= i < r@.len() ==> r@[i].0 == (TimedIndex {
                pos: i as usize,
                pseudotime: self.now() as usize,
            }) && *r@[i].1 == self.latest_values()[i],
    {
        let indices = self.indices();
        let values = self.latest();
        let mut r: Vec<(TimedIndex, &X)> = Vec::new();
        let mut i: usize = 0;
        while i < values.len()
            invariant
                indices@.len() == values@.len(),
                i <= values@.len(),
                r@.len() == i,
                forall|k: int| #![trigger r@[k]] 0 <= k < i ==> r@[k].0 == indices@[k] && *r@[k].1 == *values@[k],
            decreases values@.len() - i,
        {
            r.push((indices[i], values[i]));
            i += 1;
        }
        assert forall|i: int| 0 <= i < r@.len() implies r@[i].0 == (TimedIndex {
            pos: i as usize,
            pseudotime: self.now() as usize,
        }) && *r@[i].1 == self.latest_values()[i] by {
            assert(r@[i].0 == indices@[i] && *r@[i].1 == *values@[i]);
        }
        r
    }

    /// Each entry of the latest version with its arena position, in order.
    pub fn iter_timeless_indices(&self) -> (r: Vec<(TimelessIndex, &X)>)
        requires
            self.wf(),
        ensures
            r@.len() == self.current().len(),
            forall|i: int| #![trigger r@[i]] 0 <= i < r@.len() ==> r@[i].0 == (TimelessIndex {
                pos: self.current()[i],
            }) && *r@[i].1 == self.latest_values()[i],
    {
        let indices = self.timeless_indices();
        let values = self.latest();
        let mut r: Vec<(TimelessIndex, &X)> = Vec::new();
        let mut i: usize = 0;
        while i < values.len()
            invariant
                indices@.len() == values@.len(),
                i <= values@.len(),
                r@.len() == i,
                forall|k: int| #![trigger r@[k]] 0 <= k < i ==> r@[k].0 == indices@[k] && *r@[k].1 == *values@[k],
            decreases values@.len() - i,
        {
            r.push((indices[i], values[i]));
            i += 1;
        }
        assert forall|i: int| 0 <= i < r@.len() implies r@[i].0 == (TimelessIndex {
            pos: self.current()[i],
        }) && *r@[i].1 == self.latest_values()[i] by {
            assert(r@[i].0 == indices@[i] && *r@[i].1 == *values@[i]);
        }
        r
    }

    /// The coordinate at the present version of the entry that `index` names.
    pub fn into_timed(&self, index: TracingIndex) -> (r: Result<TimedIndex, IndexError>)
        requires
            self.wf(),
        ensures
            r == (match self.current_position(index) {
                Ok(p) => Ok(TimedIndex { pos: p, pseudotime: self.now() as usize }),
                Err(e) => Err(e),
            }),
    {
        let pos = match self.latest_index(index) {
            Ok(p) => p,
            Err(e) => return Err(e),
        };
        Ok(TimedIndex { pseudotime: self.pseudotime(), pos })
    }

    /// Whether the entry that `before` names stands no later in the latest
    /// version than the one that `after` names.
    pub fn is_before(&self, before: TracingIndex, after: TracingIndex) -> (r: Result<bool, IndexError>)
        requires
            self.wf(),
        ensures
            r == (match (self.current_position(before), self.current_position(after)) {
                (Err(e), _) => Err(e),
                (Ok(_), Err(e)) => Err(e),
                (Ok(a), Ok(b)) => Ok(a <= b),
            }),
    {
        let before = match self.latest_index(before) {
            Ok(p) => p,
            Err(e) => return Err(e),
        };
        let after = match self.latest_index(after) {
            Ok(p) => p,
            Err(e) => return Err(e),
        };
        Ok(before <= after)
    }

    /// Whether two coordinates name the same arena entry.
    pub fn indices_eq(&self, a: TracingIndex, b: TracingIndex) -> (r: Result<bool, IndexError>)
        requires
            self.wf(),
        ensures
            r == (match (self.resolve(a), self.resolve(b)) {
                (Err(e), _) => Err(e),
                (Ok(_), Err(e)) => Err(e),
                (Ok(p), Ok(q)) => Ok(p == q),
            }),
    {
        let a = match self.into_timeless(a) {
            Ok(t) => t,
            Err(e) => return Err(e),
        };
        let b = match self.into_timeless(b) {
            Ok(t) => t,
            Err(e) => return Err(e),
        };
        Ok(a.pos == b.pos)
    }
}

impl<X: Clone> TracingVec<X> {
    /// What a merging replacement leaves: the new entry's value is what `f`
    /// made of clones of the removed values, in the given order.
    pub open spec fn merged<F: FnOnce(Vec<X>) -> X>(&self, later: &Self, ps: Seq<usize>, f: F) -> bool {
        exists|vals: Vec<X>|
            #![trigger f.ensures((vals,), later.arena().last())]
            vals@.len() == ps.len() && (forall|k: int|
                0 <= k < ps.len() ==> cloned(
                    #[trigger] self.arena()[self.current()[ps[k] as int] as int],
                    vals@[k],
                )) && f.ensures((vals,), later.arena().last())
    }

    /// Drops the entries that `indices` name from a new version and puts what
    /// `f` makes of their values in their stead, at the first anchor candidate
    /// or, with `at_last`, the last one. Returns the new entry's coordinate.
    fn try_replace_choose<F: FnOnce(Vec<X>) -> X>(
        &mut self,
        indices: Vec<TracingIndex>,
        at_last: bool,
        f: F,
    ) -> (r: Result<TimedIndex, IndexError>)
        requires
            old(self).wf(),
            old(self).has_room(),
            forall|vals: Vec<X>| f.requires((vals,)),
        ensures
            final(self).wf(),
            old(self).evolves_to(&*final(self)),
            old(self).keeps_values(&*final(self)),
            match old(self).batch(indices@) {
                Err(e) => r == Err::<TimedIndex, IndexError>(e) && *final(self) == *old(self),
                Ok(ps) => {
                    let anchors = anchor_candidates(ps);
                    let a = if at_last { anchors.last() } else { anchors[0] };
                    let rest = without_positions(old(self).current(), ps);
                    &&& r == Ok::<TimedIndex, IndexError>(
                        TimedIndex {
                            pos: clamp(a as int, rest.len() as int) as usize,
                            pseudotime: (old(self).now() + 1) as usize,
                        },
                    )
                    &&& old(self).replaces_at(&*final(self), ps, a as int, final(self).arena().last())
                    &&& old(self).merged(&*final(self), ps, f)
                    &&& forall|k: int| 0 <= k < ps.len() ==> !final(self).alive(
                        #[trigger] old(self).current()[ps[k] as int],
                    )
                },
            },
    {
        let (anchors, removed, mut ordering) = match self.try_remove_all(&indices) {
            Ok(parts) => parts,
            Err(e) => return Err(e),
        };
        let ghost ps = old(self).batch(indices@)->Ok_0;
        proof {
            lemma_batch_bounds(&*old(self), indices@);
            lemma_anchor_head(ps);
            assert(distinct(self.versions()[self.now()]));
            assert(bounded(self.versions()[self.now()], self.arena().len() as int));
        }
        let chosen = if at_last {
            anchors[anchors.len() - 1]
        } else {
            anchors[0]
        };
        let mut values: Vec<X> = Vec::new();
        let mut k: usize = 0;
        while k < removed.len()
            invariant
                *self == *old(self),
                self.wf(),
                removed@ == self.entries_at(ps),
                forall|m: int| 0 <= m < ps.len() ==> ps[m] < self.current().len(),
                k <= removed@.len(),
                values@.len() == k,
                forall|m: int| 0 <= m < k ==> cloned(
                    #[trigger] self.arena()[self.current()[ps[m] as int] as int],
                    values@[m],
                ),
            decreases removed@.len() - k,
        {
            let pos = removed[k].pos;
            assert(pos == self.current()[ps[k as int] as int]);
            assert(self.current().contains(pos));
            assert(self.mem@[pos as int].val == self.arena()[pos as int]);
            let val = self.mem[pos].val.clone();
            values.push(val);
            k += 1;
        }
        let ghost vals = values;
        let val = f(values);
        let birth = self.pseudotime() + 1;
        let pos = self.store(val, birth);
        let anchor = if chosen <= ordering.len() {
            chosen
        } else {
            ordering.len()
        };
        ordering.insert(anchor, pos);
        self.record(ordering);
        proof {
            old(self).lemma_replace_step(&*self, ps, chosen as int, val);
            assert(self.arena().last() == val);
        }
        Ok(TimedIndex { pos: anchor, pseudotime: birth })
    }


    /// As `try_replace_with`, for coordinates known to resolve.
    pub fn replace_with<F: FnOnce(Vec<X>) -> X>(&mut self, indices: Vec<TracingIndex>, f: F) -> (r: TimedIndex)
        requires
            old(self).wf(),
            old(self).has_room(),
            old(self).batch(indices@) is Ok,
            forall|vals: Vec<X>| f.requires((vals,)),
        ensures
            final(self).wf(),
            old(self).evolves_to(&*final(self)),
            old(self).keeps_values(&*final(self)),
            ({
                let ps = old(self).batch(indices@)->Ok_0;
                let a = anchor_candidates(ps)[0];
                let rest = without_positions(old(self).current(), ps);
                &&& r == (TimedIndex {
                    pos: clamp(a as int, rest.len() as int) as usize,
                    pseudotime: (old(self).now() + 1) as usize,
                })
                &&& old(self).replaces_at(&*final(self), ps, a as int, final(self).arena().last())
                &&& old(self).merged(&*final(self), ps, f)
                &&& forall|k: int| 0 <= k < ps.len() ==> !final(self).alive(
                    #[trigger] old(self).current()[ps[k] as int],
                )
            }),
    {
        match self.try_replace_choose(indices, false, f) {
            Ok(t) => t,
            Err(_) => {
                assert(false);
                TimedIndex { pos: 0, pseudotime: 0 }
            },
        }
    }

    /// Merges the entries that `indices` name into one new entry made by `f`,
    /// placed at the first anchor candidate; returns its coordinate.
    pub fn try_replace_with<F: FnOnce(Vec<X>) -> X>(&mut self, indices: Vec<TracingIndex>, f: F) -> (r: Result<
        TimedIndex,
        IndexError,
    >)
        requires
            old(self).wf(),
            old(self).has_room(),
            forall|vals: Vec<X>| f.requires((vals,)),
        ensures
            final(self).wf(),
            old(self).evolves_to(&*final(self)),
            old(self).keeps_values(&*final(self)),
            match old(self).batch(indices@) {
                Err(e) => r == Err::<TimedIndex, IndexError>(e) && *final(self) == *old(self),
                Ok(ps) => {
                    let a = anchor_candidates(ps)[0];
                    let rest = without_positions(old(self).current(), ps);
                    &&& r == Ok::<TimedIndex, IndexError>(
                        TimedIndex {
                            pos: clamp(a as int, rest.len() as int) as usize,
                            pseudotime: (old(self).now() + 1) as usize,
                        },
                    )
                    &&& old(self).replaces_at(&*final(self), ps, a as int, final(self).arena().last())
                    &&& old(self).merged(&*final(self), ps, f)
                    &&& forall|k: int| 0 <= k < ps.len() ==> !final(self).alive(
                        #[trigger] old(self).current()[ps[k] as int],
                    )
                },
            },
    {
        self.try_replace_choose(indices, false, f)
    }

    /// As `try_replace_with`, but the merged entry goes to the last anchor
    /// candidate.
    pub fn try_replace_at_last_with<F: FnOnce(Vec<X>) -> X>(&mut self, indices: Vec<TracingIndex>, f: F) -> (r: Result<
        TimedIndex,
        IndexError,
    >)
        requires
            old(self).wf(),
            old(self).has_room(),
            forall|vals: Vec<X>| f.requires((vals,)),
        ensures
            final(self).wf(),
            old(self).evolves_to(&*final(self)),
            old(self).keeps_values(&*final(self)),
            match old(self).batch(indices@) {
                Err(e) => r == Err::<TimedIndex, IndexError>(e) && *final(self) == *old(self),
                Ok(ps) => {
                    let a = anchor_candidates(ps).last();
                    let rest = without_positions(old(self).current(), ps);
                    &&& r == Ok::<TimedIndex, IndexError>(
                        TimedIndex {
                            pos: clamp(a as int, rest.len() as int) as usize,
                            pseudotime: (old(self).now() + 1) as usize,
                        },
                    )
                    &&& old(self).replaces_at(&*final(self), ps, a as int, final(self).arena().last())
                    &&& old(self).merged(&*final(self), ps, f)
                    &&& forall|k: int| 0 <= k < ps.len() ==> !final(self).alive(
                        #[trigger] old(self).current()[ps[k] as int],
                    )
                },
            },
    {
        self.try_replace_choose(indices, true, f)
    }
}

/// A mutable reference to the value of each entry of `s`, in order.
fn value_refs<'a, X>(s: &'a mut [Trace<X>]) -> (r: Vec<Option<&'a mut X>>)
    ensures
        r@.len() == old(s)@.len(),
        forall|j: int| 0 <= j < r@.len() ==> #[trigger] r@[j] is Some,
        forall|j: int| 0 <= j < r@.len() ==> *(#[trigger] r@[j])->Some_0 == old(s)@[j].val,
        final(s)@.len() == old(s)@.len(),
        forall|j: int| 0 <= j < r@.len() ==> #[trigger] final(s)@[j] == (Trace {
            val: *final(r@[j]->Some_0),
            birth: old(s)@[j].birth,
        }),
    decreases old(s)@.len(),
{
    let len = s.len();
    if len == 0 {
        return Vec::new();
    }
    let (init, last) = s.split_at_mut(len - 1);
    let mut r = value_refs(init);
    r.push(Some(&mut last[0].val));
    r
}

/// Pairs each key with the reference at the same place.
fn zip_refs<'a, K: Copy, X>(keys: &Vec<K>, refs: Vec<&'a mut X>) -> (r: Vec<(K, &'a mut X)>)
    requires
        keys@.len() == refs@.len(),
    ensures
        r@.len() == refs@.len(),
        forall|i: int|
            0 <= i < r@.len() ==> (#[trigger] r@[i]).0 == keys@[i] && *r@[i].1 == *refs@[i]
                && *final(r@[i].1) == *final(refs@[i]),
{
    let ghost orig = refs@;
    let ghost n = refs@.len();
    let mut refs = refs;
    let mut reversed: Vec<&mut X> = Vec::new();
    while refs.len() > 0
        invariant
            refs@.len() + reversed@.len() == n,
            forall|k: int|
                0 <= k < refs@.len() ==> *(#[trigger] refs@[k]) == *orig[k] && *final(refs@[k])
                    == *final(orig[k]),
            forall|k: int|
                0 <= k < reversed@.len() ==> *(#[trigger] reversed@[k]) == *orig[n - 1 - k]
                    && *final(reversed@[k]) == *final(orig[n - 1 - k]),
        decreases refs@.len(),
    {
        let x = refs.pop().unwrap();
        reversed.push(x);
    }
    let mut r: Vec<(K, &mut X)> = Vec::new();
    while reversed.len() > 0
        invariant
            r@.len() + reversed@.len() == n,
            keys@.len() == n,
            forall|k: int|
                0 <= k < r@.len() ==> (#[trigger] r@[k]).0 == keys@[k] && *r@[k].1 == *orig[k]
                    && *final(r@[k].1) == *final(orig[k]),
            forall|k: int|
                0 <= k < reversed@.len() ==> *(#[trigger] reversed@[k]) == *orig[n - 1 - k]
                    && *final(reversed@[k]) == *final(orig[n - 1 - k]),
        decreases reversed@.len(),
    {
        let x = reversed.pop().unwrap();
        let key = keys[r.len()];
        r.push((key, x));
    }
    r
}

impl<X> Default for TracingVec<X> {
    fn default() -> (r: Self)
        ensures
            r.wf(),
            r.arena() == Seq::<X>::empty(),
            r.versions() == seq![Seq::<usize>::empty()],
    {
        Self::new()
    }
}

impl<X> From<Vec<X>> for TracingVec<X> {
    /// A vector whose first version holds `values`, in order.
    fn from(values: Vec<X>) -> (r: Self)
        ensures
            r.wf(),
            r.arena() == values@,
            r.versions() == seq![Seq::new(values@.len(), |i: int| i as usize)],
    {
        Self::from_vec(values)
    }
}

impl<X> vstd::std_specs::convert::FromSpecImpl<Vec<X>> for TracingVec<X> {
    open spec fn obeys_from_spec() -> bool {
        false
    }

    open spec fn from_spec(values: Vec<X>) -> TracingVec<X> {
        vstd::pervasive::arbitrary()
    }
}

/// Evolution is transitive: a state reached from a reachable state is
/// reachable.
pub proof fn lemma_evolves_transitive<X>(a: &TracingVec<X>, b: &TracingVec<X>, c: &TracingVec<X>)
    requires
        a.wf(),
        b.wf(),
        a.evolves_to(b),
        b.evolves_to(c),
    ensures
        a.evolves_to(c),
{
    assert forall|v: int| 0 <= v < a.now() implies #[trigger] c.versions()[v] == a.versions()[v] by {
        assert(b.versions()[v] == a.versions()[v]);
    }
    let mid = b.versions()[a.now()];
    if a.now() < b.now() {
        assert(c.versions()[a.now()] == mid);
    } else {
        assert(mid == b.current());
        assert(b.current().is_prefix_of(c.versions()[a.now()]));
    }
    assert(a.current().is_prefix_of(mid));
    assert forall|i: int| 0 <= i < a.current().len() implies c.versions()[a.now()][i]
        == a.current()[i] by {
        assert(mid[i] == a.current()[i]);
    }
    assert(a.current() =~= c.versions()[a.now()].subrange(0, a.current().len() as int));
    assert forall|p: usize| #![trigger c.alive(p)]
        p < a.arena().len() && !a.alive(p) implies !c.alive(p) by {
        assert(!b.alive(p));
    }
}

/// Along any finite chain of states, each well formed and each a step of
/// evolution from the one before, the last state is reachable from the first.
pub proof fn lemma_evolves_chain<X>(states: Seq<TracingVec<X>>)
    requires
        states.len() >= 1,
        forall|i: int| 0 <= i < states.len() ==> (#[trigger] states[i]).wf(),
        forall|i: int| 0 <= i < states.len() - 1 ==> (#[trigger] states[i]).evolves_to(&states[i + 1]),
    ensures
        states[0].evolves_to(&states.last()),
    decreases states.len(),
{
    if states.len() == 1 {
        lemma_evolves_reflexive(&states[0]);
    } else {
        let init = states.drop_last();
        assert forall|i: int| 0 <= i < init.len() implies (#[trigger] init[i]).wf() by {
            assert(init[i] == states[i]);
        }
        assert forall|i: int| 0 <= i < init.len() - 1 implies (#[trigger] init[i]).evolves_to(
            &init[i + 1],
        ) by {
            assert(init[i] == states[i] && init[i + 1] == states[i + 1]);
        }
        lemma_evolves_chain(init);
        let n = states.len() - 1;
        assert(states[n - 1].evolves_to(&states[n]));
        lemma_evolves_transitive(&states[0], &states[n - 1], &states[n]);
    }
}

/// Appending values one by one keeps the version number, lists the values
/// at the end of the latest version in the order they were appended, and is
/// a step of evolution.
pub proof fn lemma_pushes_append<X>(states: Seq<TracingVec<X>>, vals: Seq<X>)
    requires
        states.len() == vals.len() + 1,
        forall|i: int| 0 <= i < states.len() ==> (#[trigger] states[i]).wf(),
        forall|i: int|
            0 <= i < vals.len() ==> (#[trigger] states[i + 1]).latest_values() == states[i].latest_values().push(
                vals[i],
            ) && states[i + 1].now() == states[i].now() && states[i].evolves_to(&states[i + 1]),
    ensures
        states.last().latest_values() == states[0].latest_values() + vals,
        states.last().now() == states[0].now(),
        states[0].evolves_to(&states.last()),
    decreases vals.len(),
{
    if vals.len() == 0 {
        assert(states[0].latest_values() + vals =~= states[0].latest_values());
        lemma_evolves_reflexive(&states[0]);
    } else {
        let n = vals.len() as int;
        let init = states.drop_last();
        let front = vals.drop_last();
        assert forall|i: int| 0 <= i < init.len() implies (#[trigger] init[i]).wf() by {
            assert(init[i] == states[i]);
        }
        assert forall|i: int| 0 <= i < front.len() implies (#[trigger] init[i + 1]).latest_values()
            == init[i].latest_values().push(front[i]) && init[i + 1].now() == init[i].now()
            && init[i].evolves_to(&init[i + 1]) by {
            assert(init[i] == states[i] && init[i + 1] == states[i + 1] && front[i] == vals[i]);
        }
        lemma_pushes_append(init, front);
        assert(init.last() == states[n - 1]);
        assert(states[n].latest_values() == states[n - 1].latest_values().push(vals[n - 1]));
        assert(states[0].latest_values() + vals =~= (states[0].latest_values() + front).push(
            vals[n - 1],
        ));
        lemma_evolves_transitive(&states[0], &states[n - 1], &states[n]);
    }
}

/// Keeping values is transitive.
pub proof fn lemma_keeps_values_transitive<X>(a: &TracingVec<X>, b: &TracingVec<X>, c: &TracingVec<X>)
    requires
        a.keeps_values(b),
        b.keeps_values(c),
    ensures
        a.keeps_values(c),
{
    assert forall|i: int| 0 <= i < a.arena().len() implies c.arena()[i] == a.arena()[i] by {
        assert(b.arena()[i] == a.arena()[i]);
    }
    assert(a.arena() =~= c.arena().subrange(0, a.arena().len() as int));
}

/// Every state evolves to itself.
pub proof fn lemma_evolves_reflexive<X>(a: &TracingVec<X>)
    requires
        a.wf(),
    ensures
        a.evolves_to(a),
{
}

/// A version-stable coordinate resolves, in every later state, to the entry it
/// named when it was valid; where no value was written in place, that entry
/// keeps its value.
pub proof fn lemma_timed_coordinate_stable<X>(a: &TracingVec<X>, b: &TracingVec<X>, t: TimedIndex)
    requires
        a.wf(),
        a.evolves_to(b),
        a.resolve(TracingIndex::Timed(t)) is Ok,
    ensures
        b.resolve(TracingIndex::Timed(t)) == a.resolve(TracingIndex::Timed(t)),
        a.keeps_values(b) ==> b.arena()[a.resolve(TracingIndex::Timed(t))->Ok_0 as int]
            == a.arena()[a.resolve(TracingIndex::Timed(t))->Ok_0 as int],
{
    let v = t.pseudotime as int;
    if v < a.now() {
        assert(b.versions()[v] == a.versions()[v]);
    } else {
        assert(a.current().is_prefix_of(b.versions()[a.now()]));
        assert(b.versions()[v][t.pos as int] == a.current()[t.pos as int]);
    }
    let p = a.resolve(TracingIndex::Timed(t))->Ok_0;
    assert(bounded(a.versions()[v], a.arena().len() as int));
    assert(p < a.arena().len());
}

/// The coordinate that an insertion returns resolves, in the state it left
/// and in every later one, to the new entry; that entry holds the inserted
/// value wherever no value was written in place since.
pub proof fn lemma_inserted_stays_resolvable<X>(
    a: &TracingVec<X>,
    b: &TracingVec<X>,
    c: &TracingVec<X>,
    p: usize,
    val: X,
)
    requires
        a.wf(),
        b.wf(),
        a.has_room(),
        p <= a.current().len(),
        a.inserts_at(b, p as int, val),
        b.evolves_to(c),
    ensures
        c.resolve(
            TracingIndex::Timed(TimedIndex { pos: p, pseudotime: (a.now() + 1) as usize }),
        ) == Ok::<usize, IndexError>(a.arena().len() as usize),
        b.keeps_values(c) ==> c.arena()[a.arena().len() as int] == val,
{
    let t = TimedIndex { pos: p, pseudotime: (a.now() + 1) as usize };
    let n = a.current().insert(p as int, a.arena().len() as usize);
    assert(b.versions().len() == a.versions().len() + 1);
    assert(b.versions()[a.now() + 1] == n);
    assert(n[p as int] == a.arena().len() as usize);
    assert(t.pseudotime == a.now() + 1 && t.pos == p);
    assert(b.resolve(TracingIndex::Timed(t)) == Ok::<usize, IndexError>(a.arena().len() as usize));
    lemma_timed_coordinate_stable(b, c, t);
}

/// The coordinate that a merging replacement returns resolves, in the state
/// it left and in every later one, to the new entry; that entry holds the
/// merged value wherever no value was written in place since.
pub proof fn lemma_merged_stays_resolvable<X>(
    a: &TracingVec<X>,
    b: &TracingVec<X>,
    c: &TracingVec<X>,
    ps: Seq<usize>,
    anchor: usize,
    val: X,
)
    requires
        a.wf(),
        b.wf(),
        a.has_room(),
        a.replaces_at(b, ps, anchor as int, val),
        b.evolves_to(c),
    ensures
        ({
            let rest = without_positions(a.current(), ps);
            let t = TimedIndex {
                pos: clamp(anchor as int, rest.len() as int) as usize,
                pseudotime: (a.now() + 1) as usize,
            };
            &&& c.resolve(TracingIndex::Timed(t)) == Ok::<usize, IndexError>(a.arena().len() as usize)
            &&& b.keeps_values(c) ==> c.arena()[a.arena().len() as int] == val
        }),
{
    let rest = without_positions(a.current(), ps);
    let at = clamp(anchor as int, rest.len() as int);
    let t = TimedIndex { pos: at as usize, pseudotime: (a.now() + 1) as usize };
    let n = rest.insert(at, a.arena().len() as usize);
    assert(b.versions().len() == a.versions().len() + 1);
    assert(b.versions()[a.now() + 1] == n);
    assert(n[at] == a.arena().len() as usize);
    assert(t.pseudotime == a.now() + 1 && t.pos == at);
    assert(b.resolve(TracingIndex::Timed(t)) == Ok::<usize, IndexError>(a.arena().len() as usize));
    lemma_timed_coordinate_stable(b, c, t);
}

/// An entry that is dead stays dead in every later state.
pub proof fn lemma_dead_stays_dead<X>(a: &TracingVec<X>, b: &TracingVec<X>, p: usize)
    requires
        a.evolves_to(b),
        p < a.arena().len(),
        !a.alive(p),
    ensures
        !b.alive(p),
{
}

/// A coordinate of a dead entry has no current position, while the entry's
/// arena position still resolves to its value.
pub proof fn lemma_dead_entry_resolves<X>(a: &TracingVec<X>, index: TracingIndex)
    requires
        a.wf(),
        a.resolve(index) is Ok,
        !a.alive(a.resolve(index)->Ok_0),
    ensures
        a.current_position(index) == Err::<usize, IndexError>(
            IndexError::DataAlreadyDead(TimelessIndex { pos: a.resolve(index)->Ok_0 }),
        ),
        a.resolve(TracingIndex::Timeless(TimelessIndex { pos: a.resolve(index)->Ok_0 }))
            == a.resolve(index),
{
    let v = match index {
        TracingIndex::Timed(t) => t.pseudotime as int,
        TracingIndex::Timeless(_) => 0,
    };
    assert(bounded(a.versions()[v], a.arena().len() as int));
}

/// Taking a well-formed vector apart yields parts that `from_parts` accepts,
/// and any vector rebuilt from them resolves every coordinate as the first one
/// did.
pub proof fn lemma_round_trip<X>(
    a: &TracingVec<X>,
    mem: Seq<Trace<X>>,
    snapshots: Seq<Vec<usize>>,
    b: &TracingVec<X>,
)
    requires
        a.wf(),
        mem.map_values(|t: Trace<X>| t.val) == a.arena(),
        mem.map_values(|t: Trace<X>| t.birth) == a.births(),
        snapshots.map_values(|s: Vec<usize>| s@) == a.versions(),
        b.arena() == mem.map_values(|t: Trace<X>| t.val),
        b.births() == mem.map_values(|t: Trace<X>| t.birth),
        b.versions() == snapshots.map_values(|s: Vec<usize>| s@),
    ensures
        well_laid_out(
            mem.len(),
            mem.map_values(|t: Trace<X>| t.birth),
            snapshots.map_values(|s: Vec<usize>| s@),
        ),
        b.wf(),
        forall|index: TracingIndex| #[trigger] b.resolve(index) == a.resolve(index),
        forall|index: TracingIndex| #[trigger] b.current_position(index) == a.current_position(index),
        b.latest_values() == a.latest_values(),
{
    assert(mem.len() == a.arena().len());
}

/// A successful batch names at least one position, each within the latest
/// ordering.
proof fn lemma_batch_bounds<X>(v: &TracingVec<X>, indices: Seq<TracingIndex>)
    requires
        v.batch(indices) is Ok,
    ensures
        v.batch(indices)->Ok_0.len() == indices.len() > 0,
        forall|k: int| 0 <= k < v.batch(indices)->Ok_0.len() ==> #[trigger] v.batch(
            indices,
        )->Ok_0[k] < v.current().len(),
{
    lemma_positions_bounds(v, indices);
}

proof fn lemma_positions_bounds<X>(v: &TracingVec<X>, indices: Seq<TracingIndex>)
    requires
        v.positions_of(indices) is Ok,
    ensures
        v.positions_of(indices)->Ok_0.len() == indices.len(),
        forall|k: int| 0 <= k < v.positions_of(indices)->Ok_0.len() ==> #[trigger] v.positions_of(
            indices,
        )->Ok_0[k] < v.current().len(),
    decreases indices.len(),
{
    if indices.len() > 0 {
        lemma_positions_bounds(v, indices.drop_last());
        let cur = v.current();
        assert(v.current_position(indices.last()) is Ok);
        let q = v.resolve(indices.last())->Ok_0;
        assert(v.alive(q));
        assert(cur.contains(q));
        assert(0 <= position_of(cur, q) < cur.len());
    }
}

/// The first anchor candidate is the first position given.
proof fn lemma_anchor_head(ps: Seq<usize>)
    requires
        ps.len() > 0,
    ensures
        anchor_candidates(ps).len() > 0,
        anchor_candidates(ps)[0] == ps[0],
    decreases ps.len(),
{
    if ps.len() > 1 {
        lemma_anchor_head(ps.drop_last());
    }
}

/// Once a prefix of `indices` fails to resolve, the whole list fails alike.
proof fn lemma_first_error<X>(v: &TracingVec<X>, indices: Seq<TracingIndex>, n: int)
    requires
        0 <= n <= indices.len(),
        v.positions_of(indices.take(n)) is Err,
    ensures
        v.positions_of(indices) == v.positions_of(indices.take(n)),
    decreases indices.len() - n,
{
    if n < indices.len() {
        assert(indices.take(n + 1).drop_last() =~= indices.take(n));
        lemma_first_error(v, indices, n + 1);
    } else {
        assert(indices.take(n) =~= indices);
    }
}

} // verus!