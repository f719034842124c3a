use vstd::prelude::*;

verus! {

/// `m` with `v` appended to the successor list of `k` (created if absent).
pub open spec fn map_push(m: Map<usize, Seq<usize>>, k: usize, v: usize) -> Map<
    usize,
    Seq<usize>,
> {
    if m.dom().contains(k) {
        m.insert(k, m[k].push(v))
    } else {
        m.insert(k, seq![v])
    }
}

/// The union of two stores: successor lists of common keys are concatenated,
/// all other entries are kept as they are.
pub open spec fn merged(a: Map<usize, Seq<usize>>, b: Map<usize, Seq<usize>>) -> Map<
    usize,
    Seq<usize>,
> {
    Map::new(
        |k: usize| a.dom().contains(k) || b.dom().contains(k),
        |k: usize|
            if a.dom().contains(k) && b.dom().contains(k) {
                a[k] + b[k]
            } else if b.dom().contains(k) {
                b[k]
            } else {
                a[k]
            },
    )
}

/// Control may proceed from `a` to `b` in one step.
pub open spec fn has_edge(m: Map<usize, Seq<usize>>, a: usize, b: usize) -> bool {
    m.dom().contains(a) && m[a].contains(b)
}

/// The keys of an entry list, in order.
pub open spec fn keys_of(es: Seq<(usize, Vec<usize>)>) -> Seq<usize> {
    es.map_values(|e: (usize, Vec<usize>)| e.0)
}

/// No key occurs twice in an entry list.
pub open spec fn keys_unique(es: Seq<(usize, Vec<usize>)>) -> bool {
    forall|i: int, j: int| 0 <= i < j < es.len() ==> es[i].0 != es[j].0
}

/// An entry list as a map from key to successor list.
pub open spec fn map_of(es: Seq<(usize, Vec<usize>)>) -> Map<usize, Seq<usize>> {
    Map::new(
        |k: usize| keys_of(es).contains(k),
        |k: usize| es[keys_of(es).index_of(k)].1@,
    )
}

/// Pushing an element onto a sequence adds exactly that element.
proof fn lemma_push_contains<T>(s: Seq<T>, x: T, y: T)
    ensures
        s.push(x).contains(y) <==> (s.contains(y) || y == x),
{
    if s.push(x).contains(y) {
        let j = choose|j: int| 0 <= j < s.push(x).len() && s.push(x)[j] == y;
        if j < s.len() {
            assert(s[j] == y);
        }
    }
    if s.contains(y) {
        let j = choose|j: int| 0 <= j < s.len() && s[j] == y;
        assert(s.push(x)[j] == y);
    }
    if y == x {
        assert(s.push(x)[s.len() as int] == y);
    }
}

/// The entry at a position determines the map at its key.
proof fn lemma_entry_at(es: Seq<(usize, Vec<usize>)>, i: int)
    requires
        keys_unique(es),
        0 <= i < es.len(),
    ensures
        map_of(es).dom().contains(es[i].0),
        map_of(es)[es[i].0] == es[i].1@,
        keys_of(es).index_of(es[i].0) == i,
{
    let k = es[i].0;
    assert(keys_of(es)[i] == k);
    let j = keys_of(es).index_of(k);
    assert(keys_of(es)[j] == k);
}

/// A key that no entry carries is not in the map.
proof fn lemma_entry_absent(es: Seq<(usize, Vec<usize>)>, k: usize)
    requires
        forall|i: int| 0 <= i < es.len() ==> (#[trigger] es[i]).0 != k,
    ensures
        !map_of(es).dom().contains(k),
{
    if keys_of(es).contains(k) {
        let j = choose|j: int| 0 <= j < keys_of(es).len() && keys_of(es)[j] == k;
        assert(es[j].0 == k);
    }
}

/// Taking one more entry extends the map with exactly that key.
proof fn lemma_take_one_more(es: Seq<(usize, Vec<usize>)>, i: int)
    requires
        keys_unique(es),
        0 <= i < es.len(),
    ensures
        keys_unique(es.take(i)),
        keys_unique(es.take(i + 1)),
        !map_of(es.take(i)).dom().contains(es[i].0),
        map_of(es.take(i + 1)) == map_of(es.take(i)).insert(es[i].0, es[i].1@),
{
    let part = es.take(i);
    let part2 = es.take(i + 1);
    let k = es[i].0;
    assert(forall|j: int| 0 <= j < i ==> part[j] == es[j]);
    assert(forall|j: int| 0 <= j <= i ==> part2[j] == es[j]);
    lemma_entry_absent(part, k);
    assert(keys_of(part2) =~= keys_of(part).push(k));
    assert(forall|k2: usize|
        #[trigger] keys_of(part2).contains(k2) <==> (keys_of(part).contains(k2) || k2 == k)) by {
        assert forall|k2: usize| true implies (#[trigger] keys_of(part2).contains(k2) <==> (keys_of(
            part,
        ).contains(k2) || k2 == k)) by {
            lemma_push_contains(keys_of(part), k, k2);
        }
    }
    assert forall|k2: usize| keys_of(part2).contains(k2) implies map_of(part2)[k2] == map_of(
        part,
    ).insert(k, es[i].1@)[k2] by {
        let j = keys_of(part2).index_of(k2);
        assert(keys_of(part2)[j] == k2);
        lemma_entry_at(part2, j);
        if j < i {
            lemma_entry_at(part, j);
        }
    }
    assert(map_of(part2) =~= map_of(part).insert(k, es[i].1@));
}

/// A directed edge store: a map from a node id to the ordered list of its
/// successors.  Entries are kept in insertion order so that results are
/// deterministic; keys are unique.
pub struct Edges {
    entries: Vec<(usize, Vec<usize>)>,
}

/// Merging another store into this one.
pub trait Merge: Sized {
    /// The well-formedness the store maintains.
    spec fn inv(&self) -> bool;

    /// The store's contents as a map from key to successor list.
    spec fn as_map(&self) -> Map<usize, Seq<usize>>;

    /// Takes the union of the two stores, concatenating the successor lists
    /// of common keys.
    fn merge(&mut self, other: &Edges)
        requires
            old(self).inv(),
            other.wf(),
        ensures
            final(self).inv(),
            final(self).as_map() == merged(old(self).as_map(), other@),
    ;
}

impl Edges {
    /// The store as a map from key to successor list.
    pub closed spec fn view(self) -> Map<usize, Seq<usize>> {
        map_of(self.entries@)
    }

    /// Keys are unique, so each key has one successor list.  Every
    /// constructor establishes this and every method preserves it.
    pub closed spec fn wf(self) -> bool {
        keys_unique(self.entries@)
    }

    pub fn new() -> (r: Edges)
        ensures
            r.wf(),
            r@ == Map::<usize, Seq<usize>>::empty(),
    {
        let r = Edges { entries: Vec::new() };
        proof {
            assert(r@ =~= Map::<usize, Seq<usize>>::empty());
        }
        r
    }

    /// The number of keys that have a successor list.
    pub fn len(&self) -> (n: usize)
        requires
            self.wf(),
        ensures
            n == self@.dom().len(),
    {
        proof {
            assert(self@.dom() =~= keys_of(self.entries@).to_set());
            assert(keys_of(self.entries@).no_duplicates());
            keys_of(self.entries@).unique_seq_to_set();
        }
        self.entries.len()
    }

    /// The position of a key in the entry list, if present.
    fn find_key(&self, k: usize) -> (r: Option<usize>)
        ensures
            match r {
                Some(i) => i < self.entries@.len() && self.entries@[i as int].0 == k,
                None => !self@.dom().contains(k) && (forall|j: int|
                    0 <= j < self.entries@.len() ==> (#[trigger] self.entries@[j]).0 != k),
            },
    {
        let mut i: usize = 0;
        while i < self.entries.len()
            invariant
                i <= self.entries@.len(),
                forall|j: int| 0 <= j < i ==> (#[trigger] self.entries@[j]).0 != k,
            decreases self.entries@.len() - i,
        {
            if self.entries[i].0 == k {
                return Some(i);
            }
            i += 1;
        }
        proof {
            lemma_entry_absent(self.entries@, k);
        }
        None
    }

    /// The successor list of `k`, if `k` has one.
    pub fn get(&self, k: usize) -> (r: Option<&Vec<usize>>)
        requires
            self.wf(),
        ensures
            match r {
                Some(v) => self@.dom().contains(k) && v@ == self@[k],
                None => !self@.dom().contains(k),
            },
    {
        match self.find_key(k) {
            Some(i) => {
                proof {
                    lemma_entry_at(self.entries@, i as int);
                }
                Some(&self.entries[i].1)
            },
            None => None,
        }
    }

    /// Appends `v` to the successor list of `k`, creating the list when `k`
    /// has none yet.
    pub fn push_succ(&mut self, k: usize, v: usize)
        requires
            old(self).wf(),
        ensures
            final(self).wf(),
            final(self)@ == map_push(old(self)@, k, v),
    {
        let ghost pre = self.entries@;
        match self.find_key(k) {
            Some(i) => {
                proof {
                    lemma_entry_at(pre, i as int);
                }
                self.entries[i].1.push(v);
                proof {
                    let es = self.entries@;
                    assert(keys_of(es) =~= keys_of(pre));
                    assert forall|k2: usize| keys_of(es).contains(k2) implies map_of(es)[k2]
                        == map_push(map_of(pre), k, v)[k2] by {
                        let j = keys_of(es).index_of(k2);
                        assert(keys_of(es)[j] == k2);
                        lemma_entry_at(pre, j);
                        lemma_entry_at(es, j);
                    }
                    assert(map_of(es) =~= map_push(map_of(pre), k, v));
                }
            },
            None => {
                let mut nv: Vec<usize> = Vec::new();
                nv.push(v);
                self.entries.push((k, nv));
                proof {
                    let es = self.entries@;
                    assert(keys_of(es) =~= keys_of(pre).push(k));
                    assert(forall|k2: usize|
                        #[trigger] keys_of(es).contains(k2) <==> (keys_of(pre).contains(k2) || k2
                            == k)) by {
                        assert forall|k2: usize| true implies (#[trigger] keys_of(es).contains(k2)
                            <==> (keys_of(pre).contains(k2) || k2 == k)) by {
                            lemma_push_contains(keys_of(pre), k, k2);
                        }
                    }
                    lemma_entry_absent(pre, k);
                    assert forall|k2: usize| keys_of(es).contains(k2) implies map_of(es)[k2]
                        == map_push(map_of(pre), k, v)[k2] by {
                        let j = keys_of(es).index_of(k2);
                        assert(keys_of(es)[j] == k2);
                        lemma_entry_at(es, j);
                        if j < pre.len() {
                            lemma_entry_at(pre, j);
                        }
                    }
                    assert(map_of(es) =~= map_push(map_of(pre), k, v));
                }
            },
        }
    }

    /// Replaces the successor list of `k` with `v`, creating the entry when
    /// `k` has none yet.
    pub fn insert(&mut self, k: usize, v: Vec<usize>)
        requires
            old(self).wf(),
        ensures
            final(self).wf(),
            final(self)@ == old(self)@.insert(k, v@),
    {
        let ghost pre = self.entries@;
        let ghost vv = v@;
        match self.find_key(k) {
            Some(i) => {
                proof {
                    lemma_entry_at(pre, i as int);
                }
                let e: &mut (usize, Vec<usize>) = &mut self.entries[i];
                e.1 = v;
                proof {
                    let es = self.entries@;
                    assert(keys_of(es) =~= keys_of(pre));
                    assert forall|k2: usize| keys_of(es).contains(k2) implies map_of(es)[k2]
                        == map_of(pre).insert(k, vv)[k2] by {
                        let j = keys_of(es).index_of(k2);
                        assert(keys_of(es)[j] == k2);
                        lemma_entry_at(pre, j);
                        lemma_entry_at(es, j);
                    }
                    assert(map_of(es) =~= map_of(pre).insert(k, vv));
                }
            },
            None => {
                self.entries.push((k, v));
                proof {
                    let es = self.entries@;
                    assert(keys_of(es) =~= keys_of(pre).push(k));
                    assert(forall|k2: usize|
                        #[trigger] keys_of(es).contains(k2) <==> (keys_of(pre).contains(k2) || k2
                            == k)) by {
                        assert forall|k2: usize| true implies (#[trigger] keys_of(es).contains(k2)
                            <==> (keys_of(pre).contains(k2) || k2 == k)) by {
                            lemma_push_contains(keys_of(pre), k, k2);
                        }
                    }
                    lemma_entry_absent(pre, k);
                    assert forall|k2: usize| keys_of(es).contains(k2) implies map_of(es)[k2]
                        == map_of(pre).insert(k, vv)[k2] by {
                        let j = keys_of(es).index_of(k2);
                        assert(keys_of(es)[j] == k2);
                        lemma_entry_at(es, j);
                        if j < pre.len() {
                            lemma_entry_at(pre, j);
                        }
                    }
                    assert(map_of(es) =~= map_of(pre).insert(k, vv));
                }
            },
        }
    }

    /// Merges another store into this one: successor lists of keys present
    /// in both are concatenated, other entries are adopted as they are.
    pub fn merge_from(&mut self, other: &Edges)
        requires
            old(self).wf(),
            other.wf(),
        ensures
            final(self).wf(),
            final(self)@ == merged(old(self)@, other@),
    {
        let ghost pre = self.entries@;
        let mut i: usize = 0;
        while i < other.entries.len()
            invariant
                keys_unique(other.entries@),
                self.wf(),
                i <= other.entries@.len(),
                self@ == merged(map_of(pre), map_of(other.entries@.take(i as int))),
            decreases other.entries@.len() - i,
        {
            proof {
                lemma_entry_at(other.entries@, i as int);
                lemma_take_one_more(other.entries@, i as int);
            }
            let ghost loop_pre = self.entries@;
            let k = other.entries[i].0;
            match self.find_key(k) {
                Some(idx) => {
                    proof {
                        lemma_entry_at(loop_pre, idx as int);
                    }
                    let e: &mut (usize, Vec<usize>) = &mut self.entries[idx];
                    e.1.extend_from_slice(other.entries[i].1.as_slice());
                    proof {
                        let es = self.entries@;
                        assert(keys_of(es) =~= keys_of(loop_pre));
                        assert forall|k2: usize| keys_of(es).contains(k2) implies map_of(es)[k2]
                            == map_push_list(map_of(loop_pre), k, other.entries@[i as int].1@)[k2]
                            by {
                            let j = keys_of(es).index_of(k2);
                            assert(keys_of(es)[j] == k2);
                            lemma_entry_at(loop_pre, j);
                            lemma_entry_at(es, j);
                        }
                        assert(map_of(es) =~= map_push_list(
                            map_of(loop_pre),
                            k,
                            other.entries@[i as int].1@,
                        ));
                        assert(map_of(es) =~= merged(
                            map_of(pre),
                            map_of(other.entries@.take(i + 1)),
                        ));
                    }
                },
                None => {
                    let nv: Vec<usize> = clone_list(&other.entries[i].1);
                    self.entries.push((k, nv));
                    proof {
                        let es = self.entries@;
                        assert(keys_of(es) =~= keys_of(loop_pre).push(k));
                        assert(forall|k2: usize|
                            #[trigger] keys_of(es).contains(k2) <==> (keys_of(loop_pre).contains(
                                k2,
                            ) || k2 == k)) by {
                            assert forall|k2: usize| true implies (#[trigger] keys_of(es).contains(
                                k2,
                            ) <==> (keys_of(loop_pre).contains(k2) || k2 == k)) by {
                                lemma_push_contains(keys_of(loop_pre), k, k2);
                            }
                        }
                        lemma_entry_absent(loop_pre, k);
                        assert forall|k2: usize| keys_of(es).contains(k2) implies map_of(es)[k2]
                            == map_push_list(map_of(loop_pre), k, other.entries@[i as int].1@)[k2]
                            by {
                            let j = keys_of(es).index_of(k2);
                            assert(keys_of(es)[j] == k2);
                            lemma_entry_at(es, j);
                            if j < loop_pre.len() {
                                lemma_entry_at(loop_pre, j);
                            }
                        }
                        assert(map_of(es) =~= map_push_list(
                            map_of(loop_pre),
                            k,
                            other.entries@[i as int].1@,
                        ));
                        assert(map_of(es) =~= merged(
                            map_of(pre),
                            map_of(other.entries@.take(i + 1)),
                        ));
                    }
                },
            }
            i += 1;
        }
        proof {
            assert(other.entries@.take(other.entries@.len() as int) =~= other.entries@);
            assert(final(self)@ =~= merged(old(self)@, other@));
        }
    }

    /// Adopts every entry of another store, replacing the successor lists of
    /// keys present in both.
    pub fn extend_from(&mut self, other: &Edges)
        requires
            old(self).wf(),
            other.wf(),
        ensures
            final(self).wf(),
            final(self)@ == old(self)@.union_prefer_right(other@),
    {
        let ghost pre = self.entries@;
        let mut i: usize = 0;
        proof {
            assert(map_of(pre).union_prefer_right(map_of(other.entries@.take(0))) =~= map_of(
                pre,
            ));
        }
        while i < other.entries.len()
            invariant
                keys_unique(other.entries@),
                self.wf(),
                i <= other.entries@.len(),
                self@ == map_of(pre).union_prefer_right(map_of(other.entries@.take(i as int))),
            decreases other.entries@.len() - i,
        {
            proof {
                lemma_entry_at(other.entries@, i as int);
                lemma_take_one_more(other.entries@, i as int);
            }
            let k = other.entries[i].0;
            let nv: Vec<usize> = clone_list(&other.entries[i].1);
            self.insert(k, nv);
            proof {
                assert(self@ =~= map_of(pre).union_prefer_right(
                    map_of(other.entries@.take(i + 1)),
                ));
            }
            i += 1;
        }
        proof {
            assert(other.entries@.take(other.entries@.len() as int) =~= other.entries@);
        }
    }

    /// Every edge of the store, as a list of pairs.
    pub fn pairs(&self) -> (r: Vec<(usize, usize)>)
        requires
            self.wf(),
        ensures
            forall|a: usize, b: usize| r@.contains((a, b)) <==> has_edge(self@, a, b),
    {
        let mut r: Vec<(usize, usize)> = Vec::new();
        let mut i: usize = 0;
        while i < self.entries.len()
            invariant
                keys_unique(self.entries@),
                i <= self.entries@.len(),
                forall|a: usize, b: usize| r@.contains((a, b)) ==> has_edge(self@, a, b),
                forall|ei: int, j: int|
                    0 <= ei < i && 0 <= j < self.entries@[ei].1@.len() ==> r@.contains(
                        (self.entries@[ei].0, #[trigger] self.entries@[ei].1@[j]),
                    ),
            decreases self.entries@.len() - i,
        {
            let k = self.entries[i].0;
            let mut j: usize = 0;
            while j < self.entries[i].1.len()
                invariant
                    keys_unique(self.entries@),
                    i < self.entries@.len(),
                    k == self.entries@[i as int].0,
                    j <= self.entries@[i as int].1@.len(),
                    forall|a: usize, b: usize| r@.contains((a, b)) ==> has_edge(self@, a, b),
                    forall|ei: int, jj: int|
                        0 <= ei < i && 0 <= jj < self.entries@[ei].1@.len() ==> r@.contains(
                            (self.entries@[ei].0, #[trigger] self.entries@[ei].1@[jj]),
                        ),
                    forall|jj: int|
                        0 <= jj < j ==> r@.contains(
                            (self.entries@[i as int].0, #[trigger] self.entries@[i as int].1@[jj]),
                        ),
                decreases self.entries@[i as int].1@.len() - j,
            {
                let b = self.entries[i].1[j];
                proof {
                    lemma_entry_at(self.entries@, i as int);
                    assert(self@[k][j as int] == b);
                }
                let ghost r_pre = r@;
                r.push((k, b));
                proof {
                    assert(forall|p: (usize, usize)|
                        r_pre.contains(p) ==> #[trigger] r@.contains(p)) by {
                        assert forall|p: (usize, usize)| r_pre.contains(p) implies #[trigger] r@
                            .contains(p) by {
                            lemma_push_contains(r_pre, (k, b), p);
                        }
                    }
                    assert(r@.contains((k, b))) by {
                        lemma_push_contains(r_pre, (k, b), (k, b));
                    }
                    assert(forall|p: (usize, usize)|
                        #[trigger] r@.contains(p) ==> r_pre.contains(p) || p == (k, b)) by {
                        assert forall|p: (usize, usize)| #[trigger] r@.contains(p) implies r_pre
                            .contains(p) || p == (k, b) by {
                            lemma_push_contains(r_pre, (k, b), p);
                        }
                    }
                }
                j += 1;
            }
            i += 1;
        }
        proof {
            assert forall|a: usize, b: usize| has_edge(self@, a, b) implies r@.contains(
                (a, b),
            ) by {
                assert(keys_of(self.entries@).contains(a));
                let ji = keys_of(self.entries@).index_of(a);
                assert(keys_of(self.entries@)[ji] == a);
                lemma_entry_at(self.entries@, ji);
                let bj = choose|bj: int| 0 <= bj < self@[a].len() && self@[a][bj] == b;
                assert(self.entries@[ji].1@[bj] == b);
            }
        }
        r
    }
}

/// `m` with the whole list `vs` appended to the successor list of `k`.
pub open spec fn map_push_list(m: Map<usize, Seq<usize>>, k: usize, vs: Seq<usize>) -> Map<
    usize,
    Seq<usize>,
> {
    if m.dom().contains(k) {
        m.insert(k, m[k] + vs)
    } else {
        m.insert(k, vs)
    }
}

/// Copies a list of ids.
fn clone_list(v: &Vec<usize>) -> (r: Vec<usize>)
    ensures
        r@ == v@,
{
    let mut r: Vec<usize> = Vec::new();
    let mut i: usize = 0;
    while i < v.len()
        invariant
            i <= v@.len(),
            r@ == v@.take(i as int),
        decreases v@.len() - i,
    {
        r.push(v[i]);
        proof {
            assert(v@.take(i + 1) =~= v@.take(i as int).push(v@[i as int]));
        }
        i += 1;
    }
    proof {
        assert(v@.take(v@.len() as int) =~= v@);
    }
    r
}

impl Merge for Edges {
    open spec fn inv(&self) -> bool {
        self.wf()
    }

    open spec fn as_map(&self) -> Map<usize, Seq<usize>> {
        self@
    }

    fn merge(&mut self, other: &Edges) {
        self.merge_from(other);
    }
}

} // verus!
