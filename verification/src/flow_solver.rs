use vstd::prelude::*;
use vstd::set_lib::lemma_len_subset;

use crate::edges::Edges;
use crate::edges::has_edge;
use crate::edges::merged;

verus! {

/// There is a non-empty path of at most `n` edges from `a` to `b`.
pub open spec fn step_reach(es: Set<(usize, usize)>, a: usize, b: usize, n: nat) -> bool
    decreases n,
{
    if n == 0 {
        false
    } else {
        es.contains((a, b)) || exists|m: usize|
            step_reach(es, a, m, (n - 1) as nat) && es.contains((m, b))
    }
}

/// `b` is reachable from `a` through one or more edges of `es`.
pub open spec fn reaches(es: Set<(usize, usize)>, a: usize, b: usize) -> bool {
    exists|n: nat| step_reach(es, a, b, n)
}

/// The set of edges of an edge store, as pairs.
pub open spec fn edge_set(m: Map<usize, Seq<usize>>) -> Set<(usize, usize)> {
    Set::new(|p: (usize, usize)| has_edge(m, p.0, p.1))
}

/// A path fitting in `n` edges fits in any larger bound.
pub proof fn lemma_step_mono(es: Set<(usize, usize)>, a: usize, b: usize, n: nat, n2: nat)
    requires
        step_reach(es, a, b, n),
        n <= n2,
    ensures
        step_reach(es, a, b, n2),
    decreases n,
{
    if es.contains((a, b)) {
    } else {
        let m = choose|m: usize| step_reach(es, a, m, (n - 1) as nat) && es.contains((m, b));
        lemma_step_mono(es, a, m, (n - 1) as nat, (n2 - 1) as nat);
        assert(step_reach(es, a, m, (n2 - 1) as nat) && es.contains((m, b)));
    }
}

/// Every edge is a reachable pair.
pub proof fn lemma_edge_reaches(es: Set<(usize, usize)>, a: usize, b: usize)
    requires
        es.contains((a, b)),
    ensures
        reaches(es, a, b),
{
    assert(step_reach(es, a, b, 1));
}

proof fn lemma_step_trans(es: Set<(usize, usize)>, a: usize, b: usize, c: usize, n1: nat, n2: nat)
    requires
        step_reach(es, a, b, n1),
        step_reach(es, b, c, n2),
    ensures
        step_reach(es, a, c, n1 + n2),
    decreases n2,
{
    if es.contains((b, c)) {
        assert(step_reach(es, a, c, n1 + 1)) by {
            assert(step_reach(es, a, b, n1) && es.contains((b, c)));
        }
        lemma_step_mono(es, a, c, n1 + 1, n1 + n2);
    } else {
        let m = choose|m: usize| step_reach(es, b, m, (n2 - 1) as nat) && es.contains((m, c));
        lemma_step_trans(es, a, b, m, n1, (n2 - 1) as nat);
        assert(step_reach(es, a, m, (n1 + n2 - 1) as nat) && es.contains((m, c)));
    }
}

/// Reachability is transitive.
pub proof fn lemma_reaches_trans(es: Set<(usize, usize)>, a: usize, b: usize, c: usize)
    requires
        reaches(es, a, b),
        reaches(es, b, c),
    ensures
        reaches(es, a, c),
{
    let n1 = choose|n: nat| step_reach(es, a, b, n);
    let n2 = choose|n: nat| step_reach(es, b, c, n);
    lemma_step_trans(es, a, b, c, n1, n2);
}

/// A node that reaches anything has an outgoing edge.
pub proof fn lemma_reaches_has_out_edge(es: Set<(usize, usize)>, a: usize, b: usize)
    requires
        reaches(es, a, b),
    ensures
        exists|c: usize| es.contains((a, c)),
{
    let n = choose|n: nat| step_reach(es, a, b, n);
    lemma_step_out_edge(es, a, b, n);
}

proof fn lemma_step_out_edge(es: Set<(usize, usize)>, a: usize, b: usize, n: nat)
    requires
        step_reach(es, a, b, n),
    ensures
        exists|c: usize| es.contains((a, c)),
    decreases n,
{
    if es.contains((a, b)) {
    } else {
        let m = choose|m: usize| step_reach(es, a, m, (n - 1) as nat) && es.contains((m, b));
        lemma_step_out_edge(es, a, m, (n - 1) as nat);
    }
}

/// The edges of a merged store are the union of the edges of its parts.
pub proof fn lemma_merged_edge_set(a: Map<usize, Seq<usize>>, b: Map<usize, Seq<usize>>)
    ensures
        edge_set(merged(a, b)) == edge_set(a).union(edge_set(b)),
{
    assert forall|p: (usize, usize)|
        edge_set(merged(a, b)).contains(p) <==> edge_set(a).union(edge_set(b)).contains(p) by {
        let m = merged(a, b);
        let (x, y) = p;
        if a.dom().contains(x) && b.dom().contains(x) {
            assert(m[x] == a[x] + b[x]);
            if has_edge(m, x, y) {
                let j = choose|j: int| 0 <= j < m[x].len() && m[x][j] == y;
                if j < a[x].len() {
                    assert(a[x][j] == y);
                } else {
                    assert(b[x][j - a[x].len()] == y);
                }
            }
            if has_edge(a, x, y) {
                let j = choose|j: int| 0 <= j < a[x].len() && a[x][j] == y;
                assert(m[x][j] == y);
            }
            if has_edge(b, x, y) {
                let j = choose|j: int| 0 <= j < b[x].len() && b[x][j] == y;
                assert(m[x][j + a[x].len()] == y);
            }
        }
    }
    assert(edge_set(merged(a, b)) =~= edge_set(a).union(edge_set(b)));
}

/// Merging commutes as far as reachability is concerned: the merge of `a`
/// and `b` and the merge of `b` and `a` let the same pairs reach each other.
pub proof fn lemma_merge_comm_reach(
    a: Map<usize, Seq<usize>>,
    b: Map<usize, Seq<usize>>,
    x: usize,
    y: usize,
)
    ensures
        reaches(edge_set(merged(a, b)), x, y) == reaches(edge_set(merged(b, a)), x, y),
{
    lemma_merged_edge_set(a, b);
    lemma_merged_edge_set(b, a);
    assert(edge_set(a).union(edge_set(b)) =~= edge_set(b).union(edge_set(a)));
}

/// Merging associates as far as reachability is concerned: merging `b` into
/// `a` and then `c`, or `c` into `b` and then the result into `a`, lets the
/// same pairs reach each other.
pub proof fn lemma_merge_assoc_reach(
    a: Map<usize, Seq<usize>>,
    b: Map<usize, Seq<usize>>,
    c: Map<usize, Seq<usize>>,
    x: usize,
    y: usize,
)
    ensures
        reaches(edge_set(merged(merged(a, b), c)), x, y) == reaches(
            edge_set(merged(a, merged(b, c))),
            x,
            y,
        ),
{
    lemma_merged_edge_set(merged(a, b), c);
    lemma_merged_edge_set(a, b);
    lemma_merged_edge_set(a, merged(b, c));
    lemma_merged_edge_set(b, c);
    assert(edge_set(merged(merged(a, b), c)) =~= edge_set(merged(a, merged(b, c))));
}

/// The set of reachable pairs, with membership queries.
pub trait Reachable {
    /// The relation the value holds.
    spec fn rel(&self) -> Set<(usize, usize)>;

    /// Whether `b` is reachable from `a`.
    fn is_reachable(&self, a: usize, b: usize) -> (r: bool)
        ensures
            r == self.rel().contains((a, b)),
    ;
}

/// The materialized reachability relation of an edge store.
pub struct Domain {
    pairs: Vec<(usize, usize)>,
}

impl View for Domain {
    type V = Set<(usize, usize)>;

    closed spec fn view(&self) -> Set<(usize, usize)> {
        self.pairs@.to_set()
    }
}

impl Reachable for Domain {
    open spec fn rel(&self) -> Set<(usize, usize)> {
        self@
    }

    fn is_reachable(&self, a: usize, b: usize) -> (r: bool) {
        contains_pair(&self.pairs, a, b)
    }
}

/// Whether the list holds the pair `(a, b)`.
fn contains_pair(v: &Vec<(usize, usize)>, a: usize, b: usize) -> (r: bool)
    ensures
        r == v@.contains((a, b)),
{
    let mut i: usize = 0;
    while i < v.len()
        invariant
            i <= v@.len(),
            forall|j: int| 0 <= j < i ==> (#[trigger] v@[j]) != (a, b),
        decreases v@.len() - i,
    {
        if v[i].0 == a && v[i].1 == b {
            proof {
                assert(v@[i as int] == (a, b));
            }
            return true;
        }
        i += 1;
    }
    proof {
        if v@.contains((a, b)) {
            let j = choose|j: int| 0 <= j < v@.len() && v@[j] == (a, b);
        }
    }
    false
}

/// Whether the list holds the id `x`.
fn contains_id(v: &Vec<usize>, x: usize) -> (r: bool)
    ensures
        r == v@.contains(x),
{
    let mut i: usize = 0;
    while i < v.len()
        invariant
            i <= v@.len(),
            forall|j: int| 0 <= j < i ==> (#[trigger] v@[j]) != x,
        decreases v@.len() - i,
    {
        if v[i] == x {
            proof {
                assert(v@[i as int] == x);
            }
            return true;
        }
        i += 1;
    }
    proof {
        if v@.contains(x) {
            let j = choose|j: int| 0 <= j < v@.len() && v@[j] == x;
        }
    }
    false
}

/// When every edge out of a found node, and out of the start, lands on a
/// found node, every path from the start stays among the found nodes.
proof fn lemma_closed_under_step(
    es: Set<(usize, usize)>,
    a: usize,
    b: usize,
    n: nat,
    found: Seq<usize>,
)
    requires
        step_reach(es, a, b, n),
        forall|x: usize, c: usize|
            (found.contains(x) || x == a) && #[trigger] es.contains((x, c)) ==> found.contains(c),
    ensures
        found.contains(b),
    decreases n,
{
    if es.contains((a, b)) {
    } else {
        let m = choose|m: usize| step_reach(es, a, m, (n - 1) as nat) && es.contains((m, b));
        lemma_closed_under_step(es, a, m, (n - 1) as nat, found);
    }
}

/// Every id that occurs in the edge list, as either endpoint.
spec fn endpoints(base: Seq<(usize, usize)>) -> Seq<usize> {
    base.map_values(|p: (usize, usize)| p.0) + base.map_values(|p: (usize, usize)| p.1)
}

/// A sequence without duplicates stays duplicate-free when a fresh element
/// is pushed.
proof fn lemma_push_no_dup<T>(s: Seq<T>, x: T)
    requires
        s.no_duplicates(),
        !s.contains(x),
    ensures
        s.push(x).no_duplicates(),
{
    let s2 = s.push(x);
    assert forall|i: int, j: int| 0 <= i < j < s2.len() implies s2[i] != s2[j] by {
        if j < s.len() {
            assert(s[i] != s[j]);
        } else {
            if s2[i] == x {
                assert(s.contains(s2[i])) by {
                    assert(s[i] == s2[i]);
                }
            }
        }
    }
}

/// Every node reachable from `a` along the given edges.
fn reach_from(a: usize, base: &Vec<(usize, usize)>) -> (found: Vec<usize>)
    ensures
        forall|b: usize| #[trigger] found@.contains(b) <==> reaches(base@.to_set(), a, b),
{
    let ghost es = base@.to_set();
    let ghost univ = endpoints(base@).to_set();
    let mut found: Vec<usize> = Vec::new();
    let mut queue: Vec<usize> = Vec::new();
    queue.push(a);
    proof {
        assert(queue@.contains(a)) by {
            assert(queue@[0] == a);
        }
        assert(found@.len() <= univ.len()) by {
            found@.unique_seq_to_set();
            assert(found@.to_set().subset_of(univ));
            lemma_len_subset(found@.to_set(), univ);
        }
        assert(forall|x: usize| #[trigger] queue@.contains(x) ==> x == a) by {
            assert forall|x: usize| #[trigger] queue@.contains(x) implies x == a by {
                let jq = choose|jq: int| 0 <= jq < queue@.len() && queue@[jq] == x;
            }
        }
    }
    while queue.len() > 0
        invariant
            found@.no_duplicates(),
            found@.len() <= univ.len(),
            univ.finite(),
            es == base@.to_set(),
            univ == endpoints(base@).to_set(),
            forall|b: usize| #[trigger] found@.contains(b) ==> reaches(es, a, b),
            forall|b: usize| #[trigger] found@.contains(b) ==> univ.contains(b),
            forall|x: usize| #[trigger] queue@.contains(x) ==> x == a || found@.contains(x),
            forall|x: usize, c: usize|
                (found@.contains(x) || x == a) && !queue@.contains(x) && #[trigger] es.contains(
                    (x, c),
                ) ==> found@.contains(c),
        decreases univ.len() + 1 - found@.len(), queue@.len(),
    {
        let ghost found_at_entry = found@;
        let ghost queue_at_entry = queue@;
        let x = match queue.pop() {
            Some(x) => x,
            None => {
                proof {
                    assert(false);
                }
                0
            },
        };
        proof {
            assert(queue_at_entry =~= queue@.push(x));
            assert(queue_at_entry.contains(x)) by {
                assert(queue_at_entry[queue_at_entry.len() - 1] == x);
            }
            assert(forall|x2: usize|
                #[trigger] queue_at_entry.contains(x2) <==> (queue@.contains(x2) || x2 == x)) by {
                assert forall|x2: usize| true implies (#[trigger] queue_at_entry.contains(x2) <==> (
                queue@.contains(x2) || x2 == x)) by {
                    lemma_seq_push_contains(queue@, x, x2);
                }
            }
            assert forall|x2: usize| #[trigger] queue@.contains(x2) implies x2 == a
                || found@.contains(x2) by {
                assert(queue_at_entry.contains(x2));
            }
        }
        let mut j: usize = 0;
        while j < base.len()
            invariant
                found@.no_duplicates(),
                found@.len() <= univ.len(),
                univ.finite(),
                es == base@.to_set(),
                univ == endpoints(base@).to_set(),
                j <= base@.len(),
                forall|b: usize| #[trigger] found@.contains(b) ==> reaches(es, a, b),
                forall|b: usize| #[trigger] found@.contains(b) ==> univ.contains(b),
                forall|x2: usize| #[trigger] queue@.contains(x2) ==> x2 == a || found@.contains(x2),
                x == a || found@.contains(x) || reaches(es, a, x),
                forall|x2: usize, c: usize|
                    (found@.contains(x2) || x2 == a) && !queue@.contains(x2) && x2 != x
                        && #[trigger] es.contains((x2, c)) ==> found@.contains(c),
                forall|jj: int|
                    0 <= jj < j && (#[trigger] base@[jj]).0 == x ==> found@.contains(base@[jj].1),
                found_at_entry.len() <= found@.len(),
                found@.len() > found_at_entry.len() || queue@.len() < queue_at_entry.len(),
            decreases base@.len() - j,
        {
            let e0 = base[j].0;
            let e1 = base[j].1;
            if e0 == x {
                if !contains_id(&found, e1) {
                    proof {
                        assert(base@[j as int] == (x, e1));
                        assert(base@.contains((x, e1)));
                        assert(es.contains((x, e1)));
                        if x == a {
                            lemma_edge_reaches(es, a, e1);
                        } else {
                            lemma_reaches_trans_edge(es, a, x, e1);
                        }
                        assert(endpoints(base@)[j + base@.len()] == e1);
                        assert(endpoints(base@).contains(e1));
                        assert(univ.contains(e1));
                    }
                    let ghost found_pre = found@;
                    let ghost queue_pre = queue@;
                    found.push(e1);
                    queue.push(e1);
                    proof {
                        assert(found@ == found_pre.push(e1));
                        assert(queue@ == queue_pre.push(e1));
                        assert(forall|b: usize|
                            #[trigger] found@.contains(b) <==> (found_pre.contains(b) || b
                                == e1)) by {
                            assert forall|b: usize| true implies (#[trigger] found@.contains(b)
                                <==> (found_pre.contains(b) || b == e1)) by {
                                lemma_seq_push_contains(found_pre, e1, b);
                            }
                        }
                        assert(forall|b: usize|
                            #[trigger] queue@.contains(b) <==> (queue_pre.contains(b) || b
                                == e1)) by {
                            assert forall|b: usize| true implies (#[trigger] queue@.contains(b)
                                <==> (queue_pre.contains(b) || b == e1)) by {
                                lemma_seq_push_contains(queue_pre, e1, b);
                            }
                        }
                        lemma_push_no_dup(found_pre, e1);
                        found@.unique_seq_to_set();
                        assert(found@.to_set().subset_of(univ));
                        lemma_len_subset(found@.to_set(), univ);
                    }
                }
            }
            j += 1;
        }
        proof {
            // after the scan, `x` is fully expanded
            assert forall|x2: usize, c: usize|
                (found@.contains(x2) || x2 == a) && !queue@.contains(x2) && #[trigger] es.contains(
                    (x2, c),
                ) implies found@.contains(c) by {
                if x2 == x {
                    let jj = choose|jj: int| 0 <= jj < base@.len() && base@[jj] == (x, c);
                    assert(base@[jj].0 == x && base@[jj].1 == c);
                }
            }
        }
    }
    proof {
        assert forall|b: usize| reaches(es, a, b) implies found@.contains(b) by {
            let n = choose|n: nat| step_reach(es, a, b, n);
            lemma_closed_under_step(es, a, b, n, found@);
        }
    }
    found
}

/// One edge more at the end of a path keeps the target reachable.
proof fn lemma_reaches_trans_edge(es: Set<(usize, usize)>, a: usize, x: usize, c: usize)
    requires
        reaches(es, a, x),
        es.contains((x, c)),
    ensures
        reaches(es, a, c),
{
    let n = choose|n: nat| step_reach(es, a, x, n);
    assert(step_reach(es, a, c, n + 1)) by {
        assert(step_reach(es, a, x, n) && es.contains((x, c)));
    }
}

/// Materializes the transitive closure of the edge relation: the result
/// holds `(a, b)` exactly when `b` is reachable from `a` through one or
/// more edges of the store.
pub fn solve(edges: &Edges) -> (r: Domain)
    requires
        edges.wf(),
    ensures
        forall|a: usize, b: usize| #[trigger] r@.contains((a, b)) <==> reaches(
            edge_set(edges@),
            a,
            b,
        ),
{
    let base: Vec<(usize, usize)> = edges.pairs();
    proof {
        assert(base@.to_set() =~= edge_set(edges@));
    }
    let ghost es = edge_set(edges@);
    let mut result: Vec<(usize, usize)> = Vec::new();
    let mut i: usize = 0;
    while i < base.len()
        invariant
            i <= base@.len(),
            base@.to_set() == es,
            forall|a: usize, b: usize| base@.contains((a, b)) <==> es.contains((a, b)),
            forall|a: usize, b: usize| #[trigger] result@.contains((a, b)) ==> reaches(es, a, b),
            forall|a: usize, b: usize|
                reaches(es, a, b) && (exists|jj: int|
                    0 <= jj < i && (#[trigger] base@[jj]).0 == a) ==> result@.contains((a, b)),
        decreases base@.len() - i,
    {
        let a = base[i].0;
        let found = reach_from(a, &base);
        let mut k: usize = 0;
        while k < found.len()
            invariant
                k <= found@.len(),
                base@.to_set() == es,
                forall|b: usize| #[trigger] found@.contains(b) <==> reaches(es, a, b),
                forall|a2: usize, b: usize| #[trigger] result@.contains((a2, b)) ==> reaches(
                    es,
                    a2,
                    b,
                ),
                forall|a2: usize, b: usize|
                    reaches(es, a2, b) && (exists|jj: int|
                        0 <= jj < i && (#[trigger] base@[jj]).0 == a2) ==> result@.contains(
                        (a2, b),
                    ),
                forall|kk: int| 0 <= kk < k ==> result@.contains((a, #[trigger] found@[kk])),
            decreases found@.len() - k,
        {
            let b = found[k];
            let ghost result_pre = result@;
            result.push((a, b));
            proof {
                assert(found@.contains(b)) by {
                    assert(found@[k as int] == b);
                }
                assert(forall|p: (usize, usize)|
                    #[trigger] result@.contains(p) <==> (result_pre.contains(p) || p == (
                    a,
                    b,
                ))) by {
                    assert forall|p: (usize, usize)| true implies (#[trigger] result@.contains(p)
                        <==> (result_pre.contains(p) || p == (a, b))) by {
                        lemma_seq_push_contains(result_pre, (a, b), p);
                    }
                }
            }
            k += 1;
        }
        proof {
            assert forall|a2: usize, b: usize|
                reaches(es, a2, b) && (exists|jj: int|
                    0 <= jj < i + 1 && (#[trigger] base@[jj]).0 == a2) implies result@.contains(
                (a2, b),
            ) by {
                let jj = choose|jj: int| 0 <= jj < i + 1 && base@[jj].0 == a2;
                if a2 == a {
                    assert(found@.contains(b));
                    let kk = choose|kk: int| 0 <= kk < found@.len() && found@[kk] == b;
                }
            }
        }
        i += 1;
    }
    proof {
        assert forall|a: usize, b: usize| reaches(es, a, b) implies result@.contains((a, b)) by {
            lemma_reaches_has_out_edge(es, a, b);
            let c = choose|c: usize| es.contains((a, c));
            let jj = choose|jj: int| 0 <= jj < base@.len() && base@[jj] == (a, c);
        }
    }
    let r = Domain { pairs: result };
    proof {
        assert(forall|a: usize, b: usize|
            #[trigger] r@.contains((a, b)) == result@.contains((a, b)));
    }
    r
}

/// Pushing a pair onto a list adds exactly that pair.
proof fn lemma_seq_push_contains<T>(s: Seq<T>, x: T, y: T)
    ensures
        s.push(x).contains(y) <==> (s.contains(y) || y == x),
{
    if s.push(x).contains(y) {
        let j = choose|j: int| 0 <= j < s.push(x).len() && s.push(x)[j] == y;
        if j < s.len() {
            assert(s[j] == y);
        }
    }
    if s.contains(y) {
        let j = choose|j: int| 0 <= j < s.len() && s[j] == y;
        assert(s.push(x)[j] == y);
    }
    if y == x {
        assert(s.push(x)[s.len() as int] == y);
    }
}

} // verus!
