use vstd::prelude::*;

use crate::program::Program;
use crate::program::all_wf;
use crate::syntax_tree::ASTNode;
use crate::syntax_tree::AstView;

verus! {

/// The node at position `i` of the tree is a statement.
pub open spec fn statement_at(t: AstView, i: int) -> bool {
    t.find(i as usize) matches Some(n) && n.kind.is_statement()
}

/// The decision `b` for position `i` of the tree came from a run of the
/// predicate on the node at that position.
pub open spec fn decision_justified<F: Fn(&ASTNode) -> bool>(
    t: AstView,
    i: int,
    pred: F,
    b: bool,
) -> bool {
    exists|n: &ASTNode| Some(n@) == t.find(i as usize) && call_ensures(pred, (n,), b)
}

/// Every position of every tree — every statement position, when `stmts`
/// holds — carries a decision the predicate really returned for its node.
pub open spec fn decisions_consistent<F: Fn(&ASTNode) -> bool>(
    programs: Seq<Program>,
    pred: F,
    d: Map<(int, int), bool>,
    stmts: bool,
) -> bool {
    forall|k: int, i: int|
        0 <= k < programs.len() && programs[k].tree@.id <= i <= programs[k].tree@.until && (stmts
            ==> statement_at(programs[k].tree@, i)) ==> decision_justified(
            programs[k].tree@,
            i,
            pred,
            #[trigger] d[(k, i)],
        )
}

/// The nodes of the subtree at `root` with ids in `[from, to)` that the
/// decision map selects — restricted to statement kinds when `stmts` holds —
/// appended to `acc` in id order.
pub open spec fn selected_from(
    root: AstView,
    from: int,
    to: int,
    k: int,
    d: Map<(int, int), bool>,
    stmts: bool,
    acc: Seq<AstView>,
) -> Seq<AstView>
    decreases to - from,
{
    if from >= to {
        acc
    } else {
        let acc2 = match root.find(from as usize) {
            None => acc,
            Some(n) => {
                if (!stmts || n.kind.is_statement()) && d[(k, from)] {
                    acc.push(n)
                } else {
                    acc
                }
            },
        };
        selected_from(root, from + 1, to, k, d, stmts, acc2)
    }
}

/// The nodes of the first `pk` programs that the decision map selects, in
/// program order and id order.
pub open spec fn selected_upto(
    programs: Seq<Program>,
    pk: int,
    d: Map<(int, int), bool>,
    stmts: bool,
) -> Seq<AstView>
    decreases pk,
{
    if pk <= 0 || pk > programs.len() {
        Seq::empty()
    } else {
        let t = programs[pk - 1].tree@;
        selected_from(
            t,
            t.id as int,
            t.until + 1,
            pk - 1,
            d,
            stmts,
            selected_upto(programs, pk - 1, d, stmts),
        )
    }
}

/// The selection reads decisions only inside its own range.
proof fn lemma_selected_from_frame(
    root: AstView,
    from: int,
    to: int,
    k: int,
    d1: Map<(int, int), bool>,
    d2: Map<(int, int), bool>,
    stmts: bool,
    acc: Seq<AstView>,
)
    requires
        forall|i: int| from <= i < to ==> #[trigger] d1[(k, i)] == d2[(k, i)],
    ensures
        selected_from(root, from, to, k, d1, stmts, acc) == selected_from(
            root,
            from,
            to,
            k,
            d2,
            stmts,
            acc,
        ),
    decreases to - from,
{
    if from < to {
        assert(d1[(k, from)] == d2[(k, from)]);
        let acc2 = match root.find(from as usize) {
            None => acc,
            Some(n) => {
                if (!stmts || n.kind.is_statement()) && d1[(k, from)] {
                    acc.push(n)
                } else {
                    acc
                }
            },
        };
        lemma_selected_from_frame(root, from + 1, to, k, d1, d2, stmts, acc2);
    }
}

/// The fold over the first `pk` programs reads decisions only at their
/// positions.
proof fn lemma_selected_upto_frame(
    programs: Seq<Program>,
    pk: int,
    d1: Map<(int, int), bool>,
    d2: Map<(int, int), bool>,
    stmts: bool,
)
    requires
        forall|k: int, i: int| 0 <= k < pk ==> #[trigger] d1[(k, i)] == d2[(k, i)],
    ensures
        selected_upto(programs, pk, d1, stmts) == selected_upto(programs, pk, d2, stmts),
    decreases pk,
{
    if 0 < pk <= programs.len() {
        lemma_selected_upto_frame(programs, pk - 1, d1, d2, stmts);
        let t = programs[pk - 1].tree@;
        lemma_selected_from_frame(
            t,
            t.id as int,
            t.until + 1,
            pk - 1,
            d1,
            d2,
            stmts,
            selected_upto(programs, pk - 1, d2, stmts),
        );
    }
}

/// Extending the range by one position appends that position's selection.
proof fn lemma_selected_from_snoc(
    root: AstView,
    from: int,
    to: int,
    k: int,
    d: Map<(int, int), bool>,
    stmts: bool,
    acc: Seq<AstView>,
)
    requires
        from <= to,
    ensures
        selected_from(root, from, to + 1, k, d, stmts, acc) == (match root.find(to as usize) {
            None => selected_from(root, from, to, k, d, stmts, acc),
            Some(n) => {
                if (!stmts || n.kind.is_statement()) && d[(k, to)] {
                    selected_from(root, from, to, k, d, stmts, acc).push(n)
                } else {
                    selected_from(root, from, to, k, d, stmts, acc)
                }
            },
        }),
    decreases to - from,
{
    if from < to {
        let acc2 = match root.find(from as usize) {
            None => acc,
            Some(n) => {
                if (!stmts || n.kind.is_statement()) && d[(k, from)] {
                    acc.push(n)
                } else {
                    acc
                }
            },
        };
        lemma_selected_from_snoc(root, from + 1, to, k, d, stmts, acc2);
        assert(selected_from(root, from, to + 1, k, d, stmts, acc) == selected_from(
            root,
            from + 1,
            to + 1,
            k,
            d,
            stmts,
            acc2,
        ));
        assert(selected_from(root, from, to, k, d, stmts, acc) == selected_from(
            root,
            from + 1,
            to,
            k,
            d,
            stmts,
            acc2,
        ));
    } else {
        assert(selected_from(root, from, to, k, d, stmts, acc) == acc);
        let acc2 = match root.find(to as usize) {
            None => acc,
            Some(n) => {
                if (!stmts || n.kind.is_statement()) && d[(k, to)] {
                    acc.push(n)
                } else {
                    acc
                }
            },
        };
        assert(selected_from(root, to + 1, to + 1, k, d, stmts, acc2) == acc2);
        assert(selected_from(root, from, to + 1, k, d, stmts, acc) == selected_from(
            root,
            to + 1,
            to + 1,
            k,
            d,
            stmts,
            acc2,
        ));
    }
}

/// Predicate-driven searches over a whole program set.
pub trait ProjectExt {
    /// The program set searched.
    spec fn progs(&self) -> Seq<Program>;

    /// Every program's tree is well-formed.
    spec fn project_wf(&self) -> bool;

    /// Every node, in program order and id order, for which the predicate
    /// returned true: there is a per-position decision record, each entry
    /// justified by a run of the predicate on that position's node, and the
    /// result is exactly the nodes whose decision is true, in traversal
    /// order.
    fn find_node<'a, F: Fn(&ASTNode) -> bool>(&'a self, predicate: &F) -> (r: Vec<&'a ASTNode>)
        requires
            self.project_wf(),
            forall|n: &ASTNode| #[trigger] call_requires(*predicate, (n,)),
        ensures
            forall|i: int|
                0 <= i < r@.len() ==> call_ensures(*predicate, (#[trigger] r@[i],), true)
                    && r@[i].inv() && r@[i]@.wf(),
            exists|d: Map<(int, int), bool>|
                {
                    &&& r@.map_values(|n: &ASTNode| n@) == selected_upto(
                        self.progs(),
                        self.progs().len() as int,
                        d,
                        false,
                    )
                    &&& decisions_consistent(self.progs(), *predicate, d, false)
                },
    ;

    /// Like [`Self::find_node`], but the predicate is asked only about
    /// statement nodes and only those can be returned.
    fn find_statement<'a, F: Fn(&ASTNode) -> bool>(&'a self, predicate: &F) -> (r: Vec<
        &'a ASTNode,
    >)
        requires
            self.project_wf(),
            forall|n: &ASTNode| #[trigger] call_requires(*predicate, (n,)),
        ensures
            forall|i: int|
                0 <= i < r@.len() ==> call_ensures(*predicate, (#[trigger] r@[i],), true)
                    && r@[i].inv() && r@[i]@.wf() && r@[i]@.kind.is_statement(),
            exists|d: Map<(int, int), bool>|
                {
                    &&& r@.map_values(|n: &ASTNode| n@) == selected_upto(
                        self.progs(),
                        self.progs().len() as int,
                        d,
                        true,
                    )
                    &&& decisions_consistent(self.progs(), *predicate, d, true)
                },
    ;
}

/// Walks every tree in program order and id order, asks the predicate about
/// each node (each statement node, when `stmts` holds), and returns the
/// nodes it accepted, in that order.
fn search_nodes<'a, F: Fn(&ASTNode) -> bool>(
    programs: &'a Vec<Program>,
    predicate: &F,
    stmts: bool,
) -> (r: Vec<&'a ASTNode>)
    requires
        all_wf(programs@),
        forall|n: &ASTNode| #[trigger] call_requires(*predicate, (n,)),
    ensures
        forall|i: int|
            0 <= i < r@.len() ==> call_ensures(*predicate, (#[trigger] r@[i],), true) && r@[i].inv()
                && r@[i]@.wf() && (stmts ==> r@[i]@.kind.is_statement()),
        exists|d: Map<(int, int), bool>|
            {
                &&& r@.map_values(|n: &ASTNode| n@) == selected_upto(
                    programs@,
                    programs@.len() as int,
                    d,
                    stmts,
                )
                &&& decisions_consistent(programs@, *predicate, d, stmts)
            },
{
    let ghost mut dm: Map<(int, int), bool> = Map::empty();
    let mut result: Vec<&ASTNode> = Vec::new();
    let mut k: usize = 0;
    while k < programs.len()
        invariant
            all_wf(programs@),
            forall|n: &ASTNode| #[trigger] call_requires(*predicate, (n,)),
            k <= programs@.len(),
            forall|i: int|
                0 <= i < result@.len() ==> call_ensures(*predicate, (#[trigger] result@[i],), true)
                    && result@[i].inv() && result@[i]@.wf() && (stmts
                    ==> result@[i]@.kind.is_statement()),
            result@.map_values(|n: &ASTNode| n@) == selected_upto(programs@, k as int, dm, stmts),
            forall|k2: int, i2: int|
                0 <= k2 < k && programs@[k2].tree@.id <= i2 <= programs@[k2].tree@.until && (stmts
                    ==> statement_at(programs@[k2].tree@, i2)) ==> decision_justified(
                    programs@[k2].tree@,
                    i2,
                    *predicate,
                    #[trigger] dm[(k2, i2)],
                ),
        decreases programs@.len() - k,
    {
        proof {
            assert(programs@[k as int].wf());
        }
        let parent = &programs[k].tree;
        let mut i = parent.id;
        loop
            invariant
                all_wf(programs@),
                forall|n: &ASTNode| #[trigger] call_requires(*predicate, (n,)),
                k < programs@.len(),
                parent.inv(),
                parent@.wf(),
                parent@ == programs@[k as int].tree@,
                parent@.until < usize::MAX,
                parent@.id <= i <= parent@.until + 1,
                forall|j: int|
                    0 <= j < result@.len() ==> call_ensures(
                        *predicate,
                        (#[trigger] result@[j],),
                        true,
                    ) && result@[j].inv() && result@[j]@.wf() && (stmts
                        ==> result@[j]@.kind.is_statement()),
                result@.map_values(|n: &ASTNode| n@) == selected_from(
                    parent@,
                    parent@.id as int,
                    i as int,
                    k as int,
                    dm,
                    stmts,
                    selected_upto(programs@, k as int, dm, stmts),
                ),
                forall|k2: int, i2: int|
                    0 <= k2 < k && programs@[k2].tree@.id <= i2 <= programs@[k2].tree@.until && (
                    stmts ==> statement_at(programs@[k2].tree@, i2)) ==> decision_justified(
                        programs@[k2].tree@,
                        i2,
                        *predicate,
                        #[trigger] dm[(k2, i2)],
                    ),
                forall|i2: int|
                    parent@.id <= i2 < i && (stmts ==> statement_at(parent@, i2))
                        ==> decision_justified(parent@, i2, *predicate, #[trigger] dm[(
                        k as int,
                        i2,
                    )]),
            ensures
                result@.map_values(|n: &ASTNode| n@) == selected_from(
                    parent@,
                    parent@.id as int,
                    parent@.until + 1,
                    k as int,
                    dm,
                    stmts,
                    selected_upto(programs@, k as int, dm, stmts),
                ),
                forall|k2: int, i2: int|
                    0 <= k2 < k && programs@[k2].tree@.id <= i2 <= programs@[k2].tree@.until && (
                    stmts ==> statement_at(programs@[k2].tree@, i2)) ==> decision_justified(
                        programs@[k2].tree@,
                        i2,
                        *predicate,
                        #[trigger] dm[(k2, i2)],
                    ),
                forall|i2: int|
                    parent@.id <= i2 <= parent@.until && (stmts ==> statement_at(parent@, i2))
                        ==> decision_justified(parent@, i2, *predicate, #[trigger] dm[(
                        k as int,
                        i2,
                    )]),
                forall|j: int|
                    0 <= j < result@.len() ==> call_ensures(
                        *predicate,
                        (#[trigger] result@[j],),
                        true,
                    ) && result@[j].inv() && result@[j]@.wf() && (stmts
                        ==> result@[j]@.kind.is_statement()),
            decreases parent@.until + 1 - i,
        {
            if i > parent.children_until {
                break ;
            }
            let node = match parent.get_node_by_id(i) {
                None => {
                    proof {
                        parent@.lemma_find_complete(i);
                        assert(false);
                    }
                    break ;
                },
                Some(n) => n,
            };
            let asked = if stmts {
                node.identifier.statement()
            } else {
                true
            };
            let decided: bool = if asked {
                predicate(node)
            } else {
                false
            };
            proof {
                let dm_old = dm;
                let upto_old = selected_upto(programs@, k as int, dm_old, stmts);
                dm = dm_old.insert((k as int, i as int), decided);
                assert forall|k2: int, i2: int| 0 <= k2 < k implies #[trigger] dm_old[(k2, i2)]
                    == dm[(k2, i2)] by {
                    assert((k2, i2) != (k as int, i as int));
                }
                lemma_selected_upto_frame(programs@, k as int, dm_old, dm, stmts);
                assert forall|i2: int| parent@.id <= i2 < i implies #[trigger] dm_old[(
                    k as int,
                    i2,
                )] == dm[(k as int, i2)] by {
                    assert((k as int, i2) != (k as int, i as int));
                }
                lemma_selected_from_frame(
                    parent@,
                    parent@.id as int,
                    i as int,
                    k as int,
                    dm_old,
                    dm,
                    stmts,
                    upto_old,
                );
                lemma_selected_from_snoc(
                    parent@,
                    parent@.id as int,
                    i as int,
                    k as int,
                    dm,
                    stmts,
                    upto_old,
                );
                if asked {
                    assert(call_ensures(*predicate, (node,), decided));
                    assert(Some(node@) == parent@.find(i));
                    assert(decision_justified(parent@, i as int, *predicate, dm[(
                        k as int,
                        i as int,
                    )]));
                }
            }
            if decided {
                let ghost rpre = result@;
                result.push(node);
                proof {
                    assert(result@.map_values(|n: &ASTNode| n@) =~= rpre.map_values(
                        |n: &ASTNode| n@,
                    ).push(node@));
                }
            }
            i = i + 1;
        }
        k += 1;
    }
    proof {
        assert(result@.map_values(|n: &ASTNode| n@) == selected_upto(
            programs@,
            programs@.len() as int,
            dm,
            stmts,
        ));
        assert(decisions_consistent(programs@, *predicate, dm, stmts));
    }
    result
}

impl ProjectExt for Vec<Program> {
    open spec fn progs(&self) -> Seq<Program> {
        self@
    }

    open spec fn project_wf(&self) -> bool {
        all_wf(self@)
    }

    fn find_node<'a, F: Fn(&ASTNode) -> bool>(&'a self, predicate: &F) -> (r: Vec<&'a ASTNode>) {
        let r = search_nodes(self, predicate, false);
        proof {
            let d = choose|d: Map<(int, int), bool>|
                {
                    &&& r@.map_values(|n: &ASTNode| n@) == selected_upto(
                        self@,
                        self@.len() as int,
                        d,
                        false,
                    )
                    &&& decisions_consistent(self@, *predicate, d, false)
                };
            assert(r@.map_values(|n: &ASTNode| n@) == selected_upto(
                self.progs(),
                self.progs().len() as int,
                d,
                false,
            ));
        }
        r
    }

    fn find_statement<'a, F: Fn(&ASTNode) -> bool>(&'a self, predicate: &F) -> (r: Vec<
        &'a ASTNode,
    >) {
        let r = search_nodes(self, predicate, true);
        proof {
            let d = choose|d: Map<(int, int), bool>|
                {
                    &&& r@.map_values(|n: &ASTNode| n@) == selected_upto(
                        self@,
                        self@.len() as int,
                        d,
                        true,
                    )
                    &&& decisions_consistent(self@, *predicate, d, true)
                };
            assert(r@.map_values(|n: &ASTNode| n@) == selected_upto(
                self.progs(),
                self.progs().len() as int,
                d,
                true,
            ));
        }
        r
    }
}

} // verus!
