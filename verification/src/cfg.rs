use vstd::prelude::*;

use crate::edges::Edges;
use crate::edges::map_push;
use crate::syntax_tree::ASTIdentifier;
use crate::syntax_tree::ASTNode;
use crate::syntax_tree::AstView;

verus! {

/// `acc` with `id` appended to the successor list of every positive entry of
/// `prev`.  The sentinel `0` marks "no predecessor" and produces no edge.
pub open spec fn add_link_all(acc: Map<usize, Seq<usize>>, prev: Seq<usize>, id: usize) -> Map<
    usize,
    Seq<usize>,
>
    decreases prev.len(),
{
    if prev.len() == 0 {
        acc
    } else {
        let acc2 = if prev[0] > 0 {
            map_push(acc, prev[0], id)
        } else {
            acc
        };
        add_link_all(acc2, prev.drop_first(), id)
    }
}

/// The first, linear pass of the control-flow construction: walks the id
/// range of `root`, linking each statement to the open predecessors in
/// `prev`, recursing into blocks with no open predecessor, and stepping over
/// them afterwards.  `Break` closes the predecessor set; `Return` leaves it
/// as it was.
pub open spec fn links_from(
    root: AstView,
    prev: Seq<usize>,
    id: int,
    acc: Map<usize, Seq<usize>>,
) -> Map<usize, Seq<usize>>
    decreases root.until + 1 - id,
    when root.wf()
    via links_from_decreases
{
    if id < 0 || id > root.until {
        acc
    } else {
        match root.find(id as usize) {
            None => acc,
            Some(n) => {
                if n.kind.is_block() {
                    let acc2 = links_from(n, Seq::empty(), id + 1, acc);
                    let jump = if n.until > id + 1 {
                        n.until - 1
                    } else {
                        id + 1
                    };
                    links_from(root, prev, jump, acc2)
                } else if n.kind.is_sequential() {
                    links_from(root, seq![id as usize], id + 1, add_link_all(acc, prev, id as usize))
                } else if n.kind == ASTIdentifier::BreakStatement {
                    links_from(root, Seq::empty(), id + 1, add_link_all(acc, prev, id as usize))
                } else if n.kind == ASTIdentifier::ReturnStatement {
                    links_from(root, prev, id + 1, add_link_all(acc, prev, id as usize))
                } else {
                    links_from(root, prev, id + 1, acc)
                }
            },
        }
    }
}

#[via_fn]
proof fn links_from_decreases(
    root: AstView,
    prev: Seq<usize>,
    id: int,
    acc: Map<usize, Seq<usize>>,
) {
    if 0 <= id <= root.until {
        root.lemma_find_range(id as usize);
    }
}

/// Appends `id` to the successor list of every positive entry of `before`.
fn add_link(edges: &mut Edges, id: usize, before: &Vec<usize>)
    requires
        old(edges).wf(),
    ensures
        final(edges).wf(),
        final(edges)@ == add_link_all(old(edges)@, before@, id),
{
    let mut i: usize = 0;
    proof {
        assert(before@.skip(0) =~= before@);
    }
    while i < before.len()
        invariant
            edges.wf(),
            i <= before@.len(),
            add_link_all(old(edges)@, before@, id) == add_link_all(edges@, before@.skip(i as int), id),
        decreases before@.len() - i,
    {
        let ghost pre = edges@;
        let v = before[i];
        if v > 0 {
            edges.push_succ(v, id);
        }
        proof {
            assert(before@.skip(i as int).drop_first() =~= before@.skip(i + 1));
            assert(before@.skip(i as int)[0] == before@[i as int]);
        }
        i += 1;
    }
    proof {
        assert(before@.skip(before@.len() as int).len() == 0);
    }
}

/// Pass 1 of the control-flow construction, as an in-place walk.
fn create_links(parent: &ASTNode, until: usize, before_statement: Vec<usize>, start_id: usize, edges: &mut Edges)
    requires
        parent.inv(),
        parent@.wf(),
        until == parent@.until,
        until < usize::MAX,
        old(edges).wf(),
    ensures
        final(edges).wf(),
        final(edges)@ == links_from(parent@, before_statement@, start_id as int, old(edges)@),
    decreases until + 1 - start_id,
{
    let ghost goal = links_from(parent@, before_statement@, start_id as int, old(edges)@);
    let mut id = start_id;
    let mut prev = before_statement;
    loop
        invariant
            parent.inv(),
            parent@.wf(),
            until == parent@.until,
            until < usize::MAX,
            edges.wf(),
            start_id <= id,
            goal == links_from(parent@, prev@, id as int, edges@),
        ensures
            goal == edges@,
        decreases until + 1 - id,
    {
        if id > until {
            break ;
        }
        let node = match parent.get_node_by_id(id) {
            None => { break ; },
            Some(n) => n,
        };
        proof {
            parent@.lemma_find_range(id);
        }
        if node.identifier.block() {
            let ghost pre = edges@;
            create_links(node, node.children_until, Vec::new(), id + 1, edges);
            proof {
                assert(node@.until <= until);
                assert(edges@ == links_from(node@, Seq::empty(), id + 1, pre));
            }
            if node.children_until > id + 1 {
                id = node.children_until - 1;
            } else {
                id = id + 1;
            }
        } else {
            let is_seq = match node.identifier {
                ASTIdentifier::IfStatement => true,
                ASTIdentifier::WhileStatement => true,
                ASTIdentifier::AssertStatement => true,
                ASTIdentifier::ExpressionStatement => true,
                ASTIdentifier::LocalVariableDeclaration => true,
                ASTIdentifier::TryWithRessourceStatement => true,
                ASTIdentifier::TryStatement => true,
                ASTIdentifier::SynchronizedStatement => true,
                ASTIdentifier::ForStatement => true,
                ASTIdentifier::DoStatement => true,
                ASTIdentifier::YieldStatement => true,
                ASTIdentifier::SwitchStatement => true,
                _ => false,
            };
            if is_seq {
                add_link(edges, id, &prev);
                let mut np: Vec<usize> = Vec::new();
                np.push(id);
                prev = np;
                proof {
                    assert(prev@ =~= seq![id]);
                }
            } else if matches!(node.identifier, ASTIdentifier::BreakStatement) {
                add_link(edges, id, &prev);
                prev = Vec::new();
                proof {
                    assert(prev@ =~= Seq::<usize>::empty());
                }
            } else if matches!(node.identifier, ASTIdentifier::ReturnStatement) {
                add_link(edges, id, &prev);
            }
            id = id + 1;
        }
    }
}

/// The first statement id strictly after the given label id, if any.
pub open spec fn first_stmt_after(stmts: Seq<usize>, lab: usize) -> Option<usize>
    decreases stmts.len(),
{
    if stmts.len() == 0 {
        None
    } else if stmts[0] > lab {
        Some(stmts[0])
    } else {
        first_stmt_after(stmts.drop_first(), lab)
    }
}

/// For each `SwitchLabel` child, in order, the first statement that follows
/// it.
pub open spec fn label_entries(children: Seq<AstView>, stmts: Seq<usize>) -> Seq<usize>
    decreases children.len(),
{
    if children.len() == 0 {
        Seq::empty()
    } else {
        let rest = label_entries(children.drop_last(), stmts);
        if children.last().kind == ASTIdentifier::SwitchLabel {
            match first_stmt_after(stmts, children.last().id) {
                Some(s) => rest.push(s),
                None => rest,
            }
        } else {
            rest
        }
    }
}

/// The ids of the direct children of kind `CatchClause`, in child order.
pub open spec fn catch_ids(children: Seq<AstView>) -> Seq<usize>
    decreases children.len(),
{
    if children.len() == 0 {
        Seq::empty()
    } else {
        let rest = catch_ids(children.drop_last());
        if children.last().kind == ASTIdentifier::CatchClause {
            rest.push(children.last().id)
        } else {
            rest
        }
    }
}

/// Rewires one branch body: the head gains an edge into the body's first
/// statement, and the body's last statement gains an edge back to the head's
/// first recorded successor (the loop back-edge or after-branch join).
pub open spec fn branch_block_step(acc: Map<usize, Seq<usize>>, head: usize, stmts: Seq<usize>) -> Map<
    usize,
    Seq<usize>,
> {
    if stmts.len() == 0 {
        acc
    } else {
        let acc1 = if head > 0 {
            map_push(acc, head, stmts[0])
        } else {
            acc
        };
        if acc1.dom().contains(head) && acc1[head].len() > 0 {
            let tmp = acc1[head][0];
            if stmts.last() > 0 {
                map_push(acc1, stmts.last(), tmp)
            } else {
                acc1
            }
        } else {
            acc1
        }
    }
}

/// Applies [`branch_block_step`] to each listed block, looking each one up
/// in `scope`.
pub open spec fn branch_blocks(
    scope: AstView,
    head: usize,
    blocks: Seq<usize>,
    acc: Map<usize, Seq<usize>>,
) -> Map<usize, Seq<usize>>
    decreases blocks.len(),
{
    if blocks.len() == 0 {
        acc
    } else {
        let acc2 = match scope.find(blocks[0]) {
            None => acc,
            Some(blk) => branch_block_step(acc, head, AstView::statement_ids(blk.children)),
        };
        branch_blocks(scope, head, blocks.drop_first(), acc2)
    }
}

/// The switch head gains an edge into each case's first statement.
pub open spec fn push_all(acc: Map<usize, Seq<usize>>, head: usize, ids: Seq<usize>) -> Map<
    usize,
    Seq<usize>,
>
    decreases ids.len(),
{
    if ids.len() == 0 {
        acc
    } else {
        let acc2 = if head > 0 {
            map_push(acc, head, ids[0])
        } else {
            acc
        };
        push_all(acc2, head, ids.drop_first())
    }
}

/// For each catch clause of a try statement, rewires the clause's blocks
/// followed by the try's own blocks.
pub open spec fn try_catches(
    node: AstView,
    head: usize,
    catches: Seq<usize>,
    acc: Map<usize, Seq<usize>>,
) -> Map<usize, Seq<usize>>
    decreases catches.len(),
{
    if catches.len() == 0 {
        acc
    } else {
        let cblocks = match node.find(catches[0]) {
            None => Seq::<usize>::empty(),
            Some(cn) => AstView::block_ids(cn.children),
        };
        let blks = cblocks + AstView::block_ids(node.children);
        try_catches(node, head, catches.drop_first(), branch_blocks(node, head, blks, acc))
    }
}

/// The branch expansion a single node contributes.
pub open spec fn branch_step(root: AstView, n: AstView, id: usize, acc: Map<usize, Seq<usize>>) -> Map<
    usize,
    Seq<usize>,
> {
    if n.kind == ASTIdentifier::IfStatement || n.kind == ASTIdentifier::ForStatement || n.kind
        == ASTIdentifier::WhileStatement || n.kind == ASTIdentifier::DoStatement {
        branch_blocks(root, id, AstView::block_ids(n.children), acc)
    } else if n.kind == ASTIdentifier::SwitchStatement {
        let blocks = AstView::block_ids(n.children);
        if blocks.len() > 0 {
            match n.find(blocks[0]) {
                None => acc,
                Some(blk) => push_all(
                    acc,
                    id,
                    label_entries(blk.children, AstView::statement_ids(blk.children)),
                ),
            }
        } else {
            acc
        }
    } else if n.kind == ASTIdentifier::TryStatement || n.kind
        == ASTIdentifier::TryWithRessourceStatement {
        try_catches(n, id, catch_ids(n.children), acc)
    } else {
        acc
    }
}

/// The second pass of the control-flow construction: walks the id range
/// again and expands each branching statement.
pub open spec fn branches_from(root: AstView, id: int, acc: Map<usize, Seq<usize>>) -> Map<
    usize,
    Seq<usize>,
>
    decreases root.until + 1 - id,
{
    if id < 0 || id > root.until {
        acc
    } else {
        match root.find(id as usize) {
            None => acc,
            Some(n) => branches_from(root, id + 1, branch_step(root, n, id as usize, acc)),
        }
    }
}

/// The control-flow edge store of the subtree rooted at `v`: the linear
/// pass followed by the branch expansion.
pub open spec fn cfg_of(v: AstView) -> Map<usize, Seq<usize>> {
    branches_from(v, v.id as int, links_from(v, seq![0usize], v.id as int, Map::empty()))
}

/// The ids of the direct children of kind `CatchClause`, in child order.
fn get_catch_blocks(node: &ASTNode) -> (r: Vec<usize>)
    ensures
        r@ == catch_ids(node@.children),
{
    let mut blocks: Vec<usize> = Vec::new();
    let mut k: usize = 0;
    while k < node.children.len()
        invariant
            k <= node.children@.len(),
            blocks@ == catch_ids(node@.children.take(k as int)),
        decreases node.children@.len() - k,
    {
        let child = &node.children[k];
        proof {
            assert(node@.children.take(k + 1).drop_last() =~= node@.children.take(k as int));
            assert(node@.children.take(k + 1).last() == child@);
        }
        if matches!(child.identifier, ASTIdentifier::CatchClause) {
            blocks.push(child.id);
        }
        k += 1;
    }
    proof {
        assert(node@.children.take(node.children@.len() as int) =~= node@.children);
    }
    blocks
}

/// The first statement id strictly after `lab`, if any.
fn first_statement_after(stmts: &Vec<usize>, lab: usize) -> (r: Option<usize>)
    ensures
        r == first_stmt_after(stmts@, lab),
{
    let mut j: usize = 0;
    proof {
        assert(stmts@.skip(0) =~= stmts@);
    }
    while j < stmts.len()
        invariant
            j <= stmts@.len(),
            first_stmt_after(stmts@, lab) == first_stmt_after(stmts@.skip(j as int), lab),
        decreases stmts@.len() - j,
    {
        proof {
            assert(stmts@.skip(j as int).drop_first() =~= stmts@.skip(j + 1));
            assert(stmts@.skip(j as int)[0] == stmts@[j as int]);
        }
        if stmts[j] > lab {
            return Some(stmts[j]);
        }
        j += 1;
    }
    None
}

/// For each `SwitchLabel` child of a switch block, the first statement that
/// follows it, in label order.
fn get_first_statements_after_switch_label(node: &ASTNode) -> (r: Vec<usize>)
    ensures
        r@ == label_entries(node@.children, AstView::statement_ids(node@.children)),
{
    let statements = node.get_statements();
    let mut blocks: Vec<usize> = Vec::new();
    let mut k: usize = 0;
    while k < node.children.len()
        invariant
            k <= node.children@.len(),
            statements@ == AstView::statement_ids(node@.children),
            blocks@ == label_entries(node@.children.take(k as int), statements@),
        decreases node.children@.len() - k,
    {
        let child = &node.children[k];
        proof {
            assert(node@.children.take(k + 1).drop_last() =~= node@.children.take(k as int));
            assert(node@.children.take(k + 1).last() == child@);
        }
        if matches!(child.identifier, ASTIdentifier::SwitchLabel) {
            match first_statement_after(&statements, child.id) {
                Some(s) => {
                    blocks.push(s);
                },
                None => {},
            }
        }
        k += 1;
    }
    proof {
        assert(node@.children.take(node.children@.len() as int) =~= node@.children);
    }
    blocks
}

/// Rewires one branch body in place; see [`branch_block_step`].
fn apply_branch_block(edges: &mut Edges, head: usize, stmts: &Vec<usize>)
    requires
        old(edges).wf(),
    ensures
        final(edges).wf(),
        final(edges)@ == branch_block_step(old(edges)@, head, stmts@),
{
    if stmts.len() > 0 {
        if head > 0 {
            edges.push_succ(head, stmts[0]);
        }
        let tmp_opt: Option<usize> = match edges.get(head) {
            Some(v) => if v.len() > 0 {
                Some(v[0])
            } else {
                None
            },
            None => None,
        };
        match tmp_opt {
            Some(tmp) => {
                let last = stmts[stmts.len() - 1];
                if last > 0 {
                    edges.push_succ(last, tmp);
                }
            },
            None => {},
        }
    }
}

/// Pass 2 of the control-flow construction: expands each branching
/// statement's bodies.
fn create_branches(parent: &ASTNode, edges: Edges, start_id: usize) -> (r: Edges)
    requires
        parent.inv(),
        parent@.wf(),
        parent@.until < usize::MAX,
        edges.wf(),
    ensures
        r.wf(),
        r@ == branches_from(parent@, start_id as int, edges@),
    decreases parent@.until + 1 - start_id,
{
    let ghost goal = branches_from(parent@, start_id as int, edges@);
    let mut edges = edges;
    let mut id = start_id;
    loop
        invariant
            parent.inv(),
            parent@.wf(),
            parent@.until < usize::MAX,
            edges.wf(),
            goal == branches_from(parent@, id as int, edges@),
        ensures
            goal == edges@,
        decreases parent@.until + 1 - id,
    {
        if id > parent.children_until {
            break ;
        }
        let node = match parent.get_node_by_id(id) {
            None => { break ; },
            Some(n) => n,
        };
        proof {
            parent@.lemma_find_range(id);
        }
        let ghost acc0 = edges@;
        let is_branch = match node.identifier {
            ASTIdentifier::IfStatement => true,
            ASTIdentifier::ForStatement => true,
            ASTIdentifier::WhileStatement => true,
            ASTIdentifier::DoStatement => true,
            _ => false,
        };
        if is_branch {
            let blocks = node.get_blocks();
            let mut b: usize = 0;
            proof {
                assert(blocks@.skip(0) =~= blocks@);
            }
            while b < blocks.len()
                invariant
                    parent.inv(),
                    parent@.wf(),
                    edges.wf(),
                    b <= blocks@.len(),
                    branch_blocks(parent@, id, blocks@, acc0) == branch_blocks(
                        parent@,
                        id,
                        blocks@.skip(b as int),
                        edges@,
                    ),
                decreases blocks@.len() - b,
            {
                proof {
                    assert(blocks@.skip(b as int).drop_first() =~= blocks@.skip(b + 1));
                    assert(blocks@.skip(b as int)[0] == blocks@[b as int]);
                }
                match parent.get_node_by_id(blocks[b]) {
                    None => {},
                    Some(blk) => {
                        let stmts = blk.get_statements();
                        apply_branch_block(&mut edges, id, &stmts);
                    },
                }
                b += 1;
            }
            proof {
                assert(blocks@.skip(blocks@.len() as int).len() == 0);
                assert(edges@ == branch_step(parent@, node@, id, acc0));
            }
        } else if matches!(node.identifier, ASTIdentifier::SwitchStatement) {
            let blocks = node.get_blocks();
            if blocks.len() > 0 {
                match node.get_node_by_id(blocks[0]) {
                    None => {},
                    Some(blk) => {
                        let entries = get_first_statements_after_switch_label(blk);
                        let mut e: usize = 0;
                        proof {
                            assert(entries@.skip(0) =~= entries@);
                        }
                        while e < entries.len()
                            invariant
                                edges.wf(),
                                e <= entries@.len(),
                                push_all(acc0, id, entries@) == push_all(
                                    edges@,
                                    id,
                                    entries@.skip(e as int),
                                ),
                            decreases entries@.len() - e,
                        {
                            proof {
                                assert(entries@.skip(e as int).drop_first() =~= entries@.skip(
                                    e + 1,
                                ));
                                assert(entries@.skip(e as int)[0] == entries@[e as int]);
                            }
                            if id > 0 {
                                edges.push_succ(id, entries[e]);
                            }
                            e += 1;
                        }
                        proof {
                            assert(entries@.skip(entries@.len() as int).len() == 0);
                        }
                    },
                }
            }
            proof {
                assert(edges@ == branch_step(parent@, node@, id, acc0));
            }
        } else if matches!(
            node.identifier,
            ASTIdentifier::TryStatement | ASTIdentifier::TryWithRessourceStatement
        ) {
            let catches = get_catch_blocks(node);
            let mut c: usize = 0;
            proof {
                assert(catches@.skip(0) =~= catches@);
            }
            while c < catches.len()
                invariant
                    parent.inv(),
                    parent@.wf(),
                    node.inv(),
                    node@.wf(),
                    edges.wf(),
                    c <= catches@.len(),
                    try_catches(node@, id, catches@, acc0) == try_catches(
                        node@,
                        id,
                        catches@.skip(c as int),
                        edges@,
                    ),
                decreases catches@.len() - c,
            {
                proof {
                    assert(catches@.skip(c as int).drop_first() =~= catches@.skip(c + 1));
                    assert(catches@.skip(c as int)[0] == catches@[c as int]);
                }
                let mut blks: Vec<usize> = match node.get_node_by_id(catches[c]) {
                    None => Vec::new(),
                    Some(cn) => cn.get_blocks(),
                };
                let mut own = node.get_blocks();
                let ghost cblocks = blks@;
                blks.append(&mut own);
                proof {
                    assert(blks@ == cblocks + AstView::block_ids(node@.children));
                }
                let ghost inner_acc = edges@;
                let mut b: usize = 0;
                proof {
                    assert(blks@.skip(0) =~= blks@);
                }
                while b < blks.len()
                    invariant
                        node.inv(),
                        node@.wf(),
                        edges.wf(),
                        b <= blks@.len(),
                        branch_blocks(node@, id, blks@, inner_acc) == branch_blocks(
                            node@,
                            id,
                            blks@.skip(b as int),
                            edges@,
                        ),
                    decreases blks@.len() - b,
                {
                    proof {
                        assert(blks@.skip(b as int).drop_first() =~= blks@.skip(b + 1));
                        assert(blks@.skip(b as int)[0] == blks@[b as int]);
                    }
                    match node.get_node_by_id(blks[b]) {
                        None => {},
                        Some(blk) => {
                            let stmts = blk.get_statements();
                            apply_branch_block(&mut edges, id, &stmts);
                        },
                    }
                    b += 1;
                }
                proof {
                    assert(blks@.skip(blks@.len() as int).len() == 0);
                }
                c += 1;
            }
            proof {
                assert(catches@.skip(catches@.len() as int).len() == 0);
                assert(edges@ == branch_step(parent@, node@, id, acc0));
            }
        } else {
            proof {
                assert(edges@ == branch_step(parent@, node@, id, acc0));
            }
        }
        id = id + 1;
    }
    edges
}

/// The method declarations of the subtree, in id order.
pub open spec fn methods_from(root: AstView, id: int) -> Seq<AstView>
    decreases root.until + 1 - id,
{
    if id < 0 || id > root.until {
        Seq::empty()
    } else {
        match root.find(id as usize) {
            None => Seq::empty(),
            Some(n) => {
                let rest = methods_from(root, id + 1);
                if n.kind == ASTIdentifier::MethodDeclaration {
                    seq![n] + rest
                } else {
                    rest
                }
            },
        }
    }
}

/// Every `MethodDeclaration` node of the subtree, in id order.
pub fn get_functions<'a>(parent: &'a ASTNode) -> (r: Vec<&'a ASTNode>)
    requires
        parent.inv(),
        parent@.wf(),
        parent@.until < usize::MAX,
    ensures
        r@.len() == methods_from(parent@, parent@.id as int).len(),
        forall|i: int|
            0 <= i < r@.len() ==> (#[trigger] r@[i])@ == methods_from(parent@, parent@.id as int)[i]
                && r@[i].inv() && r@[i]@.wf() && r@[i]@.until <= parent@.until,
{
    let ghost all = methods_from(parent@, parent@.id as int);
    let mut functions: Vec<&ASTNode> = Vec::new();
    let mut id = parent.id;
    loop
        invariant
            parent.inv(),
            parent@.wf(),
            parent@.until < usize::MAX,
            parent@.id <= id,
            forall|i: int|
                0 <= i < functions@.len() ==> (#[trigger] functions@[i]).inv()
                    && functions@[i]@.wf() && functions@[i]@.until <= parent@.until,
            all =~= functions@.map_values(|n: &ASTNode| n@) + methods_from(parent@, id as int),
        ensures
            all =~= functions@.map_values(|n: &ASTNode| n@),
        decreases parent@.until + 1 - id,
    {
        if id > parent.children_until {
            proof {
                assert(methods_from(parent@, id as int) =~= Seq::<AstView>::empty());
                assert(functions@.map_values(|n: &ASTNode| n@) + Seq::<AstView>::empty()
                    =~= functions@.map_values(|n: &ASTNode| n@));
            }
            break ;
        }
        let node = match parent.get_node_by_id(id) {
            None => {
                proof {
                    assert(methods_from(parent@, id as int) =~= Seq::<AstView>::empty());
                    assert(functions@.map_values(|n: &ASTNode| n@) + Seq::<AstView>::empty()
                        =~= functions@.map_values(|n: &ASTNode| n@));
                }
                break ;
            },
            Some(n) => n,
        };
        proof {
            parent@.lemma_find_range(id);
        }
        if matches!(node.identifier, ASTIdentifier::MethodDeclaration) {
            let ghost fpre = functions@;
            functions.push(node);
            proof {
                assert(functions@.map_values(|n: &ASTNode| n@) =~= fpre.map_values(
                    |n: &ASTNode| n@,
                ).push(node@));
                assert(fpre.map_values(|n: &ASTNode| n@) + (seq![node@] + methods_from(
                    parent@,
                    id + 1,
                )) =~= functions@.map_values(|n: &ASTNode| n@) + methods_from(parent@, id + 1));
            }
        }
        id = id + 1;
    }
    proof {
        assert forall|i: int| 0 <= i < functions@.len() implies (#[trigger] functions@[i])@ == all[i]
            by {
            assert(functions@.map_values(|n: &ASTNode| n@)[i] == functions@[i]@);
        }
    }
    functions
}

/// The control-flow edge stores of the methods `ms[j..]`, merged in order.
pub open spec fn cfgs_fns(ms: Seq<AstView>, j: int, acc: Map<usize, Seq<usize>>) -> Map<
    usize,
    Seq<usize>,
>
    decreases ms.len() - j,
{
    if j < 0 || j >= ms.len() {
        acc
    } else {
        cfgs_fns(ms, j + 1, crate::edges::merged(acc, cfg_of(ms[j])))
    }
}

/// The merged control-flow edges of every method of `programs[i..]`.
pub open spec fn cfgs_of(
    programs: Seq<crate::program::Program>,
    i: int,
    acc: Map<usize, Seq<usize>>,
) -> Map<usize, Seq<usize>>
    decreases programs.len() - i,
{
    if i < 0 || i >= programs.len() {
        acc
    } else {
        cfgs_of(
            programs,
            i + 1,
            cfgs_fns(
                methods_from(programs[i].tree@, programs[i].tree@.id as int),
                0,
                acc,
            ),
        )
    }
}

/// The control-flow edges of every method of every program, merged in
/// order.
pub fn calculate_cfg_per_programs(programs: &Vec<crate::program::Program>) -> (r: Edges)
    requires
        crate::program::all_wf(programs@),
    ensures
        r.wf(),
        r@ == cfgs_of(programs@, 0, Map::empty()),
{
    let mut cfgs = Edges::new();
    let mut i: usize = 0;
    while i < programs.len()
        invariant
            crate::program::all_wf(programs@),
            i <= programs@.len(),
            cfgs.wf(),
            cfgs_of(programs@, 0, Map::empty()) == cfgs_of(programs@, i as int, cfgs@),
        decreases programs@.len() - i,
    {
        let program = &programs[i];
        proof {
            assert(programs@[i as int].wf());
        }
        let ghost ms = methods_from(program.tree@, program.tree@.id as int);
        let functions = get_functions(&program.tree);
        let ghost fns_start = cfgs@;
        let mut j: usize = 0;
        while j < functions.len()
            invariant
                cfgs.wf(),
                j <= functions@.len(),
                functions@.len() == ms.len(),
                forall|k: int|
                    0 <= k < functions@.len() ==> (#[trigger] functions@[k])@ == ms[k]
                        && functions@[k].inv() && functions@[k]@.wf() && functions@[k]@.until
                        < usize::MAX,
                cfgs_fns(ms, 0, fns_start) == cfgs_fns(ms, j as int, cfgs@),
            decreases functions@.len() - j,
        {
            let function = functions[j];
            let c = calculate_cfg(function);
            cfgs.merge_from(&c);
            j += 1;
        }
        i += 1;
    }
    cfgs
}

/// The control-flow edges of the function rooted at `program`: the linear
/// pass seeded with the sentinel predecessor, then the branch expansion.
pub fn calculate_cfg(program: &ASTNode) -> (r: Edges)
    requires
        program.inv(),
        program@.wf(),
        program@.until < usize::MAX,
    ensures
        r.wf(),
        r@ == cfg_of(program@),
{
    let mut edges = Edges::new();
    let mut prev0: Vec<usize> = Vec::new();
    prev0.push(0);
    proof {
        assert(prev0@ =~= seq![0usize]);
    }
    create_links(program, program.children_until, prev0, program.id, &mut edges);
    create_branches(program, edges, program.id)
}

} // verus!
