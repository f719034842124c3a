use vstd::prelude::*;

use crate::config::ConfigNode;
use crate::flow_solver::Domain;
use crate::flow_solver::Reachable;
use crate::program::Program;
use crate::program::all_wf;
use crate::syntax_tree::ASTIdentifier;
use crate::syntax_tree::AstView;

verus! {

/// Whether the pattern matches the text.  Matching is a function of the
/// pattern and the text alone.
pub uninterp spec fn regex_accepts(pattern: Seq<char>, text: Seq<char>) -> bool;

/// Whether the pattern is a well-formed regular expression; a function of
/// the pattern alone.
pub uninterp spec fn regex_valid(pattern: Seq<char>) -> bool;

/// Relies on regex::Regex::new and Regex::is_match: compiling succeeds
/// exactly for well-formed patterns, and matching is deterministic in the
/// pattern and the text.
#[verifier::external_body]
fn regex_is_match(pattern: &str, text: &str) -> (r: Option<bool>)
    ensures
        (r is Some) == regex_valid(pattern@),
        r matches Some(b) ==> b == regex_accepts(pattern@, text@),
{
    match regex::Regex::new(pattern) {
        Ok(re) => Some(re.is_match(text)),
        Err(_) => None,
    }
}

/// Whether a node satisfies a predicate: the kind clause (if any) must name
/// the node's kind, and the pattern clause (if any) must match its code.
pub open spec fn spec_node_matches(
    n: AstView,
    kind: Option<Seq<char>>,
    code: Option<Seq<char>>,
) -> bool {
    &&& (match kind {
        None => true,
        Some(k) => n.kind == ASTIdentifier::kind_of(k),
    })
    &&& (match code {
        None => true,
        Some(p) => regex_accepts(p, n.code),
    })
}

/// The ids of the nodes of the subtree at `root` that satisfy the
/// predicate, in id order.
pub open spec fn matches_from(
    root: AstView,
    id: int,
    kind: Option<Seq<char>>,
    code: Option<Seq<char>>,
    acc: Seq<usize>,
) -> Seq<usize>
    decreases root.until + 1 - id,
{
    if id < 0 || id > root.until {
        acc
    } else {
        match root.find(id as usize) {
            None => acc,
            Some(n) => matches_from(
                root,
                id + 1,
                kind,
                code,
                if spec_node_matches(n, kind, code) {
                    acc.push(n.id)
                } else {
                    acc
                },
            ),
        }
    }
}

/// The ids of every node of `programs[i..]` that satisfies the predicate.
pub open spec fn matched_ids(
    programs: Seq<Program>,
    i: int,
    kind: Option<Seq<char>>,
    code: Option<Seq<char>>,
    acc: Seq<usize>,
) -> Seq<usize>
    decreases programs.len() - i,
{
    if i < 0 || i >= programs.len() {
        acc
    } else {
        matched_ids(
            programs,
            i + 1,
            kind,
            code,
            matches_from(programs[i].tree@, programs[i].tree@.id as int, kind, code, acc),
        )
    }
}

/// The kind clause of a predicate, as a character sequence.
pub open spec fn kind_view(c: ConfigNode) -> Option<Seq<char>> {
    match c.identifier {
        None => None,
        Some(s) => Some(s@),
    }
}

/// The pattern clause of a predicate, as a character sequence.
pub open spec fn code_view(c: ConfigNode) -> Option<Seq<char>> {
    match c.code {
        None => None,
        Some(s) => Some(s@),
    }
}

/// Resolves one configured predicate to the ids of the nodes it matches,
/// over the whole program set.  `None` when the pattern clause is not a
/// well-formed regular expression.
pub fn find_matching_nodes(programs: &Vec<Program>, node: &ConfigNode) -> (r: Option<Vec<usize>>)
    requires
        all_wf(programs@),
    ensures
        match r {
            None => code_view(*node) matches Some(p) && !regex_valid(p),
            Some(ids) => ids@ == matched_ids(
                programs@,
                0,
                kind_view(*node),
                code_view(*node),
                Seq::empty(),
            ),
        },
{
    let ghost kv = kind_view(*node);
    let ghost cv = code_view(*node);
    // reject a malformed pattern up front
    match &node.code {
        None => {},
        Some(p) => {
            match regex_is_match(p.as_str(), "") {
                None => {
                    return None;
                },
                Some(_) => {},
            }
        },
    }
    let kind_filter: Option<ASTIdentifier> = match &node.identifier {
        None => None,
        Some(s) => Some(ASTIdentifier::from_kind(s.as_str())),
    };
    let mut ids: Vec<usize> = Vec::new();
    let mut k: usize = 0;
    while k < programs.len()
        invariant
            all_wf(programs@),
            k <= programs@.len(),
            kv == kind_view(*node),
            cv == code_view(*node),
            (match kind_filter {
                None => kv is None,
                Some(kf) => kv matches Some(ks) && kf == ASTIdentifier::kind_of(ks),
            }),
            cv matches Some(p) ==> regex_valid(p),
            matched_ids(programs@, 0, kv, cv, Seq::empty()) == matched_ids(
                programs@,
                k as int,
                kv,
                cv,
                ids@,
            ),
        decreases programs@.len() - k,
    {
        proof {
            assert(programs@[k as int].wf());
        }
        let parent = &programs[k].tree;
        let ghost tree_start = ids@;
        let mut i = parent.id;
        loop
            invariant
                parent.inv(),
                parent@.wf(),
                parent@.until < usize::MAX,
                kv == kind_view(*node),
                cv == code_view(*node),
                (match kind_filter {
                    None => kv is None,
                    Some(kf) => kv matches Some(ks) && kf == ASTIdentifier::kind_of(ks),
                }),
                cv matches Some(p) ==> regex_valid(p),
                parent@.id <= i,
                matches_from(parent@, parent@.id as int, kv, cv, tree_start) == matches_from(
                    parent@,
                    i as int,
                    kv,
                    cv,
                    ids@,
                ),
            ensures
                matches_from(parent@, parent@.id as int, kv, cv, tree_start) == ids@,
            decreases parent@.until + 1 - i,
        {
            if i > parent.children_until {
                break ;
            }
            let n = match parent.get_node_by_id(i) {
                None => { break ; },
                Some(n) => n,
            };
            let kind_ok = match kind_filter {
                None => true,
                Some(kf) => kf == n.identifier,
            };
            let code_ok = match &node.code {
                None => true,
                Some(p) => {
                    match regex_is_match(p.as_str(), n.code.as_str()) {
                        Some(b) => b,
                        None => {
                            proof {
                                assert(false);
                            }
                            false
                        },
                    }
                },
            };
            if kind_ok && code_ok {
                ids.push(n.id);
                proof {
                    assert(spec_node_matches(n@, kv, cv));
                }
            } else {
                proof {
                    assert(!spec_node_matches(n@, kv, cv));
                }
            }
            i = i + 1;
        }
        k += 1;
    }
    Some(ids)
}

/// The file and line fields correctly attribute an id: taken from the first
/// program whose tree holds the id, or empty when no program does.
pub open spec fn attributed(
    programs: Seq<Program>,
    id: usize,
    file: Seq<char>,
    ls: usize,
    le: usize,
) -> bool {
    if exists|k: int| 0 <= k < programs.len() && (#[trigger] programs[k].tree@.find(id)) is Some {
        exists|k: int|
            {
                &&& 0 <= k < programs.len()
                &&& (#[trigger] programs[k].tree@.find(id)) matches Some(n)
                &&& (forall|j: int| 0 <= j < k ==> programs[j].tree@.find(id) is None)
                &&& file == programs[k].file@
                &&& ls == n.line_start
                &&& le == n.line_end
            }
    } else {
        file == Seq::<char>::empty() && ls == 0 && le == 0
    }
}

/// One reported reaching pair: the ids, and the owning file and line range
/// of each end.
pub struct Hit {
    pub source_id: usize,
    pub target_id: usize,
    pub source_file: String,
    pub source_line_start: usize,
    pub source_line_end: usize,
    pub target_file: String,
    pub target_line_start: usize,
    pub target_line_end: usize,
}

/// Every reaching pair of one flow: a hit for each source and target id
/// such that the target is reachable from the source.
pub fn flow_hits(
    programs: &Vec<Program>,
    reach: &Domain,
    from_ids: &Vec<usize>,
    to_ids: &Vec<usize>,
) -> (r: Vec<Hit>)
    requires
        all_wf(programs@),
    ensures
        forall|h: Hit|
            #[trigger] r@.contains(h) ==> reach@.contains((h.source_id, h.target_id))
                && from_ids@.contains(h.source_id) && to_ids@.contains(h.target_id) && attributed(
                programs@,
                h.source_id,
                h.source_file@,
                h.source_line_start,
                h.source_line_end,
            ) && attributed(
                programs@,
                h.target_id,
                h.target_file@,
                h.target_line_start,
                h.target_line_end,
            ),
        forall|si: int, ti: int|
            0 <= si < from_ids@.len() && 0 <= ti < to_ids@.len() && reach@.contains(
                (#[trigger] from_ids@[si], #[trigger] to_ids@[ti]),
            ) ==> exists|j: int|
                0 <= j < r@.len() && (#[trigger] r@[j]).source_id == from_ids@[si]
                    && r@[j].target_id == to_ids@[ti],
{
    let mut hits: Vec<Hit> = Vec::new();
    let mut si: usize = 0;
    while si < from_ids.len()
        invariant
            all_wf(programs@),
            si <= from_ids@.len(),
            forall|h: Hit|
                #[trigger] hits@.contains(h) ==> reach@.contains((h.source_id, h.target_id))
                    && from_ids@.contains(h.source_id) && to_ids@.contains(h.target_id)
                    && attributed(
                    programs@,
                    h.source_id,
                    h.source_file@,
                    h.source_line_start,
                    h.source_line_end,
                ) && attributed(
                    programs@,
                    h.target_id,
                    h.target_file@,
                    h.target_line_start,
                    h.target_line_end,
                ),
            forall|s2: int, t2: int|
                0 <= s2 < si && 0 <= t2 < to_ids@.len() && reach@.contains(
                    (#[trigger] from_ids@[s2], #[trigger] to_ids@[t2]),
                ) ==> exists|j: int|
                    0 <= j < hits@.len() && (#[trigger] hits@[j]).source_id == from_ids@[s2]
                        && hits@[j].target_id == to_ids@[t2],
        decreases from_ids@.len() - si,
    {
        let s = from_ids[si];
        let mut ti: usize = 0;
        while ti < to_ids.len()
            invariant
                all_wf(programs@),
                si < from_ids@.len(),
                s == from_ids@[si as int],
                ti <= to_ids@.len(),
                forall|h: Hit|
                    #[trigger] hits@.contains(h) ==> reach@.contains((h.source_id, h.target_id))
                        && from_ids@.contains(h.source_id) && to_ids@.contains(h.target_id)
                        && attributed(
                        programs@,
                        h.source_id,
                        h.source_file@,
                        h.source_line_start,
                        h.source_line_end,
                    ) && attributed(
                        programs@,
                        h.target_id,
                        h.target_file@,
                        h.target_line_start,
                        h.target_line_end,
                    ),
                forall|s2: int, t2: int|
                    0 <= s2 < si && 0 <= t2 < to_ids@.len() && reach@.contains(
                        (#[trigger] from_ids@[s2], #[trigger] to_ids@[t2]),
                    ) ==> exists|j: int|
                        0 <= j < hits@.len() && (#[trigger] hits@[j]).source_id == from_ids@[s2]
                            && hits@[j].target_id == to_ids@[t2],
                forall|t2: int|
                    0 <= t2 < ti && reach@.contains((s, #[trigger] to_ids@[t2])) ==> exists|j: int|
                        0 <= j < hits@.len() && (#[trigger] hits@[j]).source_id == s
                            && hits@[j].target_id == to_ids@[t2],
            decreases to_ids@.len() - ti,
    {
            let t = to_ids[ti];
            if reach.is_reachable(s, t) {
                let (sf, sls, sle) = match Program::get_node_by_id_multiple_programs(programs, s) {
                    Some(p) => {
                        let f = p.1;
                        (f, p.0.line_start, p.0.line_end)
                    },
                    None => (String::new(), 0, 0),
                };
                proof {
                    assert(attributed(programs@, s, sf@, sls, sle));
                }
                let (tf, tls, tle) = match Program::get_node_by_id_multiple_programs(programs, t) {
                    Some(p) => {
                        let f = p.1;
                        (f, p.0.line_start, p.0.line_end)
                    },
                    None => (String::new(), 0, 0),
                };
                proof {
                    assert(attributed(programs@, t, tf@, tls, tle));
                }
                let ghost hpre = hits@;
                hits.push(
                    Hit {
                        source_id: s,
                        target_id: t,
                        source_file: sf,
                        source_line_start: sls,
                        source_line_end: sle,
                        target_file: tf,
                        target_line_start: tls,
                        target_line_end: tle,
                    },
                );
                proof {
                    assert(forall|j: int| 0 <= j < hpre.len() ==> hits@[j] == hpre[j]);
                    assert(hits@[hpre.len() as int].source_id == s);
                    assert(forall|h: Hit| hpre.contains(h) ==> #[trigger] hits@.contains(h)) by {
                        assert forall|h: Hit| hpre.contains(h) implies #[trigger] hits@.contains(
                            h,
                        ) by {
                            let j = choose|j: int| 0 <= j < hpre.len() && hpre[j] == h;
                            assert(hits@[j] == h);
                        }
                    }
                    assert(forall|h: Hit| #[trigger] hits@.contains(h) ==> hpre.contains(h) || h
                        == hits@[hpre.len() as int]) by {
                        assert forall|h: Hit| #[trigger] hits@.contains(h) implies hpre.contains(h)
                            || h == hits@[hpre.len() as int] by {
                            let j = choose|j: int| 0 <= j < hits@.len() && hits@[j] == h;
                            if j < hpre.len() {
                                assert(hpre[j] == h);
                            }
                        }
                    }
                }
            }
            ti += 1;
        }
        si += 1;
    }
    hits
}

} // verus!
