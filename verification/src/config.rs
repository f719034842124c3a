use vstd::prelude::*;

verus! {

/// An analysis configuration: the project directory, the named node
/// predicates, and the flows to report.
pub struct Config {
    pub project: String,
    pub nodes: Vec<ConfigNode>,
    pub flows: Vec<ConfigFlow>,
}

/// A named node predicate: an optional kind string and an optional pattern
/// applied to the node's source slice.  An absent clause matches anything.
pub struct ConfigNode {
    pub name: String,
    pub identifier: Option<String>,
    pub code: Option<String>,
}

/// A flow to report: two entries of the predicate list, by name.
pub struct ConfigFlow {
    pub from: String,
    pub to: String,
}

impl Config {
    /// The position of the named predicate in the node list, scanning in
    /// order.
    pub open spec fn spec_node_index(nodes: Seq<ConfigNode>, name: Seq<char>, i: int) -> Option<
        int,
    >
        decreases nodes.len() - i,
    {
        if i < 0 || i >= nodes.len() {
            None
        } else if nodes[i].name@ == name {
            Some(i)
        } else {
            Self::spec_node_index(nodes, name, i + 1)
        }
    }

    /// Finds the named predicate in the node list.
    pub fn node_index(nodes: &Vec<ConfigNode>, name: &String) -> (r: Option<usize>)
        ensures
            match r {
                Some(i) => Self::spec_node_index(nodes@, name@, 0) == Some(i as int),
                None => Self::spec_node_index(nodes@, name@, 0) is None,
            },
    {
        let mut i: usize = 0;
        while i < nodes.len()
            invariant
                i <= nodes@.len(),
                Self::spec_node_index(nodes@, name@, 0) == Self::spec_node_index(
                    nodes@,
                    name@,
                    i as int,
                ),
            decreases nodes@.len() - i,
        {
            if nodes[i].name == *name {
                return Some(i);
            }
            i += 1;
        }
        None
    }
}

} // verus!
