use vstd::prelude::*;

verus! {

broadcast use vstd::std_specs::vec::group_vec_axioms, vstd::seq::axiom_seq_index_decreases;

/// The semantic role of a syntax-tree node.  Kind strings the grammar emits
/// are mapped through [`ASTIdentifier::from_kind`]; anything unrecognized
/// becomes `UNKNOWN`.
#[allow(non_camel_case_types)]
#[derive(Clone, Copy, Debug, PartialEq, Eq, Structural)]
pub enum ASTIdentifier {
    Identifier,
    MethodInvocation,
    ExpressionStatement,
    DecimalIntegerLiteral,
    BinaryExpression,
    StringLiteral,
    BooleanLiteral,
    ReturnStatement,
    IfStatement,
    AssignmentExpression,
    VariableDeclarator,
    IntegralType,
    LocalVariableDeclaration,
    Block,
    ParenthesizedExpression,
    FormalParameter,
    FormalParameters,
    MethodDeclaration,
    ClassBody,
    Class,
    Root,
    WhileStatement,
    ForStatement,
    AssertStatement,
    DoStatement,
    BreakStatement,
    ContinueStatement,
    YieldStatement,
    SynchronizedStatement,
    ThrowStatement,
    TryStatement,
    TryWithRessourceStatement,
    SwitchStatement,
    SwitchLabel,
    Case,
    Catch,
    SwitchBlock,
    CatchClause,
    ClassDeclaration,
    PackageDeclaration,
    ImportDeclaration,
    UNKNOWN,
}

impl ASTIdentifier {
    /// The "value-carrying" statement kinds: the members of a block body that
    /// the control-flow construction links in sequence.
    pub open spec fn is_statement(self) -> bool {
        match self {
            ASTIdentifier::ExpressionStatement => true,
            ASTIdentifier::LocalVariableDeclaration => true,
            ASTIdentifier::ReturnStatement => true,
            ASTIdentifier::AssertStatement => true,
            ASTIdentifier::YieldStatement => true,
            ASTIdentifier::IfStatement => true,
            ASTIdentifier::WhileStatement => true,
            ASTIdentifier::TryWithRessourceStatement => true,
            ASTIdentifier::TryStatement => true,
            ASTIdentifier::SynchronizedStatement => true,
            ASTIdentifier::ForStatement => true,
            ASTIdentifier::DoStatement => true,
            ASTIdentifier::SwitchStatement => true,
            _ => false,
        }
    }

    /// Statement kinds without `Return` and `Break`: the ones that, once
    /// linked, become the single open predecessor of what follows.
    pub open spec fn is_sequential(self) -> bool {
        self.is_statement() && self != ASTIdentifier::ReturnStatement
            && self != ASTIdentifier::BreakStatement
    }

    pub open spec fn is_block(self) -> bool {
        self == ASTIdentifier::Block || self == ASTIdentifier::SwitchBlock
    }

    /// Runtime test matching [`Self::is_statement`].
    pub fn statement(&self) -> (r: bool)
        ensures
            r == self.is_statement(),
    {
        match self {
            ASTIdentifier::ExpressionStatement => true,
            ASTIdentifier::LocalVariableDeclaration => true,
            ASTIdentifier::ReturnStatement => true,
            ASTIdentifier::AssertStatement => true,
            ASTIdentifier::YieldStatement => true,
            ASTIdentifier::IfStatement => true,
            ASTIdentifier::WhileStatement => true,
            ASTIdentifier::TryWithRessourceStatement => true,
            ASTIdentifier::TryStatement => true,
            ASTIdentifier::SynchronizedStatement => true,
            ASTIdentifier::ForStatement => true,
            ASTIdentifier::DoStatement => true,
            ASTIdentifier::SwitchStatement => true,
            _ => false,
        }
    }

    pub fn block(&self) -> (r: bool)
        ensures
            r == self.is_block(),
    {
        match self {
            ASTIdentifier::Block => true,
            ASTIdentifier::SwitchBlock => true,
            _ => false,
        }
    }
}

/// The mathematical shape of a syntax-tree node: what remains of an
/// [`ASTNode`] once the lookup cache is stripped away.
pub ghost struct AstView {
    pub id: usize,
    pub until: usize,
    pub kind: ASTIdentifier,
    pub code: Seq<char>,
    pub children: Seq<AstView>,
    pub line_start: usize,
    pub line_end: usize,
}

impl AstView {
    /// Pre-order id discipline: a node's children occupy exactly the ids
    /// `id + 1 ..= until`, consecutively and in order, and a childless node
    /// spans only its own id.
    pub open spec fn wf(self) -> bool
        decreases self,
    {
        &&& self.id <= self.until
        &&& (self.children.len() == 0 ==> self.until == self.id)
        &&& (self.children.len() > 0 ==> {
            &&& self.children[0].id == self.id + 1
            &&& self.until == self.children.last().until
        })
        &&& (forall|i: int|
            0 <= i < self.children.len() ==> (#[trigger] self.children[i]).wf())
        &&& (forall|i: int, j: int|
            #![trigger self.children[i], self.children[j]]
            0 <= i && i + 1 == j && j < self.children.len() ==> self.children[j].id
                == self.children[i].until + 1)
    }

    /// The node with the given id in this subtree, if any.
    pub open spec fn find(self, id: usize) -> Option<AstView>
        decreases self, 1nat, 0nat,
    {
        if self.id == id {
            Some(self)
        } else {
            Self::find_from(self.children, 0, id)
        }
    }

    /// Scans `children[i..]` for the node with the given id.
    pub open spec fn find_from(children: Seq<AstView>, i: int, id: usize) -> Option<AstView>
        decreases children, 0nat, children.len() - i,
    {
        if i < 0 || i >= children.len() {
            None
        } else {
            match children[i].find(id) {
                Some(n) => Some(n),
                None => Self::find_from(children, i + 1, id),
            }
        }
    }

    /// A found node lies in this subtree's id range and is well-formed.
    pub proof fn lemma_find_range(self, id: usize)
        requires
            self.wf(),
        ensures
            self.find(id) matches Some(n) ==> n.id == id && self.id <= id <= self.until && n.wf()
                && n.until <= self.until,
        decreases self, 1nat, 0nat,
    {
        if self.id == id {
        } else {
            Self::lemma_find_from_range(self, self.children, 0, id);
        }
    }

    proof fn lemma_find_from_range(parent: AstView, children: Seq<AstView>, i: int, id: usize)
        requires
            parent.wf(),
            children == parent.children,
        ensures
            Self::find_from(children, i, id) matches Some(n) ==> n.id == id && parent.id < id
                <= parent.until && n.wf() && n.until <= parent.until,
        decreases parent, 0nat, children.len() - i,
    {
        if 0 <= i < children.len() {
            children[i].lemma_find_range(id);
            Self::lemma_child_bounds(parent, i);
            Self::lemma_find_from_range(parent, children, i + 1, id);
        }
    }

    /// Each child's id range nests inside the parent's.
    pub proof fn lemma_child_bounds(parent: AstView, i: int)
        requires
            parent.wf(),
            0 <= i < parent.children.len(),
        ensures
            parent.id < parent.children[i].id,
            parent.children[i].until <= parent.until,
            parent.children[i].wf(),
    {
        Self::lemma_child_lo(parent, i);
        Self::lemma_child_hi(parent, i);
    }

    proof fn lemma_child_lo(parent: AstView, i: int)
        requires
            parent.wf(),
            0 <= i < parent.children.len(),
        ensures
            parent.id < parent.children[i].id,
        decreases i,
    {
        if i > 0 {
            Self::lemma_child_lo(parent, i - 1);
            assert(parent.children[i].id == parent.children[i - 1].until + 1);
            assert(parent.children[i - 1].wf());
        }
    }

    proof fn lemma_child_hi(parent: AstView, i: int)
        requires
            parent.wf(),
            0 <= i < parent.children.len(),
        ensures
            parent.children[i].until <= parent.until,
        decreases parent.children.len() - i,
    {
        if i + 1 < parent.children.len() {
            Self::lemma_child_hi(parent, i + 1);
            assert(parent.children[i + 1].id == parent.children[i].until + 1);
            assert(parent.children[i + 1].wf());
        }
    }

    /// Every id in the range is present: `find` succeeds exactly on
    /// `id ..= until`.
    pub proof fn lemma_find_complete(self, id: usize)
        requires
            self.wf(),
        ensures
            (self.find(id) is Some) <==> self.id <= id <= self.until,
        decreases self, 1nat, 0nat,
    {
        self.lemma_find_range(id);
        if self.id == id {
        } else {
            Self::lemma_find_from_complete(self, self.children, 0, id);
            if self.id < id <= self.until {
                assert(self.children.len() > 0);
                Self::lemma_children_cover(self, 0, id);
            }
        }
    }

    proof fn lemma_find_from_complete(parent: AstView, children: Seq<AstView>, i: int, id: usize)
        requires
            parent.wf(),
            children == parent.children,
            0 <= i <= children.len(),
        ensures
            (Self::find_from(children, i, id) is Some) <==> (exists|j: int|
                i <= j < children.len() && (#[trigger] children[j]).id <= id <= children[j].until),
        decreases parent, 0nat, children.len() - i,
    {
        if i < children.len() {
            children[i].lemma_find_complete(id);
            Self::lemma_find_from_complete(parent, children, i + 1, id);
            if children[i].id <= id <= children[i].until {
                assert(Self::find_from(children, i, id) is Some);
            }
        }
    }

    /// The children of a well-formed node tile the id range
    /// `id + 1 ..= until` without gaps: any id in that range falls into
    /// some child's range.
    pub proof fn lemma_children_cover(parent: AstView, i: int, id: usize)
        requires
            parent.wf(),
            0 <= i < parent.children.len(),
            parent.children[i].id <= id <= parent.until,
        ensures
            exists|j: int|
                i <= j < parent.children.len() && (#[trigger] parent.children[j]).id <= id
                    <= parent.children[j].until,
        decreases parent.children.len() - i,
    {
        Self::lemma_child_bounds(parent, i);
        if i + 1 < parent.children.len() {
            if id <= parent.children[i].until {
                assert(parent.children[i].id <= id <= parent.children[i].until);
            } else {
                Self::lemma_children_cover(parent, i + 1, id);
            }
        } else {
            assert(parent.until == parent.children.last().until);
            assert(parent.children[i].id <= id <= parent.children[i].until);
        }
    }

    /// In a well-formed tree a node's id never exceeds its `until` bound,
    /// and every proper descendant's id lies strictly between the node's id
    /// and that bound.
    pub proof fn lemma_descendant_ids(self, d: usize)
        requires
            self.wf(),
            self.find(d) is Some,
            d != self.id,
        ensures
            self.id <= self.until,
            self.id < self.find(d)->Some_0.id <= self.until,
            self.find(d)->Some_0.id == d,
    {
        self.lemma_find_range(d);
    }

    /// Looking up the root id returns the root itself.
    pub proof fn lemma_find_self(self)
        ensures
            self.find(self.id) == Some(self),
    {
    }

    /// The ids of the direct children whose kind is a statement kind, in
    /// child order.
    pub open spec fn statement_ids(children: Seq<AstView>) -> Seq<usize>
        decreases children.len(),
    {
        if children.len() == 0 {
            Seq::empty()
        } else {
            let rest = Self::statement_ids(children.drop_last());
            if children.last().kind.is_statement() {
                rest.push(children.last().id)
            } else {
                rest
            }
        }
    }

    /// The ids of the direct children of kind `Block` or `SwitchBlock`, in
    /// child order.
    pub open spec fn block_ids(children: Seq<AstView>) -> Seq<usize>
        decreases children.len(),
    {
        if children.len() == 0 {
            Seq::empty()
        } else {
            let rest = Self::block_ids(children.drop_last());
            if children.last().kind.is_block() {
                rest.push(children.last().id)
            } else {
                rest
            }
        }
    }
}

/// A syntax-tree node.  `children_until` is the largest id in the subtree;
/// `cache` optionally holds a copy of the node with id `id + i` at index `i`
/// to serve lookups in constant time.
pub struct ASTNode {
    pub id: usize,
    pub children_until: usize,
    pub identifier: ASTIdentifier,
    pub code: String,
    pub children: Vec<ASTNode>,
    pub cache: Vec<ASTNode>,
    pub line_start: usize,
    pub line_end: usize,
}

impl View for ASTNode {
    type V = AstView;

    open spec fn view(&self) -> AstView {
        ASTNode::to_view(*self)
    }
}

impl ASTNode {
    /// The mathematical shape of this node: the tree with the caches
    /// stripped away.
    pub open spec fn to_view(n: ASTNode) -> AstView
        decreases n,
    {
        AstView {
            id: n.id,
            until: n.children_until,
            kind: n.identifier,
            code: n.code@,
            children: Seq::new(
                n.children@.len(),
                |i: int|
                    if 0 <= i < n.children@.len() {
                        Self::to_view(n.children@[i])
                    } else {
                        vstd::pervasive::arbitrary()
                    },
            ),
            line_start: n.line_start,
            line_end: n.line_end,
        }
    }

    /// The cache, where populated, holds copies of the subtree's own nodes:
    /// index `i` answers a lookup of id `id + i`.
    pub open spec fn inv(self) -> bool
        decreases self,
    {
        &&& (forall|i: int| 0 <= i < self.children@.len() ==> (#[trigger] self.children@[i]).inv())
        &&& (forall|i: int|
            0 <= i < self.cache@.len() ==> (#[trigger] self.cache@[i]).inv() && self.id + i
                <= usize::MAX && self@.find((self.id + i) as usize) == Some(self.cache@[i]@))
    }

    /// An empty `Root` placeholder.
    pub fn empty() -> (r: ASTNode)
        ensures
            r.inv(),
            r@.wf(),
            r.id == 0,
            r.children_until == 0,
            r.identifier == ASTIdentifier::Root,
            r.code@ == Seq::<char>::empty(),
            r.children@.len() == 0,
            r.cache@.len() == 0,
            r.line_start == 0,
            r.line_end == 0,
            r@ == (AstView {
                id: 0,
                until: 0,
                kind: ASTIdentifier::Root,
                code: Seq::<char>::empty(),
                children: Seq::<AstView>::empty(),
                line_start: 0,
                line_end: 0,
            }),
    {
        let r = ASTNode {
            id: 0,
            children_until: 0,
            identifier: ASTIdentifier::Root,
            code: String::new(),
            children: Vec::new(),
            cache: Vec::new(),
            line_start: 0,
            line_end: 0,
        };
        proof {
            assert(r@.children =~= Seq::<AstView>::empty());
        }
        r
    }

    /// Retrieves the node with the given id from this subtree, serving it
    /// from the cache when one is populated.
    pub fn get_node_by_id(&self, id: usize) -> (r: Option<&ASTNode>)
        requires
            self.inv(),
            self@.wf(),
        ensures
            match r {
                Some(n) => n.inv() && n@.wf() && self@.find(id) == Some(n@),
                None => self@.find(id) is None,
            },
    {
        if self.cache.len() > 0 && id >= self.id && id - self.id < self.cache.len() {
            let n = &self.cache[id - self.id];
            proof {
                assert(self@.find(id) == Some(n@));
                self@.lemma_find_range(id);
            }
            Some(n)
        } else {
            self.get_node_by_id_dfs(id)
        }
    }

    /// Depth-first search for the node with the given id, pruning subtrees
    /// whose id range cannot contain it.
    fn get_node_by_id_dfs(&self, id: usize) -> (r: Option<&ASTNode>)
        requires
            self.inv(),
            self@.wf(),
        ensures
            match r {
                Some(n) => n.inv() && n@.wf() && self@.find(id) == Some(n@),
                None => self@.find(id) is None,
            },
        decreases *self,
    {
        if self.id == id {
            return Some(self);
        }
        if id < self.id || id > self.children_until {
            proof {
                self@.lemma_find_complete(id);
            }
            return None;
        }
        let ghost cvs = self@.children;
        proof {
            assert(cvs.len() == self.children@.len());
            assert(forall|i: int| 0 <= i < cvs.len() ==> cvs[i] == self.children@[i]@);
        }
        let mut k: usize = 0;
        while k < self.children.len()
            invariant
                self.inv(),
                self@.wf(),
                cvs == self@.children,
                self.id != id,
                k <= self.children@.len(),
                AstView::find_from(cvs, 0, id) == AstView::find_from(cvs, k as int, id),
            decreases self.children@.len() - k,
        {
            let child = &self.children[k];
            proof {
                assert(child@ == cvs[k as int]);
                AstView::lemma_child_bounds(self@, k as int);
            }
            let r = child.get_node_by_id_dfs(id);
            if r.is_some() {
                return r;
            }
            k += 1;
        }
        None
    }

    /// Copies the subtree, dropping every cache along the way: the shape, the
    /// ids, the kinds, the code and the line numbers are all kept.
    pub fn deep_copy(&self) -> (r: ASTNode)
        ensures
            r@ == self@,
            r.inv(),
        decreases *self,
    {
        let mut children: Vec<ASTNode> = Vec::new();
        let mut k: usize = 0;
        while k < self.children.len()
            invariant
                k <= self.children@.len(),
                children@.len() == k,
                forall|i: int|
                    0 <= i < k ==> (#[trigger] children@[i])@ == self.children@[i]@
                        && children@[i].inv(),
            decreases self.children@.len() - k,
        {
            let c = self.children[k].deep_copy();
            children.push(c);
            k += 1;
        }
        let r = ASTNode {
            id: self.id,
            children_until: self.children_until,
            identifier: self.identifier,
            code: self.code.clone(),
            children,
            cache: Vec::new(),
            line_start: self.line_start,
            line_end: self.line_end,
        };
        proof {
            assert(r@.children =~= self@.children);
            assert(r@ =~= self@);
        }
        r
    }

    /// Populates the cache for the id range `id .. children_until`, leaving
    /// the tree itself untouched: afterwards the cache holds one entry per
    /// id of that range, each equal to the subtree node with that id.
    pub fn build_cache(&mut self)
        requires
            old(self).inv(),
            old(self)@.wf(),
        ensures
            final(self).inv(),
            final(self)@.wf(),
            final(self)@ == old(self)@,
            final(self).cache@.len() == old(self)@.until - old(self)@.id,
    {
        self.cache = Vec::new();
        let mut i: usize = self.id;
        while i < self.children_until
            invariant
                self.inv(),
                self@.wf(),
                self@ == old(self)@,
                self.id <= i <= self.children_until,
                self.cache@.len() == i - self.id,
            decreases self.children_until - i,
        {
            match self.get_node_by_id_dfs(i) {
                Some(n) => {
                    let c = n.deep_copy();
                    self.cache.push(c);
                },
                None => {
                    proof {
                        self@.lemma_find_complete(i);
                        assert(false);
                    }
                },
            }
            i += 1;
        }
    }

    /// The ids of the direct children that are statements, in child order.
    pub fn get_statements(&self) -> (r: Vec<usize>)
        ensures
            r@ == AstView::statement_ids(self@.children),
    {
        let mut nodes: Vec<usize> = Vec::new();
        let mut k: usize = 0;
        while k < self.children.len()
            invariant
                k <= self.children@.len(),
                nodes@ == AstView::statement_ids(self@.children.take(k as int)),
            decreases self.children@.len() - k,
        {
            let child = &self.children[k];
            proof {
                assert(self@.children.take(k + 1).drop_last() =~= self@.children.take(k as int));
                assert(self@.children.take(k + 1).last() == child@);
            }
            if child.identifier.statement() {
                nodes.push(child.id);
            }
            k += 1;
        }
        proof {
            assert(self@.children.take(self.children@.len() as int) =~= self@.children);
        }
        nodes
    }

    /// The ids of the direct children of kind `Block` or `SwitchBlock`, in
    /// child order.
    pub fn get_blocks(&self) -> (r: Vec<usize>)
        ensures
            r@ == AstView::block_ids(self@.children),
    {
        let mut blocks: Vec<usize> = Vec::new();
        let mut k: usize = 0;
        while k < self.children.len()
            invariant
                k <= self.children@.len(),
                blocks@ == AstView::block_ids(self@.children.take(k as int)),
            decreases self.children@.len() - k,
        {
            let child = &self.children[k];
            proof {
                assert(self@.children.take(k + 1).drop_last() =~= self@.children.take(k as int));
                assert(self@.children.take(k + 1).last() == child@);
            }
            if child.identifier.block() {
                blocks.push(child.id);
            }
            k += 1;
        }
        proof {
            assert(self@.children.take(self.children@.len() as int) =~= self@.children);
        }
        blocks
    }
}


/// Compares two string slices by their character content.
fn streq(a: &str, b: &str) -> (r: bool)
    ensures
        r == (a@ == b@),
{
    let x: String = a.to_owned();
    let y: String = b.to_owned();
    x == y
}

impl ASTIdentifier {
    /// The node kind a grammar kind string denotes; anything unrecognized is
    /// `UNKNOWN`.
    #[verifier::opaque]
    pub open spec fn kind_of(s: Seq<char>) -> ASTIdentifier {
        if s == "identifier"@ {
            ASTIdentifier::Identifier
        } else if s == "method_invocation"@ {
            ASTIdentifier::MethodInvocation
        } else if s == "expression_statement"@ {
            ASTIdentifier::ExpressionStatement
        } else if s == "decimal_integer_literal"@ {
            ASTIdentifier::DecimalIntegerLiteral
        } else if s == "binary_expression"@ {
            ASTIdentifier::BinaryExpression
        } else if s == "string_literal"@ {
            ASTIdentifier::StringLiteral
        } else if s == "boolean_literal"@ {
            ASTIdentifier::BooleanLiteral
        } else if s == "return_statement"@ {
            ASTIdentifier::ReturnStatement
        } else if s == "if_statement"@ {
            ASTIdentifier::IfStatement
        } else if s == "assignment_expression"@ {
            ASTIdentifier::AssignmentExpression
        } else if s == "variable_declarator"@ {
            ASTIdentifier::VariableDeclarator
        } else if s == "integral_type"@ {
            ASTIdentifier::IntegralType
        } else if s == "local_variable_declaration"@ {
            ASTIdentifier::LocalVariableDeclaration
        } else if s == "block"@ {
            ASTIdentifier::Block
        } else if s == "parenthesized_expression"@ {
            ASTIdentifier::ParenthesizedExpression
        } else if s == "formal_parameter"@ {
            ASTIdentifier::FormalParameter
        } else if s == "formal_parameters"@ {
            ASTIdentifier::FormalParameters
        } else if s == "method_declaration"@ {
            ASTIdentifier::MethodDeclaration
        } else if s == "class_body"@ {
            ASTIdentifier::ClassBody
        } else if s == "class"@ {
            ASTIdentifier::Class
        } else if s == "while_statement"@ {
            ASTIdentifier::WhileStatement
        } else if s == "for_statement"@ {
            ASTIdentifier::ForStatement
        } else if s == "enhanced_for_statement"@ {
            ASTIdentifier::ForStatement
        } else if s == "assert_statement"@ {
            ASTIdentifier::AssertStatement
        } else if s == "do_statement"@ {
            ASTIdentifier::DoStatement
        } else if s == "break_statement"@ {
            ASTIdentifier::BreakStatement
        } else if s == "continue_statement"@ {
            ASTIdentifier::ContinueStatement
        } else if s == "yield_statement"@ {
            ASTIdentifier::YieldStatement
        } else if s == "synchronized_statement"@ {
            ASTIdentifier::SynchronizedStatement
        } else if s == "throw_statement"@ {
            ASTIdentifier::ThrowStatement
        } else if s == "try_statement"@ {
            ASTIdentifier::TryStatement
        } else if s == "try_with_ressource_statement"@ {
            ASTIdentifier::TryWithRessourceStatement
        } else if s == "switch_statement"@ {
            ASTIdentifier::SwitchStatement
        } else if s == "case"@ {
            ASTIdentifier::Case
        } else if s == "switch_label"@ {
            ASTIdentifier::SwitchLabel
        } else if s == "switch_block"@ {
            ASTIdentifier::SwitchBlock
        } else if s == "catch"@ {
            ASTIdentifier::Catch
        } else if s == "catch_clause"@ {
            ASTIdentifier::CatchClause
        } else if s == "class_declaration"@ {
            ASTIdentifier::ClassDeclaration
        } else if s == "package_declaration"@ {
            ASTIdentifier::PackageDeclaration
        } else if s == "import_declaration"@ {
            ASTIdentifier::ImportDeclaration
        } else if s == "root"@ {
            ASTIdentifier::Root
        } else {
            ASTIdentifier::UNKNOWN
        }
    }

    /// Runtime mapping matching [`Self::kind_of`].
    pub fn from_kind(s: &str) -> (r: ASTIdentifier)
        ensures
            r == Self::kind_of(s@),
    {
        proof {
            reveal(ASTIdentifier::kind_of);
        }
        if streq(s, "identifier") {
            ASTIdentifier::Identifier
        } else if streq(s, "method_invocation") {
            ASTIdentifier::MethodInvocation
        } else if streq(s, "expression_statement") {
            ASTIdentifier::ExpressionStatement
        } else if streq(s, "decimal_integer_literal") {
            ASTIdentifier::DecimalIntegerLiteral
        } else if streq(s, "binary_expression") {
            ASTIdentifier::BinaryExpression
        } else if streq(s, "string_literal") {
            ASTIdentifier::StringLiteral
        } else if streq(s, "boolean_literal") {
            ASTIdentifier::BooleanLiteral
        } else if streq(s, "return_statement") {
            ASTIdentifier::ReturnStatement
        } else if streq(s, "if_statement") {
            ASTIdentifier::IfStatement
        } else if streq(s, "assignment_expression") {
            ASTIdentifier::AssignmentExpression
        } else if streq(s, "variable_declarator") {
            ASTIdentifier::VariableDeclarator
        } else if streq(s, "integral_type") {
            ASTIdentifier::IntegralType
        } else if streq(s, "local_variable_declaration") {
            ASTIdentifier::LocalVariableDeclaration
        } else if streq(s, "block") {
            ASTIdentifier::Block
        } else if streq(s, "parenthesized_expression") {
            ASTIdentifier::ParenthesizedExpression
        } else if streq(s, "formal_parameter") {
            ASTIdentifier::FormalParameter
        } else if streq(s, "formal_parameters") {
            ASTIdentifier::FormalParameters
        } else if streq(s, "method_declaration") {
            ASTIdentifier::MethodDeclaration
        } else if streq(s, "class_body") {
            ASTIdentifier::ClassBody
        } else if streq(s, "class") {
            ASTIdentifier::Class
        } else if streq(s, "while_statement") {
            ASTIdentifier::WhileStatement
        } else if streq(s, "for_statement") {
            ASTIdentifier::ForStatement
        } else if streq(s, "enhanced_for_statement") {
            ASTIdentifier::ForStatement
        } else if streq(s, "assert_statement") {
            ASTIdentifier::AssertStatement
        } else if streq(s, "do_statement") {
            ASTIdentifier::DoStatement
        } else if streq(s, "break_statement") {
            ASTIdentifier::BreakStatement
        } else if streq(s, "continue_statement") {
            ASTIdentifier::ContinueStatement
        } else if streq(s, "yield_statement") {
            ASTIdentifier::YieldStatement
        } else if streq(s, "synchronized_statement") {
            ASTIdentifier::SynchronizedStatement
        } else if streq(s, "throw_statement") {
            ASTIdentifier::ThrowStatement
        } else if streq(s, "try_statement") {
            ASTIdentifier::TryStatement
        } else if streq(s, "try_with_ressource_statement") {
            ASTIdentifier::TryWithRessourceStatement
        } else if streq(s, "switch_statement") {
            ASTIdentifier::SwitchStatement
        } else if streq(s, "case") {
            ASTIdentifier::Case
        } else if streq(s, "switch_label") {
            ASTIdentifier::SwitchLabel
        } else if streq(s, "switch_block") {
            ASTIdentifier::SwitchBlock
        } else if streq(s, "catch") {
            ASTIdentifier::Catch
        } else if streq(s, "catch_clause") {
            ASTIdentifier::CatchClause
        } else if streq(s, "class_declaration") {
            ASTIdentifier::ClassDeclaration
        } else if streq(s, "package_declaration") {
            ASTIdentifier::PackageDeclaration
        } else if streq(s, "import_declaration") {
            ASTIdentifier::ImportDeclaration
        } else if streq(s, "root") {
            ASTIdentifier::Root
        } else {
            ASTIdentifier::UNKNOWN
        }
    }
}

} // verus!
