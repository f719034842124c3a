use vstd::prelude::*;
use vstd::string::StringSliceAdditionalSpecFns;
use vstd::string::StrSliceExecFns;

use crate::syntax_tree::ASTIdentifier;
use crate::syntax_tree::ASTNode;
use crate::syntax_tree::AstView;

verus! {

/// One node of the grammar's parse tree, reduced to plain values: the kind
/// string, the byte span in the source, and the children in order.
pub struct RawNode {
    pub kind: String,
    pub start_byte: usize,
    pub end_byte: usize,
    pub children: Vec<RawNode>,
}

/// The mathematical shape of a [`RawNode`].
pub ghost struct RawView {
    pub kind: Seq<char>,
    pub start: usize,
    pub end: usize,
    pub children: Seq<RawView>,
}

impl RawView {
    /// The number of nodes in the subtree.
    pub open spec fn size(self) -> nat
        decreases self, 1nat, 0nat,
    {
        1 + Self::size_from(self.children, 0)
    }

    /// The number of nodes in the subtrees `children[i..]`.
    pub open spec fn size_from(children: Seq<RawView>, i: int) -> nat
        decreases children, 0nat, children.len() - i,
    {
        if i < 0 || i >= children.len() {
            0
        } else {
            children[i].size() + Self::size_from(children, i + 1)
        }
    }
}

impl RawNode {
    /// The shape of this node.
    pub open spec fn to_view(n: RawNode) -> RawView
        decreases n,
    {
        RawView {
            kind: n.kind@,
            start: n.start_byte,
            end: n.end_byte,
            children: Seq::new(
                n.children@.len(),
                |i: int|
                    if 0 <= i < n.children@.len() {
                        Self::to_view(n.children@[i])
                    } else {
                        vstd::pervasive::arbitrary()
                    },
            ),
        }
    }
}

impl View for RawNode {
    type V = RawView;

    open spec fn view(&self) -> RawView {
        RawNode::to_view(*self)
    }
}

/// The tree the Java grammar yields for a piece of source text.  Parsing is
/// deterministic, so the tree is a function of the text alone.
pub uninterp spec fn java_tree_of(code: Seq<char>) -> RawView;

/// Whether the grammar yields a tree for a piece of source text at all.
/// Loading the grammar and parsing (with no timeout or cancellation set)
/// are deterministic, so this too is a function of the text alone.
pub uninterp spec fn java_parses(code: Seq<char>) -> bool;

#[verifier::external_type_specification]
#[verifier::external_body]
pub struct ExTsNode<'a>(tree_sitter::Node<'a>);

/// Trusted conversion of one grammar node and its children into plain
/// values; relies on tree_sitter::Node's kind, start_byte, end_byte and
/// child accessors.
#[verifier::external_body]
fn convert_node(node: tree_sitter::Node<'_>) -> RawNode {
    let mut children: Vec<RawNode> = Vec::new();
    for i in 0..node.child_count() {
        children.push(convert_node(node.child(i).unwrap()));
    }
    RawNode {
        kind: node.kind().to_string(),
        start_byte: node.start_byte(),
        end_byte: node.end_byte(),
        children,
    }
}

/// Relies on tree_sitter::Parser with tree_sitter_java's grammar: parsing
/// yields the tree of the source text, and the same text always yields the
/// same tree.  `None` when the grammar cannot be loaded or the parser gives
/// no tree; with the grammar fixed in the binary and no timeout set, that
/// too depends on the text alone.
#[verifier::external_body]
fn parse_java(code: &str) -> (r: Option<RawNode>)
    ensures
        (r is Some) == java_parses(code@),
        r matches Some(t) ==> t@ == java_tree_of(code@),
{
    let mut parser = tree_sitter::Parser::new();
    if parser.set_language(tree_sitter_java::language()).is_err() {
        return None;
    }
    parser.parse(code, None).map(|tree| convert_node(tree.root_node()))
}

/// Relies on str::get with a byte range: the sub-slice at those byte
/// positions when the range is in bounds on character boundaries, `None`
/// otherwise.  In an ASCII string every byte index is a character boundary
/// and byte positions coincide with character positions.
#[verifier::external_body]
fn byte_slice_of(s: &str, a: usize, b: usize) -> (r: Option<String>)
    ensures
        vstd::string::is_ascii(s) ==> ((r is Some) <==> (a <= b && b <= s@.len())),
        r matches Some(t) ==> (vstd::string::is_ascii(s) ==> a <= b <= s@.len() && t@
            == s@.subrange(a as int, b as int) && vstd::utf8::is_ascii_chars(t@)),
{
    s.get(a..b).map(|t| t.to_string())
}

/// The number of newline bytes in `bytes[from..to]`.
pub open spec fn newlines(bytes: Seq<u8>, from: int, to: int) -> nat
    decreases to - from,
{
    if from >= to {
        0
    } else {
        newlines(bytes, from, to - 1) + (if bytes[to - 1] == 10u8 {
            1nat
        } else {
            0nat
        })
    }
}

/// Counts the newline bytes in `bytes[from..to]`.
fn count_newlines(bytes: &Vec<u8>, from: usize, to: usize) -> (r: usize)
    requires
        from <= to <= bytes@.len(),
    ensures
        r == newlines(bytes@, from as int, to as int),
        r <= to - from,
{
    let mut count: usize = 0;
    let mut i = from;
    while i < to
        invariant
            from <= i <= to <= bytes@.len(),
            count == newlines(bytes@, from as int, i as int),
            count <= i - from,
        decreases to - i,
    {
        if bytes[i] == 10u8 {
            count = count + 1;
        }
        i += 1;
    }
    count
}

/// The node at `out` faithfully renders the grammar node `raw` over the
/// source text: pre-order id assignment starting at `id`, the kind mapped
/// through the kind table, line numbers counted from the newline bytes
/// before and inside the byte span, and (for ASCII sources) the code slice
/// taken at the byte span.
#[verifier::opaque]
pub open spec fn builds(out: AstView, raw: RawView, src: Seq<char>, bytes: Seq<u8>, id: int) -> bool
    decreases raw,
{
    &&& out.id == id
    &&& out.kind == ASTIdentifier::kind_of(raw.kind)
    &&& out.children.len() == raw.children.len()
    &&& (forall|i: int|
        0 <= i < raw.children.len() ==> #[trigger] builds(
            out.children[i],
            raw.children[i],
            src,
            bytes,
            out.children[i].id as int,
        ))
    &&& out.until == (if out.children.len() == 0 {
        out.id
    } else {
        out.children.last().until
    })
    &&& out.line_start == 1 + (if raw.start <= bytes.len() {
        newlines(bytes, 0, raw.start as int)
    } else {
        0
    })
    &&& out.line_end == out.line_start + (if raw.start <= raw.end && raw.end <= bytes.len() {
        newlines(bytes, raw.start as int, raw.end as int)
    } else {
        0
    })
    &&& (vstd::utf8::is_ascii_chars(src) ==> out.code == (if raw.start <= raw.end && raw.end
        <= src.len() {
        src.subrange(raw.start as int, raw.end as int)
    } else {
        Seq::<char>::empty()
    }))
}

/// The subtree size, as computed at run time; `None` when it does not fit
/// in a machine word.
fn raw_size(raw: &RawNode) -> (r: Option<usize>)
    ensures
        r matches Some(s) ==> s == raw@.size(),
        r is None ==> raw@.size() > usize::MAX,
    decreases *raw,
{
    let mut total: usize = 1;
    let mut k: usize = 0;
    while k < raw.children.len()
        invariant
            k <= raw.children@.len(),
            total == 1 + RawView::size_from(raw@.children, 0) - RawView::size_from(
                raw@.children,
                k as int,
            ),
            total >= 1,
        decreases raw.children@.len() - k,
    {
        proof {
            assert(raw@.children[k as int] == raw.children@[k as int]@);
        }
        let csize = match raw_size(&raw.children[k]) {
            None => {
                proof {
                    assert(raw@.size() == 1 + RawView::size_from(raw@.children, 0));
                    assert(raw@.size() >= raw@.children[k as int].size());
                }
                return None;
            },
            Some(s) => s,
        };
        total = match total.checked_add(csize) {
            None => {
                proof {
                    assert(raw@.size() == 1 + RawView::size_from(raw@.children, 0));
                    assert(raw@.size() >= total + csize);
                }
                return None;
            },
            Some(t) => t,
        };
        k += 1;
    }
    proof {
        assert(RawView::size_from(raw@.children, raw.children@.len() as int) == 0);
    }
    Some(total)
}

/// Renders the grammar subtree `raw` as syntax-tree nodes, assigning
/// pre-order ids from `*count + 1` on and advancing the counter by the
/// subtree size.
#[verifier::rlimit(100)]
pub fn traverse(raw: &RawNode, code: &str, bytes: &Vec<u8>, count: &mut usize) -> (r: ASTNode)
    requires
        bytes@ == code.spec_bytes(),
        2 * bytes@.len() + 2 <= usize::MAX,
        *old(count) + raw@.size() <= usize::MAX,
    ensures
        *final(count) == *old(count) + raw@.size(),
        r@.id == *old(count) + 1,
        r@.until == *final(count),
        builds(r@, raw@, code@, bytes@, *old(count) + 1),
        r@.wf(),
        r.inv(),
    decreases *raw,
{
    let id: usize = *count + 1;
    *count = id;
    let mut children: Vec<ASTNode> = Vec::new();
    let mut k: usize = 0;
    while k < raw.children.len()
        invariant
            bytes@ == code.spec_bytes(),
            2 * bytes@.len() + 2 <= usize::MAX,
            k <= raw.children@.len(),
            children@.len() == k,
            *count + RawView::size_from(raw@.children, k as int) == *old(count) + raw@.size(),
            id == *old(count) + 1,
            *count >= id,
            forall|i: int|
                0 <= i < k ==> builds(
                    (#[trigger] children@[i])@,
                    raw@.children[i],
                    code@,
                    bytes@,
                    children@[i]@.id as int,
                ) && children@[i]@.wf() && children@[i].inv(),
            k > 0 ==> children@[0]@.id == id + 1,
            forall|i: int, j: int|
                #![trigger children@[i], children@[j]]
                0 <= i && i + 1 == j && j < k ==> children@[j]@.id == children@[i]@.until + 1,
            k == 0 ==> *count == id,
            k > 0 ==> children@[k - 1]@.until == *count,
            *old(count) + raw@.size() <= usize::MAX,
        decreases raw.children@.len() - k,
    {
        proof {
            assert(raw@.children[k as int] == raw.children@[k as int]@);
            assert(RawView::size_from(raw@.children, k as int) == raw@.children[k as int].size()
                + RawView::size_from(raw@.children, k + 1));
        }
        let child = traverse(&raw.children[k], code, bytes, count);
        children.push(child);
        k += 1;
    }
    proof {
        assert(RawView::size_from(raw@.children, raw.children@.len() as int) == 0);
    }
    let ls: usize = if raw.start_byte <= bytes.len() {
        1 + count_newlines(bytes, 0, raw.start_byte)
    } else {
        1
    };
    let le: usize = if raw.start_byte <= raw.end_byte && raw.end_byte <= bytes.len() {
        ls + count_newlines(bytes, raw.start_byte, raw.end_byte)
    } else {
        ls
    };
    let code_slice: String = match byte_slice_of(code, raw.start_byte, raw.end_byte) {
        Some(t) => t,
        None => String::new(),
    };
    let mut r = ASTNode {
        id,
        children_until: *count,
        identifier: ASTIdentifier::from_kind(raw.kind.as_str()),
        code: code_slice,
        children,
        cache: Vec::new(),
        line_start: ls,
        line_end: le,
    };
    proof {
        assert(r@.children.len() == r.children@.len());
        assert(forall|i: int|
            0 <= i < r.children@.len() ==> (#[trigger] r@.children[i]) == r.children@[i]@);
        assert(r@.wf());
        assert(r.inv());
        assert(builds(r@, raw@, code@, bytes@, id as int)) by {
            reveal(builds);
            assert(r@.children.len() == raw@.children.len());
            assert forall|i: int| 0 <= i < raw@.children.len() implies #[trigger] builds(
                r@.children[i],
                raw@.children[i],
                code@,
                bytes@,
                r@.children[i].id as int,
            ) by {
                assert(r@.children[i] == r.children@[i]@);
            }
        }
    }
    if r.children_until - r.id > 800 && r.children_until - r.id < 100000 {
        r.build_cache();
    }
    r
}

/// A parsed source file: the text, the syntax tree, the id counter after
/// the tree, and the originating path.
pub struct Program {
    pub code: String,
    pub tree: ASTNode,
    pub count: usize,
    pub file: String,
}

impl Program {
    /// The source text.
    pub open spec fn src(self) -> Seq<char> {
        self.code@
    }

    /// The tree is well-formed and the counter sits exactly at its last id.
    pub open spec fn wf(self) -> bool {
        &&& self.tree.inv()
        &&& self.tree@.wf()
        &&& self.tree@.until == self.count
        &&& self.count < usize::MAX
    }

    /// Takes the next id.
    fn get_id(&mut self) -> (r: usize)
        requires
            old(self).count < usize::MAX,
        ensures
            final(self).count == old(self).count + 1,
            r == final(self).count,
            final(self).tree == old(self).tree,
            final(self).code == old(self).code,
            final(self).file == old(self).file,
    {
        self.count = self.count + 1;
        self.count
    }

    /// A fresh program over the given text, with an empty placeholder tree.
    pub fn new(code: &str) -> (r: Program)
        ensures
            r.wf(),
            r.src() == code@,
            r.count == 0,
            r.tree@.id == 0,
            r.file@ == Seq::<char>::empty(),
    {
        Program {
            code: code.to_owned(),
            tree: ASTNode::empty(),
            count: 0,
            file: String::new(),
        }
    }

    /// A fresh program whose ids will continue after `count`.
    fn subsequent(code: &str, count: usize) -> (r: Program)
        requires
            count < usize::MAX,
        ensures
            r.wf(),
            r.src() == code@,
            r.count == count,
            r.tree@.id == count,
            r.file@ == Seq::<char>::empty(),
    {
        let mut tree = ASTNode::empty();
        tree.id = count;
        tree.children_until = count;
        proof {
            assert(tree.children@.len() == 0);
            assert(tree.cache@.len() == 0);
            assert(tree@.wf());
            assert(tree.inv());
        }
        Program { code: code.to_owned(), tree, count, file: String::new() }
    }
}

/// The tree renders the parse of `src`: a synthetic `Root` carrying the
/// whole text, whose children render the children of the grammar's root
/// with consecutive pre-order ids.
pub open spec fn renders(t: AstView, src: Seq<char>) -> bool {
    let raw = java_tree_of(src);
    &&& t.kind == ASTIdentifier::Root
    &&& t.code == src
    &&& t.line_start == 0
    &&& t.line_end == 0
    &&& t.children.len() == raw.children.len()
    &&& (forall|i: int|
        0 <= i < raw.children.len() ==> builds(
            #[trigger] t.children[i],
            raw.children[i],
            src,
            vstd::utf8::encode_utf8(src),
            t.children[i].id as int,
        ))
}

/// The parse gave no tree: the program stands as a childless `Root`.
pub open spec fn empty_root(t: AstView) -> bool {
    &&& t.kind == ASTIdentifier::Root
    &&& t.children.len() == 0
}

/// The grammar yields a tree for the text and both machine bounds hold:
/// the text's bytes and the tree's node count fit the id counter starting
/// at `count`.  Exactly then a parse is owed.
pub open spec fn parse_fits(src: Seq<char>, count: usize) -> bool {
    &&& java_parses(src)
    &&& vstd::utf8::encode_utf8(src).len() <= (usize::MAX - 2) / 2
    &&& java_tree_of(src).size() <= usize::MAX - 2 - count
}

impl Program {
    /// Replaces the tree with an empty `Root` taking one fresh id.
    fn make_empty_tree(&mut self)
        requires
            old(self).wf(),
            old(self).count < usize::MAX - 2,
        ensures
            final(self).wf(),
            final(self).code == old(self).code,
            final(self).file == old(self).file,
            final(self).count == old(self).count + 1,
            final(self).tree@.id == old(self).count + 1,
            empty_root(final(self).tree@),
    {
        let root_id = self.get_id();
        let mut tree = ASTNode::empty();
        tree.id = root_id;
        tree.children_until = root_id;
        proof {
            assert(tree.children@.len() == 0);
            assert(tree.cache@.len() == 0);
            assert(tree@.wf());
            assert(tree.inv());
        }
        self.tree = tree;
    }

    /// Parses the stored text with the external grammar and replaces the
    /// placeholder tree with the rendered syntax tree.  When no tree can be
    /// had (or it would overflow the id counter), the program becomes an
    /// empty one.
    #[verifier::rlimit(100)]
    pub fn get_tree(&mut self)
        requires
            old(self).wf(),
            old(self).count < usize::MAX - 2,
        ensures
            final(self).wf(),
            final(self).src() == old(self).src(),
            final(self).file == old(self).file,
            old(self).count < final(self).count,
            final(self).tree@.id == old(self).count + 1,
            parse_fits(old(self).src(), old(self).count) ==> renders(
                final(self).tree@,
                old(self).src(),
            ),
            !parse_fits(old(self).src(), old(self).count) ==> empty_root(final(self).tree@),
    {
        let ghost oldp = *self;
        let parsed: Option<RawNode> = parse_java(self.code.as_str());
        let raw = match parsed {
            None => {
                self.make_empty_tree();
                return ;
            },
            Some(raw) => raw,
        };
        let bytes: Vec<u8> = self.code.as_str().as_bytes_vec();
        if bytes.len() > (usize::MAX - 2) / 2 {
            self.make_empty_tree();
            return ;
        }
        let sz = match raw_size(&raw) {
            None => {
                self.make_empty_tree();
                return ;
            },
            Some(sz) => sz,
        };
        if sz > usize::MAX - 2 - self.count {
            self.make_empty_tree();
            return ;
        }
        let root_id = self.get_id();
        let mut children: Vec<ASTNode> = Vec::new();
        let mut k: usize = 0;
        while k < raw.children.len()
            invariant
                bytes@ == vstd::utf8::encode_utf8(oldp.src()),
                self.code@ == oldp.src(),
                self.file == oldp.file,
                raw@ == java_tree_of(oldp.src()),
                2 * bytes@.len() + 2 <= usize::MAX,
                k <= raw.children@.len(),
                children@.len() == k,
                root_id == oldp.count + 1,
                self.count >= root_id,
                self.count + RawView::size_from(raw@.children, k as int) <= usize::MAX - 1,
                forall|i: int|
                    0 <= i < k ==> builds(
                        (#[trigger] children@[i])@,
                        raw@.children[i],
                        oldp.src(),
                        bytes@,
                        children@[i]@.id as int,
                    ) && children@[i]@.wf() && children@[i].inv(),
                k > 0 ==> children@[0]@.id == root_id + 1,
                forall|i: int, j: int|
                    #![trigger children@[i], children@[j]]
                    0 <= i && i + 1 == j && j < k ==> children@[j]@.id == children@[i]@.until + 1,
                k == 0 ==> self.count == root_id,
                k > 0 ==> children@[k - 1]@.until == self.count,
            decreases raw.children@.len() - k,
        {
            proof {
                assert(raw@.children[k as int] == raw.children@[k as int]@);
                assert(RawView::size_from(raw@.children, k as int) == raw@.children[k as int].size()
                    + RawView::size_from(raw@.children, k + 1));
            }
            let child = traverse(&raw.children[k], self.code.as_str(), &bytes, &mut self.count);
            children.push(child);
            k += 1;
        }
        let mut tree = ASTNode {
            id: root_id,
            children_until: self.count,
            identifier: ASTIdentifier::Root,
            code: self.code.clone(),
            children,
            cache: Vec::new(),
            line_start: 0,
            line_end: 0,
        };
        proof {
            assert(forall|i: int|
                0 <= i < tree.children@.len() ==> (#[trigger] tree@.children[i])
                    == tree.children@[i]@);
            assert(tree@.wf());
            assert(tree.inv());
        }
        tree.build_cache();
        self.tree = tree;
        proof {
            assert(renders(self.tree@, oldp.src()));
        }
    }
}

/// Consecutive programs chain their id ranges: each tree starts right after
/// the previous program's counter, so the ranges of distinct programs are
/// disjoint.
pub open spec fn chained(programs: Seq<Program>) -> bool {
    &&& (forall|k: int| 0 <= k < programs.len() ==> (#[trigger] programs[k]).wf())
    &&& (forall|i: int, j: int|
        #![trigger programs[i], programs[j]]
        0 <= i && i + 1 == j && j < programs.len() ==> programs[j].tree@.id == programs[i].count
            + 1)
}

/// Id ranges of distinct programs in a chained list are disjoint: every id
/// of an earlier tree is strictly below every id of a later one.
pub proof fn lemma_ranges_disjoint(programs: Seq<Program>, i: int, j: int)
    requires
        chained(programs),
        0 <= i < j < programs.len(),
    ensures
        programs[i].tree@.until < programs[j].tree@.id,
    decreases j - i,
{
    if i + 1 == j {
        assert(programs[j].tree@.id == programs[i].count + 1);
    } else {
        lemma_ranges_disjoint(programs, i, j - 1);
        assert(programs[j].tree@.id == programs[j - 1].count + 1);
        assert(programs[j - 1].tree@.until <= programs[j - 1].count);
    }
}

/// No id is owned by two distinct programs of a chained list: once an id
/// resolves in an earlier tree, every later tree misses it.
pub proof fn lemma_no_shared_id(programs: Seq<Program>, i: int, j: int, id: usize)
    requires
        chained(programs),
        0 <= i < j < programs.len(),
        programs[i].tree@.find(id) is Some,
    ensures
        programs[j].tree@.find(id) is None,
{
    lemma_ranges_disjoint(programs, i, j);
    assert(programs[i].wf());
    assert(programs[j].wf());
    programs[i].tree@.lemma_find_complete(id);
    programs[j].tree@.lemma_find_complete(id);
}

impl Program {
    /// Parses each text in order, threading the id counter so that the
    /// programs' id ranges follow one another.  Stops early only if the id
    /// counter would run out of machine words.
    pub fn new_list(codes: Vec<&str>) -> (r: Vec<Program>)
        requires
            codes@.len() > 0,
        ensures
            r@.len() <= codes@.len(),
            r@.len() >= 1,
            chained(r@),
            r@[0].tree@.id == 1,
            forall|k: int|
                0 <= k < r@.len() ==> (#[trigger] r@[k]).wf() && r@[k].src() == codes@[k]@ && (
                renders(r@[k].tree@, codes@[k]@) || empty_root(r@[k].tree@)),
            forall|k: int|
                0 <= k < r@.len() && parse_fits(codes@[k]@, ((#[trigger] r@[k]).tree@.id - 1) as usize)
                    ==> renders(r@[k].tree@, codes@[k]@),
            r@.len() < codes@.len() ==> r@[r@.len() - 1].count >= usize::MAX - 2,
    {
        let mut programs: Vec<Program> = Vec::new();
        let mut p1 = Program::new(codes[0]);
        p1.get_tree();
        programs.push(p1);
        proof {
            assert(programs@.len() == 1);
            assert(programs@[0] == p1);
            assert(chained(programs@));
        }
        let mut i: usize = 1;
        while i < codes.len()
            invariant
                codes@.len() > 0,
                1 <= i <= codes@.len(),
                programs@.len() == i,
                chained(programs@),
                programs@[0].tree@.id == 1,
                forall|k: int|
                    0 <= k < programs@.len() ==> (#[trigger] programs@[k]).wf()
                        && programs@[k].src() == codes@[k]@ && (renders(
                        programs@[k].tree@,
                        codes@[k]@,
                    ) || empty_root(programs@[k].tree@)),
                forall|k: int|
                    0 <= k < programs@.len() && parse_fits(
                        codes@[k]@,
                        ((#[trigger] programs@[k]).tree@.id - 1) as usize,
                    ) ==> renders(programs@[k].tree@, codes@[k]@),
            ensures
                1 <= programs@.len() <= codes@.len(),
                chained(programs@),
                programs@[0].tree@.id == 1,
                forall|k: int|
                    0 <= k < programs@.len() ==> (#[trigger] programs@[k]).wf()
                        && programs@[k].src() == codes@[k]@ && (renders(
                        programs@[k].tree@,
                        codes@[k]@,
                    ) || empty_root(programs@[k].tree@)),
                forall|k: int|
                    0 <= k < programs@.len() && parse_fits(
                        codes@[k]@,
                        ((#[trigger] programs@[k]).tree@.id - 1) as usize,
                    ) ==> renders(programs@[k].tree@, codes@[k]@),
                programs@.len() < codes@.len() ==> programs@[programs@.len() - 1].count
                    >= usize::MAX - 2,
            decreases codes@.len() - i,
        {
            let last_count = programs[programs.len() - 1].count;
            if last_count >= usize::MAX - 2 {
                break ;
            }
            let ghost pre = programs@;
            let mut p = Program::subsequent(codes[i], last_count);
            p.get_tree();
            programs.push(p);
            proof {
                assert(programs@ == pre.push(p));
                assert(forall|k: int| 0 <= k < pre.len() ==> programs@[k] == pre[k]);
                assert(programs@[pre.len() as int] == p);
                assert(programs@[pre.len() as int].tree@.id == programs@[pre.len() - 1].count
                    + 1);
                assert(chained(programs@));
            }
            i += 1;
        }
        programs
    }

}

/// Every program in the list is well-formed.
pub open spec fn all_wf(programs: Seq<Program>) -> bool {
    forall|k: int| 0 <= k < programs.len() ==> (#[trigger] programs[k]).wf()
}

impl Program {
    /// Scans the programs in order and returns the node with the given id
    /// from the first tree that has it, together with that program's file
    /// path.
    pub fn get_node_by_id_multiple_programs<'a>(programs: &'a Vec<Program>, id: usize) -> (r:
        Option<(&'a ASTNode, String)>)
        requires
            all_wf(programs@),
        ensures
            match r {
                Some(p) => exists|k: int|
                    0 <= k < programs@.len() && #[trigger] programs@[k].tree@.find(id) == Some(
                        p.0@,
                    ) && p.1 == programs@[k].file && p.0.inv() && p.0@.wf() && (forall|j: int|
                        0 <= j < k ==> programs@[j].tree@.find(id) is None),
                None => forall|k: int|
                    0 <= k < programs@.len() ==> (#[trigger] programs@[k].tree@.find(id)) is None,
            },
    {
        let mut k: usize = 0;
        while k < programs.len()
            invariant
                all_wf(programs@),
                k <= programs@.len(),
                forall|j: int|
                    0 <= j < k ==> (#[trigger] programs@[j].tree@.find(id)) is None,
            decreases programs@.len() - k,
        {
            match programs[k].tree.get_node_by_id(id) {
                Some(n) => {
                    return Some((n, programs[k].file.clone()));
                },
                None => {},
            }
            k += 1;
        }
        None
    }
}

} // verus!
