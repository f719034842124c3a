use vstd::prelude::*;

use crate::edges::Edges;
use crate::edges::has_edge;
use crate::edges::map_push;
use crate::syntax_tree::ASTIdentifier;
use crate::syntax_tree::ASTNode;
use crate::program::Program;
use crate::program::chained;
use crate::syntax_tree::AstView;

verus! {

/// A method of a class: its name, its defining node, and the first and last
/// statement of its body (a single entry, so the two coincide).
pub struct Function {
    pub name: String,
    pub first_statement_node: usize,
    pub last_statement_node: usize,
    pub node: usize,
}

/// A class with its methods, keyed by method name.
pub struct Class {
    pub name: String,
    pub node: usize,
    pub functions: Vec<Function>,
}

/// A call site: the simple name called and the enclosing statement.
pub struct Caller {
    pub name: String,
    pub node: usize,
}

/// An import: the last dotted segment of the declaration.
pub struct Import {
    pub name: String,
    pub node: usize,
}

/// The shape of a [`Function`].
pub ghost struct FuncView {
    pub name: Seq<char>,
    pub first: usize,
    pub last: usize,
    pub node: usize,
}

/// The shape of a [`Class`].
pub ghost struct ClassView {
    pub name: Seq<char>,
    pub node: usize,
    pub functions: Seq<FuncView>,
}

impl View for Function {
    type V = FuncView;

    open spec fn view(&self) -> FuncView {
        FuncView {
            name: self.name@,
            first: self.first_statement_node,
            last: self.last_statement_node,
            node: self.node,
        }
    }
}

impl View for Class {
    type V = ClassView;

    open spec fn view(&self) -> ClassView {
        ClassView {
            name: self.name@,
            node: self.node,
            functions: Seq::new(
                self.functions@.len(),
                |i: int|
                    if 0 <= i < self.functions@.len() {
                        self.functions@[i]@
                    } else {
                        vstd::pervasive::arbitrary()
                    },
            ),
        }
    }
}

impl View for Caller {
    type V = FuncView;

    open spec fn view(&self) -> FuncView {
        FuncView { name: self.name@, first: 0, last: 0, node: self.node }
    }
}

impl View for Import {
    type V = FuncView;

    open spec fn view(&self) -> FuncView {
        FuncView { name: self.name@, first: 0, last: 0, node: self.node }
    }
}

/// The position of the first occurrence of `c` in `s`, if any.
pub open spec fn first_index(s: Seq<char>, c: char) -> Option<int>
    decreases s.len(),
{
    if s.len() == 0 {
        None
    } else if s[0] == c {
        Some(0)
    } else {
        match first_index(s.drop_first(), c) {
            None => None,
            Some(i) => Some(i + 1),
        }
    }
}

/// The position of the last occurrence of `c` in `s`, if any.
pub open spec fn last_index(s: Seq<char>, c: char) -> Option<int>
    decreases s.len(),
{
    if s.len() == 0 {
        None
    } else if s.last() == c {
        Some(s.len() - 1)
    } else {
        last_index(s.drop_last(), c)
    }
}

/// Everything before the first occurrence of `c`, or all of `s` when `c`
/// does not occur.
pub open spec fn before_first(s: Seq<char>, c: char) -> Seq<char> {
    match first_index(s, c) {
        None => s,
        Some(i) => s.take(i),
    }
}

/// Everything after the last occurrence of `c`, or all of `s` when `c`
/// does not occur.
pub open spec fn after_last(s: Seq<char>, c: char) -> Seq<char> {
    match last_index(s, c) {
        None => s,
        Some(i) => s.skip(i + 1),
    }
}

/// The whitespace the trimming recognizes.
pub open spec fn is_space(c: char) -> bool {
    c == ' ' || c == '\t' || c == '\n' || c == '\r'
}

/// `s` without leading whitespace.
pub open spec fn trim_start(s: Seq<char>) -> Seq<char>
    decreases s.len(),
{
    if s.len() == 0 {
        s
    } else if is_space(s[0]) {
        trim_start(s.drop_first())
    } else {
        s
    }
}

/// `s` without trailing whitespace.
pub open spec fn trim_end(s: Seq<char>) -> Seq<char>
    decreases s.len(),
{
    if s.len() == 0 {
        s
    } else if is_space(s.last()) {
        trim_end(s.drop_last())
    } else {
        s
    }
}

/// `s` without leading or trailing whitespace.
pub open spec fn trimmed(s: Seq<char>) -> Seq<char> {
    trim_end(trim_start(s))
}

/// `s` with every non-overlapping occurrence of `pat` removed, scanning
/// left to right.
pub open spec fn remove_all(s: Seq<char>, pat: Seq<char>) -> Seq<char>
    decreases s.len(),
    when pat.len() > 0
{
    if s.len() == 0 {
        s
    } else if s.len() >= pat.len() && s.take(pat.len() as int) == pat {
        remove_all(s.skip(pat.len() as int), pat)
    } else {
        seq![s[0]] + remove_all(s.drop_first(), pat)
    }
}

/// The position of the first occurrence of `pat` in `s`, if any.
pub open spec fn first_substr(s: Seq<char>, pat: Seq<char>) -> Option<int>
    decreases s.len(),
{
    if s.len() < pat.len() {
        None
    } else if s.take(pat.len() as int) == pat {
        Some(0)
    } else if s.len() == 0 {
        None
    } else {
        match first_substr(s.drop_first(), pat) {
            None => None,
            Some(i) => Some(i + 1),
        }
    }
}

/// Everything after the first occurrence of `pat`, or nothing when `pat`
/// does not occur.
pub open spec fn after_first_substr(s: Seq<char>, pat: Seq<char>) -> Seq<char> {
    match first_substr(s, pat) {
        None => Seq::empty(),
        Some(i) => s.skip(i + pat.len()),
    }
}

/// The simple name a call or declaration uses: the text before the first
/// `(`, then after the last space, then after the last dot.
pub open spec fn func_name_of(code: Seq<char>) -> Seq<char> {
    after_last(after_last(before_first(code, '('), ' '), '.')
}

/// The declared class name: the text after the `class` keyword up to the
/// opening brace, trimmed, up to the first space (which strips an
/// `extends`/`implements` clause).
pub open spec fn class_name_of(code: Seq<char>) -> Seq<char> {
    before_first(trimmed(before_first(after_first_substr(code, "class"@), '{')), ' ')
}

/// The imported simple name: the last dotted segment with the semicolon and
/// the `import ` keyword stripped, trimmed.
pub open spec fn import_name_of(code: Seq<char>) -> Seq<char> {
    trimmed(remove_all(remove_all(after_last(code, '.'), ";"@), "import "@))
}

/// Relies on str::chars: the characters of the string, in order.
#[verifier::external_body]
fn to_char_vec(s: &str) -> (r: Vec<char>)
    ensures
        r@ == s@,
{
    s.chars().collect()
}

/// Relies on String's FromIterator over characters: the string holding
/// exactly those characters, in order.
#[verifier::external_body]
fn chars_to_string(v: &Vec<char>) -> (r: String)
    ensures
        r@ == v@,
{
    v.iter().collect()
}

/// Everything before the first occurrence of `c`.
fn before_first_exec(v: &Vec<char>, c: char) -> (r: Vec<char>)
    ensures
        r@ == before_first(v@, c),
{
    let mut r: Vec<char> = Vec::new();
    let mut i: usize = 0;
    while i < v.len()
        invariant
            i <= v@.len(),
            r@ == v@.take(i as int),
            forall|j: int| 0 <= j < i ==> v@[j] != c,
        decreases v@.len() - i,
    {
        if v[i] == c {
            proof {
                lemma_first_index_at(v@, c, i as int);
            }
            return r;
        }
        r.push(v[i]);
        proof {
            assert(v@.take(i + 1) =~= v@.take(i as int).push(v@[i as int]));
        }
        i += 1;
    }
    proof {
        lemma_first_index_none(v@, c);
        assert(v@.take(v@.len() as int) =~= v@);
    }
    r
}

/// When `s[i]` is the first occurrence of `c`, the first index is `i`.
proof fn lemma_first_index_at(s: Seq<char>, c: char, i: int)
    requires
        0 <= i < s.len(),
        s[i] == c,
        forall|j: int| 0 <= j < i ==> s[j] != c,
    ensures
        first_index(s, c) == Some(i),
    decreases s.len(),
{
    if i > 0 {
        assert(s.drop_first()[i - 1] == c);
        assert(forall|j: int| 0 <= j < i - 1 ==> #[trigger] s.drop_first()[j] == s[j + 1]);
        lemma_first_index_at(s.drop_first(), c, i - 1);
    }
}

/// When `c` does not occur, there is no first index.
proof fn lemma_first_index_none(s: Seq<char>, c: char)
    requires
        forall|j: int| 0 <= j < s.len() ==> s[j] != c,
    ensures
        first_index(s, c) is None,
    decreases s.len(),
{
    if s.len() > 0 {
        lemma_first_index_none(s.drop_first(), c);
    }
}

/// Everything after the last occurrence of `c`.
fn after_last_exec(v: &Vec<char>, c: char) -> (r: Vec<char>)
    ensures
        r@ == after_last(v@, c),
{
    let mut i: usize = v.len();
    while i > 0
        invariant
            i <= v@.len(),
            forall|j: int| i <= j < v@.len() ==> v@[j] != c,
        decreases i,
    {
        if v[i - 1] == c {
            proof {
                lemma_last_index_at(v@, c, i - 1);
            }
            let mut r: Vec<char> = Vec::new();
            let mut j: usize = i;
            while j < v.len()
                invariant
                    i <= j <= v@.len(),
                    r@ == v@.subrange(i as int, j as int),
                decreases v@.len() - j,
            {
                r.push(v[j]);
                proof {
                    assert(v@.subrange(i as int, j + 1) =~= v@.subrange(i as int, j as int).push(
                        v@[j as int],
                    ));
                }
                j += 1;
            }
            proof {
                assert(v@.skip(i as int) =~= v@.subrange(i as int, v@.len() as int));
            }
            return r;
        }
        i -= 1;
    }
    proof {
        lemma_last_index_none(v@, c);
    }
    clone_chars(v)
}

/// When `s[i]` is the last occurrence of `c`, the last index is `i`.
proof fn lemma_last_index_at(s: Seq<char>, c: char, i: int)
    requires
        0 <= i < s.len(),
        s[i] == c,
        forall|j: int| i < j < s.len() ==> s[j] != c,
    ensures
        last_index(s, c) == Some(i),
    decreases s.len(),
{
    if i + 1 < s.len() {
        assert(s.drop_last()[i] == c);
        lemma_last_index_at(s.drop_last(), c, i);
    }
}

/// When `c` does not occur, there is no last index.
proof fn lemma_last_index_none(s: Seq<char>, c: char)
    requires
        forall|j: int| 0 <= j < s.len() ==> s[j] != c,
    ensures
        last_index(s, c) is None,
    decreases s.len(),
{
    if s.len() > 0 {
        lemma_last_index_none(s.drop_last(), c);
    }
}

/// Copies a character list.
fn clone_chars(v: &Vec<char>) -> (r: Vec<char>)
    ensures
        r@ == v@,
{
    let mut r: Vec<char> = Vec::new();
    let mut i: usize = 0;
    while i < v.len()
        invariant
            i <= v@.len(),
            r@ == v@.take(i as int),
        decreases v@.len() - i,
    {
        r.push(v[i]);
        proof {
            assert(v@.take(i + 1) =~= v@.take(i as int).push(v@[i as int]));
        }
        i += 1;
    }
    proof {
        assert(v@.take(v@.len() as int) =~= v@);
    }
    r
}

/// `v` without leading or trailing whitespace.
fn trim_exec(v: &Vec<char>) -> (r: Vec<char>)
    ensures
        r@ == trimmed(v@),
{
    let mut start: usize = 0;
    proof {
        assert(v@.skip(0) =~= v@);
    }
    while start < v.len() && matches_space(v[start])
        invariant
            start <= v@.len(),
            trim_start(v@) == trim_start(v@.skip(start as int)),
        decreases v@.len() - start,
    {
        proof {
            assert(v@.skip(start as int).drop_first() =~= v@.skip(start + 1));
            assert(v@.skip(start as int)[0] == v@[start as int]);
        }
        start += 1;
    }
    proof {
        if start < v@.len() {
            assert(v@.skip(start as int)[0] == v@[start as int]);
        }
        assert(trim_start(v@) == v@.skip(start as int));
    }
    let mut end: usize = v.len();
    proof {
        assert(v@.skip(start as int) =~= v@.subrange(start as int, v@.len() as int));
    }
    while end > start && matches_space(v[end - 1])
        invariant
            start <= end <= v@.len(),
            trim_start(v@) == v@.skip(start as int),
            trim_end(v@.skip(start as int)) == trim_end(v@.subrange(start as int, end as int)),
        decreases end,
    {
        proof {
            assert(v@.subrange(start as int, end as int).drop_last() =~= v@.subrange(
                start as int,
                end - 1,
            ));
            assert(v@.subrange(start as int, end as int).last() == v@[end - 1]);
        }
        end -= 1;
    }
    proof {
        let cur = v@.subrange(start as int, end as int);
        if end > start {
            assert(cur.last() == v@[end - 1]);
        }
        assert(trim_end(cur) == cur);
    }
    let mut r: Vec<char> = Vec::new();
    let mut j: usize = start;
    while j < end
        invariant
            start <= j <= end <= v@.len(),
            r@ == v@.subrange(start as int, j as int),
        decreases end - j,
    {
        r.push(v[j]);
        proof {
            assert(v@.subrange(start as int, j + 1) =~= v@.subrange(start as int, j as int).push(
                v@[j as int],
            ));
        }
        j += 1;
    }
    r
}

/// Runtime test matching [`is_space`].
fn matches_space(c: char) -> (r: bool)
    ensures
        r == is_space(c),
{
    c == ' ' || c == '\t' || c == '\n' || c == '\r'
}

/// Whether `pat` occurs at position `i` of `v`.
fn matches_at(v: &Vec<char>, i: usize, pat: &Vec<char>) -> (r: bool)
    requires
        i <= v@.len(),
    ensures
        r == (i + pat@.len() <= v@.len() && v@.subrange(i as int, i + pat@.len()) == pat@),
{
    if pat.len() > v.len() - i {
        proof {
            assert(i + pat@.len() > v@.len());
        }
        return false;
    }
    let mut j: usize = 0;
    while j < pat.len()
        invariant
            j <= pat@.len(),
            i + pat@.len() <= v@.len(),
            v@.len() <= usize::MAX,
            forall|k: int| 0 <= k < j ==> v@[i + k] == pat@[k],
        decreases pat@.len() - j,
    {
        proof {
            assert(i + j < v@.len());
        }
        if v[i + j] != pat[j] {
            proof {
                assert(v@.subrange(i as int, i + pat@.len())[j as int] == v@[i + j]);
            }
            return false;
        }
        j += 1;
    }
    proof {
        assert(v@.subrange(i as int, i + pat@.len()) =~= pat@);
    }
    true
}

/// `v` with every occurrence of `pat` removed, scanning left to right.
fn remove_all_exec(v: &Vec<char>, pat: &Vec<char>) -> (r: Vec<char>)
    requires
        pat@.len() > 0,
    ensures
        r@ == remove_all(v@, pat@),
{
    let mut r: Vec<char> = Vec::new();
    let mut i: usize = 0;
    proof {
        assert(v@.skip(0) =~= v@);
        assert(Seq::<char>::empty() + remove_all(v@, pat@) =~= remove_all(v@, pat@));
    }
    while i < v.len()
        invariant
            pat@.len() > 0,
            i <= v@.len(),
            remove_all(v@, pat@) == r@ + remove_all(v@.skip(i as int), pat@),
        decreases v@.len() - i,
    {
        let ghost rest = v@.skip(i as int);
        proof {
            assert(rest[0] == v@[i as int]);
            assert(rest.drop_first() =~= v@.skip(i + 1));
            assert(rest.len() >= pat@.len() ==> rest.take(pat@.len() as int) =~= v@.subrange(
                i as int,
                i + pat@.len(),
            ));
            assert(rest.len() >= pat@.len() ==> rest.skip(pat@.len() as int) =~= v@.skip(
                i + pat@.len(),
            ));
        }
        if matches_at(v, i, pat) {
            proof {
                assert(remove_all(rest, pat@) == remove_all(v@.skip(i + pat@.len()), pat@));
            }
            i += pat.len();
        } else {
            let ghost rpre = r@;
            r.push(v[i]);
            proof {
                assert(remove_all(rest, pat@) == seq![rest[0]] + remove_all(
                    rest.drop_first(),
                    pat@,
                ));
                assert(rpre + (seq![v@[i as int]] + remove_all(v@.skip(i + 1), pat@)) =~= r@
                    + remove_all(v@.skip(i + 1), pat@));
            }
            i += 1;
        }
    }
    proof {
        assert(v@.skip(v@.len() as int).len() == 0);
        assert(r@ + remove_all(v@.skip(v@.len() as int), pat@) =~= r@);
    }
    r
}

/// Everything after the first occurrence of `pat`.
fn after_first_substr_exec(v: &Vec<char>, pat: &Vec<char>) -> (r: Vec<char>)
    requires
        pat@.len() > 0,
    ensures
        r@ == after_first_substr(v@, pat@),
{
    let mut i: usize = 0;
    proof {
        assert(v@.skip(0) =~= v@);
    }
    while i < v.len()
        invariant
            pat@.len() > 0,
            i <= v@.len(),
            first_substr(v@, pat@) == (match first_substr(v@.skip(i as int), pat@) {
                None => None::<int>,
                Some(k) => Some(k + i),
            }),
        decreases v@.len() - i,
    {
        let ghost rest = v@.skip(i as int);
        proof {
            assert(rest.drop_first() =~= v@.skip(i + 1));
            assert(rest.len() >= pat@.len() ==> rest.take(pat@.len() as int) =~= v@.subrange(
                i as int,
                i + pat@.len(),
            ));
        }
        if matches_at(v, i, pat) {
            proof {
                assert(first_substr(rest, pat@) == Some(0int));
                assert(first_substr(v@, pat@) == Some(i as int));
            }
            let mut r: Vec<char> = Vec::new();
            let mut j: usize = i + pat.len();
            let ghost from = j;
            while j < v.len()
                invariant
                    from <= j <= v@.len(),
                    r@ == v@.subrange(from as int, j as int),
                decreases v@.len() - j,
            {
                r.push(v[j]);
                proof {
                    assert(v@.subrange(from as int, j + 1) =~= v@.subrange(
                        from as int,
                        j as int,
                    ).push(v@[j as int]));
                }
                j += 1;
            }
            proof {
                assert(v@.skip(from as int) =~= v@.subrange(from as int, v@.len() as int));
            }
            return r;
        }
        i += 1;
    }
    proof {
        assert(v@.skip(v@.len() as int).len() == 0);
        assert(first_substr(v@.skip(v@.len() as int), pat@) is None);
    }
    Vec::new()
}

/// The simple name a call or declaration uses; see [`func_name_of`].
fn get_function_name(code: &String) -> (r: String)
    ensures
        r@ == func_name_of(code@),
{
    let cs = to_char_vec(code.as_str());
    let a = before_first_exec(&cs, '(');
    let b = after_last_exec(&a, ' ');
    let c = after_last_exec(&b, '.');
    chars_to_string(&c)
}

/// The declared class name; see [`class_name_of`].
fn get_class_name(code: &String) -> (r: String)
    ensures
        r@ == class_name_of(code@),
{
    let cs = to_char_vec(code.as_str());
    let pat = to_char_vec("class");
    proof {
        reveal_strlit("class");
    }
    let a = after_first_substr_exec(&cs, &pat);
    let b = before_first_exec(&a, '{');
    let c = trim_exec(&b);
    let d = before_first_exec(&c, ' ');
    chars_to_string(&d)
}

/// The imported simple name; see [`import_name_of`].
fn get_import_name(code: &String) -> (r: String)
    ensures
        r@ == import_name_of(code@),
{
    let cs = to_char_vec(code.as_str());
    let a = after_last_exec(&cs, '.');
    let semi = to_char_vec(";");
    proof {
        reveal_strlit(";");
        reveal_strlit("import ");
    }
    let b = remove_all_exec(&a, &semi);
    let imp = to_char_vec("import ");
    let c = remove_all_exec(&b, &imp);
    let d = trim_exec(&c);
    chars_to_string(&d)
}

/// The enclosing statement of `id`, scanning ids downward from `i`: the
/// first statement node strictly containing `id` in its id range.
pub open spec fn enclosing_from(root: AstView, i: int, id: usize) -> Option<usize>
    decreases i + 1,
{
    if i < 0 {
        None
    } else {
        match root.find(i as usize) {
            None => None,
            Some(n) => {
                if n.kind.is_statement() && n.id < id && id <= n.until {
                    Some(n.id)
                } else {
                    enclosing_from(root, i - 1, id)
                }
            },
        }
    }
}

/// The innermost statement whose id range contains `id`, found by walking
/// ids downward from `id`.
fn get_enclosing_statement(parent: &ASTNode, id: usize) -> (r: Option<usize>)
    requires
        parent.inv(),
        parent@.wf(),
    ensures
        r == enclosing_from(parent@, id as int, id),
{
    let ghost goal = enclosing_from(parent@, id as int, id);
    let mut i = id;
    loop
        invariant
            parent.inv(),
            parent@.wf(),
            i <= id,
            goal == enclosing_from(parent@, id as int, id),
            goal == enclosing_from(parent@, i as int, id),
        decreases i + 1,
    {
        let node = match parent.get_node_by_id(i) {
            None => { return None; },
            Some(n) => n,
        };
        if node.identifier.statement() && node.id < id && id <= node.children_until {
            return Some(node.id);
        }
        if i == 0 {
            proof {
                assert(enclosing_from(parent@, -1, id) is None);
            }
            return None;
        }
        i = i - 1;
    }
}

/// The index of the first `ClassBody` child, if any.
pub open spec fn first_body(children: Seq<AstView>, i: int) -> Option<int>
    decreases children.len() - i,
{
    if i < 0 || i >= children.len() {
        None
    } else if children[i].kind == ASTIdentifier::ClassBody {
        Some(i)
    } else {
        first_body(children, i + 1)
    }
}

/// The first `ClassBody` child of a class declaration.
fn get_class_body<'a>(node: &'a ASTNode) -> (r: Option<&'a ASTNode>)
    requires
        node.inv(),
        node@.wf(),
    ensures
        match r {
            Some(b) => first_body(node@.children, 0) matches Some(i) && b@ == node@.children[i]
                && b.inv() && b@.wf(),
            None => first_body(node@.children, 0) is None,
        },
{
    let mut k: usize = 0;
    while k < node.children.len()
        invariant
            node.inv(),
            node@.wf(),
            k <= node.children@.len(),
            first_body(node@.children, 0) == first_body(node@.children, k as int),
        decreases node.children@.len() - k,
    {
        let child = &node.children[k];
        proof {
            assert(child@ == node@.children[k as int]);
            AstView::lemma_child_bounds(node@, k as int);
        }
        if matches!(child.identifier, ASTIdentifier::ClassBody) {
            return Some(child);
        }
        k += 1;
    }
    None
}

/// The entry statement of the method rooted at `fid`: the first statement
/// of its first block, if there is one.
pub open spec fn first_function_statement(root: AstView, fid: usize) -> Option<usize> {
    match root.find(fid) {
        None => None,
        Some(fnode) => {
            let blocks = AstView::block_ids(fnode.children);
            if blocks.len() == 0 {
                None
            } else {
                match root.find(blocks[0]) {
                    None => None,
                    Some(b) => {
                        let stmts = AstView::statement_ids(b.children);
                        if stmts.len() == 0 {
                            None
                        } else {
                            Some(stmts[0])
                        }
                    },
                }
            }
        },
    }
}

/// The entry statement of a method body, as a list of at most one id.
fn get_function_statements(program: &ASTNode, function: usize) -> (r: Vec<usize>)
    requires
        program.inv(),
        program@.wf(),
    ensures
        r@ == (match first_function_statement(program@, function) {
            None => Seq::<usize>::empty(),
            Some(s) => seq![s],
        }),
{
    let mut statements: Vec<usize> = Vec::new();
    let fun_node = match program.get_node_by_id(function) {
        None => { return statements; },
        Some(n) => n,
    };
    let block = fun_node.get_blocks();
    if block.len() > 0 {
        match program.get_node_by_id(block[0]) {
            None => {},
            Some(block_node) => {
                let first_statement = block_node.get_statements();
                if first_statement.len() > 0 {
                    statements.push(first_statement[0]);
                    proof {
                        assert(statements@ =~= seq![
                            AstView::statement_ids(block_node@.children)[0],
                        ]);
                    }
                }
            },
        }
    }
    statements
}

/// The methods a class body declares, in order: name, defining node and
/// entry statement.  A method with an empty body is skipped.
pub open spec fn method_entries(root: AstView, children: Seq<AstView>) -> Seq<FuncView>
    decreases children.len(),
{
    if children.len() == 0 {
        Seq::empty()
    } else {
        let rest = method_entries(root, children.drop_last());
        let c = children.last();
        if c.kind == ASTIdentifier::MethodDeclaration {
            match first_function_statement(root, c.id) {
                Some(s) => rest.push(
                    FuncView { name: func_name_of(c.code), first: s, last: s, node: c.id },
                ),
                None => rest,
            }
        } else {
            rest
        }
    }
}

/// The methods of the class rooted at `root`, through its class body.
pub open spec fn class_functions(root: AstView) -> Seq<FuncView> {
    match first_body(root.children, 0) {
        None => Seq::empty(),
        Some(i) => method_entries(root, root.children[i].children),
    }
}

/// The views of a list of functions.
pub open spec fn func_views(fs: Seq<Function>) -> Seq<FuncView> {
    Seq::new(
        fs.len(),
        |i: int|
            if 0 <= i < fs.len() {
                fs[i]@
            } else {
                vstd::pervasive::arbitrary()
            },
    )
}

/// The methods of the class rooted at `parent`, as runtime values.
fn get_functions(parent: &ASTNode) -> (r: Vec<Function>)
    requires
        parent.inv(),
        parent@.wf(),
    ensures
        func_views(r@) == class_functions(parent@),
{
    let mut functions: Vec<Function> = Vec::new();
    let body = match get_class_body(parent) {
        None => {
            proof {
                assert(func_views(functions@) =~= class_functions(parent@));
            }
            return functions;
        },
        Some(b) => b,
    };
    let mut k: usize = 0;
    while k < body.children.len()
        invariant
            parent.inv(),
            parent@.wf(),
            body.inv(),
            body@.wf(),
            first_body(parent@.children, 0) matches Some(i) && body@ == parent@.children[i],
            k <= body.children@.len(),
            func_views(functions@) == method_entries(parent@, body@.children.take(k as int)),
        decreases body.children@.len() - k,
    {
        let child = &body.children[k];
        proof {
            assert(child@ == body@.children[k as int]);
            assert(body@.children.take(k + 1).drop_last() =~= body@.children.take(k as int));
            assert(body@.children.take(k + 1).last() == child@);
        }
        if matches!(child.identifier, ASTIdentifier::MethodDeclaration) {
            let first_statement = get_function_statements(parent, child.id);
            if first_statement.len() > 0 {
                let name = get_function_name(&child.code);
                let first = first_statement[0];
                let last = first_statement[first_statement.len() - 1];
                let ghost fpre = functions@;
                functions.push(
                    Function {
                        name,
                        node: child.id,
                        first_statement_node: first,
                        last_statement_node: last,
                    },
                );
                proof {
                    assert(func_views(functions@) =~= func_views(fpre).push(
                        functions@.last()@,
                    ));
                }
            }
        }
        k += 1;
    }
    proof {
        assert(body@.children.take(body.children@.len() as int) =~= body@.children);
    }
    functions
}

/// The views of a list of classes.
pub open spec fn class_views(cs: Seq<Class>) -> Seq<ClassView> {
    Seq::new(
        cs.len(),
        |i: int|
            if 0 <= i < cs.len() {
                cs[i]@
            } else {
                vstd::pervasive::arbitrary()
            },
    )
}

/// The views of a list of call sites.
pub open spec fn caller_views(cs: Seq<Caller>) -> Seq<FuncView> {
    Seq::new(
        cs.len(),
        |i: int|
            if 0 <= i < cs.len() {
                cs[i]@
            } else {
                vstd::pervasive::arbitrary()
            },
    )
}

/// The views of a list of imports.
pub open spec fn import_views(cs: Seq<Import>) -> Seq<FuncView> {
    Seq::new(
        cs.len(),
        |i: int|
            if 0 <= i < cs.len() {
                cs[i]@
            } else {
                vstd::pervasive::arbitrary()
            },
    )
}

/// The position of the first function with the given name.
pub open spec fn func_index(fs: Seq<FuncView>, name: Seq<char>, i: int) -> Option<int>
    decreases fs.len() - i,
{
    if i < 0 || i >= fs.len() {
        None
    } else if fs[i].name == name {
        Some(i)
    } else {
        func_index(fs, name, i + 1)
    }
}

/// Adds a function to a table keyed by name, replacing an existing entry.
pub open spec fn funcs_insert(fs: Seq<FuncView>, f: FuncView) -> Seq<FuncView> {
    match func_index(fs, f.name, 0) {
        Some(i) => fs.update(i, f),
        None => fs.push(f),
    }
}

/// Folds a list of functions into a name-keyed table.
pub open spec fn funcs_table(entries: Seq<FuncView>, i: int, acc: Seq<FuncView>) -> Seq<FuncView>
    decreases entries.len() - i,
{
    if i < 0 || i >= entries.len() {
        acc
    } else {
        funcs_table(entries, i + 1, funcs_insert(acc, entries[i]))
    }
}

/// The position of the first class with the given name.
pub open spec fn class_index(cs: Seq<ClassView>, name: Seq<char>, i: int) -> Option<int>
    decreases cs.len() - i,
{
    if i < 0 || i >= cs.len() {
        None
    } else if cs[i].name == name {
        Some(i)
    } else {
        class_index(cs, name, i + 1)
    }
}

/// Adds a class to a table keyed by name, replacing an existing entry.
pub open spec fn classes_insert(cs: Seq<ClassView>, c: ClassView) -> Seq<ClassView> {
    match class_index(cs, c.name, 0) {
        Some(i) => cs.update(i, c),
        None => cs.push(c),
    }
}

/// Extends a class table with further classes, in order.
pub open spec fn table_extend(cs: Seq<ClassView>, more: Seq<ClassView>, i: int) -> Seq<ClassView>
    decreases more.len() - i,
{
    if i < 0 || i >= more.len() {
        cs
    } else {
        table_extend(classes_insert(cs, more[i]), more, i + 1)
    }
}

/// The class table of the subtree at `root`: every class declaration, keyed
/// by name, with its method table; the walk steps over each class once its
/// declaration is recorded.
pub open spec fn classes_from(root: AstView, id: int, acc: Seq<ClassView>) -> Seq<ClassView>
    decreases root.until + 1 - id,
    when root.wf()
    via classes_from_decreases
{
    if id < 0 || id > root.until {
        acc
    } else {
        match root.find(id as usize) {
            None => acc,
            Some(n) => {
                if n.kind == ASTIdentifier::ClassDeclaration {
                    let cls = ClassView {
                        name: class_name_of(n.code),
                        node: n.id,
                        functions: funcs_table(class_functions(n), 0, Seq::empty()),
                    };
                    let jump = if n.until > id + 1 {
                        n.until - 1
                    } else {
                        id + 1
                    };
                    classes_from(root, jump, classes_insert(acc, cls))
                } else {
                    classes_from(root, id + 1, acc)
                }
            },
        }
    }
}

#[via_fn]
proof fn classes_from_decreases(root: AstView, id: int, acc: Seq<ClassView>) {
    if 0 <= id <= root.until {
        root.lemma_find_range(id as usize);
    }
}

/// The call sites of the subtree at `root`, in id order: each method
/// invocation with an enclosing statement yields one caller.
pub open spec fn calls_from(root: AstView, id: int, acc: Seq<FuncView>) -> Seq<FuncView>
    decreases root.until + 1 - id,
{
    if id < 0 || id > root.until {
        acc
    } else {
        match root.find(id as usize) {
            None => acc,
            Some(n) => {
                if n.kind == ASTIdentifier::MethodInvocation {
                    match enclosing_from(root, id, n.id) {
                        None => calls_from(root, id + 1, acc),
                        Some(sid) => calls_from(
                            root,
                            id + 1,
                            acc.push(
                                FuncView { name: func_name_of(n.code), first: 0, last: 0, node: sid },
                            ),
                        ),
                    }
                } else {
                    calls_from(root, id + 1, acc)
                }
            },
        }
    }
}

/// The imports of the subtree at `root`, in id order.
pub open spec fn imports_from(root: AstView, id: int, acc: Seq<FuncView>) -> Seq<FuncView>
    decreases root.until + 1 - id,
{
    if id < 0 || id > root.until {
        acc
    } else {
        match root.find(id as usize) {
            None => acc,
            Some(n) => {
                if n.kind == ASTIdentifier::ImportDeclaration {
                    imports_from(
                        root,
                        id + 1,
                        acc.push(
                            FuncView { name: import_name_of(n.code), first: 0, last: 0, node: n.id },
                        ),
                    )
                } else {
                    imports_from(root, id + 1, acc)
                }
            },
        }
    }
}

/// Whether some import names the class.
pub open spec fn import_matches(imports: Seq<FuncView>, name: Seq<char>) -> bool {
    exists|i: int| 0 <= i < imports.len() && imports[i].name == name
}

/// The call and return edges one call site gains against the classes
/// `table[ci..]`: for each class that passes the import filter and has a
/// method of the called name, an edge from the call's statement into the
/// method's entry and one back.
pub open spec fn links_for_caller(
    table: Seq<ClassView>,
    ci: int,
    caller: FuncView,
    imports: Option<Seq<FuncView>>,
    acc: Map<usize, Seq<usize>>,
) -> Map<usize, Seq<usize>>
    decreases table.len() - ci,
{
    if ci < 0 || ci >= table.len() {
        acc
    } else {
        let cls = table[ci];
        let passes = match imports {
            None => true,
            Some(im) => import_matches(im, cls.name),
        };
        let acc2 = if passes {
            match func_index(cls.functions, caller.name, 0) {
                Some(fi) => {
                    let f = cls.functions[fi];
                    map_push(map_push(acc, caller.node, f.first), f.first, caller.node)
                },
                None => acc,
            }
        } else {
            acc
        };
        links_for_caller(table, ci + 1, caller, imports, acc2)
    }
}

/// [`links_for_caller`], folded over the call sites `calls[k..]`.
pub open spec fn links_calls(
    table: Seq<ClassView>,
    calls: Seq<FuncView>,
    k: int,
    imports: Option<Seq<FuncView>>,
    acc: Map<usize, Seq<usize>>,
) -> Map<usize, Seq<usize>>
    decreases calls.len() - k,
{
    if k < 0 || k >= calls.len() {
        acc
    } else {
        links_calls(table, calls, k + 1, imports, links_for_caller(table, 0, calls[k], imports, acc))
    }
}

/// Anchors each method definition node to its entry statement.
pub open spec fn links_defs_fns(fs: Seq<FuncView>, fi: int, acc: Map<usize, Seq<usize>>) -> Map<
    usize,
    Seq<usize>,
>
    decreases fs.len() - fi,
{
    if fi < 0 || fi >= fs.len() {
        acc
    } else {
        links_defs_fns(fs, fi + 1, map_push(acc, fs[fi].node, fs[fi].first))
    }
}

/// [`links_defs_fns`], folded over the classes `table[ci..]`.
pub open spec fn links_defs(table: Seq<ClassView>, ci: int, acc: Map<usize, Seq<usize>>) -> Map<
    usize,
    Seq<usize>,
>
    decreases table.len() - ci,
{
    if ci < 0 || ci >= table.len() {
        acc
    } else {
        links_defs(table, ci + 1, links_defs_fns(table[ci].functions, 0, acc))
    }
}

/// The edges the linking pass emits: call and return edges for every call
/// site, and (when no import filter applies) a definition anchor for every
/// method.
pub open spec fn cg_links(
    table: Seq<ClassView>,
    calls: Seq<FuncView>,
    imports: Option<Seq<FuncView>>,
    acc: Map<usize, Seq<usize>>,
) -> Map<usize, Seq<usize>> {
    let a1 = links_calls(table, calls, 0, imports, acc);
    if imports is None {
        links_defs(table, 0, a1)
    } else {
        a1
    }
}

/// Whether some import names the class, as a runtime test.
fn import_found(imports: &Vec<Import>, name: &String) -> (r: bool)
    ensures
        r == import_matches(import_views(imports@), name@),
{
    let mut i: usize = 0;
    while i < imports.len()
        invariant
            i <= imports@.len(),
            forall|j: int| 0 <= j < i ==> import_views(imports@)[j].name != name@,
        decreases imports@.len() - i,
    {
        if imports[i].name == *name {
            proof {
                assert(import_views(imports@)[i as int].name == name@);
            }
            return true;
        }
        i += 1;
    }
    false
}

/// The first function of the given name, if any.
fn find_func<'a>(fs: &'a Vec<Function>, name: &String) -> (r: Option<&'a Function>)
    ensures
        match r {
            Some(f) => func_index(func_views(fs@), name@, 0) matches Some(i) && f@ == func_views(
                fs@,
            )[i],
            None => func_index(func_views(fs@), name@, 0) is None,
        },
{
    let mut i: usize = 0;
    while i < fs.len()
        invariant
            i <= fs@.len(),
            func_index(func_views(fs@), name@, 0) == func_index(func_views(fs@), name@, i as int),
        decreases fs@.len() - i,
    {
        if fs[i].name == *name {
            proof {
                assert(func_views(fs@)[i as int].name == name@);
            }
            return Some(&fs[i]);
        }
        proof {
            assert(func_views(fs@)[i as int].name != name@);
        }
        i += 1;
    }
    None
}

/// Adds a class to the table, replacing an existing entry of the same name.
fn table_insert(table: &mut Vec<Class>, c: Class)
    ensures
        class_views(final(table)@) == classes_insert(class_views(old(table)@), c@),
{
    let ghost pre = class_views(old(table)@);
    let mut i: usize = 0;
    while i < table.len()
        invariant
            i <= table@.len(),
            pre == class_views(old(table)@),
            pre == class_views(table@),
            class_index(pre, c@.name, 0) == class_index(pre, c@.name, i as int),
        decreases table@.len() - i,
    {
        if table[i].name == c.name {
            proof {
                assert(pre[i as int].name == c@.name);
            }
            let ghost cv = c@;
            let e: &mut Class = &mut table[i];
            *e = c;
            proof {
                assert(class_index(pre, cv.name, i as int) == Some(i as int));
                assert(classes_insert(pre, cv) == pre.update(i as int, cv));
                assert(class_views(table@) =~= pre.update(i as int, cv));
            }
            return ;
        }
        proof {
            assert(pre[i as int].name != c@.name);
        }
        i += 1;
    }
    table.push(c);
    proof {
        assert(class_views(table@) =~= pre.push(c@));
    }
}

/// The class table of the subtree at `parent`.
fn create_func_table(parent: &ASTNode) -> (r: Vec<Class>)
    requires
        parent.inv(),
        parent@.wf(),
        parent@.until < usize::MAX,
    ensures
        class_views(r@) == classes_from(parent@, parent@.id as int, Seq::empty()),
{
    let ghost goal = classes_from(parent@, parent@.id as int, Seq::<ClassView>::empty());
    let mut classes: Vec<Class> = Vec::new();
    let mut id = parent.id;
    proof {
        assert(class_views(classes@) =~= Seq::<ClassView>::empty());
    }
    loop
        invariant
            parent.inv(),
            parent@.wf(),
            parent@.until < usize::MAX,
            parent@.id <= id,
            goal == classes_from(parent@, id as int, class_views(classes@)),
        ensures
            goal == class_views(classes@),
        decreases parent@.until + 1 - id,
    {
        if id > parent.children_until {
            break ;
        }
        let node = match parent.get_node_by_id(id) {
            None => { break ; },
            Some(n) => n,
        };
        proof {
            parent@.lemma_find_range(id);
        }
        if matches!(node.identifier, ASTIdentifier::ClassDeclaration) {
            let funcs = get_functions(node);
            // fold the raw entries into a name-keyed method table
            let mut table_funcs: Vec<Function> = Vec::new();
            let mut raw = funcs;
            let ghost entries = func_views(raw@);
            let ghost consumed: int = 0;
            let mut fi: usize = 0;
            proof {
                assert(func_views(table_funcs@) =~= Seq::<FuncView>::empty());
            }
            while fi < raw.len()
                invariant
                    fi <= raw@.len(),
                    entries == func_views(raw@),
                    funcs_table(entries, 0, Seq::empty()) == funcs_table(
                        entries,
                        fi as int,
                        func_views(table_funcs@),
                    ),
                decreases raw@.len() - fi,
            {
                let name = clone_string(&raw[fi].name);
                let f = Function {
                    name,
                    first_statement_node: raw[fi].first_statement_node,
                    last_statement_node: raw[fi].last_statement_node,
                    node: raw[fi].node,
                };
                proof {
                    assert(f@ == entries[fi as int]);
                }
                funcs_insert_exec(&mut table_funcs, f);
                fi += 1;
            }
            let cls = Class {
                name: get_class_name(&node.code),
                node: node.id,
                functions: table_funcs,
            };
            proof {
                assert(cls@.functions =~= funcs_table(class_functions(node@), 0, Seq::empty()));
                assert(cls@ == (ClassView {
                    name: class_name_of(node@.code),
                    node: node@.id,
                    functions: funcs_table(class_functions(node@), 0, Seq::empty()),
                }));
            }
            table_insert(&mut classes, cls);
            if node.children_until > id + 1 {
                id = node.children_until - 1;
            } else {
                id = id + 1;
            }
        } else {
            id = id + 1;
        }
    }
    classes
}

/// Copies a string.
fn clone_string(s: &String) -> (r: String)
    ensures
        r@ == s@,
{
    s.clone()
}

/// Adds a function to the table, replacing an existing entry of the same
/// name.
fn funcs_insert_exec(fs: &mut Vec<Function>, f: Function)
    ensures
        func_views(final(fs)@) == funcs_insert(func_views(old(fs)@), f@),
{
    let ghost pre = func_views(old(fs)@);
    let mut i: usize = 0;
    while i < fs.len()
        invariant
            i <= fs@.len(),
            pre == func_views(old(fs)@),
            pre == func_views(fs@),
            func_index(pre, f@.name, 0) == func_index(pre, f@.name, i as int),
        decreases fs@.len() - i,
    {
        if fs[i].name == f.name {
            proof {
                assert(pre[i as int].name == f@.name);
            }
            let ghost fv = f@;
            let e: &mut Function = &mut fs[i];
            *e = f;
            proof {
                assert(func_index(pre, fv.name, i as int) == Some(i as int));
                assert(funcs_insert(pre, fv) == pre.update(i as int, fv));
                assert(func_views(fs@) =~= pre.update(i as int, fv));
            }
            return ;
        }
        proof {
            assert(pre[i as int].name != f@.name);
        }
        i += 1;
    }
    fs.push(f);
    proof {
        assert(func_views(fs@) =~= pre.push(f@));
    }
}

/// Every call site of the subtree at `parent`, in id order.
fn get_method_calls(parent: &ASTNode) -> (r: Vec<Caller>)
    requires
        parent.inv(),
        parent@.wf(),
        parent@.until < usize::MAX,
    ensures
        caller_views(r@) == calls_from(parent@, parent@.id as int, Seq::empty()),
{
    let ghost goal = calls_from(parent@, parent@.id as int, Seq::<FuncView>::empty());
    let mut calls: Vec<Caller> = Vec::new();
    let mut id = parent.id;
    proof {
        assert(caller_views(calls@) =~= Seq::<FuncView>::empty());
    }
    loop
        invariant
            parent.inv(),
            parent@.wf(),
            parent@.until < usize::MAX,
            parent@.id <= id,
            goal == calls_from(parent@, id as int, caller_views(calls@)),
        ensures
            goal == caller_views(calls@),
        decreases parent@.until + 1 - id,
    {
        if id > parent.children_until {
            break ;
        }
        let node = match parent.get_node_by_id(id) {
            None => { break ; },
            Some(n) => n,
        };
        proof {
            parent@.lemma_find_range(id);
        }
        if matches!(node.identifier, ASTIdentifier::MethodInvocation) {
            match get_enclosing_statement(parent, node.id) {
                None => {},
                Some(sid) => {
                    let ghost cpre = caller_views(calls@);
                    calls.push(Caller { name: get_function_name(&node.code), node: sid });
                    proof {
                        assert(caller_views(calls@) =~= cpre.push(calls@.last()@));
                    }
                },
            }
        }
        id = id + 1;
    }
    calls
}

/// Every import of the subtree at `parent`, in id order.
fn get_imports(parent: &ASTNode) -> (r: Vec<Import>)
    requires
        parent.inv(),
        parent@.wf(),
        parent@.until < usize::MAX,
    ensures
        import_views(r@) == imports_from(parent@, parent@.id as int, Seq::empty()),
{
    let ghost goal = imports_from(parent@, parent@.id as int, Seq::<FuncView>::empty());
    let mut imports: Vec<Import> = Vec::new();
    let mut id = parent.id;
    proof {
        assert(import_views(imports@) =~= Seq::<FuncView>::empty());
    }
    loop
        invariant
            parent.inv(),
            parent@.wf(),
            parent@.until < usize::MAX,
            parent@.id <= id,
            goal == imports_from(parent@, id as int, import_views(imports@)),
        ensures
            goal == import_views(imports@),
        decreases parent@.until + 1 - id,
    {
        if id > parent.children_until {
            break ;
        }
        let node = match parent.get_node_by_id(id) {
            None => { break ; },
            Some(n) => n,
        };
        proof {
            parent@.lemma_find_range(id);
        }
        if matches!(node.identifier, ASTIdentifier::ImportDeclaration) {
            let ghost ipre = import_views(imports@);
            imports.push(Import { name: get_import_name(&node.code), node: node.id });
            proof {
                assert(import_views(imports@) =~= ipre.push(imports@.last()@));
            }
        }
        id = id + 1;
    }
    imports
}

/// Links every call site against the class table; see [`cg_links`].
fn create_links(func_table: &Vec<Class>, method_calls: &Vec<Caller>, imports: Option<
    &Vec<Import>,
>) -> (r: Edges)
    ensures
        r.wf(),
        r@ == cg_links(
            class_views(func_table@),
            caller_views(method_calls@),
            match imports {
                None => None::<Seq<FuncView>>,
                Some(im) => Some(import_views(im@)),
            },
            Map::empty(),
        ),
{
    let ghost tv = class_views(func_table@);
    let ghost cv = caller_views(method_calls@);
    let ghost iv = match imports {
        None => None::<Seq<FuncView>>,
        Some(im) => Some(import_views(im@)),
    };
    let ghost goal = links_calls(tv, cv, 0, iv, Map::<usize, Seq<usize>>::empty());
    let mut edges = Edges::new();
    let mut k: usize = 0;
    while k < method_calls.len()
        invariant
            k <= method_calls@.len(),
            edges.wf(),
            tv == class_views(func_table@),
            cv == caller_views(method_calls@),
            iv == (match imports {
                None => None::<Seq<FuncView>>,
                Some(im) => Some(import_views(im@)),
            }),
            goal == links_calls(tv, cv, 0, iv, Map::<usize, Seq<usize>>::empty()),
            goal == links_calls(tv, cv, k as int, iv, edges@),
        decreases method_calls@.len() - k,
    {
        let caller = &method_calls[k];
        proof {
            assert(caller@ == cv[k as int]);
        }
        let ghost inner_start = edges@;
        let mut ci: usize = 0;
        while ci < func_table.len()
            invariant
                k < method_calls@.len(),
                ci <= func_table@.len(),
                edges.wf(),
                tv == class_views(func_table@),
                cv == caller_views(method_calls@),
                caller@ == cv[k as int],
                iv == (match imports {
                    None => None::<Seq<FuncView>>,
                    Some(im) => Some(import_views(im@)),
                }),
                links_for_caller(tv, 0, cv[k as int], iv, inner_start) == links_for_caller(
                    tv,
                    ci as int,
                    cv[k as int],
                    iv,
                    edges@,
                ),
            decreases func_table@.len() - ci,
        {
            let cls = &func_table[ci];
            proof {
                assert(cls@ == tv[ci as int]);
            }
            let passes = match imports {
                None => true,
                Some(im) => import_found(im, &cls.name),
            };
            if passes {
                match find_func(&cls.functions, &caller.name) {
                    Some(f) => {
                        proof {
                            assert(func_views(cls.functions@) == tv[ci as int].functions);
                            assert(f@.first == f.first_statement_node);
                        }
                        edges.push_succ(caller.node, f.first_statement_node);
                        edges.push_succ(f.first_statement_node, caller.node);
                    },
                    None => {},
                }
            }
            ci += 1;
        }
        proof {
            assert(links_calls(tv, cv, k as int, iv, inner_start) == links_calls(
                tv,
                cv,
                k + 1,
                iv,
                links_for_caller(tv, 0, cv[k as int], iv, inner_start),
            ));
        }
        k += 1;
    }
    match imports {
        Some(_) => {
            proof {
                assert(goal == edges@);
            }
        },
        None => {
            let ghost after_calls = edges@;
            let ghost goal2 = links_defs(tv, 0, after_calls);
            let mut ci: usize = 0;
            while ci < func_table.len()
                invariant
                    ci <= func_table@.len(),
                    edges.wf(),
                    tv == class_views(func_table@),
                    goal2 == links_defs(tv, 0, after_calls),
                    goal2 == links_defs(tv, ci as int, edges@),
                decreases func_table@.len() - ci,
            {
                let cls = &func_table[ci];
                proof {
                    assert(cls@ == tv[ci as int]);
                }
                let ghost fns_start = edges@;
                let mut fi: usize = 0;
                while fi < cls.functions.len()
                    invariant
                        ci < func_table@.len(),
                        fi <= cls.functions@.len(),
                        edges.wf(),
                        tv == class_views(func_table@),
                        cls@ == tv[ci as int],
                        links_defs_fns(tv[ci as int].functions, 0, fns_start) == links_defs_fns(
                            tv[ci as int].functions,
                            fi as int,
                            edges@,
                        ),
                    decreases cls.functions@.len() - fi,
                {
                    let f = &cls.functions[fi];
                    proof {
                        assert(f@ == tv[ci as int].functions[fi as int]);
                    }
                    edges.push_succ(f.node, f.first_statement_node);
                    fi += 1;
                }
                proof {
                    assert(links_defs(tv, ci as int, fns_start) == links_defs(
                        tv,
                        ci + 1,
                        links_defs_fns(tv[ci as int].functions, 0, fns_start),
                    ));
                }
                ci += 1;
            }
            proof {
                assert(goal2 == edges@);
            }
        },
    }
    edges
}


/// An edge already in the store survives a push, and the pushed edge is in
/// the result.
proof fn lemma_map_push_edge(m: Map<usize, Seq<usize>>, k: usize, v: usize, a: usize, b: usize)
    ensures
        has_edge(m, a, b) ==> has_edge(map_push(m, k, v), a, b),
        has_edge(map_push(m, k, v), k, v),
{
    let m2 = map_push(m, k, v);
    if has_edge(m, a, b) {
        if a == k {
            let j = choose|j: int| 0 <= j < m[a].len() && m[a][j] == b;
            assert(m2[a][j] == b);
        }
    }
    if m.dom().contains(k) {
        assert(m2[k][m[k].len() as int] == v);
    } else {
        assert(m2[k][0] == v);
    }
}

proof fn lemma_links_for_caller_mono(
    table: Seq<ClassView>,
    ci: int,
    caller: FuncView,
    imports: Option<Seq<FuncView>>,
    acc: Map<usize, Seq<usize>>,
    a: usize,
    b: usize,
)
    requires
        has_edge(acc, a, b),
    ensures
        has_edge(links_for_caller(table, ci, caller, imports, acc), a, b),
    decreases table.len() - ci,
{
    if 0 <= ci < table.len() {
        let cls = table[ci];
        let passes = match imports {
            None => true,
            Some(im) => import_matches(im, cls.name),
        };
        if passes {
            match func_index(cls.functions, caller.name, 0) {
                Some(fi) => {
                    let f = cls.functions[fi];
                    lemma_map_push_edge(acc, caller.node, f.first, a, b);
                    lemma_map_push_edge(
                        map_push(acc, caller.node, f.first),
                        f.first,
                        caller.node,
                        a,
                        b,
                    );
                },
                None => {},
            }
        }
        lemma_links_for_caller_mono(
            table,
            ci + 1,
            caller,
            imports,
            links_one_step(table, ci, caller, imports, acc),
            a,
            b,
        );
    }
}

/// The store after one class of the per-caller fold.
pub open spec fn links_one_step(
    table: Seq<ClassView>,
    ci: int,
    caller: FuncView,
    imports: Option<Seq<FuncView>>,
    acc: Map<usize, Seq<usize>>,
) -> Map<usize, Seq<usize>> {
    let cls = table[ci];
    let passes = match imports {
        None => true,
        Some(im) => import_matches(im, cls.name),
    };
    if passes {
        match func_index(cls.functions, caller.name, 0) {
            Some(fi) => {
                let f = cls.functions[fi];
                map_push(map_push(acc, caller.node, f.first), f.first, caller.node)
            },
            None => acc,
        }
    } else {
        acc
    }
}

proof fn lemma_links_calls_mono(
    table: Seq<ClassView>,
    calls: Seq<FuncView>,
    k: int,
    imports: Option<Seq<FuncView>>,
    acc: Map<usize, Seq<usize>>,
    a: usize,
    b: usize,
)
    requires
        has_edge(acc, a, b),
    ensures
        has_edge(links_calls(table, calls, k, imports, acc), a, b),
    decreases calls.len() - k,
{
    if 0 <= k < calls.len() {
        lemma_links_for_caller_mono(table, 0, calls[k], imports, acc, a, b);
        lemma_links_calls_mono(
            table,
            calls,
            k + 1,
            imports,
            links_for_caller(table, 0, calls[k], imports, acc),
            a,
            b,
        );
    }
}

proof fn lemma_links_defs_fns_mono(
    fs: Seq<FuncView>,
    fi: int,
    acc: Map<usize, Seq<usize>>,
    a: usize,
    b: usize,
)
    requires
        has_edge(acc, a, b),
    ensures
        has_edge(links_defs_fns(fs, fi, acc), a, b),
    decreases fs.len() - fi,
{
    if 0 <= fi < fs.len() {
        lemma_map_push_edge(acc, fs[fi].node, fs[fi].first, a, b);
        lemma_links_defs_fns_mono(fs, fi + 1, map_push(acc, fs[fi].node, fs[fi].first), a, b);
    }
}

proof fn lemma_links_defs_mono(
    table: Seq<ClassView>,
    ci: int,
    acc: Map<usize, Seq<usize>>,
    a: usize,
    b: usize,
)
    requires
        has_edge(acc, a, b),
    ensures
        has_edge(links_defs(table, ci, acc), a, b),
    decreases table.len() - ci,
{
    if 0 <= ci < table.len() {
        lemma_links_defs_fns_mono(table[ci].functions, 0, acc, a, b);
        lemma_links_defs_mono(table, ci + 1, links_defs_fns(table[ci].functions, 0, acc), a, b);
    }
}

proof fn lemma_links_for_caller_emits(
    table: Seq<ClassView>,
    ci: int,
    caller: FuncView,
    imports: Option<Seq<FuncView>>,
    acc: Map<usize, Seq<usize>>,
    target: int,
    fi: int,
)
    requires
        0 <= ci <= target < table.len(),
        func_index(table[target].functions, caller.name, 0) == Some(fi),
        0 <= fi < table[target].functions.len(),
        match imports {
            None => true,
            Some(im) => import_matches(im, table[target].name),
        },
    ensures
        has_edge(
            links_for_caller(table, ci, caller, imports, acc),
            caller.node,
            table[target].functions[fi].first,
        ),
        has_edge(
            links_for_caller(table, ci, caller, imports, acc),
            table[target].functions[fi].first,
            caller.node,
        ),
    decreases table.len() - ci,
{
    let f = table[target].functions[fi];
    if ci == target {
        lemma_map_push_edge(acc, caller.node, f.first, caller.node, f.first);
        lemma_map_push_edge(
            map_push(acc, caller.node, f.first),
            f.first,
            caller.node,
            caller.node,
            f.first,
        );
        lemma_map_push_edge(
            map_push(acc, caller.node, f.first),
            f.first,
            caller.node,
            f.first,
            caller.node,
        );
        lemma_links_for_caller_mono(
            table,
            ci + 1,
            caller,
            imports,
            links_one_step(table, ci, caller, imports, acc),
            caller.node,
            f.first,
        );
        lemma_links_for_caller_mono(
            table,
            ci + 1,
            caller,
            imports,
            links_one_step(table, ci, caller, imports, acc),
            f.first,
            caller.node,
        );
    } else {
        lemma_links_for_caller_emits(
            table,
            ci + 1,
            caller,
            imports,
            links_one_step(table, ci, caller, imports, acc),
            target,
            fi,
        );
    }
}

proof fn lemma_links_calls_emits(
    table: Seq<ClassView>,
    calls: Seq<FuncView>,
    k: int,
    imports: Option<Seq<FuncView>>,
    acc: Map<usize, Seq<usize>>,
    target_call: int,
    ci: int,
    fi: int,
)
    requires
        0 <= k <= target_call < calls.len(),
        0 <= ci < table.len(),
        func_index(table[ci].functions, calls[target_call].name, 0) == Some(fi),
        0 <= fi < table[ci].functions.len(),
        match imports {
            None => true,
            Some(im) => import_matches(im, table[ci].name),
        },
    ensures
        has_edge(
            links_calls(table, calls, k, imports, acc),
            calls[target_call].node,
            table[ci].functions[fi].first,
        ),
    decreases calls.len() - k,
{
    if k == target_call {
        lemma_links_for_caller_emits(table, 0, calls[k], imports, acc, ci, fi);
        lemma_links_calls_mono(
            table,
            calls,
            k + 1,
            imports,
            links_for_caller(table, 0, calls[k], imports, acc),
            calls[target_call].node,
            table[ci].functions[fi].first,
        );
    } else {
        lemma_links_calls_emits(
            table,
            calls,
            k + 1,
            imports,
            links_for_caller(table, 0, calls[k], imports, acc),
            target_call,
            ci,
            fi,
        );
    }
}

/// The linking pass emits a call-to-callee-entry edge for every call site
/// whose simple name is a method of some class of the table — in the
/// import-blind phase, regardless of any import.  In particular, a call
/// whose name matches exactly one class method gains the edge into that
/// method's entry statement.
pub proof fn lemma_cg_emits_call_edge(
    table: Seq<ClassView>,
    calls: Seq<FuncView>,
    acc: Map<usize, Seq<usize>>,
    k: int,
    ci: int,
    fi: int,
)
    requires
        0 <= k < calls.len(),
        0 <= ci < table.len(),
        func_index(table[ci].functions, calls[k].name, 0) == Some(fi),
        0 <= fi < table[ci].functions.len(),
    ensures
        has_edge(
            cg_links(table, calls, None, acc),
            calls[k].node,
            table[ci].functions[fi].first,
        ),
{
    lemma_links_calls_emits(table, calls, 0, None, acc, k, ci, fi);
    lemma_links_defs_mono(
        table,
        0,
        links_calls(table, calls, 0, None, acc),
        calls[k].node,
        table[ci].functions[fi].first,
    );
}

/// The class table of a program tree.
pub open spec fn classes_of(v: AstView) -> Seq<ClassView> {
    classes_from(v, v.id as int, Seq::empty())
}

/// The call sites of a program tree.
pub open spec fn calls_of(v: AstView) -> Seq<FuncView> {
    calls_from(v, v.id as int, Seq::empty())
}

/// The imports of a program tree.
pub open spec fn imports_of(v: AstView) -> Seq<FuncView> {
    imports_from(v, v.id as int, Seq::empty())
}

/// The first, import-blind phase over `programs[i..]`: each program's local
/// table and call sites are linked among themselves (with definition
/// anchors), while the tables and calls accumulate for the second phase.
pub open spec fn cg_phase1(
    programs: Seq<crate::program::Program>,
    i: int,
    edges: Map<usize, Seq<usize>>,
    table: Seq<ClassView>,
    calls: Seq<FuncView>,
) -> (Map<usize, Seq<usize>>, Seq<ClassView>, Seq<FuncView>)
    decreases programs.len() - i,
{
    if i < 0 || i >= programs.len() {
        (edges, table, calls)
    } else {
        let t = classes_of(programs[i].tree@);
        let c = calls_of(programs[i].tree@);
        cg_phase1(
            programs,
            i + 1,
            edges.union_prefer_right(cg_links(t, c, None, Map::empty())),
            table_extend(table, t, 0),
            calls + c,
        )
    }
}

/// The second, import-filtered phase over `programs[i..]`: each program's
/// call sites are linked against the whole set's table, kept only for
/// classes the program imports.
pub open spec fn cg_phase2(
    programs: Seq<crate::program::Program>,
    i: int,
    table: Seq<ClassView>,
    edges: Map<usize, Seq<usize>>,
) -> Map<usize, Seq<usize>>
    decreases programs.len() - i,
{
    if i < 0 || i >= programs.len() {
        edges
    } else {
        cg_phase2(
            programs,
            i + 1,
            table,
            crate::edges::merged(
                edges,
                cg_links(
                    table,
                    calls_of(programs[i].tree@),
                    Some(imports_of(programs[i].tree@)),
                    Map::empty(),
                ),
            ),
        )
    }
}

/// The call-graph edge store of a program set: phase 1 per program, then
/// phase 2 with the set-wide table.
pub open spec fn cg_of(programs: Seq<crate::program::Program>) -> Map<usize, Seq<usize>> {
    let r1 = cg_phase1(programs, 0, Map::empty(), Seq::empty(), Seq::empty());
    cg_phase2(programs, 0, r1.1, r1.0)
}


/// The id lies in the tree's id range.
pub open spec fn ids_within(v: AstView, x: usize) -> bool {
    v.id <= x <= v.until
}

/// Every function's entry statement and defining node lie in the tree's id
/// range.
pub open spec fn funcs_within(fs: Seq<FuncView>, v: AstView) -> bool {
    forall|j: int|
        0 <= j < fs.len() ==> ids_within(v, (#[trigger] fs[j]).first) && ids_within(v, fs[j].node)
}

/// Every class's function table lies in the tree's id range.
pub open spec fn table_within(table: Seq<ClassView>, v: AstView) -> bool {
    forall|ci: int| 0 <= ci < table.len() ==> funcs_within((#[trigger] table[ci]).functions, v)
}

/// Every call site's enclosing statement lies in the tree's id range.
pub open spec fn callers_within(cs: Seq<FuncView>, v: AstView) -> bool {
    forall|j: int| 0 <= j < cs.len() ==> ids_within(v, (#[trigger] cs[j]).node)
}

proof fn lemma_func_index_bound(fs: Seq<FuncView>, name: Seq<char>, i0: int)
    ensures
        func_index(fs, name, i0) matches Some(i) ==> i0 <= i < fs.len() && fs[i].name == name,
    decreases fs.len() - i0,
{
    if 0 <= i0 < fs.len() {
        lemma_func_index_bound(fs, name, i0 + 1);
    }
}

proof fn lemma_class_index_bound(cs: Seq<ClassView>, name: Seq<char>, i0: int)
    ensures
        class_index(cs, name, i0) matches Some(i) ==> i0 <= i < cs.len() && cs[i].name == name,
    decreases cs.len() - i0,
{
    if 0 <= i0 < cs.len() {
        lemma_class_index_bound(cs, name, i0 + 1);
    }
}

proof fn lemma_first_body_bound(children: Seq<AstView>, i: int)
    ensures
        first_body(children, i) matches Some(j) ==> i <= j < children.len(),
    decreases children.len() - i,
{
    if 0 <= i < children.len() {
        lemma_first_body_bound(children, i + 1);
    }
}

proof fn lemma_statement_ids_prefix(parent: AstView, m: int)
    requires
        parent.wf(),
        0 <= m <= parent.children.len(),
    ensures
        forall|j: int|
            0 <= j < AstView::statement_ids(parent.children.take(m)).len() ==> parent.id
                < #[trigger] AstView::statement_ids(parent.children.take(m))[j] <= parent.until,
    decreases m,
{
    if m > 0 {
        lemma_statement_ids_prefix(parent, m - 1);
        assert(parent.children.take(m).drop_last() =~= parent.children.take(m - 1));
        assert(parent.children.take(m).last() == parent.children[m - 1]);
        AstView::lemma_child_bounds(parent, m - 1);
        let sm = AstView::statement_ids(parent.children.take(m));
        let sm1 = AstView::statement_ids(parent.children.take(m - 1));
        assert forall|j: int| 0 <= j < sm.len() implies parent.id < #[trigger] sm[j]
            <= parent.until by {
            if parent.children[m - 1].kind.is_statement() {
                assert(sm == sm1.push(parent.children[m - 1].id));
                if j < sm1.len() {
                    assert(sm[j] == sm1[j]);
                }
            } else {
                assert(sm == sm1);
            }
        }
    }
}

proof fn lemma_statement_ids_range(parent: AstView)
    requires
        parent.wf(),
    ensures
        forall|j: int|
            0 <= j < AstView::statement_ids(parent.children).len() ==> parent.id
                < #[trigger] AstView::statement_ids(parent.children)[j] <= parent.until,
{
    lemma_statement_ids_prefix(parent, parent.children.len() as int);
    assert(parent.children.take(parent.children.len() as int) =~= parent.children);
}

proof fn lemma_block_ids_prefix(parent: AstView, m: int)
    requires
        parent.wf(),
        0 <= m <= parent.children.len(),
    ensures
        forall|j: int|
            0 <= j < AstView::block_ids(parent.children.take(m)).len() ==> parent.id
                < #[trigger] AstView::block_ids(parent.children.take(m))[j] <= parent.until,
    decreases m,
{
    if m > 0 {
        lemma_block_ids_prefix(parent, m - 1);
        assert(parent.children.take(m).drop_last() =~= parent.children.take(m - 1));
        assert(parent.children.take(m).last() == parent.children[m - 1]);
        AstView::lemma_child_bounds(parent, m - 1);
        let sm = AstView::block_ids(parent.children.take(m));
        let sm1 = AstView::block_ids(parent.children.take(m - 1));
        assert forall|j: int| 0 <= j < sm.len() implies parent.id < #[trigger] sm[j]
            <= parent.until by {
            if parent.children[m - 1].kind.is_block() {
                assert(sm == sm1.push(parent.children[m - 1].id));
                if j < sm1.len() {
                    assert(sm[j] == sm1[j]);
                }
            } else {
                assert(sm == sm1);
            }
        }
    }
}

proof fn lemma_block_ids_range(parent: AstView)
    requires
        parent.wf(),
    ensures
        forall|j: int|
            0 <= j < AstView::block_ids(parent.children).len() ==> parent.id
                < #[trigger] AstView::block_ids(parent.children)[j] <= parent.until,
{
    lemma_block_ids_prefix(parent, parent.children.len() as int);
    assert(parent.children.take(parent.children.len() as int) =~= parent.children);
}

proof fn lemma_first_function_statement_range(root: AstView, fid: usize)
    requires
        root.wf(),
    ensures
        first_function_statement(root, fid) matches Some(s) ==> ids_within(root, s),
{
    root.lemma_find_range(fid);
    match root.find(fid) {
        None => {},
        Some(fnode) => {
            lemma_block_ids_range(fnode);
            let blocks = AstView::block_ids(fnode.children);
            if blocks.len() > 0 {
                root.lemma_find_range(blocks[0]);
                match root.find(blocks[0]) {
                    None => {},
                    Some(b) => {
                        lemma_statement_ids_range(b);
                    },
                }
            }
        },
    }
}

proof fn lemma_method_entries_within(root: AstView, children: Seq<AstView>, m: int)
    requires
        root.wf(),
        0 <= m <= children.len(),
        forall|j: int| 0 <= j < children.len() ==> ids_within(root, (#[trigger] children[j]).id),
    ensures
        funcs_within(method_entries(root, children.take(m)), root),
    decreases m,
{
    if m > 0 {
        lemma_method_entries_within(root, children, m - 1);
        assert(children.take(m).drop_last() =~= children.take(m - 1));
        assert(children.take(m).last() == children[m - 1]);
        lemma_first_function_statement_range(root, children[m - 1].id);
        let em = method_entries(root, children.take(m));
        let em1 = method_entries(root, children.take(m - 1));
        assert forall|j: int| 0 <= j < em.len() implies ids_within(root, (#[trigger] em[j]).first)
            && ids_within(root, em[j].node) by {
            if em != em1 {
                assert(0 <= j < em1.len() + 1);
                if j < em1.len() {
                    assert(em[j] == em1[j]);
                } else {
                    assert(em[j] == em.last());
                }
            }
        }
    }
}

proof fn lemma_class_functions_within(n: AstView)
    requires
        n.wf(),
    ensures
        funcs_within(class_functions(n), n),
{
    lemma_first_body_bound(n.children, 0);
    match first_body(n.children, 0) {
        None => {},
        Some(i) => {
            let body = n.children[i];
            AstView::lemma_child_bounds(n, i);
            assert forall|j: int| 0 <= j < body.children.len() implies ids_within(
                n,
                (#[trigger] body.children[j]).id,
            ) by {
                AstView::lemma_child_bounds(body, j);
            }
            lemma_method_entries_within(n, body.children, body.children.len() as int);
            assert(body.children.take(body.children.len() as int) =~= body.children);
        },
    }
}

/// Bounds transfer outward: what lies in a subtree's range lies in the
/// enclosing tree's range.
proof fn lemma_funcs_within_wider(fs: Seq<FuncView>, inner: AstView, outer: AstView)
    requires
        funcs_within(fs, inner),
        outer.id <= inner.id,
        inner.until <= outer.until,
    ensures
        funcs_within(fs, outer),
{
}

proof fn lemma_funcs_insert_within(fs: Seq<FuncView>, f: FuncView, v: AstView)
    requires
        funcs_within(fs, v),
        ids_within(v, f.first),
        ids_within(v, f.node),
    ensures
        funcs_within(funcs_insert(fs, f), v),
{
    lemma_func_index_bound(fs, f.name, 0);
    match func_index(fs, f.name, 0) {
        Some(i) => {
            assert forall|j: int|
                0 <= j < fs.update(i, f).len() implies #[trigger] fs.update(i, f)[j] == (if j == i {
                f
            } else {
                fs[j]
            }) by {}
        },
        None => {
            assert(forall|j: int| 0 <= j < fs.len() ==> #[trigger] fs.push(f)[j] == fs[j]);
            assert(fs.push(f)[fs.len() as int] == f);
        },
    }
}

proof fn lemma_funcs_table_within(entries: Seq<FuncView>, i: int, acc: Seq<FuncView>, v: AstView)
    requires
        funcs_within(entries, v),
        funcs_within(acc, v),
    ensures
        funcs_within(funcs_table(entries, i, acc), v),
    decreases entries.len() - i,
{
    if 0 <= i < entries.len() {
        lemma_funcs_insert_within(acc, entries[i], v);
        lemma_funcs_table_within(entries, i + 1, funcs_insert(acc, entries[i]), v);
    }
}

proof fn lemma_classes_insert_within(cs: Seq<ClassView>, c: ClassView, v: AstView)
    requires
        table_within(cs, v),
        funcs_within(c.functions, v),
    ensures
        table_within(classes_insert(cs, c), v),
{
    lemma_class_index_bound(cs, c.name, 0);
    match class_index(cs, c.name, 0) {
        Some(i) => {
            assert forall|j: int|
                0 <= j < cs.update(i, c).len() implies #[trigger] cs.update(i, c)[j] == (if j == i {
                c
            } else {
                cs[j]
            }) by {}
        },
        None => {
            assert(forall|j: int| 0 <= j < cs.len() ==> #[trigger] cs.push(c)[j] == cs[j]);
            assert(cs.push(c)[cs.len() as int] == c);
        },
    }
}

proof fn lemma_classes_from_within(root: AstView, id: int, acc: Seq<ClassView>)
    requires
        root.wf(),
        table_within(acc, root),
    ensures
        table_within(classes_from(root, id, acc), root),
    decreases root.until + 1 - id,
{
    if 0 <= id <= root.until {
        root.lemma_find_range(id as usize);
        match root.find(id as usize) {
            None => {},
            Some(n) => {
                if n.kind == ASTIdentifier::ClassDeclaration {
                    lemma_class_functions_within(n);
                    let fs = class_functions(n);
                    lemma_funcs_within_wider(fs, n, root);
                    assert(funcs_within(Seq::<FuncView>::empty(), root));
                    lemma_funcs_table_within(fs, 0, Seq::empty(), root);
                    let cls = ClassView {
                        name: class_name_of(n.code),
                        node: n.id,
                        functions: funcs_table(fs, 0, Seq::empty()),
                    };
                    lemma_classes_insert_within(acc, cls, root);
                    let jump = if n.until > id + 1 {
                        n.until - 1
                    } else {
                        id + 1
                    };
                    lemma_classes_from_within(root, jump, classes_insert(acc, cls));
                } else {
                    lemma_classes_from_within(root, id + 1, acc);
                }
            },
        }
    }
}

proof fn lemma_enclosing_from_range(root: AstView, i: int, id: usize)
    requires
        root.wf(),
    ensures
        enclosing_from(root, i, id) matches Some(s) ==> ids_within(root, s),
    decreases i + 1,
{
    if i >= 0 {
        root.lemma_find_range(i as usize);
        match root.find(i as usize) {
            None => {},
            Some(n) => {
                if !(n.kind.is_statement() && n.id < id && id <= n.until) {
                    lemma_enclosing_from_range(root, i - 1, id);
                }
            },
        }
    }
}

proof fn lemma_calls_from_within(root: AstView, id: int, acc: Seq<FuncView>)
    requires
        root.wf(),
        callers_within(acc, root),
    ensures
        callers_within(calls_from(root, id, acc), root),
    decreases root.until + 1 - id,
{
    if 0 <= id <= root.until {
        match root.find(id as usize) {
            None => {},
            Some(n) => {
                if n.kind == ASTIdentifier::MethodInvocation {
                    match enclosing_from(root, id, n.id) {
                        None => {
                            lemma_calls_from_within(root, id + 1, acc);
                        },
                        Some(sid) => {
                            lemma_enclosing_from_range(root, id, n.id);
                            let c = FuncView {
                                name: func_name_of(n.code),
                                first: 0,
                                last: 0,
                                node: sid,
                            };
                            assert(callers_within(acc.push(c), root)) by {
                                assert(forall|j: int|
                                    0 <= j < acc.len() ==> acc.push(c)[j] == acc[j]);
                                assert(acc.push(c)[acc.len() as int] == c);
                            }
                            lemma_calls_from_within(root, id + 1, acc.push(c));
                        },
                    }
                } else {
                    lemma_calls_from_within(root, id + 1, acc);
                }
            },
        }
    }
}

proof fn lemma_map_push_dom(m: Map<usize, Seq<usize>>, k: usize, v: usize, x: usize)
    requires
        !m.dom().contains(x),
        x != k,
    ensures
        !map_push(m, k, v).dom().contains(x),
{
}

proof fn lemma_links_for_caller_dom(
    table: Seq<ClassView>,
    ci: int,
    caller: FuncView,
    imports: Option<Seq<FuncView>>,
    acc: Map<usize, Seq<usize>>,
    v: AstView,
    x: usize,
)
    requires
        table_within(table, v),
        ids_within(v, caller.node),
        !acc.dom().contains(x),
        !ids_within(v, x),
    ensures
        !links_for_caller(table, ci, caller, imports, acc).dom().contains(x),
    decreases table.len() - ci,
{
    if 0 <= ci < table.len() {
        let cls = table[ci];
        lemma_func_index_bound(cls.functions, caller.name, 0);
        assert(!links_one_step(table, ci, caller, imports, acc).dom().contains(x)) by {
            match func_index(cls.functions, caller.name, 0) {
                Some(fi) => {
                    let f = cls.functions[fi];
                    assert(ids_within(v, f.first));
                    lemma_map_push_dom(acc, caller.node, f.first, x);
                    lemma_map_push_dom(map_push(acc, caller.node, f.first), f.first, caller.node, x);
                },
                None => {},
            }
        }
        lemma_links_for_caller_dom(
            table,
            ci + 1,
            caller,
            imports,
            links_one_step(table, ci, caller, imports, acc),
            v,
            x,
        );
    }
}

proof fn lemma_links_calls_dom(
    table: Seq<ClassView>,
    calls: Seq<FuncView>,
    k: int,
    imports: Option<Seq<FuncView>>,
    acc: Map<usize, Seq<usize>>,
    v: AstView,
    x: usize,
)
    requires
        table_within(table, v),
        callers_within(calls, v),
        !acc.dom().contains(x),
        !ids_within(v, x),
    ensures
        !links_calls(table, calls, k, imports, acc).dom().contains(x),
    decreases calls.len() - k,
{
    if 0 <= k < calls.len() {
        lemma_links_for_caller_dom(table, 0, calls[k], imports, acc, v, x);
        lemma_links_calls_dom(
            table,
            calls,
            k + 1,
            imports,
            links_for_caller(table, 0, calls[k], imports, acc),
            v,
            x,
        );
    }
}

proof fn lemma_links_defs_fns_dom(
    fs: Seq<FuncView>,
    fi: int,
    acc: Map<usize, Seq<usize>>,
    v: AstView,
    x: usize,
)
    requires
        funcs_within(fs, v),
        !acc.dom().contains(x),
        !ids_within(v, x),
    ensures
        !links_defs_fns(fs, fi, acc).dom().contains(x),
    decreases fs.len() - fi,
{
    if 0 <= fi < fs.len() {
        lemma_links_defs_fns_dom(fs, fi + 1, map_push(acc, fs[fi].node, fs[fi].first), v, x);
    }
}

proof fn lemma_links_defs_dom(
    table: Seq<ClassView>,
    ci: int,
    acc: Map<usize, Seq<usize>>,
    v: AstView,
    x: usize,
)
    requires
        table_within(table, v),
        !acc.dom().contains(x),
        !ids_within(v, x),
    ensures
        !links_defs(table, ci, acc).dom().contains(x),
    decreases table.len() - ci,
{
    if 0 <= ci < table.len() {
        lemma_links_defs_fns_dom(table[ci].functions, 0, acc, v, x);
        lemma_links_defs_dom(table, ci + 1, links_defs_fns(table[ci].functions, 0, acc), v, x);
    }
}

proof fn lemma_cg_links_dom(
    table: Seq<ClassView>,
    calls: Seq<FuncView>,
    imports: Option<Seq<FuncView>>,
    acc: Map<usize, Seq<usize>>,
    v: AstView,
    x: usize,
)
    requires
        table_within(table, v),
        callers_within(calls, v),
        !acc.dom().contains(x),
        !ids_within(v, x),
    ensures
        !cg_links(table, calls, imports, acc).dom().contains(x),
{
    lemma_links_calls_dom(table, calls, 0, imports, acc, v, x);
    if imports is None {
        lemma_links_defs_dom(table, 0, links_calls(table, calls, 0, imports, acc), v, x);
    }
}

proof fn lemma_union_pr_right_edge(
    a: Map<usize, Seq<usize>>,
    b: Map<usize, Seq<usize>>,
    x: usize,
    y: usize,
)
    requires
        has_edge(b, x, y),
    ensures
        has_edge(a.union_prefer_right(b), x, y),
{
}

proof fn lemma_union_pr_left_edge(
    a: Map<usize, Seq<usize>>,
    b: Map<usize, Seq<usize>>,
    x: usize,
    y: usize,
)
    requires
        has_edge(a, x, y),
        !b.dom().contains(x),
    ensures
        has_edge(a.union_prefer_right(b), x, y),
{
}

proof fn lemma_merged_left_edge(
    a: Map<usize, Seq<usize>>,
    b: Map<usize, Seq<usize>>,
    x: usize,
    y: usize,
)
    requires
        has_edge(a, x, y),
    ensures
        has_edge(crate::edges::merged(a, b), x, y),
{
    let m = crate::edges::merged(a, b);
    if b.dom().contains(x) {
        let j = choose|j: int| 0 <= j < a[x].len() && a[x][j] == y;
        assert(m[x][j] == y);
    }
}

/// An edge whose key lies below every remaining program's id range survives
/// the rest of the import-blind phase.
proof fn lemma_phase1_preserves(
    programs: Seq<Program>,
    i: int,
    edges: Map<usize, Seq<usize>>,
    table: Seq<ClassView>,
    calls: Seq<FuncView>,
    x: usize,
    y: usize,
)
    requires
        chained(programs),
        0 <= i <= programs.len(),
        has_edge(edges, x, y),
        forall|j: int| i <= j < programs.len() ==> x < (#[trigger] programs[j]).tree@.id,
    ensures
        has_edge(cg_phase1(programs, i, edges, table, calls).0, x, y),
    decreases programs.len() - i,
{
    if i < programs.len() {
        assert(programs[i].wf());
        let v = programs[i].tree@;
        let t = classes_of(v);
        let c = calls_of(v);
        lemma_classes_from_within(v, v.id as int, Seq::empty());
        lemma_calls_from_within(v, v.id as int, Seq::empty());
        lemma_cg_links_dom(t, c, None, Map::empty(), v, x);
        lemma_union_pr_left_edge(edges, cg_links(t, c, None, Map::empty()), x, y);
        lemma_phase1_preserves(
            programs,
            i + 1,
            edges.union_prefer_right(cg_links(t, c, None, Map::empty())),
            table_extend(table, t, 0),
            calls + c,
            x,
            y,
        );
    }
}

/// An edge survives the whole import-filtered phase.
proof fn lemma_phase2_preserves(
    programs: Seq<Program>,
    i: int,
    table: Seq<ClassView>,
    edges: Map<usize, Seq<usize>>,
    x: usize,
    y: usize,
)
    requires
        has_edge(edges, x, y),
    ensures
        has_edge(cg_phase2(programs, i, table, edges), x, y),
    decreases programs.len() - i,
{
    if 0 <= i < programs.len() {
        let l = cg_links(
            table,
            calls_of(programs[i].tree@),
            Some(imports_of(programs[i].tree@)),
            Map::empty(),
        );
        lemma_merged_left_edge(edges, l, x, y);
        lemma_phase2_preserves(programs, i + 1, table, crate::edges::merged(edges, l), x, y);
    }
}

proof fn lemma_phase1_emits(
    programs: Seq<Program>,
    i: int,
    edges: Map<usize, Seq<usize>>,
    table: Seq<ClassView>,
    calls: Seq<FuncView>,
    p: int,
    kc: int,
    ci: int,
    fi: int,
)
    requires
        chained(programs),
        0 <= i <= p < programs.len(),
        0 <= kc < calls_of(programs[p].tree@).len(),
        0 <= ci < classes_of(programs[p].tree@).len(),
        0 <= fi < classes_of(programs[p].tree@)[ci].functions.len(),
        func_index(
            classes_of(programs[p].tree@)[ci].functions,
            calls_of(programs[p].tree@)[kc].name,
            0,
        ) == Some(fi),
    ensures
        has_edge(
            cg_phase1(programs, i, edges, table, calls).0,
            calls_of(programs[p].tree@)[kc].node,
            classes_of(programs[p].tree@)[ci].functions[fi].first,
        ),
    decreases p - i,
{
    let v = programs[p].tree@;
    let x = calls_of(v)[kc].node;
    let y = classes_of(v)[ci].functions[fi].first;
    assert(programs[p].wf());
    if i == p {
        let t = classes_of(v);
        let c = calls_of(v);
        let l = cg_links(t, c, None, Map::<usize, Seq<usize>>::empty());
        lemma_cg_emits_call_edge(t, c, Map::empty(), kc, ci, fi);
        lemma_union_pr_right_edge(edges, l, x, y);
        lemma_calls_from_within(v, v.id as int, Seq::empty());
        assert(ids_within(v, x));
        assert forall|j: int| p + 1 <= j < programs.len() implies x < (
        #[trigger] programs[j]).tree@.id by {
            crate::program::lemma_ranges_disjoint(programs, p, j);
        }
        lemma_phase1_preserves(
            programs,
            p + 1,
            edges.union_prefer_right(l),
            table_extend(table, t, 0),
            calls + c,
            x,
            y,
        );
    } else {
        let vi = programs[i].tree@;
        lemma_phase1_emits(
            programs,
            i + 1,
            edges.union_prefer_right(
                cg_links(classes_of(vi), calls_of(vi), None, Map::empty()),
            ),
            table_extend(table, classes_of(vi), 0),
            calls + calls_of(vi),
            p,
            kc,
            ci,
            fi,
        );
    }
}

/// The whole call-graph construction emits a call-to-callee-entry edge for
/// every call site of any program of a chained set whose simple name is a
/// method of a class of the same program — regardless of imports, since the
/// import-blind phase links it and the import-filtered phase only adds
/// edges.  In particular, a call whose name matches exactly one class method
/// gains the edge into that method's entry statement.
pub proof fn lemma_calculate_cg_emits_call_edge(
    programs: Seq<Program>,
    p: int,
    kc: int,
    ci: int,
    fi: int,
)
    requires
        chained(programs),
        0 <= p < programs.len(),
        0 <= kc < calls_of(programs[p].tree@).len(),
        0 <= ci < classes_of(programs[p].tree@).len(),
        0 <= fi < classes_of(programs[p].tree@)[ci].functions.len(),
        func_index(
            classes_of(programs[p].tree@)[ci].functions,
            calls_of(programs[p].tree@)[kc].name,
            0,
        ) == Some(fi),
    ensures
        has_edge(
            cg_of(programs),
            calls_of(programs[p].tree@)[kc].node,
            classes_of(programs[p].tree@)[ci].functions[fi].first,
        ),
{
    let r1 = cg_phase1(programs, 0, Map::empty(), Seq::empty(), Seq::empty());
    lemma_phase1_emits(programs, 0, Map::empty(), Seq::empty(), Seq::empty(), p, kc, ci, fi);
    lemma_phase2_preserves(
        programs,
        0,
        r1.1,
        r1.0,
        calls_of(programs[p].tree@)[kc].node,
        classes_of(programs[p].tree@)[ci].functions[fi].first,
    );
}

/// The call-graph edges of a program set; see [`cg_of`].
pub fn calculate_cg(programs: &Vec<crate::program::Program>) -> (r: Edges)
    requires
        crate::program::all_wf(programs@),
    ensures
        r.wf(),
        r@ == cg_of(programs@),
{
    let mut edges = Edges::new();
    let mut func_table: Vec<Class> = Vec::new();
    let mut method_calls: Vec<Caller> = Vec::new();
    let mut i: usize = 0;
    proof {
        assert(class_views(func_table@) =~= Seq::<ClassView>::empty());
        assert(caller_views(method_calls@) =~= Seq::<FuncView>::empty());
    }
    while i < programs.len()
        invariant
            crate::program::all_wf(programs@),
            i <= programs@.len(),
            edges.wf(),
            cg_phase1(programs@, 0, Map::empty(), Seq::empty(), Seq::empty()) == cg_phase1(
                programs@,
                i as int,
                edges@,
                class_views(func_table@),
                caller_views(method_calls@),
            ),
        decreases programs@.len() - i,
    {
        let program = &programs[i];
        proof {
            assert(programs@[i as int].wf());
        }
        let ghost edges_pre = edges@;
        let ghost calls_pre = caller_views(method_calls@);
        let local_func_table = create_func_table(&program.tree);
        let mut local_method_calls = get_method_calls(&program.tree);
        let ghost lv = caller_views(local_method_calls@);
        let links = create_links(&local_func_table, &local_method_calls, None);
        edges.extend_from(&links);
        let ghost table_pre = class_views(func_table@);
        let ghost local_tv = class_views(local_func_table@);
        let mut local = local_func_table;
        let mut taken: usize = 0;
        let ghost local_len = local@.len();
        proof {
            assert(local.len() == local_len);
        }
        while local.len() > 0
            invariant
                taken + local@.len() == local_len,
                local_len <= usize::MAX,
                local_tv.len() == local_len,
                forall|j: int|
                    0 <= j < local@.len() ==> (#[trigger] local@[j])@ == local_tv[taken + j],
                table_extend(table_pre, local_tv, 0) == table_extend(
                    class_views(func_table@),
                    local_tv,
                    taken as int,
                ),
            decreases local@.len(),
        {
            let c = local.remove(0);
            proof {
                assert(c@ == local_tv[taken as int]);
                assert(forall|j: int|
                    0 <= j < local@.len() ==> (#[trigger] local@[j])@ == local_tv[taken + 1 + j]);
            }
            table_insert(&mut func_table, c);
            taken += 1;
        }
        proof {
            assert(class_views(func_table@) == table_extend(table_pre, local_tv, 0));
        }
        method_calls.append(&mut local_method_calls);
        proof {
            assert(caller_views(method_calls@) =~= calls_pre + lv);
            assert(cg_phase1(programs@, i as int, edges_pre, table_pre, calls_pre) == cg_phase1(
                programs@,
                i + 1,
                edges@,
                class_views(func_table@),
                caller_views(method_calls@),
            ));
        }
        i += 1;
    }
    let ghost r1 = cg_phase1(programs@, 0, Map::empty(), Seq::empty(), Seq::empty());
    proof {
        assert(r1.0 == edges@);
        assert(r1.1 == class_views(func_table@));
    }
    let mut k: usize = 0;
    while k < programs.len()
        invariant
            crate::program::all_wf(programs@),
            k <= programs@.len(),
            edges.wf(),
            r1.1 == class_views(func_table@),
            cg_phase2(programs@, 0, r1.1, r1.0) == cg_phase2(programs@, k as int, r1.1, edges@),
        decreases programs@.len() - k,
    {
        let program = &programs[k];
        proof {
            assert(programs@[k as int].wf());
        }
        let local_imports = get_imports(&program.tree);
        let local_method_calls = get_method_calls(&program.tree);
        let links = create_links(&func_table, &local_method_calls, Some(&local_imports));
        edges.merge_from(&links);
        k += 1;
    }
    edges
}

} // verus!
