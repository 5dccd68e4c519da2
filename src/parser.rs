use crate::aliases::{alias_entries, lookup_alias, Alias};
use vstd::prelude::*;

verus! {

/// A byte range of the source text.
#[derive(Debug, Clone, Copy, Hash, PartialEq, Eq, Structural)]
pub struct Span {
    pub start: usize,
    pub end: usize,
}

/// What is wrong with a selector.
#[derive(Debug, Clone, Hash, PartialEq, Eq)]
pub enum SelectorError {
    LastIsNotDotOrName,
    OutOfIndex,
    Neither(String),
    Local,
}

/// A semantic error found while a document is built or checked.
#[derive(Debug, Clone, Hash, PartialEq, Eq)]
pub enum ParseError {
    MultipleNameDefine(Span),
    DuplicateNames(String, Span),
    DuplicateAlias(String, Span),
    AliasConflictWithNames(String, Span),
    MissingNames,
    Selector(SelectorError, Span),
}

/// The mathematical value of a [`SelectorError`].
pub enum SelectorFault {
    LastIsNotDotOrName,
    OutOfIndex,
    Neither(Seq<char>),
    Local,
}

/// The mathematical value of a [`ParseError`].
pub enum Fault {
    MultipleNameDefine(Span),
    DuplicateNames(Seq<char>, Span),
    DuplicateAlias(Seq<char>, Span),
    AliasConflictWithNames(Seq<char>, Span),
    MissingNames,
    Selector(SelectorFault, Span),
}

impl View for SelectorError {
    type V = SelectorFault;

    open spec fn view(&self) -> SelectorFault {
        match self {
            SelectorError::LastIsNotDotOrName => SelectorFault::LastIsNotDotOrName,
            SelectorError::OutOfIndex => SelectorFault::OutOfIndex,
            SelectorError::Neither(s) => SelectorFault::Neither(s@),
            SelectorError::Local => SelectorFault::Local,
        }
    }
}

impl View for ParseError {
    type V = Fault;

    open spec fn view(&self) -> Fault {
        match self {
            ParseError::MultipleNameDefine(sp) => Fault::MultipleNameDefine(*sp),
            ParseError::DuplicateNames(n, sp) => Fault::DuplicateNames(n@, *sp),
            ParseError::DuplicateAlias(n, sp) => Fault::DuplicateAlias(n@, *sp),
            ParseError::AliasConflictWithNames(n, sp) => Fault::AliasConflictWithNames(n@, *sp),
            ParseError::MissingNames => Fault::MissingNames,
            ParseError::Selector(e, sp) => Fault::Selector(e@, *sp),
        }
    }
}

/// The values of a list of errors.
pub open spec fn faults(v: Seq<ParseError>) -> Seq<Fault> {
    v.map_values(|e: ParseError| e@)
}

/// Where a node stands in the source, and the alias it was given.
#[derive(Debug, Clone)]
pub struct NodeMeta {
    pub span: Span,
    pub alias: Option<String>,
}

/// The kinds of node.
#[derive(Debug)]
pub enum NodeKind {
    /// One sentence for each declared name, in the names' order.
    Sen(Vec<String>),
    /// Content for the listed names, or for every name when there is no list.
    All { all_or_names: Option<Vec<String>>, content: String },
    /// A heading of the given level with its title, and what lies under it.
    Section { level: usize, content: String, aliases: Alias, children: Vec<AST> },
    /// The document's root.
    Top { aliases: Alias, children: Vec<AST> },
    /// A path into the document; `local` ones start at the enclosing section.
    Selector { local: bool, path: Vec<String>, trailing_dot: bool },
}

/// A node of the document tree.
#[derive(Debug)]
pub struct AST {
    pub node: NodeKind,
    pub meta: NodeMeta,
}

/// A built document: the declared names and the tree.
#[derive(Debug)]
pub struct Document {
    pub names: Vec<String>,
    pub ast: AST,
}

/// Whether the node holds children (a section or the root).
pub open spec fn section_like(a: AST) -> bool {
    a.node is Section || a.node is Top
}

/// The node's children; none for a leaf.
pub open spec fn kids(a: AST) -> Seq<AST> {
    match a.node {
        NodeKind::Section { children, .. } => children@,
        NodeKind::Top { children, .. } => children@,
        _ => seq![],
    }
}

/// The node's alias table; empty for a leaf.
pub open spec fn table(a: AST) -> Map<Seq<char>, usize> {
    match a.node {
        NodeKind::Section { aliases, .. } => alias_entries(aliases),
        NodeKind::Top { aliases, .. } => alias_entries(aliases),
        _ => Map::empty(),
    }
}

/// Whether a node is a selector.
pub open spec fn is_selector(a: AST) -> bool {
    a.node is Selector
}

/// Holds of the nodes that a numeric path segment counts.
pub open spec fn countable() -> spec_fn(AST) -> bool {
    |c: AST| !is_selector(c)
}

/// The children that a numeric path segment counts: all but the selectors.
pub open spec fn addressable(s: Seq<AST>) -> Seq<AST> {
    s.filter(countable())
}

/// The view of an optional string.
pub open spec fn opt_str(o: Option<String>) -> Option<Seq<char>> {
    match o {
        Some(s) => Some(s@),
        None => None,
    }
}

/// The alias that a node carries.
pub open spec fn alias_of(a: AST) -> Option<Seq<char>> {
    opt_str(a.meta.alias)
}

/// `t` is the alias table of the children `ks`: each alias that a child
/// carries names the last child that carries it.
pub open spec fn table_ok(t: Map<Seq<char>, usize>, ks: Seq<AST>) -> bool {
    &&& forall|a: Seq<char>|
        #[trigger] t.contains_key(a) <==> exists|n: int| 0 <= n < ks.len() && alias_of(ks[n]) == Some(a)
    &&& forall|a: Seq<char>|
        #[trigger] t.contains_key(a) ==> t[a] < ks.len() && alias_of(ks[t[a] as int]) == Some(a)
            && forall|m: int| t[a] < m < ks.len() ==> alias_of(#[trigger] ks[m]) != Some(a)
}

/// Every alias table, at every depth, is the table of its node's children.
pub open spec fn wf(a: AST) -> bool
    decreases a,
{
    &&& table_ok(table(a), kids(a))
    &&& forall|i: int| 0 <= i < kids(a).len() ==> wf(#[trigger] kids(a)[i])
}

/// Whether every character of `s` is a decimal digit.
pub open spec fn all_digits(s: Seq<char>) -> bool {
    forall|i: int| 0 <= i < s.len() ==> '0' <= #[trigger] s[i] <= '9'
}

/// The number that the decimal digits `s` spell.
pub open spec fn digits_value(s: Seq<char>) -> nat
    decreases s.len(),
{
    if s.len() == 0 {
        0
    } else {
        digits_value(s.drop_last()) * 10 + ((s.last() as u32 - '0' as u32) as nat)
    }
}

/// What `usize::from_str` reads from `s`: an optional `+` and one or more
/// decimal digits whose value fits.
pub open spec fn index_value(s: Seq<char>) -> Option<nat> {
    let d = if s.len() > 0 && s[0] == '+' {
        s.skip(1)
    } else {
        s
    };
    if d.len() > 0 && all_digits(d) && digits_value(d) <= usize::MAX {
        Some(digits_value(d))
    } else {
        None
    }
}

/// Where a walk along a selector's path ends.
pub enum Walk {
    Reached(AST),
    OutOfIndex,
    Neither(Seq<char>),
}

/// Follows `path` from `a`: each segment is first an alias of the current
/// node, else the index of one of its non-selector children. The walk stops
/// at a node that holds no children.
pub open spec fn walk(a: AST, path: Seq<Seq<char>>) -> Walk
    decreases path.len(),
{
    if path.len() == 0 || !section_like(a) {
        Walk::Reached(a)
    } else {
        let k = path[0];
        if table(a).contains_key(k) {
            walk(kids(a)[table(a)[k] as int], path.skip(1))
        } else if index_value(k) is Some {
            let i = index_value(k)->0;
            if i < addressable(kids(a)).len() {
                walk(addressable(kids(a))[i as int], path.skip(1))
            } else {
                Walk::OutOfIndex
            }
        } else {
            Walk::Neither(k)
        }
    }
}

/// The views of a list of strings.
pub open spec fn strs(v: Seq<String>) -> Seq<Seq<char>> {
    v.map_values(|s: String| s@)
}

/// The segments that are walked: all of them after a trailing dot or on an
/// empty path, else all but the last, which names a target.
pub open spec fn walked(path: Seq<Seq<char>>, trailing_dot: bool) -> Seq<Seq<char>> {
    if trailing_dot || path.len() == 0 {
        path
    } else {
        path.drop_last()
    }
}

/// Whether the selector ends in a name to render for.
pub open spec fn names_target(path: Seq<Seq<char>>, trailing_dot: bool) -> bool {
    !trailing_dot && path.len() > 0
}

proof fn lemma_digits_grow(s: Seq<char>, k: int)
    requires
        0 <= k <= s.len(),
    ensures
        digits_value(s.take(k)) <= digits_value(s),
    decreases s.len() - k,
{
    if k < s.len() {
        lemma_digits_grow(s, k + 1);
        assert(s.take(k + 1).drop_last() =~= s.take(k));
        assert(digits_value(s.take(k + 1)) == digits_value(s.take(k)) * 10 + ((s.take(k
            + 1).last() as u32 - '0' as u32) as nat));
    } else {
        assert(s.take(k) =~= s);
    }
}

/// Reads a path segment as a child index, as `usize::from_str` does.
pub fn parse_index(s: &String) -> (r: Option<usize>)
    ensures
        r matches Some(v) ==> index_value(s@) == Some(v as nat),
        r is None ==> index_value(s@) is None,
{
    let cs = crate::formatter::chars_of(s.as_str());
    assert(cs@ == s@);
    let mut i: usize = 0;
    if cs.len() > 0 && cs[0] == '+' {
        i = 1;
    }
    let ghost d = if cs@.len() > 0 && cs@[0] == '+' {
        cs@.skip(1)
    } else {
        cs@
    };
    let start = i;
    assert(d =~= cs@.skip(start as int));
    if i >= cs.len() {
        return None;
    }
    let mut v: usize = 0;
    while i < cs.len()
        invariant
            start <= i <= cs@.len(),
            d =~= cs@.skip(start as int),
            cs@ == s@,
            d == (if s@.len() > 0 && s@[0] == '+' {
                s@.skip(1)
            } else {
                s@
            }),
            all_digits(d.take(i - start)),
            v as nat == digits_value(d.take(i - start)),
        decreases cs.len() - i,
    {
        let c = cs[i];
        let ghost k = i - start;
        assert(d.take(k + 1).drop_last() =~= d.take(k));
        if c < '0' || c > '9' {
            assert(d[k as int] == c);
            assert(!all_digits(d));
            return None;
        }
        let digit = (c as u32 - '0' as u32) as usize;
        if v > (usize::MAX - digit) / 10 {
            proof {
                lemma_digits_grow(d, k + 1);
            }
            assert(digits_value(d.take(k + 1)) > usize::MAX) by (nonlinear_arith)
                requires
                    v > (usize::MAX - digit) / 10,
                    digits_value(d.take(k + 1)) == v * 10 + digit,
                    digit <= 9,
            ;
            return None;
        }
        v = v * 10 + digit;
        i = i + 1;
    }
    assert(d.take(i - start) =~= d);
    Some(v)
}

/// The result of a walk, as an exec value: the node reached or the fault.
pub open spec fn walk_gives(w: Walk, r: Result<&AST, SelectorError>) -> bool {
    match w {
        Walk::Reached(b) => r matches Ok(x) && *x == b,
        Walk::OutOfIndex => r matches Err(e) && e@ == SelectorFault::OutOfIndex,
        Walk::Neither(k) => r matches Err(e) && e@ == SelectorFault::Neither(k),
    }
}

/// The index among `children` of the `i`-th child that is not a selector.
fn nth_addressable(children: &Vec<AST>, i: usize) -> (r: Option<usize>)
    ensures
        r matches Some(j) ==> j < children@.len() && i < addressable(children@).len()
            && children@[j as int] == addressable(children@)[i as int],
        r is None ==> i >= addressable(children@).len(),
{
    let mut count: usize = 0;
    let mut j: usize = 0;
    while j < children.len()
        invariant
            j <= children@.len(),
            count == addressable(children@.take(j as int)).len(),
            count <= i,
        decreases children.len() - j,
    {
        let ghost pre = children@.take(j as int);
        assert(children@.take(j + 1) =~= pre.push(children@[j as int]));
        proof {
            pre.lemma_filter_push(children@[j as int], countable());
        }
        if !matches!(children[j].node, NodeKind::Selector { .. }) {
            if count == i {
                proof {
                    let whole = children@;
                    assert(whole =~= children@.take(j + 1) + whole.skip(j + 1));
                    Seq::filter_distributes_over_add(
                        children@.take(j + 1),
                        whole.skip(j + 1),
                        countable(),
                    );
                }
                return Some(j);
            }
            count = count + 1;
        }
        j = j + 1;
    }
    assert(children@.take(j as int) =~= children@);
    None
}

/// Follows the first `n` segments of `path` from `start`, as [`walk`] says.
pub fn walk_path<'a>(start: &'a AST, path: &Vec<String>, n: usize) -> (r: Result<
    &'a AST,
    SelectorError,
>)
    requires
        wf(*start),
        n <= path@.len(),
    ensures
        walk_gives(walk(*start, strs(path@).take(n as int)), r),
        r matches Ok(b) ==> wf(*b),
{
    let ghost p = strs(path@).take(n as int);
    let mut curr = start;
    let mut i: usize = 0;
    assert(p.skip(0) =~= p);
    while i < n
        invariant
            i <= n <= path@.len(),
            p == strs(path@).take(n as int),
            wf(*curr),
            walk(*start, p) == walk(*curr, p.skip(i as int)),
        decreases n - i,
    {
        let ghost rest = p.skip(i as int);
        assert(rest.skip(1) =~= p.skip(i + 1));
        assert(rest[0] == path@[i as int]@);
        match curr.take_section_like() {
            None => {
                return Ok(curr);
            },
            Some((aliases, children)) => {
                let k = &path[i];
                match lookup_alias(aliases, k) {
                    Some(idx) => {
                        curr = &children[idx];
                    },
                    None => {
                        match parse_index(k) {
                            Some(v) => {
                                match nth_addressable(children, v) {
                                    Some(j) => {
                                        proof {
                                            let ghost c = children@[j as int];
                                            assert(addressable(kids(*curr)).contains(c));
                                            kids(*curr).lemma_filter_contains_rev(countable(), c);
                                        }
                                        curr = &children[j];
                                    },
                                    None => {
                                        return Err(SelectorError::OutOfIndex);
                                    },
                                }
                            },
                            None => {
                                return Err(SelectorError::Neither(k.clone()));
                            },
                        }
                    },
                }
            },
        }
        i = i + 1;
    }
    assert(p.skip(i as int).len() == 0);
    Ok(curr)
}

/// Where the first declared name equal to `x` stands, if any.
pub open spec fn is_first_index(names: Seq<Seq<char>>, x: Seq<char>, i: int) -> bool {
    0 <= i < names.len() && names[i] == x && forall|j: int| 0 <= j < i ==> names[j] != x
}

/// The index of the first of `names` equal to `x`.
pub fn position_of(names: &Vec<String>, x: &String) -> (r: Option<usize>)
    ensures
        r matches Some(i) ==> is_first_index(strs(names@), x@, i as int),
        r is None ==> !strs(names@).contains(x@),
{
    let mut i: usize = 0;
    while i < names.len()
        invariant
            i <= names@.len(),
            forall|j: int| 0 <= j < i ==> strs(names@)[j] != x@,
        decreases names.len() - i,
    {
        if names[i] == *x {
            return Some(i);
        }
        i = i + 1;
    }
    assert(forall|j: int| 0 <= j < names@.len() ==> strs(names@)[j] != x@);
    None
}

/// The faults of a selector walked from `from`, all at the selector's span:
/// a last segment that is no declared name, then where the walk fails.
pub open spec fn selector_faults(names: Seq<Seq<char>>, sel: AST, from: AST) -> Seq<Fault> {
    match sel.node {
        NodeKind::Selector { path, trailing_dot, .. } => {
            let p = strs(path@);
            let sp = sel.meta.span;
            (if names_target(p, trailing_dot) && !names.contains(p.last()) {
                seq![Fault::Selector(SelectorFault::LastIsNotDotOrName, sp)]
            } else {
                seq![]
            }) + match walk(from, walked(p, trailing_dot)) {
                Walk::Reached(_) => seq![],
                Walk::OutOfIndex => seq![Fault::Selector(SelectorFault::OutOfIndex, sp)],
                Walk::Neither(k) => seq![Fault::Selector(SelectorFault::Neither(k), sp)],
            }
        },
        _ => seq![],
    }
}

/// Checks a selector walked from `from`: see [`selector_faults`].
pub fn check_selector_from(names: &Vec<String>, sel: &AST, from: &AST) -> (r: Vec<ParseError>)
    requires
        wf(*from),
    ensures
        faults(r@) == selector_faults(strs(names@), *sel, *from),
{
    let mut v: Vec<ParseError> = Vec::new();
    if let NodeKind::Selector { path, trailing_dot, .. } = &sel.node {
        let ghost p = strs(path@);
        let n = path.len();
        let mut walked_len = n;
        if !*trailing_dot && n > 0 {
            if position_of(names, &path[n - 1]).is_none() {
                v.push(ParseError::Selector(SelectorError::LastIsNotDotOrName, sel.get_span()));
            }
            walked_len = n - 1;
        }
        assert(p.take(walked_len as int) =~= walked(p, *trailing_dot));
        match walk_path(from, path, walked_len) {
            Ok(_) => {},
            Err(e) => {
                v.push(ParseError::Selector(e, sel.get_span()));
            },
        }
        assert(faults(v@) =~= selector_faults(strs(names@), *sel, *from));
    } else {
        assert(faults(v@) =~= seq![]);
    }
    v
}

/// The faults of a selector that must be global: `Local` alone for a local
/// one, else those of [`selector_faults`] walked from the root.
pub open spec fn global_selector_faults(doc: Document, sel: AST) -> Seq<Fault> {
    match sel.node {
        NodeKind::Selector { local, .. } => if local {
            seq![Fault::Selector(SelectorFault::Local, sel.meta.span)]
        } else {
            selector_faults(strs(doc.names@), sel, doc.ast)
        },
        _ => seq![],
    }
}

/// Checks a selector that must be global against a built document.
pub fn validate_non_local_selector(doc: &Document, sel: &AST) -> (r: Vec<ParseError>)
    requires
        wf(doc.ast),
    ensures
        faults(r@) == global_selector_faults(*doc, *sel),
{
    if let NodeKind::Selector { local, .. } = &sel.node {
        if *local {
            let v = vec![ParseError::Selector(SelectorError::Local, sel.get_span())];
            assert(faults(v@) =~= global_selector_faults(*doc, *sel));
            return v;
        }
    }
    check_selector_from(&doc.names, sel, &doc.ast)
}

/// Whether the node's span holds the offset, both ends included.
pub open spec fn spans(a: AST, pos: int) -> bool {
    a.meta.span.start <= pos <= a.meta.span.end
}

/// The innermost node under `a` whose span holds `pos`: children are
/// searched first, in order, and the first that gives a node wins; `a`
/// itself comes last.
pub open spec fn node_at(a: AST, pos: int) -> Option<AST>
    decreases a, kids(a).len() + 1,
{
    match node_at_kids(a, 0, pos) {
        Some(x) => Some(x),
        None => if spans(a, pos) {
            Some(a)
        } else {
            None
        },
    }
}

/// The first node that children `k` onwards of `a` give for `pos`.
pub open spec fn node_at_kids(a: AST, k: int, pos: int) -> Option<AST>
    decreases a, kids(a).len() - k,
{
    if k < 0 || k >= kids(a).len() {
        None
    } else {
        match node_at(kids(a)[k], pos) {
            Some(x) => Some(x),
            None => node_at_kids(a, k + 1, pos),
        }
    }
}

/// The node that holds, among its children, the node that [`node_at`]
/// finds under `a`; none where that node is `a` itself, or there is none.
pub open spec fn parent_at(a: AST, pos: int) -> Option<AST>
    decreases a, kids(a).len() + 1,
{
    parent_at_kids(a, 0, pos)
}

/// The container of the node that children `k` onwards of `a` give.
pub open spec fn parent_at_kids(a: AST, k: int, pos: int) -> Option<AST>
    decreases a, kids(a).len() - k,
{
    if k < 0 || k >= kids(a).len() {
        None
    } else if node_at(kids(a)[k], pos) is Some {
        match parent_at(kids(a)[k], pos) {
            Some(p) => Some(p),
            None => Some(a),
        }
    } else {
        parent_at_kids(a, k + 1, pos)
    }
}

/// Whether an exec lookup result is the node that the spec names.
pub open spec fn found(r: Option<&AST>, expect: Option<AST>) -> bool {
    match r {
        Some(x) => expect == Some(*x),
        None => expect is None,
    }
}

/// A selector node from its parts: it carries no alias.
pub fn parse_selector(span: Span, local: bool, path: Vec<String>, trailing_dot: bool) -> (r: AST)
    ensures
        r.meta.span == span,
        r.meta.alias is None,
        r.node == (NodeKind::Selector { local, path, trailing_dot }),
{
    AST { meta: NodeMeta { span, alias: None }, node: NodeKind::Selector { local, path, trailing_dot } }
}

/// The text that describes a selector fault.
pub open spec fn selector_message(e: SelectorFault) -> Seq<char> {
    match e {
        SelectorFault::LastIsNotDotOrName => "the last keyword is not dot or names"@,
        SelectorFault::OutOfIndex => "the number points outside the index."@,
        SelectorFault::Neither(k) => "neither a number nor an alias: "@ + k,
        SelectorFault::Local => "expected to be global selector , but found a local selector"@,
    }
}

/// The text that describes an error.
pub open spec fn error_message(e: Fault) -> Seq<char> {
    match e {
        Fault::MultipleNameDefine(_) => "names are defined more than once"@,
        Fault::DuplicateNames(n, _) => "the same names are defined more than once: "@ + n,
        Fault::DuplicateAlias(n, _) => "aliases are duplicated: "@ + n,
        Fault::AliasConflictWithNames(n, _) => "aliases and names are conflicted: "@ + n,
        Fault::MissingNames => "names are not defined"@,
        Fault::Selector(k, _) => "selector is incorrect: "@ + selector_message(k),
    }
}

impl SelectorError {
    /// Describes the fault in words.
    pub fn message(&self) -> (r: String)
        ensures
            r@ == selector_message(self@),
    {
        match self {
            SelectorError::LastIsNotDotOrName => String::from_str("the last keyword is not dot or names"),
            SelectorError::OutOfIndex => String::from_str("the number points outside the index."),
            SelectorError::Neither(k) => {
                let s = String::from_str("neither a number nor an alias: ");
                s.concat(k.as_str())
            },
            SelectorError::Local => String::from_str(
                "expected to be global selector , but found a local selector",
            ),
        }
    }
}

impl ParseError {
    /// Describes the error in words.
    pub fn message(&self) -> (r: String)
        ensures
            r@ == error_message(self@),
    {
        match self {
            ParseError::MultipleNameDefine(_) => String::from_str("names are defined more than once"),
            ParseError::DuplicateNames(n, _) => {
                let s = String::from_str("the same names are defined more than once: ");
                s.concat(n.as_str())
            },
            ParseError::DuplicateAlias(n, _) => {
                let s = String::from_str("aliases are duplicated: ");
                s.concat(n.as_str())
            },
            ParseError::AliasConflictWithNames(n, _) => {
                let s = String::from_str("aliases and names are conflicted: ");
                s.concat(n.as_str())
            },
            ParseError::MissingNames => String::from_str("names are not defined"),
            ParseError::Selector(e, _) => {
                let s = String::from_str("selector is incorrect: ");
                let m = e.message();
                s.concat(m.as_str())
            },
        }
    }

    /// The span an error is reported at; one that names no place is put at
    /// the first character.
    pub fn span(&self) -> (r: Span)
        ensures
            r == error_span(self@),
    {
        match self {
            ParseError::MultipleNameDefine(sp) => *sp,
            ParseError::DuplicateNames(_, sp) => *sp,
            ParseError::DuplicateAlias(_, sp) => *sp,
            ParseError::AliasConflictWithNames(_, sp) => *sp,
            ParseError::MissingNames => Span { start: 0, end: 1 },
            ParseError::Selector(_, sp) => *sp,
        }
    }
}

/// Where an error is reported: its own span, or the first character.
pub open spec fn error_span(e: Fault) -> Span {
    match e {
        Fault::MultipleNameDefine(sp) => sp,
        Fault::DuplicateNames(_, sp) => sp,
        Fault::DuplicateAlias(_, sp) => sp,
        Fault::AliasConflictWithNames(_, sp) => sp,
        Fault::MissingNames => Span { start: 0, end: 1 },
        Fault::Selector(_, sp) => sp,
    }
}

impl AST {
    /// The alias table and children of a section or of the root.
    pub fn take_section_like(&self) -> (r: Option<(&Alias, &Vec<AST>)>)
        ensures
            r is Some <==> section_like(*self),
            r matches Some(p) ==> alias_entries(*p.0) == table(*self) && p.1@ == kids(*self),
    {
        match &self.node {
            NodeKind::Top { aliases: a, children: v } => Some((a, v)),
            NodeKind::Section { aliases: a, children: v, .. } => Some((a, v)),
            _ => None,
        }
    }

    /// The innermost node whose span holds `position`: see [`node_at`].
    pub fn find_node_at_position(&self, position: usize) -> (r: Option<&AST>)
        ensures
            found(r, node_at(*self, position as int)),
        decreases self,
    {
        if let Some((_, children)) = self.take_section_like() {
            let mut k: usize = 0;
            while k < children.len()
                invariant
                    k <= children@.len(),
                    children@ == kids(*self),
                    node_at_kids(*self, 0, position as int) == node_at_kids(
                        *self,
                        k as int,
                        position as int,
                    ),
                decreases children.len() - k,
            {
                if let Some(found) = children[k].find_node_at_position(position) {
                    return Some(found);
                }
                k = k + 1;
            }
        }
        if self.meta.span.start <= position && position <= self.meta.span.end {
            Some(self)
        } else {
            None
        }
    }

    /// The node that holds, as one of its children, the innermost node whose
    /// span holds `position`: see [`parent_at`].
    pub fn find_parent_at_position(&self, position: usize) -> (r: Option<&AST>)
        ensures
            found(r, parent_at(*self, position as int)),
        decreases self,
    {
        if let Some((_, children)) = self.take_section_like() {
            let mut k: usize = 0;
            while k < children.len()
                invariant
                    k <= children@.len(),
                    children@ == kids(*self),
                    parent_at_kids(*self, 0, position as int) == parent_at_kids(
                        *self,
                        k as int,
                        position as int,
                    ),
                decreases children.len() - k,
            {
                if children[k].find_node_at_position(position).is_some() {
                    return match children[k].find_parent_at_position(position) {
                        Some(p) => Some(p),
                        None => Some(self),
                    };
                }
                k = k + 1;
            }
        }
        None
    }

    /// The node's source span.
    pub fn get_span(&self) -> (r: Span)
        ensures
            r == self.meta.span,
    {
        self.meta.span
    }
}

} // verus!
