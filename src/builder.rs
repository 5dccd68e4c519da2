use crate::aliases::{alias_entries, insert_alias, lookup_alias, new_aliases, Alias};
use crate::parser::{
    alias_of, check_selector_from, faults, kids, opt_str, selector_faults, strs, table, table_ok,
    wf, Document, Fault, NodeKind, NodeMeta, ParseError, SelectorError, Span, AST,
};
use vstd::prelude::*;

verus! {

/// A top-level item of a source document, as
/// [`SandParser`](crate::reader::SandParser) reads it, with the byte span it
/// covers.
#[derive(Debug)]
pub enum Item {
    /// `#(n1, n2, ...)`: the target names.
    Names { names: Vec<String>, span: Span },
    /// `#alias## title`: a heading whose level is the number of `#` after
    /// the alias.
    Section { alias: Option<String>, level: usize, title: String, span: Span },
    /// `#alias{[n1, n2], {text}}`: content for the listed names, or for all.
    All { alias: Option<String>, all_or_names: Option<Vec<String>>, content: String, span: Span },
    /// `#alias[t1][t2]...`: one sentence for each name.
    Sentences { alias: Option<String>, sentences: Vec<String>, span: Span },
    /// `#path.to.node.name`: a selector.
    Selector { local: bool, path: Vec<String>, trailing_dot: bool, span: Span },
}

/// Whether two errors are the same, field by field.
pub fn same_error(a: &ParseError, b: &ParseError) -> (r: bool)
    ensures
        r == (a@ == b@),
{
    match (a, b) {
        (ParseError::MultipleNameDefine(x), ParseError::MultipleNameDefine(y)) => *x == *y,
        (ParseError::DuplicateNames(m, x), ParseError::DuplicateNames(n, y)) => *x == *y && *m == *n,
        (ParseError::DuplicateAlias(m, x), ParseError::DuplicateAlias(n, y)) => *x == *y && *m == *n,
        (
            ParseError::AliasConflictWithNames(m, x),
            ParseError::AliasConflictWithNames(n, y),
        ) => *x == *y && *m == *n,
        (ParseError::MissingNames, ParseError::MissingNames) => true,
        (ParseError::Selector(e, x), ParseError::Selector(f, y)) => {
            *x == *y && match (e, f) {
                (SelectorError::LastIsNotDotOrName, SelectorError::LastIsNotDotOrName) => true,
                (SelectorError::OutOfIndex, SelectorError::OutOfIndex) => true,
                (SelectorError::Neither(m), SelectorError::Neither(n)) => *m == *n,
                (SelectorError::Local, SelectorError::Local) => true,
                _ => false,
            }
        },
        _ => false,
    }
}

/// Adds an error to a list that holds each error once, unless it is there.
pub fn note(errs: &mut Vec<ParseError>, e: ParseError)
    requires
        faults(old(errs)@).no_duplicates(),
    ensures
        faults(final(errs)@).no_duplicates(),
        forall|f: Fault|
            #[trigger] faults(final(errs)@).contains(f) <==> (faults(old(errs)@).contains(f) || f
                == e@),
{
    let mut i: usize = 0;
    while i < errs.len()
        invariant
            i <= errs@.len(),
            errs@ == old(errs)@,
            faults(errs@).no_duplicates(),
            forall|j: int| 0 <= j < i ==> errs@[j]@ != e@,
        decreases errs.len() - i,
    {
        if same_error(&errs[i], &e) {
            assert(faults(errs@)[i as int] == e@);
            return;
        }
        i = i + 1;
    }
    let ghost before = faults(errs@);
    errs.push(e);
    assert(faults(errs@) =~= before.push(e@));
    assert(!before.contains(e@));
    assert forall|f: Fault| #[trigger] faults(errs@).contains(f) <==> (before.contains(f) || f
        == e@) by {
        if f == e@ {
            assert(faults(errs@)[before.len() as int] == f);
        }
        if before.contains(f) {
            let j = choose|j: int| 0 <= j < before.len() && before[j] == f;
            assert(faults(errs@)[j] == f);
        }
    }
}

/// The view of an optional list of strings.
pub open spec fn opt_strs(o: Option<Vec<String>>) -> Option<Seq<Seq<char>>> {
    match o {
        Some(v) => Some(strs(v@)),
        None => None,
    }
}

/// Every section item has a positive level.
pub open spec fn levels_positive(items: Seq<Item>) -> bool {
    forall|j: int| 0 <= j < items.len() ==> (#[trigger] items[j] matches Item::Section { level, .. }
        ==> level >= 1)
}

/// The level of a heading; zero for other items.
pub open spec fn item_level(it: Item) -> nat {
    match it {
        Item::Section { level, .. } => level as nat,
        _ => 0,
    }
}

/// Whether the item is a heading that ends a section of level `lvl`.
pub open spec fn closes(it: Item, lvl: nat) -> bool {
    it matches Item::Section { level, .. } && level <= lvl
}

/// Where the content of a section of level `lvl` whose content starts at
/// `lo` ends: at the next heading of that level or higher, else at the end.
pub open spec fn scope_end(items: Seq<Item>, lo: int, lvl: nat) -> int
    decreases items.len() - lo,
{
    if lo >= items.len() {
        items.len() as int
    } else if closes(items[lo], lvl) {
        lo
    } else {
        scope_end(items, lo + 1, lvl)
    }
}

/// The node `a` is what the item makes, children aside.
pub open spec fn made_from(it: Item, a: AST) -> bool {
    match it {
        Item::Names { .. } => false,
        Item::Section { alias, level, title, span } => {
            &&& a.meta.span == span && alias_of(a) == opt_str(alias)
            &&& a.node matches NodeKind::Section { level: l, content, .. } && l == level && content@
                == title@
            &&& table_ok(table(a), kids(a))
        },
        Item::All { alias, all_or_names, content, span } => {
            &&& a.meta.span == span && alias_of(a) == opt_str(alias)
            &&& a.node matches NodeKind::All { all_or_names: x, content: c } && opt_strs(x)
                == opt_strs(all_or_names) && c@ == content@
        },
        Item::Sentences { alias, sentences, span } => {
            &&& a.meta.span == span && alias_of(a) == opt_str(alias)
            &&& a.node matches NodeKind::Sen(v) && strs(v@) == strs(sentences@)
        },
        Item::Selector { local, path, trailing_dot, span } => {
            &&& a.meta.span == span && a.meta.alias is None
            &&& a.node matches NodeKind::Selector { local: l, path: p, trailing_dot: t } && l
                == local && strs(p@) == strs(path@) && t == trailing_dot
        },
    }
}

proof fn lemma_scope_end_bounds(items: Seq<Item>, lo: int, lvl: nat)
    requires
        0 <= lo,
    ensures
        lo <= items.len() ==> lo <= scope_end(items, lo, lvl) <= items.len(),
    decreases items.len() - lo,
{
    if lo < items.len() && !closes(items[lo], lvl) {
        lemma_scope_end_bounds(items, lo + 1, lvl);
    }
}

#[via_fn]
proof fn forest_of_decreases(items: Seq<Item>, lo: int, lvl: nat, ks: Seq<AST>) {
    if 0 <= lo < items.len() {
        lemma_scope_end_bounds(items, lo + 1, lvl);
        lemma_scope_end_bounds(items, lo + 1, item_level(items[lo]));
    }
}

/// `ks` are the nodes that the items from `lo` on make inside a section of
/// level `lvl`: each heading takes in what follows it up to the next heading
/// of its own level or higher; name declarations make no node.
pub open spec fn forest_of(items: Seq<Item>, lo: int, lvl: nat, ks: Seq<AST>) -> bool
    decreases items.len() - lo,
    via forest_of_decreases
{
    if lo < 0 || lo >= items.len() || closes(items[lo], lvl) {
        ks.len() == 0
    } else if items[lo] is Names {
        forest_of(items, lo + 1, lvl, ks)
    } else if items[lo] is Section {
        &&& ks.len() > 0
        &&& made_from(items[lo], ks[0])
        &&& forest_of(items, lo + 1, item_level(items[lo]), kids(ks[0]))
        &&& forest_of(items, scope_end(items, lo + 1, item_level(items[lo])), lvl, ks.skip(1))
    } else {
        &&& ks.len() > 0
        &&& made_from(items[lo], ks[0])
        &&& forest_of(items, lo + 1, lvl, ks.skip(1))
    }
}

/// Two children of one node share an alias, and `f` reports one of them.
pub open spec fn dup_fault(f: Fault, ks: Seq<AST>) -> bool {
    exists|n: int, m: int|
        0 <= n < ks.len() && 0 <= m < ks.len() && n != m && alias_of(#[trigger] ks[n]) is Some
            && alias_of(ks[n]) == alias_of(#[trigger] ks[m]) && f == Fault::DuplicateAlias(
            alias_of(ks[n])->0,
            ks[n].meta.span,
        )
}

/// `f` reports two children that share an alias somewhere under `a`.
pub open spec fn alias_fault_in(f: Fault, a: AST) -> bool
    decreases a,
{
    dup_fault(f, kids(a)) || exists|k: int|
        0 <= k < kids(a).len() && alias_fault_in(f, #[trigger] kids(a)[k])
}

/// `f` reports two siblings in `ks`, or under one of them, that share an alias.
pub open spec fn forest_alias_fault(f: Fault, ks: Seq<AST>) -> bool {
    dup_fault(f, ks) || exists|k: int| 0 <= k < ks.len() && alias_fault_in(f, #[trigger] ks[k])
}

/// A copy of a list of strings.
fn clone_strs(v: &Vec<String>) -> (r: Vec<String>)
    ensures
        strs(r@) == strs(v@),
{
    let mut out: Vec<String> = Vec::new();
    let mut i: usize = 0;
    while i < v.len()
        invariant
            i <= v@.len(),
            strs(out@) =~= strs(v@.take(i as int)),
        decreases v.len() - i,
    {
        let c = v[i].clone();
        assert(c@ == v@[i as int]@);
        let ghost before = out@;
        out.push(c);
        assert(strs(out@) =~= strs(before).push(c@));
        assert(v@.take(i + 1) =~= v@.take(i as int).push(v@[i as int]));
        i = i + 1;
        assert(strs(out@) =~= strs(v@.take(i as int)));
    }
    assert(v@.take(i as int) =~= v@);
    out
}

/// A copy of an optional string.
fn clone_opt_str(o: &Option<String>) -> (r: Option<String>)
    ensures
        opt_str(r) == opt_str(*o),
{
    match o {
        Some(s) => Some(s.clone()),
        None => None,
    }
}

/// Adds the child `c` to a node's children and alias table; where its alias
/// is taken already, both the new child and the one that held it are
/// reported.
fn attach(children: &mut Vec<AST>, aliases: &mut Alias, c: AST, errs: &mut Vec<ParseError>)
    requires
        table_ok(alias_entries(*old(aliases)), old(children)@),
        faults(old(errs)@).no_duplicates(),
        forall|f: Fault| dup_fault(f, old(children)@) ==> faults(old(errs)@).contains(f),
    ensures
        final(children)@ == old(children)@.push(c),
        table_ok(alias_entries(*final(aliases)), final(children)@),
        faults(final(errs)@).no_duplicates(),
        forall|f: Fault|
            #[trigger] faults(final(errs)@).contains(f) <==> (faults(old(errs)@).contains(f)
                || dup_fault(f, final(children)@)),
{
    let ghost ks = children@;
    let ghost t = alias_entries(*aliases);
    let ghost ks2 = ks.push(c);
    let idx = children.len();
    let span = c.meta.span;
    let ghost e0 = faults(errs@);
    match &c.meta.alias {
        Some(a) => {
            match insert_alias(aliases, a.clone(), idx) {
                Some(p) => {
                    let held = children[p].meta.span;
                    note(errs, ParseError::DuplicateAlias(a.clone(), span));
                    note(errs, ParseError::DuplicateAlias(a.clone(), held));
                    proof {
                        assert(ks2[idx as int] == c);
                        assert(ks2[p as int] == ks[p as int]);
                        assert(dup_fault(Fault::DuplicateAlias(a@, span), ks2));
                        assert(dup_fault(Fault::DuplicateAlias(a@, held), ks2));
                    }
                },
                None => {},
            }
        },
        None => {},
    }
    children.push(c);
    proof {
        assert(children@ == ks2);
        let t2 = alias_entries(*aliases);
        assert forall|b: Seq<char>| #[trigger] t2.contains_key(b) <==> exists|n: int|
            0 <= n < ks2.len() && alias_of(ks2[n]) == Some(b) by {
            if t2.contains_key(b) && alias_of(c) != Some(b) {
                let n = choose|n: int| 0 <= n < ks.len() && alias_of(ks[n]) == Some(b);
                assert(ks2[n] == ks[n]);
            }
            if alias_of(c) == Some(b) {
                assert(ks2[idx as int] == c);
            }
            if exists|n: int| 0 <= n < ks2.len() && alias_of(ks2[n]) == Some(b) {
                let n = choose|n: int| 0 <= n < ks2.len() && alias_of(ks2[n]) == Some(b);
                if n < ks.len() {
                    assert(ks2[n] == ks[n]);
                }
            }
        }
        assert forall|b: Seq<char>| #[trigger] t2.contains_key(b) implies t2[b] < ks2.len()
            && alias_of(ks2[t2[b] as int]) == Some(b) && forall|m: int|
            t2[b] < m < ks2.len() ==> alias_of(#[trigger] ks2[m]) != Some(b) by {
            if alias_of(c) != Some(b) {
                assert(t.contains_key(b));
                assert(ks2[t[b] as int] == ks[t[b] as int]);
                assert forall|m: int| t2[b] < m < ks2.len() implies alias_of(
                    #[trigger] ks2[m],
                ) != Some(b) by {
                    if m < ks.len() {
                        assert(ks2[m] == ks[m]);
                    }
                }
            }
        }
        assert forall|f: Fault| #[trigger] faults(errs@).contains(f) <==> (e0.contains(f)
            || dup_fault(f, ks2)) by {
            if dup_fault(f, ks2) && !dup_fault(f, ks) {
                let (n, m) = choose|n: int, m: int|
                    0 <= n < ks2.len() && 0 <= m < ks2.len() && n != m && alias_of(
                        #[trigger] ks2[n],
                    ) is Some && alias_of(ks2[n]) == alias_of(#[trigger] ks2[m]) && f
                        == Fault::DuplicateAlias(alias_of(ks2[n])->0, ks2[n].meta.span);
                let b = alias_of(ks2[n])->0;
                if n == idx as int {
                    assert(ks2[m] == ks[m]);
                    assert(t.contains_key(b));
                } else {
                    assert(ks2[n] == ks[n]);
                    assert(m == idx as int) by {
                        if m != idx as int {
                            assert(ks2[m] == ks[m]);
                            assert(dup_fault(f, ks));
                        }
                    }
                    assert(t.contains_key(b));
                    let p = t[b] as int;
                    assert(p == n) by {
                        if p != n {
                            assert(ks2[p] == ks[p]);
                            assert(alias_of(ks[p]) == alias_of(ks[n]));
                            assert(dup_fault(f, ks));
                        }
                    }
                }
            }
            if dup_fault(f, ks) {
                let (n, m) = choose|n: int, m: int|
                    0 <= n < ks.len() && 0 <= m < ks.len() && n != m && alias_of(
                        #[trigger] ks[n],
                    ) is Some && alias_of(ks[n]) == alias_of(#[trigger] ks[m]) && f
                        == Fault::DuplicateAlias(alias_of(ks[n])->0, ks[n].meta.span);
                assert(ks2[n] == ks[n] && ks2[m] == ks[m]);
            }
        }
    }
}

/// Whether the item is a heading that ends a section of level `lvl`.
fn closes_at(it: &Item, lvl: usize) -> (r: bool)
    ensures
        r == closes(*it, lvl as nat),
{
    match it {
        Item::Section { level, .. } => *level <= lvl,
        _ => false,
    }
}

/// The node that a sentence set, filtered content or selector item makes.
fn make_leaf(it: &Item) -> (r: AST)
    requires
        !(it is Names),
        !(it is Section),
    ensures
        made_from(*it, r),
        kids(r).len() == 0,
        wf(r),
{
    let r = match it {
        Item::All { alias, all_or_names, content, span } => {
            let targets = match all_or_names {
                Some(v) => Some(clone_strs(v)),
                None => None,
            };
            AST {
                node: NodeKind::All { all_or_names: targets, content: content.clone() },
                meta: NodeMeta { span: *span, alias: clone_opt_str(alias) },
            }
        },
        Item::Sentences { alias, sentences, span } => AST {
            node: NodeKind::Sen(clone_strs(sentences)),
            meta: NodeMeta { span: *span, alias: clone_opt_str(alias) },
        },
        Item::Selector { local, path, trailing_dot, span } => AST {
            node: NodeKind::Selector {
                local: *local,
                path: clone_strs(path),
                trailing_dot: *trailing_dot,
            },
            meta: NodeMeta { span: *span, alias: None },
        },
        _ => AST {
            node: NodeKind::Sen(Vec::new()),
            meta: NodeMeta { span: Span { start: 0, end: 0 }, alias: None },
        },
    };
    assert(wf(r));
    r
}

proof fn lemma_scope_nested(items: Seq<Item>, a: int, inner: nat, lvl: nat)
    requires
        0 <= a,
        lvl <= inner,
    ensures
        scope_end(items, a, lvl) == scope_end(items, scope_end(items, a, inner), lvl),
    decreases items.len() - a,
{
    if a < items.len() && !closes(items[a], inner) {
        lemma_scope_nested(items, a + 1, inner, lvl);
    }
}

proof fn lemma_forest_fault_push(ks: Seq<AST>, c: AST, f: Fault)
    ensures
        forest_alias_fault(f, ks.push(c)) <==> (forest_alias_fault(f, ks) || dup_fault(
            f,
            ks.push(c),
        ) || alias_fault_in(f, c)),
{
    let ks2 = ks.push(c);
    assert(ks2[ks.len() as int] == c);
    if exists|k: int| 0 <= k < ks.len() && alias_fault_in(f, #[trigger] ks[k]) {
        let k = choose|k: int| 0 <= k < ks.len() && alias_fault_in(f, #[trigger] ks[k]);
        assert(ks2[k] == ks[k]);
    }
    if dup_fault(f, ks) {
        let (n, m) = choose|n: int, m: int|
            0 <= n < ks.len() && 0 <= m < ks.len() && n != m && alias_of(#[trigger] ks[n]) is Some
                && alias_of(ks[n]) == alias_of(#[trigger] ks[m]) && f == Fault::DuplicateAlias(
                alias_of(ks[n])->0,
                ks[n].meta.span,
            );
        assert(ks2[n] == ks[n] && ks2[m] == ks[m]);
    }
    if exists|k: int| 0 <= k < ks2.len() && alias_fault_in(f, #[trigger] ks2[k]) {
        let k = choose|k: int| 0 <= k < ks2.len() && alias_fault_in(f, #[trigger] ks2[k]);
        if k < ks.len() {
            assert(ks2[k] == ks[k]);
        }
    }
}

/// Builds the nodes that the items from `lo` on make inside a section of
/// level `lvl`, with their alias table, and tells where that section ends.
fn build_forest(items: &Vec<Item>, lo: usize, lvl: usize, errs: &mut Vec<ParseError>) -> (r: (
    Vec<AST>,
    Alias,
    usize,
))
    requires
        lo <= items@.len(),
        levels_positive(items@),
        faults(old(errs)@).no_duplicates(),
    ensures
        forest_of(items@, lo as int, lvl as nat, r.0@),
        table_ok(alias_entries(r.1), r.0@),
        r.2 == scope_end(items@, lo as int, lvl as nat),
        forall|k: int| 0 <= k < r.0@.len() ==> wf(#[trigger] r.0@[k]),
        faults(final(errs)@).no_duplicates(),
        forall|f: Fault|
            #[trigger] faults(final(errs)@).contains(f) <==> (faults(old(errs)@).contains(f)
                || forest_alias_fault(f, r.0@)),
    decreases items@.len() - lo,
{
    let mut children: Vec<AST> = Vec::new();
    let mut aliases = new_aliases();
    let mut i = lo;
    proof {
        assert forall|rest: Seq<AST>| #[trigger]
            forest_of(items@, i as int, lvl as nat, rest) implies forest_of(
            items@,
            lo as int,
            lvl as nat,
            children@ + rest,
        ) by {
            assert(children@ + rest =~= rest);
        }
    }
    while i < items.len() && !closes_at(&items[i], lvl)
        invariant
            lo <= i <= items@.len(),
            levels_positive(items@),
            scope_end(items@, lo as int, lvl as nat) == scope_end(items@, i as int, lvl as nat),
            forall|rest: Seq<AST>| #[trigger]
                forest_of(items@, i as int, lvl as nat, rest) ==> forest_of(
                    items@,
                    lo as int,
                    lvl as nat,
                    children@ + rest,
                ),
            table_ok(alias_entries(aliases), children@),
            forall|k: int| 0 <= k < children@.len() ==> wf(#[trigger] children@[k]),
            faults(errs@).no_duplicates(),
            forall|f: Fault|
                #[trigger] faults(errs@).contains(f) <==> (faults(old(errs)@).contains(f)
                    || forest_alias_fault(f, children@)),
        decreases items@.len() - i,
    {
        let ghost ks = children@;
        if let Item::Names { .. } = &items[i] {
            proof {
                assert forall|rest: Seq<AST>| #[trigger]
                    forest_of(items@, i + 1, lvl as nat, rest) implies forest_of(
                    items@,
                    lo as int,
                    lvl as nat,
                    ks + rest,
                ) by {
                    assert(forest_of(items@, i as int, lvl as nat, rest));
                }
            }
            i = i + 1;
            continue ;
        }
        let next;
        let node;
        if let Item::Section { alias, level, title, span } = &items[i] {
            let (sub, sub_aliases, end) = build_forest(items, i + 1, *level, errs);
            node = AST {
                node: NodeKind::Section {
                    level: *level,
                    content: title.clone(),
                    aliases: sub_aliases,
                    children: sub,
                },
                meta: NodeMeta { span: *span, alias: clone_opt_str(alias) },
            };
            proof {
                lemma_scope_end_bounds(items@, i + 1, *level as nat);
                lemma_scope_nested(items@, i + 1, *level as nat, lvl as nat);
            }
            next = end;
        } else {
            node = make_leaf(&items[i]);
            next = i + 1;
        }
        proof {
            assert(made_from(items@[i as int], node));
            assert(wf(node));
            assert forall|f: Fault| dup_fault(f, ks) implies faults(errs@).contains(f) by {
                lemma_forest_fault_push(ks, node, f);
            }
        }
        attach(&mut children, &mut aliases, node, errs);
        proof {
            let ks2 = children@;
            assert(ks2[ks.len() as int] == node);
            assert forall|k: int| 0 <= k < ks2.len() implies wf(#[trigger] ks2[k]) by {
                if k < ks.len() {
                    assert(ks2[k] == ks[k]);
                }
            }
            assert forall|f: Fault| #[trigger] faults(errs@).contains(f) <==> (faults(
                old(errs)@,
            ).contains(f) || forest_alias_fault(f, ks2)) by {
                lemma_forest_fault_push(ks, node, f);
            }
            assert forall|rest: Seq<AST>| #[trigger]
                forest_of(items@, next as int, lvl as nat, rest) implies forest_of(
                items@,
                lo as int,
                lvl as nat,
                ks2 + rest,
            ) by {
                let here = seq![node] + rest;
                assert(here.skip(1) =~= rest);
                assert(here[0] == node);
                assert(forest_of(items@, i as int, lvl as nat, here));
                assert(ks + here =~= ks2 + rest);
            }
        }
        i = next;
    }
    proof {
        assert(forest_of(items@, i as int, lvl as nat, seq![]));
        assert(children@ + seq![] =~= children@);
    }
    (children, aliases, i)
}

/// The span of an item.
pub open spec fn item_span(it: Item) -> Span {
    match it {
        Item::Names { span, .. } => span,
        Item::Section { span, .. } => span,
        Item::All { span, .. } => span,
        Item::Sentences { span, .. } => span,
        Item::Selector { span, .. } => span,
    }
}

/// The names that the last declaration in `items` declares, if there is one.
pub open spec fn declared(items: Seq<Item>) -> Option<Seq<Seq<char>>>
    decreases items.len(),
{
    if items.len() == 0 {
        None
    } else if items.last() is Names {
        match items.last() {
            Item::Names { names, .. } => Some(strs(names@)),
            _ => None,
        }
    } else {
        declared(items.drop_last())
    }
}

/// `f` reports a name that one declaration lists twice.
pub open spec fn repeated_name(f: Fault, names: Seq<Seq<char>>, span: Span) -> bool {
    exists|p: int, q: int|
        0 <= p < q < names.len() && #[trigger] names[p] == #[trigger] names[q] && f == Fault::DuplicateNames(
            names[q],
            span,
        )
}

/// `f` reports a declaration when there are two or more, or a name that one
/// declaration lists twice.
pub open spec fn name_fault(f: Fault, items: Seq<Item>) -> bool {
    ||| (exists|a: int, b: int|
        0 <= a < items.len() && 0 <= b < items.len() && a != b && #[trigger] items[a] is Names
            && #[trigger] items[b] is Names) && exists|j: int|
        0 <= j < items.len() && #[trigger] items[j] is Names && f == Fault::MultipleNameDefine(
            item_span(items[j]),
        )
    ||| exists|j: int|
        0 <= j < items.len() && #[trigger] items[j] is Names && match items[j] {
            Item::Names { names, span } => repeated_name(f, strs(names@), span),
            _ => false,
        }
}

/// Reports each name of one declaration that an earlier entry already lists.
fn note_repeated_names(names: &Vec<String>, span: Span, errs: &mut Vec<ParseError>)
    requires
        faults(old(errs)@).no_duplicates(),
    ensures
        faults(final(errs)@).no_duplicates(),
        forall|f: Fault|
            #[trigger] faults(final(errs)@).contains(f) <==> (faults(old(errs)@).contains(f)
                || repeated_name(f, strs(names@), span)),
{
    let ghost ns = strs(names@);
    let mut q: usize = 0;
    while q < names.len()
        invariant
            q <= names@.len(),
            ns == strs(names@),
            faults(errs@).no_duplicates(),
            forall|f: Fault|
                #[trigger] faults(errs@).contains(f) <==> (faults(old(errs)@).contains(f) || exists|
                    p: int,
                    r: int,
                |
                    0 <= p < r < q && #[trigger] ns[p] == #[trigger] ns[r] && f == Fault::DuplicateNames(
                        ns[r],
                        span,
                    )),
        decreases names.len() - q,
    {
        let mut p: usize = 0;
        let mut seen = false;
        while p < q
            invariant
                p <= q < names@.len(),
                ns == strs(names@),
                seen == exists|x: int| 0 <= x < p && ns[x] == ns[q as int],
            decreases q - p,
        {
            if names[p] == names[q] {
                seen = true;
            }
            proof {
                assert(ns[p as int] == names@[p as int]@ && ns[q as int] == names@[q as int]@);
                if seen && !(exists|x: int| 0 <= x < p && ns[x] == ns[q as int]) {
                    assert(ns[p as int] == ns[q as int]);
                }
            }
            p = p + 1;
        }
        let ghost e0 = faults(errs@);
        if seen {
            note(errs, ParseError::DuplicateNames(names[q].clone(), span));
        }
        proof {
            assert forall|f: Fault| #[trigger] faults(errs@).contains(f) <==> (faults(
                old(errs)@,
            ).contains(f) || exists|p: int, r: int|
                0 <= p < r < q + 1 && #[trigger] ns[p] == #[trigger] ns[r] && f == Fault::DuplicateNames(
                    ns[r],
                    span,
                )) by {
                if seen && f == Fault::DuplicateNames(ns[q as int], span) {
                    let x = choose|x: int| 0 <= x < q && ns[x] == ns[q as int];
                    assert(0 <= x < q as int && ns[x] == ns[q as int]);
                }
            }
        }
        q = q + 1;
    }
    assert forall|f: Fault| #[trigger] faults(errs@).contains(f) <==> (faults(old(errs)@).contains(
        f,
    ) || repeated_name(f, ns, span)) by {
        if repeated_name(f, ns, span) {
            let (p, r) = choose|p: int, r: int|
                0 <= p < r < ns.len() && #[trigger] ns[p] == #[trigger] ns[r] && f == Fault::DuplicateNames(
                    ns[r],
                    span,
                );
            assert(0 <= p < r < q && ns[p] == ns[r]);
        }
    }
}

/// The names that a declaration item lists.
pub open spec fn names_in(it: Item) -> Seq<Seq<char>> {
    match it {
        Item::Names { names, .. } => strs(names@),
        _ => seq![],
    }
}

/// Whether `f` reports a declaration among `items`, there being two or more.
spec fn repeated_declaration(f: Fault, items: Seq<Item>) -> bool {
    (exists|a: int, b: int|
        0 <= a < items.len() && 0 <= b < items.len() && a != b && #[trigger] items[a] is Names
            && #[trigger] items[b] is Names) && exists|j: int|
        0 <= j < items.len() && #[trigger] items[j] is Names && f == Fault::MultipleNameDefine(
            item_span(items[j]),
        )
}

/// Whether `f` reports a name listed twice by a declaration among `items`.
spec fn repeated_in_declaration(f: Fault, items: Seq<Item>) -> bool {
    exists|j: int|
        0 <= j < items.len() && #[trigger] items[j] is Names && repeated_name(
            f,
            names_in(items[j]),
            item_span(items[j]),
        )
}

proof fn lemma_name_fault_split(f: Fault, items: Seq<Item>)
    ensures
        name_fault(f, items) <==> (repeated_declaration(f, items) || repeated_in_declaration(
            f,
            items,
        )),
{
    if repeated_in_declaration(f, items) {
        let j = choose|j: int|
            0 <= j < items.len() && #[trigger] items[j] is Names && repeated_name(
                f,
                names_in(items[j]),
                item_span(items[j]),
            );
        assert(items[j] is Names);
    }
    if exists|j: int|
        0 <= j < items.len() && #[trigger] items[j] is Names && match items[j] {
            Item::Names { names, span } => repeated_name(f, strs(names@), span),
            _ => false,
        } {
        let j = choose|j: int|
            0 <= j < items.len() && #[trigger] items[j] is Names && match items[j] {
                Item::Names { names, span } => repeated_name(f, strs(names@), span),
                _ => false,
            };
        assert(repeated_name(f, names_in(items[j]), item_span(items[j])));
    }
}

/// Appending an item that declares no names changes no name fault.
proof fn lemma_name_fault_other(f: Fault, s: Seq<Item>, it: Item)
    requires
        !(it is Names),
    ensures
        name_fault(f, s.push(it)) == name_fault(f, s),
{
    let s2 = s.push(it);
    lemma_name_fault_split(f, s);
    lemma_name_fault_split(f, s2);
    assert(forall|k: int| 0 <= k < s.len() ==> s2[k] == #[trigger] s[k]);
    assert(!(s2[s.len() as int] is Names));
    if repeated_declaration(f, s2) {
        let (a, b) = choose|a: int, b: int|
            0 <= a < s2.len() && 0 <= b < s2.len() && a != b && #[trigger] s2[a] is Names
                && #[trigger] s2[b] is Names;
        assert(s[a] is Names && s[b] is Names);
        let k = choose|k: int|
            0 <= k < s2.len() && #[trigger] s2[k] is Names && f == Fault::MultipleNameDefine(
                item_span(s2[k]),
            );
        assert(s[k] is Names);
    }
    if repeated_declaration(f, s) {
        let (a, b) = choose|a: int, b: int|
            0 <= a < s.len() && 0 <= b < s.len() && a != b && #[trigger] s[a] is Names
                && #[trigger] s[b] is Names;
        assert(s2[a] is Names && s2[b] is Names);
        let k = choose|k: int|
            0 <= k < s.len() && #[trigger] s[k] is Names && f == Fault::MultipleNameDefine(
                item_span(s[k]),
            );
        assert(s2[k] is Names);
    }
    if repeated_in_declaration(f, s2) {
        let k = choose|k: int|
            0 <= k < s2.len() && #[trigger] s2[k] is Names && repeated_name(
                f,
                names_in(s2[k]),
                item_span(s2[k]),
            );
        assert(s[k] is Names);
    }
    if repeated_in_declaration(f, s) {
        let k = choose|k: int|
            0 <= k < s.len() && #[trigger] s[k] is Names && repeated_name(
                f,
                names_in(s[k]),
                item_span(s[k]),
            );
        assert(s2[k] is Names);
    }
}

/// Appending a declaration adds the names it lists twice and, where `held`
/// is the last earlier declaration, both declarations.
proof fn lemma_name_fault_decl(f: Fault, s: Seq<Item>, it: Item, held: Option<int>)
    requires
        it is Names,
        held matches Some(j) ==> 0 <= j < s.len() && s[j] is Names,
        held is None ==> forall|k: int| 0 <= k < s.len() ==> !(#[trigger] s[k] is Names),
    ensures
        name_fault(f, s.push(it)) <==> (name_fault(f, s) || repeated_name(
            f,
            names_in(it),
            item_span(it),
        ) || (held matches Some(j) && (f == Fault::MultipleNameDefine(item_span(it)) || f
            == Fault::MultipleNameDefine(item_span(s[j]))))),
{
    let s2 = s.push(it);
    let n = s.len() as int;
    lemma_name_fault_split(f, s);
    lemma_name_fault_split(f, s2);
    assert(forall|k: int| 0 <= k < s.len() ==> s2[k] == #[trigger] s[k]);
    assert(s2[n] == it);
    if let Some(j) = held {
        assert(s2[j] is Names && s2[n] is Names);
    }
    if repeated_declaration(f, s2) && !(held matches Some(j) && (f
        == Fault::MultipleNameDefine(item_span(it)) || f == Fault::MultipleNameDefine(
        item_span(s[j]),
    ))) {
        let (a, b) = choose|a: int, b: int|
            0 <= a < s2.len() && 0 <= b < s2.len() && a != b && #[trigger] s2[a] is Names
                && #[trigger] s2[b] is Names;
        let k = choose|k: int|
            0 <= k < s2.len() && #[trigger] s2[k] is Names && f == Fault::MultipleNameDefine(
                item_span(s2[k]),
            );
        if held is None {
            assert(a == n || b == n);
            if a == n {
                assert(s[b] is Names);
            } else {
                assert(s[a] is Names);
            }
        }
        let j = held->0;
        assert(k < n);
        assert(k != j);
        assert(s[k] is Names && s[j] is Names);
        assert(repeated_declaration(f, s));
    }
    if repeated_declaration(f, s) {
        let (a, b) = choose|a: int, b: int|
            0 <= a < s.len() && 0 <= b < s.len() && a != b && #[trigger] s[a] is Names
                && #[trigger] s[b] is Names;
        assert(s2[a] is Names && s2[b] is Names);
        let k = choose|k: int|
            0 <= k < s.len() && #[trigger] s[k] is Names && f == Fault::MultipleNameDefine(
                item_span(s[k]),
            );
        assert(s2[k] is Names);
    }
    if repeated_in_declaration(f, s2) {
        let k = choose|k: int|
            0 <= k < s2.len() && #[trigger] s2[k] is Names && repeated_name(
                f,
                names_in(s2[k]),
                item_span(s2[k]),
            );
        if k < n {
            assert(s[k] is Names);
        }
    }
    if repeated_in_declaration(f, s) {
        let k = choose|k: int|
            0 <= k < s.len() && #[trigger] s[k] is Names && repeated_name(
                f,
                names_in(s[k]),
                item_span(s[k]),
            );
        assert(s2[k] is Names);
    }
}

/// Finds the declared names, reporting repeated declarations and names
/// listed twice; with several declarations the last one counts.
fn scan_names(items: &Vec<Item>, errs: &mut Vec<ParseError>) -> (r: Option<Vec<String>>)
    requires
        faults(old(errs)@).no_duplicates(),
    ensures
        opt_strs(r) == declared(items@),
        faults(final(errs)@).no_duplicates(),
        forall|f: Fault|
            #[trigger] faults(final(errs)@).contains(f) <==> (faults(old(errs)@).contains(f)
                || name_fault(f, items@)),
{
    let mut last: Option<usize> = None;
    let mut i: usize = 0;
    assert(items@.take(0) =~= seq![]);
    while i < items.len()
        invariant
            i <= items@.len(),
            last matches Some(j) ==> j < i && items@[j as int] is Names && forall|k: int|
                j < k < i ==> !(#[trigger] items@[k] is Names),
            last is None ==> forall|k: int| 0 <= k < i ==> !(#[trigger] items@[k] is Names),
            declared(items@.take(i as int)) == match last {
                Some(j) => Some(names_in(items@[j as int])),
                None => None::<Seq<Seq<char>>>,
            },
            faults(errs@).no_duplicates(),
            forall|f: Fault|
                #[trigger] faults(errs@).contains(f) <==> (faults(old(errs)@).contains(f)
                    || name_fault(f, items@.take(i as int))),
        decreases items.len() - i,
    {
        let ghost s = items@.take(i as int);
        let ghost s2 = items@.take(i + 1);
        assert(s2 =~= s.push(items@[i as int]));
        assert(s2.drop_last() =~= s);
        match &items[i] {
            Item::Names { names, span } => {
                if let Some(j) = last {
                    match &items[j] {
                        Item::Names { span: held, .. } => {
                            note(errs, ParseError::MultipleNameDefine(*held));
                        },
                        _ => {},
                    }
                    note(errs, ParseError::MultipleNameDefine(*span));
                }
                note_repeated_names(names, *span, errs);
                proof {
                    let held = match last {
                        Some(j) => Some(j as int),
                        None => None,
                    };
                    assert forall|f: Fault| #[trigger] faults(errs@).contains(f) <==> (faults(
                        old(errs)@,
                    ).contains(f) || name_fault(f, s2)) by {
                        lemma_name_fault_decl(f, s, items@[i as int], held);
                    }
                }
                last = Some(i);
            },
            _ => {
                proof {
                    assert forall|f: Fault| #[trigger] faults(errs@).contains(f) <==> (faults(
                        old(errs)@,
                    ).contains(f) || name_fault(f, s2)) by {
                        lemma_name_fault_other(f, s, items@[i as int]);
                    }
                }
            },
        }
        i = i + 1;
    }
    assert(items@.take(i as int) =~= items@);
    match last {
        Some(j) => match &items[j] {
            Item::Names { names, .. } => Some(clone_strs(names)),
            _ => None,
        },
        None => None,
    }
}

/// Adds each error of `v` that is not there yet.
fn note_all(errs: &mut Vec<ParseError>, v: Vec<ParseError>)
    requires
        faults(old(errs)@).no_duplicates(),
    ensures
        faults(final(errs)@).no_duplicates(),
        forall|f: Fault|
            #[trigger] faults(final(errs)@).contains(f) <==> (faults(old(errs)@).contains(f)
                || faults(v@).contains(f)),
{
    let ghost orig = v@;
    let mut v = v;
    while v.len() > 0
        invariant
            v@ == orig.take(v@.len() as int),
            v@.len() <= orig.len(),
            faults(errs@).no_duplicates(),
            forall|f: Fault|
                #[trigger] faults(errs@).contains(f) <==> (faults(old(errs)@).contains(f)
                    || exists|j: int| v@.len() <= j < orig.len() && orig[j]@ == f),
        decreases v.len(),
    {
        let ghost n = v@.len();
        let e = v.pop().unwrap();
        assert(e == orig[n - 1]);
        assert(v@ =~= orig.take(n - 1));
        note(errs, e);
    }
    assert forall|f: Fault| faults(v@).contains(f) implies exists|j: int|
        0 <= j < v@.len() && v@[j]@ == f by {
        let j = choose|j: int| 0 <= j < faults(v@).len() && faults(v@)[j] == f;
        assert(v@[j]@ == f);
    }
    assert forall|f: Fault| faults(orig).contains(f) <==> exists|j: int|
        0 <= j < orig.len() && orig[j]@ == f by {
        if exists|j: int| 0 <= j < orig.len() && orig[j]@ == f {
            let j = choose|j: int| 0 <= j < orig.len() && orig[j]@ == f;
            assert(faults(orig)[j] == f);
        }
    }
}

/// `f` reports a declared name that is also an alias of a child, in `a` or
/// in a section under it.
pub open spec fn conflict_fault_in(f: Fault, a: AST, names: Seq<Seq<char>>) -> bool
    decreases a,
{
    (exists|x: int|
        0 <= x < names.len() && table(a).contains_key(#[trigger] names[x]) && f
            == Fault::AliasConflictWithNames(names[x], kids(a)[table(a)[names[x]] as int].meta.span))
        || exists|k: int|
        0 <= k < kids(a).len() && (#[trigger] kids(a)[k]).node is Section && conflict_fault_in(
            f,
            kids(a)[k],
            names,
        )
}

/// Reports each declared name that an alias in `a`, or in a section under it,
/// repeats.
fn check_conflicts(names: &Vec<String>, a: &AST, errs: &mut Vec<ParseError>)
    requires
        wf(*a),
        faults(old(errs)@).no_duplicates(),
    ensures
        faults(final(errs)@).no_duplicates(),
        forall|f: Fault|
            #[trigger] faults(final(errs)@).contains(f) <==> (faults(old(errs)@).contains(f)
                || conflict_fault_in(f, *a, strs(names@))),
    decreases a,
{
    let ghost ns = strs(names@);
    if let Some((aliases, children)) = a.take_section_like() {
        let mut x: usize = 0;
        while x < names.len()
            invariant
                x <= names@.len(),
                ns == strs(names@),
                wf(*a),
                alias_entries(*aliases) == table(*a),
                children@ == kids(*a),
                faults(errs@).no_duplicates(),
                forall|f: Fault|
                    #[trigger] faults(errs@).contains(f) <==> (faults(old(errs)@).contains(f)
                        || exists|y: int|
                        0 <= y < x && table(*a).contains_key(#[trigger] ns[y]) && f
                            == Fault::AliasConflictWithNames(
                            ns[y],
                            kids(*a)[table(*a)[ns[y]] as int].meta.span,
                        )),
            decreases names.len() - x,
        {
            assert(ns[x as int] == names@[x as int]@);
            match lookup_alias(aliases, &names[x]) {
                Some(idx) => {
                    note(
                        errs,
                        ParseError::AliasConflictWithNames(
                            names[x].clone(),
                            children[idx].get_span(),
                        ),
                    );
                },
                None => {},
            }
            x = x + 1;
        }
        let ghost e1 = faults(errs@);
        let mut k: usize = 0;
        while k < children.len()
            invariant
                k <= children@.len(),
                ns == strs(names@),
                wf(*a),
                children@ == kids(*a),
                faults(errs@).no_duplicates(),
                forall|f: Fault|
                    #[trigger] faults(errs@).contains(f) <==> (e1.contains(f) || exists|j: int|
                        0 <= j < k && (#[trigger] kids(*a)[j]).node is Section && conflict_fault_in(
                            f,
                            kids(*a)[j],
                            ns,
                        )),
            decreases children.len() - k,
        {
            if matches!(children[k].node, NodeKind::Section { .. }) {
                check_conflicts(names, &children[k], errs);
            }
            k = k + 1;
        }
    }
}

/// Where a selector child of `a` is walked from: `a` itself for a local
/// one, else the root.
pub open spec fn start_of(sel: AST, a: AST, root: AST) -> AST {
    if sel.node matches NodeKind::Selector { local: true, .. } {
        a
    } else {
        root
    }
}

/// `f` reports a selector child of `a`, or of a section under it.
pub open spec fn selector_fault_in(f: Fault, a: AST, names: Seq<Seq<char>>, root: AST) -> bool
    decreases a,
{
    (exists|k: int|
        0 <= k < kids(a).len() && (#[trigger] kids(a)[k]).node is Selector && selector_faults(
            names,
            kids(a)[k],
            start_of(kids(a)[k], a, root),
        ).contains(f)) || exists|k: int|
        0 <= k < kids(a).len() && (#[trigger] kids(a)[k]).node is Section && selector_fault_in(
            f,
            kids(a)[k],
            names,
            root,
        )
}

/// Checks every selector under `a`: see [`selector_fault_in`].
fn check_selectors(names: &Vec<String>, root: &AST, a: &AST, errs: &mut Vec<ParseError>)
    requires
        wf(*a),
        wf(*root),
        faults(old(errs)@).no_duplicates(),
    ensures
        faults(final(errs)@).no_duplicates(),
        forall|f: Fault|
            #[trigger] faults(final(errs)@).contains(f) <==> (faults(old(errs)@).contains(f)
                || selector_fault_in(f, *a, strs(names@), *root)),
    decreases a,
{
    let ghost ns = strs(names@);
    if let Some((_, children)) = a.take_section_like() {
        let mut k: usize = 0;
        while k < children.len()
            invariant
                k <= children@.len(),
                ns == strs(names@),
                wf(*a),
                wf(*root),
                children@ == kids(*a),
                faults(errs@).no_duplicates(),
                forall|f: Fault|
                    #[trigger] faults(errs@).contains(f) <==> (faults(old(errs)@).contains(f)
                        || (exists|j: int|
                        0 <= j < k && (#[trigger] kids(*a)[j]).node is Selector && selector_faults(
                            ns,
                            kids(*a)[j],
                            start_of(kids(*a)[j], *a, *root),
                        ).contains(f)) || exists|j: int|
                        0 <= j < k && (#[trigger] kids(*a)[j]).node is Section
                            && selector_fault_in(f, kids(*a)[j], ns, *root)),
            decreases children.len() - k,
        {
            let c = &children[k];
            match &c.node {
                NodeKind::Selector { local, .. } => {
                    let v = if *local {
                        check_selector_from(names, c, a)
                    } else {
                        check_selector_from(names, c, root)
                    };
                    note_all(errs, v);
                },
                NodeKind::Section { .. } => {
                    check_selectors(names, root, c, errs);
                },
                _ => {},
            }
            k = k + 1;
        }
    }
}

/// The tree `root` is what the items make: the root holds the nodes of
/// every item outside all sections, with their alias table.
pub open spec fn built_from(items: Seq<Item>, root: AST) -> bool {
    &&& root.node is Top
    &&& root.meta.span == Span { start: 0, end: 0 }
    &&& root.meta.alias is None
    &&& table_ok(table(root), kids(root))
    &&& forest_of(items, 0, 0, kids(root))
}

/// The errors that building the items into `root` reports: repeated or
/// missing name declarations, shared aliases, aliases equal to a name, and
/// faulty selectors.
pub open spec fn expected_fault(f: Fault, items: Seq<Item>, root: AST) -> bool {
    ||| name_fault(f, items)
    ||| alias_fault_in(f, root)
    ||| match declared(items) {
        Some(ns) => conflict_fault_in(f, root, ns) || selector_fault_in(f, root, ns, root),
        None => f == Fault::MissingNames,
    }
}

impl Document {
    /// Builds a document from its items, or reports every error found.
    pub fn build(items: &Vec<Item>) -> (r: Result<Document, Vec<ParseError>>)
        requires
            levels_positive(items@),
        ensures
            r matches Ok(doc) ==> {
                &&& built_from(items@, doc.ast)
                &&& wf(doc.ast)
                &&& declared(items@) == Some(strs(doc.names@))
                &&& forall|f: Fault| !expected_fault(f, items@, doc.ast)
            },
            r matches Err(errs) ==> {
                &&& errs@.len() > 0
                &&& faults(errs@).no_duplicates()
                &&& exists|t: AST|
                    built_from(items@, t) && wf(t) && forall|f: Fault| #[trigger]
                        faults(errs@).contains(f) <==> expected_fault(f, items@, t)
            },
    {
        let mut errs: Vec<ParseError> = Vec::new();
        assert(faults(errs@) =~= seq![]);
        let names = scan_names(items, &mut errs);
        let (children, aliases, _) = build_forest(items, 0, 0, &mut errs);
        let root = AST {
            node: NodeKind::Top { aliases, children },
            meta: NodeMeta { span: Span { start: 0, end: 0 }, alias: None },
        };
        let ghost e2 = faults(errs@);
        assert(wf(root));
        match names {
            Some(names) => {
                check_conflicts(&names, &root, &mut errs);
                check_selectors(&names, &root, &root, &mut errs);
                proof {
                    assert(built_from(items@, root));
                    assert forall|f: Fault| #[trigger] faults(errs@).contains(f)
                        <== expected_fault(f, items@, root) by {
                        if alias_fault_in(f, root) {
                            assert(forest_alias_fault(f, kids(root)));
                        }
                    }
                }
                if errs.len() == 0 {
                    proof {
                        assert forall|f: Fault| !expected_fault(f, items@, root) by {
                            if expected_fault(f, items@, root) {
                                assert(faults(errs@).contains(f));
                            }
                        }
                    }
                    Ok(Document { names, ast: root })
                } else {
                    Err(errs)
                }
            },
            None => {
                note(&mut errs, ParseError::MissingNames);
                proof {
                    assert(built_from(items@, root));
                    assert(faults(errs@).contains(Fault::MissingNames));
                    assert forall|f: Fault| #[trigger] faults(errs@).contains(f)
                        <== expected_fault(f, items@, root) by {
                        if alias_fault_in(f, root) {
                            assert(forest_alias_fault(f, kids(root)));
                        }
                    }
                }
                Err(errs)
            },
        }
    }
}

} // verus!
