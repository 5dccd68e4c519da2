use crate::builder::{
    alias_fault_in, built_from, conflict_fault_in, declared, dup_fault, expected_fault, item_span,
    Item,
};
use crate::parser::{
    addressable, alias_of, digits_value, index_value, kids, section_like, table, walk, wf, Fault,
    Span, AST,
};
use vstd::prelude::*;

verus! {

/// `x` is `t`, or a section reached from `t` through sections.
pub open spec fn within(x: AST, t: AST) -> bool
    decreases t,
{
    x == t || exists|k: int|
        0 <= k < kids(t).len() && (#[trigger] kids(t)[k]).node is Section && within(x, kids(t)[k])
}

proof fn lemma_within_wf(x: AST, t: AST)
    requires
        within(x, t),
        wf(t),
    ensures
        wf(x),
    decreases t,
{
    if x != t {
        let k = choose|k: int|
            0 <= k < kids(t).len() && (#[trigger] kids(t)[k]).node is Section && within(
                x,
                kids(t)[k],
            );
        lemma_within_wf(x, kids(t)[k]);
    }
}

proof fn lemma_within_alias_fault(f: Fault, x: AST, t: AST)
    requires
        within(x, t),
        alias_fault_in(f, x),
    ensures
        alias_fault_in(f, t),
    decreases t,
{
    if x != t {
        let k = choose|k: int|
            0 <= k < kids(t).len() && (#[trigger] kids(t)[k]).node is Section && within(
                x,
                kids(t)[k],
            );
        lemma_within_alias_fault(f, x, kids(t)[k]);
    }
}

proof fn lemma_within_conflict(f: Fault, x: AST, t: AST, names: Seq<Seq<char>>)
    requires
        within(x, t),
        conflict_fault_in(f, x, names),
    ensures
        conflict_fault_in(f, t, names),
    decreases t,
{
    if x != t {
        let k = choose|k: int|
            0 <= k < kids(t).len() && (#[trigger] kids(t)[k]).node is Section && within(
                x,
                kids(t)[k],
            );
        lemma_within_conflict(f, x, kids(t)[k], names);
    }
}

/// Two children of one node that share an alias are both reported when the
/// items are built: one `DuplicateAlias` at the span of each.
pub proof fn law_shared_alias_reported(items: Seq<Item>, t: AST, a: AST, n: int, m: int)
    requires
        built_from(items, t),
        within(a, t),
        0 <= n < kids(a).len(),
        0 <= m < kids(a).len(),
        n != m,
        alias_of(kids(a)[n]) is Some,
        alias_of(kids(a)[n]) == alias_of(kids(a)[m]),
    ensures
        expected_fault(
            Fault::DuplicateAlias(alias_of(kids(a)[n])->0, kids(a)[n].meta.span),
            items,
            t,
        ),
        expected_fault(
            Fault::DuplicateAlias(alias_of(kids(a)[n])->0, kids(a)[m].meta.span),
            items,
            t,
        ),
{
    let x = alias_of(kids(a)[n])->0;
    let f1 = Fault::DuplicateAlias(x, kids(a)[n].meta.span);
    let f2 = Fault::DuplicateAlias(x, kids(a)[m].meta.span);
    assert(dup_fault(f1, kids(a)));
    assert(dup_fault(f2, kids(a)));
    lemma_within_alias_fault(f1, a, t);
    lemma_within_alias_fault(f2, a, t);
}

/// An alias equal to a declared name, on a child of the root or of any
/// section, is reported as `AliasConflictWithNames` when the items are built.
pub proof fn law_alias_equal_to_name_reported(
    items: Seq<Item>,
    t: AST,
    a: AST,
    j: int,
    x: int,
)
    requires
        built_from(items, t),
        wf(t),
        within(a, t),
        declared(items) is Some,
        0 <= x < declared(items)->0.len(),
        0 <= j < kids(a).len(),
        alias_of(kids(a)[j]) == Some(declared(items)->0[x]),
    ensures
        exists|sp: Span|
            expected_fault(
                Fault::AliasConflictWithNames(declared(items)->0[x], sp),
                items,
                t,
            ),
{
    let ns = declared(items)->0;
    lemma_within_wf(a, t);
    assert(table(a).contains_key(ns[x]));
    let sp = kids(a)[table(a)[ns[x]] as int].meta.span;
    let f = Fault::AliasConflictWithNames(ns[x], sp);
    assert(conflict_fault_in(f, a, ns));
    lemma_within_conflict(f, a, t, ns);
    assert(expected_fault(f, items, t));
}

/// Following a section's alias and then `0` leads where following it and
/// then the alias of the section's first non-selector child does, provided
/// `0` is not itself an alias in that section.
pub proof fn law_index_and_alias_agree(t: AST, section: Seq<char>, child: Seq<char>)
    requires
        wf(t),
        section_like(t),
        table(t).contains_key(section),
        table(kids(t)[table(t)[section] as int]).contains_key(child),
        addressable(kids(kids(t)[table(t)[section] as int])).len() > 0,
        ({
            let s = kids(t)[table(t)[section] as int];
            kids(s)[table(s)[child] as int] == addressable(kids(s))[0]
        }),
        !table(kids(t)[table(t)[section] as int]).contains_key(seq!['0']),
    ensures
        walk(t, seq![section, seq!['0']]) == walk(t, seq![section, child]),
{
    let s = kids(t)[table(t)[section] as int];
    let by_index = seq![section, seq!['0']];
    let by_alias = seq![section, child];
    assert(by_index[0] == section && by_alias[0] == section);
    assert(by_index.skip(1) =~= seq![seq!['0']]);
    assert(by_alias.skip(1) =~= seq![child]);
    let zero = seq!['0'];
    assert(zero.len() == 1 && zero.last() == '0' && zero[0] == '0');
    assert(zero.drop_last() =~= Seq::<char>::empty());
    assert(digits_value(zero.drop_last()) == 0);
    assert(digits_value(zero) == 0);
    assert(index_value(zero) == Some(0nat));
    let index_rest = seq![seq!['0']];
    let alias_rest = seq![child];
    assert(index_rest[0] == zero && alias_rest[0] == child);
    assert(index_rest.skip(1) =~= Seq::<Seq<char>>::empty());
    assert(alias_rest.skip(1) =~= Seq::<Seq<char>>::empty());
    assert(section_like(s));
    let target = addressable(kids(s))[0];
    assert(walk(target, index_rest.skip(1)) == crate::parser::Walk::Reached(target));
    assert(walk(s, index_rest) == crate::parser::Walk::Reached(target));
    assert(walk(s, alias_rest) == crate::parser::Walk::Reached(target));
    assert(walk(t, by_index) == walk(s, index_rest));
    assert(walk(t, by_alias) == walk(s, alias_rest));
}

/// A document with two name declarations cannot be built, whatever else it
/// holds: both declarations are reported as `MultipleNameDefine`.
pub proof fn law_repeated_declaration_fails(items: Seq<Item>, t: AST, a: int, b: int)
    requires
        0 <= a < items.len(),
        0 <= b < items.len(),
        a != b,
        items[a] is Names,
        items[b] is Names,
    ensures
        expected_fault(Fault::MultipleNameDefine(item_span(items[a])), items, t),
        expected_fault(Fault::MultipleNameDefine(item_span(items[b])), items, t),
{
}

} // verus!
