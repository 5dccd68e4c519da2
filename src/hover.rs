use crate::formatter::{covers, render_from, renderings_at, resolvable_at, sentences_fit};
use crate::parser::{
    check_selector_from, kids, names_target, node_at, parent_at, parent_at_kids, selector_faults,
    strs, walk, walked, wf, Document, NodeKind, AST,
};
use vstd::prelude::*;

verus! {

/// Hover documentation for a section.
pub const SECTION_DOC: &'static str = r#"
The `Section` syntax provides a way to structure documents by creating meaningful divisions within your text. Currently, its primary purpose is to define logical sections, which can optionally include an alias.

Here's a quick breakdown with examples:

```sand
#sec1# This is an aliased Level 1 Section
## This is a Level 1 Section without an alias
#sec2## This is an aliased Level 2 Section, nested under a Level 1 Section
### This is a Level 2 Section without an alias
```

In the examples above:

  * The hashes (##) determine the level of the section. Two hashes (##) indicate a Level 1 Section, three hashes (###) indicate a Level 2 Section, and so on.
  * The optional **`Ident`** (like `sec1` or `sec2`) acts as an **alias** for the section. This alias can be used for quick referencing or navigation within your document.
  * The content of the section must be on a single line with a line break at the end.
"#;

/// Hover documentation for filtered content.
pub const ALL_DOC: &'static str = r#"
`ApplyAll` syntax, Apply a piece of content under all or a selected list of contexts (e.g. locales, formats).

* **Sugar form:**

```sand
#{{ Use this everywhere }}

#all{{ You can use with alias. }}
```

is equivalent to

```sand
#{all, { Use this everywhere }}
#all{all, { You can use with alias. }}
```
* **Targeted form:**

```sand
#{[en],{ Hello only in English }}
#{[mobile],{ Shown only on mobile }}
```

Here, the list inside `[...]` can be any identifiers you’ve defined (languages, output formats, etc.).
"#;

/// Hover documentation for a sentence set.
pub const SENTENCE_DOC: &'static str = r#"
**Parallel Sentences**
Use when you have one piece of content per declared name (e.g. multiple languages):

```sand
#(en, ja)    // Declare two targets: English and Japanese

#alias[
  Hello!
][
  こんにちは！
]
```

* You must provide exactly one sentence block **per** declared name, in the same order.
* The `Ident` (`alias`) is optional but useful for reference.
"#;

/// Hover documentation for a selector.
pub const SELECTOR_DOC: &'static str = r##"
**Selector**
Chooses one or more named contexts (e.g. languages, formats) relative to your current position.

* **Global vs. Local**

* `#.` or `#..` – selects all names from the document root.
* `#./foo.en` – starts from the *current* section (due to `/`) and picks `foo` → `en`.
* Without `/`, selection begins at the document root.

* **Identifiers & Indexes**

* You can use either an **alias** or a zero‑based **index** to refer to each level.
* Example: these are equivalent:

```sand
#(en, ja)

#sec1# level 1
#sec2## level 2

#test[
    Hello!
][
    こんにちは
]

#./test.en            // local from current section
#.0.0.0.en            // index-based from root (sec1=0, sec2=0, test=0)
#./0.en               // index-based local
```

* **Trailing Dot (`.`)**

* A selector ending in `.` (e.g. `#.sec1.sec2.`) expands to *all* declared names, as if you had written one selector per name:

```sand
#.sec1.sec2.   // same as #.sec1.sec2.en and #.sec1.sec2.ja
```

* **Minimal Forms**

* `#.` or `#..` with nothing else simply means “select every name” in the appropriate scope (global or local).
"##;

/// What separates the texts of a selector's names in a hover.
pub const RULE: &'static str = "\n\n---\n\n";

/// The texts `parts` with `sep` between each two.
pub open spec fn join_by(parts: Seq<Seq<char>>, sep: Seq<char>) -> Seq<char>
    decreases parts.len(),
{
    if parts.len() == 0 {
        seq![]
    } else if parts.len() == 1 {
        parts[0]
    } else {
        join_by(parts.drop_last(), sep) + sep + parts.last()
    }
}

/// Where a selector is walked from in a hover at `offset`: the node that
/// holds it for a local one, else the root.
pub open spec fn hover_start(doc: Document, sel: AST, offset: int) -> Option<AST> {
    if sel.node matches NodeKind::Selector { local: true, .. } {
        parent_at(doc.ast, offset)
    } else {
        Some(doc.ast)
    }
}

/// The hover text at byte `offset`: the documentation of the kind of the
/// innermost node there; for a selector that resolves from where it is
/// walked, its rendered texts, a rule, and the selector documentation.
pub open spec fn hover_at(doc: Document, offset: int) -> Option<Seq<char>> {
    match node_at(doc.ast, offset) {
        None => None,
        Some(n) => match n.node {
            NodeKind::Sen(_) => Some(SENTENCE_DOC@),
            NodeKind::All { .. } => Some(ALL_DOC@),
            NodeKind::Section { .. } => Some(SECTION_DOC@),
            NodeKind::Top { .. } => None,
            NodeKind::Selector { .. } => match hover_start(doc, n, offset) {
                Some(start) => if selector_faults(strs(doc.names@), n, start).len() == 0 && covers(
                    start,
                    doc.names@.len() as nat,
                ) {
                    Some(
                        join_by(renderings_at(strs(doc.names@), start, n, false), RULE@) + RULE@
                            + SELECTOR_DOC@,
                    )
                } else {
                    None
                },
                None => None,
            },
        },
    }
}

proof fn lemma_parent_wf(a: AST, pos: int)
    requires
        wf(a),
    ensures
        parent_at(a, pos) matches Some(p) ==> wf(p),
    decreases a, kids(a).len() + 1,
{
    lemma_parent_kids_wf(a, 0, pos);
}

proof fn lemma_parent_kids_wf(a: AST, k: int, pos: int)
    requires
        wf(a),
    ensures
        parent_at_kids(a, k, pos) matches Some(p) ==> wf(p),
    decreases a, kids(a).len() - k,
{
    if 0 <= k < kids(a).len() {
        if node_at(kids(a)[k], pos) is Some {
            lemma_parent_wf(kids(a)[k], pos);
        } else {
            lemma_parent_kids_wf(a, k + 1, pos);
        }
    }
}

proof fn lemma_no_faults_resolvable(names: Seq<Seq<char>>, sel: AST, from: AST)
    requires
        sel.node is Selector,
        selector_faults(names, sel, from).len() == 0,
    ensures
        resolvable_at(names, from, sel),
{
    if let NodeKind::Selector { path, trailing_dot, .. } = sel.node {
        let p = strs(path@);
        if names_target(p, trailing_dot) && !names.contains(p.last()) {
            assert(selector_faults(names, sel, from).len() > 0);
        }
        if !(walk(from, walked(p, trailing_dot)) is Reached) {
            assert(selector_faults(names, sel, from).len() > 0);
        }
    }
}

/// The texts `parts` joined with `sep`: see [`join_by`].
fn join_texts(parts: &Vec<String>, sep: &str) -> (r: String)
    ensures
        r@ == join_by(strs(parts@), sep@),
{
    let mut out = String::new();
    let mut k: usize = 0;
    while k < parts.len()
        invariant
            k <= parts@.len(),
            out@ == join_by(strs(parts@.take(k as int)), sep@),
        decreases parts.len() - k,
    {
        let ghost before = parts@.take(k as int);
        assert(strs(parts@.take(k + 1)) =~= strs(before).push(parts@[k as int]@));
        assert(strs(before).push(parts@[k as int]@).drop_last() =~= strs(before));
        if k > 0 {
            out.append(sep);
        }
        out.append(parts[k].as_str());
        k = k + 1;
    }
    assert(parts@.take(k as int) =~= parts@);
    out
}

/// The hover text for byte `offset` of a built document: see [`hover_at`].
pub fn hover_text(doc: &Document, offset: usize) -> (r: Option<String>)
    requires
        wf(doc.ast),
    ensures
        match r {
            Some(s) => hover_at(*doc, offset as int) == Some(s@),
            None => hover_at(*doc, offset as int) is None,
        },
{
    let node = match doc.ast.find_node_at_position(offset) {
        Some(node) => node,
        None => {
            return None;
        },
    };
    match &node.node {
        NodeKind::Sen(_) => Some(String::from_str(SENTENCE_DOC)),
        NodeKind::All { .. } => Some(String::from_str(ALL_DOC)),
        NodeKind::Section { .. } => Some(String::from_str(SECTION_DOC)),
        NodeKind::Top { .. } => None,
        NodeKind::Selector { local, .. } => {
            let start = if *local {
                match doc.ast.find_parent_at_position(offset) {
                    Some(parent) => parent,
                    None => {
                        return None;
                    },
                }
            } else {
                &doc.ast
            };
            proof {
                lemma_parent_wf(doc.ast, offset as int);
            }
            if check_selector_from(&doc.names, node, start).len() != 0 || !sentences_fit(
                start,
                doc.names.len(),
            ) {
                return None;
            }
            proof {
                lemma_no_faults_resolvable(strs(doc.names@), *node, *start);
            }
            let parts = render_from(&doc.names, start, node, false);
            let mut s = join_texts(&parts, RULE);
            s.append(RULE);
            s.append(SELECTOR_DOC);
            Some(s)
        },
    }
}

} // verus!
