use vstd::prelude::*;
use vstd::std_specs::iter::IteratorSpec;

use crate::parser::{
    addressable, countable, faults, global_selector_faults, index_value, is_first_index, kids,
    names_target, position_of, section_like, selector_faults, strs, table,
    validate_non_local_selector, walk, walk_path, walked, wf, Document, NodeKind, ParseError,
    Walk, AST,
};

verus! {

/// The characters that `char::is_whitespace` reports, that is those with the
/// Unicode `White_Space` property.
pub uninterp spec fn white_space(c: char) -> bool;

/// Relies on `char::is_whitespace`: whether `c` has the `White_Space` property.
#[verifier::external_body]
fn is_white(c: char) -> (r: bool)
    ensures
        r == white_space(c),
{
    c.is_whitespace()
}

/// Relies on `String::push`: appends one character.
#[verifier::external_body]
pub(crate) fn push_char(s: &mut String, c: char)
    ensures
        final(s)@ == old(s)@.push(c),
{
    s.push(c)
}

/// The characters of `s`, in order.
pub fn chars_of(s: &str) -> (r: Vec<char>)
    ensures
        r@ == s@,
{
    let n = s.unicode_len();
    let mut it = s.chars();
    proof {
        broadcast use vstd::string::group_string_axioms;
    }
    let mut out: Vec<char> = Vec::new();
    let mut i: usize = 0;
    while i < n
        invariant
            n == s@.len(),
            i <= n,
            out@.len() == i,
            out@ + it.remaining() == s@,
        decreases n - i,
    {
        if let Some(c) = it.next() {
            out.push(c);
        }
        i = i + 1;
    }
    out
}

/// The maximal runs of non-white-space characters of `s`, in order.
pub open spec fn words(s: Seq<char>) -> Seq<Seq<char>>
    decreases s.len(),
{
    if s.len() == 0 {
        seq![]
    } else if white_space(s.last()) {
        words(s.drop_last())
    } else if s.len() >= 2 && !white_space(s[s.len() - 2]) {
        let w = words(s.drop_last());
        w.update(w.len() - 1, w.last().push(s.last()))
    } else {
        words(s.drop_last()).push(seq![s.last()])
    }
}

/// The pieces `ws` with `sep` between each two.
pub open spec fn join_with(ws: Seq<Seq<char>>, sep: char) -> Seq<char>
    decreases ws.len(),
{
    if ws.len() == 0 {
        seq![]
    } else if ws.len() == 1 {
        ws[0]
    } else {
        join_with(ws.drop_last(), sep) + seq![sep] + ws.last()
    }
}

/// `s` with every run of white space made one space, and none at either end.
pub open spec fn squeeze(s: Seq<char>) -> Seq<char> {
    join_with(words(s), ' ')
}

proof fn lemma_words_nonempty(s: Seq<char>)
    requires
        s.len() > 0,
        !white_space(s.last()),
    ensures
        words(s).len() > 0,
    decreases s.len(),
{
    if s.len() >= 2 && !white_space(s[s.len() - 2]) {
        lemma_words_nonempty(s.drop_last());
    }
}

proof fn lemma_join_extend(ws: Seq<Seq<char>>, c: char)
    requires
        ws.len() > 0,
    ensures
        join_with(ws.update(ws.len() - 1, ws.last().push(c)), ' ') == join_with(ws, ' ').push(c),
{
    let w2 = ws.update(ws.len() - 1, ws.last().push(c));
    if ws.len() >= 2 {
        assert(w2.drop_last() =~= ws.drop_last());
    }
    assert(join_with(w2, ' ') =~= join_with(ws, ' ').push(c));
}

/// Collapses every run of white space in `s` to one space and drops it at
/// both ends.
pub fn trim(s: &str) -> (r: String)
    ensures
        r@ == squeeze(s@),
{
    let cs = chars_of(s);
    let mut out = String::new();
    let mut gap = false;
    let mut started = false;
    let mut i: usize = 0;
    while i < cs.len()
        invariant
            i <= cs@.len(),
            out@ == squeeze(cs@.take(i as int)),
            (out@.len() == 0) == (words(cs@.take(i as int)).len() == 0),
            gap == (i > 0 && white_space(cs@[i - 1])),
            started == (out@.len() > 0),
        decreases cs.len() - i,
    {
        let c = cs[i];
        let ghost pre = cs@.take(i as int);
        let ghost next = cs@.take(i + 1);
        assert(next.drop_last() =~= pre);
        if is_white(c) {
            gap = true;
        } else {
            if i > 0 && !gap {
                proof {
                    lemma_words_nonempty(pre);
                    lemma_join_extend(words(pre), c);
                }
                push_char(&mut out, c);
            } else {
                if started {
                    push_char(&mut out, ' ');
                }
                push_char(&mut out, c);
                proof {
                    let w = words(pre);
                    assert(words(next) == w.push(seq![c]));
                    assert(w.push(seq![c]).drop_last() =~= w);
                    assert(squeeze(next) =~= out@);
                }
            }
            gap = false;
            started = true;
        }
        i = i + 1;
    }
    assert(cs@.take(i as int) =~= cs@);
    out
}

/// The character that the escape `\c` stands for, where `c` makes one.
pub open spec fn escape_of(c: char) -> Option<char> {
    if c == '#' || c == '\\' || c == '/' || c == ']' || c == '}' {
        Some(c)
    } else if c == 'n' {
        Some('\n')
    } else {
        None
    }
}

/// `s` with each escape decoded in one left-to-right pass; a backslash that
/// starts no escape stays as it is.
pub open spec fn decode(s: Seq<char>) -> Seq<char>
    decreases s.len(),
{
    if s.len() == 0 {
        seq![]
    } else if s.len() >= 2 && s[0] == '\\' && escape_of(s[1]) is Some {
        seq![escape_of(s[1])->0] + decode(s.skip(2))
    } else {
        seq![s[0]] + decode(s.skip(1))
    }
}

/// Decodes the escapes `\#`, `\\`, `\/`, `\n`, `\]` and `\}`.
pub fn normalize(s: &str) -> (r: String)
    ensures
        r@ == decode(s@),
{
    let cs = chars_of(s);
    let mut out = String::new();
    let mut i: usize = 0;
    assert(cs@.skip(0) =~= cs@);
    while i < cs.len()
        invariant
            i <= cs@.len(),
            out@ + decode(cs@.skip(i as int)) == decode(cs@),
        decreases cs.len() - i,
    {
        let ghost rest = cs@.skip(i as int);
        let c = cs[i];
        let mut step: usize = 1;
        let mut emit = c;
        if c == '\\' && i + 1 < cs.len() {
            let d = cs[i + 1];
            if d == '#' || d == '\\' || d == '/' || d == ']' || d == '}' {
                emit = d;
                step = 2;
            } else if d == 'n' {
                emit = '\n';
                step = 2;
            }
        }
        assert(rest.skip(step as int) =~= cs@.skip(i + step));
        push_char(&mut out, emit);
        assert(out@ + decode(cs@.skip(i + step)) =~= decode(cs@));
        i = i + step;
    }
    assert(cs@.skip(i as int) =~= seq![]);
    assert(out@ + decode(cs@.skip(i as int)) =~= out@);
    out
}

/// A checked selector, ready to render.
#[derive(Debug)]
pub struct Selector(pub AST);

/// Whether `sel` is a selector whose path can be followed from `root` and
/// whose last segment, where it names a target, is one of `names`.
pub open spec fn resolvable_at(names: Seq<Seq<char>>, root: AST, sel: AST) -> bool {
    match sel.node {
        NodeKind::Selector { path, trailing_dot, .. } => {
            &&& walk(root, walked(strs(path@), trailing_dot)) is Reached
            &&& names_target(strs(path@), trailing_dot) ==> names.contains(strs(path@).last())
        },
        _ => false,
    }
}

/// Whether `sel` can be followed from the root of `doc`.
pub open spec fn resolvable(doc: Document, sel: AST) -> bool {
    resolvable_at(strs(doc.names@), doc.ast, sel)
}

/// The node that a resolvable selector leads to from `root`.
pub open spec fn target_at(root: AST, sel: AST) -> AST {
    match sel.node {
        NodeKind::Selector { path, trailing_dot, .. } => match walk(
            root,
            walked(strs(path@), trailing_dot),
        ) {
            Walk::Reached(b) => b,
            _ => root,
        },
        _ => root,
    }
}

/// The node that a resolvable selector leads to from the root of `doc`.
pub open spec fn target_of(doc: Document, sel: AST) -> AST {
    target_at(doc.ast, sel)
}

/// Whether the selector picks a single target name.
pub open spec fn picks_name(sel: AST) -> bool {
    match sel.node {
        NodeKind::Selector { path, trailing_dot, .. } => names_target(strs(path@), trailing_dot),
        _ => false,
    }
}

/// The target name that the selector ends in.
pub open spec fn picked_name(sel: AST) -> Seq<char> {
    match sel.node {
        NodeKind::Selector { path, .. } => strs(path@).last(),
        _ => seq![],
    }
}

/// Resolves a selector from `root`: the node it leads to, and the index of
/// the target name it ends in, if it ends in one.
pub fn select_at<'a>(names: &Vec<String>, root: &'a AST, sel: &AST) -> (r: (&'a AST, Option<usize>))
    requires
        wf(*root),
        resolvable_at(strs(names@), *root, *sel),
    ensures
        *r.0 == target_at(*root, *sel),
        wf(*r.0),
        picks_name(*sel) ==> (r.1 matches Some(i) && is_first_index(
            strs(names@),
            picked_name(*sel),
            i as int,
        )),
        !picks_name(*sel) ==> r.1 is None,
{
    match &sel.node {
        NodeKind::Selector { path, trailing_dot, .. } => {
            let n = path.len();
            let mut last: Option<usize> = None;
            let mut walked_len = n;
            if !*trailing_dot && n > 0 {
                last = position_of(names, &path[n - 1]);
                walked_len = n - 1;
            }
            assert(strs(path@).take(walked_len as int) =~= walked(strs(path@), *trailing_dot));
            match walk_path(root, path, walked_len) {
                Ok(t) => (t, last),
                Err(_) => (root, last),
            }
        },
        _ => (root, None),
    }
}

/// Resolves a selector from the root of `doc`: see [`select_at`].
pub fn select<'a>(doc: &'a Document, sel: &'a Selector) -> (r: (&'a AST, Option<usize>))
    requires
        wf(doc.ast),
        resolvable(*doc, sel.0),
    ensures
        *r.0 == target_of(*doc, sel.0),
        wf(*r.0),
        picks_name(sel.0) ==> (r.1 matches Some(i) && is_first_index(
            strs(doc.names@),
            picked_name(sel.0),
            i as int,
        )),
        !picks_name(sel.0) ==> r.1 is None,
{
    select_at(&doc.names, &doc.ast, &sel.0)
}

/// Every sentence set under `a`, at any depth, holds at least `n` sentences.
pub open spec fn covers(a: AST, n: nat) -> bool
    decreases a,
{
    &&& (a.node matches NodeKind::Sen(v) ==> n <= v@.len())
    &&& forall|k: int| 0 <= k < kids(a).len() ==> covers(#[trigger] kids(a)[k], n)
}

/// The Markdown heading that a section opens with.
pub open spec fn heading(level: nat, title: Seq<char>) -> Seq<char> {
    seq!['\n', '\n'] + Seq::new(level, |j: int| '#') + seq![' '] + title + seq!['\n', '\n']
}

/// Whether content with the given target list applies to `name`.
pub open spec fn applies(targets: Option<Vec<String>>, name: Seq<char>) -> bool {
    match targets {
        None => true,
        Some(v) => strs(v@).contains(name),
    }
}

/// The text of `a` for the name `name`, at index `i`: a sentence set gives
/// its `i`-th sentence, filtered content gives its text where it applies,
/// both tidied and decoded; a section gives its heading (in Markdown) and
/// each child after a space; a selector gives nothing.
pub open spec fn plain(a: AST, i: int, name: Seq<char>, md: bool) -> Seq<char>
    decreases a, kids(a).len() + 1,
{
    match a.node {
        NodeKind::Sen(v) => if 0 <= i < v@.len() {
            decode(squeeze(v@[i]@))
        } else {
            seq![]
        },
        NodeKind::All { all_or_names, content } => if applies(all_or_names, name) {
            decode(squeeze(content@))
        } else {
            seq![]
        },
        NodeKind::Section { level, content, .. } => (if md {
            heading(level as nat, content@)
        } else {
            seq![]
        }) + plain_kids(a, kids(a).len() as int, i, name, md),
        NodeKind::Top { .. } => plain_kids(a, kids(a).len() as int, i, name, md),
        NodeKind::Selector { .. } => seq![],
    }
}

/// The first `n` children of `a`, each after a space.
pub open spec fn plain_kids(a: AST, n: int, i: int, name: Seq<char>, md: bool) -> Seq<char>
    decreases a, n,
{
    if n <= 0 || n > kids(a).len() {
        seq![]
    } else {
        plain_kids(a, n - 1, i, name, md) + seq![' '] + plain(kids(a)[n - 1], i, name, md)
    }
}

/// Whether `name` is one of `v`.
fn lists_name(v: &Vec<String>, name: &String) -> (r: bool)
    ensures
        r == strs(v@).contains(name@),
{
    position_of(v, name).is_some()
}

/// The Markdown heading of a section: see [`heading`].
fn heading_text(level: usize, title: &String) -> (r: String)
    ensures
        r@ == heading(level as nat, title@),
{
    let mut out = String::new();
    push_char(&mut out, '\n');
    push_char(&mut out, '\n');
    let mut k: usize = 0;
    while k < level
        invariant
            k <= level,
            out@ == seq!['\n', '\n'] + Seq::new(k as nat, |j: int| '#'),
        decreases level - k,
    {
        push_char(&mut out, '#');
        k = k + 1;
        assert(out@ =~= seq!['\n', '\n'] + Seq::new(k as nat, |j: int| '#'));
    }
    push_char(&mut out, ' ');
    out.append(title.as_str());
    push_char(&mut out, '\n');
    push_char(&mut out, '\n');
    assert(out@ =~= heading(level as nat, title@));
    out
}

/// Renders `ast` for a target name, given with its index: see [`plain`].
pub fn to_plain(ast: &AST, target: (usize, &str), markdown: bool) -> (r: String)
    requires
        covers(*ast, (target.0 + 1) as nat),
    ensures
        r@ == plain(*ast, target.0 as int, target.1@, markdown),
    decreases ast,
{
    let (name_i, name) = target;
    let mut s = String::new();
    match &ast.node {
        NodeKind::Sen(v) => {
            let t = trim(v[name_i].as_str());
            let d = normalize(t.as_str());
            s.append(d.as_str());
        },
        NodeKind::All { all_or_names, content } => {
            let wanted = match all_or_names {
                None => true,
                Some(v) => lists_name(v, &String::from_str(name)),
            };
            if wanted {
                let t = trim(content.as_str());
                let d = normalize(t.as_str());
                s.append(d.as_str());
            }
        },
        NodeKind::Section { children, level, content, .. } => {
            if markdown {
                let h = heading_text(*level, content);
                s.append(h.as_str());
            }
            let ghost head = s@;
            let mut j: usize = 0;
            while j < children.len()
                invariant
                    j <= children@.len(),
                    children@ == kids(*ast),
                    covers(*ast, (name_i + 1) as nat),
                    s@ == head + plain_kids(*ast, j as int, name_i as int, name@, markdown),
                decreases children.len() - j,
            {
                let part = to_plain(&children[j], (name_i, name), markdown);
                push_char(&mut s, ' ');
                s.append(part.as_str());
                j = j + 1;
                assert(s@ =~= head + plain_kids(*ast, j as int, name_i as int, name@, markdown));
            }
        },
        NodeKind::Top { children, .. } => {
            let mut j: usize = 0;
            while j < children.len()
                invariant
                    j <= children@.len(),
                    children@ == kids(*ast),
                    covers(*ast, (name_i + 1) as nat),
                    s@ == plain_kids(*ast, j as int, name_i as int, name@, markdown),
                decreases children.len() - j,
            {
                let part = to_plain(&children[j], (name_i, name), markdown);
                push_char(&mut s, ' ');
                s.append(part.as_str());
                j = j + 1;
                assert(s@ =~= plain_kids(*ast, j as int, name_i as int, name@, markdown));
            }
        },
        NodeKind::Selector { .. } => {},
    }
    s
}

/// The lines of `s`, split at each newline; the last may be empty.
pub open spec fn split_lines(s: Seq<char>) -> Seq<Seq<char>>
    decreases s.len(),
{
    if s.len() == 0 {
        seq![seq![]]
    } else {
        let w = split_lines(s.drop_last());
        if s.last() == '\n' {
            w.push(seq![])
        } else {
            w.update(w.len() - 1, w.last().push(s.last()))
        }
    }
}

/// Each line squeezed, and those left empty dropped.
pub open spec fn kept_lines(ls: Seq<Seq<char>>) -> Seq<Seq<char>>
    decreases ls.len(),
{
    if ls.len() == 0 {
        seq![]
    } else if squeeze(ls.last()).len() > 0 {
        kept_lines(ls.drop_last()).push(squeeze(ls.last()))
    } else {
        kept_lines(ls.drop_last())
    }
}

/// `s` with each line squeezed, empty lines dropped, and the rest joined by
/// newlines.
pub open spec fn tidy(s: Seq<char>) -> Seq<char> {
    join_with(kept_lines(split_lines(s)), '\n')
}

proof fn lemma_split_nonempty(s: Seq<char>)
    ensures
        split_lines(s).len() > 0,
    decreases s.len(),
{
    if s.len() > 0 {
        lemma_split_nonempty(s.drop_last());
    }
}

proof fn lemma_join_push(ws: Seq<Seq<char>>, x: Seq<char>, sep: char)
    ensures
        join_with(ws.push(x), sep) == (if ws.len() == 0 {
            x
        } else {
            join_with(ws, sep) + seq![sep] + x
        }),
{
    assert(ws.push(x).drop_last() =~= ws);
}

/// Appends the squeezed `line` to `out` unless it is empty, after a newline
/// where `out` already holds a line; tells whether `out` now holds one.
fn add_line(out: &mut String, started: bool, line: &String) -> (r: bool)
    ensures
        squeeze(line@).len() > 0 ==> r && final(out)@ == (if started {
            old(out)@ + seq!['\n'] + squeeze(line@)
        } else {
            old(out)@ + squeeze(line@)
        }),
        squeeze(line@).len() == 0 ==> r == started && final(out)@ == old(out)@,
{
    let t = trim(line.as_str());
    if t.as_str().is_empty() {
        started
    } else {
        if started {
            push_char(out, '\n');
        }
        out.append(t.as_str());
        true
    }
}

/// Squeezes each line of `s`, drops the empty ones and joins the rest with
/// newlines.
pub fn tidy_lines(s: &String) -> (r: String)
    ensures
        r@ == tidy(s@),
{
    let cs = chars_of(s.as_str());
    let mut out = String::new();
    let mut line = String::new();
    let mut started = false;
    let mut i: usize = 0;
    while i < cs.len()
        invariant
            i <= cs@.len(),
            line@ == split_lines(cs@.take(i as int)).last(),
            out@ == join_with(kept_lines(split_lines(cs@.take(i as int)).drop_last()), '\n'),
            started == (kept_lines(split_lines(cs@.take(i as int)).drop_last()).len() > 0),
        decreases cs.len() - i,
    {
        let ghost pre = cs@.take(i as int);
        let ghost ls = split_lines(pre);
        let ghost next = cs@.take(i + 1);
        proof {
            lemma_split_nonempty(pre);
        }
        assert(next.drop_last() =~= pre);
        let c = cs[i];
        if c == '\n' {
            let ghost ks = kept_lines(ls.drop_last());
            assert(ls.drop_last().push(ls.last()) =~= ls);
            proof {
                lemma_join_push(ks, squeeze(line@), '\n');
            }
            started = add_line(&mut out, started, &line);
            assert(split_lines(next) == ls.push(seq![]));
            assert(ls.push(seq![]).drop_last() =~= ls);
            line = String::new();
        } else {
            assert(split_lines(next).drop_last() =~= ls.drop_last());
            push_char(&mut line, c);
        }
        i = i + 1;
    }
    let ghost ls = split_lines(cs@.take(i as int));
    proof {
        lemma_split_nonempty(cs@.take(i as int));
        lemma_join_push(kept_lines(ls.drop_last()), squeeze(line@), '\n');
    }
    assert(ls.drop_last().push(ls.last()) =~= ls);
    assert(cs@.take(i as int) =~= cs@);
    add_line(&mut out, started, &line);
    out
}

proof fn lemma_covers_fewer(a: AST, n: nat, m: nat)
    requires
        covers(a, n),
        m <= n,
    ensures
        covers(a, m),
    decreases a,
{
    assert forall|k: int| 0 <= k < kids(a).len() implies covers(#[trigger] kids(a)[k], m) by {
        lemma_covers_fewer(kids(a)[k], n, m);
    }
}

proof fn lemma_covers_walk(a: AST, p: Seq<Seq<char>>, n: nat)
    requires
        wf(a),
        covers(a, n),
        walk(a, p) is Reached,
    ensures
        covers(walk(a, p)->Reached_0, n),
    decreases p.len(),
{
    if p.len() == 0 || !section_like(a) {
    } else {
        let k = p[0];
        if table(a).contains_key(k) {
            let c = kids(a)[table(a)[k] as int];
            lemma_covers_walk(c, p.skip(1), n);
        } else if index_value(k) is Some {
            let i = index_value(k)->0;
            if i < addressable(kids(a)).len() {
                let c = addressable(kids(a))[i as int];
                assert(addressable(kids(a)).contains(c));
                kids(a).lemma_filter_contains_rev(countable(), c);
                lemma_covers_walk(c, p.skip(1), n);
            }
        }
    }
}

/// The index of the first declared name equal to `x`.
pub open spec fn name_position(names: Seq<Seq<char>>, x: Seq<char>) -> int {
    choose|i: int| is_first_index(names, x, i)
}

/// The text that a selector followed from `root` yields for the `k`-th of
/// `names`.
pub open spec fn rendering_at(
    names: Seq<Seq<char>>,
    root: AST,
    sel: AST,
    k: int,
    markdown: bool,
) -> Seq<char> {
    tidy(plain(target_at(root, sel), k, names[k], markdown))
}

/// The texts that a selector followed from `root` yields: one for the name
/// it ends in, else one for each of `names`.
pub open spec fn renderings_at(names: Seq<Seq<char>>, root: AST, sel: AST, markdown: bool) -> Seq<
    Seq<char>,
> {
    if picks_name(sel) {
        seq![rendering_at(names, root, sel, name_position(names, picked_name(sel)), markdown)]
    } else {
        Seq::new(names.len(), |k: int| rendering_at(names, root, sel, k, markdown))
    }
}

/// The text that a resolvable selector yields for the `k`-th declared name.
pub open spec fn rendering(doc: Document, sel: AST, k: int, markdown: bool) -> Seq<char> {
    rendering_at(strs(doc.names@), doc.ast, sel, k, markdown)
}

/// Renders what a selector followed from `root` leads to: one text for the
/// name it ends in, or one for each of `names`, in their order.
pub fn render_from(names: &Vec<String>, root: &AST, sel: &AST, markdown: bool) -> (r: Vec<String>)
    requires
        wf(*root),
        resolvable_at(strs(names@), *root, *sel),
        covers(*root, names@.len() as nat),
    ensures
        picks_name(*sel) ==> r@.len() == 1 && r@[0]@ == rendering_at(
            strs(names@),
            *root,
            *sel,
            name_position(strs(names@), picked_name(*sel)),
            markdown,
        ),
        !picks_name(*sel) ==> r@.len() == names@.len() && forall|k: int|
            0 <= k < r@.len() ==> (#[trigger] r@[k])@ == rendering_at(
                strs(names@),
                *root,
                *sel,
                k,
                markdown,
            ),
        strs(r@) == renderings_at(strs(names@), *root, *sel, markdown),
{
    let (target, last) = select_at(names, root, sel);
    proof {
        if let NodeKind::Selector { path, trailing_dot, .. } = &sel.node {
            lemma_covers_walk(*root, walked(strs(path@), *trailing_dot), names@.len() as nat);
        }
    }
    if let Some(i) = last {
        proof {
            lemma_covers_fewer(*target, names@.len() as nat, (i + 1) as nat);
            let x = picked_name(*sel);
            assert(is_first_index(strs(names@), x, i as int));
            let j = name_position(strs(names@), x);
            assert(is_first_index(strs(names@), x, j));
            assert(j == i as int);
            assert(strs(names@)[i as int] == names@[i as int]@);
        }
        let text = to_plain(target, (i, names[i].as_str()), markdown);
        let v = vec![tidy_lines(&text)];
        assert(strs(v@) =~= renderings_at(strs(names@), *root, *sel, markdown));
        v
    } else {
        let mut out: Vec<String> = Vec::new();
        let mut k: usize = 0;
        while k < names.len()
            invariant
                k <= names@.len(),
                out@.len() == k,
                *target == target_at(*root, *sel),
                covers(*target, names@.len() as nat),
                forall|j: int|
                    0 <= j < k ==> (#[trigger] out@[j])@ == rendering_at(
                        strs(names@),
                        *root,
                        *sel,
                        j,
                        markdown,
                    ),
            decreases names.len() - k,
        {
            proof {
                lemma_covers_fewer(*target, names@.len() as nat, (k + 1) as nat);
                assert(strs(names@)[k as int] == names@[k as int]@);
            }
            let text = to_plain(target, (k, names[k].as_str()), markdown);
            out.push(tidy_lines(&text));
            k = k + 1;
        }
        assert(strs(out@) =~= renderings_at(strs(names@), *root, *sel, markdown));
        out
    }
}

/// Renders what a selector leads to from the root of `doc`: one text for
/// the name it ends in, or one for each declared name, in their order.
pub fn render_plain(doc: &Document, sel: &Selector, markdown: bool) -> (r: Vec<String>)
    requires
        wf(doc.ast),
        resolvable(*doc, sel.0),
        covers(doc.ast, doc.names@.len() as nat),
    ensures
        picks_name(sel.0) ==> r@.len() == 1 && r@[0]@ == rendering(
            *doc,
            sel.0,
            name_position(strs(doc.names@), picked_name(sel.0)),
            markdown,
        ),
        !picks_name(sel.0) ==> r@.len() == doc.names@.len() && forall|k: int|
            0 <= k < r@.len() ==> (#[trigger] r@[k])@ == rendering(*doc, sel.0, k, markdown),
{
    render_from(&doc.names, &doc.ast, &sel.0, markdown)
}

impl Selector {
    /// Accepts a selector node that can be rendered against `doc`: a global
    /// one whose path resolves and whose last segment, if it names a target,
    /// is a declared name. Otherwise every fault is reported.
    pub fn checked(doc: &Document, sel: AST) -> (r: Result<Selector, Vec<ParseError>>)
        requires
            wf(doc.ast),
            sel.node is Selector,
        ensures
            r is Ok <==> global_selector_faults(*doc, sel).len() == 0,
            r matches Ok(s) ==> s.0 == sel && resolvable(*doc, s.0),
            r matches Err(errs) ==> faults(errs@) == global_selector_faults(*doc, sel),
    {
        let errs = validate_non_local_selector(doc, &sel);
        if errs.len() == 0 {
            proof {
                if let NodeKind::Selector { path, trailing_dot, .. } = &sel.node {
                    let trailing_dot = *trailing_dot;
                    let p = strs(path@);
                    assert(faults(errs@).len() == 0);
                    if names_target(p, trailing_dot) && !strs(doc.names@).contains(p.last()) {
                        assert(selector_faults(strs(doc.names@), sel, doc.ast).len() > 0);
                    }
                    if !(walk(doc.ast, walked(p, trailing_dot)) is Reached) {
                        assert(selector_faults(strs(doc.names@), sel, doc.ast).len() > 0);
                    }
                }
            }
            Ok(Selector(sel))
        } else {
            Err(errs)
        }
    }
}

/// Whether every sentence set under `a` holds at least `n` sentences, as
/// rendering for `n` names needs.
pub fn sentences_fit(a: &AST, n: usize) -> (r: bool)
    ensures
        r == covers(*a, n as nat),
    decreases a,
{
    match &a.node {
        NodeKind::Sen(v) => v.len() >= n,
        NodeKind::Section { children, .. } | NodeKind::Top { children, .. } => {
            let mut k: usize = 0;
            while k < children.len()
                invariant
                    k <= children@.len(),
                    children@ == kids(*a),
                    forall|j: int| 0 <= j < k ==> covers(#[trigger] kids(*a)[j], n as nat),
                decreases children.len() - k,
            {
                if !sentences_fit(&children[k], n) {
                    return false;
                }
                k = k + 1;
            }
            true
        },
        _ => true,
    }
}

} // verus!
