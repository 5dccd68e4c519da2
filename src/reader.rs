use crate::builder::{item_span, levels_positive, Item};
use crate::formatter::chars_of;
use crate::parser::{parse_selector, NodeKind, Span, AST};
use crate::position::{byte_len, utf8_width};
use vstd::prelude::*;

verus! {

/// The items' spans lie, in order and apart, within `total` bytes.
pub open spec fn spans_in_order(items: Seq<Item>, total: nat) -> bool {
    &&& forall|j: int|
        0 <= j < items.len() ==> item_span(#[trigger] items[j]).start < item_span(items[j]).end
            <= total
    &&& forall|j: int, k: int|
        0 <= j < k < items.len() ==> item_span(#[trigger] items[j]).end <= item_span(
            #[trigger] items[k],
        ).start
}

/// Whether byte `b` of the text `s` is where a `#` starts.
pub open spec fn hash_at(s: Seq<char>, b: nat) -> bool {
    exists|k: int| 0 <= k < s.len() && byte_len(s.take(k)) == b && #[trigger] s[k] == '#'
}

/// Whether `c` may stand in an identifier: a name, an alias or a path
/// segment.
pub open spec fn ident_char(c: char) -> bool {
    ('a' <= c <= 'z') || ('A' <= c <= 'Z') || ('0' <= c <= '9') || c == '_' || c == '-'
}

/// Whether `s` is an identifier: one or more identifier characters.
pub open spec fn is_ident(s: Seq<char>) -> bool {
    s.len() > 0 && forall|k: int| 0 <= k < s.len() ==> ident_char(#[trigger] s[k])
}

/// Whether every string of `v` is an identifier.
pub open spec fn all_idents(v: Seq<String>) -> bool {
    forall|k: int| 0 <= k < v.len() ==> is_ident(#[trigger] v[k]@)
}

/// Whether an optional alias is an identifier where present.
pub open spec fn ident_alias(a: Option<String>) -> bool {
    a matches Some(x) ==> is_ident(x@)
}

/// The names, aliases and path segments of the item are identifiers, and a
/// declaration lists at least one name.
pub open spec fn well_named(it: Item) -> bool {
    match it {
        Item::Names { names, .. } => names@.len() > 0 && all_idents(names@),
        Item::Section { alias, .. } => ident_alias(alias),
        Item::All { alias, all_or_names, .. } => ident_alias(alias) && (all_or_names matches Some(
            v,
        ) ==> v@.len() > 0 && all_idents(v@)),
        Item::Sentences { alias, .. } => ident_alias(alias),
        Item::Selector { path, .. } => all_idents(path@),
    }
}

/// A cursor over the characters of a text that knows its byte offset.
struct Cursor {
    cs: Vec<char>,
    i: usize,
    b: usize,
}

impl Cursor {
    spec fn ok(&self) -> bool {
        &&& self.i <= self.cs@.len()
        &&& self.b == byte_len(self.cs@.take(self.i as int))
        &&& byte_len(self.cs@) <= usize::MAX
    }

    fn peek(&self) -> (r: Option<char>)
        requires
            self.ok(),
        ensures
            self.i < self.cs@.len() ==> r == Some(self.cs@[self.i as int]),
            self.i >= self.cs@.len() ==> r is None,
    {
        if self.i < self.cs.len() {
            Some(self.cs[self.i])
        } else {
            None
        }
    }

    fn bump(&mut self)
        requires
            old(self).ok(),
            old(self).i < old(self).cs@.len(),
        ensures
            final(self).ok(),
            final(self).cs == old(self).cs,
            final(self).i == old(self).i + 1,
            final(self).b > old(self).b,
    {
        let c = self.cs[self.i];
        proof {
            let s = self.cs@;
            assert(s.take(self.i + 1).drop_last() =~= s.take(self.i as int));
            lemma_prefix_len(s, self.i + 1);
        }
        let w: usize = if (c as u32) < 0x80 {
            1
        } else if (c as u32) < 0x800 {
            2
        } else if (c as u32) < 0x10000 {
            3
        } else {
            4
        };
        assert(w == utf8_width(c));
        let n = self.cs.len();
        assert(self.i < n);
        self.b = self.b + w;
        self.i = self.i + 1;
    }

    /// Skips spaces and tabs.
    fn skip_blank(&mut self)
        requires
            old(self).ok(),
        ensures
            final(self).ok(),
            final(self).cs == old(self).cs,
            final(self).b >= old(self).b,
            final(self).i >= old(self).i,
    {
        while self.i < self.cs.len() && (self.cs[self.i] == ' ' || self.cs[self.i] == '\t')
            invariant
                self.ok(),
                self.cs == old(self).cs,
                self.b >= old(self).b,
                self.i >= old(self).i,
            decreases self.cs@.len() - self.i,
        {
            self.bump();
        }
    }

    /// Reads an identifier; none where the next character cannot start one.
    fn ident(&mut self) -> (r: Option<String>)
        requires
            old(self).ok(),
        ensures
            final(self).ok(),
            final(self).cs == old(self).cs,
            final(self).b >= old(self).b,
            final(self).i >= old(self).i,
            r is Some <==> final(self).i > old(self).i,
            r matches Some(x) ==> is_ident(x@),
    {
        let mut out = String::new();
        let mut any = false;
        while self.i < self.cs.len() && is_ident_char(self.cs[self.i])
            invariant
                self.ok(),
                self.cs == old(self).cs,
                self.b >= old(self).b,
                self.i >= old(self).i,
                any <==> self.i > old(self).i,
                any <==> out@.len() > 0,
                forall|k: int| 0 <= k < out@.len() ==> ident_char(#[trigger] out@[k]),
            decreases self.cs@.len() - self.i,
        {
            crate::formatter::push_char(&mut out, self.cs[self.i]);
            self.bump();
            any = true;
        }
        if any {
            Some(out)
        } else {
            None
        }
    }

    /// Reads text up to an unescaped `close`, which is consumed too; a
    /// backslash keeps the character after it, and both stay in the text.
    fn text_until(&mut self, close: char) -> (r: Option<String>)
        requires
            old(self).ok(),
        ensures
            final(self).ok(),
            final(self).cs == old(self).cs,
            final(self).b >= old(self).b,
            final(self).i >= old(self).i,
            r is Some ==> final(self).i > old(self).i,
    {
        let mut out = String::new();
        while self.i < self.cs.len() && self.cs[self.i] != close
            invariant
                self.ok(),
                self.cs == old(self).cs,
                self.b >= old(self).b,
                self.i >= old(self).i,
            decreases self.cs@.len() - self.i,
        {
            let c = self.cs[self.i];
            crate::formatter::push_char(&mut out, c);
            self.bump();
            if c == '\\' && self.i < self.cs.len() {
                crate::formatter::push_char(&mut out, self.cs[self.i]);
                self.bump();
            }
        }
        if self.i < self.cs.len() {
            self.bump();
            Some(out)
        } else {
            None
        }
    }

    /// Reads identifiers separated by commas, up to `close`, which is
    /// consumed too.
    fn ident_list(&mut self, close: char) -> (r: Option<Vec<String>>)
        requires
            old(self).ok(),
        ensures
            final(self).ok(),
            final(self).cs == old(self).cs,
            final(self).b >= old(self).b,
            final(self).i >= old(self).i,
            r is Some ==> final(self).i > old(self).i,
            r matches Some(v) ==> v@.len() > 0 && all_idents(v@),
    {
        let mut out: Vec<String> = Vec::new();
        loop
            invariant
                self.ok(),
                self.cs == old(self).cs,
                self.b >= old(self).b,
                self.i >= old(self).i,
                all_idents(out@),
            decreases self.cs@.len() - self.i,
        {
            self.skip_blank();
            let start = self.i;
            match self.ident() {
                Some(n) => {
                    let ghost before = out@;
                    out.push(n);
                    assert forall|k: int| 0 <= k < out@.len() implies is_ident(
                        #[trigger] out@[k]@,
                    ) by {
                        if k < before.len() {
                            assert(out@[k] == before[k]);
                        }
                    }
                },
                None => return None,
            }
            self.skip_blank();
            match self.peek() {
                Some(c) => {
                    self.bump();
                    if c == close {
                        return Some(out);
                    }
                    if c != ',' {
                        return None;
                    }
                },
                None => return None,
            }
            assert(self.i > start);
        }
    }
}

/// Whether `it` is an item read from bytes `start` to `end`: a heading has a
/// positive level.
pub open spec fn read_between(it: Item, start: nat, end: nat) -> bool {
    &&& item_span(it) == Span { start: start as usize, end: end as usize }
    &&& well_named(it)
    &&& (it matches Item::Section { level, .. } ==> level >= 1)
}

/// Expects `c` next, and consumes it.
fn expect(cur: &mut Cursor, c: char) -> (r: bool)
    requires
        old(cur).ok(),
    ensures
        final(cur).ok(),
        final(cur).cs == old(cur).cs,
        final(cur).b >= old(cur).b,
        final(cur).i >= old(cur).i,
{
    cur.skip_blank();
    match cur.peek() {
        Some(d) => if d == c {
            cur.bump();
            true
        } else {
            false
        },
        None => false,
    }
}

/// Reads a selector whose `#` is consumed: `.`, `..`, `./a.b`, `a.b.c`,
/// `a.b.`; `first` is a segment read already.
fn read_selector(cur: &mut Cursor, start: usize, first: Option<String>) -> (r: Item)
    requires
        ident_alias(first),
        old(cur).ok(),
        start < old(cur).b,
    ensures
        final(cur).ok(),
        final(cur).cs == old(cur).cs,
        final(cur).b >= old(cur).b,
        final(cur).i >= old(cur).i,
        read_between(r, start as nat, final(cur).b as nat),
{
    let ghost b0 = cur.b;
    let mut path: Vec<String> = Vec::new();
    let mut local = false;
    let mut trailing_dot = false;
    let mut more = true;
    match first {
        Some(seg) => path.push(seg),
        None => {
            let mut lead = false;
            if cur.peek() == Some('.') {
                cur.bump();
                lead = true;
            }
            if cur.peek() == Some('/') {
                cur.bump();
                local = true;
            }
            match cur.ident() {
                Some(seg) => path.push(seg),
                None => {
                    if lead && cur.peek() == Some('.') {
                        cur.bump();
                    }
                    trailing_dot = true;
                    more = false;
                },
            }
        },
    }
    while more && cur.peek() == Some('.')
        invariant
            all_idents(path@),
            cur.ok(),
            cur.cs == old(cur).cs,
            cur.i >= old(cur).i,
            cur.b >= b0,
            b0 == old(cur).b,
        decreases cur.cs@.len() - cur.i,
    {
        cur.bump();
        match cur.ident() {
            Some(seg) => {
                let ghost before = path@;
                path.push(seg);
                assert forall|k: int| 0 <= k < path@.len() implies is_ident(
                    #[trigger] path@[k]@,
                ) by {
                    if k < before.len() {
                        assert(path@[k] == before[k]);
                    }
                }
            },
            None => {
                trailing_dot = true;
                more = false;
            },
        }
    }
    Item::Selector { local, path, trailing_dot, span: Span { start, end: cur.b } }
}

/// Reads a heading whose `#` and alias are consumed: a run of `#` gives the
/// level, and the rest of the line the title.
fn read_section(cur: &mut Cursor, start: usize, alias: Option<String>) -> (r: Item)
    requires
        ident_alias(alias),
        old(cur).ok(),
        start < old(cur).b,
        old(cur).i < old(cur).cs@.len(),
        old(cur).cs@[old(cur).i as int] == '#',
    ensures
        final(cur).ok(),
        final(cur).cs == old(cur).cs,
        final(cur).b >= old(cur).b,
        final(cur).i >= old(cur).i,
        read_between(r, start as nat, final(cur).b as nat),
{
    let ghost b0 = cur.b;
    let mut level: usize = 0;
    let ghost i0 = cur.i;
    while cur.peek() == Some('#')
        invariant
            cur.ok(),
            cur.cs == old(cur).cs,
            cur.i >= i0,
            level == cur.i - i0,
            cur.b >= b0,
            b0 == old(cur).b,
            i0 == old(cur).i,
            old(cur).cs@[i0 as int] == '#',
            i0 < cur.cs@.len(),
        decreases cur.cs@.len() - cur.i,
    {
        cur.bump();
        level = level + 1;
    }
    cur.skip_blank();
    let mut title = String::new();
    while cur.peek().is_some() && cur.peek() != Some('\n')
        invariant
            cur.ok(),
            cur.cs == old(cur).cs,
            cur.i >= i0,
            cur.b >= b0,
            b0 == old(cur).b,
            level >= 1,
        decreases cur.cs@.len() - cur.i,
    {
        let c = cur.cs[cur.i];
        crate::formatter::push_char(&mut title, c);
        cur.bump();
    }
    Item::Section { alias, level, title, span: Span { start, end: cur.b } }
}

/// Reads sentences whose `#` and alias are consumed: `[t1][t2]...`.
fn read_sentences(cur: &mut Cursor, start: usize, alias: Option<String>) -> (r: Result<Item, Span>)
    requires
        ident_alias(alias),
        old(cur).ok(),
        start < old(cur).b,
    ensures
        final(cur).ok(),
        final(cur).cs == old(cur).cs,
        final(cur).b >= old(cur).b,
        final(cur).i >= old(cur).i,
        r matches Ok(it) ==> read_between(it, start as nat, final(cur).b as nat),
        r matches Err(sp) ==> sp.start == start,
{
    let ghost b0 = cur.b;
    let mut sentences: Vec<String> = Vec::new();
    while cur.peek() == Some('[')
        invariant
            cur.ok(),
            cur.cs == old(cur).cs,
            cur.i >= old(cur).i,
            cur.b >= b0,
            b0 == old(cur).b,
        decreases cur.cs@.len() - cur.i,
    {
        cur.bump();
        match cur.text_until(']') {
            Some(t) => sentences.push(t),
            None => {
                return Err(Span { start, end: cur.b });
            },
        }
    }
    Ok(Item::Sentences { alias, sentences, span: Span { start, end: cur.b } })
}

/// Reads filtered content whose `#` and alias are consumed: `{{t}}`,
/// `{all, {t}}` or `{[n1, n2], {t}}`.
fn read_block(cur: &mut Cursor, start: usize, alias: Option<String>) -> (r: Result<Item, Span>)
    requires
        ident_alias(alias),
        old(cur).ok(),
        start < old(cur).b,
    ensures
        final(cur).ok(),
        final(cur).cs == old(cur).cs,
        final(cur).b >= old(cur).b,
        final(cur).i >= old(cur).i,
        r matches Ok(it) ==> read_between(it, start as nat, final(cur).b as nat),
        r matches Err(sp) ==> sp.start == start,
{
    let ghost b0 = cur.b;
    if !expect(cur, '{') {
        return Err(Span { start, end: cur.b });
    }
    cur.skip_blank();
    let mut targets: Option<Vec<String>> = None;
    if cur.peek() == Some('[') {
        cur.bump();
        match cur.ident_list(']') {
            Some(v) => {
                targets = Some(v);
            },
            None => {
                return Err(Span { start, end: cur.b });
            },
        }
        if !expect(cur, ',') {
            return Err(Span { start, end: cur.b });
        }
    } else if cur.peek() != Some('{') {
        match cur.ident() {
            Some(word) => {
                if word != String::from_str("all") {
                    return Err(Span { start, end: cur.b });
                }
            },
            None => {
                return Err(Span { start, end: cur.b });
            },
        }
        if !expect(cur, ',') {
            return Err(Span { start, end: cur.b });
        }
    }
    if !expect(cur, '{') {
        return Err(Span { start, end: cur.b });
    }
    let content = match cur.text_until('}') {
        Some(t) => t,
        None => {
            return Err(Span { start, end: cur.b });
        },
    };
    if !expect(cur, '}') {
        return Err(Span { start, end: cur.b });
    }
    Ok(Item::All { alias, all_or_names: targets, content, span: Span { start, end: cur.b } })
}

/// Reads one item at a `#`.
fn read_item(cur: &mut Cursor) -> (r: Result<Item, Span>)
    requires
        old(cur).ok(),
        old(cur).i < old(cur).cs@.len(),
        old(cur).cs@[old(cur).i as int] == '#',
    ensures
        final(cur).ok(),
        final(cur).cs == old(cur).cs,
        final(cur).b > old(cur).b,
        final(cur).i > old(cur).i,
        r matches Ok(it) ==> read_between(it, old(cur).b as nat, final(cur).b as nat),
        r matches Err(sp) ==> sp.start == old(cur).b,
{
    let start = cur.b;
    cur.bump();
    match cur.peek() {
        Some(c) => {
            if c == '(' {
                cur.bump();
                match cur.ident_list(')') {
                    Some(names) => Ok(Item::Names { names, span: Span { start, end: cur.b } }),
                    None => Err(Span { start, end: cur.b }),
                }
            } else if c == '.' || c == '/' {
                Ok(read_selector(cur, start, None))
            } else if c == '[' {
                read_sentences(cur, start, None)
            } else if c == '{' {
                read_block(cur, start, None)
            } else if c == '#' {
                Ok(read_section(cur, start, None))
            } else if is_ident_char(c) {
                let alias = cur.ident();
                match cur.peek() {
                    Some(d) => {
                        if d == '[' {
                            read_sentences(cur, start, alias)
                        } else if d == '{' {
                            read_block(cur, start, alias)
                        } else if d == '#' {
                            Ok(read_section(cur, start, alias))
                        } else {
                            Ok(read_selector(cur, start, alias))
                        }
                    },
                    None => Ok(read_selector(cur, start, alias)),
                }
            } else {
                Err(Span { start, end: cur.b })
            }
        },
        None => Err(Span { start, end: cur.b }),
    }
}

/// The reader of the document syntax.
#[derive(Debug)]
pub struct SandParser;

impl SandParser {
    /// Reads the items of a document: each starts at a `#` that no backslash
    /// escapes; text between items is skipped. On a malformed item, the span
    /// from its `#` to where reading stopped is handed back.
    pub fn parse(text: &str) -> (r: Result<Vec<Item>, Span>)
        requires
            byte_len(text@) <= usize::MAX,
        ensures
            r matches Ok(items) ==> {
                &&& levels_positive(items@)
                &&& spans_in_order(items@, byte_len(text@))
                &&& forall|j: int|
                    0 <= j < items@.len() ==> hash_at(
                        text@,
                        item_span(#[trigger] items@[j]).start as nat,
                    ) && well_named(items@[j])
            },
            r matches Err(sp) ==> sp.start <= sp.end <= byte_len(text@) && hash_at(
                text@,
                sp.start as nat,
            ),
    {
        let mut cur = Cursor { cs: chars_of(text), i: 0, b: 0 };
        assert(cur.cs@.take(0) =~= Seq::<char>::empty());
        let mut items: Vec<Item> = Vec::new();
        while cur.i < cur.cs.len()
            invariant
                cur.ok(),
                cur.cs@ == text@,
                levels_positive(items@),
                spans_in_order(items@, cur.b as nat),
                forall|j: int|
                    0 <= j < items@.len() ==> hash_at(
                        text@,
                        item_span(#[trigger] items@[j]).start as nat,
                    ) && well_named(items@[j]),
            decreases cur.cs@.len() - cur.i,
        {
            let c = cur.cs[cur.i];
            if c == '\\' {
                cur.bump();
                if cur.i < cur.cs.len() {
                    cur.bump();
                }
            } else if c == '#' {
                let ghost before = items@;
                let ghost b0 = cur.b;
                assert(hash_at(text@, b0 as nat)) by {
                    assert(cur.cs@[cur.i as int] == '#');
                }
                match read_item(&mut cur) {
                    Ok(it) => {
                        items.push(it);
                        proof {
                            assert(items@ =~= before.push(it));
                            assert forall|j: int| 0 <= j < items@.len() implies (#[trigger] items@[j] matches Item::Section { level, .. } ==> level >= 1) by {
                                if j < before.len() {
                                    assert(items@[j] == before[j]);
                                }
                            }
                            assert forall|j: int, k: int| 0 <= j < k < items@.len() implies item_span(#[trigger] items@[j]).end <= item_span(#[trigger] items@[k]).start by {
                                assert(items@[j] == before[j]);
                                if k < before.len() {
                                    assert(items@[k] == before[k]);
                                }
                            }
                            assert forall|j: int| 0 <= j < items@.len() implies item_span(#[trigger] items@[j]).start < item_span(items@[j]).end <= cur.b by {
                                if j < before.len() {
                                    assert(items@[j] == before[j]);
                                }
                            }
                            assert forall|j: int| 0 <= j < items@.len() implies hash_at(
                                text@,
                                item_span(#[trigger] items@[j]).start as nat,
                            ) && well_named(items@[j]) by {
                                if j < before.len() {
                                    assert(items@[j] == before[j]);
                                }
                            }
                        }
                    },
                    Err(sp) => {
                        proof {
                            lemma_prefix_len(cur.cs@, cur.i as int);
                        }
                        return Err(Span { start: sp.start, end: cur.b });
                    },
                }
            } else {
                cur.bump();
            }
        }
        proof {
            assert(cur.cs@.take(cur.i as int) =~= cur.cs@);
        }
        Ok(items)
    }

    /// Reads a text that holds one selector and nothing else.
    pub fn parse_selector(text: &str) -> (r: Result<AST, Span>)
        requires
            byte_len(text@) <= usize::MAX,
        ensures
            r matches Ok(a) ==> (a.node matches NodeKind::Selector { path, .. } && all_idents(
                path@,
            )),
    {
        let read = SandParser::parse(text);
        match read {
            Ok(mut items) => {
                if items.len() != 1 {
                    return Err(Span { start: 0, end: 0 });
                }
                assert(well_named(items@[0]));
                match items.pop() {
                    Some(Item::Selector { local, path, trailing_dot, span }) => Ok(
                        parse_selector(span, local, path, trailing_dot),
                    ),
                    Some(other) => Err(match other {
                        Item::Names { span, .. } => span,
                        Item::Section { span, .. } => span,
                        Item::All { span, .. } => span,
                        Item::Sentences { span, .. } => span,
                        Item::Selector { span, .. } => span,
                    }),
                    None => Err(Span { start: 0, end: 0 }),
                }
            },
            Err(sp) => Err(sp),
        }
    }
}

proof fn lemma_prefix_len(s: Seq<char>, k: int)
    requires
        0 <= k <= s.len(),
    ensures
        byte_len(s.take(k)) <= byte_len(s),
    decreases s.len() - k,
{
    if k < s.len() {
        lemma_prefix_len(s, k + 1);
        assert(s.take(k + 1).drop_last() =~= s.take(k));
    } else {
        assert(s.take(k) =~= s);
    }
}

/// Whether `c` may stand in an identifier.
fn is_ident_char(c: char) -> (r: bool)
    ensures
        r == ident_char(c),
{
    ('a' <= c && c <= 'z') || ('A' <= c && c <= 'Z') || ('0' <= c && c <= '9') || c == '_' || c
        == '-'
}

} // verus!
