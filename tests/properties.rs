use rustc_hash::FxHashMap;
use sand::builder::Item;
use sand::formatter::{normalize, render_plain, select, sentences_fit, tidy_lines, trim, Selector};
use sand::parser::{
    parse_index, parse_selector, validate_non_local_selector, Document, NodeKind, NodeMeta,
    ParseError, SelectorError, Span, AST,
};

fn sp(start: usize, end: usize) -> Span {
    Span { start, end }
}

fn strings(list: &[&str]) -> Vec<String> {
    list.iter().map(|s| s.to_string()).collect()
}

fn names(list: &[&str], start: usize, end: usize) -> Item {
    Item::Names { names: strings(list), span: sp(start, end) }
}

fn sentences(alias: Option<&str>, list: &[&str], start: usize, end: usize) -> Item {
    Item::Sentences { alias: alias.map(|s| s.to_string()), sentences: strings(list), span: sp(start, end) }
}

fn section(alias: Option<&str>, level: usize, title: &str, start: usize, end: usize) -> Item {
    Item::Section { alias: alias.map(|s| s.to_string()), level, title: title.to_string(), span: sp(start, end) }
}

fn selector_item(local: bool, path: &[&str], trailing_dot: bool, start: usize, end: usize) -> Item {
    Item::Selector { local, path: strings(path), trailing_dot, span: sp(start, end) }
}

fn selector(path: &[&str], trailing_dot: bool) -> AST {
    parse_selector(sp(0, 0), false, strings(path), trailing_dot)
}

fn render(doc: &Document, path: &[&str], trailing_dot: bool, markdown: bool) -> Vec<String> {
    let sel = Selector::checked(doc, selector(path, trailing_dot)).unwrap();
    assert!(sentences_fit(&doc.ast, doc.names.len()));
    render_plain(doc, &sel, markdown)
}

#[test]
fn wildcard_renders_once_per_name() {
    let items = vec![
        names(&["en", "ja", "fr"], 0, 13),
        sentences(Some("s1"), &["A", "B", "C"], 14, 26),
        Item::All {
            alias: None,
            all_or_names: Some(strings(&["ja"])),
            content: "only ja".to_string(),
            span: sp(27, 45),
        },
        Item::All { alias: None, all_or_names: None, content: "every".to_string(), span: sp(46, 56) },
    ];
    let doc = Document::build(&items).unwrap();
    let out = render(&doc, &[], true, false);
    assert_eq!(out, vec!["A every", "B only ja every", "C every"]);
}

#[test]
fn shared_alias_reports_each_span() {
    let items = vec![
        names(&["en"], 0, 5),
        sentences(Some("s1"), &["One"], 10, 20),
        sentences(Some("s1"), &["Two"], 30, 40),
    ];
    let errs = Document::build(&items).unwrap_err();
    assert_eq!(errs.len(), 2);
    assert!(errs.contains(&ParseError::DuplicateAlias("s1".to_string(), sp(10, 20))));
    assert!(errs.contains(&ParseError::DuplicateAlias("s1".to_string(), sp(30, 40))));
}

#[test]
fn shared_alias_inside_section_reports_each_span() {
    let items = vec![
        names(&["en"], 0, 5),
        section(Some("sec"), 1, "Title", 6, 20),
        sentences(Some("x"), &["One"], 21, 30),
        sentences(None, &["Mid"], 31, 40),
        sentences(Some("x"), &["Two"], 41, 50),
        sentences(Some("x"), &["Three"], 51, 60),
    ];
    let errs = Document::build(&items).unwrap_err();
    assert_eq!(errs.len(), 3);
    for span in [sp(21, 30), sp(41, 50), sp(51, 60)] {
        assert!(errs.contains(&ParseError::DuplicateAlias("x".to_string(), span)));
    }
}

#[test]
fn alias_equal_to_name_conflicts_anywhere() {
    let items = vec![
        names(&["en", "ja"], 0, 9),
        section(None, 1, "Outer", 10, 20),
        section(None, 2, "Inner", 21, 31),
        sentences(Some("en"), &["Test", "テスト"], 32, 50),
    ];
    let errs = Document::build(&items).unwrap_err();
    assert_eq!(errs, vec![ParseError::AliasConflictWithNames("en".to_string(), sp(32, 50))]);
}

#[test]
fn index_and_alias_reach_the_same_node() {
    let items = vec![
        names(&["en"], 0, 5),
        section(Some("sec"), 1, "Title", 6, 20),
        selector_item(false, &["sec", "child", "en"], false, 21, 38),
        sentences(Some("child"), &["First"], 39, 50),
        sentences(None, &["Second"], 51, 60),
    ];
    let doc = Document::build(&items).unwrap();
    let by_index = Selector::checked(&doc, selector(&["sec", "0", "en"], false)).unwrap();
    let by_alias = Selector::checked(&doc, selector(&["sec", "child", "en"], false)).unwrap();
    let (a, ia) = select(&doc, &by_index);
    let (b, ib) = select(&doc, &by_alias);
    assert!(std::ptr::eq(a, b));
    assert_eq!(ia, Some(0));
    assert_eq!(ib, Some(0));
    assert_eq!(render_plain(&doc, &by_index, false), vec!["First"]);
    let second = Selector::checked(&doc, selector(&["sec", "1", "en"], false)).unwrap();
    let (c, _) = select(&doc, &second);
    assert!(matches!(&c.node, NodeKind::Sen(v) if v[0] == "Second"));
}

#[test]
fn escape_decoding_is_single_pass() {
    assert_eq!(normalize("\\\\n"), "\\n");
    assert_eq!(normalize("\\n"), "\n");
    assert_eq!(normalize("\\q\\}"), "\\q}");
}

#[test]
fn trim_collapses_every_run() {
    assert_eq!(trim("  a\n   b  \tc "), "a b c");
}

#[test]
fn scenario_sentence_set_per_name() {
    let items = vec![names(&["en", "ja"], 0, 9), sentences(Some("s1"), &["Hi", "Yo"], 10, 22)];
    let doc = Document::build(&items).unwrap();
    assert_eq!(render(&doc, &["s1", "en"], false, false), vec!["Hi"]);
    assert_eq!(render(&doc, &["s1", "ja"], false, false), vec!["Yo"]);
    assert_eq!(render(&doc, &[], true, false), vec!["Hi", "Yo"]);
}

#[test]
fn scenario_markdown_heading_before_content() {
    let items = vec![
        names(&["en", "ja"], 0, 9),
        section(None, 2, "T", 10, 16),
        sentences(None, &["A", "B"], 17, 23),
    ];
    let doc = Document::build(&items).unwrap();
    let out = render(&doc, &[], true, true);
    let first = &out[0];
    let heading = first.find("## T").unwrap();
    let content = first.find('A').unwrap();
    assert!(heading < content);
    assert_eq!(first, "## T\nA");
    assert_eq!(out[1], "## T\nB");
}

#[test]
fn scenario_two_name_declarations_fail() {
    let items = vec![
        names(&["en"], 0, 5),
        sentences(None, &["Hi"], 6, 10),
        names(&["en"], 11, 16),
    ];
    let errs = Document::build(&items).unwrap_err();
    assert_eq!(errs.len(), 2);
    assert!(errs.contains(&ParseError::MultipleNameDefine(sp(0, 5))));
    assert!(errs.contains(&ParseError::MultipleNameDefine(sp(11, 16))));
}

#[test]
fn three_name_declarations_all_reported() {
    let items = vec![names(&["a"], 0, 3), names(&["b"], 4, 7), names(&["c"], 8, 11)];
    let errs = Document::build(&items).unwrap_err();
    assert_eq!(errs.len(), 3);
}

#[test]
fn missing_names_comes_with_other_errors() {
    let items = vec![
        sentences(Some("s"), &["One"], 0, 8),
        sentences(Some("s"), &["Two"], 9, 17),
    ];
    let errs = Document::build(&items).unwrap_err();
    assert_eq!(errs.len(), 3);
    assert!(errs.contains(&ParseError::MissingNames));
}

#[test]
fn sections_nest_by_level() {
    let items = vec![
        names(&["en"], 0, 5),
        section(Some("a"), 1, "A", 6, 10),
        section(Some("b"), 2, "B", 11, 15),
        sentences(Some("x"), &["in b"], 16, 20),
        section(Some("c"), 1, "C", 21, 25),
        sentences(Some("y"), &["in c"], 26, 30),
    ];
    let doc = Document::build(&items).unwrap();
    assert_eq!(render(&doc, &["a", "b", "x", "en"], false, false), vec!["in b"]);
    assert_eq!(render(&doc, &["c", "y", "en"], false, false), vec!["in c"]);
    assert_eq!(render(&doc, &["a", "en"], false, false), vec!["in b"]);
    assert_eq!(render(&doc, &["en"], false, false), vec!["in b in c"]);
}

#[test]
fn selector_errors_are_reported() {
    let items = vec![names(&["en"], 0, 5), sentences(Some("s"), &["Hi"], 6, 12)];
    let doc = Document::build(&items).unwrap();
    let sel = |path: &[&str], dot: bool| validate_non_local_selector(&doc, &selector(path, dot));
    assert_eq!(
        sel(&["s", "de"], false),
        vec![ParseError::Selector(SelectorError::LastIsNotDotOrName, sp(0, 0))]
    );
    assert_eq!(sel(&["3", "en"], false), vec![ParseError::Selector(SelectorError::OutOfIndex, sp(0, 0))]);
    assert_eq!(
        sel(&["zz", "en"], false),
        vec![ParseError::Selector(SelectorError::Neither("zz".to_string()), sp(0, 0))]
    );
    assert!(sel(&["s"], true).is_empty());
    let local = parse_selector(sp(1, 2), true, strings(&["s", "en"]), false);
    assert_eq!(
        validate_non_local_selector(&doc, &local),
        vec![ParseError::Selector(SelectorError::Local, sp(1, 2))]
    );
    assert!(Selector::checked(&doc, parse_selector(sp(1, 2), true, strings(&["s", "en"]), false)).is_err());
}

#[test]
fn selectors_in_documents_are_checked() {
    let items = vec![
        names(&["en"], 0, 5),
        section(Some("sec"), 1, "T", 6, 10),
        sentences(Some("s"), &["Hi"], 11, 17),
        selector_item(true, &["s", "en"], false, 18, 25),
        selector_item(false, &["s", "en"], false, 26, 33),
    ];
    let errs = Document::build(&items).unwrap_err();
    assert_eq!(errs, vec![ParseError::Selector(SelectorError::Neither("s".to_string()), sp(26, 33))]);
}

#[test]
fn parse_index_reads_decimal_numbers() {
    assert_eq!(parse_index(&"12".to_string()), Some(12));
    assert_eq!(parse_index(&"+3".to_string()), Some(3));
    assert_eq!(parse_index(&"0".to_string()), Some(0));
    assert_eq!(parse_index(&"".to_string()), None);
    assert_eq!(parse_index(&"+".to_string()), None);
    assert_eq!(parse_index(&"-1".to_string()), None);
    assert_eq!(parse_index(&"1a".to_string()), None);
    assert_eq!(parse_index(&"99999999999999999999999".to_string()), None);
}

#[test]
fn tidy_lines_drops_empty_lines() {
    assert_eq!(tidy_lines(&"\n\n  ## T \n\n  A  b \n".to_string()), "## T\nA b");
    assert_eq!(tidy_lines(&"".to_string()), "");
}

#[test]
fn sentences_fit_checks_every_set() {
    let leaf = |v: &[&str]| AST { node: NodeKind::Sen(strings(v)), meta: NodeMeta { span: sp(0, 0), alias: None } };
    let root = AST {
        node: NodeKind::Top { aliases: FxHashMap::default(), children: vec![leaf(&["a", "b"]), leaf(&["c"])] },
        meta: NodeMeta { span: sp(0, 0), alias: None },
    };
    assert!(sentences_fit(&root, 1));
    assert!(!sentences_fit(&root, 2));
}

#[test]
fn find_parent_gives_the_enclosing_section() {
    let items = vec![
        names(&["en"], 0, 5),
        section(Some("sec"), 1, "T", 6, 10),
        sentences(None, &["Hi"], 11, 17),
        selector_item(true, &["0", "en"], false, 18, 25),
    ];
    let doc = Document::build(&items).unwrap();
    let node = doc.ast.find_node_at_position(20).unwrap();
    assert!(matches!(node.node, NodeKind::Selector { local: true, .. }));
    let parent = doc.ast.find_parent_at_position(20).unwrap();
    assert!(matches!(&parent.node, NodeKind::Section { content, .. } if content == "T"));
    let top = doc.ast.find_parent_at_position(8).unwrap();
    assert!(matches!(top.node, NodeKind::Top { .. }));
    assert!(doc.ast.find_parent_at_position(100).is_none());
}

#[test]
fn errors_describe_themselves() {
    assert_eq!(ParseError::MissingNames.message(), "names are not defined");
    assert_eq!(
        ParseError::DuplicateAlias("s1".to_string(), sp(1, 2)).message(),
        "aliases are duplicated: s1"
    );
    assert_eq!(
        ParseError::Selector(SelectorError::Neither("x".to_string()), sp(1, 2)).message(),
        "selector is incorrect: neither a number nor an alias: x"
    );
    assert_eq!(ParseError::MissingNames.span(), sp(0, 1));
    assert_eq!(ParseError::DuplicateNames("a".to_string(), sp(3, 4)).span(), sp(3, 4));
}
