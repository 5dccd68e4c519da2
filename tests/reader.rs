use sand::builder::Item;
use sand::formatter::{render_plain, Selector};
use sand::parser::{Document, ParseError, Span};
use sand::reader::SandParser;

fn build(text: &str) -> Result<Document, Vec<ParseError>> {
    Document::build(&SandParser::parse(text).unwrap())
}

#[test]
fn reader_reads_every_kind_of_item() {
    let text = "#(en, ja)\n#s1[Hi][Yo]\n#sec## Title\n#{[ja], {only}}\n#.s1.en\n";
    let items = SandParser::parse(text).unwrap();
    assert_eq!(items.len(), 5);
    assert!(matches!(&items[0], Item::Names { names, span } if names == &vec!["en".to_string(), "ja".to_string()] && *span == Span { start: 0, end: 9 }));
    assert!(matches!(&items[1], Item::Sentences { alias: Some(a), sentences, .. } if a == "s1" && sentences == &vec!["Hi".to_string(), "Yo".to_string()]));
    assert!(matches!(&items[2], Item::Section { alias: Some(a), level: 2, title, .. } if a == "sec" && title == "Title"));
    assert!(matches!(&items[3], Item::All { all_or_names: Some(v), content, .. } if v == &vec!["ja".to_string()] && content == "only"));
    assert!(matches!(&items[4], Item::Selector { local: false, path, trailing_dot: false, .. } if path.len() == 2));
}

#[test]
fn reader_builds_the_original_documents() {
    assert!(build("\n#(en, ja)\n\n## Title\nContent\n").is_ok());
    assert!(matches!(
        build("\n## Section without names\nContent\n").unwrap_err().as_slice(),
        [ParseError::MissingNames]
    ));
    let doc = build("\n#(en)\n#hello# Section\n\nA section.\n\n#{all, { content }}\n\n#sents[One][Two]\n\n#.hello.sents.en\n").unwrap();
    let sel = Selector::checked(&doc, SandParser::parse_selector("#.hello.en").unwrap()).unwrap();
    assert_eq!(render_plain(&doc, &sel, false), vec!["content One"]);
}

#[test]
fn reader_keeps_escapes_for_rendering() {
    let doc = build("#(en)\n#s[a \\] b \\#c]\n").unwrap();
    let sel = Selector::checked(&doc, SandParser::parse_selector("#.").unwrap()).unwrap();
    assert_eq!(render_plain(&doc, &sel, false), vec!["a ] b #c"]);
}

#[test]
fn reader_reports_malformed_items() {
    assert_eq!(SandParser::parse("#(en\n").unwrap_err().start, 0);
    assert!(SandParser::parse("ok\n#s[open").is_err());
    assert!(SandParser::parse_selector("#(en)").is_err());
    let local = SandParser::parse_selector("#./a.b").unwrap();
    assert!(matches!(local.node, sand::parser::NodeKind::Selector { local: true, .. }));
}
