use sand::hover::{hover_text, ALL_DOC, SECTION_DOC, SELECTOR_DOC, SENTENCE_DOC};
use sand::parser::Document;
use sand::reader::SandParser;

fn build(text: &str) -> Document {
    Document::build(&SandParser::parse(text).unwrap()).unwrap()
}

#[test]
fn test_documentation_constants() {
    assert!(!SECTION_DOC.is_empty());
    assert!(SECTION_DOC.contains("Section"));
    assert!(SECTION_DOC.contains("sand"));

    assert!(!ALL_DOC.is_empty());
    assert!(ALL_DOC.contains("ApplyAll"));
    assert!(ALL_DOC.contains("sand"));

    assert!(!SENTENCE_DOC.is_empty());
    assert!(SENTENCE_DOC.contains("Parallel Sentences"));
    assert!(SENTENCE_DOC.contains("sand"));

    assert!(!SELECTOR_DOC.is_empty());
    assert!(SELECTOR_DOC.contains("Selector"));
    assert!(SELECTOR_DOC.contains("sand"));
}

#[test]
fn hover_documents_each_kind_of_node() {
    let text = "#(en, ja)\n#sec# Title\n#s[Hi][Yo]\n#{{all}}\n";
    let doc = build(text);
    assert_eq!(hover_text(&doc, text.find("#sec").unwrap() + 1).unwrap(), SECTION_DOC);
    assert_eq!(hover_text(&doc, text.find("#s[").unwrap() + 1).unwrap(), SENTENCE_DOC);
    assert_eq!(hover_text(&doc, text.find("#{").unwrap() + 1).unwrap(), ALL_DOC);
    assert!(hover_text(&doc, 2).is_none());
}

#[test]
fn hover_renders_selectors() {
    let text = "#(en, ja)\n#sec# Title\n#s[Hi][Yo]\n#./s.\n#.sec.s.ja\n";
    let doc = build(text);
    let local = hover_text(&doc, text.find("#./").unwrap() + 1).unwrap();
    assert_eq!(local, format!("Hi\n\n---\n\nYo\n\n---\n\n{SELECTOR_DOC}"));
    let global = hover_text(&doc, text.find("#.sec").unwrap() + 1).unwrap();
    assert_eq!(global, format!("Yo\n\n---\n\n{SELECTOR_DOC}"));
}
