use prime_agent::agents_md::{render_sections, AgentSection, AgentsDoc, FormatErrorKind};

fn section(name: &str, content: &str) -> AgentSection {
    AgentSection::from_content(name.to_string(), content)
}

#[test]
fn from_content_splits_lines_and_keeps_trailing_empty() {
    let s = section("a", "x\ny\n");
    assert_eq!(s.content_lines, vec!["x".to_string(), "y".to_string(), String::new()]);
    assert_eq!(s.content_string(), "x\ny\n");
    assert!(section("a", "").content_lines.is_empty());
}

#[test]
fn parse_and_render_round_trip() {
    let text = "intro\n\n<!-- prime-agent(Start alpha) -->\n## alpha\nline1\nline2\n<!-- prime-agent(End alpha) -->\noutro\n";
    let doc = AgentsDoc::parse(text).unwrap();
    assert_eq!(doc.render(), text);
    assert_eq!(doc.section_names(), vec!["alpha".to_string()]);
    assert_eq!(doc.get_section("alpha").unwrap().content_string(), "line1\nline2");
}

#[test]
fn round_trip_without_trailing_newline_and_empty() {
    let text = "<!-- prime-agent(Start a) -->\n## a\n<!-- prime-agent(End a) -->";
    assert_eq!(AgentsDoc::parse(text).unwrap().render(), text);
    assert_eq!(AgentsDoc::parse("").unwrap().render(), "");
    assert_eq!(AgentsDoc::parse("\n").unwrap().render(), "\n");
}

#[test]
fn section_only_document_gives_fragment_content() {
    let text = "<!-- prime-agent(Start alpha) -->\n## alpha\nline1\nline2\n<!-- prime-agent(End alpha) -->";
    let doc = AgentsDoc::parse(text).unwrap();
    let content = doc.get_section("alpha").unwrap().content_string();
    assert_eq!(content, "line1\nline2");
    assert_eq!(doc.render(), text);
}

#[test]
fn malformed_start_marker_at_end_fails() {
    let err = AgentsDoc::parse("<!-- prime-agent(Start delta) -->").unwrap_err();
    assert_eq!(err.kind, FormatErrorKind::MissingHeader);
    assert_eq!(err.name, "delta");
}

#[test]
fn wrong_header_fails() {
    let err = AgentsDoc::parse("<!-- prime-agent(Start delta) -->\n## other\n<!-- prime-agent(End delta) -->").unwrap_err();
    assert_eq!(err.kind, FormatErrorKind::WrongHeader);
}

#[test]
fn missing_end_marker_fails() {
    let err = AgentsDoc::parse("<!-- prime-agent(Start delta) -->\n## delta\nbody").unwrap_err();
    assert_eq!(err.kind, FormatErrorKind::MissingEndMarker);
    assert_eq!(err.name, "delta");
}

#[test]
fn marker_name_is_trimmed_and_header_trailing_space_accepted() {
    let text = "<!-- prime-agent(Start  x ) -->\n## x  \nc\n<!-- prime-agent(End x) -->  ";
    let doc = AgentsDoc::parse(text).unwrap();
    assert_eq!(doc.section_names(), vec!["x".to_string()]);
    assert_eq!(doc.render(), "<!-- prime-agent(Start x) -->\n## x\nc\n<!-- prime-agent(End x) -->");
}

#[test]
fn upsert_existing_replaces_in_place() {
    let text = "top\n<!-- prime-agent(Start a) -->\n## a\nold\n<!-- prime-agent(End a) -->\nmid\n<!-- prime-agent(Start b) -->\n## b\nb\n<!-- prime-agent(End b) -->\nend";
    let mut doc = AgentsDoc::parse(text).unwrap();
    doc.upsert_section(section("a", "new"));
    assert_eq!(
        doc.render(),
        "top\n<!-- prime-agent(Start a) -->\n## a\nnew\n<!-- prime-agent(End a) -->\nmid\n<!-- prime-agent(Start b) -->\n## b\nb\n<!-- prime-agent(End b) -->\nend"
    );
    assert_eq!(doc.section_names(), vec!["a".to_string(), "b".to_string()]);
}

#[test]
fn upsert_new_goes_after_last_section() {
    let text = "<!-- prime-agent(Start a) -->\n## a\nx\n<!-- prime-agent(End a) -->\ntrailer";
    let mut doc = AgentsDoc::parse(text).unwrap();
    doc.upsert_section(section("beta", "X\n"));
    assert_eq!(
        doc.render(),
        "<!-- prime-agent(Start a) -->\n## a\nx\n<!-- prime-agent(End a) -->\n<!-- prime-agent(Start beta) -->\n## beta\nX\n\n<!-- prime-agent(End beta) -->\ntrailer"
    );
    assert_eq!(doc.get_section("beta").unwrap().content_lines[0], "X");
}

#[test]
fn upsert_without_sections_appends_at_end() {
    let mut doc = AgentsDoc::parse("just text").unwrap();
    doc.upsert_section(section("beta", "X\n"));
    assert_eq!(
        doc.render(),
        "just text\n<!-- prime-agent(Start beta) -->\n## beta\nX\n\n<!-- prime-agent(End beta) -->"
    );
}

#[test]
fn repeated_upserts_keep_names_unique() {
    let mut doc = AgentsDoc::empty();
    doc.upsert_section(section("a", "1"));
    doc.upsert_section(section("b", "2"));
    doc.upsert_section(section("a", "3"));
    doc.upsert_section(section("b", "4"));
    assert_eq!(doc.section_names(), vec!["a".to_string(), "b".to_string()]);
    assert_eq!(doc.get_section("a").unwrap().content_string(), "3");
}

#[test]
fn remove_section_reports_and_keeps_text() {
    let text = "t1\n<!-- prime-agent(Start a) -->\n## a\nx\n<!-- prime-agent(End a) -->\nt2";
    let mut doc = AgentsDoc::parse(text).unwrap();
    assert!(!doc.remove_section("zzz"));
    assert!(doc.remove_section("a"));
    assert_eq!(doc.render(), "t1\nt2");
    assert!(doc.get_section("a").is_none());
}

#[test]
fn render_sections_separates_with_blank_line() {
    let out = render_sections(&[section("a", "1"), section("b", "2")]);
    assert_eq!(
        out,
        "<!-- prime-agent(Start a) -->\n## a\n1\n<!-- prime-agent(End a) -->\n\n<!-- prime-agent(Start b) -->\n## b\n2\n<!-- prime-agent(End b) -->"
    );
    assert_eq!(render_sections(&[]), "");
}

#[test]
fn repeated_section_name_fails() {
    let text = render_sections(&[section("a", "1"), section("b", "2"), section("a", "3")]);
    let err = AgentsDoc::parse(&text).unwrap_err();
    assert_eq!(err.kind, FormatErrorKind::DuplicateSection);
    assert_eq!(err.name, "a");
}
