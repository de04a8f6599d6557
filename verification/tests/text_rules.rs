use markdown_studio::escape::{escape_html, escape_xml, pdf_escape};
use markdown_studio::export::{build_markdown, export_format, ExportFormat};
use markdown_studio::layout::wrap_text;
use markdown_studio::markdown::{heading_texts, headings, markdown_text, text_lines, MarkdownEvent};
use markdown_studio::model::StudioFile;
use markdown_studio::pages::token_text;
use markdown_studio::text::{decimal, padded_decimal, replace_all, split_lines};

fn file(name: &str, content: &str) -> StudioFile {
    StudioFile { name: name.into(), path: None, content: content.into() }
}

#[test]
fn wrapping_keeps_every_word_in_order() {
    let lines = wrap_text("alpha  beta\tgamma delta", 11);
    assert_eq!(lines, vec!["alpha beta", "gamma delta"]);
    let rejoined: Vec<String> = lines.iter().flat_map(|l| l.split_whitespace().map(String::from)).collect();
    assert_eq!(rejoined, vec!["alpha", "beta", "gamma", "delta"]);
}

#[test]
fn wrapping_edge_cases() {
    assert_eq!(wrap_text("", 5), vec![""]);
    assert!(wrap_text("   \u{3000} ", 5).is_empty());
    assert_eq!(wrap_text("supercalifragilistic is long", 5), vec!["supercalifragilistic", "is", "long"]);
    assert_eq!(wrap_text("a b", 0), vec!["a", "b"]);
    assert_eq!(wrap_text("a b c", 5), vec!["a b c"]);
    assert_eq!(wrap_text("ééé ééé", 7), vec!["ééé ééé"]);
}

#[test]
fn combined_markdown_trims_line_ends_and_keeps_order() {
    let files = vec![file("A", "a\r\n"), file("B", "b\n\n"), file("C", "c")];
    assert_eq!(build_markdown(&files), "a\n\nb\n\nc\n");
    assert_eq!(build_markdown(&vec![]), "\n");
    assert_eq!(build_markdown(&vec![file("X", "\n\n")]), "\n");
}

#[test]
fn html_and_xml_escaping() {
    assert_eq!(escape_html("<a href=\"x\">&</a>"), "&lt;a href=&quot;x&quot;&gt;&amp;&lt;/a&gt;");
    assert_eq!(escape_html("it's"), "it's");
    assert_eq!(escape_xml("it's <b>"), "it&apos;s &lt;b&gt;");
    let tricky = "&lt; \"'";
    assert_eq!(
        escape_xml(tricky),
        escape_html(tricky).replace('\'', "&apos;")
    );
    assert_eq!(
        escape_html(tricky),
        tricky.replace('&', "&amp;").replace('<', "&lt;").replace('>', "&gt;").replace('"', "&quot;")
    );
}

#[test]
fn pdf_escaping() {
    let escaped = pdf_escape("(a)\\\tb é");
    assert_eq!(escaped, "\\(a\\)\\\\    b ?");
    assert!(escaped.is_ascii());
}

#[test]
fn decimal_writing() {
    assert_eq!(decimal(0), "0");
    assert_eq!(decimal(18446744073709551615), "18446744073709551615");
    assert_eq!(padded_decimal(7, 2), "07");
    assert_eq!(padded_decimal(123, 2), "123");
    assert_eq!(padded_decimal(4711, 10), "0000004711");
}

#[test]
fn replacing_and_lines() {
    assert_eq!(replace_all("aaa", "aa", "b"), "ba");
    assert_eq!(split_lines("a\r\nb\n\nc\r"), vec!["a", "b", "", "c\r"]);
    assert!(split_lines("").is_empty());
    assert_eq!(split_lines("x\n"), vec!["x"]);
}

#[test]
fn token_text_fills_templates_in_order() {
    assert_eq!(token_text("Page {page} of {title} on {date}", "Book", 3, "2024-01-02"), "Page 3 of Book on 2024-01-02");
    assert_eq!(token_text("{title}", "{page}", 5, "d"), "5");
    assert_eq!(token_text("no tokens", "T", 1, "d"), "no tokens");
}

#[test]
fn text_lines_of_events() {
    let events = vec![
        MarkdownEvent::HeadingStart(1),
        MarkdownEvent::Text("Title".into()),
        MarkdownEvent::HeadingEnd,
        MarkdownEvent::Text("first".into()),
        MarkdownEvent::SoftBreak,
        MarkdownEvent::Code("code".into()),
        MarkdownEvent::HardBreak,
        MarkdownEvent::Text("second".into()),
        MarkdownEvent::ParagraphEnd,
        MarkdownEvent::Text("   ".into()),
        MarkdownEvent::ParagraphEnd,
        MarkdownEvent::ItemStart,
        MarkdownEvent::Text("tail".into()),
    ];
    assert_eq!(text_lines(&events), vec!["# Title", "", "first code", "second", "", "• tail"]);
}

#[test]
fn heading_texts_of_events() {
    let events = vec![
        MarkdownEvent::HeadingStart(2),
        MarkdownEvent::Text("Two".into()),
        MarkdownEvent::HeadingEnd,
        MarkdownEvent::HeadingStart(4),
        MarkdownEvent::Text("Four".into()),
        MarkdownEvent::HeadingEnd,
        MarkdownEvent::HeadingStart(1),
        MarkdownEvent::HeadingEnd,
        MarkdownEvent::Text("outside".into()),
    ];
    assert_eq!(heading_texts(&events), vec!["Two"]);
}

#[test]
fn markdown_text_through_the_parser() {
    let lines = markdown_text("# Title\n\nSome *text*\nhere.\n\n- one\n- two\n");
    assert_eq!(lines, vec!["# Title", "", "Some text here.", "", "• one", "", "• two", ""]);
}

#[test]
fn headings_through_the_parser() {
    assert_eq!(headings("# A\n\n## B\n\n#### C\n\n### D\n\n#\n"), vec!["A", "B", "D"]);
}

#[test]
fn export_formats() {
    assert_eq!(export_format("pdf"), Ok(ExportFormat::Pdf));
    assert_eq!(export_format("html"), Ok(ExportFormat::Html));
    assert_eq!(export_format("md"), Ok(ExportFormat::Markdown));
    assert_eq!(export_format("docx"), Ok(ExportFormat::Docx));
    assert_eq!(export_format("txt"), Err("Unsupported export format: txt".to_string()));
    assert_eq!(export_format("PDF"), Err("Unsupported export format: PDF".to_string()));
}

#[test]
fn html_escaping_is_undone_by_the_reverse_replacements() {
    let value = r#"<a href="x">Tom & 'J'</a> &amp; &lt;"#;
    let escaped = escape_html(value);
    assert_eq!(
        escape_html(r#"<a href="x">Tom & 'J'</a>"#),
        "&lt;a href=&quot;x&quot;&gt;Tom &amp; 'J'&lt;/a&gt;"
    );
    let undone = replace_all(
        &replace_all(
            &replace_all(&replace_all(&escaped, "&lt;", "<"), "&gt;", ">"),
            "&quot;",
            "\"",
        ),
        "&amp;",
        "&",
    );
    assert_eq!(undone, value);
    assert_ne!(escape_html("&lt;"), escape_html("<"));
}

#[test]
fn combining_a_combined_document_changes_nothing() {
    let files = vec![file("a", "# A\r\n\n"), file("b", "text\n")];
    let once = build_markdown(&files);
    let twice = build_markdown(&vec![file("all", &once)]);
    assert_eq!(twice, once);
    let trailing_blank = vec![file("a", "# A"), file("b", "\n\n")];
    let once = build_markdown(&trailing_blank);
    assert_eq!(once, "# A\n\n\n");
    assert_eq!(build_markdown(&vec![file("all", &once)]), "# A\n");
}
