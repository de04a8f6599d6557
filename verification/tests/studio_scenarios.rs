use markdown_studio::export::build_markdown;
use markdown_studio::layout::wrap_text;
use markdown_studio::library::{display_name_of, markdown_path, sort_paths_naturally};
use markdown_studio::markdown::markdown_html;
use markdown_studio::model::StudioFile;
use markdown_studio::zip::write_store_zip;

#[test]
fn wraps_without_losing_words() {
    assert_eq!(wrap_text("one two three", 7), vec!["one two", "three"]);
}

#[test]
fn creates_zip_signature() {
    let archive = write_store_zip(&[("hello.txt", b"hello".as_slice())]);
    assert_eq!(&archive[..4], b"PK\x03\x04");
}

#[test]
fn combines_markdown_sources_in_order() {
    let files = vec![
        StudioFile {
            name: "One".into(),
            path: None,
            content: "# One\n\nFirst.\n".into(),
        },
        StudioFile {
            name: "Two".into(),
            path: None,
            content: "# Two\n\nSecond.".into(),
        },
    ];
    assert_eq!(
        build_markdown(&files),
        "# One\n\nFirst.\n\n# Two\n\nSecond.\n"
    );
}

#[test]
fn imports_hundreds_of_markdown_files() {
    let directory = format!("/tmp/markdown-studio-many-files-{}", 1);
    let mut paths: Vec<String> = (0..250)
        .rev()
        .map(|index| format!("{directory}/{index:03}-section.md"))
        .collect();
    paths.push(format!("{directory}/notes.txt"));
    let markdown: Vec<String> = paths.into_iter().filter(|p| markdown_path(p)).collect();
    let imported: Vec<String> = sort_paths_naturally(&markdown)
        .iter()
        .map(|p| display_name_of(p))
        .collect();
    assert_eq!(imported.len(), 250);
    assert_eq!(imported.first().unwrap(), "000-section");
    assert_eq!(imported.last().unwrap(), "249-section");
}

#[test]
fn renders_a_large_markdown_document() {
    let mut markdown = String::from("# Large document\n\n");
    for index in 0..20_000 {
        markdown.push_str(&format!(
            "Paragraph {index} with **formatted** content.\n\n"
        ));
    }
    let html = markdown_html(&markdown);
    assert!(html.starts_with("<h1>Large document</h1>"));
    assert!(html.contains("Paragraph 19999"));
}
