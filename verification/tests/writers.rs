use markdown_studio::color::{color_operands, color_readable, rgb};
use markdown_studio::docx::{word_header_footer, word_paragraph, write_docx, PAGE_FIELD};
use markdown_studio::html::{build_html, HtmlMetrics};
use markdown_studio::model::{ExportOptions, ExportRequest, StudioFile, ThemeTokens};
use markdown_studio::pages::{file_body_lines, pdf_pages, toc_page_lines};
use markdown_studio::pdf::{write_pdf, PdfLayout};
use markdown_studio::zip::{crc32, write_store_zip};

fn theme() -> ThemeTokens {
    ThemeTokens {
        id: "paper".into(),
        name: "Paper".into(),
        mode: "light".into(),
        paper: "#ffffff".into(),
        ink: "#202020".into(),
        muted: "#777777".into(),
        accent: "#ff8000".into(),
        rule: "#dddddd".into(),
        code_bg: "#f4f4f4".into(),
        font_body: "serif".into(),
        font_heading: "sans".into(),
    }
}

fn options(toc: bool, page_numbers: bool) -> ExportOptions {
    ExportOptions {
        toc,
        page_numbers,
        header_left: String::new(),
        header_center: "{title}".into(),
        header_right: String::new(),
        footer_left: String::new(),
        footer_center: String::new(),
        footer_right: String::new(),
    }
}

fn request(toc: bool) -> ExportRequest {
    ExportRequest {
        name: "Notes & Ideas".into(),
        files: vec![
            StudioFile { name: "Intro".into(), path: None, content: "# Start\n\nHello (world).\n".into() },
            StudioFile { name: "Straße".into(), path: None, content: "## Next\n\nMore text.".into() },
        ],
        theme: theme(),
        typeface: "mono".into(),
        export_options: options(toc, true),
    }
}

fn layout(lines_per_page: usize) -> PdfLayout {
    PdfLayout {
        chars_per_line: 82,
        lines_per_page,
        font_size: "12.0".into(),
        leading: "19.2".into(),
        title_size: "15.4".into(),
    }
}

fn le32(bytes: &[u8], at: usize) -> u32 {
    u32::from_le_bytes([bytes[at], bytes[at + 1], bytes[at + 2], bytes[at + 3]])
}

#[test]
fn crc32_check_values() {
    assert_eq!(crc32(b"123456789"), 0xCBF4_3926);
    assert_eq!(crc32(b""), 0);
    assert_eq!(crc32(b"hello"), 0x3610_A686);
}

#[test]
fn zip_layout_of_two_entries() {
    let zip = write_store_zip(&[("a.txt", b"abc".as_slice()), ("b.txt", b"".as_slice())]);
    assert_eq!(zip.len(), 197);
    assert_eq!(&zip[..4], b"PK\x03\x04");
    assert_eq!(le32(&zip, 14), crc32(b"abc"));
    assert_eq!(&zip[38..42], b"PK\x03\x04");
    let end = zip.len() - 22;
    assert_eq!(&zip[end..end + 4], b"PK\x05\x06");
    assert_eq!(u16::from_le_bytes([zip[end + 8], zip[end + 9]]), 2);
    let central = le32(&zip, end + 16) as usize;
    assert_eq!(central, 73);
    assert_eq!(&zip[central..central + 4], b"PK\x01\x02");
    assert_eq!(le32(&zip, central + 42), 0);
    assert_eq!(le32(&zip, central + 51 + 42), 38);
}

#[test]
fn empty_zip_is_only_the_end_record() {
    let zip = write_store_zip(&[]);
    assert_eq!(zip, vec![0x50, 0x4b, 5, 6, 0, 0, 0, 0, 0, 0, 0, 0, 0, 0, 0, 0, 0, 0, 0, 0, 0, 0]);
}

#[test]
fn colors_and_their_pdf_operands() {
    assert_eq!(rgb("#ff8000"), (255, 128, 0));
    assert_eq!(rgb("##0a0B0c"), (10, 11, 12));
    assert_eq!(rgb("fff"), (0, 0, 0));
    assert_eq!(rgb("+f+f+f"), (15, 15, 15));
    assert_eq!(rgb("zz00-1"), (0, 0, 0));
    assert_eq!(color_operands((255, 128, 0)), "1.000 0.502 0.000");
    assert!(color_readable("#\u{e9}1234"));
    assert_eq!(rgb("#\u{e9}1234"), (0, 18, 52));
    assert!(!color_readable("#a\u{e9}123"));
    assert!(color_readable("#\u{e9}"));
    assert_eq!(color_operands((1, 254, 51)), "0.004 0.996 0.200");
    for c in 0..=255u8 {
        let expected = format!("{:.3}", c as f32 / 255.0);
        assert_eq!(color_operands((c, c, c)), format!("{expected} {expected} {expected}"));
    }
}

#[test]
fn word_paragraphs() {
    assert_eq!(
        word_paragraph("a & b", Some("Title")),
        "<w:p><w:pPr><w:pStyle w:val=\"Title\"/></w:pPr><w:r><w:t xml:space=\"preserve\">a &amp; b</w:t></w:r></w:p>"
    );
    assert_eq!(word_paragraph("it's", None), "<w:p><w:r><w:t xml:space=\"preserve\">it&apos;s</w:t></w:r></w:p>");
}

#[test]
fn header_and_footer_bands() {
    let footer = word_header_footer("{title}", "", "x<", "T", "2024-01-02", true);
    assert!(footer.contains("<w:ftr "));
    assert!(footer.ends_with("</w:ftr>"));
    assert!(footer.contains("<w:jc w:val=\"left\"/></w:pPr><w:r><w:t>T</w:t></w:r>"));
    assert!(footer.contains(&format!("<w:jc w:val=\"center\"/></w:pPr>{PAGE_FIELD}")));
    assert!(footer.contains("<w:jc w:val=\"right\"/></w:pPr><w:r><w:t>x&lt;</w:t></w:r>"));
    let header = word_header_footer("{date}", "", "", "T", "2024-01-02", false);
    assert!(header.contains("<w:hdr "));
    assert!(header.contains("<w:t>2024-01-02</w:t>"));
    assert!(!header.contains(PAGE_FIELD));
    let numbered_header = word_header_footer("p{page}", "", "", "T", "d", false);
    assert!(numbered_header.contains("<w:ftr "));
}

#[test]
fn docx_package_parts() {
    let bytes = write_docx(&request(true), 24, "2024-01-02");
    assert_eq!(&bytes[..4], b"PK\x03\x04");
    let text = String::from_utf8_lossy(&bytes);
    assert!(text.contains("[Content_Types].xml"));
    assert!(text.contains("word/document.xml"));
    assert!(text.contains("<w:t>Contents</w:t>"));
    assert!(text.contains("<w:pStyle w:val=\"Heading1\"/></w:pPr><w:r><w:t xml:space=\"preserve\">Start</w:t>"));
    assert!(text.contains("<w:t xml:space=\"preserve\">    Next</w:t>"));
    assert!(text.contains("<w:sz w:val=\"24\"/><w:color w:val=\"202020\"/>"));
    assert!(text.contains("<w:color w:val=\"ff8000\"/><w:sz w:val=\"52\"/>"));
    assert!(text.contains("<w:t>Notes &amp; Ideas</w:t>"));
}

#[test]
fn html_export() {
    let metrics = HtmlMetrics {
        font_size: "18".into(),
        line_height: "1.7".into(),
        measure: "760".into(),
        paragraph_gap: "1.1".into(),
    };
    let html = build_html(&request(true), &metrics);
    assert!(html.starts_with("<!doctype html><html lang=\"en\">"));
    assert!(html.contains("<title>Notes &amp; Ideas</title>"));
    assert!(html.contains(":root{--paper:#ffffff;--ink:#202020;"));
    assert!(html.contains("font:18px/1.7 ui-monospace, SFMono-Regular, Consolas, monospace}"));
    assert!(html.contains("<nav class=\"toc\"><h1>Contents</h1><ol><li><a href=\"#section-0\">Intro</a></li>"));
    assert!(html.contains("<div class=\"source-label\">02 · Straße</div><h2>Next</h2>"));
    assert!(html.ends_with("</section></main></body></html>"));
    let without = build_html(&request(false), &metrics);
    assert!(!without.contains("<nav"));
}

#[test]
fn pdf_pages_layout() {
    let req = request(true);
    let pages = pdf_pages(&req, 82, 3);
    assert_eq!(pages[0], vec!["CONTENTS", "", "01   Intro", "      Start", "02   Straße", "      Next"]);
    assert_eq!(pages[1], vec!["INTRO", "", "# Start"]);
    assert!(pages.iter().skip(1).all(|p| !p.is_empty() && p.len() <= 3));
    let body = file_body_lines(&req.files[1], 82);
    assert_eq!(body[0], "STRASSE");
    let toc = toc_page_lines(&vec![]);
    assert_eq!(toc, vec!["CONTENTS", ""]);
    let empty = ExportRequest { files: vec![], export_options: options(false, false), ..request(false) };
    assert_eq!(pdf_pages(&empty, 82, 40), vec![vec!["Notes & Ideas".to_string()]]);
}

#[test]
fn pdf_cross_references_point_at_objects() {
    let bytes = write_pdf(&request(true), &layout(40), "2024-01-02").unwrap();
    assert!(bytes.starts_with(b"%PDF-1.4\n%\xE2\xE3\xCF\xD3\n"));
    assert!(bytes.ends_with(b"%%EOF\n"));
    let text = String::from_utf8_lossy(&bytes).into_owned();
    let start = text.rfind("startxref\n").unwrap() + "startxref\n".len();
    let xref: usize = text[start..].lines().next().unwrap().parse().unwrap();
    assert_eq!(&bytes[xref..xref + 5], b"xref\n");
    let table = std::str::from_utf8(&bytes[xref..]).unwrap();
    let mut lines = table.lines();
    assert_eq!(lines.next(), Some("xref"));
    let count: usize = lines.next().unwrap()[2..].parse().unwrap();
    assert_eq!(count, 3 + 2 * 3 + 1);
    lines.next();
    for object in 1..count {
        let offset: usize = lines.next().unwrap()[..10].parse().unwrap();
        let expected = format!("{object} 0 obj\n");
        assert_eq!(&bytes[offset..offset + expected.len()], expected.as_bytes());
    }
    assert!(text.contains("/Kids [4 0 R 6 0 R 8 0 R] /Count 3"));
    assert!(text.contains("1.000 0.502 0.000 rg /F1 15.4 Tf (CONTENTS) Tj T*"));
    assert!(text.contains("(Hello \\(world\\).) Tj T*"));
    assert!(text.contains("BT /F1 8 Tf 250 814 Td (Notes & Ideas) Tj ET"));
    assert!(text.contains("BT /F1 8 Tf 290 28 Td (2) Tj ET"));
    assert!(text.contains("(STRASSE) Tj T*"));
}

#[test]
fn pdf_stream_lengths_are_byte_counts() {
    let bytes = write_pdf(&request(false), &layout(40), "d").unwrap();
    let text = String::from_utf8_lossy(&bytes).into_owned();
    let mut rest = text.as_str();
    let mut seen = 0;
    while let Some(at) = rest.find("<< /Length ") {
        let after = &rest[at + 11..];
        let length: usize = after[..after.find(' ').unwrap()].parse().unwrap();
        let body = &after[after.find("stream\n").unwrap() + 7..];
        assert_eq!(body.find("endstream").unwrap(), length);
        rest = body;
        seen += 1;
    }
    assert_eq!(seen, 2);
}

#[test]
fn crc32_is_affine_under_xor() {
    let a = b"markdown studio".to_vec();
    let b = b"verified export".to_vec();
    let x: Vec<u8> = a.iter().zip(&b).map(|(p, q)| p ^ q).collect();
    let zeros = vec![0u8; a.len()];
    assert_eq!(crc32(&x), crc32(&a) ^ crc32(&b) ^ crc32(&zeros));
}

#[test]
fn pdf_without_files_needs_no_page_length() {
    let empty = ExportRequest { files: vec![], export_options: options(false, false), ..request(false) };
    assert_eq!(pdf_pages(&empty, 82, 0), vec![vec!["Notes & Ideas".to_string()]]);
    let bytes = write_pdf(&empty, &layout(0), "2024-01-02").expect("one page");
    assert!(bytes.starts_with(b"%PDF-1.4\n"));
    assert_eq!(Some(bytes), write_pdf(&empty, &layout(40), "2024-01-02"));
}
