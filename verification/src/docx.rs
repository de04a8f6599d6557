//! The DOCX writer: WordprocessingML paragraphs, header and footer
//! tables, and the package parts stored in a ZIP archive.

use vstd::prelude::*;
use vstd::utf8::encode_utf8;

use crate::color::{trim_hashes, trim_leading_hashes};
use crate::escape::{escape_xml, xml_escaped};
use crate::markdown::{headings, markdown_text, parsed_events, text_lines_of, ALL_OPTIONS};
use crate::model::{ExportRequest, StudioFile};
use crate::pages::{concat_all, file_headings, first_n, token_text, token_text_of};
use crate::text::{chars_of, contains, contains_text, decimal, decimal_chars, string_from_chars, views};
use crate::zip::{entry_bytes, write_store_zip, zip_archive};

verus! {

/// The document part up to its body.
pub const DOCUMENT_HEAD: &'static str = "<?xml version=\"1.0\" encoding=\"UTF-8\" standalone=\"yes\"?><w:document xmlns:w=\"http://schemas.openxmlformats.org/wordprocessingml/2006/main\" xmlns:r=\"http://schemas.openxmlformats.org/officeDocument/2006/relationships\"><w:body>";
/// The document part after its body: the section with its header, footer,
/// page size and margins.
pub const DOCUMENT_TAIL: &'static str = "<w:sectPr><w:headerReference w:type=\"default\" r:id=\"rId1\"/><w:footerReference w:type=\"default\" r:id=\"rId2\"/><w:pgSz w:w=\"12240\" w:h=\"15840\"/><w:pgMar w:top=\"1224\" w:right=\"1296\" w:bottom=\"1224\" w:left=\"1296\"/></w:sectPr></w:body></w:document>";
/// The style part up to the default font size.
pub const STYLES_HEAD: &'static str = "<?xml version=\"1.0\" encoding=\"UTF-8\" standalone=\"yes\"?><w:styles xmlns:w=\"http://schemas.openxmlformats.org/wordprocessingml/2006/main\"><w:docDefaults><w:rPrDefault><w:rPr><w:sz w:val=\"";
/// The style part between the default font size and the text colour.
pub const STYLES_SIZE_TO_COLOR: &'static str = "\"/><w:color w:val=\"";
/// The style part between the text colour and the title colour.
pub const STYLES_COLOR_TO_ACCENT: &'static str = "\"/></w:rPr></w:rPrDefault><w:pPrDefault><w:pPr><w:spacing w:after=\"180\" w:line=\"360\" w:lineRule=\"auto\"/></w:pPr></w:pPrDefault></w:docDefaults><w:style w:type=\"paragraph\" w:default=\"1\" w:styleId=\"Normal\"><w:name w:val=\"Normal\"/></w:style><w:style w:type=\"paragraph\" w:styleId=\"Title\"><w:name w:val=\"Title\"/><w:rPr><w:color w:val=\"";
/// The style part after the title colour.
pub const STYLES_TAIL: &'static str = "\"/><w:sz w:val=\"52\"/></w:rPr></w:style><w:style w:type=\"paragraph\" w:styleId=\"Heading1\"><w:name w:val=\"heading 1\"/><w:rPr><w:b/><w:sz w:val=\"34\"/></w:rPr></w:style><w:style w:type=\"paragraph\" w:styleId=\"Heading2\"><w:name w:val=\"heading 2\"/><w:rPr><w:b/><w:sz w:val=\"28\"/></w:rPr></w:style></w:styles>";
/// The content types of the package.
pub const CONTENT_TYPES: &'static str = "<?xml version=\"1.0\" encoding=\"UTF-8\"?><Types xmlns=\"http://schemas.openxmlformats.org/package/2006/content-types\"><Default Extension=\"rels\" ContentType=\"application/vnd.openxmlformats-package.relationships+xml\"/><Default Extension=\"xml\" ContentType=\"application/xml\"/><Override PartName=\"/word/document.xml\" ContentType=\"application/vnd.openxmlformats-officedocument.wordprocessingml.document.main+xml\"/><Override PartName=\"/word/styles.xml\" ContentType=\"application/vnd.openxmlformats-officedocument.wordprocessingml.styles+xml\"/><Override PartName=\"/word/header1.xml\" ContentType=\"application/vnd.openxmlformats-officedocument.wordprocessingml.header+xml\"/><Override PartName=\"/word/footer1.xml\" ContentType=\"application/vnd.openxmlformats-officedocument.wordprocessingml.footer+xml\"/></Types>";
/// The package relationships.
pub const ROOT_RELS: &'static str = "<?xml version=\"1.0\" encoding=\"UTF-8\"?><Relationships xmlns=\"http://schemas.openxmlformats.org/package/2006/relationships\"><Relationship Id=\"rId1\" Type=\"http://schemas.openxmlformats.org/officeDocument/2006/relationships/officeDocument\" Target=\"word/document.xml\"/></Relationships>";
/// The document relationships: header, footer and styles.
pub const DOCUMENT_RELS: &'static str = "<?xml version=\"1.0\" encoding=\"UTF-8\"?><Relationships xmlns=\"http://schemas.openxmlformats.org/package/2006/relationships\"><Relationship Id=\"rId1\" Type=\"http://schemas.openxmlformats.org/officeDocument/2006/relationships/header\" Target=\"header1.xml\"/><Relationship Id=\"rId2\" Type=\"http://schemas.openxmlformats.org/officeDocument/2006/relationships/footer\" Target=\"footer1.xml\"/><Relationship Id=\"rId3\" Type=\"http://schemas.openxmlformats.org/officeDocument/2006/relationships/styles\" Target=\"styles.xml\"/></Relationships>";
/// The header or footer part up to its root element's name.
pub const BAND_HEAD: &'static str = "<?xml version=\"1.0\" encoding=\"UTF-8\" standalone=\"yes\"?><w:";
/// The header or footer part from its root element's name to its cells.
pub const BAND_TABLE: &'static str = " xmlns:w=\"http://schemas.openxmlformats.org/wordprocessingml/2006/main\"><w:tbl><w:tblPr><w:tblW w:w=\"0\" w:type=\"auto\"/></w:tblPr><w:tblGrid><w:gridCol w:w=\"3240\"/><w:gridCol w:w=\"3240\"/><w:gridCol w:w=\"3240\"/></w:tblGrid><w:tr>";
/// The header or footer part after its cells, up to the closing root name.
pub const BAND_CLOSE: &'static str = "</w:tr></w:tbl></w:";
/// The end of the header or footer part.
pub const BAND_TAIL: &'static str = ">";
/// A field that shows the page number.
pub const PAGE_FIELD: &'static str = "<w:r><w:fldChar w:fldCharType=\"begin\"/></w:r><w:r><w:instrText>PAGE</w:instrText></w:r><w:r><w:fldChar w:fldCharType=\"end\"/></w:r>";

/// A paragraph break that starts a new page.
pub const PAGE_BREAK: &'static str = "<w:p><w:r><w:br w:type=\"page\"/></w:r></w:p>";

/// The title paragraph of the contents.
pub const CONTENTS_TITLE: &'static str = "<w:p><w:pPr><w:pStyle w:val=\"Title\"/></w:pPr><w:r><w:t>Contents</w:t></w:r></w:p>";

/// A paragraph holding `text`, XML-escaped, with spaces kept, and with the
/// given paragraph style if any.
pub open spec fn word_paragraph_of(text: Seq<char>, style: Option<Seq<char>>) -> Seq<char> {
    "<w:p>"@ + (match style {
        Some(v) => "<w:pPr><w:pStyle w:val=\""@ + v + "\"/></w:pPr>"@,
        None => Seq::empty(),
    }) + "<w:r><w:t xml:space=\"preserve\">"@ + xml_escaped(text) + "</w:t></w:r></w:p>"@
}

/// A WordprocessingML paragraph of `text` with an optional style.
pub fn word_paragraph(text: &str, style: Option<&str>) -> (p: String)
    ensures
        p@ == word_paragraph_of(text@, match style {
            Some(v) => Some(v@),
            None => None,
        }),
{
    let mut p = String::new();
    p.append("<w:p>");
    match style {
        Some(v) => {
            p.append("<w:pPr><w:pStyle w:val=\"");
            p.append(v);
            p.append("\"/></w:pPr>");
        },
        None => {},
    }
    p.append("<w:r><w:t xml:space=\"preserve\">");
    let e = escape_xml(text);
    p.append(e.as_str());
    p.append("</w:t></w:r></w:p>");
    assert(p@ =~= word_paragraph_of(text@, match style {
        Some(v) => Some(v@),
        None => None,
    }));
    p
}

/// The alignment of the header or footer cell at `index`.
pub open spec fn alignment(index: nat) -> Seq<char> {
    if index == 0 {
        "left"@
    } else if index == 1 {
        "center"@
    } else {
        "right"@
    }
}

/// Whether a header or footer cell shows the page number: its template
/// holds `{page}`, or page numbers are forced and the centre cell is empty.
pub open spec fn shows_page(index: nat, value: Seq<char>, force_page: bool) -> bool {
    contains_text(value, "{page}"@) || (force_page && index == 1 && value.len() == 0)
}

/// One cell of a header or footer table.
pub open spec fn band_cell(index: nat, value: Seq<char>, title: Seq<char>, date: Seq<char>, force_page: bool) -> Seq<char> {
    "<w:tc><w:p><w:pPr><w:jc w:val=\""@ + alignment(index) + "\"/></w:pPr>"@ + (if shows_page(
        index,
        value,
        force_page,
    ) {
        PAGE_FIELD@
    } else {
        "<w:r><w:t>"@ + xml_escaped(token_text_of(value, title, 1, date)) + "</w:t></w:r>"@
    }) + "</w:p></w:tc>"@
}

/// The root element of a header or footer part: `ftr` where page numbers
/// are forced or a cell's template holds `{page}`, `hdr` otherwise.
pub open spec fn band_tag(left: Seq<char>, center: Seq<char>, right: Seq<char>, force_page: bool) -> Seq<char> {
    if force_page || contains_text(left, "{page}"@) || contains_text(center, "{page}"@) || contains_text(
        right,
        "{page}"@,
    ) {
        "ftr"@
    } else {
        "hdr"@
    }
}

/// A header or footer part: a table of one row with the left, centre and
/// right templates filled in for page 1.
pub open spec fn band_of(
    left: Seq<char>,
    center: Seq<char>,
    right: Seq<char>,
    title: Seq<char>,
    date: Seq<char>,
    force_page: bool,
) -> Seq<char> {
    let tag = band_tag(left, center, right, force_page);
    BAND_HEAD@ + tag + BAND_TABLE@ + band_cell(0, left, title, date, force_page) + band_cell(
        1,
        center,
        title,
        date,
        force_page,
    ) + band_cell(2, right, title, date, force_page) + BAND_CLOSE@ + tag + BAND_TAIL@
}

fn band_cell_text(index: usize, value: &str, title: &str, date: &str, force_page: bool) -> (c: String)
    requires
        index < 3,
    ensures
        c@ == band_cell(index as nat, value@, title@, date@, force_page),
{
    proof {
        reveal_strlit("{page}");
    }
    let mut c = String::new();
    c.append("<w:tc><w:p><w:pPr><w:jc w:val=\"");
    if index == 0 {
        c.append("left");
    } else if index == 1 {
        c.append("center");
    } else {
        c.append("right");
    }
    c.append("\"/></w:pPr>");
    let text = token_text(value, title, 1, date);
    if contains(value, "{page}") || (force_page && index == 1 && value.is_empty()) {
        c.append(PAGE_FIELD);
    } else {
        c.append("<w:r><w:t>");
        let e = escape_xml(text.as_str());
        c.append(e.as_str());
        c.append("</w:t></w:r>");
    }
    c.append("</w:p></w:tc>");
    assert(c@ =~= band_cell(index as nat, value@, title@, date@, force_page));
    c
}

/// A header or footer part of the three templates.
pub fn word_header_footer(left: &str, center: &str, right: &str, title: &str, date: &str, force_page: bool) -> (b: String)
    ensures
        b@ == band_of(left@, center@, right@, title@, date@, force_page),
{
    proof {
        reveal_strlit("{page}");
    }
    let tag = if force_page || contains(left, "{page}") || contains(center, "{page}") || contains(right, "{page}") {
        "ftr"
    } else {
        "hdr"
    };
    let mut b = String::new();
    b.append(BAND_HEAD);
    b.append(tag);
    b.append(BAND_TABLE);
    let c0 = band_cell_text(0, left, title, date, force_page);
    b.append(c0.as_str());
    let c1 = band_cell_text(1, center, title, date, force_page);
    b.append(c1.as_str());
    let c2 = band_cell_text(2, right, title, date, force_page);
    b.append(c2.as_str());
    b.append(BAND_CLOSE);
    b.append(tag);
    b.append(BAND_TAIL);
    assert(b@ =~= band_of(left@, center@, right@, title@, date@, force_page));
    b
}


/// A line of plain text as a paragraph: a line that starts with `# ` is a
/// level-one heading without that mark.
pub open spec fn line_paragraph(l: Seq<char>) -> Seq<char> {
    if l.len() >= 2 && l.take(2) == "# "@ {
        word_paragraph_of(l.skip(2), Some("Heading1"@))
    } else {
        word_paragraph_of(l, None)
    }
}

/// A file's entry in the contents: its name as a level-two heading, then
/// its first eight headings, indented.
pub open spec fn docx_toc_entry(f: StudioFile) -> Seq<char> {
    word_paragraph_of(f.name@, Some("Heading2"@)) + concat_all(
        first_n(file_headings(f), 8).map_values(|h: Seq<char>| word_paragraph_of("    "@ + h, None)),
    )
}

/// The entries of the contents for the given files.
pub open spec fn docx_toc_entries(files: Seq<StudioFile>) -> Seq<char>
    decreases files.len(),
{
    if files.len() == 0 {
        seq![]
    } else {
        docx_toc_entries(files.drop_last()) + docx_toc_entry(files.last())
    }
}

/// File number `index` (from 0): a page break before every file but the
/// first, its name as a title, then a paragraph per line of its text.
pub open spec fn docx_file_section(index: nat, f: StudioFile) -> Seq<char> {
    (if index > 0 {
        PAGE_BREAK@
    } else {
        Seq::empty()
    }) + word_paragraph_of(f.name@, Some("Title"@)) + concat_all(
        text_lines_of(parsed_events(f.content@, ALL_OPTIONS)).map_values(|l: Seq<char>| line_paragraph(l)),
    )
}

/// The sections of the given files.
pub open spec fn docx_file_sections(files: Seq<StudioFile>) -> Seq<char>
    decreases files.len(),
{
    if files.len() == 0 {
        seq![]
    } else {
        docx_file_sections(files.drop_last()) + docx_file_section((files.len() - 1) as nat, files.last())
    }
}

/// The body of the document: the contents page where asked for, then the
/// files.
pub open spec fn docx_body(request: ExportRequest) -> Seq<char> {
    (if request.export_options.toc {
        CONTENTS_TITLE@ + docx_toc_entries(request.files@) + PAGE_BREAK@
    } else {
        Seq::empty()
    }) + docx_file_sections(request.files@)
}

/// The style part: default size in half points and text colour, and the
/// title colour, both colours without their `#`.
pub open spec fn styles_of(font_half_points: u32, ink: Seq<char>, accent: Seq<char>) -> Seq<char> {
    STYLES_HEAD@ + decimal_chars(font_half_points as nat) + STYLES_SIZE_TO_COLOR@ + trim_hashes(ink)
        + STYLES_COLOR_TO_ACCENT@ + trim_hashes(accent) + STYLES_TAIL@
}

/// The parts of the package, by name, in the order they are stored.
pub open spec fn docx_parts(request: ExportRequest, font_half_points: u32, date: Seq<char>) -> Seq<(Seq<char>, Seq<char>)> {
    let o = request.export_options;
    seq![
        ("[Content_Types].xml"@, CONTENT_TYPES@),
        ("_rels/.rels"@, ROOT_RELS@),
        ("word/document.xml"@, DOCUMENT_HEAD@ + docx_body(request) + DOCUMENT_TAIL@),
        ("word/styles.xml"@, styles_of(font_half_points, request.theme.ink@, request.theme.accent@)),
        ("word/header1.xml"@, band_of(o.header_left@, o.header_center@, o.header_right@, request.name@, date, false)),
        ("word/footer1.xml"@, band_of(o.footer_left@, o.footer_center@, o.footer_right@, request.name@, date, o.page_numbers)),
        ("word/_rels/document.xml.rels"@, DOCUMENT_RELS@),
    ]
}

/// The DOCX file: the parts as UTF-8, stored in a ZIP archive.
pub open spec fn docx_bytes_of(request: ExportRequest, font_half_points: u32, date: Seq<char>) -> Seq<u8> {
    zip_archive(docx_parts(request, font_half_points, date).map_values(
        |p: (Seq<char>, Seq<char>)| (encode_utf8(p.0), encode_utf8(p.1)),
    ))
}

fn line_paragraph_text(line: &String) -> (p: String)
    ensures
        p@ == line_paragraph(line@),
{
    proof {
        reveal_strlit("# ");
    }
    let cs = chars_of(line.as_str());
    if cs.len() >= 2 && cs[0] == '#' && cs[1] == ' ' {
        assert(line@.take(2) =~= "# "@);
        let rest = string_from_chars(&cs, 2, cs.len());
        assert(rest@ =~= line@.skip(2));
        word_paragraph(rest.as_str(), Some("Heading1"))
    } else {
        assert(!(line@.len() >= 2 && line@.take(2) == "# "@)) by {
            if line@.len() >= 2 && line@.take(2) == "# "@ {
                assert(line@.take(2)[0] == '#');
                assert(line@.take(2)[1] == ' ');
            }
        }
        word_paragraph(line.as_str(), None)
    }
}

fn docx_toc_entry_text(f: &StudioFile) -> (s: String)
    ensures
        s@ == docx_toc_entry(*f),
{
    let mut s = word_paragraph(f.name.as_str(), Some("Heading2"));
    let hs = headings(f.content.as_str());
    let ghost hv = views(hs@);
    let ghost paras = first_n(hv, 8).map_values(|h: Seq<char>| word_paragraph_of("    "@ + h, None));
    let count = if hs.len() <= 8 { hs.len() } else { 8 };
    let ghost head = s@;
    assert(paras.take(0) =~= Seq::<Seq<char>>::empty());
    let mut k: usize = 0;
    while k < count
        invariant
            count <= hs.len(),
            count == paras.len(),
            hv == views(hs@),
            paras == first_n(hv, 8).map_values(|h: Seq<char>| word_paragraph_of("    "@ + h, None)),
            k <= count,
            s@ == head + concat_all(paras.take(k as int)),
        decreases count - k,
    {
        let mut indented = String::new();
        indented.append("    ");
        indented.append(hs[k].as_str());
        let p = word_paragraph(indented.as_str(), None);
        s.append(p.as_str());
        assert(paras.take(k + 1).drop_last() =~= paras.take(k as int));
        assert(paras[k as int] == word_paragraph_of("    "@ + hv[k as int], None));
        k = k + 1;
    }
    assert(paras.take(count as int) =~= paras);
    s
}

fn docx_file_section_text(index: usize, f: &StudioFile) -> (s: String)
    ensures
        s@ == docx_file_section(index as nat, *f),
{
    let mut s = String::new();
    if index > 0 {
        s.append(PAGE_BREAK);
    }
    let title = word_paragraph(f.name.as_str(), Some("Title"));
    s.append(title.as_str());
    let lines = markdown_text(f.content.as_str());
    let ghost lv = views(lines@);
    let ghost paras = lv.map_values(|l: Seq<char>| line_paragraph(l));
    let ghost head = s@;
    assert(paras.take(0) =~= Seq::<Seq<char>>::empty());
    let mut k: usize = 0;
    while k < lines.len()
        invariant
            lv == views(lines@),
            paras == lv.map_values(|l: Seq<char>| line_paragraph(l)),
            k <= lines.len(),
            s@ == head + concat_all(paras.take(k as int)),
        decreases lines.len() - k,
    {
        let p = line_paragraph_text(&lines[k]);
        s.append(p.as_str());
        assert(paras.take(k + 1).drop_last() =~= paras.take(k as int));
        k = k + 1;
    }
    assert(paras.take(lines.len() as int) =~= paras);
    s
}

fn docx_body_text(request: &ExportRequest) -> (s: String)
    ensures
        s@ == docx_body(*request),
{
    let mut s = String::new();
    if request.export_options.toc {
        s.append(CONTENTS_TITLE);
        let mut i: usize = 0;
        assert(request.files@.take(0) =~= Seq::<StudioFile>::empty());
        while i < request.files.len()
            invariant
                i <= request.files.len(),
                s@ == CONTENTS_TITLE@ + docx_toc_entries(request.files@.take(i as int)),
            decreases request.files.len() - i,
        {
            let e = docx_toc_entry_text(&request.files[i]);
            s.append(e.as_str());
            assert(request.files@.take(i + 1).drop_last() =~= request.files@.take(i as int));
            i = i + 1;
        }
        assert(request.files@.take(request.files.len() as int) =~= request.files@);
        s.append(PAGE_BREAK);
    }
    let ghost head = s@;
    let mut i: usize = 0;
    assert(request.files@.take(0) =~= Seq::<StudioFile>::empty());
    while i < request.files.len()
        invariant
            i <= request.files.len(),
            s@ == head + docx_file_sections(request.files@.take(i as int)),
        decreases request.files.len() - i,
    {
        let e = docx_file_section_text(i, &request.files[i]);
        s.append(e.as_str());
        assert(request.files@.take(i + 1).drop_last() =~= request.files@.take(i as int));
        i = i + 1;
    }
    assert(request.files@.take(request.files.len() as int) =~= request.files@);
    assert(s@ =~= docx_body(*request));
    s
}

fn styles_text(font_half_points: u32, ink: &str, accent: &str) -> (s: String)
    ensures
        s@ == styles_of(font_half_points, ink@, accent@),
{
    let mut s = String::new();
    s.append(STYLES_HEAD);
    let size = decimal(font_half_points as u64);
    s.append(size.as_str());
    s.append(STYLES_SIZE_TO_COLOR);
    let color = trim_leading_hashes(ink);
    s.append(color.as_str());
    s.append(STYLES_COLOR_TO_ACCENT);
    let a = trim_leading_hashes(accent);
    s.append(a.as_str());
    s.append(STYLES_TAIL);
    assert(s@ =~= styles_of(font_half_points, ink@, accent@));
    s
}

/// The DOCX export of a collection: the document, styles, header and
/// footer parts stored in a ZIP package. `font_half_points` is the body
/// size in half points and `date` fills `{date}` in the templates.
pub fn write_docx(request: &ExportRequest, font_half_points: u32, date: &str) -> (out: Vec<u8>)
    ensures
        out@ == docx_bytes_of(*request, font_half_points, date@),
{
    let body = docx_body_text(request);
    let mut document = String::new();
    document.append(DOCUMENT_HEAD);
    document.append(body.as_str());
    document.append(DOCUMENT_TAIL);
    let styles = styles_text(font_half_points, request.theme.ink.as_str(), request.theme.accent.as_str());
    let o = &request.export_options;
    let header = word_header_footer(
        o.header_left.as_str(),
        o.header_center.as_str(),
        o.header_right.as_str(),
        request.name.as_str(),
        date,
        false,
    );
    let footer = word_header_footer(
        o.footer_left.as_str(),
        o.footer_center.as_str(),
        o.footer_right.as_str(),
        request.name.as_str(),
        date,
        o.page_numbers,
    );
    let entries: [(&str, &[u8]); 7] = [
        ("[Content_Types].xml", CONTENT_TYPES.as_bytes()),
        ("_rels/.rels", ROOT_RELS.as_bytes()),
        ("word/document.xml", document.as_str().as_bytes()),
        ("word/styles.xml", styles.as_str().as_bytes()),
        ("word/header1.xml", header.as_str().as_bytes()),
        ("word/footer1.xml", footer.as_str().as_bytes()),
        ("word/_rels/document.xml.rels", DOCUMENT_RELS.as_bytes()),
    ];
    let slice = entries.as_slice();
    let out = write_store_zip(slice);
    assert(entry_bytes(slice@) =~= docx_parts(*request, font_half_points, date@).map_values(
        |p: (Seq<char>, Seq<char>)| (encode_utf8(p.0), encode_utf8(p.1)),
    ));
    out
}


proof fn lemma_file_sections_prefix(files: Seq<StudioFile>, k: int)
    requires
        0 <= k <= files.len(),
    ensures
        docx_file_sections(files.take(k)).len() <= docx_file_sections(files).len(),
        docx_file_sections(files).take(docx_file_sections(files.take(k)).len() as int) == docx_file_sections(
            files.take(k),
        ),
    decreases files.len(),
{
    if k == files.len() {
        assert(files.take(k) =~= files);
        assert(docx_file_sections(files).take(docx_file_sections(files).len() as int) =~= docx_file_sections(files));
    } else {
        lemma_file_sections_prefix(files.drop_last(), k);
        assert(files.drop_last().take(k) =~= files.take(k));
        let a = docx_file_sections(files.drop_last());
        let b = docx_file_section((files.len() - 1) as nat, files.last());
        let n = docx_file_sections(files.take(k)).len() as int;
        assert((a + b).take(n) =~= a.take(n));
    }
}

/// Every file of a DOCX export starts on a new page: after the sections
/// of the files before it comes a page break (for every file but the
/// first) and then the file's name as a Title paragraph.
pub proof fn law_docx_files_start_new_pages(files: Seq<StudioFile>, i: int)
    requires
        0 <= i < files.len(),
    ensures
        ({
            let at = docx_file_sections(files.take(i)).len();
            let lead = if i > 0 { PAGE_BREAK@ } else { Seq::<char>::empty() };
            let start = lead + word_paragraph_of(files[i].name@, Some("Title"@));
            &&& at + start.len() <= docx_file_sections(files).len()
            &&& docx_file_sections(files).subrange(at as int, (at + start.len()) as int) == start
        }),
{
    let before = docx_file_sections(files.take(i));
    let lead = if i > 0 { PAGE_BREAK@ } else { Seq::<char>::empty() };
    let start = lead + word_paragraph_of(files[i].name@, Some("Title"@));
    let sec = docx_file_section(i as nat, files[i]);
    assert(files.take(i + 1).drop_last() =~= files.take(i));
    assert(files.take(i + 1).last() == files[i]);
    let rest = concat_all(
        text_lines_of(parsed_events(files[i].content@, ALL_OPTIONS)).map_values(|l: Seq<char>| line_paragraph(l)),
    );
    assert(sec =~= start + rest);
    lemma_file_sections_prefix(files, i + 1);
    let upto = docx_file_sections(files.take(i + 1));
    assert(upto =~= before + start + rest);
    let all = docx_file_sections(files);
    assert(all.subrange(before.len() as int, (before.len() + start.len()) as int) =~= upto.subrange(
        before.len() as int,
        (before.len() + start.len()) as int,
    ));
}

} // verus!
