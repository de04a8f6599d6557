//! The PDF writer: one Helvetica text stream per page, header and footer
//! lines from templates, and the cross-reference table of byte offsets.

use vstd::prelude::*;
use vstd::utf8::encode_utf8;

use crate::color::{color_of, color_operands, color_readable, color_slices_whole, color_text, rgb};
use crate::escape::{pdf_escape, pdf_escaped};
use crate::model::ExportRequest;
use crate::pages::{page_views, pdf_pages, pdf_pages_of, token_text, token_text_of};
use crate::text::{append_bytes, append_text, decimal, decimal_chars, padded_decimal, views, zero_padded};

verus! {

/// The numbers of the PDF layout that come from the export's font size and
/// theme, already worked out: the wrapping width and page length, and the
/// body size, leading and title size written with one decimal.
pub struct PdfLayout {
    pub chars_per_line: usize,
    pub lines_per_page: usize,
    pub font_size: String,
    pub leading: String,
    pub title_size: String,
}

/// The colours and texts that every page stream repeats.
pub struct StreamStyle {
    pub paper: Seq<char>,
    pub ink: Seq<char>,
    pub accent: Seq<char>,
    pub size: Seq<char>,
    pub leading: Seq<char>,
    pub title_size: Seq<char>,
}

/// The stream style of a request and layout.
pub open spec fn style_of(request: ExportRequest, layout: PdfLayout) -> StreamStyle {
    StreamStyle {
        paper: color_text(color_of(request.theme.paper@)),
        ink: color_text(color_of(request.theme.ink@)),
        accent: color_text(color_of(request.theme.accent@)),
        size: layout.font_size@,
        leading: layout.leading@,
        title_size: layout.title_size@,
    }
}

/// The start of a page stream: the paper fill, the ink colour and the
/// text state.
pub open spec fn stream_head(st: StreamStyle) -> Seq<char> {
    st.paper + " rg 0 0 595 842 re f\n"@ + st.ink + " rg\nBT /F1 "@ + st.size + " Tf "@ + st.leading
        + " TL 62 774 Td\n"@
}

/// The operators that show line `j` of a page: the first line in the
/// accent colour at the title size, the second back in ink at the body
/// size.
pub open spec fn line_ops(j: nat, line: Seq<char>, st: StreamStyle) -> Seq<char> {
    (if j == 0 {
        st.accent + " rg /F1 "@ + st.title_size + " Tf "@
    } else if j == 1 {
        st.ink + " rg /F1 "@ + st.size + " Tf "@
    } else {
        Seq::empty()
    }) + "("@ + pdf_escaped(line) + ") Tj T*\n"@
}

/// The operators of the given lines of a page.
pub open spec fn lines_ops(lines: Seq<Seq<char>>, st: StreamStyle) -> Seq<char>
    decreases lines.len(),
{
    if lines.len() == 0 {
        seq![]
    } else {
        lines_ops(lines.drop_last(), st) + line_ops((lines.len() - 1) as nat, lines.last(), st)
    }
}

/// A one-line text in ink at size 8, set by `lead` (which places it and
/// opens the string), or nothing for an empty text.
pub open spec fn margin_text(text: Seq<char>, lead: Seq<char>, ink: Seq<char>) -> Seq<char> {
    if text.len() > 0 {
        ink + lead + pdf_escaped(text) + ") Tj ET\n"@
    } else {
        seq![]
    }
}

/// The footer template: the centre footer, or `{page}` where page numbers
/// are asked for and the centre footer is empty.
pub open spec fn footer_template(request: ExportRequest) -> Seq<char> {
    if request.export_options.page_numbers && request.export_options.footer_center@.len() == 0 {
        "{page}"@
    } else {
        request.export_options.footer_center@
    }
}

/// The content stream of page number `page` (counted from 1).
pub open spec fn page_stream(
    lines: Seq<Seq<char>>,
    page: nat,
    request: ExportRequest,
    st: StreamStyle,
    date: Seq<char>,
) -> Seq<char> {
    stream_head(st) + lines_ops(lines, st) + "ET\n"@ + margin_text(
        token_text_of(request.export_options.header_center@, request.name@, page, date),
        " rg BT /F1 8 Tf 250 814 Td ("@,
        st.ink,
    ) + margin_text(
        token_text_of(footer_template(request), request.name@, page, date),
        " rg BT /F1 8 Tf 290 28 Td ("@,
        st.ink,
    )
}

/// `n 0 R`, a reference to object `n`.
pub open spec fn obj_ref(n: nat) -> Seq<char> {
    decimal_chars(n) + " 0 R"@
}

/// The references to the page objects of `count` pages, separated by spaces.
pub open spec fn kids(count: nat) -> Seq<char>
    decreases count,
{
    if count == 0 {
        seq![]
    } else if count == 1 {
        obj_ref(4)
    } else {
        kids((count - 1) as nat) + " "@ + obj_ref(4 + 2 * (count - 1) as nat)
    }
}

/// The page tree object.
pub open spec fn pages_object(count: nat) -> Seq<char> {
    "<< /Type /Pages /Kids ["@ + kids(count) + "] /Count "@ + decimal_chars(count) + " >>"@
}

/// The page object of page `index` (counted from 0).
pub open spec fn page_object(index: nat) -> Seq<char> {
    "<< /Type /Page /Parent 2 0 R /MediaBox [0 0 595 842] /Resources << /Font << /F1 3 0 R >> >> /Contents "@
        + decimal_chars(5 + 2 * index) + " 0 R >>"@
}

/// The content stream object around a stream.
pub open spec fn content_object(stream: Seq<char>) -> Seq<char> {
    "<< /Length "@ + decimal_chars(encode_utf8(stream).len()) + " >>\nstream\n"@ + stream + "endstream"@
}

/// The page and content objects of the given pages, numbered from page 1.
pub open spec fn page_objects(
    pages: Seq<Seq<Seq<char>>>,
    request: ExportRequest,
    st: StreamStyle,
    date: Seq<char>,
) -> Seq<Seq<u8>>
    decreases pages.len(),
{
    if pages.len() == 0 {
        seq![]
    } else {
        let i = (pages.len() - 1) as nat;
        page_objects(pages.drop_last(), request, st, date) + seq![
            encode_utf8(page_object(i)),
            encode_utf8(content_object(page_stream(pages.last(), i + 1, request, st, date))),
        ]
    }
}

/// All objects of the document, numbered from 1: the catalog, the page
/// tree, the font, then a page object and a content object per page.
pub open spec fn pdf_objects(
    pages: Seq<Seq<Seq<char>>>,
    request: ExportRequest,
    st: StreamStyle,
    date: Seq<char>,
) -> Seq<Seq<u8>> {
    seq![
        encode_utf8("<< /Type /Catalog /Pages 2 0 R >>"@),
        encode_utf8(pages_object(pages.len())),
        encode_utf8("<< /Type /Font /Subtype /Type1 /BaseFont /Helvetica >>"@),
    ] + page_objects(pages, request, st, date)
}

/// The file header: the version line and a comment of four high bytes.
pub open spec fn pdf_header() -> Seq<u8> {
    seq![37u8, 80, 68, 70, 45, 49, 46, 52, 10, 37, 0xE2, 0xE3, 0xCF, 0xD3, 10]
}

/// Object number `k` framed by `k 0 obj` and `endobj`.
pub open spec fn framed(k: nat, obj: Seq<u8>) -> Seq<u8> {
    encode_utf8(decimal_chars(k) + " 0 obj\n"@) + obj + encode_utf8("\nendobj\n"@)
}

/// The framed objects one after the other.
pub open spec fn body_bytes(objs: Seq<Seq<u8>>) -> Seq<u8>
    decreases objs.len(),
{
    if objs.len() == 0 {
        seq![]
    } else {
        body_bytes(objs.drop_last()) + framed(objs.len(), objs.last())
    }
}

/// Where each framed object starts in the file.
pub open spec fn offsets(objs: Seq<Seq<u8>>) -> Seq<nat>
    decreases objs.len(),
{
    if objs.len() == 0 {
        seq![]
    } else {
        offsets(objs.drop_last()).push(pdf_header().len() + body_bytes(objs.drop_last()).len())
    }
}

/// The cross-reference entries of the given offsets.
pub open spec fn xref_entries(offs: Seq<nat>) -> Seq<u8>
    decreases offs.len(),
{
    if offs.len() == 0 {
        seq![]
    } else {
        xref_entries(offs.drop_last()) + encode_utf8(zero_padded(decimal_chars(offs.last()), 10) + " 00000 n \n"@)
    }
}

/// The bytes of a PDF file holding the given objects: header, framed
/// objects, cross-reference table and trailer.
pub open spec fn pdf_file(objs: Seq<Seq<u8>>) -> Seq<u8> {
    let body = body_bytes(objs);
    let count = objs.len() + 1;
    pdf_header() + body + encode_utf8("xref\n0 "@ + decimal_chars(count) + "\n"@) + encode_utf8(
        "0000000000 65535 f \n"@,
    ) + xref_entries(offsets(objs)) + encode_utf8(
        "trailer << /Size "@ + decimal_chars(count) + " /Root 1 0 R >>\nstartxref\n"@ + decimal_chars(
            pdf_header().len() + body.len(),
        ) + "\n%%EOF\n"@,
    )
}

/// The PDF file of the given pages.
pub open spec fn pdf_bytes_of(
    pages: Seq<Seq<Seq<char>>>,
    request: ExportRequest,
    layout: PdfLayout,
    date: Seq<char>,
) -> Seq<u8> {
    pdf_file(pdf_objects(pages, request, style_of(request, layout), date))
}

/// Whether the colours that the PDF uses can be read without a panic.
pub open spec fn pdf_colors_whole(request: ExportRequest) -> bool {
    &&& color_slices_whole(request.theme.paper@)
    &&& color_slices_whole(request.theme.ink@)
    &&& color_slices_whole(request.theme.accent@)
}

/// Whether the paper, ink and accent colours can be read.
pub fn pdf_colors_readable(request: &ExportRequest) -> (r: bool)
    ensures
        r == pdf_colors_whole(*request),
{
    color_readable(request.theme.paper.as_str()) && color_readable(request.theme.ink.as_str()) && color_readable(
        request.theme.accent.as_str(),
    )
}

/// The most pages whose object numbers fit in a `usize`.
pub open spec fn max_pages() -> nat {
    ((usize::MAX - 5) / 2) as nat
}



/// The operators that show line `j` of a page.
fn line_ops_text(j: usize, line: &String, layout: &PdfLayout, ink: &String, accent: &String, st: Ghost<StreamStyle>) -> (op: String)
    requires
        ink@ == st@.ink,
        accent@ == st@.accent,
        layout.font_size@ == st@.size,
        layout.title_size@ == st@.title_size,
    ensures
        op@ == line_ops(j as nat, line@, st@),
{
    let mut op = String::new();
    if j == 0 {
        op.append(accent.as_str());
        op.append(" rg /F1 ");
        op.append(layout.title_size.as_str());
        op.append(" Tf ");
    } else if j == 1 {
        op.append(ink.as_str());
        op.append(" rg /F1 ");
        op.append(layout.font_size.as_str());
        op.append(" Tf ");
    }
    op.append("(");
    let escaped = pdf_escape(line.as_str());
    op.append(escaped.as_str());
    op.append(") Tj T*\n");
    assert(op@ =~= line_ops(j as nat, line@, st@));
    op
}

/// A header or footer line, or nothing for an empty text.
fn margin_line(text: &String, lead: &str, ink: &String) -> (m: String)
    ensures
        m@ == margin_text(text@, lead@, ink@),
{
    let mut m = String::new();
    if !text.as_str().is_empty() {
        m.append(ink.as_str());
        m.append(lead);
        let e = pdf_escape(text.as_str());
        m.append(e.as_str());
        m.append(") Tj ET\n");
        assert(m@ =~= margin_text(text@, lead@, ink@));
    }
    m
}

/// The start of a page stream.
fn stream_head_text(layout: &PdfLayout, paper: &String, ink: &String, st: Ghost<StreamStyle>) -> (s: String)
    requires
        paper@ == st@.paper,
        ink@ == st@.ink,
        layout.font_size@ == st@.size,
        layout.leading@ == st@.leading,
    ensures
        s@ == stream_head(st@),
{
    let mut s = String::new();
    s.append(paper.as_str());
    s.append(" rg 0 0 595 842 re f\n");
    s.append(ink.as_str());
    s.append(" rg\nBT /F1 ");
    s.append(layout.font_size.as_str());
    s.append(" Tf ");
    s.append(layout.leading.as_str());
    s.append(" TL 62 774 Td\n");
    assert(s@ =~= stream_head(st@));
    s
}

/// The content stream of one page.
fn page_stream_text(
    lines: &Vec<String>,
    page: usize,
    request: &ExportRequest,
    layout: &PdfLayout,
    paper: &String,
    ink: &String,
    accent: &String,
    date: &str,
) -> (s: String)
    requires
        paper@ == style_of(*request, *layout).paper,
        ink@ == style_of(*request, *layout).ink,
        accent@ == style_of(*request, *layout).accent,
    ensures
        s@ == page_stream(views(lines@), page as nat, *request, style_of(*request, *layout), date@),
{
    let ghost st = style_of(*request, *layout);
    let ghost lv = views(lines@);
    let mut s = stream_head_text(layout, paper, ink, Ghost(st));
    assert(lv.take(0) =~= Seq::<Seq<char>>::empty());
    assert(s@ =~= stream_head(st) + lines_ops(lv.take(0), st));
    let mut j: usize = 0;
    while j < lines.len()
        invariant
            j <= lines.len(),
            lv == views(lines@),
            st == style_of(*request, *layout),
            ink@ == st.ink,
            accent@ == st.accent,
            s@ == stream_head(st) + lines_ops(lv.take(j as int), st),
        decreases lines.len() - j,
    {
        let op = line_ops_text(j, &lines[j], layout, ink, accent, Ghost(st));
        s.append(op.as_str());
        assert(lv.take(j + 1).drop_last() =~= lv.take(j as int));
        assert(s@ =~= stream_head(st) + lines_ops(lv.take(j + 1), st));
        j = j + 1;
    }
    assert(lv.take(lines.len() as int) =~= lv);
    s.append("ET\n");
    let header = token_text(
        request.export_options.header_center.as_str(),
        request.name.as_str(),
        page,
        date,
    );
    let h = margin_line(&header, " rg BT /F1 8 Tf 250 814 Td (", ink);
    s.append(h.as_str());
    proof {
        reveal_strlit("{page}");
    }
    let template: &str = if request.export_options.page_numbers
        && request.export_options.footer_center.as_str().is_empty() {
        "{page}"
    } else {
        request.export_options.footer_center.as_str()
    };
    assert(template@ == footer_template(*request));
    let footer = token_text(template, request.name.as_str(), page, date);
    let f = margin_line(&footer, " rg BT /F1 8 Tf 290 28 Td (", ink);
    s.append(f.as_str());
    assert(s@ =~= page_stream(lv, page as nat, *request, st, date@));
    s
}

/// The page tree object of `count` pages.
fn pages_object_text(count: usize) -> (s: String)
    requires
        count <= max_pages(),
    ensures
        s@ == pages_object(count as nat),
{
    let mut k = String::new();
    let mut index: usize = 0;
    while index < count
        invariant
            index <= count <= max_pages(),
            k@ == kids(index as nat),
        decreases count - index,
    {
        let ghost before = k@;
        if index > 0 {
            k.append(" ");
        }
        let r = decimal((4 + 2 * index) as u64);
        k.append(r.as_str());
        k.append(" 0 R");
        assert(k@ =~= kids((index + 1) as nat));
        index = index + 1;
    }
    let mut s = String::new();
    s.append("<< /Type /Pages /Kids [");
    s.append(k.as_str());
    s.append("] /Count ");
    let c = decimal(count as u64);
    s.append(c.as_str());
    s.append(" >>");
    assert(s@ =~= pages_object(count as nat));
    s
}

/// The bytes of a text.
fn text_bytes(s: &str) -> (b: Vec<u8>)
    ensures
        b@ == encode_utf8(s@),
{
    let mut b: Vec<u8> = Vec::new();
    append_text(&mut b, s);
    assert(b@ =~= encode_utf8(s@));
    b
}

/// The page object and the content object of page `index` (counted from 0).
fn page_objects_bytes(
    lines: &Vec<String>,
    index: usize,
    request: &ExportRequest,
    layout: &PdfLayout,
    paper: &String,
    ink: &String,
    accent: &String,
    date: &str,
) -> (r: (Vec<u8>, Vec<u8>))
    requires
        index < max_pages(),
        paper@ == style_of(*request, *layout).paper,
        ink@ == style_of(*request, *layout).ink,
        accent@ == style_of(*request, *layout).accent,
    ensures
        r.0@ == encode_utf8(page_object(index as nat)),
        r.1@ == encode_utf8(content_object(page_stream(views(lines@), (index + 1) as nat, *request, style_of(*request, *layout), date@))),
{
    let mut page = String::new();
    page.append("<< /Type /Page /Parent 2 0 R /MediaBox [0 0 595 842] /Resources << /Font << /F1 3 0 R >> >> /Contents ");
    let content_id = decimal((5 + 2 * index) as u64);
    page.append(content_id.as_str());
    page.append(" 0 R >>");
    assert(page@ =~= page_object(index as nat));
    let stream = page_stream_text(lines, index + 1, request, layout, paper, ink, accent, date);
    let mut content = String::new();
    content.append("<< /Length ");
    let length = decimal(stream.as_str().as_bytes().len() as u64);
    content.append(length.as_str());
    content.append(" >>\nstream\n");
    content.append(stream.as_str());
    content.append("endstream");
    assert(content@ =~= content_object(stream@));
    (text_bytes(page.as_str()), text_bytes(content.as_str()))
}

/// The objects of the document for the given pages.
fn build_objects(pages: &Vec<Vec<String>>, request: &ExportRequest, layout: &PdfLayout, date: &str) -> (objs: Vec<
    Vec<u8>,
>)
    requires
        pages.len() <= max_pages(),
        pdf_colors_whole(*request),
    ensures
        objs.len() == 3 + 2 * pages.len(),
        objs@.map_values(|o: Vec<u8>| o@) == pdf_objects(
            page_views(pages@),
            *request,
            style_of(*request, *layout),
            date@,
        ),
{
    let ghost st = style_of(*request, *layout);
    let ghost pv = page_views(pages@);
    let paper = color_operands(rgb(request.theme.paper.as_str()));
    let ink = color_operands(rgb(request.theme.ink.as_str()));
    let accent = color_operands(rgb(request.theme.accent.as_str()));
    let mut objs: Vec<Vec<u8>> = Vec::new();
    objs.push(text_bytes("<< /Type /Catalog /Pages 2 0 R >>"));
    let tree = pages_object_text(pages.len());
    objs.push(text_bytes(tree.as_str()));
    objs.push(text_bytes("<< /Type /Font /Subtype /Type1 /BaseFont /Helvetica >>"));
    let ghost head = objs@.map_values(|o: Vec<u8>| o@);
    assert(pv.take(0) =~= Seq::<Seq<Seq<char>>>::empty());
    assert(head + page_objects(pv.take(0), *request, st, date@) =~= head);
    let mut i: usize = 0;
    while i < pages.len()
        invariant
            i <= pages.len() <= max_pages(),
            pv == page_views(pages@),
            st == style_of(*request, *layout),
            paper@ == st.paper,
            ink@ == st.ink,
            accent@ == st.accent,
            head.len() == 3,
            objs.len() == 3 + 2 * i,
            objs@.map_values(|o: Vec<u8>| o@) == head + page_objects(pv.take(i as int), *request, st, date@),
        decreases pages.len() - i,
    {
        let ghost before = objs@.map_values(|o: Vec<u8>| o@);
        let (page, content) = page_objects_bytes(&pages[i], i, request, layout, &paper, &ink, &accent, date);
        objs.push(page);
        objs.push(content);
        assert(pv.take(i + 1).drop_last() =~= pv.take(i as int));
        assert(pv.take(i + 1).last() == pv[i as int]);
        assert(objs@.map_values(|o: Vec<u8>| o@) =~= before + seq![
            encode_utf8(page_object(i as nat)),
            encode_utf8(content_object(page_stream(pv[i as int], (i + 1) as nat, *request, st, date@))),
        ]);
        i = i + 1;
    }
    assert(pv.take(pages.len() as int) =~= pv);
    assert(head =~= seq![
        encode_utf8("<< /Type /Catalog /Pages 2 0 R >>"@),
        encode_utf8(pages_object(pv.len())),
        encode_utf8("<< /Type /Font /Subtype /Type1 /BaseFont /Helvetica >>"@),
    ]);
    objs
}

/// The bytes of a PDF file holding the given objects.
pub fn pdf_file_bytes(objs: &Vec<Vec<u8>>) -> (out: Vec<u8>)
    requires
        objs.len() < usize::MAX,
    ensures
        out@ == pdf_file(objs@.map_values(|o: Vec<u8>| o@)),
{
    let ghost ov = objs@.map_values(|o: Vec<u8>| o@);
    let mut out: Vec<u8> = Vec::new();
    let head: [u8; 15] = [37u8, 80, 68, 70, 45, 49, 46, 52, 10, 37, 0xE2, 0xE3, 0xCF, 0xD3, 10];
    append_bytes(&mut out, head.as_slice());
    assert(out@ =~= pdf_header());
    let mut offs: Vec<usize> = Vec::new();
    let mut k: usize = 0;
    assert(ov.take(0) =~= Seq::<Seq<u8>>::empty());
    while k < objs.len()
        invariant
            k <= objs.len() < usize::MAX,
            ov == objs@.map_values(|o: Vec<u8>| o@),
            out@ == pdf_header() + body_bytes(ov.take(k as int)),
            offs@.map_values(|o: usize| o as nat) == offsets(ov.take(k as int)),
        decreases objs.len() - k,
    {
        let ghost before = out@;
        let ghost offs_before = offs@;
        offs.push(out.len());
        let mut open = decimal((k + 1) as u64);
        open.append(" 0 obj\n");
        append_text(&mut out, open.as_str());
        append_bytes(&mut out, objs[k].as_slice());
        append_text(&mut out, "\nendobj\n");
        assert(ov.take(k + 1).drop_last() =~= ov.take(k as int));
        assert(ov.take(k + 1).last() == objs@[k as int]@);
        assert(out@ =~= pdf_header() + body_bytes(ov.take(k + 1)));
        assert(offs@.map_values(|o: usize| o as nat) =~= offs_before.map_values(|o: usize| o as nat).push(
            before.len(),
        ));
        k = k + 1;
    }
    assert(ov.take(objs.len() as int) =~= ov);
    let xref = out.len();
    let mut line = String::new();
    line.append("xref\n0 ");
    let count = decimal((objs.len() + 1) as u64);
    line.append(count.as_str());
    line.append("\n");
    append_text(&mut out, line.as_str());
    append_text(&mut out, "0000000000 65535 f \n");
    let ghost before_entries = out@;
    let ghost offv = offs@.map_values(|o: usize| o as nat);
    let mut m: usize = 0;
    assert(offv.take(0) =~= Seq::<nat>::empty());
    while m < offs.len()
        invariant
            m <= offs.len(),
            offv == offs@.map_values(|o: usize| o as nat),
            out@ == before_entries + xref_entries(offv.take(m as int)),
        decreases offs.len() - m,
    {
        let mut entry = padded_decimal(offs[m] as u64, 10);
        entry.append(" 00000 n \n");
        append_text(&mut out, entry.as_str());
        assert(offv.take(m + 1).drop_last() =~= offv.take(m as int));
        m = m + 1;
    }
    assert(offv.take(offs.len() as int) =~= offv);
    let mut trailer = String::new();
    trailer.append("trailer << /Size ");
    trailer.append(count.as_str());
    trailer.append(" /Root 1 0 R >>\nstartxref\n");
    let x = decimal(xref as u64);
    trailer.append(x.as_str());
    trailer.append("\n%%EOF\n");
    append_text(&mut out, trailer.as_str());
    assert(out@ =~= pdf_file(ov));
    out
}

/// The bytes of the PDF export of the given pages.
pub fn pdf_document(pages: &Vec<Vec<String>>, request: &ExportRequest, layout: &PdfLayout, date: &str) -> (out: Vec<u8>)
    requires
        pages.len() <= max_pages(),
        pdf_colors_whole(*request),
    ensures
        out@ == pdf_bytes_of(page_views(pages@), *request, *layout, date@),
{
    let objs = build_objects(pages, request, layout, date);
    pdf_file_bytes(&objs)
}


/// The PDF export of a collection: its pages laid out with the given
/// layout, written as a PDF file. `None` only where the page count would
/// overflow the object numbers.
pub fn write_pdf(request: &ExportRequest, layout: &PdfLayout, date: &str) -> (out: Option<Vec<u8>>)
    requires
        request.files@.len() == 0 || layout.lines_per_page > 0,
        pdf_colors_whole(*request),
    ensures
        out is None <==> pdf_pages_of(*request, layout.chars_per_line as nat, layout.lines_per_page as nat).len()
            > max_pages(),
        out matches Some(bytes) ==> bytes@ == pdf_bytes_of(
            pdf_pages_of(*request, layout.chars_per_line as nat, layout.lines_per_page as nat),
            *request,
            *layout,
            date@,
        ),
{
    let pages = pdf_pages(request, layout.chars_per_line, layout.lines_per_page);
    if pages.len() > (usize::MAX - 5) / 2 {
        return None;
    }
    Some(pdf_document(&pages, request, layout, date))
}


proof fn lemma_offsets_len(objs: Seq<Seq<u8>>)
    ensures
        offsets(objs).len() == objs.len(),
    decreases objs.len(),
{
    if objs.len() > 0 {
        lemma_offsets_len(objs.drop_last());
    }
}

proof fn lemma_body_split(objs: Seq<Seq<u8>>, k: int)
    requires
        0 <= k < objs.len(),
    ensures
        offsets(objs).len() == objs.len(),
        offsets(objs)[k] == pdf_header().len() + body_bytes(objs.take(k)).len(),
        body_bytes(objs.take(k)).len() + framed((k + 1) as nat, objs[k]).len() <= body_bytes(objs).len(),
        body_bytes(objs).subrange(
            body_bytes(objs.take(k)).len() as int,
            (body_bytes(objs.take(k)).len() + framed((k + 1) as nat, objs[k]).len()) as int,
        ) == framed((k + 1) as nat, objs[k]),
    decreases objs.len(),
{
    let n = objs.len() - 1;
    let prev = objs.drop_last();
    lemma_offsets_len(objs);
    lemma_offsets_len(prev);
    assert(objs.take(n) =~= prev);
    if k < n {
        lemma_body_split(prev, k);
        assert(prev.take(k) =~= objs.take(k));
        assert(prev[k] == objs[k]);
        let a = body_bytes(prev);
        let b = framed(objs.len(), objs.last());
        let lo = body_bytes(objs.take(k)).len() as int;
        let hi = lo + framed((k + 1) as nat, objs[k]).len();
        assert((a + b).subrange(lo, hi) =~= a.subrange(lo, hi));
    } else {
        if n > 0 {
            lemma_body_split(prev, 0);
        }
        let a = body_bytes(prev);
        let b = framed(objs.len(), objs.last());
        assert((a + b).subrange(a.len() as int, (a.len() + b.len()) as int) =~= b);
    }
}

/// Every entry of the cross-reference table points at its object: the
/// bytes at the offset recorded for object `k + 1` are that object framed
/// by `k + 1 0 obj` and `endobj`; and the table has one entry per object.
pub proof fn law_pdf_xref_points_at_objects(objs: Seq<Seq<u8>>, k: int)
    requires
        0 <= k < objs.len(),
    ensures
        offsets(objs).len() == objs.len(),
        offsets(objs)[k] + framed((k + 1) as nat, objs[k]).len() <= pdf_file(objs).len(),
        pdf_file(objs).subrange(
            offsets(objs)[k] as int,
            (offsets(objs)[k] + framed((k + 1) as nat, objs[k]).len()) as int,
        ) == framed((k + 1) as nat, objs[k]),
{
    lemma_body_split(objs, k);
    let h = pdf_header();
    let body = body_bytes(objs);
    let count = objs.len() + 1;
    let rest = encode_utf8("xref\n0 "@ + decimal_chars(count) + "\n"@) + encode_utf8("0000000000 65535 f \n"@)
        + xref_entries(offsets(objs)) + encode_utf8(
        "trailer << /Size "@ + decimal_chars(count) + " /Root 1 0 R >>\nstartxref\n"@ + decimal_chars(
            h.len() + body.len(),
        ) + "\n%%EOF\n"@,
    );
    assert(pdf_file(objs) =~= h + body + rest);
    let lo = offsets(objs)[k] as int;
    let hi = lo + framed((k + 1) as nat, objs[k]).len();
    let blo = lo - h.len();
    assert((h + body + rest).subrange(lo, hi) =~= body.subrange(blo, blo + framed((k + 1) as nat, objs[k]).len()));
}


proof fn lemma_lines_ops_prefix(lines: Seq<Seq<char>>, st: StreamStyle, k: int)
    requires
        0 <= k <= lines.len(),
    ensures
        lines_ops(lines.take(k), st).len() <= lines_ops(lines, st).len(),
        lines_ops(lines, st).take(lines_ops(lines.take(k), st).len() as int) == lines_ops(lines.take(k), st),
    decreases lines.len(),
{
    if k == lines.len() {
        assert(lines.take(k) =~= lines);
        assert(lines_ops(lines, st).take(lines_ops(lines, st).len() as int) =~= lines_ops(lines, st));
    } else {
        lemma_lines_ops_prefix(lines.drop_last(), st, k);
        assert(lines.drop_last().take(k) =~= lines.take(k));
        let a = lines_ops(lines.drop_last(), st);
        let b = line_ops((lines.len() - 1) as nat, lines.last(), st);
        let n = lines_ops(lines.take(k), st).len() as int;
        assert((a + b).take(n) =~= a.take(n));
    }
}

/// How the lines of a page are set: the first line in the accent colour
/// at the title size, the second switched back to ink at the body size,
/// and every later line with no change of colour or size. The page stream
/// holds these operators right after its head.
pub proof fn law_pdf_page_lines_style(
    lines: Seq<Seq<char>>,
    page: nat,
    request: ExportRequest,
    st: StreamStyle,
    date: Seq<char>,
)
    requires
        lines.len() >= 2,
    ensures
        ({
            let first_two = st.accent + " rg /F1 "@ + st.title_size + " Tf ("@ + pdf_escaped(lines[0])
                + ") Tj T*\n"@ + st.ink + " rg /F1 "@ + st.size + " Tf ("@ + pdf_escaped(lines[1])
                + ") Tj T*\n"@;
            let h = stream_head(st).len();
            &&& h + first_two.len() <= page_stream(lines, page, request, st, date).len()
            &&& page_stream(lines, page, request, st, date).subrange(h as int, (h + first_two.len()) as int) == first_two
        }),
        forall|k: int|
            2 <= k < lines.len() ==> #[trigger] lines_ops(lines.take(k + 1), st) == lines_ops(lines.take(k), st)
                + "("@ + pdf_escaped(lines[k]) + ") Tj T*\n"@,
{
    reveal_strlit(" rg /F1 ");
    reveal_strlit(" Tf ");
    reveal_strlit("(");
    reveal_strlit(" Tf (");
    reveal_strlit(") Tj T*\n");
    let first_two = st.accent + " rg /F1 "@ + st.title_size + " Tf ("@ + pdf_escaped(lines[0]) + ") Tj T*\n"@
        + st.ink + " rg /F1 "@ + st.size + " Tf ("@ + pdf_escaped(lines[1]) + ") Tj T*\n"@;
    let t2 = lines.take(2);
    assert(t2.drop_last() =~= lines.take(1));
    assert(lines.take(1).drop_last() =~= Seq::<Seq<char>>::empty());
    assert(lines_ops(Seq::<Seq<char>>::empty(), st) =~= Seq::<char>::empty());
    assert(lines_ops(lines.take(1), st) =~= line_ops(0, lines[0], st));
    assert(lines_ops(t2, st) =~= line_ops(0, lines[0], st) + line_ops(1, lines[1], st));
    assert(" Tf "@ + "("@ =~= " Tf ("@);
    assert(lines_ops(t2, st) =~= first_two);
    lemma_lines_ops_prefix(lines, st, 2);
    let ops = lines_ops(lines, st);
    let h = stream_head(st);
    let ps = page_stream(lines, page, request, st, date);
    let tail = "ET\n"@ + margin_text(
        token_text_of(request.export_options.header_center@, request.name@, page, date),
        " rg BT /F1 8 Tf 250 814 Td ("@,
        st.ink,
    ) + margin_text(
        token_text_of(footer_template(request), request.name@, page, date),
        " rg BT /F1 8 Tf 290 28 Td ("@,
        st.ink,
    );
    assert(ps =~= h + ops + tail);
    assert(ps.subrange(h.len() as int, (h.len() + first_two.len()) as int) =~= ops.take(first_two.len() as int));
    assert forall|k: int|
        2 <= k < lines.len() implies #[trigger] lines_ops(lines.take(k + 1), st) == lines_ops(lines.take(k), st)
            + "("@ + pdf_escaped(lines[k]) + ") Tj T*\n"@ by {
        assert(lines.take(k + 1).drop_last() =~= lines.take(k));
        assert(lines.take(k + 1).last() == lines[k]);
        assert(line_ops(k as nat, lines[k], st) =~= Seq::<char>::empty() + "("@ + pdf_escaped(lines[k])
            + ") Tj T*\n"@);
    }
}

} // verus!
