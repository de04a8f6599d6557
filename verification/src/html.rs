//! The self-contained HTML export: a styled page with an optional table of
//! contents and one section per file.

use vstd::prelude::*;

use crate::escape::{escape_html, html_escaped};
use crate::markdown::{markdown_html, rendered_html, GFM_OPTIONS};
use crate::library::lemma_decimal_digits;
use crate::model::{ExportRequest, StudioFile};
use crate::text::{decimal, decimal_chars, padded_decimal, same_text, zero_padded};

verus! {

/// Part 0 of the HTML page template.
pub const HTML_PART_0: &'static str = "<!doctype html><html lang=\"en\"><head><meta charset=\"utf-8\"><meta name=\"viewport\" content=\"width=device-width\"><title>";
/// Part 1 of the HTML page template.
pub const HTML_PART_1: &'static str = "</title>\n<style>\n:root{--paper:";
/// Part 2 of the HTML page template.
pub const HTML_PART_2: &'static str = ";--ink:";
/// Part 3 of the HTML page template.
pub const HTML_PART_3: &'static str = ";--muted:";
/// Part 4 of the HTML page template.
pub const HTML_PART_4: &'static str = ";--accent:";
/// Part 5 of the HTML page template.
pub const HTML_PART_5: &'static str = ";--rule:";
/// Part 6 of the HTML page template.
pub const HTML_PART_6: &'static str = ";--code:";
/// Part 7 of the HTML page template.
pub const HTML_PART_7: &'static str = ";}\n*{box-sizing:border-box} html{background:var(--paper);color:var(--ink)} body{margin:0;font:";
/// Part 8 of the HTML page template.
pub const HTML_PART_8: &'static str = "px/";
/// Part 9 of the HTML page template.
pub const HTML_PART_9: &'static str = " ";
/// Part 10 of the HTML page template.
pub const HTML_PART_10: &'static str = "}\nmain{max-width:";
/// Part 11 of the HTML page template.
pub const HTML_PART_11: &'static str = "px;margin:auto;padding:72px 36px} h1,h2,h3,h4{font-family:ui-sans-serif,system-ui,sans-serif;line-height:1.15;letter-spacing:-.025em}\nh1{font-size:2.4em;border-bottom:1px solid var(--rule);padding-bottom:.35em} h2{margin-top:2em} p{margin:0 0 ";
/// Part 12 of the HTML page template.
pub const HTML_PART_12: &'static str = "em}\na{color:var(--accent)} blockquote{border-left:3px solid var(--accent);padding-left:1.2em;color:var(--muted)} code,pre{font-family:ui-monospace,monospace;background:var(--code)} code{padding:.15em .3em;border-radius:4px} pre{padding:1.2em;overflow:auto;border-radius:8px}\ntable{border-collapse:collapse;width:100%} td,th{border-bottom:1px solid var(--rule);padding:.55em;text-align:left}\n.source-file{break-before:page;min-height:80vh}.source-file:first-of-type{break-before:auto}.source-label{font:10px ui-sans-serif;text-transform:uppercase;letter-spacing:.14em;color:var(--accent);margin-bottom:3em}\n.toc{break-after:page;min-height:80vh}.toc ol{padding:0;list-style:none}.toc li{border-bottom:1px solid var(--rule);padding:.7em 0}.toc a{display:block;text-decoration:none}\n@page{margin:22mm 18mm} @media print{main{padding:0}}\n</style></head><body><main>";
/// Part 13 of the HTML page template.
pub const HTML_PART_13: &'static str = "";
/// Part 14 of the HTML page template.
pub const HTML_PART_14: &'static str = "</main></body></html>";

/// The numbers of the page style, already written as decimal text: the
/// font size in pixels, the line height, the measure in pixels and the gap
/// after paragraphs in ems.
pub struct HtmlMetrics {
    pub font_size: String,
    pub line_height: String,
    pub measure: String,
    pub paragraph_gap: String,
}

/// The font stack of a typeface choice: `mono`, `sans`, or a serif stack
/// for anything else.
pub open spec fn typeface_stack(typeface: Seq<char>) -> Seq<char> {
    if typeface == "mono"@ {
        "ui-monospace, SFMono-Regular, Consolas, monospace"@
    } else if typeface == "sans"@ {
        "ui-sans-serif, system-ui, sans-serif"@
    } else {
        "Iowan Old Style, Palatino Linotype, Georgia, serif"@
    }
}

/// The contents entry of file `index`, a link to its section.
pub open spec fn toc_item(index: nat, f: StudioFile) -> Seq<char> {
    "<li><a href=\"#section-"@ + decimal_chars(index) + "\">"@ + html_escaped(f.name@) + "</a></li>"@
}

/// The section of file `index`: an anchor, a label with its number (two
/// digits at least) and name, and its Markdown rendered to HTML.
pub open spec fn section_of(index: nat, f: StudioFile) -> Seq<char> {
    "<section id=\"section-"@ + decimal_chars(index) + "\" class=\"source-file\"><div class=\"source-label\">"@
        + zero_padded(decimal_chars(index + 1), 2) + " · "@ + html_escaped(f.name@) + "</div>"@
        + rendered_html(f.content@, GFM_OPTIONS) + "</section>"@
}

/// The contents entries of the given files.
pub open spec fn toc_items(files: Seq<StudioFile>) -> Seq<char>
    decreases files.len(),
{
    if files.len() == 0 {
        seq![]
    } else {
        toc_items(files.drop_last()) + toc_item((files.len() - 1) as nat, files.last())
    }
}

/// The sections of the given files.
pub open spec fn html_sections(files: Seq<StudioFile>) -> Seq<char>
    decreases files.len(),
{
    if files.len() == 0 {
        seq![]
    } else {
        html_sections(files.drop_last()) + section_of((files.len() - 1) as nat, files.last())
    }
}

/// The table of contents, where the options ask for one.
pub open spec fn toc_nav(request: ExportRequest) -> Seq<char> {
    if request.export_options.toc {
        "<nav class=\"toc\"><h1>Contents</h1><ol>"@ + toc_items(request.files@) + "</ol></nav>"@
    } else {
        Seq::empty()
    }
}

/// The HTML export of a collection.
pub open spec fn html_document(request: ExportRequest, metrics: HtmlMetrics) -> Seq<char> {
    HTML_PART_0@ + html_escaped(request.name@) + HTML_PART_1@ + request.theme.paper@ + HTML_PART_2@ + request.theme.ink@ + HTML_PART_3@ + request.theme.muted@ + HTML_PART_4@ + request.theme.accent@ + HTML_PART_5@ + request.theme.rule@ + HTML_PART_6@ + request.theme.code_bg@ + HTML_PART_7@ + metrics.font_size@ + HTML_PART_8@ + metrics.line_height@ + HTML_PART_9@ + typeface_stack(request.typeface@) + HTML_PART_10@ + metrics.measure@ + HTML_PART_11@ + metrics.paragraph_gap@ + HTML_PART_12@ + toc_nav(request) + HTML_PART_13@ + html_sections(request.files@) + HTML_PART_14@
}

fn typeface_text(typeface: &str) -> (t: &'static str)
    ensures
        t@ == typeface_stack(typeface@),
{
    if same_text(typeface, "mono") {
        "ui-monospace, SFMono-Regular, Consolas, monospace"
    } else if same_text(typeface, "sans") {
        "ui-sans-serif, system-ui, sans-serif"
    } else {
        "Iowan Old Style, Palatino Linotype, Georgia, serif"
    }
}

fn toc_item_text(index: usize, f: &StudioFile) -> (s: String)
    ensures
        s@ == toc_item(index as nat, *f),
{
    let mut s = String::new();
    s.append("<li><a href=\"#section-");
    let id = decimal(index as u64);
    s.append(id.as_str());
    s.append("\">");
    let name = escape_html(f.name.as_str());
    s.append(name.as_str());
    s.append("</a></li>");
    assert(s@ =~= toc_item(index as nat, *f));
    s
}

fn section_text(index: usize, f: &StudioFile) -> (s: String)
    requires
        index < usize::MAX,
    ensures
        s@ == section_of(index as nat, *f),
{
    let mut s = String::new();
    s.append("<section id=\"section-");
    let id = decimal(index as u64);
    s.append(id.as_str());
    s.append("\" class=\"source-file\"><div class=\"source-label\">");
    let number = padded_decimal((index + 1) as u64, 2);
    s.append(number.as_str());
    s.append(" · ");
    let name = escape_html(f.name.as_str());
    s.append(name.as_str());
    s.append("</div>");
    let html = markdown_html(f.content.as_str());
    s.append(html.as_str());
    s.append("</section>");
    assert(s@ =~= section_of(index as nat, *f));
    s
}

/// The HTML export of a collection: its title, the theme's colours, the
/// typeface and the given metrics in the page style, the table of contents
/// where asked for, and a section per file with its Markdown rendered.
pub fn build_html(request: &ExportRequest, metrics: &HtmlMetrics) -> (page: String)
    ensures
        page@ == html_document(*request, *metrics),
{
    let title = escape_html(request.name.as_str());
    let mut toc = String::new();
    let mut body = String::new();
    let mut i: usize = 0;
    assert(request.files@.take(0) =~= Seq::<StudioFile>::empty());
    while i < request.files.len()
        invariant
            i <= request.files.len(),
            toc@ == toc_items(request.files@.take(i as int)),
            body@ == html_sections(request.files@.take(i as int)),
        decreases request.files.len() - i,
    {
        let item = toc_item_text(i, &request.files[i]);
        toc.append(item.as_str());
        let section = section_text(i, &request.files[i]);
        body.append(section.as_str());
        assert(request.files@.take(i + 1).drop_last() =~= request.files@.take(i as int));
        i = i + 1;
    }
    assert(request.files@.take(request.files.len() as int) =~= request.files@);
    let mut toc_page = String::new();
    if request.export_options.toc {
        toc_page.append("<nav class=\"toc\"><h1>Contents</h1><ol>");
        toc_page.append(toc.as_str());
        toc_page.append("</ol></nav>");
    }
    assert(toc_page@ =~= toc_nav(*request));
    let typeface = typeface_text(request.typeface.as_str());
    let mut page = String::new();
    page.append(HTML_PART_0);
    page.append(title.as_str());
    page.append(HTML_PART_1);
    page.append(request.theme.paper.as_str());
    page.append(HTML_PART_2);
    page.append(request.theme.ink.as_str());
    page.append(HTML_PART_3);
    page.append(request.theme.muted.as_str());
    page.append(HTML_PART_4);
    page.append(request.theme.accent.as_str());
    page.append(HTML_PART_5);
    page.append(request.theme.rule.as_str());
    page.append(HTML_PART_6);
    page.append(request.theme.code_bg.as_str());
    page.append(HTML_PART_7);
    page.append(metrics.font_size.as_str());
    page.append(HTML_PART_8);
    page.append(metrics.line_height.as_str());
    page.append(HTML_PART_9);
    page.append(typeface);
    page.append(HTML_PART_10);
    page.append(metrics.measure.as_str());
    page.append(HTML_PART_11);
    page.append(metrics.paragraph_gap.as_str());
    page.append(HTML_PART_12);
    page.append(toc_page.as_str());
    page.append(HTML_PART_13);
    page.append(body.as_str());
    page.append(HTML_PART_14);
    assert(page@ =~= html_document(*request, *metrics));
    page
}


proof fn lemma_toc_items_prefix(files: Seq<StudioFile>, k: int)
    requires
        0 <= k <= files.len(),
    ensures
        toc_items(files.take(k)).len() <= toc_items(files).len(),
        toc_items(files).take(toc_items(files.take(k)).len() as int) == toc_items(files.take(k)),
    decreases files.len(),
{
    if k == files.len() {
        assert(files.take(k) =~= files);
        assert(toc_items(files).take(toc_items(files).len() as int) =~= toc_items(files));
    } else {
        lemma_toc_items_prefix(files.drop_last(), k);
        assert(files.drop_last().take(k) =~= files.take(k));
        let a = toc_items(files.drop_last());
        let b = toc_item((files.len() - 1) as nat, files.last());
        let n = toc_items(files.take(k)).len() as int;
        assert((a + b).take(n) =~= a.take(n));
    }
}

proof fn lemma_sections_prefix(files: Seq<StudioFile>, k: int)
    requires
        0 <= k <= files.len(),
    ensures
        html_sections(files.take(k)).len() <= html_sections(files).len(),
        html_sections(files).take(html_sections(files.take(k)).len() as int) == html_sections(files.take(k)),
    decreases files.len(),
{
    if k == files.len() {
        assert(files.take(k) =~= files);
        assert(html_sections(files).take(html_sections(files).len() as int) =~= html_sections(files));
    } else {
        lemma_sections_prefix(files.drop_last(), k);
        assert(files.drop_last().take(k) =~= files.take(k));
        let a = html_sections(files.drop_last());
        let b = section_of((files.len() - 1) as nat, files.last());
        let n = html_sections(files.take(k)).len() as int;
        assert((a + b).take(n) =~= a.take(n));
    }
}

/// Each contents link leads to its own file: entry `i` of the contents
/// links to `#section-i`, section `i` declares the id `section-i`, and
/// no two files share an id.
pub proof fn law_html_links_reach_sections(files: Seq<StudioFile>, i: int, j: int)
    requires
        0 <= i < files.len(),
        0 <= j < files.len(),
    ensures
        ({
            let id = "section-"@ + decimal_chars(i as nat);
            let link = "<li><a href=\"#"@ + id + "\""@;
            let anchor = "<section id=\""@ + id + "\""@;
            let a = toc_items(files.take(i)).len();
            let b = html_sections(files.take(i)).len();
            &&& a + link.len() <= toc_items(files).len()
            &&& toc_items(files).subrange(a as int, (a + link.len()) as int) == link
            &&& b + anchor.len() <= html_sections(files).len()
            &&& html_sections(files).subrange(b as int, (b + anchor.len()) as int) == anchor
        }),
        i != j ==> "section-"@ + decimal_chars(i as nat) != "section-"@ + decimal_chars(j as nat),
{
    reveal_strlit("<li><a href=\"#section-");
    reveal_strlit("<li><a href=\"#");
    reveal_strlit("section-");
    reveal_strlit("\"");
    reveal_strlit("\">");
    reveal_strlit("<section id=\"section-");
    reveal_strlit("<section id=\"");
    reveal_strlit("\" class=\"source-file\"><div class=\"source-label\">");
    let d = decimal_chars(i as nat);
    let id = "section-"@ + d;
    let link = "<li><a href=\"#"@ + id + "\""@;
    let anchor = "<section id=\""@ + id + "\""@;
    let f = files[i];
    assert(files.take(i + 1).drop_last() =~= files.take(i));
    assert(files.take(i + 1).last() == f);
    lemma_toc_items_prefix(files, i + 1);
    lemma_sections_prefix(files, i + 1);
    let item = toc_item(i as nat, f);
    let sec = section_of(i as nat, f);
    assert(item.take(link.len() as int) =~= link);
    assert(sec.take(anchor.len() as int) =~= anchor);
    let a = toc_items(files.take(i));
    let b = html_sections(files.take(i));
    assert(toc_items(files.take(i + 1)) =~= a + item);
    assert(html_sections(files.take(i + 1)) =~= b + sec);
    assert(toc_items(files).subrange(a.len() as int, (a.len() + link.len()) as int) =~= (a + item).subrange(
        a.len() as int,
        (a.len() + link.len()) as int,
    ));
    assert(html_sections(files).subrange(b.len() as int, (b.len() + anchor.len()) as int) =~= (b + sec).subrange(
        b.len() as int,
        (b.len() + anchor.len()) as int,
    ));
    if i != j && "section-"@ + decimal_chars(i as nat) == "section-"@ + decimal_chars(j as nat) {
        let p = "section-"@;
        assert(decimal_chars(i as nat) =~= (p + decimal_chars(i as nat)).skip(p.len() as int));
        assert(decimal_chars(j as nat) =~= (p + decimal_chars(j as nat)).skip(p.len() as int));
        lemma_decimal_digits(i as nat);
        lemma_decimal_digits(j as nat);
    }
}

} // verus!
