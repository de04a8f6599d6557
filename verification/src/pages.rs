//! The page layout of the PDF export: a contents page, then each file's
//! title and wrapped text cut into pages of a fixed number of lines.

use vstd::prelude::*;

use crate::layout::{wrap_text, wrapped};
use crate::markdown::{heading_state, headings, markdown_text, parsed_events, text_lines_of, ALL_OPTIONS};
use crate::model::{ExportRequest, StudioFile};
use crate::text::{decimal_chars, padded_decimal, replace_all, replaced, decimal, views, zero_padded};

verus! {

/// What `str::to_uppercase` gives for a text (Unicode's full upper-case
/// mapping, which std implements).
pub uninterp spec fn uppercased(s: Seq<char>) -> Seq<char>;

/// `str::to_uppercase`. The contract claims only that the result is a
/// function of the text: the case mapping itself is std's.
#[verifier::external_body]
fn to_upper(s: &str) -> (r: String)
    ensures
        r@ == uppercased(s@),
{
    s.to_uppercase()
}

/// The sequences of `ss` one after the other.
pub open spec fn concat_all<A>(ss: Seq<Seq<A>>) -> Seq<A>
    decreases ss.len(),
{
    if ss.len() == 0 {
        seq![]
    } else {
        concat_all(ss.drop_last()) + ss.last()
    }
}

/// The first `n` items of `s`, or all of them where it has fewer.
pub open spec fn first_n<A>(s: Seq<A>, n: nat) -> Seq<A> {
    if s.len() <= n {
        s
    } else {
        s.take(n as int)
    }
}

/// `s` cut into consecutive pieces of `n` items, the last possibly shorter
/// (`slice::chunks`).
pub open spec fn chunks<A>(s: Seq<A>, n: nat) -> Seq<Seq<A>>
    decreases s.len(),
{
    if s.len() == 0 || n == 0 {
        seq![]
    } else if s.len() <= n {
        seq![s]
    } else {
        seq![s.take(n as int)] + chunks(s.skip(n as int), n)
    }
}

/// A template with `{title}`, `{page}` and `{date}` filled in, in that
/// order.
pub open spec fn token_text_of(template: Seq<char>, title: Seq<char>, page: nat, date: Seq<char>) -> Seq<char> {
    replaced(
        replaced(replaced(template, "{title}"@, title), "{page}"@, decimal_chars(page)),
        "{date}"@,
        date,
    )
}

/// Fills a header or footer template: `{title}` becomes the collection's
/// title, `{page}` the page number and `{date}` the given date.
pub fn token_text(template: &str, title: &str, page: usize, date: &str) -> (r: String)
    ensures
        r@ == token_text_of(template@, title@, page as nat, date@),
{
    proof {
        reveal_strlit("{title}");
        reveal_strlit("{page}");
        reveal_strlit("{date}");
    }
    let with_title = replace_all(template, "{title}", title);
    let page_text = decimal(page as u64);
    let with_page = replace_all(with_title.as_str(), "{page}", page_text.as_str());
    replace_all(with_page.as_str(), "{date}", date)
}

/// The headings of a file as the parser gives them.
pub open spec fn file_headings(f: StudioFile) -> Seq<Seq<char>> {
    heading_state(parsed_events(f.content@, ALL_OPTIONS)).found
}

/// A file's lines on the contents page: its number (two digits at least)
/// and name, then its first five headings, indented.
pub open spec fn toc_entry(index: nat, f: StudioFile) -> Seq<Seq<char>> {
    seq![zero_padded(decimal_chars(index + 1), 2) + "   "@ + f.name@] + first_n(file_headings(f), 5).map_values(
        |h: Seq<char>| "      "@ + h,
    )
}

/// The entries of the contents page for the given files.
pub open spec fn toc_lines(files: Seq<StudioFile>) -> Seq<Seq<char>>
    decreases files.len(),
{
    if files.len() == 0 {
        seq![]
    } else {
        toc_lines(files.drop_last()) + toc_entry((files.len() - 1) as nat, files.last())
    }
}

/// The contents page.
pub open spec fn toc_page(files: Seq<StudioFile>) -> Seq<Seq<char>> {
    seq!["CONTENTS"@, Seq::empty()] + toc_lines(files)
}

/// A file's lines: its name in upper case, an empty line, then its plain
/// text with every line wrapped to `width`.
pub open spec fn body_lines(f: StudioFile, width: nat) -> Seq<Seq<char>> {
    seq![uppercased(f.name@), Seq::empty()] + concat_all(
        text_lines_of(parsed_events(f.content@, ALL_OPTIONS)).map_values(|l: Seq<char>| wrapped(l, width)),
    )
}

/// The pages of the given files, each file starting a new page.
pub open spec fn file_pages(files: Seq<StudioFile>, width: nat, per_page: nat) -> Seq<Seq<Seq<char>>>
    decreases files.len(),
{
    if files.len() == 0 {
        seq![]
    } else {
        file_pages(files.drop_last(), width, per_page) + chunks(body_lines(files.last(), width), per_page)
    }
}

/// The pages of a PDF export, each a sequence of lines: the contents page
/// where asked for, then the files' pages; a collection without pages
/// gets one page holding its title.
pub open spec fn pdf_pages_of(request: ExportRequest, width: nat, per_page: nat) -> Seq<Seq<Seq<char>>> {
    let p = (if request.export_options.toc {
        seq![toc_page(request.files@)]
    } else {
        seq![]
    }) + file_pages(request.files@, width, per_page);
    if p.len() == 0 {
        seq![seq![request.name@]]
    } else {
        p
    }
}

/// The lines of each page.
pub open spec fn page_views(p: Seq<Vec<String>>) -> Seq<Seq<Seq<char>>> {
    p.map_values(|v: Vec<String>| views(v@))
}

/// Appends the strings of `src` to `dst`.
fn push_all(dst: &mut Vec<String>, src: &Vec<String>)
    ensures
        views(final(dst)@) == views(old(dst)@) + views(src@),
{
    let ghost start = views(dst@);
    let mut k: usize = 0;
    while k < src.len()
        invariant
            k <= src.len(),
            views(dst@) == start + views(src@).take(k as int),
        decreases src.len() - k,
    {
        let ghost prev = dst@;
        dst.push(src[k].clone());
        assert(views(dst@) =~= views(prev).push(src@[k as int]@));
        assert(views(src@).take(k + 1) =~= views(src@).take(k as int).push(src@[k as int]@));
        k = k + 1;
    }
    assert(views(src@).take(src.len() as int) =~= views(src@));
}

/// The contents-page entries of one file.
fn toc_entry_lines(index: usize, f: &StudioFile) -> (lines: Vec<String>)
    requires
        index < usize::MAX,
    ensures
        views(lines@) == toc_entry(index as nat, *f),
{
    let mut lines: Vec<String> = Vec::new();
    let mut first = padded_decimal((index + 1) as u64, 2);
    first.append("   ");
    first.append(f.name.as_str());
    lines.push(first);
    let hs = headings(f.content.as_str());
    let ghost hv = views(hs@);
    let count = if hs.len() <= 5 { hs.len() } else { 5 };
    assert(first_n(hv, 5) =~= hv.take(count as int));
    let mut k: usize = 0;
    while k < count
        invariant
            count <= hs.len(),
            hv == views(hs@),
            k <= count,
            views(lines@) == seq![zero_padded(decimal_chars((index + 1) as nat), 2) + "   "@ + f.name@] + hv.take(
                k as int,
            ).map_values(|h: Seq<char>| "      "@ + h),
        decreases count - k,
    {
        let mut line = String::new();
        line.append("      ");
        line.append(hs[k].as_str());
        let ghost prev = lines@;
        lines.push(line);
        assert(views(lines@) =~= views(prev).push(line@));
        assert(hv.take(k + 1).map_values(|h: Seq<char>| "      "@ + h) =~= hv.take(k as int).map_values(
            |h: Seq<char>| "      "@ + h,
        ).push("      "@ + hv[k as int]));
        k = k + 1;
    }
    lines
}

/// The lines of the contents page.
pub fn toc_page_lines(files: &Vec<StudioFile>) -> (lines: Vec<String>)
    ensures
        views(lines@) == toc_page(files@),
{
    let mut lines: Vec<String> = Vec::new();
    lines.push(String::from_str("CONTENTS"));
    lines.push(String::new());
    assert(views(lines@) =~= seq!["CONTENTS"@, Seq::<char>::empty()]);
    let mut i: usize = 0;
    assert(files@.take(0) =~= Seq::<StudioFile>::empty());
    while i < files.len()
        invariant
            i <= files.len(),
            views(lines@) == seq!["CONTENTS"@, Seq::<char>::empty()] + toc_lines(files@.take(i as int)),
        decreases files.len() - i,
    {
        let entry = toc_entry_lines(i, &files[i]);
        push_all(&mut lines, &entry);
        assert(files@.take(i + 1).drop_last() =~= files@.take(i as int));
        i = i + 1;
    }
    assert(files@.take(files.len() as int) =~= files@);
    lines
}

/// The lines of one file: its name in upper case, an empty line, and its
/// plain text wrapped to `width`.
pub fn file_body_lines(f: &StudioFile, width: usize) -> (lines: Vec<String>)
    ensures
        views(lines@) == body_lines(*f, width as nat),
{
    let mut lines: Vec<String> = Vec::new();
    lines.push(to_upper(f.name.as_str()));
    lines.push(String::new());
    let ghost head = views(lines@);
    assert(head =~= seq![uppercased(f.name@), Seq::<char>::empty()]);
    let text = markdown_text(f.content.as_str());
    let ghost tv = views(text@);
    let ghost wrapped_lines = tv.map_values(|l: Seq<char>| wrapped(l, width as nat));
    let mut k: usize = 0;
    assert(wrapped_lines.take(0) =~= Seq::<Seq<Seq<char>>>::empty());
    while k < text.len()
        invariant
            k <= text.len(),
            tv == views(text@),
            wrapped_lines == tv.map_values(|l: Seq<char>| wrapped(l, width as nat)),
            views(lines@) == head + concat_all(wrapped_lines.take(k as int)),
        decreases text.len() - k,
    {
        let w = wrap_text(text[k].as_str(), width);
        push_all(&mut lines, &w);
        assert(wrapped_lines.take(k + 1).drop_last() =~= wrapped_lines.take(k as int));
        k = k + 1;
    }
    assert(wrapped_lines.take(text.len() as int) =~= wrapped_lines);
    lines
}

/// Cuts `lines` into pages of `per_page` lines and appends them to `pages`.
fn push_chunks(pages: &mut Vec<Vec<String>>, lines: &Vec<String>, per_page: usize)
    requires
        per_page > 0,
    ensures
        page_views(final(pages)@) == page_views(old(pages)@) + chunks(views(lines@), per_page as nat),
{
    let ghost start_pages = page_views(pages@);
    let ghost lv = views(lines@);
    let n = lines.len();
    let mut start: usize = 0;
    assert(lv.skip(0) =~= lv);
    assert(start_pages + Seq::<Seq<Seq<char>>>::empty() =~= start_pages);
    while start < n
        invariant
            per_page > 0,
            n == lines.len(),
            lv == views(lines@),
            start <= n,
            start_pages + chunks(lv, per_page as nat) == page_views(pages@) + chunks(lv.skip(start as int), per_page as nat),
        decreases n - start,
    {
        let end = if n - start <= per_page { n } else { start + per_page };
        let mut piece: Vec<String> = Vec::new();
        let mut k = start;
        while k < end
            invariant
                start <= k <= end <= n,
                n == lines.len(),
                lv == views(lines@),
                views(piece@) == lv.subrange(start as int, k as int),
            decreases end - k,
        {
            let ghost prev = piece@;
            piece.push(lines[k].clone());
            assert(views(piece@) =~= views(prev).push(lines@[k as int]@));
            assert(lv.subrange(start as int, k + 1) =~= lv.subrange(start as int, k as int).push(lv[k as int]));
            k = k + 1;
        }
        let ghost rest = lv.skip(start as int);
        let ghost prev_pages = pages@;
        pages.push(piece);
        assert(page_views(pages@) =~= page_views(prev_pages).push(lv.subrange(start as int, end as int)));
        if end == n {
            assert(rest =~= lv.subrange(start as int, end as int));
            assert(lv.skip(end as int) =~= Seq::<Seq<char>>::empty());
        } else {
            assert(rest.take(per_page as int) =~= lv.subrange(start as int, end as int));
            assert(rest.skip(per_page as int) =~= lv.skip(end as int));
        }
        assert(seq![lv.subrange(start as int, end as int)] + chunks(lv.skip(end as int), per_page as nat)
            =~= chunks(rest, per_page as nat));
        assert(page_views(prev_pages) + chunks(rest, per_page as nat) =~= page_views(pages@) + chunks(
            lv.skip(end as int),
            per_page as nat,
        ));
        start = end;
    }
    assert(lv.skip(n as int) =~= Seq::<Seq<char>>::empty());
    assert(page_views(pages@) + Seq::<Seq<Seq<char>>>::empty() =~= page_views(pages@));
}

/// The pages of a PDF export: the contents page where the options ask for
/// it, then each file's lines wrapped to `chars_per_line` and cut into
/// pages of `lines_per_page`; one page with the title where there would be
/// none.
pub fn pdf_pages(request: &ExportRequest, chars_per_line: usize, lines_per_page: usize) -> (pages: Vec<Vec<String>>)
    requires
        request.files@.len() == 0 || lines_per_page > 0,
    ensures
        page_views(pages@) == pdf_pages_of(*request, chars_per_line as nat, lines_per_page as nat),
{
    let mut pages: Vec<Vec<String>> = Vec::new();
    let ghost toc_part: Seq<Seq<Seq<char>>> = if request.export_options.toc {
        seq![toc_page(request.files@)]
    } else {
        seq![]
    };
    if request.export_options.toc {
        let toc = toc_page_lines(&request.files);
        pages.push(toc);
    }
    assert(page_views(pages@) =~= toc_part);
    let mut i: usize = 0;
    assert(request.files@.take(0) =~= Seq::<StudioFile>::empty());
    assert(toc_part + Seq::<Seq<Seq<char>>>::empty() =~= toc_part);
    while i < request.files.len()
        invariant
            i <= request.files.len(),
            request.files@.len() == 0 || lines_per_page > 0,
            page_views(pages@) == toc_part + file_pages(
                request.files@.take(i as int),
                chars_per_line as nat,
                lines_per_page as nat,
            ),
        decreases request.files.len() - i,
    {
        let body = file_body_lines(&request.files[i], chars_per_line);
        push_chunks(&mut pages, &body, lines_per_page);
        assert(request.files@.take(i + 1).drop_last() =~= request.files@.take(i as int));
        i = i + 1;
    }
    assert(request.files@.take(request.files.len() as int) =~= request.files@);
    if pages.len() == 0 {
        let mut only: Vec<String> = Vec::new();
        only.push(request.name.clone());
        assert(views(only@) =~= seq![request.name@]);
        let ghost prev = pages@;
        assert(prev =~= Seq::<Vec<String>>::empty());
        pages.push(only);
        assert(pages@ =~= seq![only]);
        assert(page_views(pages@) =~= seq![seq![request.name@]]);
    }
    pages
}


/// Cutting into pages loses and reorders nothing, and every page holds
/// between one and `n` lines.
pub proof fn law_chunks_keep_lines<A>(s: Seq<A>, n: nat)
    requires
        n > 0,
    ensures
        concat_all(chunks(s, n)) == s,
        forall|i: int| 0 <= i < chunks(s, n).len() ==> 0 < #[trigger] chunks(s, n)[i].len() <= n,
    decreases s.len(),
{
    if s.len() == 0 {
        assert(concat_all(chunks(s, n)) =~= s);
    } else if s.len() <= n {
        assert(seq![s].drop_last() =~= Seq::<Seq<A>>::empty());
        assert(concat_all(Seq::<Seq<A>>::empty()) =~= Seq::<A>::empty());
        assert(seq![s].last() == s);
        assert(concat_all(seq![s]) =~= s);
    } else {
        let rest = chunks(s.skip(n as int), n);
        law_chunks_keep_lines(s.skip(n as int), n);
        lemma_concat_all_prepend(s.take(n as int), rest);
        assert(s.take(n as int) + s.skip(n as int) =~= s);
        assert forall|i: int| 0 <= i < chunks(s, n).len() implies 0 < #[trigger] chunks(s, n)[i].len() <= n by {
            if i > 0 {
                assert(chunks(s, n)[i] == rest[i - 1]);
            }
        }
    }
}

/// `concat_all` of a sequence with a first item.
pub proof fn lemma_concat_all_prepend<A>(x: Seq<A>, ss: Seq<Seq<A>>)
    ensures
        concat_all(seq![x] + ss) == x + concat_all(ss),
    decreases ss.len(),
{
    if ss.len() == 0 {
        assert(seq![x] + ss =~= seq![x]);
        assert(seq![x].drop_last() =~= Seq::<Seq<A>>::empty());
        assert(concat_all(Seq::<Seq<A>>::empty()) =~= Seq::<A>::empty());
        assert(seq![x].last() == x);
        assert(concat_all(seq![x]) =~= x);
        assert(x + Seq::<A>::empty() =~= x);
    } else {
        lemma_concat_all_prepend(x, ss.drop_last());
        assert((seq![x] + ss).drop_last() =~= seq![x] + ss.drop_last());
        assert((seq![x] + ss).last() == ss.last());
        assert(x + concat_all(ss.drop_last()) + ss.last() =~= x + (concat_all(ss.drop_last()) + ss.last()));
    }
}

/// Every page of the files' text holds between one and `per_page` lines
/// (only the contents page is not cut to the page length).
pub proof fn law_file_pages_fit(files: Seq<StudioFile>, width: nat, per_page: nat)
    requires
        per_page > 0,
    ensures
        forall|i: int| 0 <= i < file_pages(files, width, per_page).len() ==> 0 < #[trigger] file_pages(
            files,
            width,
            per_page,
        )[i].len() <= per_page,
    decreases files.len(),
{
    if files.len() > 0 {
        law_file_pages_fit(files.drop_last(), width, per_page);
        let a = file_pages(files.drop_last(), width, per_page);
        let b = chunks(body_lines(files.last(), width), per_page);
        law_chunks_keep_lines(body_lines(files.last(), width), per_page);
        assert forall|i: int| 0 <= i < (a + b).len() implies 0 < #[trigger] (a + b)[i].len() <= per_page by {
            if i < a.len() {
                assert((a + b)[i] == a[i]);
            } else {
                assert((a + b)[i] == b[i - a.len()]);
            }
        }
    }
}

/// A template without `{` is left as it is.
pub proof fn law_token_text_plain(template: Seq<char>, title: Seq<char>, page: nat, date: Seq<char>)
    requires
        forall|i: int| 0 <= i < template.len() ==> template[i] != '{',
    ensures
        token_text_of(template, title, page, date) == template,
{
    reveal_strlit("{title}");
    reveal_strlit("{page}");
    reveal_strlit("{date}");
    lemma_replaced_absent(template, "{title}"@, title);
    lemma_replaced_absent(template, "{page}"@, decimal_chars(page));
    lemma_replaced_absent(template, "{date}"@, date);
}

/// Replacing a pattern whose first character does not occur changes nothing.
pub proof fn lemma_replaced_absent(s: Seq<char>, pat: Seq<char>, rep: Seq<char>)
    requires
        pat.len() > 0,
        forall|i: int| 0 <= i < s.len() ==> s[i] != pat[0],
    ensures
        replaced(s, pat, rep) == s,
    decreases s.len(),
{
    if s.len() > 0 {
        if pat.len() <= s.len() && s.take(pat.len() as int) == pat {
            assert(s.take(pat.len() as int)[0] == s[0]);
        }
        assert forall|i: int| 0 <= i < s.skip(1).len() implies s.skip(1)[i] != pat[0] by {
            assert(s.skip(1)[i] == s[i + 1]);
        }
        lemma_replaced_absent(s.skip(1), pat, rep);
        assert(seq![s[0]] + s.skip(1) =~= s);
    }
}

} // verus!
