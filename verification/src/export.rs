//! Choosing an export format, and the combined Markdown export.

use vstd::prelude::*;

use crate::model::StudioFile;
use crate::text::{chars_of, same_text, string_from_chars};

verus! {

/// The formats a collection can be exported to.
#[derive(PartialEq, Eq, Debug)]
pub enum ExportFormat {
    Html,
    Markdown,
    Docx,
    Pdf,
}

/// The format named `format`, or the error that names an unknown one.
pub open spec fn export_format_of(format: Seq<char>) -> Result<ExportFormat, Seq<char>> {
    if format == "html"@ {
        Ok(ExportFormat::Html)
    } else if format == "md"@ {
        Ok(ExportFormat::Markdown)
    } else if format == "docx"@ {
        Ok(ExportFormat::Docx)
    } else if format == "pdf"@ {
        Ok(ExportFormat::Pdf)
    } else {
        Err("Unsupported export format: "@ + format)
    }
}

/// The export format named `html`, `md`, `docx` or `pdf`; any other name
/// is refused with `Unsupported export format: ` and the name.
pub fn export_format(format: &str) -> (r: Result<ExportFormat, String>)
    ensures
        match r {
            Ok(f) => export_format_of(format@) == Ok::<ExportFormat, Seq<char>>(f),
            Err(e) => export_format_of(format@) == Err::<ExportFormat, Seq<char>>(e@),
        },
{
    if same_text(format, "html") {
        Ok(ExportFormat::Html)
    } else if same_text(format, "md") {
        Ok(ExportFormat::Markdown)
    } else if same_text(format, "docx") {
        Ok(ExportFormat::Docx)
    } else if same_text(format, "pdf") {
        Ok(ExportFormat::Pdf)
    } else {
        let mut e = String::from_str("Unsupported export format: ");
        e.append(format);
        Err(e)
    }
}

/// A text without the `'\r'` and `'\n'` that end it.
pub open spec fn trim_line_ends(s: Seq<char>) -> Seq<char>
    decreases s.len(),
{
    if s.len() > 0 && (s.last() == '\r' || s.last() == '\n') {
        trim_line_ends(s.drop_last())
    } else {
        s
    }
}

/// The trimmed contents of the files, separated by blank lines.
pub open spec fn joined_contents(files: Seq<StudioFile>) -> Seq<char>
    decreases files.len(),
{
    if files.len() == 0 {
        seq![]
    } else if files.len() == 1 {
        trim_line_ends(files[0].content@)
    } else {
        joined_contents(files.drop_last()) + "\n\n"@ + trim_line_ends(files.last().content@)
    }
}

/// The combined Markdown of the files: each file's text without its final
/// line ends, separated by one blank line, and one final newline.
pub open spec fn combined_markdown(files: Seq<StudioFile>) -> Seq<char> {
    joined_contents(files) + "\n"@
}

proof fn lemma_trim_line_ends(s: Seq<char>, k: int)
    requires
        0 <= k <= s.len(),
        forall|j: int| k <= j < s.len() ==> s[j] == '\r' || s[j] == '\n',
        k == 0 || (s[k - 1] != '\r' && s[k - 1] != '\n'),
    ensures
        trim_line_ends(s) == s.take(k),
    decreases s.len(),
{
    if s.len() > k {
        lemma_trim_line_ends(s.drop_last(), k);
        assert(s.drop_last().take(k) =~= s.take(k));
    } else {
        assert(s.take(k) =~= s);
    }
}

fn trimmed_content(s: &str) -> (r: String)
    ensures
        r@ == trim_line_ends(s@),
{
    let cs = chars_of(s);
    let mut k = cs.len();
    while k > 0 && (cs[k - 1] == '\r' || cs[k - 1] == '\n')
        invariant
            cs@ == s@,
            k <= cs.len(),
            forall|j: int| k <= j < cs.len() ==> cs@[j] == '\r' || cs@[j] == '\n',
        decreases k,
    {
        k = k - 1;
    }
    proof {
        lemma_trim_line_ends(s@, k as int);
    }
    let r = string_from_chars(&cs, 0, k);
    assert(r@ =~= s@.take(k as int));
    r
}

/// The files' Markdown combined into one document, in order.
pub fn build_markdown(files: &Vec<StudioFile>) -> (output: String)
    ensures
        output@ == combined_markdown(files@),
{
    let mut output = String::new();
    let mut i: usize = 0;
    assert(files@.take(0) =~= Seq::<StudioFile>::empty());
    while i < files.len()
        invariant
            i <= files.len(),
            output@ == joined_contents(files@.take(i as int)),
        decreases files.len() - i,
    {
        if i > 0 {
            output.append("\n\n");
        }
        let t = trimmed_content(files[i].content.as_str());
        output.append(t.as_str());
        assert(files@.take(i + 1).drop_last() =~= files@.take(i as int));
        if i == 0 {
            assert(output@ =~= joined_contents(files@.take(1)));
        }
        i = i + 1;
    }
    assert(files@.take(files.len() as int) =~= files@);
    output.append("\n");
    assert(output@ =~= combined_markdown(files@));
    output
}


/// Whether `s` is empty or ends in a character other than `'\r'` and `'\n'`.
pub open spec fn ends_clean(s: Seq<char>) -> bool {
    s.len() == 0 || (s.last() != '\r' && s.last() != '\n')
}

proof fn lemma_trim_ends_clean(s: Seq<char>)
    ensures
        ends_clean(trim_line_ends(s)),
        trim_line_ends(s).len() <= s.len(),
        (exists|j: int| 0 <= j < s.len() && s[j] != '\r' && s[j] != '\n') ==> trim_line_ends(s).len() > 0,
    decreases s.len(),
{
    if s.len() > 0 {
        lemma_trim_ends_clean(s.drop_last());
        if exists|j: int| 0 <= j < s.len() && s[j] != '\r' && s[j] != '\n' {
            let j = choose|j: int| 0 <= j < s.len() && s[j] != '\r' && s[j] != '\n';
            if j < s.len() - 1 {
                assert(s.drop_last()[j] == s[j]);
            }
        }
    }
}

proof fn lemma_trim_clean_newline(t: Seq<char>)
    requires
        ends_clean(t),
    ensures
        trim_line_ends(t + "\n"@) == t,
        trim_line_ends(t) == t,
{
    reveal_strlit("\n");
    let u = t + "\n"@;
    lemma_trim_line_ends(u, t.len() as int);
    assert(u.take(t.len() as int) =~= t);
    lemma_trim_line_ends(t, t.len() as int);
    assert(t.take(t.len() as int) =~= t);
}

proof fn lemma_joined_ends_clean(files: Seq<StudioFile>)
    requires
        files.len() <= 1 || trim_line_ends(files.last().content@).len() > 0,
    ensures
        ends_clean(joined_contents(files)),
{
    if files.len() == 1 {
        lemma_trim_ends_clean(files[0].content@);
    } else if files.len() > 1 {
        let l = trim_line_ends(files.last().content@);
        lemma_trim_ends_clean(files.last().content@);
        let j = joined_contents(files);
        assert(j == joined_contents(files.drop_last()) + "\n\n"@ + l);
        assert(j.last() == l.last());
    }
}

/// Combining a document that is itself a combination changes nothing,
/// unless the last file's text was all line ends (whose blank line the
/// second combination trims away).
pub proof fn law_combined_is_stable(files: Seq<StudioFile>, f: StudioFile)
    requires
        f.content@ == combined_markdown(files),
        files.len() <= 1 || exists|j: int|
            0 <= j < files.last().content@.len() && files.last().content@[j] != '\r'
                && #[trigger] files.last().content@[j] != '\n',
    ensures
        combined_markdown(seq![f]) == combined_markdown(files),
{
    if files.len() > 1 {
        lemma_trim_ends_clean(files.last().content@);
    }
    lemma_joined_ends_clean(files);
    lemma_trim_clean_newline(joined_contents(files));
    assert(seq![f][0] == f);
}

/// Combining two non-empty lists of files one after the other gives the
/// first list's text, a blank line, and the second list's combined text:
/// the files keep their order.
pub proof fn law_combined_in_order(a: Seq<StudioFile>, b: Seq<StudioFile>)
    requires
        a.len() > 0,
        b.len() > 0,
    ensures
        combined_markdown(a + b) == joined_contents(a) + "\n\n"@ + combined_markdown(b),
    decreases b.len(),
{
    lemma_joined_concat(a, b);
    assert(joined_contents(a) + "\n\n"@ + joined_contents(b) + "\n"@ =~= joined_contents(a) + "\n\n"@ + (
    joined_contents(b) + "\n"@));
}

proof fn lemma_joined_concat(a: Seq<StudioFile>, b: Seq<StudioFile>)
    requires
        a.len() > 0,
        b.len() > 0,
    ensures
        joined_contents(a + b) == joined_contents(a) + "\n\n"@ + joined_contents(b),
    decreases b.len(),
{
    if b.len() == 1 {
        assert((a + b).drop_last() =~= a);
        assert((a + b).last() == b[0]);
    } else {
        lemma_joined_concat(a, b.drop_last());
        assert((a + b).drop_last() =~= a + b.drop_last());
        assert((a + b).last() == b.last());
        assert(joined_contents(a) + "\n\n"@ + joined_contents(b.drop_last()) + "\n\n"@ + trim_line_ends(
            b.last().content@,
        ) =~= joined_contents(a) + "\n\n"@ + (joined_contents(b.drop_last()) + "\n\n"@ + trim_line_ends(
            b.last().content@,
        )));
    }
}

} // verus!
