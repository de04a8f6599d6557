//! The escaping rules of the HTML, XML and PDF outputs.

use vstd::prelude::*;

use crate::text::{
    chars_of, lemma_map_chars_agree, lemma_map_chars_concat, lemma_map_chars_compose, lemma_map_chars_identity,
    lemma_map_chars_all, lemma_map_chars_single, lemma_replace_char, map_chars, replaced, swap_char,
};

verus! {

/// How HTML text writes one character: `&`, `<`, `>` and `"` become
/// entities, every other character stands for itself.
pub open spec fn html_char(c: char) -> Seq<char> {
    if c == '&' {
        "&amp;"@
    } else if c == '<' {
        "&lt;"@
    } else if c == '>' {
        "&gt;"@
    } else if c == '"' {
        "&quot;"@
    } else {
        seq![c]
    }
}

/// How XML text writes one character: as HTML does, and `'` as `&apos;`.
pub open spec fn xml_char(c: char) -> Seq<char> {
    if c == '\'' {
        "&apos;"@
    } else {
        html_char(c)
    }
}

/// How a PDF string literal writes one character: parentheses and the
/// backslash are escaped, a tab becomes four spaces, other ASCII stands for
/// itself and anything else becomes `?`.
pub open spec fn pdf_char(c: char) -> Seq<char> {
    if c == '(' {
        "\\("@
    } else if c == ')' {
        "\\)"@
    } else if c == '\\' {
        "\\\\"@
    } else if c == '\t' {
        "    "@
    } else if (c as u32) < 128 {
        seq![c]
    } else {
        "?"@
    }
}

/// `s` escaped for HTML text.
pub open spec fn html_escaped(s: Seq<char>) -> Seq<char> {
    map_chars(s, |c: char| html_char(c))
}

/// `s` escaped for XML text.
pub open spec fn xml_escaped(s: Seq<char>) -> Seq<char> {
    map_chars(s, |c: char| xml_char(c))
}

/// `s` escaped for a PDF string literal.
pub open spec fn pdf_escaped(s: Seq<char>) -> Seq<char> {
    map_chars(s, |c: char| pdf_char(c))
}

/// Escapes `&`, `<`, `>` and `"` for HTML.
pub fn escape_html(value: &str) -> (r: String)
    ensures
        r@ == html_escaped(value@),
{
    let cs = chars_of(value);
    let mut out = String::new();
    let mut i: usize = 0;
    assert(value@.take(0) =~= Seq::<char>::empty());
    while i < cs.len()
        invariant
            cs@ == value@,
            i <= cs.len(),
            out@ == html_escaped(value@.take(i as int)),
        decreases cs.len() - i,
    {
        let c = cs[i];
        let ghost before = out@;
        assert(value@.take(i + 1).drop_last() =~= value@.take(i as int));
        if c == '&' {
            out.append("&amp;");
        } else if c == '<' {
            out.append("&lt;");
        } else if c == '>' {
            out.append("&gt;");
        } else if c == '"' {
            out.append("&quot;");
        } else {
            out.push(c);
            assert(out@ =~= before + seq![c]);
        }
        i = i + 1;
    }
    assert(value@.take(cs.len() as int) =~= value@);
    out
}

/// Escapes text for XML: as for HTML, and `'` as `&apos;`.
pub fn escape_xml(value: &str) -> (r: String)
    ensures
        r@ == xml_escaped(value@),
{
    let cs = chars_of(value);
    let mut out = String::new();
    let mut i: usize = 0;
    assert(value@.take(0) =~= Seq::<char>::empty());
    while i < cs.len()
        invariant
            cs@ == value@,
            i <= cs.len(),
            out@ == xml_escaped(value@.take(i as int)),
        decreases cs.len() - i,
    {
        let c = cs[i];
        let ghost before = out@;
        assert(value@.take(i + 1).drop_last() =~= value@.take(i as int));
        if c == '\'' {
            out.append("&apos;");
        } else if c == '&' {
            out.append("&amp;");
        } else if c == '<' {
            out.append("&lt;");
        } else if c == '>' {
            out.append("&gt;");
        } else if c == '"' {
            out.append("&quot;");
        } else {
            out.push(c);
            assert(out@ =~= before + seq![c]);
        }
        i = i + 1;
    }
    assert(value@.take(cs.len() as int) =~= value@);
    out
}

/// Escapes text for a PDF string literal.
pub fn pdf_escape(value: &str) -> (r: String)
    ensures
        r@ == pdf_escaped(value@),
{
    let cs = chars_of(value);
    let mut out = String::new();
    let mut i: usize = 0;
    assert(value@.take(0) =~= Seq::<char>::empty());
    while i < cs.len()
        invariant
            cs@ == value@,
            i <= cs.len(),
            out@ == pdf_escaped(value@.take(i as int)),
        decreases cs.len() - i,
    {
        let c = cs[i];
        let ghost before = out@;
        assert(value@.take(i + 1).drop_last() =~= value@.take(i as int));
        if c == '(' {
            out.append("\\(");
        } else if c == ')' {
            out.append("\\)");
        } else if c == '\\' {
            out.append("\\\\");
        } else if c == '\t' {
            out.append("    ");
        } else if (c as u32) < 128 {
            out.push(c);
            assert(out@ =~= before + seq![c]);
        } else {
            out.append("?");
        }
        i = i + 1;
    }
    assert(value@.take(cs.len() as int) =~= value@);
    out
}


proof fn lemma_swap_absent(t: Seq<char>, c: char, r: Seq<char>)
    requires
        forall|i: int| 0 <= i < t.len() ==> t[i] != c,
    ensures
        map_chars(t, swap_char(c, r)) == t,
{
    assert forall|i: int| 0 <= i < t.len() implies (swap_char(c, r))(#[trigger] t[i]) == seq![t[i]] by {
    }
    lemma_map_chars_identity(t, swap_char(c, r));
}

/// HTML escaping is the chain of replacements `&`, then `<`, then `>`,
/// then `"`: replacing `&` first keeps the later entities from being
/// escaped again.
pub proof fn law_html_escape_is_replace_chain(s: Seq<char>)
    ensures
        html_escaped(s) == replaced(
            replaced(replaced(replaced(s, "&"@, "&amp;"@), "<"@, "&lt;"@), ">"@, "&gt;"@),
            "\""@,
            "&quot;"@,
        ),
{
    reveal_strlit("&");
    reveal_strlit("<");
    reveal_strlit(">");
    reveal_strlit("\"");
    reveal_strlit("&amp;");
    reveal_strlit("&lt;");
    reveal_strlit("&gt;");
    reveal_strlit("&quot;");
    let f1 = swap_char('&', "&amp;"@);
    let f2 = swap_char('<', "&lt;"@);
    let f3 = swap_char('>', "&gt;"@);
    let f4 = swap_char('"', "&quot;"@);
    assert("&"@ =~= seq!['&']);
    assert("<"@ =~= seq!['<']);
    assert(">"@ =~= seq!['>']);
    assert("\""@ =~= seq!['"']);
    lemma_replace_char(s, '&', "&amp;"@);
    let a1 = map_chars(s, f1);
    lemma_replace_char(a1, '<', "&lt;"@);
    lemma_map_chars_compose(s, f1, f2);
    let h2 = |x: char| map_chars(f1(x), f2);
    let a2 = map_chars(s, h2);
    lemma_replace_char(a2, '>', "&gt;"@);
    lemma_map_chars_compose(s, h2, f3);
    let h3 = |x: char| map_chars(h2(x), f3);
    let a3 = map_chars(s, h3);
    lemma_replace_char(a3, '"', "&quot;"@);
    lemma_map_chars_compose(s, h3, f4);
    let h4 = |x: char| map_chars(h3(x), f4);
    assert forall|x: char| #[trigger] h4(x) == html_char(x) by {
        if x == '&' || x == '<' || x == '>' || x == '"' {
            let e = html_char(x);
            lemma_swap_absent(e, '<', "&lt;"@);
            lemma_swap_absent(e, '>', "&gt;"@);
            lemma_swap_absent(e, '"', "&quot;"@);
            lemma_map_chars_single(x, f1);
            if x == '<' {
                lemma_map_chars_single(x, f2);
            } else if x == '>' {
                lemma_map_chars_single(x, f2);
                lemma_map_chars_single(x, f3);
            } else if x == '"' {
                lemma_map_chars_single(x, f2);
                lemma_map_chars_single(x, f3);
                lemma_map_chars_single(x, f4);
            }
        } else {
            lemma_map_chars_single(x, f1);
            lemma_map_chars_single(x, f2);
            lemma_map_chars_single(x, f3);
            lemma_map_chars_single(x, f4);
        }
    }
    lemma_map_chars_agree(s, h4, |c: char| html_char(c));
}

/// XML escaping is HTML escaping followed by replacing `'` with `&apos;`.
pub proof fn law_xml_escape_extends_html(s: Seq<char>)
    ensures
        xml_escaped(s) == replaced(html_escaped(s), "'"@, "&apos;"@),
{
    reveal_strlit("'");
    reveal_strlit("&apos;");
    reveal_strlit("&amp;");
    reveal_strlit("&lt;");
    reveal_strlit("&gt;");
    reveal_strlit("&quot;");
    assert("'"@ =~= seq!['\'']);
    let f = swap_char('\'', "&apos;"@);
    let h = |c: char| html_char(c);
    lemma_replace_char(html_escaped(s), '\'', "&apos;"@);
    lemma_map_chars_compose(s, h, f);
    let g = |x: char| map_chars(h(x), f);
    assert forall|x: char| #[trigger] g(x) == xml_char(x) by {
        if x == '&' || x == '<' || x == '>' || x == '"' {
            lemma_swap_absent(html_char(x), '\'', "&apos;"@);
        } else {
            lemma_map_chars_single(x, f);
        }
    }
    lemma_map_chars_agree(s, g, |c: char| xml_char(c));
}


/// A writing of characters with the writing of `c0` put back to `rep`.
pub open spec fn restored(f: spec_fn(char) -> Seq<char>, c0: char, rep: Seq<char>) -> spec_fn(char) -> Seq<char> {
    |c: char| if c == c0 { rep } else { f(c) }
}

proof fn lemma_map_chars_front(s: Seq<char>, f: spec_fn(char) -> Seq<char>)
    requires
        s.len() > 0,
    ensures
        map_chars(s, f) == f(s[0]) + map_chars(s.skip(1), f),
{
    assert(s =~= seq![s[0]] + s.skip(1));
    lemma_map_chars_concat(seq![s[0]], s.skip(1), f);
    lemma_map_chars_single(s[0], f);
}

/// Text without `'&'` in front of a rest: replacing an `&`-entity passes
/// over it unchanged.
proof fn lemma_replace_passes(u: Seq<char>, t: Seq<char>, pat: Seq<char>, rep: Seq<char>)
    requires
        pat.len() > 0,
        pat[0] == '&',
        forall|j: int| 0 <= j < u.len() ==> #[trigger] u[j] != '&',
    ensures
        replaced(u + t, pat, rep) == u + replaced(t, pat, rep),
    decreases u.len(),
{
    if u.len() > 0 {
        let ut = u + t;
        assert(ut[0] == u[0]);
        if pat.len() <= ut.len() {
            assert(ut.take(pat.len() as int)[0] != pat[0]);
        }
        assert(ut.skip(1) =~= u.skip(1) + t);
        lemma_replace_passes(u.skip(1), t, pat, rep);
        assert(u =~= seq![u[0]] + u.skip(1));
        assert(seq![ut[0]] + (u.skip(1) + replaced(t, pat, rep)) =~= u + replaced(t, pat, rep));
    } else {
        assert(u + t =~= t);
        assert(u + replaced(t, pat, rep) =~= replaced(t, pat, rep));
    }
}

/// Replacing the entity `pat` of `c0` in a text written by `f`, where
/// `'&'` only ever starts an entity and entities differ in their second
/// character, puts `rep` back in place of each written `c0`.
proof fn lemma_replace_entity(
    s: Seq<char>,
    f: spec_fn(char) -> Seq<char>,
    c0: char,
    pat: Seq<char>,
    rep: Seq<char>,
)
    requires
        pat.len() >= 2,
        pat[0] == '&',
        f(c0) == pat,
        forall|c: char| #[trigger] f(c).len() > 0,
        forall|c: char, j: int| 1 <= j < f(c).len() ==> #[trigger] f(c)[j] != '&',
        forall|c: char|
            c != c0 && #[trigger] f(c)[0] == '&' ==> f(c).len() >= 2 && f(c)[1] != pat[1],
    ensures
        replaced(map_chars(s, f), pat, rep) == map_chars(s, restored(f, c0, rep)),
    decreases s.len(),
{
    let g = restored(f, c0, rep);
    if s.len() == 0 {
        assert(map_chars(s, f) =~= Seq::<char>::empty());
        assert(map_chars(s, g) =~= Seq::<char>::empty());
    } else {
        let x = s[0];
        let rest = map_chars(s.skip(1), f);
        lemma_map_chars_front(s, f);
        lemma_map_chars_front(s, g);
        lemma_replace_entity(s.skip(1), f, c0, pat, rep);
        let t = f(x) + rest;
        assert(f(x).len() > 0);
        if x == c0 {
            assert(t.take(pat.len() as int) =~= pat);
            assert(t.skip(pat.len() as int) =~= rest);
        } else {
            assert(t[0] == f(x)[0]);
            if pat.len() <= t.len() {
                if f(x)[0] == '&' {
                    assert(f(x)[1] != pat[1]);
                    assert(t[1] == f(x)[1]);
                    assert(t.take(pat.len() as int)[1] != pat[1]);
                } else {
                    assert(t.take(pat.len() as int)[0] != pat[0]);
                }
            }
            let u = f(x).skip(1);
            assert forall|j: int| 0 <= j < u.len() implies #[trigger] u[j] != '&' by {
                assert(u[j] == f(x)[j + 1]);
            }
            assert(t.skip(1) =~= u + rest);
            lemma_replace_passes(u, rest, pat, rep);
            assert(f(x) =~= seq![t[0]] + u);
            assert(seq![t[0]] + (u + replaced(rest, pat, rep)) =~= f(x) + replaced(rest, pat, rep));
        }
    }
}

/// Escaped HTML is undone by replacing `&lt;`, `&gt;` and `&quot;` and
/// then `&amp;`: `&` is escaped first, so no entity is escaped twice and
/// no text escapes to the same HTML as another.
pub proof fn law_html_escape_undone(s: Seq<char>)
    ensures
        replaced(
            replaced(
                replaced(replaced(html_escaped(s), "&lt;"@, "<"@), "&gt;"@, ">"@),
                "&quot;"@,
                "\""@,
            ),
            "&amp;"@,
            "&"@,
        ) == s,
{
    reveal_strlit("&");
    reveal_strlit("<");
    reveal_strlit(">");
    reveal_strlit("\"");
    reveal_strlit("&amp;");
    reveal_strlit("&lt;");
    reveal_strlit("&gt;");
    reveal_strlit("&quot;");
    let h = |c: char| html_char(c);
    let g1 = restored(h, '<', "<"@);
    let g2 = restored(g1, '>', ">"@);
    let g3 = restored(g2, '"', "\""@);
    let g4 = restored(g3, '&', "&"@);
    assert forall|c: char| #[trigger] h(c).len() > 0 by {}
    assert forall|c: char, j: int| 1 <= j < h(c).len() implies #[trigger] h(c)[j] != '&' by {}
    lemma_replace_entity(s, h, '<', "&lt;"@, "<"@);
    assert forall|c: char| #[trigger] g1(c).len() > 0 by {}
    assert forall|c: char, j: int| 1 <= j < g1(c).len() implies #[trigger] g1(c)[j] != '&' by {}
    lemma_replace_entity(s, g1, '>', "&gt;"@, ">"@);
    assert forall|c: char| #[trigger] g2(c).len() > 0 by {}
    assert forall|c: char, j: int| 1 <= j < g2(c).len() implies #[trigger] g2(c)[j] != '&' by {}
    lemma_replace_entity(s, g2, '"', "&quot;"@, "\""@);
    assert forall|c: char| #[trigger] g3(c).len() > 0 by {}
    assert forall|c: char, j: int| 1 <= j < g3(c).len() implies #[trigger] g3(c)[j] != '&' by {}
    lemma_replace_entity(s, g3, '&', "&amp;"@, "&"@);
    assert forall|i: int| 0 <= i < s.len() implies g4(#[trigger] s[i]) == seq![s[i]] by {
        let c = s[i];
        if c == '&' || c == '<' || c == '>' || c == '"' {
        } else {
        }
    }
    lemma_map_chars_identity(s, g4);
}

/// Two texts with the same HTML escaping are the same text.
pub proof fn law_html_escape_injective(a: Seq<char>, b: Seq<char>)
    requires
        html_escaped(a) == html_escaped(b),
    ensures
        a == b,
{
    law_html_escape_undone(a);
    law_html_escape_undone(b);
}


/// Escaped HTML text holds no `<`, `>` or `"`, and escaped XML text
/// holds no `'` either.
pub proof fn law_escapes_leave_no_markup(s: Seq<char>)
    ensures
        forall|j: int| 0 <= j < html_escaped(s).len() ==> {
            let c = #[trigger] html_escaped(s)[j];
            c != '<' && c != '>' && c != '"'
        },
        forall|j: int| 0 <= j < xml_escaped(s).len() ==> {
            let c = #[trigger] xml_escaped(s)[j];
            c != '<' && c != '>' && c != '"' && c != '\''
        },
{
    reveal_strlit("&amp;");
    reveal_strlit("&lt;");
    reveal_strlit("&gt;");
    reveal_strlit("&quot;");
    reveal_strlit("&apos;");
    let p = |c: char| c != '<' && c != '>' && c != '"';
    let q = |c: char| c != '<' && c != '>' && c != '"' && c != '\'';
    let h = |c: char| html_char(c);
    let x = |c: char| xml_char(c);
    assert forall|c: char, j: int| 0 <= j < h(c).len() implies p(#[trigger] h(c)[j]) by {
    }
    assert forall|c: char, j: int| 0 <= j < x(c).len() implies q(#[trigger] x(c)[j]) by {
    }
    lemma_map_chars_all(s, h, p);
    lemma_map_chars_all(s, x, q);
}

/// A PDF-escaped text is ASCII without tabs, so it can stand in a
/// Helvetica string literal.
pub proof fn law_pdf_escape_is_ascii(s: Seq<char>)
    ensures
        forall|j: int| 0 <= j < pdf_escaped(s).len() ==> {
            let c = #[trigger] pdf_escaped(s)[j];
            (c as u32) < 128 && c != '\t'
        },
{
    reveal_strlit("\\(");
    reveal_strlit("\\)");
    reveal_strlit("\\\\");
    reveal_strlit("    ");
    reveal_strlit("?");
    let p = |c: char| (c as u32) < 128 && c != '\t';
    let f = |c: char| pdf_char(c);
    assert forall|c: char, j: int| 0 <= j < f(c).len() implies p(#[trigger] f(c)[j]) by {
    }
    lemma_map_chars_all(s, f, p);
}

} // verus!
