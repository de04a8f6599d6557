//! Breaking text into lines of a given width.

use vstd::prelude::*;

use crate::pages::concat_all;
use crate::text::{chars_of, is_white_space, string_from_chars, views, white_space};

verus! {

/// The length of the run of non-white-space characters that starts `s`.
pub open spec fn word_len(s: Seq<char>) -> nat
    decreases s.len(),
{
    if s.len() == 0 || is_white_space(s[0]) {
        0
    } else {
        1 + word_len(s.drop_first())
    }
}

pub proof fn lemma_word_len_bound(s: Seq<char>)
    ensures
        word_len(s) <= s.len(),
        s.len() > 0 && !is_white_space(s[0]) ==> word_len(s) >= 1,
    decreases s.len(),
{
    if s.len() > 0 && !is_white_space(s[0]) {
        lemma_word_len_bound(s.drop_first());
    }
}

/// The words of a text (`str::split_whitespace`): its maximal runs of
/// characters other than white space.
pub open spec fn words(s: Seq<char>) -> Seq<Seq<char>>
    decreases s.len(),
{
    if s.len() == 0 {
        seq![]
    } else if is_white_space(s[0]) {
        words(s.drop_first())
    } else {
        let k = word_len(s);
        proof {
            lemma_word_len_bound(s);
        }
        seq![s.take(k as int)] + words(s.skip(k as int))
    }
}

/// The line being filled and the lines already full.
pub struct WrapState {
    pub current: Seq<char>,
    pub lines: Seq<Seq<char>>,
}

/// Whether a word does not fit after the text of the current line.
pub open spec fn overflows(current: Seq<char>, word: Seq<char>, width: nat) -> bool {
    current.len() > 0 && current.len() + word.len() + 1 > width
}

/// Adds one word: the line is closed first if the word does not fit on it,
/// and words on a line are separated by one space.
pub open spec fn wrap_step(st: WrapState, word: Seq<char>, width: nat) -> WrapState {
    let st1 = if overflows(st.current, word, width) {
        WrapState { current: Seq::empty(), lines: st.lines.push(st.current) }
    } else {
        st
    };
    WrapState {
        current: if st1.current.len() > 0 { st1.current.push(' ') + word } else { word },
        lines: st1.lines,
    }
}

/// The wrapping state after adding the words of `s`, in order.
pub open spec fn wrap_from(st: WrapState, s: Seq<char>, width: nat) -> WrapState
    decreases s.len(),
{
    if s.len() == 0 {
        st
    } else if is_white_space(s[0]) {
        wrap_from(st, s.drop_first(), width)
    } else {
        let k = word_len(s);
        proof {
            lemma_word_len_bound(s);
        }
        wrap_from(wrap_step(st, s.take(k as int), width), s.skip(k as int), width)
    }
}

/// The lines of a text wrapped to `width` characters: an empty text gives
/// one empty line; otherwise its words are laid out greedily, a line
/// ending where the next word would make it longer than `width`.
pub open spec fn wrapped(s: Seq<char>, width: nat) -> Seq<Seq<char>> {
    if s.len() == 0 {
        seq![Seq::empty()]
    } else {
        let st = wrap_from(WrapState { current: Seq::empty(), lines: Seq::empty() }, s, width);
        if st.current.len() > 0 {
            st.lines.push(st.current)
        } else {
            st.lines
        }
    }
}

proof fn lemma_word_len(s: Seq<char>, k: int)
    requires
        0 <= k <= s.len(),
        forall|j: int| 0 <= j < k ==> !is_white_space(#[trigger] s[j]),
        k == s.len() || is_white_space(s[k]),
    ensures
        word_len(s) == k,
    decreases k,
{
    if k > 0 {
        assert forall|j: int| 0 <= j < k - 1 implies !is_white_space(#[trigger] s.drop_first()[j]) by {
            assert(s.drop_first()[j] == s[j + 1]);
        }
        lemma_word_len(s.drop_first(), k - 1);
    }
}

/// Wraps `text` to lines of at most `width` characters, breaking only
/// between words; a word longer than `width` stands on a line of its own.
pub fn wrap_text(text: &str, width: usize) -> (lines: Vec<String>)
    ensures
        views(lines@) == wrapped(text@, width as nat),
{
    let cs = chars_of(text);
    let n = cs.len();
    if n == 0 {
        let mut lines: Vec<String> = Vec::new();
        lines.push(String::new());
        assert(views(lines@) =~= seq![Seq::<char>::empty()]);
        return lines;
    }
    let ghost s = text@;
    let ghost init = WrapState { current: Seq::empty(), lines: Seq::empty() };
    let mut lines: Vec<String> = Vec::new();
    let mut current = String::new();
    let mut cur_len: usize = 0;
    let mut i: usize = 0;
    assert(s.skip(0) =~= s);
    assert(views(lines@) =~= Seq::<Seq<char>>::empty());
    while i < n
        invariant
            cs@ == s,
            n == cs.len(),
            i <= n,
            cur_len == current@.len(),
            cur_len <= i,
            cur_len > 0 ==> (cur_len < i || i == n || is_white_space(s[i as int])),
            wrap_from(init, s, width as nat) == wrap_from(
                WrapState { current: current@, lines: views(lines@) },
                s.skip(i as int),
                width as nat,
            ),
        decreases n - i,
    {
        if white_space(cs[i]) {
            assert(s.skip(i as int).drop_first() =~= s.skip(i + 1));
            i = i + 1;
        } else {
            let mut j = i;
            while j < n && !white_space(cs[j])
                invariant
                    i <= j <= n,
                    n == cs.len(),
                    forall|k: int| i <= k < j ==> !is_white_space(#[trigger] cs@[k]),
                decreases n - j,
            {
                j = j + 1;
            }
            let ghost rest = s.skip(i as int);
            proof {
                assert forall|k: int| 0 <= k < j - i implies !is_white_space(#[trigger] rest[k]) by {
                    assert(rest[k] == cs@[i + k]);
                }
                lemma_word_len(rest, j - i);
            }
            let wlen = j - i;
            let ghost st0 = WrapState { current: current@, lines: views(lines@) };
            let word = string_from_chars(&cs, i, j);
            assert(word@ =~= rest.take(wlen as int));
            if cur_len > 0 && (cur_len >= width || wlen >= width - cur_len) {
                let ghost prev = lines@;
                lines.push(current);
                assert(views(lines@) =~= views(prev).push(st0.current));
                current = String::new();
                cur_len = 0;
            }
            if cur_len > 0 {
                current.push(' ');
                cur_len = cur_len + 1;
            }
            current.append(word.as_str());
            cur_len = cur_len + wlen;
            assert(rest.skip(wlen as int) =~= s.skip(j as int));
            assert(wrap_step(st0, word@, width as nat) == WrapState { current: current@, lines: views(lines@) });
            i = j;
        }
    }
    assert(s.skip(n as int) =~= Seq::<char>::empty());
    if cur_len > 0 {
        let ghost prev = lines@;
        lines.push(current);
        assert(views(lines@) =~= views(prev).push(current@));
    }
    lines
}


/// The words of each line, one after the other.
pub open spec fn words_of_lines(lines: Seq<Seq<char>>) -> Seq<Seq<char>> {
    concat_all(lines.map_values(|l: Seq<char>| words(l)))
}

proof fn lemma_words_of_lines_push(lines: Seq<Seq<char>>, l: Seq<char>)
    ensures
        words_of_lines(lines.push(l)) == words_of_lines(lines) + words(l),
{
    let f = |x: Seq<char>| words(x);
    assert(lines.push(l).map_values(f).drop_last() =~= lines.map_values(f));
}

proof fn lemma_word_len_concat(a: Seq<char>, b: Seq<char>)
    requires
        word_len(a) < a.len() || b.len() == 0 || is_white_space(b[0]),
    ensures
        word_len(a + b) == word_len(a),
    decreases a.len(),
{
    if a.len() == 0 {
    } else if is_white_space(a[0]) {
        assert((a + b)[0] == a[0]);
    } else {
        assert((a + b)[0] == a[0]);
        assert((a + b).drop_first() =~= a.drop_first() + b);
        lemma_word_len_concat(a.drop_first(), b);
    }
}

/// Words of a concatenation split at a place that is not inside a word.
proof fn lemma_words_concat(a: Seq<char>, b: Seq<char>)
    requires
        a.len() == 0 || b.len() == 0 || is_white_space(a.last()) || is_white_space(b[0]),
    ensures
        words(a + b) == words(a) + words(b),
    decreases a.len(),
{
    if a.len() == 0 {
        assert(a + b =~= b);
    } else if b.len() == 0 {
        assert(a + b =~= a);
    } else if is_white_space(a[0]) {
        assert((a + b)[0] == a[0]);
        assert((a + b).drop_first() =~= a.drop_first() + b);
        if a.len() > 1 {
            assert(a.drop_first().last() == a.last());
        }
        lemma_words_concat(a.drop_first(), b);
    } else {
        assert((a + b)[0] == a[0]);
        lemma_word_len_bound(a);
        let k = word_len(a);
        if k == a.len() {
            assert(is_white_space(b[0]) || is_white_space(a.last()));
            if is_white_space(a.last()) {
                lemma_word_len_all(a);
            }
        }
        lemma_word_len_concat(a, b);
        assert((a + b).take(k as int) =~= a.take(k as int));
        assert((a + b).skip(k as int) =~= a.skip(k as int) + b);
        if a.skip(k as int).len() > 0 {
            assert(a.skip(k as int).last() == a.last());
        }
        lemma_words_concat(a.skip(k as int), b);
    }
}

proof fn lemma_word_len_all(a: Seq<char>)
    requires
        a.len() > 0,
        is_white_space(a.last()),
    ensures
        word_len(a) < a.len(),
    decreases a.len(),
{
    if a.len() > 1 && !is_white_space(a[0]) {
        assert(a.drop_first().last() == a.last());
        lemma_word_len_all(a.drop_first());
    }
}

/// A text of one word has itself as its only word.
proof fn lemma_single_word(w: Seq<char>)
    requires
        w.len() > 0,
        forall|i: int| 0 <= i < w.len() ==> !is_white_space(#[trigger] w[i]),
    ensures
        words(w) == seq![w],
{
    lemma_word_len_run(w);
    assert(!is_white_space(w[0]));
    assert(w.take(w.len() as int) =~= w);
    assert(w.skip(w.len() as int) =~= Seq::<char>::empty());
    assert(words(w.skip(w.len() as int)) =~= Seq::<Seq<char>>::empty());
    assert(seq![w] + Seq::<Seq<char>>::empty() =~= seq![w]);
}

proof fn lemma_word_len_run(w: Seq<char>)
    requires
        forall|i: int| 0 <= i < w.len() ==> !is_white_space(#[trigger] w[i]),
    ensures
        word_len(w) == w.len(),
    decreases w.len(),
{
    if w.len() > 0 {
        assert forall|i: int| 0 <= i < w.drop_first().len() implies !is_white_space(#[trigger] w.drop_first()[i]) by {
            assert(w.drop_first()[i] == w[i + 1]);
        }
        lemma_word_len_run(w.drop_first());
    }
}

proof fn lemma_word_prefix(s: Seq<char>, i: int)
    requires
        0 <= i < word_len(s),
    ensures
        !is_white_space(s[i]),
    decreases i,
{
    lemma_word_len_bound(s);
    assert(s.len() > 0 && !is_white_space(s[0]));
    if i > 0 {
        lemma_word_prefix(s.drop_first(), i - 1);
        assert(s[i] == s.drop_first()[i - 1]);
    }
}

proof fn lemma_word_is_run(s: Seq<char>)
    requires
        s.len() > 0,
        !is_white_space(s[0]),
    ensures
        forall|i: int| 0 <= i < word_len(s) ==> !is_white_space(#[trigger] s.take(word_len(s) as int)[i]),
        word_len(s) >= 1,
{
    lemma_word_len_bound(s);
    assert forall|i: int| 0 <= i < word_len(s) implies !is_white_space(#[trigger] s.take(word_len(s) as int)[i]) by {
        lemma_word_prefix(s, i);
    }
}

/// Whether a line fits in `width` or holds a single word.
pub open spec fn fits_or_single(l: Seq<char>, width: nat) -> bool {
    l.len() <= width || words(l).len() == 1
}

proof fn lemma_wrap_from(st: WrapState, s: Seq<char>, width: nat)
    requires
        forall|i: int| 0 <= i < st.lines.len() ==> fits_or_single(#[trigger] st.lines[i], width),
        fits_or_single(st.current, width),
    ensures
        ({
            let fin = wrap_from(st, s, width);
            &&& words_of_lines(fin.lines) + words(fin.current) == words_of_lines(st.lines) + words(st.current)
                + words(s)
            &&& forall|i: int| 0 <= i < fin.lines.len() ==> fits_or_single(#[trigger] fin.lines[i], width)
            &&& fits_or_single(fin.current, width)
        }),
    decreases s.len(),
{
    if s.len() == 0 {
        assert(words(s) =~= Seq::<Seq<char>>::empty());
        assert(words_of_lines(st.lines) + words(st.current) + words(s) =~= words_of_lines(st.lines) + words(
            st.current,
        ));
    } else if is_white_space(s[0]) {
        lemma_wrap_from(st, s.drop_first(), width);
    } else {
        let k = word_len(s);
        lemma_word_is_run(s);
        lemma_word_len_bound(s);
        let w = s.take(k as int);
        lemma_single_word(w);
        let st1 = if overflows(st.current, w, width) {
            WrapState { current: Seq::empty(), lines: st.lines.push(st.current) }
        } else {
            st
        };
        let st2 = wrap_step(st, w, width);
        assert(words_of_lines(st1.lines) + words(st1.current) == words_of_lines(st.lines) + words(st.current)) by {
            if overflows(st.current, w, width) {
                lemma_words_of_lines_push(st.lines, st.current);
                assert(words(Seq::<char>::empty()) =~= Seq::<Seq<char>>::empty());
                assert(words_of_lines(st.lines) + words(st.current) + Seq::<Seq<char>>::empty() =~= words_of_lines(
                    st.lines,
                ) + words(st.current));
            }
        }
        assert(words(st2.current) == words(st1.current) + seq![w]) by {
            if st1.current.len() > 0 {
                let sp = seq![' '];
                assert(is_white_space(' '));
                lemma_words_concat(sp, w);
                assert(words(sp) =~= Seq::<Seq<char>>::empty()) by {
                    assert(sp.drop_first() =~= Seq::<char>::empty());
                    assert(words(sp.drop_first()) =~= Seq::<Seq<char>>::empty());
                    assert(is_white_space(sp[0]));
                }
                assert(sp + w =~= seq![' '] + w);
                lemma_words_concat(st1.current, sp + w);
                assert(st1.current.push(' ') + w =~= st1.current + (sp + w));
                assert(Seq::<Seq<char>>::empty() + seq![w] =~= seq![w]);
            } else {
                assert(words(st1.current) =~= Seq::<Seq<char>>::empty()) by {
                    assert(st1.current.len() == 0);
                }
                assert(Seq::<Seq<char>>::empty() + seq![w] =~= seq![w]);
            }
        }
        assert(forall|i: int| 0 <= i < st2.lines.len() ==> fits_or_single(#[trigger] st2.lines[i], width)) by {
            if overflows(st.current, w, width) {
                assert forall|i: int| 0 <= i < st2.lines.len() implies fits_or_single(#[trigger] st2.lines[i], width) by {
                    if i < st.lines.len() {
                        assert(st2.lines[i] == st.lines[i]);
                    }
                }
            }
        }
        assert(fits_or_single(st2.current, width));
        lemma_wrap_from(st2, s.skip(k as int), width);
        assert(words(s) == seq![w] + words(s.skip(k as int)));
        assert(words_of_lines(st.lines) + words(st.current) + words(s) =~= words_of_lines(st2.lines) + words(
            st2.current,
        ) + words(s.skip(k as int)));
    }
}

/// Wrapping loses no word and adds none: the words of the lines, in
/// order, are the words of the text; and every line fits in `width`
/// characters unless it holds a single word.
pub proof fn law_wrap_keeps_words(text: Seq<char>, width: nat)
    ensures
        words_of_lines(wrapped(text, width)) == words(text),
        forall|i: int| 0 <= i < wrapped(text, width).len() ==> fits_or_single(#[trigger] wrapped(text, width)[i], width),
{
    if text.len() == 0 {
        let e = Seq::<char>::empty();
        lemma_words_of_lines_push(Seq::<Seq<char>>::empty(), e);
        assert(seq![e] =~= Seq::<Seq<char>>::empty().push(e));
        assert(words_of_lines(Seq::<Seq<char>>::empty()) =~= Seq::<Seq<char>>::empty());
        assert(words(e) =~= Seq::<Seq<char>>::empty());
    } else {
        let init = WrapState { current: Seq::empty(), lines: Seq::empty() };
        assert(words(init.current) =~= Seq::<Seq<char>>::empty());
        assert(words_of_lines(init.lines) =~= Seq::<Seq<char>>::empty());
        lemma_wrap_from(init, text, width);
        let fin = wrap_from(init, text, width);
        assert(Seq::<Seq<char>>::empty() + Seq::<Seq<char>>::empty() + words(text) =~= words(text));
        if fin.current.len() > 0 {
            lemma_words_of_lines_push(fin.lines, fin.current);
            assert forall|i: int| 0 <= i < wrapped(text, width).len() implies fits_or_single(#[trigger] wrapped(text, width)[i], width) by {
                if i < fin.lines.len() {
                    assert(wrapped(text, width)[i] == fin.lines[i]);
                }
            }
        } else {
            assert(words(fin.current) =~= Seq::<Seq<char>>::empty());
            assert(words_of_lines(fin.lines) + Seq::<Seq<char>>::empty() =~= words_of_lines(fin.lines));
        }
    }
}

} // verus!
