//! Character-level building blocks shared by every export format.

use vstd::prelude::*;
use vstd::utf8::encode_utf8;

verus! {

/// `String::push` appends one character at the end of the string.
pub assume_specification[ String::push ](s: &mut String, ch: char)
    ensures
        final(s)@ == old(s)@.push(ch),
;

/// The ASCII digit for a value below ten.
pub open spec fn digit_char(d: int) -> char {
    (d + 48) as char
}

/// The decimal writing of `n`, without sign or leading zeros.
pub open spec fn decimal_chars(n: nat) -> Seq<char>
    decreases n,
{
    if n < 10 {
        seq![digit_char(n as int)]
    } else {
        decimal_chars(n / 10).push(digit_char((n % 10) as int))
    }
}

/// Writes `n` in decimal, as `format!("{}", n)` does.
pub fn decimal(n: u64) -> (s: String)
    ensures
        s@ == decimal_chars(n as nat),
    decreases n,
{
    let d: u8 = (n % 10) as u8;
    let c: char = (48u8 + d) as char;
    assert(c == digit_char((n % 10) as int));
    if n < 10 {
        let mut s = String::new();
        s.push(c);
        s
    } else {
        let mut s = decimal(n / 10);
        s.push(c);
        s
    }
}


/// The characters of a string slice, in order.
pub(crate) fn chars_of(s: &str) -> (cs: Vec<char>)
    ensures
        cs@ == s@,
{
    broadcast use vstd::string::axiom_spec_iter;
    let mut cs: Vec<char> = Vec::new();
    for c in it: s.chars()
        invariant
            it.seq() == s@,
            cs@ == it.seq().take(it.index()),
    {
        cs.push(c);
        assert(cs@ =~= it.seq().take(it.index() + 1));
    }
    assert(cs@ =~= s@);
    cs
}

/// The string made of `cs[from..to]`.
pub fn string_from_chars(cs: &Vec<char>, from: usize, to: usize) -> (s: String)
    requires
        from <= to <= cs.len(),
    ensures
        s@ == cs@.subrange(from as int, to as int),
{
    let mut s = String::new();
    let mut i = from;
    while i < to
        invariant
            from <= i <= to <= cs.len(),
            s@ == cs@.subrange(from as int, i as int),
        decreases to - i,
    {
        s.push(cs[i]);
        i = i + 1;
        assert(s@ =~= cs@.subrange(from as int, i as int));
    }
    s
}

/// The views of a sequence of strings.
pub open spec fn views(v: Seq<String>) -> Seq<Seq<char>> {
    v.map_values(|s: String| s@)
}

/// Unicode's `White_Space` property, which `char::is_whitespace` tests.
pub open spec fn is_white_space(c: char) -> bool {
    ||| c == ' '
    ||| ('\t' <= c && c <= '\r')
    ||| c == '\u{85}'
    ||| c == '\u{a0}'
    ||| c == '\u{1680}'
    ||| ('\u{2000}' <= c && c <= '\u{200a}')
    ||| c == '\u{2028}'
    ||| c == '\u{2029}'
    ||| c == '\u{202f}'
    ||| c == '\u{205f}'
    ||| c == '\u{3000}'
}

/// Whether `c` is white space in Unicode's sense.
pub fn white_space(c: char) -> (b: bool)
    ensures
        b == is_white_space(c),
{
    c == ' ' || ('\t' <= c && c <= '\r') || c == '\u{85}' || c == '\u{a0}' || c == '\u{1680}'
        || ('\u{2000}' <= c && c <= '\u{200a}') || c == '\u{2028}' || c == '\u{2029}'
        || c == '\u{202f}' || c == '\u{205f}' || c == '\u{3000}'
}

/// Whether a text holds a character other than white space, that is,
/// whether it is not empty once trimmed.
pub open spec fn has_visible(s: Seq<char>) -> bool {
    exists|i: int| 0 <= i < s.len() && !is_white_space(#[trigger] s[i])
}

/// Whether `s.trim()` is not empty.
pub fn visible(s: &str) -> (b: bool)
    ensures
        b == has_visible(s@),
{
    let cs = chars_of(s);
    let mut i: usize = 0;
    while i < cs.len()
        invariant
            cs@ == s@,
            i <= cs.len(),
            forall|j: int| 0 <= j < i ==> is_white_space(#[trigger] s@[j]),
        decreases cs.len() - i,
    {
        if !white_space(cs[i]) {
            return true;
        }
        i = i + 1;
    }
    false
}

/// The index of the first `'\n'` in `s`, or its length where it has none.
pub open spec fn first_newline(s: Seq<char>) -> nat
    decreases s.len(),
{
    if s.len() == 0 {
        0
    } else if s[0] == '\n' {
        0
    } else {
        1 + first_newline(s.drop_first())
    }
}

/// A line without the `'\r'` that ended it, if it had one.
pub open spec fn strip_cr(s: Seq<char>) -> Seq<char> {
    if s.len() > 0 && s.last() == '\r' {
        s.drop_last()
    } else {
        s
    }
}

/// The lines of a text, as `str::lines` gives them: split at each `'\n'`,
/// a `'\r'` just before it dropped, and no empty line after a final `'\n'`.
pub open spec fn line_split(s: Seq<char>) -> Seq<Seq<char>>
    decreases s.len(),
{
    if s.len() == 0 {
        seq![]
    } else {
        let i = first_newline(s);
        if i >= s.len() {
            seq![s]
        } else {
            seq![strip_cr(s.take(i as int))] + line_split(s.skip(i as int + 1))
        }
    }
}

/// The first newline of `s` is at `k` when `s` has none before `k` and
/// one (or its end) at `k`.
pub proof fn lemma_first_newline(s: Seq<char>, k: int)
    requires
        0 <= k <= s.len(),
        forall|j: int| 0 <= j < k ==> s[j] != '\n',
        k == s.len() || s[k] == '\n',
    ensures
        first_newline(s) == k,
    decreases k,
{
    if k > 0 {
        lemma_first_newline(s.drop_first(), k - 1);
    }
}

/// The lines of `s` (`str::lines`).
pub fn split_lines(s: &str) -> (lines: Vec<String>)
    ensures
        views(lines@) == line_split(s@),
{
    let cs = chars_of(s);
    let n = cs.len();
    let mut lines: Vec<String> = Vec::new();
    let mut start: usize = 0;
    assert(s@.skip(0) =~= s@);
    assert(views(lines@) + line_split(s@) =~= line_split(s@));
    while start < n
        invariant
            cs@ == s@,
            n == cs.len(),
            start <= n,
            line_split(s@) == views(lines@) + line_split(s@.skip(start as int)),
        decreases n - start,
    {
        let mut j = start;
        while j < n && cs[j] != '\n'
            invariant
                start <= j <= n,
                n == cs.len(),
                forall|k: int| start <= k < j ==> cs@[k] != '\n',
            decreases n - j,
        {
            j = j + 1;
        }
        let ghost rest = s@.skip(start as int);
        proof {
            lemma_first_newline(rest, j - start);
        }
        let ghost before = views(lines@);
        if j == n {
            let piece = string_from_chars(&cs, start, n);
            assert(piece@ =~= rest);
            lines.push(piece);
            assert(views(lines@) =~= before.push(rest));
            assert(rest.skip(rest.len() as int) =~= Seq::<char>::empty());
            assert(s@.skip(n as int) =~= Seq::<char>::empty());
            start = n;
            assert(line_split(s@.skip(start as int)) =~= Seq::<Seq<char>>::empty());
            assert(line_split(rest) =~= seq![rest]);
            assert(line_split(s@) =~= views(lines@) + line_split(s@.skip(start as int)));
        } else {
            let end = if j > start && cs[j - 1] == '\r' { j - 1 } else { j };
            let piece = string_from_chars(&cs, start, end);
            assert(piece@ =~= strip_cr(rest.take(j - start)));
            lines.push(piece);
            assert(views(lines@) =~= before.push(piece@));
            assert(rest.skip(j - start + 1) =~= s@.skip(j + 1));
            start = j + 1;
        }
    }
    assert(s@.skip(n as int) =~= Seq::<char>::empty());
    assert(views(lines@) + Seq::<Seq<char>>::empty() =~= views(lines@));
    lines
}


/// `s` with every character `c` written as `f(c)`.
pub open spec fn map_chars(s: Seq<char>, f: spec_fn(char) -> Seq<char>) -> Seq<char>
    decreases s.len(),
{
    if s.len() == 0 {
        seq![]
    } else {
        map_chars(s.drop_last(), f) + f(s.last())
    }
}

/// Whether `pat` occurs in `cs` at index `at`.
pub open spec fn occurs_at(cs: Seq<char>, pat: Seq<char>, at: int) -> bool {
    0 <= at && at + pat.len() <= cs.len() && cs.subrange(at, at + pat.len()) == pat
}

/// Whether `pat` occurs in `cs` at index `at`.
pub fn matches_at(cs: &Vec<char>, pat: &Vec<char>, at: usize) -> (b: bool)
    ensures
        b == occurs_at(cs@, pat@, at as int),
{
    if at > cs.len() || pat.len() > cs.len() - at {
        return false;
    }
    let mut k: usize = 0;
    while k < pat.len()
        invariant
            at + pat.len() <= cs.len(),
            k <= pat.len(),
            forall|j: int| 0 <= j < k ==> cs@[at + j] == pat@[j],
        decreases pat.len() - k,
    {
        if cs[at + k] != pat[k] {
            assert(cs@.subrange(at as int, at + pat.len())[k as int] != pat@[k as int]);
            return false;
        }
        k = k + 1;
    }
    assert(cs@.subrange(at as int, at + pat.len()) =~= pat@);
    true
}

/// Whether `pat` occurs in `s` (`str::contains`).
pub open spec fn contains_text(s: Seq<char>, pat: Seq<char>) -> bool {
    exists|at: int| occurs_at(s, pat, at)
}

/// Whether `pat` occurs in `s`.
pub fn contains(s: &str, pat: &str) -> (b: bool)
    ensures
        b == contains_text(s@, pat@),
{
    let cs = chars_of(s);
    let ps = chars_of(pat);
    let mut i: usize = 0;
    loop
        invariant
            cs@ == s@,
            ps@ == pat@,
            i <= cs.len(),
            forall|j: int| 0 <= j < i ==> !occurs_at(s@, pat@, j),
        decreases cs.len() - i,
    {
        if matches_at(&cs, &ps, i) {
            return true;
        }
        if i == cs.len() {
            assert forall|j: int| !occurs_at(s@, pat@, j) by {
                if 0 <= j && j < i {
                }
            }
            return false;
        }
        i = i + 1;
    }
}

/// `s` with every occurrence of `pat` replaced by `rep`, the occurrences
/// taken from the left without overlap (`str::replace`, for a non-empty
/// pattern).
pub open spec fn replaced(s: Seq<char>, pat: Seq<char>, rep: Seq<char>) -> Seq<char>
    decreases s.len(),
{
    if s.len() == 0 || pat.len() == 0 {
        s
    } else if pat.len() <= s.len() && s.take(pat.len() as int) == pat {
        rep + replaced(s.skip(pat.len() as int), pat, rep)
    } else {
        seq![s[0]] + replaced(s.skip(1), pat, rep)
    }
}

/// Replaces every occurrence of the non-empty `pat` in `s` by `rep`.
pub fn replace_all(s: &str, pat: &str, rep: &str) -> (r: String)
    requires
        pat@.len() > 0,
    ensures
        r@ == replaced(s@, pat@, rep@),
{
    let cs = chars_of(s);
    let ps = chars_of(pat);
    let n = cs.len();
    let m = ps.len();
    let mut out = String::new();
    let mut i: usize = 0;
    assert(s@.skip(0) =~= s@);
    while i < n
        invariant
            cs@ == s@,
            ps@ == pat@,
            n == cs.len(),
            m == ps.len(),
            m > 0,
            i <= n,
            replaced(s@, pat@, rep@) == out@ + replaced(s@.skip(i as int), pat@, rep@),
        decreases n - i,
    {
        let ghost r = s@.skip(i as int);
        let ghost before = out@;
        if matches_at(&cs, &ps, i) {
            assert(r.take(m as int) =~= cs@.subrange(i as int, i + m));
            assert(r.skip(m as int) =~= s@.skip(i + m));
            out.append(rep);
            i = i + m;
            assert(out@ =~= before + rep@);
        } else {
            assert(r.take(m as int) =~= cs@.subrange(i as int, i + m) || m > r.len());
            assert(r.skip(1) =~= s@.skip(i + 1));
            out.push(cs[i]);
            assert(out@ =~= before + seq![r[0]]);
            i = i + 1;
        }
    }
    assert(s@.skip(n as int) =~= Seq::<char>::empty());
    assert(out@ + Seq::<char>::empty() =~= out@);
    out
}

/// The ASCII digit for `d` below ten.
pub fn digit(d: u64) -> (c: char)
    requires
        d < 10,
    ensures
        c == digit_char(d as int),
{
    (48u8 + d as u8) as char
}

/// `s` preceded by as many `'0'` as bring it to `width` characters.
pub open spec fn zero_padded(s: Seq<char>, width: nat) -> Seq<char> {
    if s.len() >= width {
        s
    } else {
        Seq::new((width - s.len()) as nat, |i: int| '0') + s
    }
}

/// Writes `n` in decimal with at least `width` digits, as
/// `format!("{:0width$}", n)` does.
pub fn padded_decimal(n: u64, width: usize) -> (s: String)
    ensures
        s@ == zero_padded(decimal_chars(n as nat), width as nat),
{
    let d = decimal(n);
    let len = d.as_str().unicode_len();
    let mut s = String::new();
    if len < width {
        let mut k: usize = 0;
        while k < width - len
            invariant
                len < width,
                k <= width - len,
                s@ == Seq::new(k as nat, |i: int| '0'),
            decreases width - len - k,
        {
            s.push('0');
            k = k + 1;
            assert(s@ =~= Seq::new(k as nat, |i: int| '0'));
        }
    }
    s.append(d.as_str());
    assert(s@ =~= zero_padded(decimal_chars(n as nat), width as nat));
    s
}


/// Whether two texts are equal.
pub fn same_text(a: &str, b: &str) -> (r: bool)
    ensures
        r == (a@ == b@),
{
    let x = chars_of(a);
    let y = chars_of(b);
    if x.len() != y.len() {
        return false;
    }
    let mut i: usize = 0;
    while i < x.len()
        invariant
            x@ == a@,
            y@ == b@,
            x.len() == y.len(),
            i <= x.len(),
            forall|j: int| 0 <= j < i ==> x@[j] == y@[j],
        decreases x.len() - i,
    {
        if x[i] != y[i] {
            return false;
        }
        i = i + 1;
    }
    assert(x@ =~= y@);
    true
}


/// Writing each character `c` as `r`, other characters as themselves.
pub open spec fn swap_char(c: char, r: Seq<char>) -> spec_fn(char) -> Seq<char> {
    |x: char| if x == c { r } else { seq![x] }
}

/// `map_chars` of a concatenation.
pub proof fn lemma_map_chars_concat(a: Seq<char>, b: Seq<char>, f: spec_fn(char) -> Seq<char>)
    ensures
        map_chars(a + b, f) == map_chars(a, f) + map_chars(b, f),
    decreases b.len(),
{
    if b.len() == 0 {
        assert(a + b =~= a);
        assert(map_chars(b, f) =~= Seq::<char>::empty());
        assert(map_chars(a, f) + Seq::<char>::empty() =~= map_chars(a, f));
    } else {
        lemma_map_chars_concat(a, b.drop_last(), f);
        assert((a + b).drop_last() =~= a + b.drop_last());
        assert((a + b).last() == b.last());
        assert(map_chars(a, f) + map_chars(b.drop_last(), f) + f(b.last()) =~= map_chars(a, f) + (map_chars(
            b.drop_last(),
            f,
        ) + f(b.last())));
    }
}

/// `map_chars` of one character.
pub proof fn lemma_map_chars_single(x: char, f: spec_fn(char) -> Seq<char>)
    ensures
        map_chars(seq![x], f) == f(x),
{
    assert(seq![x].drop_last() =~= Seq::<char>::empty());
    assert(map_chars(Seq::<char>::empty(), f) =~= Seq::<char>::empty());
    assert(Seq::<char>::empty() + f(x) =~= f(x));
}

/// Mapping twice is mapping once with the composed writing.
pub proof fn lemma_map_chars_compose(s: Seq<char>, f: spec_fn(char) -> Seq<char>, g: spec_fn(char) -> Seq<char>)
    ensures
        map_chars(map_chars(s, f), g) == map_chars(s, |x: char| map_chars(f(x), g)),
    decreases s.len(),
{
    if s.len() > 0 {
        lemma_map_chars_compose(s.drop_last(), f, g);
        lemma_map_chars_concat(map_chars(s.drop_last(), f), f(s.last()), g);
    }
}

/// Characters written as themselves leave the text as it is.
pub proof fn lemma_map_chars_identity(s: Seq<char>, f: spec_fn(char) -> Seq<char>)
    requires
        forall|i: int| 0 <= i < s.len() ==> f(#[trigger] s[i]) == seq![s[i]],
    ensures
        map_chars(s, f) == s,
    decreases s.len(),
{
    if s.len() > 0 {
        assert(f(s[s.len() - 1]) == seq![s.last()]);
        lemma_map_chars_identity(s.drop_last(), f);
        assert(s.drop_last().push(s.last()) =~= s);
        assert(s.drop_last() + seq![s.last()] =~= s);
    }
}

/// Two writings that agree on every character give the same text.
pub proof fn lemma_map_chars_agree(s: Seq<char>, f: spec_fn(char) -> Seq<char>, g: spec_fn(char) -> Seq<char>)
    requires
        forall|x: char| #[trigger] f(x) == g(x),
    ensures
        map_chars(s, f) == map_chars(s, g),
    decreases s.len(),
{
    if s.len() > 0 {
        lemma_map_chars_agree(s.drop_last(), f, g);
    }
}

/// Replacing a one-character pattern writes that character anew and
/// leaves the others.
pub proof fn lemma_replace_char(s: Seq<char>, c: char, r: Seq<char>)
    ensures
        replaced(s, seq![c], r) == map_chars(s, swap_char(c, r)),
    decreases s.len(),
{
    if s.len() > 0 {
        lemma_replace_char(s.skip(1), c, r);
        assert(s =~= seq![s[0]] + s.skip(1));
        lemma_map_chars_concat(seq![s[0]], s.skip(1), swap_char(c, r));
        lemma_map_chars_single(s[0], swap_char(c, r));
        assert(s.take(1) =~= seq![s[0]]);
        if s[0] == c {
            assert(s.take(1) == seq![c]);
        } else {
            assert(s.take(1) != seq![c]) by {
                assert(s.take(1)[0] != seq![c][0]);
            }
        }
    }
}


/// A property that holds of every character that `f` writes holds of
/// every character of a mapped text.
pub proof fn lemma_map_chars_all(s: Seq<char>, f: spec_fn(char) -> Seq<char>, p: spec_fn(char) -> bool)
    requires
        forall|x: char, j: int| 0 <= j < f(x).len() ==> p(#[trigger] f(x)[j]),
    ensures
        forall|j: int| 0 <= j < map_chars(s, f).len() ==> p(#[trigger] map_chars(s, f)[j]),
    decreases s.len(),
{
    if s.len() > 0 {
        lemma_map_chars_all(s.drop_last(), f, p);
        let a = map_chars(s.drop_last(), f);
        let b = f(s.last());
        assert forall|j: int| 0 <= j < (a + b).len() implies p(#[trigger] (a + b)[j]) by {
            if j < a.len() {
                assert((a + b)[j] == a[j]);
            } else {
                assert((a + b)[j] == b[j - a.len()]);
            }
        }
    }
}


/// Appends bytes to a buffer.
pub fn append_bytes(out: &mut Vec<u8>, bytes: &[u8])
    ensures
        final(out)@ == old(out)@ + bytes@,
{
    let ghost start = out@;
    let mut k: usize = 0;
    while k < bytes.len()
        invariant
            k <= bytes.len(),
            out@ == start + bytes@.take(k as int),
        decreases bytes.len() - k,
    {
        out.push(bytes[k]);
        assert(bytes@.take(k + 1) =~= bytes@.take(k as int).push(bytes@[k as int]));
        k = k + 1;
    }
    assert(bytes@.take(bytes.len() as int) =~= bytes@);
}

/// Appends the UTF-8 bytes of a text to a buffer.
pub fn append_text(out: &mut Vec<u8>, s: &str)
    ensures
        final(out)@ == old(out)@ + encode_utf8(s@),
{
    append_bytes(out, s.as_bytes());
}

} // verus!
