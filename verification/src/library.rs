//! Importing Markdown files into a collection: which files count as
//! Markdown, what each is called, and the natural order they are listed in.

use vstd::prelude::*;

use crate::model::StudioFile;
use crate::text::{chars_of, decimal_chars, digit_char, string_from_chars};

verus! {

/// What `Path::file_name` gives for a path (the last normal component),
/// as text; `None` where there is none or it is not UTF-8. Which
/// characters separate components is fixed by the platform the crate is
/// built for (`/` on Unix, `/` and `\` on Windows), so within one build
/// this is a function of the path alone.
pub uninterp spec fn path_file_name(path: Seq<char>) -> Option<Seq<char>>;

/// `Path::new(path).file_name()` as a string. The contract claims only
/// that the result is a function of the path: how std splits a path into
/// components is not restated.
#[verifier::external_body]
fn file_name_of(path: &str) -> (name: Option<String>)
    ensures
        match name {
            Some(n) => path_file_name(path@) == Some(n@),
            None => path_file_name(path@) is None,
        },
{
    std::path::Path::new(path).file_name().and_then(|n| n.to_str()).map(|n| n.to_string())
}

/// The index of the last `.` in `s`, if any.
pub open spec fn last_dot(s: Seq<char>) -> Option<nat>
    decreases s.len(),
{
    if s.len() == 0 {
        None
    } else if s.last() == '.' {
        Some((s.len() - 1) as nat)
    } else {
        last_dot(s.drop_last())
    }
}

/// The stem of a file name as `Path::file_stem` documents it: the whole
/// name where it has no `.` or only a leading one, else the part before
/// the last `.`.
pub open spec fn stem_of_name(name: Seq<char>) -> Seq<char> {
    match last_dot(name) {
        Some(k) => if k == 0 {
            name
        } else {
            name.take(k as int)
        },
        None => name,
    }
}

/// The extension of a file name as `Path::extension` documents it: none
/// where the name has no `.` or only a leading one, else the part after
/// the last `.`.
pub open spec fn extension_of_name(name: Seq<char>) -> Option<Seq<char>> {
    match last_dot(name) {
        Some(k) => if k == 0 {
            None
        } else {
            Some(name.skip(k as int + 1))
        },
        None => None,
    }
}

proof fn lemma_last_dot(s: Seq<char>, k: int)
    requires
        -1 <= k < s.len(),
        forall|j: int| k < j < s.len() ==> s[j] != '.',
        k >= 0 ==> s[k] == '.',
    ensures
        last_dot(s) == (if k < 0 {
            None
        } else {
            Some(k as nat)
        }),
    decreases s.len(),
{
    if s.len() > 0 && k < s.len() - 1 {
        lemma_last_dot(s.drop_last(), k);
    }
}

/// The index of the last `.` of a name.
fn find_last_dot(cs: &Vec<char>) -> (r: Option<usize>)
    ensures
        match r {
            Some(k) => k < cs.len() && last_dot(cs@) == Some(k as nat),
            None => last_dot(cs@) is None,
        },
{
    let mut k = cs.len();
    while k > 0 && cs[k - 1] != '.'
        invariant
            k <= cs.len(),
            forall|j: int| k <= j < cs.len() ==> cs@[j] != '.',
        decreases k,
    {
        k = k - 1;
    }
    proof {
        lemma_last_dot(cs@, k - 1);
    }
    if k == 0 {
        None
    } else {
        Some(k - 1)
    }
}

/// The name an imported file is shown under: the stem of its file name,
/// or `Untitled` where the path has no file name.
pub open spec fn display_name(path: Seq<char>) -> Seq<char> {
    match path_file_name(path) {
        Some(n) => stem_of_name(n),
        None => "Untitled"@,
    }
}

/// The stem of a file name (`Path::file_stem` on the name alone).
pub fn stem_of(name: &str) -> (stem: String)
    ensures
        stem@ == stem_of_name(name@),
{
    let cs = chars_of(name);
    match find_last_dot(&cs) {
        Some(k) => {
            if k == 0 {
                string_from_chars(&cs, 0, cs.len())
            } else {
                string_from_chars(&cs, 0, k)
            }
        },
        None => string_from_chars(&cs, 0, cs.len()),
    }
}

/// The name an imported file is shown under: its file stem, or `Untitled`.
pub fn display_name_of(path: &str) -> (name: String)
    ensures
        name@ == display_name(path@),
{
    match file_name_of(path) {
        Some(n) => stem_of(n.as_str()),
        None => String::from_str("Untitled"),
    }
}

/// An imported file: the file's text under its display name, with the
/// path it came from.
pub fn imported_file(path: String, content: String) -> (f: StudioFile)
    ensures
        f.name@ == display_name(path@),
        f.path == Some(path),
        f.content == content,
{
    let name = display_name_of(path.as_str());
    StudioFile { name, path: Some(path), content }
}

/// A character folded to ASCII lower case (only `A`–`Z` change).
pub open spec fn ascii_lower(c: char) -> char {
    if 'A' <= c && c <= 'Z' {
        ((c as u32) + 32) as char
    } else {
        c
    }
}

/// A text folded to ASCII lower case (`str::to_ascii_lowercase`).
pub open spec fn ascii_lowered(s: Seq<char>) -> Seq<char> {
    s.map_values(|c: char| ascii_lower(c))
}

fn lower_char(c: char) -> (r: char)
    ensures
        r == ascii_lower(c),
{
    if 'A' <= c && c <= 'Z' {
        ((c as u8) + 32) as char
    } else {
        c
    }
}

/// Whether two texts are equal ignoring ASCII case (`eq_ignore_ascii_case`).
pub open spec fn same_ignoring_ascii_case(a: Seq<char>, b: Seq<char>) -> bool {
    ascii_lowered(a) == ascii_lowered(b)
}

/// Whether a path names a Markdown file: its extension is `md` or
/// `markdown`, in any ASCII case.
pub open spec fn is_markdown_path(path: Seq<char>) -> bool {
    match path_file_name(path) {
        Some(n) => is_markdown_name(n),
        None => false,
    }
}

fn eq_ignore_case(a: &Vec<char>, from: usize, b: &str) -> (r: bool)
    requires
        from <= a.len(),
    ensures
        r == same_ignoring_ascii_case(a@.skip(from as int), b@),
{
    let bs = chars_of(b);
    let ghost x = a@.skip(from as int);
    if a.len() - from != bs.len() {
        assert(ascii_lowered(x).len() != ascii_lowered(b@).len());
        return false;
    }
    let mut i: usize = 0;
    while i < bs.len()
        invariant
            from <= a.len(),
            x == a@.skip(from as int),
            bs@ == b@,
            a.len() - from == bs.len(),
            i <= bs.len(),
            forall|j: int| 0 <= j < i ==> ascii_lower(x[j]) == ascii_lower(b@[j]),
        decreases bs.len() - i,
    {
        if lower_char(a[from + i]) != lower_char(bs[i]) {
            assert(ascii_lowered(x)[i as int] != ascii_lowered(b@)[i as int]);
            return false;
        }
        i = i + 1;
    }
    assert(ascii_lowered(x) =~= ascii_lowered(b@));
    true
}

/// Whether a file name has the extension `md` or `markdown`, in any ASCII
/// case.
pub open spec fn is_markdown_name(name: Seq<char>) -> bool {
    match extension_of_name(name) {
        Some(e) => same_ignoring_ascii_case(e, "md"@) || same_ignoring_ascii_case(e, "markdown"@),
        None => false,
    }
}

/// Whether a file name is a Markdown file's (`.md` or `.markdown`, any case).
pub fn markdown_name(name: &str) -> (r: bool)
    ensures
        r == is_markdown_name(name@),
{
    let cs = chars_of(name);
    match find_last_dot(&cs) {
        Some(k) => {
            if k == 0 {
                false
            } else {
                eq_ignore_case(&cs, k + 1, "md") || eq_ignore_case(&cs, k + 1, "markdown")
            }
        },
        None => false,
    }
}

/// Whether a path names a Markdown file (`.md` or `.markdown`, any case).
pub fn markdown_path(path: &str) -> (r: bool)
    ensures
        r == is_markdown_path(path@),
{
    match file_name_of(path) {
        Some(n) => markdown_name(n.as_str()),
        None => false,
    }
}

/// Whether `c` is an ASCII digit.
pub open spec fn is_ascii_digit(c: char) -> bool {
    '0' <= c && c <= '9'
}

/// `s` from its first ASCII digit on.
pub open spec fn skip_non_digits(s: Seq<char>) -> Seq<char>
    decreases s.len(),
{
    if s.len() == 0 || is_ascii_digit(s[0]) {
        s
    } else {
        skip_non_digits(s.drop_first())
    }
}

/// The length of the run of ASCII digits that starts `s`.
pub open spec fn digit_run(s: Seq<char>) -> nat
    decreases s.len(),
{
    if s.len() == 0 || !is_ascii_digit(s[0]) {
        0
    } else {
        1 + digit_run(s.drop_first())
    }
}

/// The first run of ASCII digits in a name (empty where it has none).
pub open spec fn leading_digits(name: Seq<char>) -> Seq<char> {
    let t = skip_non_digits(name);
    t.take(digit_run(t) as int)
}

/// The value of a run of ASCII digits.
pub open spec fn digits_value(d: Seq<char>) -> nat
    decreases d.len(),
{
    if d.len() == 0 {
        0
    } else {
        digits_value(d.drop_last()) * 10 + ((d.last() as int) - 48) as nat
    }
}

/// A run of digits read as `str::parse::<u64>` reads it, with `u64::MAX`
/// where it does not parse (empty, or too large).
pub open spec fn number_of(d: Seq<char>) -> u64 {
    if d.len() == 0 || digits_value(d) > u64::MAX {
        u64::MAX
    } else {
        digits_value(d) as u64
    }
}

/// The sort key of a file name: the number its first run of digits
/// spells (`u64::MAX` where there is none), then the name in ASCII lower
/// case.
pub open spec fn name_key(name: Seq<char>) -> (u64, Seq<char>) {
    (number_of(leading_digits(name)), ascii_lowered(name))
}

/// The sort key of a path: that of its file name, or of the empty name.
pub open spec fn path_key(path: Seq<char>) -> (u64, Seq<char>) {
    name_key(
        match path_file_name(path) {
            Some(n) => n,
            None => Seq::empty(),
        },
    )
}

proof fn lemma_skip_non_digits(s: Seq<char>, k: int)
    requires
        0 <= k <= s.len(),
        forall|j: int| 0 <= j < k ==> !is_ascii_digit(#[trigger] s[j]),
        k == s.len() || is_ascii_digit(s[k]),
    ensures
        skip_non_digits(s) == s.skip(k),
    decreases k,
{
    if k == 0 {
        assert(s.skip(0) =~= s);
    } else {
        assert forall|j: int| 0 <= j < k - 1 implies !is_ascii_digit(#[trigger] s.drop_first()[j]) by {
            assert(s.drop_first()[j] == s[j + 1]);
        }
        lemma_skip_non_digits(s.drop_first(), k - 1);
        assert(s.drop_first().skip(k - 1) =~= s.skip(k));
    }
}

proof fn lemma_digit_run(s: Seq<char>, k: int)
    requires
        0 <= k <= s.len(),
        forall|j: int| 0 <= j < k ==> is_ascii_digit(#[trigger] s[j]),
        k == s.len() || !is_ascii_digit(s[k]),
    ensures
        digit_run(s) == k,
    decreases k,
{
    if k > 0 {
        assert forall|j: int| 0 <= j < k - 1 implies is_ascii_digit(#[trigger] s.drop_first()[j]) by {
            assert(s.drop_first()[j] == s[j + 1]);
        }
        lemma_digit_run(s.drop_first(), k - 1);
    }
}

/// The sort key of a file name.
pub fn natural_key_of_name(name: &str) -> (key: (u64, String))
    ensures
        key.0 == name_key(name@).0,
        key.1@ == name_key(name@).1,
{
    let cs = chars_of(name);
    let n = cs.len();
    let mut i: usize = 0;
    while i < n && !('0' <= cs[i] && cs[i] <= '9')
        invariant
            cs@ == name@,
            n == cs.len(),
            i <= n,
            forall|j: int| 0 <= j < i ==> !is_ascii_digit(#[trigger] cs@[j]),
        decreases n - i,
    {
        i = i + 1;
    }
    proof {
        lemma_skip_non_digits(name@, i as int);
    }
    let mut j = i;
    while j < n && '0' <= cs[j] && cs[j] <= '9'
        invariant
            cs@ == name@,
            n == cs.len(),
            i <= j <= n,
            forall|k: int| i <= k < j ==> is_ascii_digit(#[trigger] cs@[k]),
        decreases n - j,
    {
        j = j + 1;
    }
    let ghost t = name@.skip(i as int);
    proof {
        assert forall|k: int| 0 <= k < j - i implies is_ascii_digit(#[trigger] t[k]) by {
            assert(t[k] == cs@[i + k]);
        }
        lemma_digit_run(t, j - i);
        assert(leading_digits(name@) =~= name@.subrange(i as int, j as int));
    }
    let mut value: u64 = 0;
    let mut overflow = false;
    let mut k = i;
    assert(name@.subrange(i as int, i as int) =~= Seq::<char>::empty());
    while k < j
        invariant
            cs@ == name@,
            n == cs.len(),
            i <= k <= j <= n,
            forall|m: int| i <= m < j ==> is_ascii_digit(#[trigger] cs@[m]),
            !overflow ==> value == digits_value(name@.subrange(i as int, k as int)),
            overflow ==> digits_value(name@.subrange(i as int, k as int)) > u64::MAX,
        decreases j - k,
    {
        let d = (cs[k] as u32 - 48) as u64;
        assert(is_ascii_digit(cs@[k as int]));
        assert(name@.subrange(i as int, k + 1).drop_last() =~= name@.subrange(i as int, k as int));
        if !overflow {
            match value.checked_mul(10) {
                Some(m) => match m.checked_add(d) {
                    Some(v) => {
                        value = v;
                    },
                    None => {
                        overflow = true;
                    },
                },
                None => {
                    overflow = true;
                },
            }
        }
        k = k + 1;
    }
    let number = if j == i || overflow { u64::MAX } else { value };
    let mut lowered = String::new();
    let mut m: usize = 0;
    while m < n
        invariant
            cs@ == name@,
            n == cs.len(),
            m <= n,
            lowered@ == ascii_lowered(name@.take(m as int)),
        decreases n - m,
    {
        lowered.push(lower_char(cs[m]));
        assert(ascii_lowered(name@.take(m + 1)) =~= ascii_lowered(name@.take(m as int)).push(ascii_lower(cs@[m as int])));
        m = m + 1;
    }
    assert(name@.take(n as int) =~= name@);
    (number, lowered)
}

/// The sort key of a path, from its file name (`Path::file_name`).
pub fn natural_key(path: &str) -> (key: (u64, String))
    ensures
        key.0 == path_key(path@).0,
        key.1@ == path_key(path@).1,
{
    match file_name_of(path) {
        Some(n) => natural_key_of_name(n.as_str()),
        None => {
            let empty = String::new();
            natural_key_of_name(empty.as_str())
        },
    }
}

/// Lexicographic order of texts by code point (which is the order of
/// their UTF-8 bytes, `str`'s order).
pub open spec fn lex_less(a: Seq<char>, b: Seq<char>) -> bool
    decreases a.len(),
{
    if b.len() == 0 {
        false
    } else if a.len() == 0 {
        true
    } else if a[0] != b[0] {
        a[0] < b[0]
    } else {
        lex_less(a.drop_first(), b.drop_first())
    }
}

/// The order of sort keys: by number, then by lowered name.
pub open spec fn key_less(x: (u64, Seq<char>), y: (u64, Seq<char>)) -> bool {
    x.0 < y.0 || (x.0 == y.0 && lex_less(x.1, y.1))
}

/// The decimal writing of `n` is a non-empty run of ASCII digits that
/// reads back as `n`.
pub proof fn lemma_decimal_digits(n: nat)
    ensures
        decimal_chars(n).len() > 0,
        forall|j: int| 0 <= j < decimal_chars(n).len() ==> is_ascii_digit(#[trigger] decimal_chars(n)[j]),
        digits_value(decimal_chars(n)) == n,
    decreases n,
{
    let d = (n % 10) as int;
    assert(0 <= d < 10);
    let c = digit_char(d);
    assert(c as int == d + 48);
    if n < 10 {
        assert(decimal_chars(n) == seq![c]);
        assert(seq![c].drop_last() =~= Seq::<char>::empty());
        assert(digits_value(Seq::<char>::empty()) == 0);
        assert(digits_value(seq![c]) == digits_value(seq![c].drop_last()) * 10 + ((c as int) - 48) as nat);
        assert(d == n);
    } else {
        lemma_decimal_digits(n / 10);
        let s = decimal_chars(n);
        assert(s == decimal_chars(n / 10).push(c));
        assert(s.drop_last() =~= decimal_chars(n / 10));
        assert forall|j: int| 0 <= j < s.len() implies is_ascii_digit(#[trigger] s[j]) by {
            if j < s.len() - 1 {
                assert(s[j] == decimal_chars(n / 10)[j]);
            }
        }
        assert((n / 10) * 10 + n % 10 == n);
        assert(s.last() == c);
        assert(digits_value(s) == digits_value(s.drop_last()) * 10 + ((c as int) - 48) as nat);
    }
}

/// The first run of digits of `p + digits + s` is `digits`, where `p` has
/// no digit and `s` does not start with one.
proof fn lemma_leading_digits_of(p: Seq<char>, d: Seq<char>, s: Seq<char>)
    requires
        forall|j: int| 0 <= j < p.len() ==> !is_ascii_digit(#[trigger] p[j]),
        d.len() > 0,
        forall|j: int| 0 <= j < d.len() ==> is_ascii_digit(#[trigger] d[j]),
        s.len() == 0 || !is_ascii_digit(s[0]),
    ensures
        leading_digits(p + d + s) == d,
{
    let name = p + d + s;
    assert forall|j: int| 0 <= j < p.len() implies !is_ascii_digit(#[trigger] name[j]) by {
        assert(name[j] == p[j]);
    }
    assert(is_ascii_digit(name[p.len() as int])) by {
        assert(name[p.len() as int] == d[0]);
    }
    lemma_skip_non_digits(name, p.len() as int);
    let t = name.skip(p.len() as int);
    assert(t =~= d + s);
    assert forall|j: int| 0 <= j < d.len() implies is_ascii_digit(#[trigger] t[j]) by {
        assert(t[j] == d[j]);
    }
    if s.len() > 0 {
        assert(t[d.len() as int] == s[0]);
    }
    lemma_digit_run(t, d.len() as int);
    assert(t.take(d.len() as int) =~= d);
}

/// Natural order: two file names that differ only in the number written
/// where their digits begin sort by that number ("file2" before
/// "file10"), where the text before it has no digit, the text after it
/// does not start with one, and both numbers are below `u64::MAX`.
pub proof fn law_natural_number_order(p: Seq<char>, s: Seq<char>, a: nat, b: nat)
    requires
        forall|j: int| 0 <= j < p.len() ==> !is_ascii_digit(#[trigger] p[j]),
        s.len() == 0 || !is_ascii_digit(s[0]),
        a < b < u64::MAX,
    ensures
        key_less(name_key(p + decimal_chars(a) + s), name_key(p + decimal_chars(b) + s)),
        name_key(p + decimal_chars(a) + s).0 == a,
{
    lemma_decimal_digits(a);
    lemma_decimal_digits(b);
    lemma_leading_digits_of(p, decimal_chars(a), s);
    lemma_leading_digits_of(p, decimal_chars(b), s);
}

/// A file name whose first run of digits spells a number below
/// `u64::MAX` sorts before every file name without an ASCII digit.
pub proof fn law_numbered_names_first(x: Seq<char>, y: Seq<char>)
    requires
        number_of(leading_digits(x)) < u64::MAX,
        forall|j: int| 0 <= j < y.len() ==> !is_ascii_digit(#[trigger] y[j]),
    ensures
        key_less(name_key(x), name_key(y)),
{
    lemma_skip_non_digits(y, y.len() as int);
    assert(y.skip(y.len() as int) =~= Seq::<char>::empty());
    assert(leading_digits(y).len() == 0);
}

/// Lexicographic order by code point: `a` comes before `b` exactly when
/// `a` is a proper prefix of `b`, or at the first position where they
/// differ `a`'s character is the smaller, whatever their lengths.
pub proof fn law_lex_less_is_lexicographic(a: Seq<char>, b: Seq<char>)
    ensures
        lex_less(a, b) <==> (a.len() < b.len() && b.take(a.len() as int) == a) || exists|k: int|
            0 <= k < a.len() && k < b.len() && #[trigger] a.take(k) == b.take(k) && a[k] < b[k],
    decreases a.len(),
{
    if b.len() == 0 {
    } else if a.len() == 0 {
        assert(b.take(0) =~= a);
    } else if a[0] != b[0] {
        if a.len() < b.len() && b.take(a.len() as int) == a {
            assert(b.take(a.len() as int)[0] == b[0]);
        }
        if a[0] < b[0] {
            assert(a.take(0) =~= b.take(0));
        }
        assert forall|k: int| 0 < k < a.len() && k < b.len() implies #[trigger] a.take(k) != b.take(k) by {
            assert(a.take(k)[0] != b.take(k)[0]);
        }
    } else {
        let a1 = a.drop_first();
        let b1 = b.drop_first();
        law_lex_less_is_lexicographic(a1, b1);
        if a.len() < b.len() {
            if b.take(a.len() as int) == a {
                assert(b1.take(a1.len() as int) =~= a1) by {
                    assert forall|m: int| 0 <= m < a1.len() implies #[trigger] b1.take(a1.len() as int)[m] == a1[m] by {
                        assert(b.take(a.len() as int)[m + 1] == a[m + 1]);
                    }
                }
            }
            if b1.take(a1.len() as int) == a1 {
                assert(b.take(a.len() as int) =~= a) by {
                    assert forall|m: int| 0 <= m < a.len() implies #[trigger] b.take(a.len() as int)[m] == a[m] by {
                        if m > 0 {
                            assert(b1.take(a1.len() as int)[m - 1] == a1[m - 1]);
                        }
                    }
                }
            }
        }
        if exists|k: int| 0 <= k < a.len() && k < b.len() && #[trigger] a.take(k) == b.take(k) && a[k] < b[k] {
            let k = choose|k: int| 0 <= k < a.len() && k < b.len() && #[trigger] a.take(k) == b.take(k) && a[k] < b[k];
            assert(k > 0);
            assert(a1.take(k - 1) =~= b1.take(k - 1)) by {
                assert forall|m: int| 0 <= m < k - 1 implies #[trigger] a1.take(k - 1)[m] == b1.take(k - 1)[m] by {
                    assert(a.take(k)[m + 1] == b.take(k)[m + 1]);
                }
            }
            assert(a1[k - 1] < b1[k - 1]);
        }
        if exists|k: int| 0 <= k < a1.len() && k < b1.len() && #[trigger] a1.take(k) == b1.take(k) && a1[k] < b1[k] {
            let k = choose|k: int| 0 <= k < a1.len() && k < b1.len() && #[trigger] a1.take(k) == b1.take(k) && a1[k] < b1[k];
            assert(a.take(k + 1) =~= b.take(k + 1)) by {
                assert forall|m: int| 0 <= m < k + 1 implies #[trigger] a.take(k + 1)[m] == b.take(k + 1)[m] by {
                    if m > 0 {
                        assert(a1.take(k)[m - 1] == b1.take(k)[m - 1]);
                    }
                }
            }
            assert(a[k + 1] < b[k + 1]);
        }
    }
}

/// Lexicographic order is a strict total order.
pub proof fn lemma_lex_order(a: Seq<char>, b: Seq<char>, c: Seq<char>)
    ensures
        !lex_less(a, a),
        a == b || lex_less(a, b) || lex_less(b, a),
        !(lex_less(a, b) && lex_less(b, a)),
        lex_less(a, b) && lex_less(b, c) ==> lex_less(a, c),
    decreases a.len(),
{
    if a.len() > 0 {
        if b.len() > 0 && c.len() > 0 {
            lemma_lex_order(a.drop_first(), b.drop_first(), c.drop_first());
        } else if b.len() > 0 {
            lemma_lex_order(a.drop_first(), b.drop_first(), b.drop_first());
        } else {
            lemma_lex_order(a.drop_first(), a.drop_first(), a.drop_first());
        }
        if b.len() > 0 && a[0] == b[0] && a.drop_first() == b.drop_first() {
            assert forall|i: int| 0 <= i < a.len() implies a[i] == b[i] by {
                if i > 0 {
                    assert(a[i] == a.drop_first()[i - 1]);
                    assert(b[i] == b.drop_first()[i - 1]);
                }
            }
            assert(a =~= b);
        }
    } else if b.len() == 0 {
        assert(a =~= b);
    }
}

/// Compares two texts by code point.
fn lex_less_exec(a: &Vec<char>, b: &Vec<char>) -> (r: bool)
    ensures
        r == lex_less(a@, b@),
{
    let mut i: usize = 0;
    assert(a@.skip(0) =~= a@);
    assert(b@.skip(0) =~= b@);
    while i < a.len() && i < b.len() && a[i] == b[i]
        invariant
            i <= a.len(),
            i <= b.len(),
            lex_less(a@, b@) == lex_less(a@.skip(i as int), b@.skip(i as int)),
        decreases a.len() - i,
    {
        assert(a@.skip(i as int).drop_first() =~= a@.skip(i + 1));
        assert(b@.skip(i as int).drop_first() =~= b@.skip(i + 1));
        i = i + 1;
    }
    if i == b.len() {
        false
    } else if i == a.len() {
        true
    } else {
        a[i] < b[i]
    }
}

/// Whether item `a` comes before item `b` in a stable sort by key: a
/// smaller key, or an equal key and an earlier position.
pub open spec fn ranks_before(keys: Seq<(u64, Seq<char>)>, a: int, b: int) -> bool {
    key_less(keys[a], keys[b]) || (keys[a] == keys[b] && a < b)
}

/// Whether `order` lists the positions of `keys` as a stable sort by key
/// does: each position once, ordered by `ranks_before`.
pub open spec fn is_stable_order(keys: Seq<(u64, Seq<char>)>, order: Seq<usize>) -> bool {
    &&& order.len() == keys.len()
    &&& forall|k: int| 0 <= k < order.len() ==> #[trigger] order[k] < keys.len()
    &&& forall|a: int, b: int| 0 <= a < b < order.len() ==> ranks_before(keys, #[trigger] order[a] as int, #[trigger] order[b] as int)
}

/// The sort keys of the given paths.
pub open spec fn path_keys(paths: Seq<String>) -> Seq<(u64, Seq<char>)> {
    paths.map_values(|p: String| path_key(p@))
}

/// The positions of `paths` in natural order: by the number in the file
/// name, then by the name ignoring ASCII case, ties kept in input order.
#[verifier::spinoff_prover]
pub fn natural_order(paths: &Vec<String>) -> (order: Vec<usize>)
    ensures
        is_stable_order(path_keys(paths@), order@),
{
    let ghost keys = path_keys(paths@);
    let mut numbers: Vec<u64> = Vec::new();
    let mut names: Vec<Vec<char>> = Vec::new();
    let mut i: usize = 0;
    while i < paths.len()
        invariant
            i <= paths.len(),
            keys == path_keys(paths@),
            numbers.len() == i,
            names.len() == i,
            forall|k: int| 0 <= k < i ==> #[trigger] numbers@[k] == keys[k].0 && names@[k]@ == keys[k].1,
        decreases paths.len() - i,
    {
        let (number, lowered) = natural_key(paths[i].as_str());
        numbers.push(number);
        names.push(chars_of(lowered.as_str()));
        i = i + 1;
    }
    assert(i == paths.len());
    let mut order: Vec<usize> = Vec::new();
    let mut i: usize = 0;
    while i < paths.len()
        invariant
            i <= paths.len(),
            keys == path_keys(paths@),
            keys.len() == paths.len(),
            numbers.len() == paths.len(),
            names.len() == paths.len(),
            forall|k: int| 0 <= k < paths.len() ==> #[trigger] numbers@[k] == keys[k].0 && names@[k]@ == keys[k].1,
            order.len() == i,
            forall|k: int| 0 <= k < order.len() ==> #[trigger] order@[k] < i,
            forall|a: int, b: int| 0 <= a < b < order.len() ==> ranks_before(keys, #[trigger] order@[a] as int, #[trigger] order@[b] as int),
        decreases paths.len() - i,
    {
        let mut p: usize = 0;
        while p < order.len() && !(numbers[i] < numbers[order[p]] || (numbers[i] == numbers[order[p]]
            && lex_less_exec(&names[i], &names[order[p]])))
            invariant
                i < paths.len(),
                keys.len() == paths.len(),
                numbers.len() == paths.len(),
                names.len() == paths.len(),
                forall|k: int| 0 <= k < paths.len() ==> #[trigger] numbers@[k] == keys[k].0 && names@[k]@ == keys[k].1,
                forall|k: int| 0 <= k < order.len() ==> #[trigger] order@[k] < i,
                p <= order.len(),
                forall|q: int| 0 <= q < p ==> !key_less(keys[i as int], keys[#[trigger] order@[q] as int]),
            decreases order.len() - p,
        {
            p = p + 1;
        }
        let ghost old_order = order@;
        proof {
            assert forall|q: int| 0 <= q < p implies ranks_before(keys, #[trigger] old_order[q] as int, i as int) by {
                let kq = keys[old_order[q] as int];
                let ki = keys[i as int];
                lemma_lex_order(kq.1, ki.1, ki.1);
                if kq.0 == ki.0 && kq.1 == ki.1 {
                    assert(kq == ki);
                }
            }
            if p < old_order.len() {
                assert forall|q: int| p <= q < old_order.len() implies ranks_before(keys, i as int, #[trigger] old_order[q] as int) by {
                    let kp = keys[old_order[p as int] as int];
                    let kq = keys[old_order[q] as int];
                    let ki = keys[i as int];
                    if q > p {
                        assert(ranks_before(keys, old_order[p as int] as int, old_order[q] as int));
                    }
                    lemma_lex_order(ki.1, kp.1, kq.1);
                }
            }
        }
        order.insert(p, i);
        proof {
            assert forall|a: int, b: int| 0 <= a < b < order.len() implies ranks_before(keys, #[trigger] order@[a] as int, #[trigger] order@[b] as int) by {
                if a < p && b < p {
                    assert(order@[a] == old_order[a] && order@[b] == old_order[b]);
                } else if a < p && b == p {
                } else if a < p {
                    assert(order@[a] == old_order[a] && order@[b] == old_order[b - 1]);
                } else if a == p {
                    assert(order@[b] == old_order[b - 1]);
                } else {
                    assert(order@[a] == old_order[a - 1] && order@[b] == old_order[b - 1]);
                }
            }
        }
        i = i + 1;
    }
    order
}

/// Paths in natural order: sorted by the number in their file name, then
/// by name ignoring ASCII case, ties kept in the order given.
pub fn sort_paths_naturally(paths: &Vec<String>) -> (sorted: Vec<String>)
    ensures
        exists|order: Seq<usize>|
            is_stable_order(path_keys(paths@), order) && sorted@ == order.map_values(|k: usize| paths@[k as int]),
{
    let order = natural_order(paths);
    let mut sorted: Vec<String> = Vec::new();
    let mut k: usize = 0;
    while k < order.len()
        invariant
            is_stable_order(path_keys(paths@), order@),
            k <= order.len(),
            sorted@ == order@.take(k as int).map_values(|j: usize| paths@[j as int]),
        decreases order.len() - k,
    {
        assert(order@[k as int] < paths.len());
        sorted.push(paths[order[k]].clone());
        assert(order@.take(k + 1).map_values(|j: usize| paths@[j as int]) =~= order@.take(k as int).map_values(
            |j: usize| paths@[j as int],
        ).push(paths@[order@[k as int] as int]));
        k = k + 1;
    }
    assert(order@.take(order.len() as int) =~= order@);
    sorted
}


proof fn lemma_ranks_strict(keys: Seq<(u64, Seq<char>)>, a: int, b: int)
    ensures
        !ranks_before(keys, a, a),
        !(ranks_before(keys, a, b) && ranks_before(keys, b, a)),
{
    lemma_lex_order(keys[a].1, keys[b].1, keys[a].1);
}

/// A stable order lists every position.
proof fn lemma_order_covers(keys: Seq<(u64, Seq<char>)>, o: Seq<usize>, x: int)
    requires
        is_stable_order(keys, o),
        0 <= x < keys.len(),
    ensures
        exists|j: int| 0 <= j < o.len() && o[j] == x,
{
    let s = o.map_values(|v: usize| v as int);
    assert forall|a: int, b: int| 0 <= a < s.len() && 0 <= b < s.len() && a != b implies s[a] != s[b] by {
        if a < b {
            lemma_ranks_strict(keys, o[a] as int, o[b] as int);
        } else {
            lemma_ranks_strict(keys, o[b] as int, o[a] as int);
        }
    }
    assert(s.no_duplicates());
    s.unique_seq_to_set();
    let range = vstd::set_lib::set_int_range(0, keys.len() as int);
    vstd::set_lib::lemma_int_range(0, keys.len() as int);
    assert(s.to_set().subset_of(range)) by {
        assert forall|v: int| s.to_set().contains(v) implies range.contains(v) by {
            let j = choose|j: int| 0 <= j < s.len() && s[j] == v;
            assert(o[j] < keys.len());
        }
    }
    vstd::set_lib::lemma_len_subset(s.to_set(), range);
    vstd::set_lib::lemma_subset_equality(s.to_set(), range);
    assert(range.contains(x));
    assert(s.to_set().contains(x));
    let j = choose|j: int| 0 <= j < s.len() && s[j] == x;
    assert(o[j] == x);
}

proof fn lemma_orders_agree(keys: Seq<(u64, Seq<char>)>, o1: Seq<usize>, o2: Seq<usize>, k: int)
    requires
        is_stable_order(keys, o1),
        is_stable_order(keys, o2),
        0 <= k <= o1.len(),
    ensures
        forall|j: int| 0 <= j < k ==> o1[j] == o2[j],
    decreases k,
{
    if k > 0 {
        lemma_orders_agree(keys, o1, o2, k - 1);
        let i = k - 1;
        let x = o1[i];
        let y = o2[i];
        if x != y {
            lemma_order_covers(keys, o2, x as int);
            lemma_order_covers(keys, o1, y as int);
            let k2 = choose|j: int| 0 <= j < o2.len() && o2[j] == x;
            let k1 = choose|j: int| 0 <= j < o1.len() && o1[j] == y;
            if k2 < i {
                assert(o1[k2] == o2[k2]);
                lemma_ranks_strict(keys, x as int, x as int);
                assert(ranks_before(keys, o1[k2] as int, o1[i] as int));
            }
            if k1 < i {
                assert(o1[k1] == o2[k1]);
                assert(ranks_before(keys, o2[k1] as int, o2[i] as int));
                lemma_ranks_strict(keys, y as int, y as int);
            }
            assert(k2 > i && k1 > i);
            assert(ranks_before(keys, o2[i] as int, o2[k2] as int));
            assert(ranks_before(keys, o1[i] as int, o1[k1] as int));
            lemma_ranks_strict(keys, x as int, y as int);
        }
    }
}

/// Whether position `x` occurs in `order`.
pub open spec fn lists(order: Seq<usize>, x: int) -> bool {
    exists|j: int| 0 <= j < order.len() && order[j] == x
}

/// A natural order lists every position exactly once, so sorting keeps
/// every path and repeats none.
pub proof fn law_stable_order_is_permutation(keys: Seq<(u64, Seq<char>)>, order: Seq<usize>)
    requires
        is_stable_order(keys, order),
    ensures
        forall|x: int| 0 <= x < keys.len() ==> #[trigger] lists(order, x),
        forall|a: int, b: int| 0 <= a < order.len() && 0 <= b < order.len() && a != b ==> #[trigger] order[a] != #[trigger] order[b],
{
    assert forall|x: int| 0 <= x < keys.len() implies #[trigger] lists(order, x) by {
        lemma_order_covers(keys, order, x);
    }
    assert forall|a: int, b: int| 0 <= a < order.len() && 0 <= b < order.len() && a != b implies #[trigger] order[a] != #[trigger] order[b] by {
        if a < b {
            lemma_ranks_strict(keys, order[a] as int, order[b] as int);
        } else {
            lemma_ranks_strict(keys, order[b] as int, order[a] as int);
        }
    }
}

/// The natural order is unique: two orders that both list every position
/// once, by key and then by position, are the same order. So the sorted
/// list of paths is fully determined by the paths.
pub proof fn law_stable_order_unique(keys: Seq<(u64, Seq<char>)>, o1: Seq<usize>, o2: Seq<usize>)
    requires
        is_stable_order(keys, o1),
        is_stable_order(keys, o2),
    ensures
        o1 == o2,
{
    lemma_orders_agree(keys, o1, o2, o1.len() as int);
    assert(o1 =~= o2);
}

} // verus!
