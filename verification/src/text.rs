//! Character-level text helpers shared by the configuration and history modules.
//!
//! Strings are reasoned about through their view, a `Seq<char>`.  The few
//! std string functions used here are wrapped with contracts taken from their
//! documentation; everything else is written over `Vec<char>` and verified.
use vstd::prelude::*;

verus! {

/// Unicode `White_Space` (the set `char::is_whitespace` and `str::trim` use).
pub open spec fn is_ws(c: char) -> bool {
    ||| ('\u{9}' <= c && c <= '\u{d}')
    ||| c == ' '
    ||| c == '\u{85}'
    ||| c == '\u{a0}'
    ||| c == '\u{1680}'
    ||| ('\u{2000}' <= c && c <= '\u{200a}')
    ||| c == '\u{2028}'
    ||| c == '\u{2029}'
    ||| c == '\u{202f}'
    ||| c == '\u{205f}'
    ||| c == '\u{3000}'
}

pub open spec fn trim_start(s: Seq<char>) -> Seq<char>
    decreases s.len(),
{
    if s.len() > 0 && is_ws(s[0]) {
        trim_start(s.drop_first())
    } else {
        s
    }
}

pub open spec fn trim_end(s: Seq<char>) -> Seq<char>
    decreases s.len(),
{
    if s.len() > 0 && is_ws(s.last()) {
        trim_end(s.drop_last())
    } else {
        s
    }
}

/// `s` without leading and trailing white space.
pub open spec fn trim(s: Seq<char>) -> Seq<char> {
    trim_end(trim_start(s))
}

/// True when `s` holds nothing but white space (`s.trim().is_empty()`).
pub open spec fn is_blank(s: Seq<char>) -> bool {
    trim(s).len() == 0
}

/// A text that ends in a character other than white space is not blank.
pub proof fn lemma_not_blank_by_last(s: Seq<char>)
    requires
        s.len() > 0,
        !is_ws(s.last()),
    ensures
        !is_blank(s),
{
    lemma_trim_start_keeps_last(s);
    let t = trim_start(s);
    assert(trim_end(t) == t);
}

proof fn lemma_trim_start_keeps_last(s: Seq<char>)
    requires
        s.len() > 0,
        !is_ws(s.last()),
    ensures
        trim_start(s).len() > 0,
        trim_start(s).last() == s.last(),
    decreases s.len(),
{
    if is_ws(s[0]) {
        assert(s.len() > 1);
        assert(s.drop_first().last() == s.last());
        lemma_trim_start_keeps_last(s.drop_first());
    }
}

/// Path separators of both Unix and Windows.
pub open spec fn is_sep(c: char) -> bool {
    c == '/' || c == '\\'
}

/// `s` without trailing path separators.
pub open spec fn trim_end_seps(s: Seq<char>) -> Seq<char>
    decreases s.len(),
{
    if s.len() > 0 && is_sep(s.last()) {
        trim_end_seps(s.drop_last())
    } else {
        s
    }
}

/// What `str::to_lowercase` returns for `s` (full Unicode lower-casing,
/// including the context-dependent final sigma).
pub uninterp spec fn lowercase(s: Seq<char>) -> Seq<char>;

pub open spec fn is_ascii_alnum(c: char) -> bool {
    ||| ('0' <= c && c <= '9')
    ||| ('a' <= c && c <= 'z')
    ||| ('A' <= c && c <= 'Z')
}

pub open spec fn ascii_lower(c: char) -> char {
    if 'A' <= c && c <= 'Z' {
        ((c as u32) + 32) as char
    } else {
        c
    }
}

/// The text of an optional string slice.
pub open spec fn opt_str(o: Option<&str>) -> Option<Seq<char>> {
    match o {
        Some(s) => Some(s@),
        None => None,
    }
}

/// The text of an optional string.
pub open spec fn opt_string(o: Option<String>) -> Option<Seq<char>> {
    match o {
        Some(s) => Some(s@),
        None => None,
    }
}

/// The text an optional string holds, borrowed.
pub fn opt_as_str(o: &Option<String>) -> (r: Option<&str>)
    ensures
        opt_str(r) == opt_string(*o),
{
    match o {
        Some(s) => Some(s.as_str()),
        None => None,
    }
}

/// What a file holding `current` is to be overwritten with: `new`, unless it
/// already holds exactly that.
pub open spec fn replacement(new: Seq<char>, current: Seq<char>) -> Option<Seq<char>> {
    if new == current {
        None
    } else {
        Some(new)
    }
}

/// `str::trim`: removes leading and trailing characters with the Unicode
/// `White_Space` property, as its documentation states.
#[verifier::external_body]
pub(crate) fn str_trim(s: &str) -> (r: &str)
    ensures
        r@ == trim(s@),
{
    s.trim()
}

/// `str::trim_end_matches` with the pattern `['/', '\\']`: removes every
/// trailing slash and backslash.
#[verifier::external_body]
pub(crate) fn str_trim_end_seps(s: &str) -> (r: &str)
    ensures
        r@ == trim_end_seps(s@),
{
    s.trim_end_matches(['/', '\\'])
}

/// `str::to_lowercase`; its result depends on the argument alone.
#[verifier::external_body]
pub(crate) fn str_to_lowercase(s: &str) -> (r: String)
    ensures
        r@ == lowercase(s@),
{
    s.to_lowercase()
}

/// `str::chars`, collected: the characters of `s` in order.
#[verifier::external_body]
pub(crate) fn chars_of(s: &str) -> (r: Vec<char>)
    ensures
        r@ == s@,
{
    s.chars().collect()
}

/// `String::from_iter` over characters: the string made of `v` in order.
#[verifier::external_body]
pub(crate) fn string_of(v: &[char]) -> (r: String)
    ensures
        r@ == v@,
{
    v.iter().collect()
}

/// `char::to_ascii_lowercase`: maps `A`..`Z` to `a`..`z` and keeps every
/// other character.
#[verifier::external_body]
pub(crate) fn char_to_ascii_lowercase(c: char) -> (r: char)
    ensures
        r == ascii_lower(c),
{
    c.to_ascii_lowercase()
}

/// `char::is_ascii_alphanumeric`, written out.
pub fn ascii_alnum(c: char) -> (r: bool)
    ensures
        r == is_ascii_alnum(c),
{
    ('0' <= c && c <= '9') || ('a' <= c && c <= 'z') || ('A' <= c && c <= 'Z')
}

/// True when `s` is blank (`s.trim().is_empty()`).
pub fn blank(s: &str) -> (r: bool)
    ensures
        r == is_blank(s@),
{
    str_trim(s).unicode_len() == 0
}

/// A copy of `s`.
pub fn owned(s: &str) -> (r: String)
    ensures
        r@ == s@,
{
    s.to_string()
}

pub fn concat(a: &str, b: &str) -> (r: String)
    ensures
        r@ == a@ + b@,
{
    let mut r = a.to_string();
    r.append(b);
    r
}

/// `p` is a prefix of `s` (`str::starts_with`).
pub fn starts_with(s: &str, p: &str) -> (r: bool)
    ensures
        r == p@.is_prefix_of(s@),
{
    let sv = chars_of(s);
    let pv = chars_of(p);
    if pv.len() > sv.len() {
        return false;
    }
    let mut i: usize = 0;
    while i < pv.len()
        invariant
            pv@ == p@,
            sv@ == s@,
            pv.len() <= sv.len(),
            i <= pv.len(),
            forall|j: int| 0 <= j < i ==> pv@[j] == sv@[j],
        decreases pv.len() - i,
    {
        if pv[i] != sv[i] {
            return false;
        }
        i = i + 1;
    }
    assert(p@ =~= s@.subrange(0, p@.len() as int));
    true
}

/// `p` is a suffix of `s` (`str::ends_with`).
pub fn ends_with(s: &str, p: &str) -> (r: bool)
    ensures
        r == p@.is_suffix_of(s@),
{
    let sv = chars_of(s);
    let pv = chars_of(p);
    if pv.len() > sv.len() {
        return false;
    }
    let off = sv.len() - pv.len();
    let mut i: usize = 0;
    while i < pv.len()
        invariant
            pv@ == p@,
            sv@ == s@,
            off + pv.len() == sv.len(),
            i <= pv.len(),
            forall|j: int| 0 <= j < i ==> pv@[j] == sv@[off + j],
        decreases pv.len() - i,
    {
        if pv[i] != sv[off + i] {
            assert(s@.subrange(off as int, s@.len() as int)[i as int] == sv@[off + i]);
            return false;
        }
        i = i + 1;
    }
    assert(p@ =~= s@.subrange(off as int, s@.len() as int));
    true
}

/// `c` occurs in `s`.
pub fn contains_char(s: &str, c: char) -> (r: bool)
    ensures
        r == s@.contains(c),
{
    let sv = chars_of(s);
    let mut i: usize = 0;
    while i < sv.len()
        invariant
            sv@ == s@,
            i <= sv.len(),
            forall|j: int| 0 <= j < i ==> sv@[j] != c,
        decreases sv.len() - i,
    {
        if sv[i] == c {
            assert(s@[i as int] == c);
            return true;
        }
        i = i + 1;
    }
    false
}

/// `a` and `b` hold the same characters.
pub fn same_chars(a: &Vec<char>, b: &Vec<char>) -> (r: bool)
    ensures
        r == (a@ == b@),
{
    if a.len() != b.len() {
        return false;
    }
    let mut i: usize = 0;
    while i < a.len()
        invariant
            a.len() == b.len(),
            i <= a.len(),
            forall|j: int| 0 <= j < i ==> a@[j] == b@[j],
        decreases a.len() - i,
    {
        if a[i] != b[i] {
            return false;
        }
        i = i + 1;
    }
    assert(a@ =~= b@);
    true
}

/// `a` and `b` hold the same characters.
pub fn same_text(a: &str, b: &str) -> (r: bool)
    ensures
        r == (a@ == b@),
{
    let av = chars_of(a);
    let bv = chars_of(b);
    if av.len() != bv.len() {
        return false;
    }
    let mut i: usize = 0;
    while i < av.len()
        invariant
            av@ == a@,
            bv@ == b@,
            av.len() == bv.len(),
            i <= av.len(),
            forall|j: int| 0 <= j < i ==> av@[j] == bv@[j],
        decreases av.len() - i,
    {
        if av[i] != bv[i] {
            return false;
        }
        i = i + 1;
    }
    assert(a@ =~= b@);
    true
}

/// The characters of `v` from `from` up to `to`, as a string.
pub fn chars_range(v: &Vec<char>, from: usize, to: usize) -> (r: String)
    requires
        from <= to <= v@.len(),
    ensures
        r@ == v@.subrange(from as int, to as int),
{
    let mut out: Vec<char> = Vec::new();
    let mut i = from;
    while i < to
        invariant
            from <= i <= to,
            to <= v@.len(),
            out@ == v@.subrange(from as int, i as int),
        decreases to - i,
    {
        out.push(v[i]);
        i = i + 1;
        assert(out@ =~= v@.subrange(from as int, i as int));
    }
    string_of(out.as_slice())
}

/// The first line of `text`, the line ending after it and the rest: the
/// first `\r\n` anywhere in the text is looked for first, then the first
/// `\n`, then the first `\r`; a text with none of them is one line, with
/// `unended` as its ending.  `None` for the empty text.
pub open spec fn line_split(text: Seq<char>, unended: Seq<char>) -> Option<(Seq<char>, Seq<char>, Seq<char>)> {
    match find(text, seq!['\r', '\n']) {
        Some(i) => Some((text.take(i), seq!['\r', '\n'], text.skip(i + 2))),
        None => match find(text, seq!['\n']) {
            Some(i) => Some((text.take(i), seq!['\n'], text.skip(i + 1))),
            None => match find(text, seq!['\r']) {
                Some(i) => Some((text.take(i), seq!['\r'], text.skip(i + 1))),
                None => if text.len() > 0 {
                    Some((text, unended, Seq::<char>::empty()))
                } else {
                    None
                },
            },
        },
    }
}

/// Splits off the first line of `text` (see `line_split`).
pub fn split_line(text: &str, unended: &str) -> (r: Option<(String, String, String)>)
    ensures
        match line_split(text@, unended@) {
            Some((a, b, c)) => r matches Some((x, y, z)) && x@ == a && y@ == b && z@ == c,
            None => r is None,
        },
{
    let v = chars_of(text);
    let n = v.len();
    let mut crlf: Vec<char> = Vec::new();
    crlf.push('\r');
    crlf.push('\n');
    let mut lf: Vec<char> = Vec::new();
    lf.push('\n');
    let mut cr: Vec<char> = Vec::new();
    cr.push('\r');
    assert(crlf@ =~= seq!['\r', '\n']);
    assert(lf@ =~= seq!['\n']);
    assert(cr@ =~= seq!['\r']);
    let found = find_in(&v, &crlf);
    assert(found matches Some(i) ==> i + crlf@.len() <= v@.len());
    assert(crlf@.len() == 2);
    if let Some(i) = found {
        assert(i + 2 <= v@.len());
        let after = i + 2;
        let head = chars_range(&v, 0, i);
        let tail = chars_range(&v, after, v.len());
        return Some((head, string_of(crlf.as_slice()), tail));
    }
    if let Some(i) = find_in(&v, &lf) {
        assert(i + 1 <= v@.len());
        let after = i + 1;
        let head = chars_range(&v, 0, i);
        let tail = chars_range(&v, after, v.len());
        return Some((head, string_of(lf.as_slice()), tail));
    }
    if let Some(i) = find_in(&v, &cr) {
        assert(i + 1 <= v@.len());
        let after = i + 1;
        let head = chars_range(&v, 0, i);
        let tail = chars_range(&v, after, v.len());
        return Some((head, string_of(cr.as_slice()), tail));
    }
    if v.len() > 0 {
        assert(v@.subrange(0, v@.len() as int) =~= v@);
        Some((chars_range(&v, 0, v.len()), unended.to_string(), String::new()))
    } else {
        None
    }
}

// ---------------------------------------------------------------------------
// Splitting and joining
// ---------------------------------------------------------------------------

/// The pieces of `s` between occurrences of `sep` (`str::split` with a char
/// pattern): `n` separators give `n + 1` pieces, some of them empty.
pub open spec fn split(s: Seq<char>, sep: char) -> Seq<Seq<char>>
    decreases s.len(),
{
    if s.len() == 0 {
        seq![Seq::<char>::empty()]
    } else {
        let parts = split(s.drop_last(), sep);
        if s.last() == sep {
            parts.push(Seq::<char>::empty())
        } else {
            parts.update(parts.len() - 1, parts.last().push(s.last()))
        }
    }
}

/// The pieces of `parts` put together with `sep` between neighbours
/// (`[T]::join`).
pub open spec fn join(parts: Seq<Seq<char>>, sep: Seq<char>) -> Seq<char>
    decreases parts.len(),
{
    if parts.len() == 0 {
        Seq::<char>::empty()
    } else if parts.len() == 1 {
        parts[0]
    } else {
        join(parts.drop_last(), sep) + sep + parts.last()
    }
}

pub proof fn lemma_split_nonempty(s: Seq<char>, sep: char)
    ensures
        split(s, sep).len() >= 1,
    decreases s.len(),
{
    if s.len() > 0 {
        lemma_split_nonempty(s.drop_last(), sep);
    }
}

/// A text without `sep` is one piece.
pub proof fn lemma_split_no_sep(f: Seq<char>, sep: char)
    requires
        !f.contains(sep),
    ensures
        split(f, sep) == seq![f],
    decreases f.len(),
{
    if f.len() == 0 {
        assert(f =~= Seq::<char>::empty());
    } else {
        let d = f.drop_last();
        assert(!d.contains(sep)) by {
            if d.contains(sep) {
                let k = choose|k: int| 0 <= k < d.len() && d[k] == sep;
                assert(f[k] == sep);
            }
        }
        lemma_split_no_sep(d, sep);
        assert(f[f.len() - 1] != sep);
        assert(d.push(f.last()) =~= f);
        assert(split(f, sep) =~= seq![f]);
    }
}

/// The first piece of a text whose first `sep` follows `f` is `f`.
pub proof fn lemma_split_first(f: Seq<char>, r: Seq<char>, sep: char)
    requires
        !f.contains(sep),
    ensures
        split(f + seq![sep] + r, sep).len() >= 2,
        split(f + seq![sep] + r, sep)[0] == f,
    decreases r.len(),
{
    let s = f + seq![sep] + r;
    if r.len() == 0 {
        assert(s.drop_last() =~= f);
        lemma_split_no_sep(f, sep);
    } else {
        lemma_split_first(f, r.drop_last(), sep);
        assert(s.drop_last() =~= f + seq![sep] + r.drop_last());
    }
}

/// Splits `v` at every `sep`.
pub fn split_chars(v: &Vec<char>, sep: char) -> (r: Vec<Vec<char>>)
    ensures
        r@.len() == split(v@, sep).len(),
        forall|i: int| 0 <= i < r@.len() ==> #[trigger] r@[i]@ == split(v@, sep)[i],
{
    let mut parts: Vec<Vec<char>> = Vec::new();
    parts.push(Vec::new());
    let mut i: usize = 0;
    assert(v@.take(0) =~= Seq::<char>::empty());
    while i < v.len()
        invariant
            i <= v.len(),
            parts@.len() == split(v@.take(i as int), sep).len(),
            parts@.len() >= 1,
            forall|j: int| 0 <= j < parts@.len() ==> #[trigger] parts@[j]@ == split(v@.take(i as int), sep)[j],
        decreases v.len() - i,
    {
        let c = v[i];
        assert(v@.take(i + 1).drop_last() =~= v@.take(i as int));
        assert(v@.take(i + 1).last() == c);
        if c == sep {
            parts.push(Vec::new());
        } else {
            let last = parts.len() - 1;
            let mut piece = parts.pop().unwrap();
            piece.push(c);
            parts.push(piece);
            assert(parts@.len() == split(v@.take(i + 1), sep).len());
            assert forall|j: int| 0 <= j < parts@.len() implies #[trigger] parts@[j]@ == split(v@.take(i + 1), sep)[j] by {
                if j < last {
                } else {
                }
            }
        }
        i = i + 1;
    }
    assert(v@.take(v@.len() as int) =~= v@);
    parts
}

/// Puts `parts` together with `sep` between neighbours.
pub fn join_chars(parts: &Vec<Vec<char>>, sep: &Vec<char>) -> (r: Vec<char>)
    ensures
        r@ == join(parts@.map_values(|p: Vec<char>| p@), sep@),
{
    let ghost views = parts@.map_values(|p: Vec<char>| p@);
    let mut out: Vec<char> = Vec::new();
    let mut i: usize = 0;
    while i < parts.len()
        invariant
            i <= parts.len(),
            views == parts@.map_values(|p: Vec<char>| p@),
            out@ == join(views.take(i as int), sep@),
        decreases parts.len() - i,
    {
        assert(views.take(i + 1).drop_last() =~= views.take(i as int));
        if i > 0 {
            let mut k: usize = 0;
            let ghost before = out@;
            while k < sep.len()
                invariant
                    k <= sep.len(),
                    out@ == before + sep@.take(k as int),
                decreases sep.len() - k,
            {
                out.push(sep[k]);
                k = k + 1;
                assert(out@ =~= before + sep@.take(k as int));
            }
            assert(sep@.take(sep@.len() as int) =~= sep@);
        }
        let ghost before2 = out@;
        let piece = &parts[i];
        let mut k: usize = 0;
        while k < piece.len()
            invariant
                k <= piece.len(),
                out@ == before2 + piece@.take(k as int),
            decreases piece.len() - k,
        {
            out.push(piece[k]);
            k = k + 1;
            assert(out@ =~= before2 + piece@.take(k as int));
        }
        assert(piece@.take(piece@.len() as int) =~= piece@);
        if i == 0 {
            assert(views.take(1) =~= seq![piece@]);
            assert(out@ =~= piece@);
        }
        i = i + 1;
    }
    assert(views.take(parts@.len() as int) =~= views);
    out
}

// ---------------------------------------------------------------------------
// Lines
// ---------------------------------------------------------------------------

/// `s` without one trailing carriage return.
pub open spec fn strip_cr(s: Seq<char>) -> Seq<char> {
    if s.len() > 0 && s.last() == '\r' {
        s.drop_last()
    } else {
        s
    }
}

/// `str::lines`: the pieces between line feeds, each without the carriage
/// return that precedes its line feed; a final line feed ends the last line
/// and opens none.
pub open spec fn lines(s: Seq<char>) -> Seq<Seq<char>> {
    let parts = split(s, '\n');
    let n = parts.len();
    let ended = Seq::new((n - 1) as nat, |i: int| strip_cr(parts[i]));
    if parts[n - 1].len() == 0 {
        ended
    } else {
        ended.push(parts[n - 1])
    }
}

/// The lines of `s`, as `str::lines` gives them.
pub fn lines_of(s: &str) -> (r: Vec<String>)
    ensures
        r@.len() == lines(s@).len(),
        forall|i: int| 0 <= i < r@.len() ==> #[trigger] r@[i]@ == lines(s@)[i],
{
    let v = chars_of(s);
    let parts = split_chars(&v, '\n');
    proof {
        lemma_split_nonempty(s@, '\n');
    }
    let n = parts.len();
    let mut out: Vec<String> = Vec::new();
    let mut i: usize = 0;
    while i + 1 < n
        invariant
            n == parts@.len(),
            n >= 1,
            v@ == s@,
            parts@.len() == split(v@, '\n').len(),
            forall|j: int| 0 <= j < parts@.len() ==> #[trigger] parts@[j]@ == split(v@, '\n')[j],
            i + 1 <= n,
            out@.len() == i,
            forall|j: int| 0 <= j < i ==> #[trigger] out@[j]@ == strip_cr(split(s@, '\n')[j]),
        decreases n - i,
    {
        let piece = &parts[i];
        let k = piece.len();
        let line = if k > 0 && piece[k - 1] == '\r' {
            let mut p = piece.clone();
            p.pop();
            assert(p@ =~= piece@.drop_last());
            string_of(p.as_slice())
        } else {
            string_of(piece.as_slice())
        };
        out.push(line);
        i = i + 1;
    }
    let last = &parts[n - 1];
    if last.len() > 0 {
        out.push(string_of(last.as_slice()));
    }
    out
}

/// The first line of `s`, or the empty text where there is none
/// (`s.lines().next().unwrap_or_default()`).
pub open spec fn first_line(s: Seq<char>) -> Seq<char> {
    if lines(s).len() > 0 {
        lines(s)[0]
    } else {
        Seq::<char>::empty()
    }
}

pub fn first_line_of(s: &str) -> (r: String)
    ensures
        r@ == first_line(s@),
{
    let ls = lines_of(s);
    if ls.len() > 0 {
        ls[0].clone()
    } else {
        String::new()
    }
}

// ---------------------------------------------------------------------------
// Searching
// ---------------------------------------------------------------------------

/// `pat` occurs in `s` at position `i`.
pub open spec fn occurs_at(s: Seq<char>, pat: Seq<char>, i: int) -> bool {
    0 <= i && i + pat.len() <= s.len() && s.subrange(i, i + pat.len()) == pat
}

/// The first position at which `pat` occurs in `s` (`str::find`).
#[verifier::opaque]
pub open spec fn find(s: Seq<char>, pat: Seq<char>) -> Option<int> {
    if exists|i: int| occurs_at(s, pat, i) {
        Some(choose|i: int| occurs_at(s, pat, i) && forall|j: int| 0 <= j < i ==> !occurs_at(s, pat, j))
    } else {
        None
    }
}

/// `find` gives the first position of an occurrence.
pub proof fn lemma_find_first(s: Seq<char>, pat: Seq<char>, i: int)
    requires
        occurs_at(s, pat, i),
        forall|j: int| 0 <= j < i ==> !occurs_at(s, pat, j),
    ensures
        find(s, pat) == Some(i),
{
    reveal(find);
    let w = choose|w: int| occurs_at(s, pat, w) && forall|j: int| 0 <= j < w ==> !occurs_at(s, pat, j);
    assert(w == i) by {
        if w < i {
        } else if w > i {
        }
    }
}

proof fn lemma_first_occurrence(s: Seq<char>, pat: Seq<char>, i: int)
    requires
        occurs_at(s, pat, i),
    ensures
        exists|m: int| occurs_at(s, pat, m) && forall|j: int| 0 <= j < m ==> !occurs_at(s, pat, j),
    decreases i,
{
    if exists|j: int| 0 <= j < i && occurs_at(s, pat, j) {
        let j = choose|j: int| 0 <= j < i && occurs_at(s, pat, j);
        lemma_first_occurrence(s, pat, j);
    } else {
        assert(occurs_at(s, pat, i) && forall|j: int| 0 <= j < i ==> !occurs_at(s, pat, j));
    }
}

/// What `find` gives is an occurrence, the first one.
pub proof fn lemma_find_some(s: Seq<char>, pat: Seq<char>)
    ensures
        find(s, pat) matches Some(i) ==> occurs_at(s, pat, i) && forall|j: int| 0 <= j < i ==> !occurs_at(s, pat, j),
{
    reveal(find);
    if exists|i: int| occurs_at(s, pat, i) {
        let i = choose|i: int| occurs_at(s, pat, i);
        lemma_first_occurrence(s, pat, i);
    }
}

/// `find` finds nothing where `pat` does not occur, and only then.
pub proof fn lemma_find_none(s: Seq<char>, pat: Seq<char>)
    ensures
        find(s, pat) is None <==> forall|j: int| !occurs_at(s, pat, j),
{
    reveal(find);
}

/// A line with no line break in it put in place of the first line of
/// `text` (with its ending and the rest kept) is the first line of the new
/// text, where a text with no line break at all is given a line feed.
pub proof fn lemma_line_split_new_head(text: Seq<char>, c: Seq<char>)
    requires
        line_split(text, seq!['\n']) is Some,
        !c.contains('\n'),
        !c.contains('\r'),
    ensures
        ({
            let (_, e, r) = line_split(text, seq!['\n'])->0;
            line_split(c + e + r, seq!['\n']) == Some((c, e, r))
        }),
{
    let crlf = seq!['\r', '\n'];
    let lf = seq!['\n'];
    let cr = seq!['\r'];
    let (f, e, r) = line_split(text, seq!['\n'])->0;
    let s = c + e + r;
    let n = c.len() as int;
    lemma_find_none(text, crlf);
    lemma_find_some(text, crlf);
    lemma_find_none(text, lf);
    lemma_find_some(text, lf);
    lemma_find_some(text, cr);
    assert forall|j: int| 0 <= j < n implies !occurs_at(s, crlf, j) && !occurs_at(s, lf, j) && !occurs_at(s, cr, j) by {
        assert(s[j] == c[j]);
        if occurs_at(s, crlf, j) {
            assert(s.subrange(j, j + 2)[0] == s[j]);
        }
        if occurs_at(s, lf, j) {
            assert(s.subrange(j, j + 1)[0] == s[j]);
        }
        if occurs_at(s, cr, j) {
            assert(s.subrange(j, j + 1)[0] == s[j]);
        }
    }
    match find(text, crlf) {
        Some(i) => {
            assert(r == text.skip(i + 2));
            assert(s.subrange(n, n + 2) =~= crlf);
            lemma_find_first(s, crlf, n);
            assert(s.take(n) =~= c);
            assert(s.skip(n + 2) =~= r);
        },
        None => {
            // No carriage return is followed by a line feed anywhere in `s`.
            let breaks_in_r = match find(text, lf) {
                Some(i) => i + 1,
                None => match find(text, cr) {
                    Some(i) => i + 1,
                    None => text.len() as int,
                },
            };
            assert(r =~= text.skip(breaks_in_r)) by {
                if find(text, lf) is None && find(text, cr) is None {
                    assert(r =~= Seq::<char>::empty());
                }
            }
            assert forall|j: int| !occurs_at(s, crlf, j) by {
                if occurs_at(s, crlf, j) {
                    assert(s[j] == '\r' && s[j + 1] == '\n') by {
                        assert(s.subrange(j, j + 2)[0] == s[j]);
                        assert(s.subrange(j, j + 2)[1] == s[j + 1]);
                    }
                    if j == n {
                        // `e` starts at `n`: it is `\n` or `\r`, and after a `\r` the
                        // text holds no line feed.
                        if e == cr {
                            let k = breaks_in_r;
                            assert(s[j + 1] == text[k]);
                            assert(occurs_at(text, lf, k)) by {
                                assert(text.subrange(k, k + 1) =~= lf);
                            }
                        }
                    } else if j > n {
                        let k = breaks_in_r + (j - n - e.len());
                        assert(s[j] == text[k] && s[j + 1] == text[k + 1]);
                        assert(occurs_at(text, crlf, k)) by {
                            assert(text.subrange(k, k + 2) =~= crlf);
                        }
                    }
                }
            }
            lemma_find_none(s, crlf);
            if e == lf {
                assert(s.subrange(n, n + 1) =~= lf);
                lemma_find_first(s, lf, n);
                assert(s.take(n) =~= c);
                assert(s.skip(n + 1) =~= r);
            } else {
                assert(e == cr);
                assert forall|j: int| !occurs_at(s, lf, j) by {
                    if occurs_at(s, lf, j) {
                        assert(s[j] == '\n') by {
                            assert(s.subrange(j, j + 1)[0] == s[j]);
                        }
                        if j > n {
                            let k = breaks_in_r + (j - n - 1);
                            assert(s[j] == text[k]);
                            assert(occurs_at(text, lf, k)) by {
                                assert(text.subrange(k, k + 1) =~= lf);
                            }
                        }
                    }
                }
                lemma_find_none(s, lf);
                assert(s.subrange(n, n + 1) =~= cr);
                lemma_find_first(s, cr, n);
                assert(s.take(n) =~= c);
                assert(s.skip(n + 1) =~= r);
            }
        },
    }
}

pub fn find_in(s: &Vec<char>, pat: &Vec<char>) -> (r: Option<usize>)
    ensures
        r matches Some(i) ==> find(s@, pat@) == Some(i as int) && i + pat@.len() <= s@.len(),
        r is None ==> find(s@, pat@) is None,
{
    reveal(find);
    if pat.len() > s.len() {
        assert(forall|i: int| !occurs_at(s@, pat@, i));
        return None;
    }
    let mut i: usize = 0;
    while i <= s.len() - pat.len()
        invariant
            pat.len() <= s.len(),
            i <= s.len() - pat.len() + 1,
            forall|j: int| 0 <= j < i ==> !occurs_at(s@, pat@, j),
        decreases s.len() - i,
    {
        let mut k: usize = 0;
        let mut hit = true;
        while k < pat.len()
            invariant
                k <= pat.len(),
                i + pat.len() <= s.len(),
                hit == forall|m: int| 0 <= m < k ==> s@[i + m] == pat@[m],
            decreases pat.len() - k,
        {
            if s[i + k] != pat[k] {
                hit = false;
            }
            k = k + 1;
        }
        if hit {
            assert(s@.subrange(i as int, i + pat@.len()) =~= pat@);
            assert(occurs_at(s@, pat@, i as int));
            let ghost w = choose|w: int| occurs_at(s@, pat@, w) && forall|j: int| 0 <= j < w ==> !occurs_at(s@, pat@, j);
            assert(w == i) by {
                if w < i {
                } else if w > i {
                }
            }
            assert(i + pat@.len() <= s@.len());
            proof {
                reveal(find);
                assert(find(s@, pat@) == Some(i as int));
            }
            return Some(i);
        }
        assert(!occurs_at(s@, pat@, i as int)) by {
            if occurs_at(s@, pat@, i as int) {
                let m = choose|m: int| 0 <= m < pat.len() && s@[i + m] != pat@[m];
                assert(s@.subrange(i as int, i + pat@.len())[m] == s@[i + m]);
            }
        }
        i = i + 1;
    }
    assert forall|j: int| !occurs_at(s@, pat@, j) by {
        if j >= i {
        }
    }
    None
}

// ---------------------------------------------------------------------------
// Decimal numbers
// ---------------------------------------------------------------------------

pub open spec fn digit(d: nat) -> char {
    ((d + 48) as u32) as char
}

/// The decimal digits of `n`, most significant first, without leading zeros.
pub open spec fn decimal(n: nat) -> Seq<char>
    decreases n,
{
    if n < 10 {
        seq![digit(n)]
    } else {
        decimal(n / 10).push(digit(n % 10))
    }
}

pub proof fn lemma_decimal_len(n: nat)
    ensures
        decimal(n).len() >= 1,
        n >= 10 ==> decimal(n).len() >= 2,
    decreases n,
{
    if n >= 10 {
        lemma_decimal_len(n / 10);
    }
}

/// Different numbers have different decimal forms.
pub proof fn lemma_decimal_injective(a: nat, b: nat)
    requires
        decimal(a) == decimal(b),
    ensures
        a == b,
    decreases a,
{
    lemma_decimal_len(a);
    lemma_decimal_len(b);
    if a < 10 && b < 10 {
        assert(decimal(a)[0] == digit(a));
        assert(decimal(b)[0] == digit(b));
    } else if a < 10 {
        assert(decimal(a).len() == 1);
    } else if b < 10 {
        assert(decimal(b).len() == 1);
    } else {
        assert(decimal(a).last() == digit(a % 10));
        assert(decimal(b).last() == digit(b % 10));
        assert(decimal(a).drop_last() =~= decimal(a / 10));
        assert(decimal(b).drop_last() =~= decimal(b / 10));
        lemma_decimal_injective(a / 10, b / 10);
    }
}

/// `usize::to_string`: the decimal digits of `n`.
#[verifier::external_body]
pub(crate) fn usize_to_decimal(n: usize) -> (r: String)
    ensures
        r@ == decimal(n as nat),
{
    n.to_string()
}

} // verus!
