//! Reading what the system says about the Codex desktop app: the process
//! listings used to count or stop it, and the command-line and Store
//! locations it may be installed at.
use vstd::prelude::*;

use crate::order::{lex_lt, sort_stable, sorted_stable, SortKey};
use crate::text::{
    chars_of, concat, join, decimal, find, find_in, lines, lines_of, lowercase, starts_with, str_to_lowercase,
    str_trim, trim, usize_to_decimal,
};

verus! {

// ---------------------------------------------------------------------------
// Windows process listing
// ---------------------------------------------------------------------------

/// The lines that name `codex.exe`, in any case.
pub open spec fn codex_line_count(ls: Seq<Seq<char>>) -> nat
    decreases ls.len(),
{
    if ls.len() == 0 {
        0
    } else {
        codex_line_count(ls.drop_last()) + if find(lowercase(ls.last()), "codex.exe"@) is Some {
            1nat
        } else {
            0nat
        }
    }
}

/// How many lines of a `tasklist` listing name `codex.exe`.
pub fn count_codex_lines(output: &str) -> (r: usize)
    ensures
        r == codex_line_count(lines(output@)),
{
    let ls = lines_of(output);
    let ghost lv = lines(output@);
    let pattern = chars_of("codex.exe");
    let mut count: usize = 0;
    let mut i: usize = 0;
    while i < ls.len()
        invariant
            i <= ls@.len(),
            ls@.len() == lv.len(),
            forall|j: int| 0 <= j < ls@.len() ==> #[trigger] ls@[j]@ == lv[j],
            pattern@ == "codex.exe"@,
            count == codex_line_count(lv.take(i as int)),
            count <= i,
        decreases ls@.len() - i,
    {
        assert(lv.take(i + 1).drop_last() =~= lv.take(i as int));
        assert(lv.take(i + 1).last() == ls@[i as int]@);
        let lower = str_to_lowercase(ls[i].as_str());
        let lv_chars = chars_of(lower.as_str());
        if find_in(&lv_chars, &pattern).is_some() {
            count = count + 1;
        }
        i = i + 1;
    }
    assert(lv.take(lv.len() as int) =~= lv);
    count
}

// ---------------------------------------------------------------------------
// Process ids
// ---------------------------------------------------------------------------

pub open spec fn is_digit(c: char) -> bool {
    '0' <= c && c <= '9'
}

/// The value of a text of decimal digits.
pub open spec fn digits_value(s: Seq<char>) -> int
    decreases s.len(),
{
    if s.len() == 0 {
        0
    } else {
        digits_value(s.drop_last()) * 10 + (s.last() as int - '0' as int)
    }
}

pub open spec fn all_digits(s: Seq<char>) -> bool {
    s.len() > 0 && forall|i: int| 0 <= i < s.len() ==> is_digit(#[trigger] s[i])
}

/// What `str::parse::<i32>` reads from `s`: an optional `+` or `-` and then
/// decimal digits, of a value that fits in an `i32`.
pub open spec fn parsed_i32(s: Seq<char>) -> Option<int> {
    let signed = s.len() > 0 && (s[0] == '+' || s[0] == '-');
    let digits = if signed {
        s.drop_first()
    } else {
        s
    };
    let v = if signed && s[0] == '-' {
        -digits_value(digits)
    } else {
        digits_value(digits)
    };
    if all_digits(digits) && i32::MIN <= v <= i32::MAX {
        Some(v)
    } else {
        None
    }
}

/// The text `i32::to_string` writes for `v`.
pub open spec fn i32_text(v: int) -> Seq<char> {
    if v < 0 {
        seq!['-'] + decimal((-v) as nat)
    } else {
        decimal(v as nat)
    }
}

proof fn lemma_digits_value_nonneg(s: Seq<char>)
    requires
        forall|i: int| 0 <= i < s.len() ==> is_digit(#[trigger] s[i]),
    ensures
        digits_value(s) >= 0,
    decreases s.len(),
{
    if s.len() > 0 {
        lemma_digits_value_nonneg(s.drop_last());
    }
}

/// Reads an `i32` as `str::parse` does.
pub fn parse_i32(s: &str) -> (r: Option<i32>)
    ensures
        match parsed_i32(s@) {
            Some(v) => r == Some(v as i32),
            None => r is None,
        },
{
    let v = chars_of(s);
    let n = v.len();
    let signed = n > 0 && (v[0] == '+' || v[0] == '-');
    let negative = signed && v[0] == '-';
    let start: usize = if signed {
        1
    } else {
        0
    };
    let ghost digits = if signed {
        s@.drop_first()
    } else {
        s@
    };
    assert(digits =~= v@.skip(start as int));
    if start == n {
        assert(!all_digits(digits));
        return None;
    }
    let limit: u64 = 2147483648;
    let mut acc: u64 = 0;
    let mut too_big = false;
    let mut i = start;
    while i < n
        invariant
            start <= i <= n,
            n == v@.len(),
            v@ == s@,
            digits == v@.skip(start as int),
            forall|k: int| start <= k < i ==> is_digit(#[trigger] v@[k]),
            !too_big ==> acc == digits_value(v@.subrange(start as int, i as int)) && acc <= limit,
            too_big ==> digits_value(v@.subrange(start as int, i as int)) > limit,
            limit == 2147483648,
            digits == (if s@.len() > 0 && (s@[0] == '+' || s@[0] == '-') {
                s@.drop_first()
            } else {
                s@
            }),
        decreases n - i,
    {
        let c = v[i];
        if !('0' <= c && c <= '9') {
            assert(digits[i - start] == c);
            assert(!all_digits(digits));
            return None;
        }
        let ghost prev = v@.subrange(start as int, i as int);
        assert(v@.subrange(start as int, i + 1).drop_last() =~= prev);
        proof {
            lemma_digits_value_nonneg(prev);
        }
        if !too_big {
            let d = (c as u32 - '0' as u32) as u64;
            let next = acc * 10 + d;
            if next > limit {
                too_big = true;
            } else {
                acc = next;
            }
        }
        i = i + 1;
    }
    assert(v@.subrange(start as int, n as int) =~= digits);
    assert(all_digits(digits));
    if too_big {
        return None;
    }
    if negative {
        let r = (0i64 - acc as i64) as i32;
        Some(r)
    } else if acc <= 2147483647 {
        Some(acc as i32)
    } else {
        None
    }
}

/// The text of an `i32`.
pub fn i32_to_text(v: i32) -> (r: String)
    ensures
        r@ == i32_text(v as int),
{
    proof {
        reveal_strlit("-");
        assert("-"@ =~= seq!['-']);
    }
    if v < 0 {
        let magnitude = (0i64 - v as i64) as usize;
        assert(magnitude as nat == (-v) as nat);
        concat("-", usize_to_decimal(magnitude).as_str())
    } else {
        usize_to_decimal(v as usize)
    }
}

/// The process ids a `pgrep` listing gives: each line, trimmed, that reads
/// as an `i32`, written again as `i32::to_string` writes it.
pub open spec fn pid_texts(ls: Seq<Seq<char>>) -> Seq<Seq<char>>
    decreases ls.len(),
{
    if ls.len() == 0 {
        Seq::empty()
    } else {
        let before = pid_texts(ls.drop_last());
        match parsed_i32(trim(ls.last())) {
            Some(v) => before.push(i32_text(v)),
            None => before,
        }
    }
}

/// The process ids of a `pgrep` listing.
pub fn process_ids(output: &str) -> (r: Vec<String>)
    ensures
        r@.map_values(|s: String| s@) == pid_texts(lines(output@)),
{
    let ls = lines_of(output);
    let ghost lv = lines(output@);
    let mut out: Vec<String> = Vec::new();
    let mut i: usize = 0;
    while i < ls.len()
        invariant
            i <= ls@.len(),
            ls@.len() == lv.len(),
            forall|j: int| 0 <= j < ls@.len() ==> #[trigger] ls@[j]@ == lv[j],
            out@.map_values(|s: String| s@) == pid_texts(lv.take(i as int)),
        decreases ls@.len() - i,
    {
        assert(lv.take(i + 1).drop_last() =~= lv.take(i as int));
        assert(lv.take(i + 1).last() == ls@[i as int]@);
        let line = str_trim(ls[i].as_str());
        match parse_i32(line) {
            Some(pid) => {
                let text = i32_to_text(pid);
                let ghost before = out@;
                out.push(text);
                assert(out@.map_values(|s: String| s@) =~= before.map_values(|s: String| s@).push(text@));
            },
            None => {},
        }
        i = i + 1;
    }
    assert(lv.take(lv.len() as int) =~= lv);
    out
}

// ---------------------------------------------------------------------------
// Install locations
// ---------------------------------------------------------------------------

/// The lines of a `where.exe` listing, trimmed, without the blank ones.
pub open spec fn listed_lines(ls: Seq<Seq<char>>) -> Seq<Seq<char>>
    decreases ls.len(),
{
    if ls.len() == 0 {
        Seq::empty()
    } else {
        let before = listed_lines(ls.drop_last());
        if trim(ls.last()).len() > 0 {
            before.push(trim(ls.last()))
        } else {
            before
        }
    }
}

/// The paths a `where.exe` listing names.
pub fn listed_paths(output: &str) -> (r: Vec<String>)
    ensures
        r@.map_values(|s: String| s@) == listed_lines(lines(output@)),
{
    let ls = lines_of(output);
    let ghost lv = lines(output@);
    let mut out: Vec<String> = Vec::new();
    let mut i: usize = 0;
    while i < ls.len()
        invariant
            i <= ls@.len(),
            ls@.len() == lv.len(),
            forall|j: int| 0 <= j < ls@.len() ==> #[trigger] ls@[j]@ == lv[j],
            out@.map_values(|s: String| s@) == listed_lines(lv.take(i as int)),
        decreases ls@.len() - i,
    {
        assert(lv.take(i + 1).drop_last() =~= lv.take(i as int));
        assert(lv.take(i + 1).last() == ls@[i as int]@);
        let line = str_trim(ls[i].as_str());
        if line.unicode_len() > 0 {
            let ghost before = out@;
            out.push(line.to_string());
            assert(out@.map_values(|s: String| s@) =~= before.map_values(|s: String| s@).push(line@));
        }
        i = i + 1;
    }
    assert(lv.take(lv.len() as int) =~= lv);
    out
}

/// A directory name of the Store package of Codex.
pub open spec fn store_package(name: Seq<char>) -> bool {
    "OpenAI.Codex_"@.is_prefix_of(name)
}

/// A directory name, ordered by its text.
pub struct PackageDir {
    pub name: String,
}

impl SortKey for PackageDir {
    open spec fn key_view(&self) -> Seq<Seq<char>> {
        seq![self.name@]
    }

    fn sort_key(&self) -> (r: Vec<Vec<char>>)
        ensures
            r.deep_view() == self.key_view(),
    {
        let mut r: Vec<Vec<char>> = Vec::new();
        r.push(chars_of(self.name.as_str()));
        assert(r.deep_view()[0] =~= r@[0]@);
        assert(r.deep_view() =~= self.key_view());
        r
    }
}

/// The entries of `names` that are Store packages of Codex, in order.
pub open spec fn store_packages(names: Seq<String>) -> Seq<PackageDir>
    decreases names.len(),
{
    if names.len() == 0 {
        Seq::empty()
    } else {
        let before = store_packages(names.drop_last());
        if store_package(names.last()@) {
            before.push(PackageDir { name: names.last() })
        } else {
            before
        }
    }
}

/// The Store packages of Codex among the directory names `names` of
/// `WindowsApps`, newest version (greatest name) first.
pub fn codex_store_packages(names: &Vec<String>) -> (r: Vec<PackageDir>)
    ensures
        r@ == sorted_stable(store_packages(names@), true),
{
    let mut found: Vec<PackageDir> = Vec::new();
    let mut i: usize = 0;
    while i < names.len()
        invariant
            i <= names@.len(),
            found@ == store_packages(names@.take(i as int)),
        decreases names@.len() - i,
    {
        assert(names@.take(i + 1).drop_last() =~= names@.take(i as int));
        if starts_with(names[i].as_str(), "OpenAI.Codex_") {
            found.push(PackageDir { name: names[i].clone() });
        }
        i = i + 1;
    }
    assert(names@.take(names@.len() as int) =~= names@);
    sort_stable(found, true)
}

// ---------------------------------------------------------------------------
// Starting Codex on Windows
// ---------------------------------------------------------------------------

/// The texts of a list of strings.
pub open spec fn texts(v: Seq<String>) -> Seq<Seq<char>> {
    v.map_values(|s: String| s@)
}

/// `parts` joined with `sep` between each two.
pub fn join_texts(parts: &Vec<String>, sep: &str) -> (r: String)
    ensures
        r@ == join(texts(parts@), sep@),
{
    let mut out = String::new();
    let mut i: usize = 0;
    while i < parts.len()
        invariant
            i <= parts.len(),
            out@ == join(texts(parts@.take(i as int)), sep@),
        decreases parts.len() - i,
    {
        proof {
            assert(texts(parts@.take(i + 1)).drop_last() =~= texts(parts@.take(i as int)));
            assert(texts(parts@.take(i + 1)).last() == parts@[i as int]@);
        }
        if i == 0 {
            out = parts[i].clone();
            proof {
                assert(texts(parts@.take(1)) =~= seq![parts@[0]@]);
            }
        } else {
            let with_sep = concat(out.as_str(), sep);
            out = concat(with_sep.as_str(), parts[i].as_str());
        }
        i = i + 1;
    }
    assert(parts@.take(parts@.len() as int) =~= parts@);
    out
}

/// What is tried, in order, to start Codex on Windows: each install found,
/// then `codex.exe` and `codex` looked up on the path.
pub open spec fn launch_order(found: Seq<Seq<char>>) -> Seq<Seq<char>> {
    found + seq!["codex.exe"@, "codex"@]
}

pub fn windows_launch_order(found: &Vec<String>) -> (r: Vec<String>)
    ensures
        texts(r@) == launch_order(texts(found@)),
{
    let mut r: Vec<String> = Vec::new();
    let mut i: usize = 0;
    while i < found.len()
        invariant
            i <= found.len(),
            r@.len() == i,
            forall|j: int| 0 <= j < i ==> (#[trigger] r@[j])@ == found@[j]@,
        decreases found.len() - i,
    {
        let item = found[i].clone();
        r.push(item);
        i = i + 1;
    }
    r.push("codex.exe".to_string());
    r.push("codex".to_string());
    assert(texts(r@) =~= launch_order(texts(found@)));
    r
}

/// How one failed start is reported: what was tried, then the error in
/// brackets.
pub fn launch_failure_entry(target: &str, error: &str) -> (r: String)
    ensures
        r@ == target@ + " ("@ + error@ + ")"@,
{
    let a = concat(target, " (");
    let b = concat(a.as_str(), error);
    concat(b.as_str(), ")")
}

/// The message when Codex could not be started: the advice, the failed
/// starts (where there were any), and the install locations searched.
pub open spec fn launch_failure_message(failures: Seq<Seq<char>>, searched: Seq<Seq<char>>) -> Seq<char> {
    "Codex executable could not be opened. Install Codex or ensure codex.exe is on PATH."@ + (if failures.len()
        == 0 {
        Seq::empty()
    } else {
        " Launch failures: "@ + join(failures, "; "@) + "."@
    }) + " Searched: "@ + join(searched, ", "@)
}

pub fn launch_failure_text(failures: &Vec<String>, searched: &Vec<String>) -> (r: String)
    ensures
        r@ == launch_failure_message(texts(failures@), texts(searched@)),
{
    let mut out = "Codex executable could not be opened. Install Codex or ensure codex.exe is on PATH.".to_string();
    if failures.len() > 0 {
        let listed = join_texts(failures, "; ");
        out = concat(out.as_str(), " Launch failures: ");
        out = concat(out.as_str(), listed.as_str());
        out = concat(out.as_str(), ".");
    }
    let places = join_texts(searched, ", ");
    out = concat(out.as_str(), " Searched: ");
    out = concat(out.as_str(), places.as_str());
    out
}

} // verus!
