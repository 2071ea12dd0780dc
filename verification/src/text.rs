//! Character-sequence utilities shared by the parsers and the renderer.
//!
//! Text is handled as `Vec<char>` in executable code and `Seq<char>` in
//! specifications; the spec functions here state what the `str` methods that
//! the parsers rely on (`trim`, `trim_matches`, `split`, `lines`, ...) compute.

use vstd::prelude::*;

verus! {

// ── Specifications ───────────────────────────────────────────────────────────

/// Unicode `White_Space` (what `char::is_whitespace` and `str::trim` use).
pub open spec fn is_ws(c: char) -> bool {
    let u = c as u32;
    (0x09 <= u && u <= 0x0D) || u == 0x20 || u == 0x85 || u == 0xA0 || u == 0x1680
        || (0x2000 <= u && u <= 0x200A) || u == 0x2028 || u == 0x2029 || u == 0x202F
        || u == 0x205F || u == 0x3000
}

/// `s` without its leading White_Space (`str::trim_start`).
pub open spec fn trim_start(s: Seq<char>) -> Seq<char>
    decreases s.len(),
{
    if s.len() > 0 && is_ws(s[0]) {
        trim_start(s.drop_first())
    } else {
        s
    }
}

/// `s` without its trailing White_Space (`str::trim_end`).
pub open spec fn trim_end(s: Seq<char>) -> Seq<char>
    decreases s.len(),
{
    if s.len() > 0 && is_ws(s.last()) {
        trim_end(s.drop_last())
    } else {
        s
    }
}

/// `str::trim`.
pub open spec fn trim(s: Seq<char>) -> Seq<char> {
    trim_end(trim_start(s))
}

/// Every character of `s` is White_Space (`s.trim().is_empty()`).
pub open spec fn is_blank(s: Seq<char>) -> bool {
    forall|i: int| 0 <= i < s.len() ==> is_ws(#[trigger] s[i])
}

/// Number of leading copies of `c` in `s`.
pub open spec fn run_len(s: Seq<char>, c: char) -> nat
    decreases s.len(),
{
    if s.len() > 0 && s[0] == c {
        1 + run_len(s.drop_first(), c)
    } else {
        0
    }
}

/// Number of leading `' '` characters.
pub open spec fn leading_spaces(s: Seq<char>) -> nat {
    run_len(s, ' ')
}

/// `str::trim_start_matches(c)`.
pub open spec fn trim_start_char(s: Seq<char>, c: char) -> Seq<char> {
    s.skip(run_len(s, c) as int)
}

/// `str::trim_end_matches(c)`.
pub open spec fn trim_end_char(s: Seq<char>, c: char) -> Seq<char>
    decreases s.len(),
{
    if s.len() > 0 && s.last() == c {
        trim_end_char(s.drop_last(), c)
    } else {
        s
    }
}

/// `str::trim_matches(c)`.
pub open spec fn trim_char(s: Seq<char>, c: char) -> Seq<char> {
    trim_end_char(trim_start_char(s, c), c)
}

/// `s` starts with `p`.
pub open spec fn starts_with(s: Seq<char>, p: Seq<char>) -> bool {
    p.len() <= s.len() && s.take(p.len() as int) == p
}

/// `s` ends with `p`.
pub open spec fn ends_with(s: Seq<char>, p: Seq<char>) -> bool {
    p.len() <= s.len() && s.skip(s.len() - p.len()) == p
}

/// The pieces of `rest` split at `c`, the first one prefixed by `cur`.
pub open spec fn split_from(rest: Seq<char>, c: char, cur: Seq<char>) -> Seq<Seq<char>>
    decreases rest.len(),
{
    if rest.len() == 0 {
        seq![cur]
    } else if rest[0] == c {
        seq![cur] + split_from(rest.drop_first(), c, Seq::empty())
    } else {
        split_from(rest.drop_first(), c, cur.push(rest[0]))
    }
}

/// `str::split(c)`: the pieces between the occurrences of `c`.
pub open spec fn split(s: Seq<char>, c: char) -> Seq<Seq<char>> {
    split_from(s, c, Seq::empty())
}

/// The pieces of `ls` joined with `sep` between them (`[T]::join`).
pub open spec fn join(ls: Seq<Seq<char>>, sep: char) -> Seq<char>
    decreases ls.len(),
{
    if ls.len() == 0 {
        Seq::empty()
    } else if ls.len() == 1 {
        ls[0]
    } else {
        join(ls.drop_last(), sep).push(sep) + ls.last()
    }
}

/// `str::replace("\r\n", "\n")`.
pub open spec fn replace_crlf(s: Seq<char>) -> Seq<char>
    decreases s.len(),
{
    if s.len() == 0 {
        s
    } else if s.len() >= 2 && s[0] == '\r' && s[1] == '\n' {
        seq!['\n'] + replace_crlf(s.skip(2))
    } else {
        seq![s[0]] + replace_crlf(s.drop_first())
    }
}

/// `str::replace('\r', "\n")`.
pub open spec fn replace_cr(s: Seq<char>) -> Seq<char> {
    s.map_values(|c: char| if c == '\r' { '\n' } else { c })
}

/// `str::lines` on text without carriage returns: the pieces between line
/// feeds, with no final empty line after a trailing line feed.
pub open spec fn lines(s: Seq<char>) -> Seq<Seq<char>> {
    if s.len() == 0 {
        Seq::empty()
    } else if s.last() == '\n' {
        split(s, '\n').drop_last()
    } else {
        split(s, '\n')
    }
}

// ── Executable counterparts ──────────────────────────────────────────────────

/// Adds a character at the end of a `String`.
pub assume_specification[ String::push ](s: &mut String, ch: char)
    ensures
        final(s)@ == old(s)@.push(ch),
;

pub fn is_ws_char(c: char) -> (r: bool)
    ensures
        r == is_ws(c),
{
    let u = c as u32;
    (0x09 <= u && u <= 0x0D) || u == 0x20 || u == 0x85 || u == 0xA0 || u == 0x1680 || (0x2000
        <= u && u <= 0x200A) || u == 0x2028 || u == 0x2029 || u == 0x202F || u == 0x205F || u
        == 0x3000
}

/// The characters of a string slice.
pub fn str_chars(s: &str) -> (v: Vec<char>)
    ensures
        v@ == s@,
{
    let n = s.unicode_len();
    let mut v: Vec<char> = Vec::new();
    let mut i: usize = 0;
    while i < n
        invariant
            n == s@.len(),
            i <= n,
            v@ == s@.take(i as int),
        decreases n - i,
    {
        v.push(s.get_char(i));
        i += 1;
        assert(v@ =~= s@.take(i as int));
    }
    assert(v@ =~= s@);
    v
}

/// A `String` holding the characters `v[lo..hi]`.
pub fn string_of_range(v: &Vec<char>, lo: usize, hi: usize) -> (s: String)
    requires
        lo <= hi <= v.len(),
    ensures
        s@ == v@.subrange(lo as int, hi as int),
{
    let mut s = String::new();
    let mut i = lo;
    while i < hi
        invariant
            lo <= i <= hi <= v.len(),
            s@ == v@.subrange(lo as int, i as int),
        decreases hi - i,
    {
        s.push(v[i]);
        i += 1;
        assert(s@ =~= v@.subrange(lo as int, i as int));
    }
    s
}

/// A `String` holding the characters of `v`.
pub fn string_of(v: &Vec<char>) -> (s: String)
    ensures
        s@ == v@,
{
    let s = string_of_range(v, 0, v.len());
    assert(v@.subrange(0, v@.len() as int) =~= v@);
    s
}

/// The characters of a `String`.
pub fn string_chars(s: &String) -> (v: Vec<char>)
    ensures
        v@ == s@,
{
    str_chars(s.as_str())
}

/// A copy of `v[lo..hi]`.
pub fn slice(v: &Vec<char>, lo: usize, hi: usize) -> (r: Vec<char>)
    requires
        lo <= hi <= v.len(),
    ensures
        r@ == v@.subrange(lo as int, hi as int),
{
    let mut r: Vec<char> = Vec::new();
    let mut i = lo;
    while i < hi
        invariant
            lo <= i <= hi <= v.len(),
            r@ == v@.subrange(lo as int, i as int),
        decreases hi - i,
    {
        r.push(v[i]);
        i += 1;
        assert(r@ =~= v@.subrange(lo as int, i as int));
    }
    r
}

pub proof fn lemma_skip_drop_first(s: Seq<char>, i: int)
    requires
        0 <= i < s.len(),
    ensures
        s.skip(i).drop_first() == s.skip(i + 1),
        s.skip(i)[0] == s[i],
        s.skip(i).len() > 0,
{
    assert(s.skip(i).drop_first() =~= s.skip(i + 1));
}

pub proof fn lemma_take_drop_last(s: Seq<char>, i: int)
    requires
        0 < i <= s.len(),
    ensures
        s.take(i).drop_last() == s.take(i - 1),
        s.take(i).last() == s[i - 1],
{
    assert(s.take(i).drop_last() =~= s.take(i - 1));
}

/// Number of copies of `c` starting at `v[from]`.
pub fn count_run(v: &Vec<char>, from: usize, c: char) -> (n: usize)
    requires
        from <= v.len(),
    ensures
        n == run_len(v@.skip(from as int), c),
        from + n <= v.len(),
{
    let mut i = from;
    while i < v.len() && v[i] == c
        invariant
            from <= i <= v.len(),
            run_len(v@.skip(from as int), c) == (i - from) + run_len(v@.skip(i as int), c),
        decreases v.len() - i,
    {
        proof {
            lemma_skip_drop_first(v@, i as int);
        }
        i += 1;
    }
    i - from
}

/// Index of the first character at or after `from` that is not White_Space.
pub fn skip_ws(v: &Vec<char>, from: usize) -> (n: usize)
    requires
        from <= v.len(),
    ensures
        from <= n <= v.len(),
        v@.skip(n as int) == trim_start(v@.skip(from as int)),
{
    let mut i = from;
    while i < v.len() && is_ws_char(v[i])
        invariant
            from <= i <= v.len(),
            trim_start(v@.skip(from as int)) == trim_start(v@.skip(i as int)),
        decreases v.len() - i,
    {
        proof {
            lemma_skip_drop_first(v@, i as int);
        }
        i += 1;
    }
    i
}

/// End of the range `v[lo..hi]` once its trailing White_Space is removed.
pub fn trim_end_at(v: &Vec<char>, lo: usize, hi: usize) -> (n: usize)
    requires
        lo <= hi <= v.len(),
    ensures
        lo <= n <= hi,
        v@.subrange(lo as int, n as int) == trim_end(v@.subrange(lo as int, hi as int)),
{
    let mut i = hi;
    while i > lo && is_ws_char(v[i - 1])
        invariant
            lo <= i <= hi <= v.len(),
            trim_end(v@.subrange(lo as int, hi as int)) == trim_end(
                v@.subrange(lo as int, i as int),
            ),
        decreases i - lo,
    {
        assert(v@.subrange(lo as int, i as int).drop_last() =~= v@.subrange(
            lo as int,
            i - 1,
        ));
        i -= 1;
    }
    i
}

pub proof fn lemma_trim_start_subrange(s: Seq<char>, lo: int, hi: int, n: int)
    requires
        0 <= lo <= n <= hi <= s.len(),
        s.skip(n) == trim_start(s.skip(lo)),
    ensures
        s.subrange(n, hi) == trim_start(s.subrange(lo, hi)),
    decreases n - lo,
{
    if lo < n {
        lemma_skip_drop_first(s, lo);
        assert(is_ws(s[lo])) by {
            if !is_ws(s[lo]) {
                assert(trim_start(s.skip(lo)) == s.skip(lo));
                assert(s.skip(n).len() < s.skip(lo).len());
            }
        }
        assert(s.subrange(lo, hi).drop_first() =~= s.subrange(lo + 1, hi));
        lemma_trim_start_subrange(s, lo + 1, hi, n);
    } else {
        if hi > n && is_ws(s[n]) {
            lemma_skip_drop_first(s, n);
            lemma_trim_start_shorter(s.skip(n).drop_first());
            assert(false);
        }
    }
}

pub proof fn lemma_trim_start_shorter(s: Seq<char>)
    ensures
        trim_start(s).len() <= s.len(),
        trim_start(s).len() == 0 || !is_ws(trim_start(s)[0]),
    decreases s.len(),
{
    if s.len() > 0 && is_ws(s[0]) {
        lemma_trim_start_shorter(s.drop_first());
    }
}

/// `v[lo..hi].trim()`, as the range it occupies.
pub fn trim_range(v: &Vec<char>, lo: usize, hi: usize) -> (r: (usize, usize))
    requires
        lo <= hi <= v.len(),
    ensures
        lo <= r.0 <= r.1 <= hi,
        v@.subrange(r.0 as int, r.1 as int) == trim(v@.subrange(lo as int, hi as int)),
{
    let a0 = skip_ws(v, lo);
    let a = if a0 < hi { a0 } else { hi };
    proof {
        if a0 <= hi {
            lemma_trim_start_subrange(v@, lo as int, hi as int, a0 as int);
        } else {
            // the whole range is White_Space
            lemma_trim_start_blank_prefix(v@, lo as int, hi as int, a0 as int);
        }
    }
    let b = trim_end_at(v, a, hi);
    (a, b)
}

pub proof fn lemma_trim_start_blank_prefix(s: Seq<char>, lo: int, hi: int, n: int)
    requires
        0 <= lo <= hi < n <= s.len(),
        s.skip(n) == trim_start(s.skip(lo)),
    ensures
        trim_start(s.subrange(lo, hi)) == s.subrange(hi, hi),
    decreases hi - lo,
{
    lemma_skip_drop_first(s, lo);
    assert(is_ws(s[lo])) by {
        if !is_ws(s[lo]) {
            assert(trim_start(s.skip(lo)) == s.skip(lo));
            assert(s.skip(n).len() < s.skip(lo).len());
        }
    }
    if lo < hi {
        assert(s.subrange(lo, hi).drop_first() =~= s.subrange(lo + 1, hi));
        lemma_trim_start_blank_prefix(s, lo + 1, hi, n);
    } else {
        assert(s.subrange(lo, hi) =~= s.subrange(hi, hi));
    }
}

/// `v.trim()` as a new vector.
pub fn trim_vec(v: &Vec<char>) -> (r: Vec<char>)
    ensures
        r@ == trim(v@),
{
    let (a, b) = trim_range(v, 0, v.len());
    assert(v@.subrange(0, v@.len() as int) =~= v@);
    slice(v, a, b)
}

/// `v.trim_start()` as a new vector.
pub fn trim_start_vec(v: &Vec<char>) -> (r: Vec<char>)
    ensures
        r@ == trim_start(v@),
{
    let a = skip_ws(v, 0);
    assert(v@.skip(0) =~= v@);
    slice(v, a, v.len())
}

/// `v.trim_end()` as a new vector.
pub fn trim_end_vec(v: &Vec<char>) -> (r: Vec<char>)
    ensures
        r@ == trim_end(v@),
{
    let b = trim_end_at(v, 0, v.len());
    assert(v@.subrange(0, v@.len() as int) =~= v@);
    slice(v, 0, b)
}


/// Index of the first `c` at or after `i` in `s`.
pub open spec fn first_index_from(s: Seq<char>, i: int, c: char) -> Option<int>
    decreases s.len() - i,
{
    if i < 0 || i >= s.len() {
        None
    } else if s[i] == c {
        Some(i)
    } else {
        first_index_from(s, i + 1, c)
    }
}

/// Index of the last `c` in `s`.
pub open spec fn last_index(s: Seq<char>, c: char) -> Option<int>
    decreases s.len(),
{
    if s.len() == 0 {
        None
    } else if s.last() == c {
        Some(s.len() - 1)
    } else {
        last_index(s.drop_last(), c)
    }
}

pub proof fn lemma_first_index_from(s: Seq<char>, i: int, c: char)
    requires
        0 <= i,
    ensures
        match first_index_from(s, i, c) {
            Some(j) => i <= j < s.len() && s[j] == c && forall|k: int| i <= k < j ==> s[k] != c,
            None => forall|k: int| i <= k < s.len() ==> s[k] != c,
        },
    decreases s.len() - i,
{
    if i < s.len() && s[i] != c {
        lemma_first_index_from(s, i + 1, c);
    }
}

pub proof fn lemma_last_index(s: Seq<char>, c: char)
    ensures
        match last_index(s, c) {
            Some(j) => 0 <= j < s.len() && s[j] == c && forall|k: int| j < k < s.len() ==> s[k] != c,
            None => !s.contains(c),
        },
    decreases s.len(),
{
    if s.len() > 0 && s.last() != c {
        lemma_last_index(s.drop_last(), c);
        assert(forall|k: int| 0 <= k < s.len() - 1 ==> s.drop_last()[k] == s[k]);
        if s.contains(c) {
            let k = choose|k: int| 0 <= k < s.len() && s[k] == c;
            assert(s.drop_last()[k] == c);
        }
    }
}

/// The first `c` at or after `from` in `v`.
pub fn find_char_from(v: &Vec<char>, from: usize, c: char) -> (r: Option<usize>)
    ensures
        match r {
            Some(j) => first_index_from(v@, from as int, c) == Some(j as int),
            None => first_index_from(v@, from as int, c) is None,
        },
{
    let mut i = from;
    while i < v.len()
        invariant
            from <= i,
            first_index_from(v@, from as int, c) == first_index_from(v@, i as int, c),
        decreases v.len() - i,
    {
        if v[i] == c {
            return Some(i);
        }
        i += 1;
    }
    None
}

/// The last `c` in `v[lo..hi]`, as an index into `v`.
pub fn rfind_char(v: &Vec<char>, lo: usize, hi: usize, c: char) -> (r: Option<usize>)
    requires
        lo <= hi <= v.len(),
    ensures
        match r {
            Some(j) => last_index(v@.subrange(lo as int, hi as int), c) == Some(j - lo),
            None => last_index(v@.subrange(lo as int, hi as int), c) is None,
        },
{
    let mut i = hi;
    while i > lo
        invariant
            lo <= i <= hi <= v.len(),
            last_index(v@.subrange(lo as int, hi as int), c) == last_index(
                v@.subrange(lo as int, i as int),
                c,
            ),
        decreases i - lo,
    {
        assert(v@.subrange(lo as int, i as int).drop_last() =~= v@.subrange(lo as int, i - 1));
        if v[i - 1] == c {
            return Some(i - 1);
        }
        i -= 1;
    }
    None
}

/// Whether `v` holds `c`.
pub fn contains_char(v: &Vec<char>, c: char) -> (r: bool)
    ensures
        r == v@.contains(c),
{
    let mut i: usize = 0;
    while i < v.len()
        invariant
            i <= v.len(),
            forall|k: int| 0 <= k < i ==> v@[k] != c,
        decreases v.len() - i,
    {
        if v[i] == c {
            return true;
        }
        i += 1;
    }
    false
}

/// Whether every character of `v` is White_Space (`v.trim().is_empty()`).
pub fn blank(v: &Vec<char>) -> (r: bool)
    ensures
        r == is_blank(v@),
{
    let mut i: usize = 0;
    while i < v.len()
        invariant
            i <= v.len(),
            forall|k: int| 0 <= k < i ==> is_ws(#[trigger] v@[k]),
        decreases v.len() - i,
    {
        if !is_ws_char(v[i]) {
            return false;
        }
        i += 1;
    }
    true
}

/// Unicode `Alphabetic` or `Numeric` (what `char::is_alphanumeric` decides).
pub uninterp spec fn char_is_alphanumeric(c: char) -> bool;

/// `char::is_alphanumeric`, whose answer rests on the Unicode tables; the contract
/// names that answer and says nothing more of it.
#[verifier::external_body]
pub(crate) fn is_alphanumeric(c: char) -> (r: bool)
    ensures
        r == char_is_alphanumeric(c),
{
    c.is_alphanumeric()
}

/// `n` copies of `c`.
pub open spec fn repeat(c: char, n: nat) -> Seq<char> {
    Seq::new(n, |_i: int| c)
}

/// Start of the first occurrence of `needle` at or after `i` in `s`.
pub open spec fn find_seq(s: Seq<char>, i: int, needle: Seq<char>) -> Option<int>
    decreases s.len() - i,
{
    if i < 0 || i + needle.len() > s.len() {
        None
    } else if needle.len() == 0 || s.subrange(i, i + needle.len()) == needle {
        Some(i)
    } else {
        find_seq(s, i + 1, needle)
    }
}

pub proof fn lemma_find_seq(s: Seq<char>, i: int, needle: Seq<char>)
    ensures
        find_seq(s, i, needle) matches Some(j) ==> 0 <= i <= j && j + needle.len() <= s.len()
            && s.subrange(j, j + needle.len()) == needle,
    decreases s.len() - i,
{
    if !(i < 0 || i + needle.len() > s.len()) {
        if needle.len() == 0 {
            assert(s.subrange(i, i) =~= needle);
        } else if s.subrange(i, i + needle.len()) != needle {
            lemma_find_seq(s, i + 1, needle);
        }
    }
}

/// `v` holds `p` as a contiguous piece.
pub open spec fn contains_seq(s: Seq<char>, p: Seq<char>) -> bool {
    find_seq(s, 0, p) is Some
}

/// The first occurrence of `needle` at or after `from` in `v`.
pub fn find_vec(v: &Vec<char>, from: usize, needle: &Vec<char>) -> (r: Option<usize>)
    ensures
        match r {
            Some(j) => find_seq(v@, from as int, needle@) == Some(j as int),
            None => find_seq(v@, from as int, needle@) is None,
        },
{
    let n = needle.len();
    if n == 0 {
        if from <= v.len() {
            return Some(from);
        } else {
            return None;
        }
    }
    if from > v.len() || v.len() - from < n {
        return None;
    }
    let mut i = from;
    while i <= v.len() - n
        invariant
            n == needle@.len(),
            n > 0,
            n <= v.len(),
            from <= i <= v.len() - n + 1,
            find_seq(v@, from as int, needle@) == find_seq(v@, i as int, needle@),
        decreases v.len() - i,
    {
        let mut k: usize = 0;
        let mut same = true;
        while k < n
            invariant
                n == needle@.len(),
                i + n <= v.len(),
                k <= n,
                same == (forall|m: int| 0 <= m < k ==> v@[i + m] == needle@[m]),
            decreases n - k,
        {
            if v[i + k] != needle[k] {
                same = false;
            }
            k += 1;
        }
        if same {
            assert(v@.subrange(i as int, i + n) =~= needle@);
            return Some(i);
        } else {
            assert(v@.subrange(i as int, i + n) != needle@) by {
                let m = choose|m: int| 0 <= m < n && v@[i + m] != needle@[m];
                assert(v@.subrange(i as int, i + n)[m] == v@[i + m]);
            }
        }
        i += 1;
    }
    None
}

/// A vector holding `n` copies of `c`.
pub fn repeat_vec(c: char, n: usize) -> (r: Vec<char>)
    ensures
        r@ == repeat(c, n as nat),
{
    let mut r: Vec<char> = Vec::new();
    let mut i: usize = 0;
    while i < n
        invariant
            i <= n,
            r@ == repeat(c, i as nat),
        decreases n - i,
    {
        r.push(c);
        i += 1;
        assert(r@ =~= repeat(c, i as nat));
    }
    r
}

/// Whether `p` occurs in `v` at index `at`.
pub fn eq_at(v: &Vec<char>, at: usize, p: &Vec<char>) -> (r: bool)
    ensures
        r == (at + p@.len() <= v@.len() && v@.subrange(at as int, at + p@.len()) == p@),
{
    if at > v.len() || v.len() - at < p.len() {
        return false;
    }
    let mut k: usize = 0;
    while k < p.len()
        invariant
            at + p@.len() <= v@.len(),
            v@.len() == v.len(),
            k <= p@.len(),
            forall|m: int| 0 <= m < k ==> v@[at + m] == p@[m],
        decreases p.len() - k,
    {
        if v[at + k] != p[k] {
            assert(v@.subrange(at as int, at + p@.len())[k as int] != p@[k as int]);
            return false;
        }
        k += 1;
    }
    assert(v@.subrange(at as int, at + p@.len()) =~= p@);
    true
}

/// `v.trim_end_matches(c)` in place.
pub fn pop_trailing(v: &mut Vec<char>, c: char)
    ensures
        final(v)@ == trim_end_char(old(v)@, c),
{
    while v.len() > 0 && v[v.len() - 1] == c
        invariant
            trim_end_char(old(v)@, c) == trim_end_char(v@, c),
        decreases v.len(),
    {
        v.pop();
    }
}

// ── Lines ────────────────────────────────────────────────────────────────────

/// The models of a vector of lines.
pub open spec fn lines_view(ls: Seq<Vec<char>>) -> Seq<Seq<char>> {
    ls.map_values(|l: Vec<char>| l@)
}

/// The total size of `ls`: each line counts its characters and one line feed.
pub open spec fn csize(ls: Seq<Seq<char>>) -> nat
    decreases ls.len(),
{
    if ls.len() == 0 {
        0
    } else {
        csize(ls.drop_last()) + ls.last().len() + 1
    }
}

pub proof fn lemma_csize_concat(a: Seq<Seq<char>>, b: Seq<Seq<char>>)
    ensures
        csize(a + b) == csize(a) + csize(b),
    decreases b.len(),
{
    if b.len() == 0 {
        assert(a + b =~= a);
    } else {
        assert((a + b).drop_last() =~= a + b.drop_last());
        lemma_csize_concat(a, b.drop_last());
    }
}

pub proof fn lemma_csize_split_from(rest: Seq<char>, c: char, cur: Seq<char>)
    ensures
        csize(split_from(rest, c, cur)) == rest.len() + cur.len() + 1,
        split_from(rest, c, cur).len() > 0,
    decreases rest.len(),
{
    assert(seq![cur].drop_last() =~= Seq::<Seq<char>>::empty());
    assert(csize(Seq::<Seq<char>>::empty()) == 0);
    assert(csize(seq![cur]) == cur.len() + 1);
    if rest.len() == 0 {
    } else if rest[0] == c {
        lemma_csize_split_from(rest.drop_first(), c, Seq::empty());
        lemma_csize_concat(seq![cur], split_from(rest.drop_first(), c, Seq::empty()));
    } else {
        lemma_csize_split_from(rest.drop_first(), c, cur.push(rest[0]));
    }
}

pub proof fn lemma_join_len(ls: Seq<Seq<char>>, sep: char)
    ensures
        ls.len() > 0 ==> join(ls, sep).len() + 1 == csize(ls),
        ls.len() == 0 ==> join(ls, sep).len() == 0,
    decreases ls.len(),
{
    if ls.len() > 1 {
        lemma_join_len(ls.drop_last(), sep);
    } else if ls.len() == 1 {
        assert(ls.drop_last() =~= Seq::<Seq<char>>::empty());
        assert(csize(Seq::<Seq<char>>::empty()) == 0);
        assert(csize(ls) == ls[0].len() + 1);
    }
}

pub proof fn lemma_replace_crlf_len(s: Seq<char>)
    ensures
        replace_crlf(s).len() <= s.len(),
    decreases s.len(),
{
    if s.len() > 0 {
        if s.len() >= 2 && s[0] == '\r' && s[1] == '\n' {
            lemma_replace_crlf_len(s.skip(2));
        } else {
            lemma_replace_crlf_len(s.drop_first());
        }
    }
}

/// The lines of a text, as `str::lines` gives them, are at most one longer in
/// total size than the text.
pub proof fn lemma_lines_size(s: Seq<char>)
    ensures
        csize(lines(s)) <= s.len() + 1,
{
    if s.len() > 0 {
        lemma_csize_split_from(s, '\n', Seq::empty());
        let p = split(s, '\n');
        if s.last() == '\n' {
            assert(csize(p) == csize(p.drop_last()) + p.last().len() + 1);
        }
    }
}

/// The pieces of `v` split at `c`.
pub fn split_vec(v: &Vec<char>, c: char) -> (r: Vec<Vec<char>>)
    ensures
        lines_view(r@) == split(v@, c),
{
    let mut out: Vec<Vec<char>> = Vec::new();
    let mut cur: Vec<char> = Vec::new();
    let mut i: usize = 0;
    assert(v@.skip(0) =~= v@);
    assert(lines_view(out@) =~= Seq::<Seq<char>>::empty());
    while i < v.len()
        invariant
            i <= v@.len(),
            split(v@, c) == lines_view(out@) + split_from(v@.skip(i as int), c, cur@),
        decreases v.len() - i,
    {
        proof {
            lemma_skip_drop_first(v@, i as int);
        }
        if v[i] == c {
            let ghost old_out = out@;
            let piece = cur;
            cur = Vec::new();
            out.push(piece);
            assert(lines_view(out@) =~= lines_view(old_out) + seq![piece@]);
            assert(cur@ =~= Seq::<char>::empty());
            assert(lines_view(out@) + split_from(v@.skip(i + 1), c, cur@) =~= lines_view(old_out)
                + (seq![piece@] + split_from(v@.skip(i + 1), c, Seq::empty())));
        } else {
            cur.push(v[i]);
        }
        i += 1;
    }
    let ghost old_out = out@;
    out.push(cur);
    assert(lines_view(out@) =~= lines_view(old_out) + seq![cur@]);
    out
}

/// `ls` joined with `sep`.
pub fn join_vec(ls: &Vec<Vec<char>>, sep: char) -> (r: Vec<char>)
    ensures
        r@ == join(lines_view(ls@), sep),
{
    let mut out: Vec<char> = Vec::new();
    let mut i: usize = 0;
    let ghost lv = lines_view(ls@);
    assert(lv.take(0) =~= Seq::<Seq<char>>::empty());
    while i < ls.len()
        invariant
            lv == lines_view(ls@),
            i <= ls@.len(),
            out@ == join(lv.take(i as int), sep),
        decreases ls.len() - i,
    {
        let ghost before = out@;
        if i > 0 {
            out.push(sep);
        }
        let line = &ls[i];
        let mut k: usize = 0;
        let ghost mid = out@;
        while k < line.len()
            invariant
                k <= line@.len(),
                out@ == mid + line@.take(k as int),
            decreases line.len() - k,
        {
            out.push(line[k]);
            k += 1;
            assert(out@ =~= mid + line@.take(k as int));
        }
        proof {
            assert(line@.take(line@.len() as int) =~= line@);
            assert(lv.take(i + 1).drop_last() =~= lv.take(i as int));
            assert(lv.take(i + 1).last() == line@);
            if i == 0 {
                assert(out@ =~= line@);
            }
        }
        i += 1;
    }
    assert(lv.take(ls@.len() as int) =~= lv);
    out
}

/// `str::replace("\r\n", "\n")`.
pub fn replace_crlf_vec(v: &Vec<char>) -> (r: Vec<char>)
    ensures
        r@ == replace_crlf(v@),
{
    let mut out: Vec<char> = Vec::new();
    let mut i: usize = 0;
    assert(v@.skip(0) =~= v@);
    while i < v.len()
        invariant
            i <= v@.len(),
            replace_crlf(v@) == out@ + replace_crlf(v@.skip(i as int)),
        decreases v.len() - i,
    {
        let ghost t = v@.skip(i as int);
        if i + 1 < v.len() && v[i] == '\r' && v[i + 1] == '\n' {
            out.push('\n');
            assert(t.skip(2) =~= v@.skip(i + 2));
            assert(out@ + replace_crlf(v@.skip(i + 2)) =~= (out@.drop_last() + seq!['\n'])
                + replace_crlf(t.skip(2)));
            i += 2;
        } else {
            out.push(v[i]);
            assert(t.drop_first() =~= v@.skip(i + 1));
            i += 1;
        }
    }
    assert(v@.skip(v@.len() as int) =~= Seq::<char>::empty());
    assert(out@ + Seq::<char>::empty() =~= out@);
    out
}

/// `str::replace('\r', "\n")`.
pub fn replace_cr_vec(v: &Vec<char>) -> (r: Vec<char>)
    ensures
        r@ == replace_cr(v@),
{
    let mut out: Vec<char> = Vec::new();
    let mut i: usize = 0;
    while i < v.len()
        invariant
            i <= v@.len(),
            out@ == replace_cr(v@.take(i as int)),
        decreases v.len() - i,
    {
        if v[i] == '\r' {
            out.push('\n');
        } else {
            out.push(v[i]);
        }
        i += 1;
        assert(out@ =~= replace_cr(v@.take(i as int)));
    }
    assert(v@.take(v@.len() as int) =~= v@);
    out
}

/// `str::lines` for a text without carriage returns.
pub fn lines_vec(v: &Vec<char>) -> (r: Vec<Vec<char>>)
    ensures
        lines_view(r@) == lines(v@),
{
    if v.len() == 0 {
        let r: Vec<Vec<char>> = Vec::new();
        assert(lines_view(r@) =~= Seq::<Seq<char>>::empty());
        return r;
    }
    let mut pieces = split_vec(v, '\n');
    if v[v.len() - 1] == '\n' {
        proof {
            lemma_csize_split_from(v@, '\n', Seq::empty());
        }
        let ghost before = pieces@;
        pieces.pop();
        assert(lines_view(pieces@) =~= lines_view(before).drop_last());
    }
    pieces
}

} // verus!
