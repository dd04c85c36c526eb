//! Character-level text utilities: string equality, conversion of a string
//! to its character sequence, digit and integer parsing, whitespace
//! tokenizing, and substring search. These carry the exact semantics that
//! the parsers' contracts are stated over.

use vstd::prelude::*;

verus! {

use vstd::std_specs::iter::IteratorSpec;

/// Whether two string slices hold the same characters.
pub fn str_eq(a: &str, b: &str) -> (r: bool)
    ensures
        r == (a@ == b@),
{
    let sa = a.to_owned();
    let sb = b.to_owned();
    sa == sb
}

/// The characters of `s`, as a vector.
pub fn to_chars(s: &str) -> (v: Vec<char>)
    ensures
        v@ == s@,
{
    let mut v: Vec<char> = Vec::new();
    let mut it = s.chars();
    loop
        invariant_except_break
            it.obeys_prophetic_iter_laws(),
            it.decrease() is Some,
            v@ + it.remaining() =~= s@,
        ensures
            v@ == s@,
        decreases it.decrease()->0,
    {
        let ghost prev = it.remaining();
        match it.next() {
            Some(c) => {
                v.push(c);
                proof {
                    assert(v@ + it.remaining() =~= s@);
                }
            },
            None => {
                proof {
                    assert(prev.len() == 0);
                    assert(v@ =~= s@);
                }
                break;
            },
        }
    }
    v
}

/// `c` is an ASCII decimal digit.
pub open spec fn is_digit(c: char) -> bool {
    48 <= c as u32 <= 57
}

/// The value of an ASCII decimal digit.
pub open spec fn digit_val(c: char) -> int {
    c as u32 - 48
}

/// Every character of `s` is an ASCII decimal digit.
pub open spec fn all_digits(s: Seq<char>) -> bool {
    forall|i: int| 0 <= i < s.len() ==> is_digit(#[trigger] s[i])
}

/// The value of a digit string, most significant digit first.
pub open spec fn digits_val(s: Seq<char>) -> int
    decreases s.len(),
{
    if s.len() == 0 {
        0
    } else {
        digits_val(s.drop_last()) * 10 + digit_val(s.last())
    }
}

/// What `str::parse::<i32>` accepts and returns: an optional sign followed
/// by at least one digit, all of the string, valued within the `i32` range.
pub open spec fn parse_i32_spec(s: Seq<char>) -> Option<int> {
    let t = if s.len() > 0 && (s[0] == '+' || s[0] == '-') {
        s.drop_first()
    } else {
        s
    };
    let neg = s.len() > 0 && s[0] == '-';
    if t.len() > 0 && all_digits(t) {
        let v = if neg {
            -digits_val(t)
        } else {
            digits_val(t)
        };
        if -0x8000_0000 <= v <= 0x7fff_ffff {
            Some(v)
        } else {
            None
        }
    } else {
        None
    }
}

/// A digit string's value is never negative.
pub proof fn lemma_digits_val_nonneg(s: Seq<char>)
    requires
        all_digits(s),
    ensures
        digits_val(s) >= 0,
    decreases s.len(),
{
    if s.len() > 0 {
        assert(all_digits(s.drop_last()));
        lemma_digits_val_nonneg(s.drop_last());
    }
}

/// Extending a digit string never shrinks its value.
proof fn lemma_digits_val_prefix(s: Seq<char>, k: int)
    requires
        all_digits(s),
        0 <= k <= s.len(),
    ensures
        digits_val(s) >= digits_val(s.subrange(0, k)),
    decreases s.len() - k,
{
    if k < s.len() {
        lemma_digits_val_prefix(s, k + 1);
        let p = s.subrange(0, k + 1);
        assert(p.drop_last() =~= s.subrange(0, k));
        assert(all_digits(s.subrange(0, k)));
        lemma_digits_val_nonneg(s.subrange(0, k));
        lemma_digits_val_nonneg(p);
    } else {
        assert(s.subrange(0, k) =~= s);
    }
}

/// Parses a whole character slice as an `i32`, as `str::parse::<i32>`
/// does: an optional sign, then digits only, rejected on overflow.
#[verifier::loop_isolation(false)]
pub fn parse_i32(s: &[char]) -> (r: Option<i32>)
    ensures
        match r {
            Some(v) => parse_i32_spec(s@) == Some(v as int),
            None => parse_i32_spec(s@) is None,
        },
{
    let n = s.len();
    let mut start: usize = 0;
    let mut neg = false;
    if n > 0 && (s[0] == '+' || s[0] == '-') {
        neg = s[0] == '-';
        start = 1;
    }
    if start >= n {
        return None;
    }
    let ghost t = if s@.len() > 0 && (s@[0] == '+' || s@[0] == '-') {
        s@.drop_first()
    } else {
        s@
    };
    proof {
        assert(t =~= s@.subrange(start as int, n as int));
    }
    let mut acc: i64 = 0;
    let mut j: usize = start;
    while j < n
        invariant
            start <= j <= n,
            n == s@.len(),
            start < n,
            t == s@.subrange(start as int, n as int),
            forall|k: int| start <= k < j ==> is_digit(#[trigger] s@[k]),
            acc == digits_val(s@.subrange(start as int, j as int)),
            0 <= acc <= 0x1_0000_0000,
        decreases n - j,
    {
        let c = s[j];
        let u = c as u32;
        if u < 48 || u > 57 {
            proof {
                let w: int = j - start;
                assert(0 <= w < t.len());
                assert(t[w] == s@[j as int]);
                assert(!is_digit(t[w]));
                assert(!all_digits(t)) by {
                    if all_digits(t) {
                        assert(is_digit(t[w]));
                    }
                }
                assert(parse_i32_spec(s@) is None);
            }
            return None;
        }
        acc = acc * 10 + ((u - 48) as i64);
        proof {
            let pre = s@.subrange(start as int, j as int);
            let ext = s@.subrange(start as int, j + 1);
            assert(ext.drop_last() =~= pre);
            assert(ext.last() == s@[j as int]);
        }
        j = j + 1;
        if acc > 0x1_0000_0000 {
            proof {
                if all_digits(t) {
                    let pre = s@.subrange(start as int, j as int);
                    assert(pre =~= t.subrange(0, j - start));
                    lemma_digits_val_prefix(t, j - start);
                    assert(digits_val(t) > 0x7fff_ffff);
                    assert(-digits_val(t) < -0x8000_0000);
                }
            }
            return None;
        }
    }
    proof {
        assert(s@.subrange(start as int, j as int) =~= t);
        assert(all_digits(t)) by {
            assert(forall|k: int|
                0 <= k < t.len() ==> t[k] == s@[k + start] && is_digit(#[trigger] s@[k + start]));
        }
    }
    if neg {
        if acc > 0x8000_0000 {
            return None;
        }
        Some((-acc) as i32)
    } else {
        if acc > 0x7fff_ffff {
            return None;
        }
        Some(acc as i32)
    }
}

/// `c` has the Unicode white-space property, as `char::is_whitespace` and
/// `str::split_whitespace` see it.
pub open spec fn is_space(c: char) -> bool {
    c == ' ' || c == '\t' || c == '\n' || c == '\r' || c as u32 == 0x0b || c as u32 == 0x0c || (
    c as u32) == 0x85 || c as u32 == 0xa0 || c as u32 == 0x1680 || (0x2000 <= c as u32 <= 0x200a)
        || c as u32 == 0x2028 || c as u32 == 0x2029 || c as u32 == 0x202f || c as u32 == 0x205f || (
    c as u32) == 0x3000
}

/// Whether `c` is Unicode white space.
pub fn is_space_char(c: char) -> (r: bool)
    ensures
        r == is_space(c),
{
    let u = c as u32;
    u == 0x20 || u == 0x09 || u == 0x0a || u == 0x0d || u == 0x0b || u == 0x0c || u == 0x85 || u
        == 0xa0 || u == 0x1680 || (0x2000 <= u && u <= 0x200a) || u == 0x2028 || u == 0x2029 || u
        == 0x202f || u == 0x205f || u == 0x3000
}

/// The run of non-space characters at the head of `s`.
pub open spec fn leading_run(s: Seq<char>) -> Seq<char>
    decreases s.len(),
{
    if s.len() == 0 || is_space(s[0]) {
        Seq::empty()
    } else {
        seq![s[0]] + leading_run(s.drop_first())
    }
}

/// The first white-space-delimited token of `s`, as
/// `str::split_whitespace` yields it; empty when there is none.
pub open spec fn first_token_spec(s: Seq<char>) -> Seq<char>
    decreases s.len(),
{
    if s.len() == 0 {
        Seq::empty()
    } else if is_space(s[0]) {
        first_token_spec(s.drop_first())
    } else {
        leading_run(s)
    }
}

/// Skipping a white-space prefix does not change the first token.
proof fn lemma_first_token_skip(s: Seq<char>, b: int)
    requires
        0 <= b <= s.len(),
        forall|j: int| 0 <= j < b ==> is_space(#[trigger] s[j]),
    ensures
        first_token_spec(s) == first_token_spec(s.subrange(b, s.len() as int)),
    decreases b,
{
    if b > 0 {
        assert(is_space(s[0]));
        lemma_first_token_skip(s.drop_first(), b - 1);
        assert(s.drop_first().subrange(b - 1, s.drop_first().len() as int) =~= s.subrange(
            b,
            s.len() as int,
        ));
    } else {
        assert(s.subrange(0, s.len() as int) =~= s);
    }
}

/// The head run is the prefix up to the first white-space character.
proof fn lemma_leading_run_is(s: Seq<char>, e: int)
    requires
        0 <= e <= s.len(),
        forall|j: int| 0 <= j < e ==> !is_space(#[trigger] s[j]),
        e < s.len() ==> is_space(s[e]),
    ensures
        leading_run(s) == s.subrange(0, e),
    decreases e,
{
    if e == 0 {
        assert(s.subrange(0, 0) =~= Seq::<char>::empty());
    } else {
        lemma_leading_run_is(s.drop_first(), e - 1);
        assert(seq![s[0]] + s.drop_first().subrange(0, e - 1) =~= s.subrange(0, e));
    }
}

/// The first white-space-delimited token of `s`.
pub fn first_token(s: &[char]) -> (t: Vec<char>)
    ensures
        t@ == first_token_spec(s@),
{
    let n = s.len();
    let mut b: usize = 0;
    loop
        invariant_except_break
            n == s@.len(),
            b <= n,
            forall|j: int| 0 <= j < b ==> is_space(#[trigger] s@[j]),
        ensures
            b <= n,
            forall|j: int| 0 <= j < b ==> is_space(#[trigger] s@[j]),
            b < n ==> !is_space(s@[b as int]),
        decreases n - b,
    {
        if b >= n {
            break ;
        }
        if !is_space_char(s[b]) {
            break ;
        }
        b = b + 1;
    }
    let mut e: usize = b;
    loop
        invariant_except_break
            n == s@.len(),
            b <= e <= n,
            forall|j: int| b <= j < e ==> !is_space(#[trigger] s@[j]),
        ensures
            b <= e <= n,
            forall|j: int| b <= j < e ==> !is_space(#[trigger] s@[j]),
            e < n ==> is_space(s@[e as int]),
        decreases n - e,
    {
        if e >= n {
            break ;
        }
        if is_space_char(s[e]) {
            break ;
        }
        e = e + 1;
    }
    let mut t: Vec<char> = Vec::new();
    let mut k: usize = b;
    while k < e
        invariant
            n == s@.len(),
            b <= k <= e <= n,
            t@ == s@.subrange(b as int, k as int),
        decreases e - k,
    {
        t.push(s[k]);
        proof {
            assert(t@ =~= s@.subrange(b as int, k + 1));
        }
        k = k + 1;
    }
    proof {
        lemma_first_token_skip(s@, b as int);
        let rest = s@.subrange(b as int, n as int);
        if b < n {
            assert(!is_space(rest[0]));
            assert forall|j: int| 0 <= j < e - b implies !is_space(#[trigger] rest[j]) by {
                assert(rest[j] == s@[b + j]);
            }
            lemma_leading_run_is(rest, e - b);
            assert(rest.subrange(0, e - b) =~= s@.subrange(b as int, e as int));
        } else {
            assert(t@ =~= Seq::<char>::empty());
        }
    }
    t
}

/// The end of the run of ASCII digits starting at `i`: the first position
/// at or after `i` that is out of range or holds a non-digit.
pub open spec fn digit_run_end(t: Seq<char>, i: int) -> int
    decreases t.len() + 1 - i,
{
    if i < 0 || i >= t.len() || !is_digit(t[i]) {
        i
    } else {
        digit_run_end(t, i + 1)
    }
}

/// A run's end never lies before its start.
pub proof fn lemma_digit_run_lb(t: Seq<char>, i: int)
    requires
        0 <= i,
    ensures
        digit_run_end(t, i) >= i,
    decreases t.len() + 1 - i,
{
    if !(i >= t.len() || !is_digit(t[i])) {
        lemma_digit_run_lb(t, i + 1);
    }
}

/// The end of the run of white space starting at `i`.
pub open spec fn space_run_end(t: Seq<char>, i: int) -> int
    decreases t.len() + 1 - i,
{
    if i < 0 || i >= t.len() || !is_space(t[i]) {
        i
    } else {
        space_run_end(t, i + 1)
    }
}

/// The end of the digit run starting at `i`.
pub fn digit_run_end_at(t: &[char], i: usize) -> (e: usize)
    requires
        i <= t@.len(),
    ensures
        i <= e <= t@.len(),
        e == digit_run_end(t@, i as int),
    decreases t@.len() - i,
{
    let n = t.len();
    let mut j: usize = i;
    while j < n
        invariant
            i <= j <= n,
            n == t@.len(),
            digit_run_end(t@, i as int) == digit_run_end(t@, j as int),
        decreases n - j,
    {
        let u = t[j] as u32;
        if u < 48 || u > 57 {
            return j;
        }
        j = j + 1;
    }
    j
}

/// The end of the white-space run starting at `i`.
pub fn space_run_end_at(t: &[char], i: usize) -> (e: usize)
    requires
        i <= t@.len(),
    ensures
        i <= e <= t@.len(),
        e == space_run_end(t@, i as int),
    decreases t@.len() - i,
{
    let n = t.len();
    let mut j: usize = i;
    while j < n
        invariant
            i <= j <= n,
            n == t@.len(),
            space_run_end(t@, i as int) == space_run_end(t@, j as int),
        decreases n - j,
    {
        if !is_space_char(t[j]) {
            return j;
        }
        j = j + 1;
    }
    j
}

/// The needle `n` occurs in `h` at position `i`.
pub open spec fn match_at(h: Seq<char>, n: Seq<char>, i: int) -> bool {
    0 <= i && i + n.len() <= h.len() && h.subrange(i, i + n.len() as int) == n
}

/// The first occurrence of `n` in `h` at or after position `i`, as
/// `str::find` sees it.
pub open spec fn find_from(h: Seq<char>, n: Seq<char>, i: int) -> Option<int>
    decreases h.len() + 1 - i,
{
    if i < 0 || i + n.len() > h.len() {
        None
    } else if match_at(h, n, i) {
        Some(i)
    } else {
        find_from(h, n, i + 1)
    }
}

/// `n` occurs somewhere in `h`.
pub open spec fn contains_sub(h: Seq<char>, n: Seq<char>) -> bool {
    find_from(h, n, 0) is Some
}

/// Whether `n` occurs in `h` at position `i`.
#[verifier::loop_isolation(false)]
pub fn match_window(h: &[char], n: &[char], i: usize) -> (r: bool)
    requires
        i + n@.len() <= h@.len(),
    ensures
        r == match_at(h@, n@, i as int),
{
    let m = n.len();
    let _hl: usize = h.len();
    let mut k: usize = 0;
    while k < m
        invariant
            k <= m,
            forall|j: int| 0 <= j < k ==> h@[i + j] == n@[j],
        decreases m - k,
    {
        if h[i + k] != n[k] {
            proof {
                assert(h@.subrange(i as int, i + m) [k as int] != n@[k as int]);
            }
            return false;
        }
        k = k + 1;
    }
    proof {
        assert(h@.subrange(i as int, i + m) =~= n@);
    }
    true
}

/// The position of the first occurrence of `n` in `h` at or after `from`,
/// if any.
#[verifier::loop_isolation(false)]
pub fn find_sub_from(h: &[char], n: &[char], from: usize) -> (r: Option<usize>)
    ensures
        match r {
            Some(i) => from <= i && i + n@.len() <= h@.len() && find_from(h@, n@, from as int)
                == Some(i as int),
            None => find_from(h@, n@, from as int) is None,
        },
{
    let hl = h.len();
    let nl = n.len();
    if from > hl || nl > hl - from {
        return None;
    }
    if nl == 0 {
        proof {
            assert(h@.subrange(from as int, from as int) =~= n@);
        }
        return Some(from);
    }
    let mut i: usize = from;
    while i <= hl - nl
        invariant
            from <= i <= hl - nl + 1,
            find_from(h@, n@, from as int) == find_from(h@, n@, i as int),
        decreases hl - nl + 1 - i,
    {
        if match_window(h, n, i) {
            return Some(i);
        }
        i = i + 1;
    }
    None
}

/// The position of the first occurrence of `n` in `h`, if any.
pub fn find_sub(h: &[char], n: &[char]) -> (r: Option<usize>)
    ensures
        match r {
            Some(i) => i + n@.len() <= h@.len() && find_from(h@, n@, 0) == Some(i as int),
            None => find_from(h@, n@, 0) is None,
        },
{
    find_sub_from(h, n, 0)
}

/// The start of the last occurrence of `n` in `h` that ends at or before
/// position `end`, as `str::rfind` on the prefix `h[..end]` sees it.
pub open spec fn rfind_before(h: Seq<char>, n: Seq<char>, end: int) -> Option<int>
    decreases end + 1,
{
    if end < n.len() || end > h.len() {
        None
    } else if match_at(h, n, end - n.len()) {
        Some(end - n.len())
    } else {
        rfind_before(h, n, end - 1)
    }
}

/// The start of the last occurrence of `n` ending at or before `end`.
pub fn rfind_sub(h: &[char], n: &[char], end: usize) -> (r: Option<usize>)
    requires
        end <= h@.len(),
    ensures
        match r {
            Some(i) => i + n@.len() <= end && rfind_before(h@, n@, end as int) == Some(i as int),
            None => rfind_before(h@, n@, end as int) is None,
        },
{
    let nl = n.len();
    if nl == 0 {
        proof {
            assert(h@.subrange(end as int, end as int) =~= n@);
        }
        return Some(end);
    }
    let mut e: usize = end;
    loop
        invariant_except_break
            end <= h@.len(),
            nl == n@.len(),
            1 <= nl,
            e <= end,
            rfind_before(h@, n@, end as int) == rfind_before(h@, n@, e as int),
        ensures
            e <= end,
            rfind_before(h@, n@, end as int) == rfind_before(h@, n@, e as int),
            e >= nl ==> match_at(h@, n@, e - nl),
            e >= nl ==> rfind_before(h@, n@, e as int) == Some(e - nl),
            e < nl ==> rfind_before(h@, n@, e as int) is None,
        decreases e,
    {
        if e < nl {
            break ;
        }
        if match_window(h, n, e - nl) {
            break ;
        }
        e = e - 1;
    }
    if e >= nl {
        Some(e - nl)
    } else {
        None
    }
}

} // verus!
