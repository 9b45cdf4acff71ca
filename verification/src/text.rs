//! Character-level text handling: whitespace trimming, pattern search,
//! splitting into lines, and the conversions between bytes, strings and
//! character vectors that the `networksetup` parsers rely on.

use vstd::prelude::*;
use vstd::utf8::*;
use crate::error::ServiceError;

verus! {

broadcast use vstd::string::group_string_axioms;

/// The Unicode `White_Space` property, which `char::is_whitespace` (and so
/// `str::trim`) tests.
pub open spec fn is_white_space(c: char) -> bool {
    let u = c as u32;
    ||| 0x09 <= u <= 0x0D
    ||| u == 0x20
    ||| u == 0x85
    ||| u == 0xA0
    ||| u == 0x1680
    ||| 0x2000 <= u <= 0x200A
    ||| u == 0x2028
    ||| u == 0x2029
    ||| u == 0x202F
    ||| u == 0x205F
    ||| u == 0x3000
}

/// `s` with its leading whitespace removed.
pub open spec fn trim_start(s: Seq<char>) -> Seq<char>
    decreases s.len(),
{
    if s.len() > 0 && is_white_space(s[0]) {
        trim_start(s.drop_first())
    } else {
        s
    }
}

/// `s` with its trailing whitespace removed.
pub open spec fn trim_end(s: Seq<char>) -> Seq<char>
    decreases s.len(),
{
    if s.len() > 0 && is_white_space(s.last()) {
        trim_end(s.drop_last())
    } else {
        s
    }
}

/// `s` with whitespace removed at both ends, as `str::trim` does.
pub open spec fn trim(s: Seq<char>) -> Seq<char> {
    trim_end(trim_start(s))
}

/// `pat` occurs in `s` starting at index `i`.
pub open spec fn occurs_at(s: Seq<char>, pat: Seq<char>, i: int) -> bool {
    &&& 0 <= i
    &&& i + pat.len() <= s.len()
    &&& s.subrange(i, i + pat.len()) == pat
}

/// `i` is the index of the first occurrence of `pat` in `s`.
pub open spec fn is_first_occurrence(s: Seq<char>, pat: Seq<char>, i: int) -> bool {
    &&& occurs_at(s, pat, i)
    &&& forall|j: int| 0 <= j < i ==> !occurs_at(s, pat, j)
}

/// The index of the first occurrence of `pat` in `s`, as `str::find` gives it
/// (counted in characters).
pub open spec fn find_str(s: Seq<char>, pat: Seq<char>) -> Option<int> {
    if exists|i: int| is_first_occurrence(s, pat, i) {
        Some(choose|i: int| is_first_occurrence(s, pat, i))
    } else {
        None
    }
}

/// The pieces of `s` between the `'\n'` characters, as `str::split('\n')`
/// yields them: always at least one piece.
pub open spec fn split_lines(s: Seq<char>) -> Seq<Seq<char>>
    decreases s.len(),
{
    match find_str(s, seq!['\n']) {
        Some(i) => if 0 <= i < s.len() {
            seq![s.take(i)] + split_lines(s.skip(i + 1))
        } else {
            seq![s]
        },
        None => seq![s],
    }
}

/// Characters whose UTF-8 encoding is a single byte.
pub open spec fn is_ascii_char(c: char) -> bool {
    (c as u32) < 0x80
}

pub proof fn lemma_first_occurrence_unique(s: Seq<char>, pat: Seq<char>, i: int)
    requires
        is_first_occurrence(s, pat, i),
    ensures
        find_str(s, pat) == Some(i),
{
    let k = choose|k: int| is_first_occurrence(s, pat, k);
    assert(is_first_occurrence(s, pat, k));
    if k < i {
        assert(!occurs_at(s, pat, k));
    } else if i < k {
        assert(!occurs_at(s, pat, i));
    }
}

proof fn lemma_occurs_at_shift(s: Seq<char>, pat: Seq<char>, from: int, to: int, j: int)
    requires
        0 <= from <= to <= s.len(),
        0 <= j,
        j + pat.len() <= to - from,
    ensures
        occurs_at(s.subrange(from, to), pat, j) == (s.subrange(from + j, from + j + pat.len())
            == pat),
{
    assert(s.subrange(from, to).subrange(j, j + pat.len()) =~= s.subrange(
        from + j,
        from + j + pat.len(),
    ));
}

proof fn lemma_trim_start_shape(s: Seq<char>)
    ensures
        trim_start(s).len() == 0 || !is_white_space(trim_start(s)[0]),
        trim_start(trim_start(s)) == trim_start(s),
    decreases s.len(),
{
    if s.len() > 0 && is_white_space(s[0]) {
        lemma_trim_start_shape(s.drop_first());
    }
}

proof fn lemma_trim_end_shape(s: Seq<char>)
    ensures
        trim_end(s).len() <= s.len(),
        trim_end(s) == s.take(trim_end(s).len() as int),
        trim_end(s).len() == 0 || !is_white_space(trim_end(s).last()),
        trim_end(trim_end(s)) == trim_end(s),
    decreases s.len(),
{
    if s.len() > 0 && is_white_space(s.last()) {
        lemma_trim_end_shape(s.drop_last());
        assert(s.drop_last().take(trim_end(s).len() as int) =~= s.take(trim_end(s).len() as int));
    } else {
        assert(s.take(s.len() as int) =~= s);
    }
}

proof fn lemma_trim_start_drops_white(s: Seq<char>)
    ensures
        trim_start(s).len() <= s.len(),
        trim_start(s) == s.skip(s.len() - trim_start(s).len()),
        forall|i: int| 0 <= i < s.len() - trim_start(s).len() ==> is_white_space(s[i]),
    decreases s.len(),
{
    if s.len() > 0 && is_white_space(s[0]) {
        let d = s.drop_first();
        lemma_trim_start_drops_white(d);
        assert(d.skip(d.len() - trim_start(d).len()) =~= s.skip(s.len() - trim_start(s).len()));
        assert forall|i: int| 0 <= i < s.len() - trim_start(s).len() implies is_white_space(s[i]) by {
            if i > 0 {
                assert(s[i] == d[i - 1]);
            }
        }
    } else {
        assert(s.skip(0) =~= s);
    }
}

proof fn lemma_trim_end_drops_white(s: Seq<char>)
    ensures
        forall|i: int| trim_end(s).len() <= i < s.len() ==> is_white_space(s[i]),
    decreases s.len(),
{
    lemma_trim_end_shape(s);
    if s.len() > 0 && is_white_space(s.last()) {
        let d = s.drop_last();
        lemma_trim_end_drops_white(d);
        assert forall|i: int| trim_end(s).len() <= i < s.len() implies is_white_space(s[i]) by {
            if i < s.len() - 1 {
                assert(s[i] == d[i]);
            }
        }
    }
}

/// `str::trim` cuts away exactly the whitespace at both ends: the trimmed
/// text is a contiguous part of `s`, everything before and after it is
/// whitespace, and, unless it is empty, it starts and ends with a character
/// that is not whitespace.
pub proof fn law_trim_cuts_white_space(s: Seq<char>) -> (r: (int, int))
    ensures
        0 <= r.0 <= r.1 <= s.len(),
        trim(s) == s.subrange(r.0, r.1),
        forall|i: int| 0 <= i < r.0 ==> is_white_space(s[i]),
        forall|i: int| r.1 <= i < s.len() ==> is_white_space(s[i]),
        r.0 < r.1 ==> !is_white_space(s[r.0]) && !is_white_space(s[r.1 - 1]),
{
    let t = trim_start(s);
    lemma_trim_start_drops_white(s);
    lemma_trim_start_shape(s);
    let a = s.len() - t.len();
    lemma_trim_end_shape(t);
    lemma_trim_end_drops_white(t);
    let u = trim_end(t);
    let m = u.len() as int;
    assert(u =~= s.subrange(a, a + m));
    assert forall|i: int| a + m <= i < s.len() implies is_white_space(s[i]) by {
        assert(s[i] == t[i - a]);
    }
    if m > 0 {
        assert(u[0] == t[0]);
        assert(s[a] == u[0]);
        assert(s[a + m - 1] == u.last());
    }
    (a, a + m)
}

/// Trimming a trimmed text changes nothing.
pub proof fn lemma_trim_idempotent(s: Seq<char>)
    ensures
        trim(trim(s)) == trim(s),
{
    let t = trim_start(s);
    lemma_trim_start_shape(s);
    lemma_trim_end_shape(t);
    let u = trim_end(t);
    if u.len() > 0 {
        assert(u[0] == t[0]);
    }
    assert(trim_start(u) == u);
}

/// The lines of `lines`, joined with `'\n'` between them.
pub open spec fn join_lines(lines: Seq<Seq<char>>) -> Seq<char>
    decreases lines.len(),
{
    if lines.len() == 0 {
        seq![]
    } else if lines.len() == 1 {
        lines[0]
    } else {
        lines[0] + seq!['\n'] + join_lines(lines.drop_first())
    }
}

proof fn lemma_first_occurrence_exists(s: Seq<char>, pat: Seq<char>, j: int)
    requires
        occurs_at(s, pat, j),
    ensures
        exists|i: int| is_first_occurrence(s, pat, i),
    decreases j,
{
    if exists|m: int| 0 <= m < j && occurs_at(s, pat, m) {
        let m = choose|m: int| 0 <= m < j && occurs_at(s, pat, m);
        lemma_first_occurrence_exists(s, pat, m);
    } else {
        assert(is_first_occurrence(s, pat, j));
    }
}

/// Splitting on `'\n'` loses nothing and keeps no `'\n'`: the lines hold no
/// `'\n'`, and joined with `'\n'` they give back the text.
pub proof fn law_split_lines_rejoin(s: Seq<char>)
    ensures
        join_lines(split_lines(s)) == s,
        forall|k: int| 0 <= k < split_lines(s).len() ==> is_single_line(#[trigger] split_lines(s)[k]),
    decreases s.len(),
{
    let nl = seq!['\n'];
    match find_str(s, nl) {
        Some(i) => {
            let w = choose|w: int| is_first_occurrence(s, nl, w);
            assert(is_first_occurrence(s, nl, w));
            assert(s.subrange(i, i + 1)[0] == s[i]);
            assert(s[i] == '\n');
            assert forall|j: int| 0 <= j < i implies s.take(i)[j] != '\n' by {
                assert(!occurs_at(s, nl, j));
                assert(s.subrange(j, j + 1) =~= seq![s[j]]);
            }
            let rest = s.skip(i + 1);
            law_split_lines_rejoin(rest);
            let lines = split_lines(s);
            assert(lines == seq![s.take(i)] + split_lines(rest));
            assert(split_lines(rest).len() >= 1);
            assert(lines.drop_first() =~= split_lines(rest));
            assert(s =~= s.take(i) + nl + rest);
            assert forall|k: int| 0 <= k < lines.len() implies is_single_line(#[trigger] lines[k]) by {
                if k > 0 {
                    assert(lines[k] == split_lines(rest)[k - 1]);
                }
            }
        },
        None => {
            assert forall|j: int| 0 <= j < s.len() implies s[j] != '\n' by {
                if s[j] == '\n' {
                    assert(s.subrange(j, j + 1) =~= nl);
                    lemma_first_occurrence_exists(s, nl, j);
                }
            }
            lemma_split_single_line(s);
        },
    }
}

/// Whether `c` is whitespace in the sense of `char::is_whitespace`.
pub fn is_whitespace_char(c: char) -> (r: bool)
    ensures
        r == is_white_space(c),
{
    let u: u32 = c as u32;
    (0x09 <= u && u <= 0x0D) || u == 0x20 || u == 0x85 || u == 0xA0 || u == 0x1680 || (0x2000
        <= u && u <= 0x200A) || u == 0x2028 || u == 0x2029 || u == 0x202F || u == 0x205F || u
        == 0x3000
}

/// The bounds, inside `from..to`, of the trimmed slice `v[from..to]`.
pub fn trim_bounds(v: &Vec<char>, from: usize, to: usize) -> (r: (usize, usize))
    requires
        from <= to <= v.len(),
    ensures
        from <= r.0 <= r.1 <= to,
        v@.subrange(r.0 as int, r.1 as int) == trim(v@.subrange(from as int, to as int)),
{
    let mut a: usize = from;
    while a < to && is_whitespace_char(v[a])
        invariant
            from <= a <= to <= v.len(),
            trim_start(v@.subrange(from as int, to as int)) == trim_start(
                v@.subrange(a as int, to as int),
            ),
        decreases to - a,
    {
        assert(v@.subrange(a as int, to as int).drop_first() =~= v@.subrange(
            a + 1,
            to as int,
        ));
        a = a + 1;
    }
    assert(trim_start(v@.subrange(a as int, to as int)) == v@.subrange(a as int, to as int));
    let mut b: usize = to;
    while b > a && is_whitespace_char(v[b - 1])
        invariant
            from <= a <= b <= to <= v.len(),
            trim_end(v@.subrange(a as int, to as int)) == trim_end(
                v@.subrange(a as int, b as int),
            ),
        decreases b - a,
    {
        assert(v@.subrange(a as int, b as int).drop_last() =~= v@.subrange(
            a as int,
            b - 1,
        ));
        b = b - 1;
    }
    (a, b)
}

/// Whether `pat` occurs in `v` at index `i`.
fn occurs_at_index(v: &Vec<char>, i: usize, pat: &Vec<char>) -> (r: bool)
    requires
        i + pat.len() <= v.len(),
    ensures
        r == (v@.subrange(i as int, i + pat.len()) == pat@),
{
    let mut k: usize = 0;
    while k < pat.len()
        invariant
            k <= pat.len(),
            i + pat.len() <= v.len(),
            forall|m: int| 0 <= m < k ==> v@[i + m] == pat@[m],
        decreases pat.len() - k,
    {
        if v[i + k] != pat[k] {
            assert(v@.subrange(i as int, i + pat.len())[k as int] != pat@[k as int]);
            return false;
        }
        k = k + 1;
    }
    assert(v@.subrange(i as int, i + pat.len()) =~= pat@);
    true
}

/// The first index at which `pat` occurs in `v[from..to]`, counted from the
/// start of `v`, as `str::find` finds it in that slice.
pub fn find_in(v: &Vec<char>, from: usize, to: usize, pat: &Vec<char>) -> (r: Option<usize>)
    requires
        from <= to <= v.len(),
        pat.len() > 0,
    ensures
        match r {
            Some(i) => from <= i && i + pat.len() <= to && find_str(
                v@.subrange(from as int, to as int),
                pat@,
            ) == Some(i - from),
            None => find_str(v@.subrange(from as int, to as int), pat@) is None,
        },
{
    let ghost s = v@.subrange(from as int, to as int);
    if pat.len() > to - from {
        assert forall|i: int| !is_first_occurrence(s, pat@, i) by {}
        return None;
    }
    let last: usize = to - pat.len();
    let mut i: usize = from;
    while i <= last
        invariant
            from <= i <= last + 1,
            last + pat.len() == to,
            pat.len() > 0,
            to <= v.len(),
            s == v@.subrange(from as int, to as int),
            forall|j: int| 0 <= j < i - from ==> !occurs_at(s, pat@, j),
        decreases last + 1 - i,
    {
        proof {
            lemma_occurs_at_shift(v@, pat@, from as int, to as int, i - from);
        }
        if occurs_at_index(v, i, pat) {
            proof {
                lemma_first_occurrence_unique(s, pat@, i - from);
            }
            return Some(i);
        }
        i = i + 1;
    }
    assert forall|k: int| !is_first_occurrence(s, pat@, k) by {
        if 0 <= k && k < i - from {
        } else if k >= i - from {
            assert(!occurs_at(s, pat@, k));
        }
    }
    None
}

/// The number of bytes in the UTF-8 encoding of `c`.
fn utf8_width(c: char) -> (r: usize)
    ensures
        r == encode_scalar(c as u32).len(),
{
    proof {
        char_is_scalar(c);
    }
    let u: u32 = c as u32;
    if u < 0x80 {
        1
    } else if u < 0x800 {
        2
    } else if u < 0x10000 {
        3
    } else {
        4
    }
}

/// Whether the UTF-8 encoding of `v[from..to]` is longer than `limit` bytes.
pub fn utf8_longer_than(v: &Vec<char>, from: usize, to: usize, limit: usize) -> (r: bool)
    requires
        from <= to <= v.len(),
        limit < usize::MAX - 4,
    ensures
        r == (encode_utf8(v@.subrange(from as int, to as int)).len() > limit),
{
    let mut acc: usize = 0;
    let mut i: usize = from;
    while i < to
        invariant
            from <= i <= to <= v.len(),
            acc <= limit,
            limit < usize::MAX - 4,
            encode_utf8(v@.subrange(from as int, to as int)).len() == acc + encode_utf8(
                v@.subrange(i as int, to as int),
            ).len(),
        decreases to - i,
    {
        let ghost rest = v@.subrange(i as int, to as int);
        assert(rest.drop_first() =~= v@.subrange(i + 1, to as int));
        assert(rest[0] == v@[i as int]);
        acc = acc + utf8_width(v[i]);
        i = i + 1;
        if acc > limit {
            return true;
        }
    }
    assert(v@.subrange(i as int, to as int) =~= Seq::<char>::empty());
    false
}

/// `s` holds no `'\n'`.
pub open spec fn is_single_line(s: Seq<char>) -> bool {
    forall|i: int| 0 <= i < s.len() ==> s[i] != '\n'
}

/// A text with no `'\n'` is one line.
pub proof fn lemma_split_single_line(s: Seq<char>)
    requires
        is_single_line(s),
    ensures
        split_lines(s) == seq![s],
{
    assert forall|i: int| !is_first_occurrence(s, seq!['\n'], i) by {
        if occurs_at(s, seq!['\n'], i) {
            assert(s.subrange(i, i + 1)[0] == s[i]);
        }
    }
}

/// The first line of `h + "\n" + r` is `h`, and the rest are the lines of
/// `r`.
pub proof fn lemma_split_first_line(h: Seq<char>, r: Seq<char>)
    requires
        is_single_line(h),
    ensures
        split_lines(h + seq!['\n'] + r) == seq![h] + split_lines(r),
{
    let s = h + seq!['\n'] + r;
    let n = h.len() as int;
    assert(s.subrange(n, n + 1) =~= seq!['\n']);
    assert forall|j: int| 0 <= j < n implies !occurs_at(s, seq!['\n'], j) by {
        assert(s.subrange(j, j + 1)[0] == h[j]);
    }
    lemma_first_occurrence_unique(s, seq!['\n'], n);
    assert(s.take(n) =~= h);
    assert(s.skip(n + 1) =~= r);
}

/// Calls `String::push`, which appends one character to the string; the
/// contract claims exactly that: the new text is the old one followed by `c`.
#[verifier::external_body]
fn push_char(s: &mut String, c: char)
    ensures
        final(s)@ == old(s)@.push(c),
{
    s.push(c);
}

/// The string made of the characters `v[from..to]`.
pub fn string_of(v: &Vec<char>, from: usize, to: usize) -> (r: String)
    requires
        from <= to <= v.len(),
    ensures
        r@ == v@.subrange(from as int, to as int),
{
    let mut s = String::new();
    let mut i: usize = from;
    while i < to
        invariant
            from <= i <= to <= v.len(),
            s@ == v@.subrange(from as int, i as int),
        decreases to - i,
    {
        push_char(&mut s, v[i]);
        assert(v@.subrange(from as int, i + 1) =~= v@.subrange(from as int, i as int).push(
            v@[i as int],
        ));
        i = i + 1;
    }
    s
}

/// The characters of `s`, in order.
pub fn chars_of(s: &String) -> (r: Vec<char>)
    ensures
        r@ == s@,
{
    let mut v: Vec<char> = Vec::new();
    for c in it: s.as_str().chars()
        invariant
            it.seq() == s@,
            v@ == s@.take(it.index() as int),
    {
        v.push(c);
        assert(s@.take(it.index() + 1) =~= s@.take(it.index() as int).push(c));
    }
    assert(v@ =~= s@);
    v
}

/// `n` is the length of the longest prefix of `bytes` that is valid UTF-8.
pub open spec fn is_longest_valid_prefix(bytes: Seq<u8>, n: int) -> bool {
    &&& 0 <= n <= bytes.len()
    &&& valid_utf8(bytes.take(n))
    &&& forall|k: int| n < k <= bytes.len() ==> !valid_utf8(#[trigger] bytes.take(k))
}

/// The length of the longest prefix of `bytes` that is valid UTF-8: where
/// decoding stops.
pub open spec fn longest_valid_prefix(bytes: Seq<u8>) -> int {
    choose|n: int| is_longest_valid_prefix(bytes, n)
}

/// The length of the invalid byte sequence at which decoding `bytes` stops,
/// as `Utf8Error::error_len` reports it (`None` when the bytes end in the
/// middle of a character).
pub uninterp spec fn utf8_error_len(bytes: Seq<u8>) -> Option<usize>;

/// How decoding `bytes` as UTF-8 fails: where the valid prefix ends, and the
/// length of the invalid sequence there.
pub open spec fn utf8_error_of(bytes: Seq<u8>) -> ServiceError {
    ServiceError::InvalidUtf8 {
        valid_up_to: longest_valid_prefix(bytes) as usize,
        error_len: utf8_error_len(bytes),
    }
}

pub proof fn lemma_longest_valid_prefix_unique(bytes: Seq<u8>, n: int)
    requires
        is_longest_valid_prefix(bytes, n),
    ensures
        longest_valid_prefix(bytes) == n,
{
    let m = choose|m: int| is_longest_valid_prefix(bytes, m);
    assert(is_longest_valid_prefix(bytes, m));
    if m < n {
        assert(!valid_utf8(bytes.take(n)));
    } else if n < m {
        assert(!valid_utf8(bytes.take(m)));
    }
}

/// Calls `String::from_utf8` and, on failure, reads the error's
/// `Utf8Error::valid_up_to` and `Utf8Error::error_len`. The contract claims
/// what the documentation states: the call succeeds exactly when the bytes
/// are valid UTF-8 (as vstd's `valid_utf8` defines it), and the string then
/// holds the characters that the bytes encode (vstd's `decode_utf8`); on
/// failure, `valid_up_to` is the largest index up to which the bytes decode,
/// short of their end, and `error_len` is either the length (at least one, in
/// the bytes) of the invalid sequence that starts there, or `None` when the
/// input ends within one to three bytes of that index. Which length the
/// decoder reports for an invalid sequence is left to the name
/// `utf8_error_len`.
#[verifier::external_body]
fn string_from_utf8(bytes: Vec<u8>) -> (r: Result<String, (usize, Option<usize>)>)
    ensures
        r is Ok <==> valid_utf8(bytes@),
        r matches Ok(s) ==> s@ == decode_utf8(bytes@),
        r matches Err(e) ==> {
            &&& is_longest_valid_prefix(bytes@, e.0 as int)
            &&& e.0 < bytes@.len()
            &&& e.1 == utf8_error_len(bytes@)
            &&& match e.1 {
                Some(n) => 1 <= n && e.0 + n <= bytes@.len(),
                None => bytes@.len() - e.0 <= 3,
            }
        },
{
    match String::from_utf8(bytes) {
        Ok(s) => Ok(s),
        Err(e) => Err((e.utf8_error().valid_up_to(), e.utf8_error().error_len())),
    }
}

/// The text that `bytes` encode, or how decoding them fails.
pub fn decode_text(bytes: Vec<u8>) -> (r: Result<String, ServiceError>)
    ensures
        r is Ok <==> valid_utf8(bytes@),
        r matches Ok(s) ==> s@ == decode_utf8(bytes@),
        r matches Err(e) ==> e == utf8_error_of(bytes@),
{
    let ghost b = bytes@;
    match string_from_utf8(bytes) {
        Ok(s) => Ok(s),
        Err((valid_up_to, error_len)) => {
            proof {
                lemma_longest_valid_prefix_unique(b, valid_up_to as int);
            }
            Err(ServiceError::InvalidUtf8 { valid_up_to, error_len })
        },
    }
}

/// The `(start, end)` bounds in `v` of the pieces of `v` between its `'\n'`
/// characters.
pub fn line_bounds(v: &Vec<char>) -> (r: Vec<(usize, usize)>)
    ensures
        r@.len() == split_lines(v@).len(),
        forall|k: int|
            0 <= k < r@.len() ==> {
                &&& r@[k].0 <= r@[k].1 <= v.len()
                &&& v@.subrange(r@[k].0 as int, r@[k].1 as int) == #[trigger] split_lines(
                    v@,
                )[k]
            },
{
    let newline: Vec<char> = vec!['\n'];
    let mut r: Vec<(usize, usize)> = Vec::new();
    let mut start: usize = 0;
    let n: usize = v.len();
    assert(v@.skip(0) =~= v@);
    assert(Seq::new(0 as nat, |k: int| v@.subrange(r@[k].0 as int, r@[k].1 as int)) + split_lines(v@)
        =~= split_lines(v@));
    loop
        invariant
            n == v.len(),
            start <= n,
            newline@ == seq!['\n'],
            split_lines(v@) == Seq::new(
                r@.len() as nat,
                |k: int| v@.subrange(r@[k].0 as int, r@[k].1 as int),
            ) + split_lines(v@.skip(start as int)),
            forall|k: int| 0 <= k < r@.len() ==> #[trigger] r@[k].0 <= r@[k].1 <= n,
        decreases n - start,
    {
        let ghost rest = v@.skip(start as int);
        assert(v@.subrange(start as int, n as int) =~= rest);
        let ghost old_r = r@;
        match find_in(v, start, n, &newline) {
            Some(i) => {
                let ghost j = i - start;
                assert(rest.take(j) =~= v@.subrange(start as int, i as int));
                assert(rest.skip(j + 1) =~= v@.skip(i + 1));
                assert(split_lines(rest) == seq![rest.take(j)] + split_lines(rest.skip(j + 1)));
                r.push((start, i));
                assert forall|k: int| 0 <= k < r@.len() implies #[trigger] r@[k].0 <= r@[k].1 <= n by {
                    if k < old_r.len() {
                        assert(r@[k] == old_r[k]);
                    }
                }
                assert(Seq::new(r@.len() as nat, |k: int| v@.subrange(r@[k].0 as int, r@[k].1 as int))
                    =~= Seq::new(old_r.len() as nat, |k: int| v@.subrange(old_r[k].0 as int, old_r[k].1 as int))
                    + seq![v@.subrange(start as int, i as int)]);
                start = i + 1;
            },
            None => {
                assert(split_lines(rest) == seq![rest]);
                r.push((start, n));
                assert(Seq::new(r@.len() as nat, |k: int| v@.subrange(r@[k].0 as int, r@[k].1 as int))
                    =~= Seq::new(old_r.len() as nat, |k: int| v@.subrange(old_r[k].0 as int, old_r[k].1 as int))
                    + split_lines(rest));
                return r;
            },
        }
    }
}

} // verus!
