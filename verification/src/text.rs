//! Character-level text processing: searching, replacing, trimming and
//! splitting, each stated over the characters of the text.

use vstd::prelude::*;
use vstd::string::StringSliceAdditionalSpecFns;
use vstd::utf8::encode_utf8;

verus! {

broadcast use vstd::string::group_string_axioms;

/// The characters of `s`.
pub fn chars_of(s: &str) -> (r: Vec<char>)
    ensures
        r@ == s@,
{
    let mut v: Vec<char> = Vec::new();
    for c in it: s.chars()
        invariant
            v@ == it.seq().take(it.index() as int),
    {
        v.push(c);
    }
    v
}


/// Appends one character to the string (std's `String::push`).
#[verifier::external_body]
pub(crate) fn push_char(s: &mut String, c: char)
    ensures
        final(s)@ == old(s)@.push(c),
{
    s.push(c);
}

/// The string made of the characters `v`.
pub fn string_of(v: &[char]) -> (r: String)
    ensures
        r@ == v@,
{
    let mut s = String::new();
    let n = v.len();
    let mut i: usize = 0;
    while i < n
        invariant
            n == v@.len(),
            0 <= i <= n,
            s@ == v@.take(i as int),
        decreases n - i,
    {
        push_char(&mut s, v[i]);
        assert(v@.take(i + 1) == v@.take(i as int).push(v@[i as int]));
        i = i + 1;
    }
    assert(v@.take(n as int) == v@);
    s
}

/// `pat` occurs in `s` at index `i`.
pub open spec fn matches_at(s: Seq<char>, i: int, pat: Seq<char>) -> bool {
    0 <= i && i + pat.len() <= s.len() && s.subrange(i, i + pat.len()) == pat
}

/// `s` starts with `pat`.
pub open spec fn starts_with(s: Seq<char>, pat: Seq<char>) -> bool {
    matches_at(s, 0, pat)
}

/// The first index at or after `i` where `pat` occurs in `s`.
pub open spec fn find_from(s: Seq<char>, pat: Seq<char>, i: int) -> Option<int>
    decreases s.len() + 1 - i,
{
    if i < 0 || i + pat.len() > s.len() {
        None
    } else if matches_at(s, i, pat) {
        Some(i)
    } else {
        find_from(s, pat, i + 1)
    }
}

/// The first index where `pat` occurs in `s`.
pub open spec fn find(s: Seq<char>, pat: Seq<char>) -> Option<int> {
    find_from(s, pat, 0)
}

/// Whether `pat` occurs in `s` at index `i`.
pub fn matches_at_exec(s: &[char], i: usize, pat: &[char]) -> (r: bool)
    ensures
        r == matches_at(s@, i as int, pat@),
{
    if i > s.len() || pat.len() > s.len() - i {
        return false;
    }
    let n = pat.len();
    let mut k: usize = 0;
    while k < n
        invariant
            n == pat@.len(),
            i + n <= s@.len(),
            s@.len() <= usize::MAX,
            0 <= k <= n,
            forall|j: int| 0 <= j < k ==> s@[i + j] == pat@[j],
        decreases n - k,
    {
        let idx = i + k;
        if s[idx] != pat[k] {
            assert(s@.subrange(i as int, i + n)[k as int] != pat@[k as int]);
            return false;
        }
        k = k + 1;
    }
    assert(s@.subrange(i as int, i + n) =~= pat@);
    true
}

/// Lemma: no match strictly between `i` and the result of `find_from`.
proof fn lemma_find_from_skips(s: Seq<char>, pat: Seq<char>, i: int, j: int)
    requires
        0 <= i <= j,
        forall|k: int| i <= k < j ==> !matches_at(s, k, pat),
        j + pat.len() <= s.len(),
    ensures
        find_from(s, pat, i) == find_from(s, pat, j),
    decreases j - i,
{
    if i < j {
        lemma_find_from_skips(s, pat, i + 1, j);
    }
}

/// The first index at or after `from` where `pat` occurs in `s`.
pub fn find_from_exec(s: &[char], pat: &[char], from: usize) -> (r: Option<usize>)
    requires
        pat@.len() > 0,
    ensures
        r matches Some(i) ==> find_from(s@, pat@, from as int) == Some(i as int),
        r is None ==> find_from(s@, pat@, from as int) is None,
{
    if from > s.len() || pat.len() > s.len() - from {
        return None;
    }
    let last = s.len() - pat.len();
    let mut i = from;
    while i <= last
        invariant
            last + pat@.len() == s@.len(),
            s@.len() <= usize::MAX,
            pat@.len() > 0,
            from <= i,
            from <= last + 1,
            i <= last + 1,
            forall|k: int| from <= k < i ==> !matches_at(s@, k, pat@),
        decreases last + 1 - i,
    {
        if matches_at_exec(s, i, pat) {
            proof {
                lemma_find_from_skips(s@, pat@, from as int, i as int);
            }
            return Some(i);
        }
        i = i + 1;
    }
    proof {
        lemma_find_from_skips(s@, pat@, from as int, last as int);
        assert(!matches_at(s@, last as int, pat@));
        assert(find_from(s@, pat@, last + 1) is None);
    }
    None
}

/// `s` with every occurrence of the non-empty `pat`, taken from the left
/// without overlap, replaced by `rep`.
pub open spec fn replace_all(s: Seq<char>, pat: Seq<char>, rep: Seq<char>) -> Seq<char>
    decreases s.len(),
{
    if s.len() == 0 {
        s
    } else if pat.len() > 0 && starts_with(s, pat) {
        rep + replace_all(s.skip(pat.len() as int), pat, rep)
    } else {
        seq![s[0]] + replace_all(s.skip(1), pat, rep)
    }
}

proof fn lemma_starts_with_char(s: Seq<char>, p: char)
    requires
        s.len() > 0,
    ensures
        starts_with(s, seq![p]) == (s[0] == p),
{
    if s[0] == p {
        assert(s.subrange(0, 1) =~= seq![p]);
    } else {
        assert(s.subrange(0, 1)[0] != seq![p][0]);
    }
}

/// Replacing a single character works character by character: on a joined
/// text it is the join of the replaced parts.
pub(crate) proof fn lemma_replace_char_concat(a: Seq<char>, b: Seq<char>, p: char, rep: Seq<char>)
    ensures
        replace_all(a + b, seq![p], rep) == replace_all(a, seq![p], rep) + replace_all(b, seq![p], rep),
    decreases a.len(),
{
    if a.len() == 0 {
        assert(a + b =~= b);
        assert(replace_all(a, seq![p], rep) =~= Seq::<char>::empty());
    } else {
        let ab = a + b;
        lemma_replace_char_concat(a.skip(1), b, p, rep);
        assert(ab.skip(1) =~= a.skip(1) + b);
        lemma_starts_with_char(ab, p);
        lemma_starts_with_char(a, p);
        if a[0] == p {
            assert(replace_all(ab, seq![p], rep) =~= replace_all(a, seq![p], rep) + replace_all(b, seq![p], rep));
        } else {
            assert(replace_all(ab, seq![p], rep) =~= replace_all(a, seq![p], rep) + replace_all(b, seq![p], rep));
        }
    }
}

/// Replacing a single character in a one-character text.
pub(crate) proof fn lemma_replace_char_one(x: char, p: char, rep: Seq<char>)
    ensures
        replace_all(seq![x], seq![p], rep) == if x == p { rep } else { seq![x] },
{
    let s = seq![x];
    lemma_starts_with_char(s, p);
    assert(s.skip(1) =~= Seq::<char>::empty());
    assert(replace_all(Seq::<char>::empty(), seq![p], rep) =~= Seq::<char>::empty());
    if x == p {
        assert(rep + Seq::<char>::empty() =~= rep);
    } else {
        assert(seq![x] + Seq::<char>::empty() =~= seq![x]);
    }
}

proof fn lemma_skip_matches(s: Seq<char>, i: int, pat: Seq<char>)
    requires
        0 <= i <= s.len(),
    ensures
        starts_with(s.skip(i), pat) == matches_at(s, i, pat),
{
    if i + pat.len() <= s.len() {
        assert(s.skip(i).subrange(0, pat.len() as int) =~= s.subrange(i, i + pat.len()));
    }
}

/// Replaces every occurrence of the non-empty `pat` by `rep`, as std's `replace`.
pub fn replace_all_exec(s: &[char], pat: &[char], rep: &[char]) -> (r: Vec<char>)
    requires
        pat@.len() > 0,
    ensures
        r@ == replace_all(s@, pat@, rep@),
{
    let mut out: Vec<char> = Vec::new();
    let n = s.len();
    let mut i: usize = 0;
    assert(s@.skip(0) == s@);
    while i < n
        invariant
            n == s@.len(),
            pat@.len() > 0,
            0 <= i <= n,
            out@ + replace_all(s@.skip(i as int), pat@, rep@) == replace_all(s@, pat@, rep@),
        decreases n - i,
    {
        proof {
            lemma_skip_matches(s@, i as int, pat@);
        }
        if matches_at_exec(s, i, pat) {
            let ghost before = out@;
            let mut k: usize = 0;
            while k < rep.len()
                invariant
                    0 <= k <= rep@.len(),
                    out@ == before + rep@.take(k as int),
                decreases rep@.len() - k,
            {
                out.push(rep[k]);
                assert(rep@.take(k + 1) == rep@.take(k as int).push(rep@[k as int]));
                k = k + 1;
            }
            assert(rep@.take(rep@.len() as int) == rep@);
            assert(s@.skip(i as int).skip(pat@.len() as int) == s@.skip(i + pat@.len()));
            assert(out@ + replace_all(s@.skip(i + pat@.len()), pat@, rep@) == before + replace_all(
                s@.skip(i as int),
                pat@,
                rep@,
            ));
            i = i + pat.len();
        } else {
            let ghost before = out@;
            out.push(s[i]);
            assert(s@.skip(i as int).skip(1) == s@.skip(i + 1));
            assert(s@.skip(i as int)[0] == s@[i as int]);
            assert(out@ + replace_all(s@.skip(i + 1), pat@, rep@) == before + replace_all(
                s@.skip(i as int),
                pat@,
                rep@,
            ));
            i = i + 1;
        }
    }
    assert(s@.skip(n as int) == Seq::<char>::empty());
    out
}


/// The characters `s[a..b]` as a new vector.
pub fn copy_range(s: &[char], a: usize, b: usize) -> (r: Vec<char>)
    requires
        a <= b <= s@.len(),
    ensures
        r@ == s@.subrange(a as int, b as int),
{
    let mut out: Vec<char> = Vec::new();
    let mut i = a;
    while i < b
        invariant
            a <= i <= b,
            b <= s@.len(),
            out@ == s@.subrange(a as int, i as int),
        decreases b - i,
    {
        out.push(s[i]);
        assert(s@.subrange(a as int, i + 1) == s@.subrange(a as int, i as int).push(s@[i as int]));
        i = i + 1;
    }
    out
}

/// `c` is white space in the sense of Unicode's White_Space property, as
/// std's `char::is_whitespace`.
pub open spec fn is_white(c: char) -> bool {
    let u = c as u32;
    ||| 0x9 <= u <= 0xD
    ||| u == 0x20
    ||| u == 0x85
    ||| u == 0xA0
    ||| u == 0x1680
    ||| 0x2000 <= u <= 0x200A
    ||| u == 0x2028
    ||| u == 0x2029
    ||| u == 0x202F
    ||| u == 0x205F
    ||| u == 0x3000
}

/// Whether `c` is white space.
pub fn is_white_exec(c: char) -> (r: bool)
    ensures
        r == is_white(c),
{
    let u = c as u32;
    (0x9 <= u && u <= 0xD) || u == 0x20 || u == 0x85 || u == 0xA0 || u == 0x1680 || (0x2000 <= u
        && u <= 0x200A) || u == 0x2028 || u == 0x2029 || u == 0x202F || u == 0x205F || u == 0x3000
}

/// Number of white-space characters at the start of `s`.
pub open spec fn leading_white(s: Seq<char>) -> nat
    decreases s.len(),
{
    if s.len() > 0 && is_white(s[0]) {
        1 + leading_white(s.skip(1))
    } else {
        0
    }
}

/// Number of white-space characters at the end of `s`.
pub open spec fn trailing_white(s: Seq<char>) -> nat
    decreases s.len(),
{
    if s.len() > 0 && is_white(s.last()) {
        1 + trailing_white(s.drop_last())
    } else {
        0
    }
}

/// `s` without its leading white space (std's `trim_start`).
pub open spec fn trim_start(s: Seq<char>) -> Seq<char> {
    s.skip(leading_white(s) as int)
}

/// `s` without its leading and trailing white space (std's `trim`).
pub open spec fn trim(s: Seq<char>) -> Seq<char> {
    let t = trim_start(s);
    t.take(t.len() - trailing_white(t))
}

proof fn lemma_leading_white(s: Seq<char>, i: int)
    requires
        0 <= i <= s.len(),
        forall|j: int| 0 <= j < i ==> is_white(#[trigger] s[j]),
        i == s.len() || !is_white(s[i]),
    ensures
        leading_white(s) == i,
    decreases i,
{
    if i > 0 {
        assert forall|j: int| 0 <= j < i - 1 implies is_white(#[trigger] s.skip(1)[j]) by {
            assert(s.skip(1)[j] == s[j + 1]);
        }
        if i - 1 < s.skip(1).len() {
            assert(s.skip(1)[i - 1] == s[i]);
        }
        lemma_leading_white(s.skip(1), i - 1);
    }
}

proof fn lemma_trailing_white(s: Seq<char>, i: int)
    requires
        0 <= i <= s.len(),
        forall|j: int| i <= j < s.len() ==> is_white(#[trigger] s[j]),
        i == 0 || !is_white(s[i - 1]),
    ensures
        trailing_white(s) == s.len() - i,
    decreases s.len() - i,
{
    if i < s.len() {
        assert forall|j: int| i <= j < s.drop_last().len() implies is_white(#[trigger] s.drop_last()[j]) by {
            assert(s.drop_last()[j] == s[j]);
        }
        if i > 0 {
            assert(s.drop_last()[i - 1] == s[i - 1]);
        }
        lemma_trailing_white(s.drop_last(), i);
    }
}

/// Index of the first character of `s` that is not white space.
fn first_non_white(s: &[char]) -> (r: usize)
    ensures
        r == leading_white(s@),
        r <= s@.len(),
{
    let mut i: usize = 0;
    while i < s.len() && is_white_exec(s[i])
        invariant
            0 <= i <= s@.len(),
            forall|j: int| 0 <= j < i ==> is_white(#[trigger] s@[j]),
        decreases s@.len() - i,
    {
        i = i + 1;
    }
    proof {
        lemma_leading_white(s@, i as int);
    }
    i
}

/// `s` without its leading white space.
pub fn trim_start_exec(s: &[char]) -> (r: Vec<char>)
    ensures
        r@ == trim_start(s@),
{
    let i = first_non_white(s);
    copy_range(s, i, s.len())
}

/// `s` without its leading and trailing white space.
pub fn trim_exec(s: &[char]) -> (r: Vec<char>)
    ensures
        r@ == trim(s@),
{
    let t = trim_start_exec(s);
    let mut e = t.len();
    while e > 0 && is_white_exec(t[e - 1])
        invariant
            0 <= e <= t@.len(),
            forall|j: int| e <= j < t@.len() ==> is_white(#[trigger] t@[j]),
        decreases e,
    {
        e = e - 1;
    }
    proof {
        lemma_trailing_white(t@, e as int);
    }
    copy_range(&t, 0, e)
}

/// Number of copies of `c` at the end of `s`.
pub open spec fn trailing_char(s: Seq<char>, c: char) -> nat
    decreases s.len(),
{
    if s.len() > 0 && s.last() == c {
        1 + trailing_char(s.drop_last(), c)
    } else {
        0
    }
}

/// `s` without the copies of `c` at its end (std's `trim_end_matches` with a char).
pub open spec fn trim_end_char(s: Seq<char>, c: char) -> Seq<char> {
    s.take(s.len() - trailing_char(s, c))
}

proof fn lemma_trailing_char(s: Seq<char>, c: char, i: int)
    requires
        0 <= i <= s.len(),
        forall|j: int| i <= j < s.len() ==> #[trigger] s[j] == c,
        i == 0 || s[i - 1] != c,
    ensures
        trailing_char(s, c) == s.len() - i,
    decreases s.len() - i,
{
    if i < s.len() {
        assert forall|j: int| i <= j < s.drop_last().len() implies #[trigger] s.drop_last()[j] == c by {
            assert(s.drop_last()[j] == s[j]);
        }
        if i > 0 {
            assert(s.drop_last()[i - 1] == s[i - 1]);
        }
        lemma_trailing_char(s.drop_last(), c, i);
    }
}

/// `s` without the copies of `c` at its end.
pub fn trim_end_char_exec(s: &[char], c: char) -> (r: Vec<char>)
    ensures
        r@ == trim_end_char(s@, c),
{
    let mut e = s.len();
    while e > 0 && s[e - 1] == c
        invariant
            0 <= e <= s@.len(),
            forall|j: int| e <= j < s@.len() ==> #[trigger] s@[j] == c,
        decreases e,
    {
        e = e - 1;
    }
    proof {
        lemma_trailing_char(s@, c, e as int);
    }
    copy_range(s, 0, e)
}

/// The text before and after the first `sep` of `s` (std's `split_once` with a char).
pub open spec fn split_once(s: Seq<char>, sep: char) -> Option<(Seq<char>, Seq<char>)> {
    match find(s, seq![sep]) {
        Some(i) => Some((s.take(i), s.skip(i + 1))),
        None => None,
    }
}

/// `line` without one trailing carriage return.
pub open spec fn strip_cr(line: Seq<char>) -> Seq<char> {
    if line.len() > 0 && line.last() == '\r' { line.drop_last() } else { line }
}

/// The lines of `s` (std's `lines`): split at each line feed, a carriage
/// return before the line feed dropped, and no empty line after a final line feed.
pub open spec fn lines_of(s: Seq<char>) -> Seq<Seq<char>>
    decreases s.len(),
{
    if s.len() == 0 {
        seq![]
    } else {
        match find(s, seq!['\n']) {
            Some(i) => if 0 <= i < s.len() {
                seq![strip_cr(s.take(i))] + lines_of(s.skip(i + 1))
            } else {
                seq![]
            },
            None => seq![s],
        }
    }
}

/// Lemma: a found index lies inside the text.
pub proof fn lemma_find_bounds(s: Seq<char>, pat: Seq<char>, from: int)
    requires
        0 <= from,
    ensures
        find_from(s, pat, from) matches Some(i) ==> from <= i && i + pat.len() <= s.len() && matches_at(s, i, pat),
    decreases s.len() + 1 - from,
{
    if from + pat.len() <= s.len() && !matches_at(s, from, pat) {
        lemma_find_bounds(s, pat, from + 1);
    }
}


/// Searching a suffix of `s` is searching `s` from the suffix's start.
pub proof fn lemma_find_skip(s: Seq<char>, pat: Seq<char>, a: int, k: int)
    requires
        0 <= a <= s.len(),
        0 <= k,
    ensures
        find_from(s.skip(a), pat, k) == (match find_from(s, pat, a + k) {
            Some(i) => Some(i - a),
            None => None,
        }),
    decreases s.len() + 1 - (a + k),
{
    let t = s.skip(a);
    if a + k + pat.len() <= s.len() {
        assert(matches_at(t, k, pat) == matches_at(s, a + k, pat)) by {
            assert(t.subrange(k, k + pat.len()) =~= s.subrange(a + k, a + k + pat.len()));
        }
        if !matches_at(s, a + k, pat) {
            lemma_find_skip(s, pat, a, k + 1);
        }
    }
}

/// No character of `s` is `c`.
pub open spec fn free_of(s: Seq<char>, c: char) -> bool {
    forall|i: int| 0 <= i < s.len() ==> s[i] != c
}

/// The lines joined with a line feed between each two.
pub open spec fn joined_lines(ls: Seq<Seq<char>>) -> Seq<char>
    decreases ls.len(),
{
    if ls.len() == 0 {
        seq![]
    } else if ls.len() == 1 {
        ls[0]
    } else {
        ls[0] + seq!['\n'] + joined_lines(ls.skip(1))
    }
}

/// Trimming the start drops white space only, and stops at a character
/// that is not white space.
pub(crate) proof fn lemma_leading_white_stop(s: Seq<char>)
    ensures
        leading_white(s) <= s.len(),
        leading_white(s) < s.len() ==> !is_white(s[leading_white(s) as int]),
    decreases s.len(),
{
    if s.len() > 0 && is_white(s[0]) {
        lemma_leading_white_stop(s.skip(1));
        let n = leading_white(s.skip(1));
        if n < s.skip(1).len() {
            assert(s.skip(1)[n as int] == s[n as int + 1]);
        }
    }
}

/// `find_from` gives the first match at or after `from`, and `None` only when there is none.
proof fn lemma_find_first(s: Seq<char>, pat: Seq<char>, from: int)
    requires
        0 <= from,
    ensures
        find_from(s, pat, from) matches Some(i) ==> forall|k: int| from <= k < i ==> !matches_at(s, k, pat),
        find_from(s, pat, from) is None ==> forall|k: int| from <= k ==> !matches_at(s, k, pat),
    decreases s.len() + 1 - from,
{
    if from + pat.len() <= s.len() && !matches_at(s, from, pat) {
        lemma_find_first(s, pat, from + 1);
    }
}

proof fn lemma_matches_char(s: Seq<char>, k: int, c: char)
    requires
        0 <= k < s.len(),
    ensures
        matches_at(s, k, seq![c]) == (s[k] == c),
{
    if s[k] == c {
        assert(s.subrange(k, k + 1) =~= seq![c]);
    } else {
        assert(s.subrange(k, k + 1)[0] != seq![c][0]);
    }
}

/// Replacing a pattern whose first character does not occur changes nothing.
pub(crate) proof fn lemma_replace_absent(s: Seq<char>, pat: Seq<char>, rep: Seq<char>)
    requires
        pat.len() > 0,
        free_of(s, pat[0]),
    ensures
        replace_all(s, pat, rep) == s,
    decreases s.len(),
{
    if s.len() > 0 {
        if starts_with(s, pat) {
            assert(s.subrange(0, pat.len() as int)[0] == s[0]);
        }
        assert(free_of(s.skip(1), pat[0])) by {
            assert forall|i: int| 0 <= i < s.skip(1).len() implies s.skip(1)[i] != pat[0] by {
                assert(s.skip(1)[i] == s[i + 1]);
            }
        }
        lemma_replace_absent(s.skip(1), pat, rep);
        assert(seq![s[0]] + s.skip(1) =~= s);
    }
}

/// Replacing a character by a text free of it leaves none of it.
pub(crate) proof fn lemma_replace_removes(s: Seq<char>, p: char, rep: Seq<char>)
    requires
        free_of(rep, p),
    ensures
        free_of(replace_all(s, seq![p], rep), p),
    decreases s.len(),
{
    if s.len() > 0 {
        lemma_starts_with_char(s, p);
        lemma_replace_removes(s.skip(1), p, rep);
        let tail = replace_all(s.skip(1), seq![p], rep);
        let r = replace_all(s, seq![p], rep);
        if s[0] == p {
            assert forall|i: int| 0 <= i < r.len() implies r[i] != p by {
                if i >= rep.len() {
                    assert(r[i] == tail[i - rep.len()]);
                }
            }
        } else {
            assert forall|i: int| 0 <= i < r.len() implies r[i] != p by {
                if i >= 1 {
                    assert(r[i] == tail[i - 1]);
                }
            }
        }
    }
}

/// The lines of a text hold no line feed, and no character that the text lacks.
pub(crate) proof fn lemma_lines_free(s: Seq<char>, c: char)
    ensures
        forall|k: int|
            0 <= k < lines_of(s).len() ==> free_of(#[trigger] lines_of(s)[k], '\n') && (free_of(s, c)
                ==> free_of(lines_of(s)[k], c)),
    decreases s.len(),
{
    if s.len() > 0 {
        let nl = seq!['\n'];
        lemma_find_first(s, nl, 0);
        lemma_find_bounds(s, nl, 0);
        match find(s, nl) {
            Some(i) => {
                if 0 <= i < s.len() {
                    let rest = s.skip(i + 1);
                    lemma_lines_free(rest, c);
                    let head = strip_cr(s.take(i));
                    assert forall|j: int| 0 <= j < head.len() implies head[j] != '\n' && (free_of(s, c) ==> head[j] != c) by {
                        assert(head[j] == s[j]);
                        lemma_matches_char(s, j, '\n');
                    }
                    if free_of(s, c) {
                        assert forall|j: int| 0 <= j < rest.len() implies rest[j] != c by {
                            assert(rest[j] == s[j + i + 1]);
                        }
                    }
                    let ls = lines_of(s);
                    assert(ls == seq![head] + lines_of(rest));
                    assert forall|k: int| 0 <= k < ls.len() implies free_of(#[trigger] ls[k], '\n') && (free_of(s, c)
                        ==> free_of(ls[k], c)) by {
                        if k > 0 {
                            assert(ls[k] == lines_of(rest)[k - 1]);
                        }
                    }
                }
            },
            None => {
                assert forall|j: int| 0 <= j < s.len() implies s[j] != '\n' by {
                    lemma_matches_char(s, j, '\n');
                }
                assert(lines_of(s) == seq![s]);
            },
        }
    }
}

/// Lines that are not empty and hold no line feed or carriage return come
/// back unchanged from joining them and splitting the result into lines.
pub(crate) proof fn lemma_lines_of_joined(ls: Seq<Seq<char>>)
    requires
        forall|k: int|
            0 <= k < ls.len() ==> (#[trigger] ls[k]).len() > 0 && free_of(ls[k], '\n') && free_of(ls[k], '\r'),
    ensures
        lines_of(joined_lines(ls)) == ls,
        free_of(joined_lines(ls), '\r'),
    decreases ls.len(),
{
    let nl = seq!['\n'];
    if ls.len() == 0 {
        assert(lines_of(joined_lines(ls)) =~= ls);
    } else if ls.len() == 1 {
        let l = ls[0];
        lemma_find_first(l, nl, 0);
        lemma_find_bounds(l, nl, 0);
        if let Some(i) = find(l, nl) {
            lemma_matches_char(l, i, '\n');
        }
        assert(lines_of(l) == seq![l]);
        assert(seq![l] =~= ls);
    } else {
        let l0 = ls[0];
        let rest = ls.skip(1);
        assert forall|k: int| 0 <= k < rest.len() implies (#[trigger] rest[k]).len() > 0 && free_of(rest[k], '\n')
            && free_of(rest[k], '\r') by {
            assert(rest[k] == ls[k + 1]);
        }
        lemma_lines_of_joined(rest);
        let jr = joined_lines(rest);
        let j = joined_lines(ls);
        assert(j == l0 + nl + jr);
        let n = l0.len() as int;
        assert(j[n] == '\n');
        lemma_matches_char(j, n, '\n');
        lemma_find_first(j, nl, 0);
        lemma_find_bounds(j, nl, 0);
        match find(j, nl) {
            Some(i) => {
                lemma_matches_char(j, i, '\n');
                if i < n {
                    assert(j[i] == l0[i]);
                }
                assert(i == n);
            },
            None => {},
        }
        assert(j.take(n) =~= l0);
        assert(l0.last() != '\r');
        assert(strip_cr(l0) == l0);
        assert(j.skip(n + 1) =~= jr);
        assert(lines_of(j) == seq![l0] + lines_of(jr));
        assert(seq![l0] + rest =~= ls);
        assert forall|i: int| 0 <= i < j.len() implies j[i] != '\r' by {
            if i < n {
                assert(j[i] == l0[i]);
            } else if i > n {
                assert(j[i] == jr[i - n - 1]);
            }
        }
    }
}

/// The views of a list of character vectors.
pub open spec fn views(v: Seq<Vec<char>>) -> Seq<Seq<char>> {
    v.map_values(|x: Vec<char>| x@)
}

/// The lines of `s`, as std's `lines`.
pub fn lines_exec(s: &[char]) -> (r: Vec<Vec<char>>)
    ensures
        views(r@) == lines_of(s@),
{
    let newline: [char; 1] = ['\n'];
    assert(newline@ == seq!['\n']);
    let mut out: Vec<Vec<char>> = Vec::new();
    let n = s.len();
    let mut start: usize = 0;
    assert(s@.skip(0) == s@);
    while start < n
        invariant
            n == s@.len(),
            0 <= start <= n,
            newline@ == seq!['\n'],
            views(out@) + lines_of(s@.skip(start as int)) == lines_of(s@),
        decreases n - start,
    {
        let ghost rest = s@.skip(start as int);
        proof {
            lemma_find_skip(s@, seq!['\n'], start as int, 0);
            lemma_find_bounds(s@, seq!['\n'], start as int);
        }
        match find_from_exec(s, &newline, start) {
            Some(i) => {
                let mut line = copy_range(s, start, i);
                if line.len() > 0 && line[line.len() - 1] == '\r' {
                    line.pop();
                }
                let ghost before = out@;
                assert(line@ == strip_cr(rest.take(i - start))) by {
                    assert(rest.take(i - start) =~= s@.subrange(start as int, i as int));
                }
                out.push(line);
                assert(views(out@) == views(before).push(line@)) by {
                    assert(views(out@) =~= views(before).push(line@));
                }
                assert(rest.skip(i - start + 1) == s@.skip(i + 1));
                assert(views(out@) + lines_of(s@.skip(i + 1)) == views(before) + lines_of(rest)) by {
                    assert(lines_of(rest) == seq![strip_cr(rest.take(i - start))] + lines_of(rest.skip(i - start + 1)));
                    assert(views(out@) + lines_of(s@.skip(i + 1)) =~= views(before) + (seq![line@] + lines_of(s@.skip(i + 1))));
                }
                start = i + 1;
            },
            None => {
                let line = copy_range(s, start, n);
                let ghost before = out@;
                out.push(line);
                assert(line@ == rest);
                assert(lines_of(rest) == seq![rest]);
                assert(views(out@) =~= views(before) + lines_of(rest));
                assert(s@.skip(n as int) == Seq::<char>::empty());
                start = n;
            },
        }
    }
    assert(s@.skip(n as int) == Seq::<char>::empty());
    assert(views(out@) =~= lines_of(s@));
    out
}


/// The byte is kept as it is by percent-encoding: an ASCII letter or digit,
/// or one of `-`, `_`, `.`, `~`.
pub open spec fn unreserved(b: u8) -> bool {
    ||| 0x30 <= b <= 0x39
    ||| 0x41 <= b <= 0x5A
    ||| 0x61 <= b <= 0x7A
    ||| b == 0x2D
    ||| b == 0x5F
    ||| b == 0x2E
    ||| b == 0x7E
}

/// Upper-case hexadecimal digit of a value below 16.
pub open spec fn hex_digit(n: int) -> char {
    if n < 10 { (48 + n) as char } else { (55 + n) as char }
}

/// Percent-encoding of bytes: unreserved bytes are kept, every other byte
/// becomes `%` and two upper-case hexadecimal digits.
pub open spec fn percent_encoded(bs: Seq<u8>) -> Seq<char>
    decreases bs.len(),
{
    if bs.len() == 0 {
        seq![]
    } else {
        let b = bs[0];
        (if unreserved(b) {
            seq![b as char]
        } else {
            seq!['%', hex_digit(b as int / 16), hex_digit(b as int % 16)]
        }) + percent_encoded(bs.skip(1))
    }
}

fn hex_digit_exec(n: u8) -> (r: char)
    requires
        n < 16,
    ensures
        r == hex_digit(n as int),
{
    if n < 10 {
        (48 + n) as char
    } else {
        (55 + n) as char
    }
}

proof fn lemma_percent_encoded_push(bs: Seq<u8>, i: int)
    requires
        0 <= i < bs.len(),
    ensures
        percent_encoded(bs.take(i + 1)) == percent_encoded(bs.take(i)) + percent_encoded(seq![bs[i]]),
    decreases i,
{
    let t = bs.take(i + 1);
    assert(seq![bs[i]].skip(1) =~= Seq::<u8>::empty());
    if i == 0 {
        assert(t.skip(1) =~= Seq::<u8>::empty());
        assert(bs.take(0) =~= Seq::<u8>::empty());
    } else {
        let bs1 = bs.skip(1);
        lemma_percent_encoded_push(bs1, i - 1);
        assert(t.skip(1) =~= bs1.take(i));
        assert(bs.take(i).skip(1) =~= bs1.take(i - 1));
        assert(bs1[i - 1] == bs[i]);
        assert(t[0] == bs[0]);
        assert(bs.take(i)[0] == bs[0]);
    }
}

/// Percent-encodes the UTF-8 bytes of `value`, keeping unreserved bytes.
pub fn percent_encode(value: &str) -> (r: String)
    ensures
        r@ == percent_encoded(encode_utf8(value@)),
{
    let bytes = value.as_bytes();
    assert(bytes@ == value.spec_bytes());
    let mut encoded = String::new();
    let n = bytes.len();
    let mut i: usize = 0;
    while i < n
        invariant
            n == bytes@.len(),
            0 <= i <= n,
            encoded@ == percent_encoded(bytes@.take(i as int)),
        decreases n - i,
    {
        let byte = bytes[i];
        proof {
            lemma_percent_encoded_push(bytes@, i as int);
            assert(seq![byte].skip(1) =~= Seq::<u8>::empty());
        }
        if (0x30 <= byte && byte <= 0x39) || (0x41 <= byte && byte <= 0x5A) || (0x61 <= byte && byte
            <= 0x7A) || byte == 0x2D || byte == 0x5F || byte == 0x2E || byte == 0x7E {
            push_char(&mut encoded, byte as char);
            assert(percent_encoded(seq![byte]) == seq![byte as char] + percent_encoded(Seq::<u8>::empty()));
        } else {
            push_char(&mut encoded, '%');
            push_char(&mut encoded, hex_digit_exec(byte / 16));
            push_char(&mut encoded, hex_digit_exec(byte % 16));
            assert(percent_encoded(seq![byte]) == seq!['%', hex_digit(byte as int / 16), hex_digit(byte as int % 16)]
                + percent_encoded(Seq::<u8>::empty()));
        }
        assert(percent_encoded(Seq::<u8>::empty()) == Seq::<char>::empty());
        i = i + 1;
    }
    assert(bytes@.take(n as int) == bytes@);
    encoded
}

/// The value of a hexadecimal digit, in upper or lower case.
pub open spec fn hex_value(c: char) -> Option<int> {
    let v = c as int;
    if 48 <= v <= 57 {
        Some(v - 48)
    } else if 65 <= v <= 70 {
        Some(v - 55)
    } else if 97 <= v <= 102 {
        Some(v - 87)
    } else {
        None
    }
}

/// Percent-decoding, left to right: `%` and two hexadecimal digits stand for
/// the byte of that value; any other character stands for its own code, as
/// the ASCII characters that percent-encoding keeps do.
pub open spec fn percent_decoded(s: Seq<char>) -> Seq<u8>
    decreases s.len(),
{
    if s.len() == 0 {
        seq![]
    } else if s.len() >= 3 && s[0] == '%' && hex_value(s[1]) is Some && hex_value(s[2]) is Some {
        seq![(hex_value(s[1])->0 * 16 + hex_value(s[2])->0) as u8] + percent_decoded(s.skip(3))
    } else {
        seq![s[0] as u8] + percent_decoded(s.skip(1))
    }
}

/// Percent-decoding gives back the bytes that were percent-encoded.
pub proof fn lemma_percent_round_trip(bs: Seq<u8>)
    ensures
        percent_decoded(percent_encoded(bs)) == bs,
    decreases bs.len(),
{
    if bs.len() > 0 {
        let b = bs[0];
        let rest = percent_encoded(bs.skip(1));
        lemma_percent_round_trip(bs.skip(1));
        if unreserved(b) {
            let e = seq![b as char] + rest;
            assert(e.skip(1) =~= rest);
            assert((b as char) as int == b as int);
            assert(percent_decoded(e) == seq![b] + percent_decoded(rest));
        } else {
            let hi = b as int / 16;
            let lo = b as int % 16;
            let e = seq!['%', hex_digit(hi), hex_digit(lo)] + rest;
            assert(e.skip(3) =~= rest);
            assert(hex_value(hex_digit(hi)) == Some(hi));
            assert(hex_value(hex_digit(lo)) == Some(lo));
            assert(hi * 16 + lo == b as int);
            assert(percent_decoded(e) == seq![b] + percent_decoded(rest));
        }
        assert(seq![b] + bs.skip(1) =~= bs);
    } else {
        assert(bs =~= Seq::<u8>::empty());
    }
}

/// Two texts with the same percent-encoding of their UTF-8 bytes are the same text.
pub proof fn lemma_percent_encoding_injective(a: Seq<char>, b: Seq<char>)
    requires
        percent_encoded(encode_utf8(a)) == percent_encoded(encode_utf8(b)),
    ensures
        a == b,
{
    lemma_percent_round_trip(encode_utf8(a));
    lemma_percent_round_trip(encode_utf8(b));
    vstd::utf8::encode_utf8_decode_utf8(a);
    vstd::utf8::encode_utf8_decode_utf8(b);
}

/// Decimal digits of a natural number.
pub open spec fn digits(n: nat) -> Seq<char>
    decreases n,
{
    if n < 10 {
        seq![(48 + n) as char]
    } else {
        digits(n / 10) + seq![(48 + n % 10) as char]
    }
}

/// Decimal text of an integer, with a leading `-` when negative.
pub open spec fn decimal(n: int) -> Seq<char> {
    if n < 0 { seq!['-'] + digits((-n) as nat) } else { digits(n as nat) }
}

proof fn lemma_digits_facts(n: nat)
    ensures
        digits(n).len() >= 1,
        n >= 10 ==> digits(n).len() >= 2,
        forall|i: int| 0 <= i < digits(n).len() ==> 48 <= (#[trigger] digits(n)[i]) as int <= 57,
    decreases n,
{
    if n >= 10 {
        lemma_digits_facts(n / 10);
        let a = digits(n / 10);
        let last = seq![(48 + n % 10) as char];
        assert forall|i: int| 0 <= i < digits(n).len() implies 48 <= (#[trigger] digits(n)[i]) as int <= 57 by {
            if i < a.len() {
                assert(digits(n)[i] == a[i]);
            } else {
                assert(digits(n)[i] == last[0]);
            }
        }
    } else {
        assert(digits(n)[0] == (48 + n) as char);
    }
}

proof fn lemma_digits_injective(a: nat, b: nat)
    requires
        digits(a) == digits(b),
    ensures
        a == b,
    decreases a,
{
    lemma_digits_facts(a);
    lemma_digits_facts(b);
    if a < 10 && b < 10 {
        assert(digits(a)[0] == (48 + a) as char);
        assert(digits(b)[0] == (48 + b) as char);
    } else if a >= 10 && b >= 10 {
        let da = digits(a);
        assert(da.last() == (48 + a % 10) as char);
        assert(digits(b).last() == (48 + b % 10) as char);
        assert(da.drop_last() =~= digits(a / 10));
        assert(digits(b).drop_last() =~= digits(b / 10));
        lemma_digits_injective(a / 10, b / 10);
    }
}

/// Different integers have different decimal texts.
pub proof fn lemma_decimal_injective(a: int, b: int)
    requires
        decimal(a) == decimal(b),
    ensures
        a == b,
{
    if a < 0 {
        lemma_digits_facts((-a) as nat);
    } else {
        lemma_digits_facts(a as nat);
    }
    if b < 0 {
        lemma_digits_facts((-b) as nat);
    } else {
        lemma_digits_facts(b as nat);
    }
    if a < 0 && b < 0 {
        assert(decimal(a).skip(1) =~= digits((-a) as nat));
        assert(decimal(b).skip(1) =~= digits((-b) as nat));
        lemma_digits_injective((-a) as nat, (-b) as nat);
    } else if a >= 0 && b >= 0 {
        lemma_digits_injective(a as nat, b as nat);
    } else if a < 0 {
        assert(decimal(a)[0] == '-');
        assert(decimal(b)[0] == digits(b as nat)[0]);
    } else {
        assert(decimal(b)[0] == '-');
        assert(decimal(a)[0] == digits(a as nat)[0]);
    }
}

/// The decimal text of `n`, as `format!("{}", n)`.
pub fn decimal_exec(n: i64) -> (r: String)
    ensures
        r@ == decimal(n as int),
{
    let mut m: u64 = if n < 0 {
        ((-(n + 1)) as u64) + 1
    } else {
        n as u64
    };
    let ghost total: nat = m as nat;
    assert(total == if n < 0 { (-n) as nat } else { n as nat });
    // Digits from the last one, collected in reverse.
    let mut rev: Vec<char> = Vec::new();
    let ghost mut done: Seq<char> = seq![];
    loop
        invariant_except_break
            digits(total) == digits(m as nat) + done,
            done.len() == 0 ==> m == total,
            done.len() > 0 ==> m > 0,
        invariant
            m as nat <= total,
            done.len() == rev@.len(),
            forall|j: int| 0 <= j < rev@.len() ==> rev@[j] == done[done.len() - 1 - j],
        ensures
            digits(total) == done,
        decreases m,
    {
        let d = (m % 10) as u8;
        let c = (48 + d) as char;
        assert(c == (48 + (m as nat) % 10) as char);
        proof {
            if m >= 10 {
                assert(digits(m as nat) == digits((m / 10) as nat) + seq![c]);
            } else {
                assert(digits(m as nat) == seq![c]);
            }
        }
        rev.push(c);
        proof {
            let old_done = done;
            done = seq![c] + done;
            assert forall|j: int| 0 <= j < rev@.len() implies rev@[j] == done[done.len() - 1 - j] by {
                if j < rev@.len() - 1 {
                    assert(rev@[j] == old_done[old_done.len() - 1 - j]);
                }
            }
        }
        m = m / 10;
        if m == 0 {
            proof {
                assert(digits(total) == done);
            }
            break;
        }
    }
    let mut r = String::new();
    if n < 0 {
        push_char(&mut r, '-');
    }
    let ghost prefix = r@;
    let mut k = rev.len();
    while k > 0
        invariant
            0 <= k <= rev@.len(),
            done.len() == rev@.len(),
            forall|j: int| 0 <= j < rev@.len() ==> rev@[j] == done[done.len() - 1 - j],
            r@ == prefix + done.take(done.len() - k),
        decreases k,
    {
        k = k - 1;
        push_char(&mut r, rev[k]);
        assert(done.take(done.len() - k) == done.take(done.len() - k - 1).push(done[done.len() - 1 - k]));
    }
    assert(done.take(done.len() as int) == done);
    assert(digits(total) == done);
    r
}


/// `s` without the copies of `c` at its end, as a string.
pub fn trim_end_char_str(s: &str, c: char) -> (r: String)
    ensures
        r@ == trim_end_char(s@, c),
{
    let chars = chars_of(s);
    let t = trim_end_char_exec(&chars, c);
    string_of(&t)
}

} // verus!
