//! The CalDAV provider: iCalendar reading and writing, and the requests and
//! replies of a CalDAV calendar.

use vstd::prelude::*;
use vstd::utf8::encode_utf8;
use crate::text::{
    chars_of, copy_range, find, find_from_exec, lemma_find_bounds, lemma_find_skip, lines_exec,
    lines_of, matches_at_exec, replace_all, replace_all_exec, split_once, starts_with, string_of, trim,
    trim_end_char, trim_end_char_exec, trim_exec, trim_start, trim_start_exec, views,
};
use crate::time::{
    MAX_DELTA_SECS, MAX_UNIX_SECS, Timestamp, format_utc, formatted, ical_format, micros, now, parse_date, parse_naive, parse_rfc3339,
    parsed_date, parsed_naive, parsed_rfc3339,
};
use crate::slots::{
    Availability, Booking, BookingRequest, BusyRange, conflicts, has_conflict, lemma_proper_concat,
    lemma_slots_are_free, ranges_proper, ranges_wf, slot_secs, slots_exact, slots_fit, try_availability_slots,
};
use crate::http::{
    Auth, Event, HttpMethod, HttpRequest, Step, header_views, is_basic, owned, CREATED, FORBIDDEN, MULTI_STATUS, UNAUTHORIZED, is_success,
    status_is_success,
};
use crate::text::{
    decimal, decimal_exec, free_of, lemma_decimal_injective, lemma_percent_encoding_injective, is_white, joined_lines, leading_white, lemma_leading_white_stop,
    lemma_lines_free, lemma_lines_of_joined, lemma_replace_absent, lemma_replace_char_concat,
    lemma_replace_char_one, lemma_replace_removes, percent_encode, percent_encoded,
};

verus! {

broadcast use vstd::string::group_string_axioms;

// ---------------------------------------------------------------------------
// Escaping.

/// `s` with the XML entities `&lt;`, `&gt;`, `&quot;`, `&apos;` and, last,
/// `&amp;` replaced by the characters they stand for.
pub open spec fn unescaped_xml(s: Seq<char>) -> Seq<char> {
    let a = replace_all(s, seq!['&', 'l', 't', ';'], seq!['<']);
    let b = replace_all(a, seq!['&', 'g', 't', ';'], seq!['>']);
    let c = replace_all(b, seq!['&', 'q', 'u', 'o', 't', ';'], seq!['"']);
    let d = replace_all(c, seq!['&', 'a', 'p', 'o', 's', ';'], seq!['\'']);
    replace_all(d, seq!['&', 'a', 'm', 'p', ';'], seq!['&'])
}

fn unescape_xml_chars(value: &[char]) -> (r: Vec<char>)
    ensures
        r@ == unescaped_xml(value@),
{
    let lt: [char; 4] = ['&', 'l', 't', ';'];
    let gt: [char; 4] = ['&', 'g', 't', ';'];
    let quot: [char; 6] = ['&', 'q', 'u', 'o', 't', ';'];
    let apos: [char; 6] = ['&', 'a', 'p', 'o', 's', ';'];
    let amp: [char; 5] = ['&', 'a', 'm', 'p', ';'];
    assert(lt@ == seq!['&', 'l', 't', ';']);
    assert(gt@ == seq!['&', 'g', 't', ';']);
    assert(quot@ == seq!['&', 'q', 'u', 'o', 't', ';']);
    assert(apos@ == seq!['&', 'a', 'p', 'o', 's', ';']);
    assert(amp@ == seq!['&', 'a', 'm', 'p', ';']);
    let r_lt: [char; 1] = ['<'];
    let r_gt: [char; 1] = ['>'];
    let r_quot: [char; 1] = ['"'];
    let r_apos: [char; 1] = ['\''];
    let r_amp: [char; 1] = ['&'];
    assert(r_lt@ == seq!['<'] && r_gt@ == seq!['>'] && r_quot@ == seq!['"']);
    assert(r_apos@ == seq!['\''] && r_amp@ == seq!['&']);
    let a = replace_all_exec(value, &lt, &r_lt);
    let b = replace_all_exec(&a, &gt, &r_gt);
    let c = replace_all_exec(&b, &quot, &r_quot);
    let d = replace_all_exec(&c, &apos, &r_apos);
    replace_all_exec(&d, &amp, &r_amp)
}

/// Replaces the XML entities of `value` by the characters they stand for.
pub fn unescape_xml(value: &str) -> (r: String)
    ensures
        r@ == unescaped_xml(value@),
{
    let chars = chars_of(value);
    let r = unescape_xml_chars(&chars);
    string_of(&r)
}

/// `s` with `\`, `;`, `,` and line feeds escaped for an iCalendar text value.
pub open spec fn escaped_ical_text(s: Seq<char>) -> Seq<char> {
    let a = replace_all(s, seq!['\\'], seq!['\\', '\\']);
    let b = replace_all(a, seq![';'], seq!['\\', ';']);
    let c = replace_all(b, seq![','], seq!['\\', ',']);
    replace_all(c, seq!['\n'], seq!['\\', 'n'])
}

/// Escapes `value` for use as an iCalendar text value.
pub fn escape_ical_text(value: &str) -> (r: String)
    ensures
        r@ == escaped_ical_text(value@),
{
    let chars = chars_of(value);
    let p_bs: [char; 1] = ['\\'];
    let p_semi: [char; 1] = [';'];
    let p_comma: [char; 1] = [','];
    let p_nl: [char; 1] = ['\n'];
    let r_bs: [char; 2] = ['\\', '\\'];
    let r_semi: [char; 2] = ['\\', ';'];
    let r_comma: [char; 2] = ['\\', ','];
    let r_nl: [char; 2] = ['\\', 'n'];
    assert(p_bs@ == seq!['\\'] && p_semi@ == seq![';'] && p_comma@ == seq![','] && p_nl@ == seq!['\n']);
    assert(r_bs@ == seq!['\\', '\\'] && r_semi@ == seq!['\\', ';'] && r_comma@ == seq!['\\', ','] && r_nl@
        == seq!['\\', 'n']);
    let a = replace_all_exec(&chars, &p_bs, &r_bs);
    let b = replace_all_exec(&a, &p_semi, &r_semi);
    let c = replace_all_exec(&b, &p_comma, &r_comma);
    let d = replace_all_exec(&c, &p_nl, &r_nl);
    string_of(&d)
}


/// Decoding of an iCalendar text value, left to right: `\\`, `\;`, `\,` and
/// `\n` stand for a backslash, `;`, `,` and a line feed; any other character
/// stands for itself.
pub open spec fn unescaped_ical_text(s: Seq<char>) -> Seq<char>
    decreases s.len(),
{
    if s.len() == 0 {
        seq![]
    } else if s.len() >= 2 && s[0] == '\\' && (s[1] == '\\' || s[1] == ';' || s[1] == ',' || s[1] == 'n') {
        seq![if s[1] == 'n' { '\n' } else { s[1] }] + unescaped_ical_text(s.skip(2))
    } else {
        seq![s[0]] + unescaped_ical_text(s.skip(1))
    }
}

/// The escape of one character.
spec fn escaped_char(c: char) -> Seq<char> {
    if c == '\\' {
        seq!['\\', '\\']
    } else if c == ';' {
        seq!['\\', ';']
    } else if c == ',' {
        seq!['\\', ',']
    } else if c == '\n' {
        seq!['\\', 'n']
    } else {
        seq![c]
    }
}

/// Replacing a character that occurs in neither of two characters changes nothing.
proof fn lemma_replace_pair(x: char, y: char, p: char, rep: Seq<char>)
    requires
        x != p,
        y != p,
    ensures
        replace_all(seq![x, y], seq![p], rep) == seq![x, y],
{
    assert(seq![x, y] =~= seq![x] + seq![y]);
    lemma_replace_char_concat(seq![x], seq![y], p, rep);
    lemma_replace_char_one(x, p, rep);
    lemma_replace_char_one(y, p, rep);
}

proof fn lemma_escaped_one(c: char)
    ensures
        escaped_ical_text(seq![c]) == escaped_char(c),
{
    let bs = seq!['\\', '\\'];
    let se = seq!['\\', ';'];
    let co = seq!['\\', ','];
    let nl = seq!['\\', 'n'];
    lemma_replace_char_one(c, '\\', bs);
    if c == '\\' {
        lemma_replace_pair('\\', '\\', ';', se);
        lemma_replace_pair('\\', '\\', ',', co);
        lemma_replace_pair('\\', '\\', '\n', nl);
    } else {
        lemma_replace_char_one(c, ';', se);
        if c == ';' {
            lemma_replace_pair('\\', ';', ',', co);
            lemma_replace_pair('\\', ';', '\n', nl);
        } else {
            lemma_replace_char_one(c, ',', co);
            if c == ',' {
                lemma_replace_pair('\\', ',', '\n', nl);
            } else {
                lemma_replace_char_one(c, '\n', nl);
            }
        }
    }
}

proof fn lemma_escaped_concat(a: Seq<char>, b: Seq<char>)
    ensures
        escaped_ical_text(a + b) == escaped_ical_text(a) + escaped_ical_text(b),
{
    let bs = seq!['\\', '\\'];
    let se = seq!['\\', ';'];
    let co = seq!['\\', ','];
    let nl = seq!['\\', 'n'];
    let a1 = replace_all(a, seq!['\\'], bs);
    let b1 = replace_all(b, seq!['\\'], bs);
    lemma_replace_char_concat(a, b, '\\', bs);
    let a2 = replace_all(a1, seq![';'], se);
    let b2 = replace_all(b1, seq![';'], se);
    lemma_replace_char_concat(a1, b1, ';', se);
    let a3 = replace_all(a2, seq![','], co);
    let b3 = replace_all(b2, seq![','], co);
    lemma_replace_char_concat(a2, b2, ',', co);
    lemma_replace_char_concat(a3, b3, '\n', nl);
}

/// Decoding an escaped iCalendar text value gives back the text.
pub proof fn lemma_ical_text_round_trip(s: Seq<char>)
    ensures
        unescaped_ical_text(escaped_ical_text(s)) == s,
    decreases s.len(),
{
    if s.len() == 0 {
        assert(escaped_ical_text(s) =~= Seq::<char>::empty());
    } else {
        let c = s[0];
        let rest = s.skip(1);
        assert(s =~= seq![c] + rest);
        lemma_escaped_concat(seq![c], rest);
        lemma_escaped_one(c);
        lemma_ical_text_round_trip(rest);
        let er = escaped_ical_text(rest);
        let e = escaped_char(c) + er;
        if c == '\\' || c == ';' || c == ',' || c == '\n' {
            assert(e.skip(2) =~= er);
            assert(e[0] == '\\');
            assert(unescaped_ical_text(e) == seq![c] + unescaped_ical_text(er));
        } else {
            assert(e.skip(1) =~= er);
            assert(e[0] == c);
            assert(unescaped_ical_text(e) == seq![c] + unescaped_ical_text(er));
        }
    }
}

// ---------------------------------------------------------------------------
// Unfolding iCalendar lines.

/// `s` with each `\r\n`, and then each remaining `\r`, turned into a line feed.
pub open spec fn normalized_newlines(s: Seq<char>) -> Seq<char> {
    replace_all(replace_all(s, seq!['\r', '\n'], seq!['\n']), seq!['\r'], seq!['\n'])
}

/// The line continues the one before it: it starts with a space or a tab.
pub open spec fn is_continuation(l: Seq<char>) -> bool {
    l.len() > 0 && (l[0] == ' ' || l[0] == '\t')
}

/// The logical line `current` as a list, empty when it is empty.
pub open spec fn nonempty(current: Seq<char>) -> Seq<Seq<char>> {
    if current.len() > 0 { seq![current] } else { seq![] }
}

/// Folds continuation lines, trimmed at their start, into the logical line
/// before them; empty logical lines are dropped.
pub open spec fn unfold_from(lines: Seq<Seq<char>>, current: Seq<char>) -> Seq<Seq<char>>
    decreases lines.len(),
{
    if lines.len() == 0 {
        nonempty(current)
    } else if is_continuation(lines[0]) {
        unfold_from(lines.skip(1), current + trim_start(lines[0]))
    } else {
        nonempty(current) + unfold_from(lines.skip(1), lines[0])
    }
}

/// The logical lines of an iCalendar text.
pub open spec fn unfolded(value: Seq<char>) -> Seq<Seq<char>> {
    unfold_from(lines_of(normalized_newlines(value)), seq![])
}

/// A logical line: not empty, without line breaks, and not a continuation.
pub open spec fn logical_line(l: Seq<char>) -> bool {
    l.len() > 0 && free_of(l, '\n') && free_of(l, '\r') && !is_continuation(l)
}

proof fn lemma_normalized_free(v: Seq<char>)
    ensures
        free_of(normalized_newlines(v), '\r'),
{
    assert(free_of(seq!['\n'], '\r'));
    lemma_replace_removes(replace_all(v, seq!['\r', '\n'], seq!['\n']), '\r', seq!['\n']);
}

proof fn lemma_normalized_unchanged(v: Seq<char>)
    requires
        free_of(v, '\r'),
    ensures
        normalized_newlines(v) == v,
{
    lemma_replace_absent(v, seq!['\r', '\n'], seq!['\n']);
    lemma_replace_absent(v, seq!['\r'], seq!['\n']);
}

proof fn lemma_unfold_from_logical(lines: Seq<Seq<char>>, current: Seq<char>)
    requires
        forall|k: int| 0 <= k < lines.len() ==> free_of(#[trigger] lines[k], '\n') && free_of(lines[k], '\r'),
        free_of(current, '\n'),
        free_of(current, '\r'),
        !is_continuation(current),
    ensures
        forall|k: int| 0 <= k < unfold_from(lines, current).len() ==> logical_line(#[trigger] unfold_from(lines, current)[k]),
    decreases lines.len(),
{
    let r = unfold_from(lines, current);
    if lines.len() == 0 {
        assert(r == nonempty(current));
        if current.len() > 0 {
            assert(r[0] == current);
        }
        return;
    }
    let l0 = lines[0];
    let rest = lines.skip(1);
    assert forall|k: int| 0 <= k < rest.len() implies free_of(#[trigger] rest[k], '\n') && free_of(rest[k], '\r') by {
        assert(rest[k] == lines[k + 1]);
    }
    assert(free_of(l0, '\n') && free_of(l0, '\r'));
    if is_continuation(l0) {
        let t = trim_start(l0);
        let next = current + t;
        lemma_leading_white_stop(l0);
        let n = leading_white(l0) as int;
        assert forall|i: int| 0 <= i < next.len() implies next[i] != '\n' && next[i] != '\r' by {
            if i >= current.len() {
                assert(next[i] == l0[n + i - current.len()]);
            }
        }
        if current.len() == 0 && next.len() > 0 {
            assert(next[0] == l0[n]);
            assert(is_white(' ') && is_white('\t'));
        }
        lemma_unfold_from_logical(rest, next);
        assert(r == unfold_from(rest, next));
    } else {
        lemma_unfold_from_logical(rest, l0);
        let tail = unfold_from(rest, l0);
        assert(r == nonempty(current) + tail);
        assert forall|k: int| 0 <= k < r.len() implies logical_line(#[trigger] r[k]) by {
            if k >= nonempty(current).len() {
                assert(r[k] == tail[k - nonempty(current).len()]);
            } else {
                assert(r[k] == current);
            }
        }
    }
}

proof fn lemma_unfold_from_logical_lines(ls: Seq<Seq<char>>, current: Seq<char>)
    requires
        forall|k: int| 0 <= k < ls.len() ==> logical_line(#[trigger] ls[k]),
    ensures
        unfold_from(ls, current) == nonempty(current) + ls,
    decreases ls.len(),
{
    if ls.len() == 0 {
        assert(nonempty(current) + ls =~= nonempty(current));
    } else {
        let rest = ls.skip(1);
        assert forall|k: int| 0 <= k < rest.len() implies logical_line(#[trigger] rest[k]) by {
            assert(rest[k] == ls[k + 1]);
        }
        assert(logical_line(ls[0]));
        lemma_unfold_from_logical_lines(rest, ls[0]);
        assert(nonempty(ls[0]) == seq![ls[0]]);
        assert(nonempty(current) + (seq![ls[0]] + rest) =~= nonempty(current) + ls);
    }
}

/// Unfolding is idempotent: the logical lines, joined with line feeds and
/// unfolded again, are the same lines.
pub proof fn lemma_unfold_idempotent(v: Seq<char>)
    ensures
        unfolded(joined_lines(unfolded(v))) == unfolded(v),
{
    let n = normalized_newlines(v);
    lemma_normalized_free(v);
    lemma_lines_free(n, '\r');
    let raw = lines_of(n);
    assert(free_of(Seq::<char>::empty(), '\n') && free_of(Seq::<char>::empty(), '\r'));
    lemma_unfold_from_logical(raw, seq![]);
    let ls = unfolded(v);
    assert forall|k: int| 0 <= k < ls.len() implies (#[trigger] ls[k]).len() > 0 && free_of(ls[k], '\n') && free_of(
        ls[k],
        '\r',
    ) by {
        assert(logical_line(ls[k]));
    }
    lemma_lines_of_joined(ls);
    lemma_normalized_unchanged(joined_lines(ls));
    lemma_unfold_from_logical_lines(ls, seq![]);
    assert(nonempty(Seq::<char>::empty()) + ls =~= ls);
}

/// The views of a list of strings.
pub open spec fn string_views(v: Seq<String>) -> Seq<Seq<char>> {
    v.map_values(|x: String| x@)
}

fn unfold_chars(value: &[char]) -> (r: Vec<Vec<char>>)
    ensures
        views(r@) == unfolded(value@),
{
    let crlf: [char; 2] = ['\r', '\n'];
    let cr: [char; 1] = ['\r'];
    let lf: [char; 1] = ['\n'];
    assert(crlf@ == seq!['\r', '\n'] && cr@ == seq!['\r'] && lf@ == seq!['\n']);
    let a = replace_all_exec(value, &crlf, &lf);
    let normal = replace_all_exec(&a, &cr, &lf);
    let lines = lines_exec(&normal);
    let ghost ls = views(lines@);
    let mut out: Vec<Vec<char>> = Vec::new();
    let mut current: Vec<char> = Vec::new();
    let n = lines.len();
    let mut i: usize = 0;
    assert(ls.skip(0) == ls);
    while i < n
        invariant
            n == lines@.len(),
            ls == views(lines@),
            ls.len() == n,
            0 <= i <= n,
            views(out@) + unfold_from(ls.skip(i as int), current@) == unfold_from(ls, seq![]),
        decreases n - i,
    {
        let line = &lines[i];
        assert(line@ == ls[i as int]);
        assert(ls.skip(i as int).skip(1) == ls.skip(i + 1));
        assert(ls.skip(i as int)[0] == ls[i as int]);
        if line.len() > 0 && (line[0] == ' ' || line[0] == '\t') {
            let t = trim_start_exec(line);
            let mut k: usize = 0;
            let ghost before = current@;
            while k < t.len()
                invariant
                    0 <= k <= t@.len(),
                    current@ == before + t@.take(k as int),
                decreases t@.len() - k,
            {
                current.push(t[k]);
                assert(t@.take(k + 1) == t@.take(k as int).push(t@[k as int]));
                k = k + 1;
            }
            assert(t@.take(t@.len() as int) == t@);
            assert(is_continuation(ls[i as int]));
        } else {
            let ghost before = out@;
            let ghost old_current = current@;
            assert(!is_continuation(ls[i as int]));
            assert(unfold_from(ls.skip(i as int), old_current) == nonempty(old_current) + unfold_from(
                ls.skip(i + 1),
                ls[i as int],
            ));
            if current.len() > 0 {
                let finished = current;
                out.push(finished);
                assert(views(out@) =~= views(before) + nonempty(old_current));
            } else {
                assert(views(out@) =~= views(before) + nonempty(old_current));
            }
            current = copy_range(line, 0, line.len());
            assert(current@ == line@);
        }
        i = i + 1;
    }
    let ghost before = out@;
    if current.len() > 0 {
        let finished = current;
        out.push(finished);
        assert(views(out@) =~= views(before) + seq![finished@]);
    } else {
        assert(views(out@) =~= views(before));
    }
    assert(ls.skip(n as int) == Seq::<Seq<char>>::empty());
    out
}


/// Unfolds folded iCalendar lines: line endings are normalised, lines that
/// start with a space or tab are joined, trimmed, to the line before them,
/// and empty logical lines are dropped.
pub fn unfold_ical_lines(value: &str) -> (r: Vec<String>)
    ensures
        string_views(r@) == unfolded(value@),
{
    let chars = chars_of(value);
    let lines = unfold_chars(&chars);
    let mut out: Vec<String> = Vec::new();
    let n = lines.len();
    let mut i: usize = 0;
    while i < n
        invariant
            n == lines@.len(),
            0 <= i <= n,
            string_views(out@) == views(lines@).take(i as int),
        decreases n - i,
    {
        let s = string_of(&lines[i]);
        let ghost before = out@;
        out.push(s);
        assert(string_views(out@) =~= string_views(before).push(s@));
        assert(views(lines@).take(i + 1) =~= views(lines@).take(i as int).push(lines@[i as int]@));
        i = i + 1;
    }
    assert(views(lines@).take(n as int) =~= views(lines@));
    out
}

// ---------------------------------------------------------------------------
// Reading iCalendar date-times.

/// The instant an iCalendar value stands for: an eight-byte value is a date
/// at midnight UTC; otherwise, after dropping trailing `Z`s, a date-time with
/// seconds, then one without them, and last an RFC 3339 date-time.
pub open spec fn ical_instant(value: Seq<char>) -> Option<Timestamp> {
    let v = trim(value);
    if encode_utf8(v).len() == 8 {
        parsed_date(v, "%Y%m%d"@)
    } else {
        let t = trim_end_char(v, 'Z');
        match parsed_naive(t, "%Y%m%dT%H%M%S"@) {
            Some(x) => Some(x),
            None => match parsed_naive(t, "%Y%m%dT%H%M"@) {
                Some(x) => Some(x),
                None => parsed_rfc3339(v),
            },
        }
    }
}

/// Reads the instant of an iCalendar date or date-time value.
pub fn parse_ical_datetime(value: &str) -> (r: Option<Timestamp>)
    ensures
        r == ical_instant(value@),
        r matches Some(t) ==> t.wf(),
{
    let chars = chars_of(value);
    let v = trim_exec(&chars);
    let vs = string_of(&v);
    if vs.as_str().as_bytes().len() == 8 {
        return parse_date(vs.as_str(), "%Y%m%d");
    }
    let t = trim_end_char_exec(&v, 'Z');
    let ts = string_of(&t);
    if let Some(x) = parse_naive(ts.as_str(), "%Y%m%dT%H%M%S") {
        return Some(x);
    }
    if let Some(x) = parse_naive(ts.as_str(), "%Y%m%dT%H%M") {
        return Some(x);
    }
    parse_rfc3339(vs.as_str())
}

// ---------------------------------------------------------------------------
// Busy ranges of the events of a calendar reply.

/// `BEGIN:VEVENT`.
pub open spec fn begin_vevent() -> Seq<char> {
    seq!['B', 'E', 'G', 'I', 'N', ':', 'V', 'E', 'V', 'E', 'N', 'T']
}

/// `END:VEVENT`.
pub open spec fn end_vevent() -> Seq<char> {
    seq!['E', 'N', 'D', ':', 'V', 'E', 'V', 'E', 'N', 'T']
}

/// `DTSTART`.
pub open spec fn dtstart() -> Seq<char> {
    seq!['D', 'T', 'S', 'T', 'A', 'R', 'T']
}

/// `DTEND`.
pub open spec fn dtend() -> Seq<char> {
    seq!['D', 'T', 'E', 'N', 'D']
}

/// The bodies of the events of `s`: the text between each `BEGIN:VEVENT`
/// and the next `END:VEVENT`, scanning from the left; a `BEGIN:VEVENT`
/// without an `END:VEVENT` after it ends the scan.
pub open spec fn vevents(s: Seq<char>) -> Seq<Seq<char>>
    decreases s.len(),
{
    match find(s, begin_vevent()) {
        Some(i) => if 0 <= i && i + 12 <= s.len() {
            let rest = s.skip(i + 12);
            match find(rest, end_vevent()) {
                Some(j) => if 0 <= j && j + 10 <= rest.len() {
                    seq![rest.take(j)] + vevents(rest.skip(j + 10))
                } else {
                    seq![]
                },
                None => seq![],
            }
        } else {
            seq![]
        },
        None => seq![],
    }
}

/// The instant after the first `:` of a property line.
pub open spec fn line_instant(line: Seq<char>) -> Option<Timestamp> {
    match split_once(line, ':') {
        Some((_, value)) => ical_instant(value),
        None => None,
    }
}

/// The instant of the last line that starts with `key`, `None` when there is none.
pub open spec fn last_property(lines: Seq<Seq<char>>, key: Seq<char>) -> Option<Timestamp>
    decreases lines.len(),
{
    if lines.len() == 0 {
        None
    } else if starts_with(lines.last(), key) {
        line_instant(lines.last())
    } else {
        last_property(lines.drop_last(), key)
    }
}

/// The busy range of an event body: its `DTSTART` and `DTEND`, when both can
/// be read and the end is after the start.
pub open spec fn event_range(event: Seq<char>) -> Option<BusyRange> {
    let lines = unfolded(event);
    match (last_property(lines, dtstart()), last_property(lines, dtend())) {
        (Some(s), Some(e)) => if e.pos() > s.pos() { Some((s, e)) } else { None },
        _ => None,
    }
}

/// The busy ranges of the events, in order.
pub open spec fn event_ranges(events: Seq<Seq<char>>) -> Seq<BusyRange>
    decreases events.len(),
{
    if events.len() == 0 {
        seq![]
    } else {
        (match event_range(events[0]) {
            Some(r) => seq![r],
            None => seq![],
        }) + event_ranges(events.skip(1))
    }
}

/// The busy ranges of a CalDAV calendar-query reply.
pub open spec fn ical_busy_ranges(body: Seq<char>) -> Seq<BusyRange> {
    event_ranges(vevents(unescaped_xml(body)))
}

fn line_instant_exec(line: &[char]) -> (r: Option<Timestamp>)
    ensures
        r == line_instant(line@),
        r matches Some(t) ==> t.wf(),
{
    let colon: [char; 1] = [':'];
    assert(colon@ == seq![':']);
    proof {
        lemma_find_bounds(line@, seq![':'], 0);
    }
    match find_from_exec(line, &colon, 0) {
        Some(i) => {
            let len = line.len();
            assert(i + 1 <= len);
            let value = copy_range(line, i + 1, len);
            assert(value@ == line@.skip(i + 1));
            let vs = string_of(&value);
            parse_ical_datetime(vs.as_str())
        },
        None => None,
    }
}

fn event_range_exec(event: &[char]) -> (r: Option<BusyRange>)
    ensures
        r == event_range(event@),
        r matches Some(x) ==> x.0.wf() && x.1.wf(),
{
    let lines = unfold_chars(event);
    let ghost ls = views(lines@);
    let start_key: [char; 7] = ['D', 'T', 'S', 'T', 'A', 'R', 'T'];
    let end_key: [char; 5] = ['D', 'T', 'E', 'N', 'D'];
    assert(start_key@ == dtstart() && end_key@ == dtend());
    let mut starts_at: Option<Timestamp> = None;
    let mut ends_at: Option<Timestamp> = None;
    let n = lines.len();
    let mut i: usize = 0;
    assert(ls.take(0) =~= Seq::<Seq<char>>::empty());
    while i < n
        invariant
            n == lines@.len(),
            ls == views(lines@),
            ls.len() == n,
            0 <= i <= n,
            start_key@ == dtstart(),
            end_key@ == dtend(),
            starts_at == last_property(ls.take(i as int), dtstart()),
            ends_at == last_property(ls.take(i as int), dtend()),
            starts_at matches Some(t) ==> t.wf(),
            ends_at matches Some(t) ==> t.wf(),
        decreases n - i,
    {
        let line = &lines[i];
        let ghost pre = ls.take(i as int);
        let ghost post = ls.take(i + 1);
        assert(post.last() == line@ && post.drop_last() == pre);
        if matches_at_exec(line, 0, &start_key) {
            starts_at = line_instant_exec(line);
            assert(!starts_with(line@, dtend())) by {
                assert(line@.subrange(0, 7)[2] == 'S');
                if starts_with(line@, dtend()) {
                    assert(line@.subrange(0, 5)[2] == 'E');
                }
            }
        } else if matches_at_exec(line, 0, &end_key) {
            ends_at = line_instant_exec(line);
        }
        i = i + 1;
    }
    assert(ls.take(n as int) == ls);
    match (starts_at, ends_at) {
        (Some(start), Some(end)) => {
            if start.is_before(&end) {
                Some((start, end))
            } else {
                None
            }
        },
        _ => None,
    }
}

/// The busy ranges `(DTSTART, DTEND)` of the events in a CalDAV
/// calendar-query reply, in the order of the events.
pub fn parse_ical_busy_ranges(body: &str) -> (r: Vec<BusyRange>)
    ensures
        r@ == ical_busy_ranges(body@),
        crate::slots::ranges_wf(r@),
{
    let chars = chars_of(body);
    let u = unescape_xml_chars(&chars);
    let begin: [char; 12] = ['B', 'E', 'G', 'I', 'N', ':', 'V', 'E', 'V', 'E', 'N', 'T'];
    let end: [char; 10] = ['E', 'N', 'D', ':', 'V', 'E', 'V', 'E', 'N', 'T'];
    assert(begin@ == begin_vevent() && end@ == end_vevent());
    let mut ranges: Vec<BusyRange> = Vec::new();
    let n = u.len();
    let mut pos: usize = 0;
    assert(u@.skip(0) == u@);
    loop
        invariant
            n == u@.len(),
            0 <= pos <= n,
            begin@ == begin_vevent(),
            end@ == end_vevent(),
            ranges@ + event_ranges(vevents(u@.skip(pos as int))) == event_ranges(vevents(u@)),
            crate::slots::ranges_wf(ranges@),
        ensures
            ranges@ == event_ranges(vevents(u@)),
            crate::slots::ranges_wf(ranges@),
        decreases n - pos,
    {
        let ghost rest = u@.skip(pos as int);
        proof {
            lemma_find_skip(u@, begin_vevent(), pos as int, 0);
            lemma_find_bounds(u@, begin_vevent(), pos as int);
        }
        let start_index = match find_from_exec(&u, &begin, pos) {
            Some(i) => i,
            None => {
                assert(vevents(rest) == Seq::<Seq<char>>::empty());
                assert(event_ranges(Seq::<Seq<char>>::empty()) == Seq::<BusyRange>::empty());
                assert(ranges@ =~= ranges@ + event_ranges(vevents(rest)));
                break;
            },
        };
        let after_begin = start_index + 12;
        let ghost rest2 = u@.skip(after_begin as int);
        assert(rest.skip(start_index - pos + 12) == rest2);
        proof {
            lemma_find_skip(u@, end_vevent(), after_begin as int, 0);
            lemma_find_bounds(u@, end_vevent(), after_begin as int);
        }
        let end_index = match find_from_exec(&u, &end, after_begin) {
            Some(j) => j,
            None => {
                assert(vevents(rest) == Seq::<Seq<char>>::empty());
                assert(event_ranges(Seq::<Seq<char>>::empty()) == Seq::<BusyRange>::empty());
                assert(ranges@ =~= ranges@ + event_ranges(vevents(rest)));
                break;
            },
        };
        let event = copy_range(&u, after_begin, end_index);
        assert(event@ == rest2.take(end_index - after_begin));
        assert(rest2.skip(end_index - after_begin + 10) == u@.skip(end_index + 10));
        assert(vevents(rest) == seq![event@] + vevents(u@.skip(end_index + 10)));
        let ghost before = ranges@;
        let found = event_range_exec(&event);
        let ghost evs = vevents(rest);
        assert(evs[0] == event@);
        assert(evs.skip(1) == vevents(u@.skip(end_index + 10)));
        match found {
            Some(r) => {
                ranges.push(r);
                assert(ranges@ + event_ranges(vevents(u@.skip(end_index + 10))) =~= before
                    + event_ranges(evs));
            },
            None => {
                assert(ranges@ + event_ranges(vevents(u@.skip(end_index + 10))) =~= before
                    + event_ranges(evs));
            },
        }
        pos = end_index + 10;
    }
    ranges
}


// ---------------------------------------------------------------------------
// Writing iCalendar and CalDAV request bodies.

/// An instant in the iCalendar UTC form, as chrono writes it.
pub open spec fn ical_text(t: Timestamp) -> Seq<char> {
    formatted(t, ical_format())
}

/// Writes `value` in the iCalendar UTC form `YYYYMMDDTHHMMSSZ`.
pub fn ical_datetime(value: Timestamp) -> (r: String)
    requires
        value.wf(),
    ensures
        r@ == ical_text(value),
{
    format_utc(value, "%Y%m%dT%H%M%SZ")
}

/// Start of a calendar-query report, up to the start of its time range.
pub const QUERY_HEAD: &'static str = "<?xml version=\"1.0\" encoding=\"utf-8\" ?>\n<C:calendar-query xmlns:D=\"DAV:\" xmlns:C=\"urn:ietf:params:xml:ns:caldav\">\n  <D:prop>\n    <D:getetag />\n    <C:calendar-data />\n  </D:prop>\n  <C:filter>\n    <C:comp-filter name=\"VCALENDAR\">\n      <C:comp-filter name=\"VEVENT\">\n        <C:time-range start=\"";

/// Between the start and the end of the time range of a calendar-query report.
pub const QUERY_MIDDLE: &'static str = "\" end=\"";

/// End of a calendar-query report, after the end of its time range.
pub const QUERY_TAIL: &'static str = "\" />\n      </C:comp-filter>\n    </C:comp-filter>\n  </C:filter>\n</C:calendar-query>";

/// The calendar-query report for the events in `[from, to]`.
pub open spec fn query_report(from: Timestamp, to: Timestamp) -> Seq<char> {
    QUERY_HEAD@ + ical_text(from) + QUERY_MIDDLE@ + ical_text(to) + QUERY_TAIL@
}

/// The CalDAV calendar-query report that asks for the events in `[from, to]`.
pub fn calendar_query_report(from: Timestamp, to: Timestamp) -> (r: String)
    requires
        from.wf(),
        to.wf(),
    ensures
        r@ == query_report(from, to),
{
    let mut r = String::new();
    r.append(QUERY_HEAD);
    r.append(ical_datetime(from).as_str());
    r.append(QUERY_MIDDLE);
    r.append(ical_datetime(to).as_str());
    r.append(QUERY_TAIL);
    r
}

/// Start of a booked event, up to its UID.
pub const ICS_HEAD: &'static str = "BEGIN:VCALENDAR\r\nVERSION:2.0\r\nPRODID:-//schedj//calendar//EN\r\nBEGIN:VEVENT\r\nUID:";

/// Before the time stamp of a booked event.
pub const ICS_STAMP: &'static str = "\r\nDTSTAMP:";

/// Before the creation time of a booked event.
pub const ICS_CREATED: &'static str = "\r\nCREATED:";

/// Before the start of a booked event.
pub const ICS_START: &'static str = "\r\nDTSTART:";

/// Before the end of a booked event.
pub const ICS_END: &'static str = "\r\nDTEND:";

/// Before the summary of a booked event.
pub const ICS_SUMMARY: &'static str = "\r\nSUMMARY:";

/// End of a booked event.
pub const ICS_TAIL: &'static str = "\r\nEND:VEVENT\r\nEND:VCALENDAR\r\n";

/// The iCalendar text of an event, stamped at `stamp` and created at `created`.
pub open spec fn event_text(
    uid: Seq<char>,
    from: Timestamp,
    to: Timestamp,
    summary: Seq<char>,
    stamp: Timestamp,
    created: Timestamp,
) -> Seq<char> {
    ICS_HEAD@ + escaped_ical_text(uid) + ICS_STAMP@ + ical_text(stamp) + ICS_CREATED@ + ical_text(created)
        + ICS_START@ + ical_text(from) + ICS_END@ + ical_text(to) + ICS_SUMMARY@ + escaped_ical_text(summary)
        + ICS_TAIL@
}

/// The iCalendar text of an event, with the given time stamp and creation time.
pub fn event_ics_at(
    uid: &str,
    from: Timestamp,
    to: Timestamp,
    summary: &str,
    stamp: Timestamp,
    created: Timestamp,
) -> (r: String)
    requires
        from.wf(),
        to.wf(),
        stamp.wf(),
        created.wf(),
    ensures
        r@ == event_text(uid@, from, to, summary@, stamp, created),
{
    let mut r = String::new();
    r.append(ICS_HEAD);
    r.append(escape_ical_text(uid).as_str());
    r.append(ICS_STAMP);
    r.append(ical_datetime(stamp).as_str());
    r.append(ICS_CREATED);
    r.append(ical_datetime(created).as_str());
    r.append(ICS_START);
    r.append(ical_datetime(from).as_str());
    r.append(ICS_END);
    r.append(ical_datetime(to).as_str());
    r.append(ICS_SUMMARY);
    r.append(escape_ical_text(summary).as_str());
    r.append(ICS_TAIL);
    r
}

/// The iCalendar text of an event, stamped and created now.
pub fn event_ics(uid: &str, from: Timestamp, to: Timestamp, summary: &str) -> (r: String)
    requires
        from.wf(),
        to.wf(),
    ensures
        exists|stamp: Timestamp, created: Timestamp|
            stamp.wf() && created.wf() && r@ == event_text(uid@, from, to, summary@, stamp, created),
{
    let stamp = now();
    let created = now();
    event_ics_at(uid, from, to, summary, stamp, created)
}


// ---------------------------------------------------------------------------
// The provider.

/// Days ahead that availability covers unless configured.
pub const DEFAULT_LOOKAHEAD_DAYS: i64 = 14;

/// Length of a slot in minutes unless configured.
pub const DEFAULT_SLOT_MINUTES: i64 = 30;

/// Summary of booked events unless configured.
pub const DEFAULT_BOOKING_SUMMARY: &'static str = "Schedj booking";

/// The most days that a duration can hold.
pub const MAX_LOOKAHEAD_DAYS: i64 = 106_751_991_167;

/// A calendar reached over CalDAV with basic authentication.
#[derive(Clone, Debug)]
pub struct CalDavProvider {
    client: reqwest::Client,
    calendar_url: String,
    username: String,
    password: String,
    lookahead_days: i64,
    slot_minutes: i64,
    booking_summary: String,
}

/// The settings of a [`CalDavProvider`].
pub struct CalDavSettings {
    pub client: reqwest::Client,
    pub calendar_url: Seq<char>,
    pub username: Seq<char>,
    pub password: Seq<char>,
    pub lookahead_days: i64,
    pub slot_minutes: i64,
    pub booking_summary: Seq<char>,
}

impl View for CalDavProvider {
    type V = CalDavSettings;

    closed spec fn view(&self) -> CalDavSettings {
        CalDavSettings {
            client: self.client,
            calendar_url: self.calendar_url@,
            username: self.username@,
            password: self.password@,
            lookahead_days: self.lookahead_days,
            slot_minutes: self.slot_minutes,
            booking_summary: self.booking_summary@,
        }
    }
}

/// Why a CalDAV operation failed.
#[derive(Debug)]
pub enum ProviderError {
    /// The booking overlaps an existing event.
    Conflict,
    /// The server refused the credentials.
    Unauthorized,
    /// The HTTP request failed.
    Http(reqwest::Error),
    /// The server answered with an unexpected status.
    HttpStatus(u16),
    /// The requested range is empty.
    InvalidRequest,
}

/// The request that asks for the events in `[from, to]`.
pub open spec fn is_busy_request(s: CalDavSettings, req: HttpRequest<String>, from: Timestamp, to: Timestamp) -> bool {
    &&& req.method == HttpMethod::Report
    &&& req.url@ == s.calendar_url
    &&& is_basic(req.auth, s.username, s.password)
    &&& header_views(req.headers@) == seq![
        ("Content-Type"@, "application/xml; charset=utf-8"@),
        ("Depth"@, "1"@),
    ]
    &&& req.body@ == query_report(from, to)
}

/// The UID of an event booked at `t`.
pub open spec fn booking_uid(t: Timestamp) -> Seq<char> {
    "schedj-"@ + decimal(micros(t)) + "@schedj"@
}

/// The request that stores the event for `booking` with the UID of
/// `uid_time`, stamped at `stamp` and created at `created`.
pub open spec fn is_create_request(
    s: CalDavSettings,
    req: HttpRequest<String>,
    booking: BookingRequest,
    uid_time: Timestamp,
    stamp: Timestamp,
    created: Timestamp,
) -> bool {
    let uid = booking_uid(uid_time);
    &&& req.method == HttpMethod::Put
    &&& req.url@ == trim_end_char(s.calendar_url, '/') + "/"@ + percent_encoded(encode_utf8(uid)) + ".ics"@
    &&& is_basic(req.auth, s.username, s.password)
    &&& header_views(req.headers@) == seq![("Content-Type"@, "text/calendar; charset=utf-8"@)]
    &&& req.body@ == event_text(uid, booking.from, booking.to, s.booking_summary, stamp, created)
}

/// The error for a reply status, if it is not one the operation accepts: 401
/// and 403 are refused credentials; other statuses outside 200 to 299 are
/// unexpected unless `accepted`.
pub open spec fn status_error(status: u16, accepted: u16) -> Option<ProviderError> {
    if status == UNAUTHORIZED || status == FORBIDDEN {
        Some(ProviderError::Unauthorized)
    } else if !is_success(status) && status != accepted {
        Some(ProviderError::HttpStatus(status))
    } else {
        None
    }
}

fn check_status(status: u16, accepted: u16) -> (r: Option<ProviderError>)
    ensures
        r == status_error(status, accepted),
{
    if status == UNAUTHORIZED || status == FORBIDDEN {
        Some(ProviderError::Unauthorized)
    } else if !status_is_success(status) && status != accepted {
        Some(ProviderError::HttpStatus(status))
    } else {
        None
    }
}

/// A step of a busy-time query.
pub type BusyStep = Step<String, Result<Vec<BusyRange>, ProviderError>>;

/// A step of an availability query.
pub type AvailabilityStep = Step<String, Result<Availability, ProviderError>>;

/// A step of a booking.
pub type BookingStep = Step<String, Result<Booking, ProviderError>>;

/// A busy-time query for `[from, to]` under way.
#[derive(Clone, Copy, Debug)]
pub struct BusyQuery {
    pub from: Timestamp,
    pub to: Timestamp,
    /// The reply status was accepted and its body is awaited.
    pub reading: bool,
}

/// An availability query under way.
#[derive(Clone, Copy, Debug)]
pub struct AvailabilityQuery {
    pub busy: BusyQuery,
}

/// A booking under way: checking the calendar for conflicts, then storing the event.
#[derive(Clone, Copy, Debug)]
pub struct BookingFlow {
    pub booking: BookingRequest,
    /// The conflict check under way, or `None` once the event is being stored.
    pub checking: Option<BusyQuery>,
}

/// The event fits the stage of the query.
pub open spec fn fits_busy_stage(q: BusyQuery, event: Event<String>) -> bool {
    &&& q.reading ==> !(event is Replied)
    &&& !q.reading ==> !(event is Body)
}

/// What a busy-time query does on an event.
pub open spec fn busy_step_spec(q: BusyQuery, event: Event<String>, r: (BusyQuery, BusyStep)) -> bool {
    match event {
        Event::Failed(e) => r.1 == BusyStep::Finish(Err(ProviderError::Http(e))),
        Event::Replied(status) => match status_error(status, MULTI_STATUS) {
            Some(err) => r.1 == BusyStep::Finish(Err(err)),
            None => r.1 is ReadBody && r.0 == (BusyQuery { reading: true, ..q }),
        },
        Event::Body(text) => r.1 matches Step::Finish(Ok(v)) && v@ == ical_busy_ranges(text@) && ranges_wf(v@),
    }
}

impl BusyQuery {
    /// Takes the next step on `event`.
    pub fn step(self, provider: &CalDavProvider, event: Event<String>) -> (r: (BusyQuery, BusyStep))
        requires
            fits_busy_stage(self, event),
        ensures
            busy_step_spec(self, event, r),
            event matches Event::Replied(st) ==> {
                &&& 200 <= st <= 299 ==> r.1 is ReadBody
                &&& (st == 401 || st == 403) ==> r.1 == (BusyStep::Finish(Err(ProviderError::Unauthorized)))
                &&& (!(200 <= st <= 299) && st != 401 && st != 403) ==> r.1 == (BusyStep::Finish(
                    Err(ProviderError::HttpStatus(st)),
                ))
            },
    {
        match event {
            Event::Failed(e) => (self, Step::Finish(Err(ProviderError::Http(e)))),
            Event::Replied(status) => match check_status(status, MULTI_STATUS) {
                Some(err) => (self, Step::Finish(Err(err))),
                None => (BusyQuery { reading: true, ..self }, Step::ReadBody),
            },
            Event::Body(text) => (self, Step::Finish(Ok(parse_ical_busy_ranges(text.as_str())))),
        }
    }
}

/// What starting a busy-time query for `[from, to]` does.
pub open spec fn busy_start_spec(s: CalDavSettings, from: Timestamp, to: Timestamp, r: (BusyQuery, BusyStep)) -> bool {
    if to.pos() <= from.pos() {
        r.1 == BusyStep::Finish(Err(ProviderError::InvalidRequest))
    } else {
        &&& r.0 == (BusyQuery { from, to, reading: false })
        &&& r.1 matches Step::Send(req) && is_busy_request(s, req, from, to)
    }
}

/// What an availability query does when its busy-time query finishes with `done`.
pub open spec fn availability_finish_spec(
    s: CalDavSettings,
    q: BusyQuery,
    done: Result<Seq<BusyRange>, ProviderError>,
    r: AvailabilityStep,
) -> bool {
    match done {
        Err(e) => r == AvailabilityStep::Finish(Err(e)),
        Ok(busy) => if slots_fit(busy, q.from, q.to, s.slot_minutes) {
            r matches Step::Finish(Ok(a)) && slots_exact(busy, q.from, q.to, s.slot_minutes, a.slots@)
        } else {
            r is Overflow
        },
    }
}

impl AvailabilityQuery {
    /// Takes the next step on `event`.
    pub fn step(self, provider: &CalDavProvider, event: Event<String>) -> (r: (AvailabilityQuery, AvailabilityStep))
        requires
            self.busy.from.wf(),
            self.busy.to.wf(),
            fits_busy_stage(self.busy, event),
        ensures
            match event {
                Event::Failed(e) => availability_finish_spec(provider@, self.busy, Err(ProviderError::Http(e)), r.1),
                Event::Replied(status) => match status_error(status, MULTI_STATUS) {
                    Some(err) => availability_finish_spec(provider@, self.busy, Err(err), r.1),
                    None => r.1 is ReadBody && r.0.busy == (BusyQuery { reading: true, ..self.busy }),
                },
                Event::Body(text) => availability_finish_spec(provider@, self.busy, Ok(ical_busy_ranges(text@)), r.1),
            },
    {
        let (busy, step) = self.busy.step(provider, event);
        let next = AvailabilityQuery { busy };
        match step {
            Step::Finish(Ok(ranges)) => {
                match try_availability_slots(self.busy.from, self.busy.to, &ranges, provider.slot_minutes) {
                    Some(a) => (next, Step::Finish(Ok(a))),
                    None => (next, Step::Overflow),
                }
            },
            Step::Finish(Err(e)) => (next, Step::Finish(Err(e))),
            Step::ReadBody => (next, Step::ReadBody),
            Step::Send(req) => (next, Step::Send(req)),
            Step::Overflow => (next, Step::Overflow),
        }
    }
}

/// What a booking does when its conflict check finishes with `done`.
pub open spec fn booking_checked_spec(
    s: CalDavSettings,
    booking: BookingRequest,
    done: Result<Seq<BusyRange>, ProviderError>,
    r: (BookingFlow, BookingStep),
) -> bool {
    match done {
        Err(e) => r.1 == BookingStep::Finish(Err(e)),
        Ok(busy) => if conflicts(busy, booking.from, booking.to) {
            r.1 == BookingStep::Finish(Err(ProviderError::Conflict))
        } else {
            &&& r.0 == (BookingFlow { booking, checking: None })
            &&& r.1 matches Step::Send(req) && exists|uid_time: Timestamp, stamp: Timestamp, created: Timestamp|
                uid_time.wf() && stamp.wf() && created.wf() && is_create_request(
                    s,
                    req,
                    booking,
                    uid_time,
                    stamp,
                    created,
                )
        },
    }
}

/// What a booking does on the reply to storing its event.
pub open spec fn booking_stored_spec(booking: BookingRequest, event: Event<String>, r: BookingStep) -> bool {
    match event {
        Event::Failed(e) => r == BookingStep::Finish(Err(ProviderError::Http(e))),
        Event::Replied(status) => match status_error(status, CREATED) {
            Some(err) => r == BookingStep::Finish(Err(err)),
            None => r == BookingStep::Finish(Ok(Booking { from: booking.from, to: booking.to })),
        },
        Event::Body(_) => true,
    }
}

/// The event fits the stage of the booking.
pub open spec fn fits_booking_stage(f: BookingFlow, event: Event<String>) -> bool {
    match f.checking {
        Some(q) => fits_busy_stage(q, event),
        None => !(event is Body),
    }
}

impl BookingFlow {
    /// Takes the next step on `event`.
    pub fn step(self, provider: &CalDavProvider, event: Event<String>) -> (r: (BookingFlow, BookingStep))
        requires
            self.booking.from.wf(),
            self.booking.to.wf(),
            self.checking matches Some(q) ==> q.from == self.booking.from && q.to == self.booking.to,
            fits_booking_stage(self, event),
        ensures
            match self.checking {
                Some(q) => match event {
                    Event::Failed(e) => booking_checked_spec(provider@, self.booking, Err(ProviderError::Http(e)), r),
                    Event::Replied(status) => match status_error(status, MULTI_STATUS) {
                        Some(err) => booking_checked_spec(provider@, self.booking, Err(err), r),
                        None => r.1 is ReadBody && r.0 == (BookingFlow {
                            checking: Some(BusyQuery { reading: true, ..q }),
                            ..self
                        }),
                    },
                    Event::Body(text) => booking_checked_spec(
                        provider@,
                        self.booking,
                        Ok(ical_busy_ranges(text@)),
                        r,
                    ),
                },
                None => booking_stored_spec(self.booking, event, r.1),
            },
            self.checking is None ==> (event matches Event::Replied(st) ==> {
                &&& 200 <= st <= 299 ==> r.1 == (BookingStep::Finish(
                    Ok(Booking { from: self.booking.from, to: self.booking.to }),
                ))
                &&& (st == 401 || st == 403) ==> r.1 == (BookingStep::Finish(Err(ProviderError::Unauthorized)))
                &&& (!(200 <= st <= 299) && st != 401 && st != 403) ==> r.1 == (BookingStep::Finish(
                    Err(ProviderError::HttpStatus(st)),
                ))
            }),
    {
        let booking = self.booking;
        match self.checking {
            Some(q) => {
                let (q2, step) = q.step(provider, event);
                match step {
                    Step::Finish(Ok(busy)) => {
                        if has_conflict(&busy, booking.from, booking.to) {
                            (self, Step::Finish(Err(ProviderError::Conflict)))
                        } else {
                            let req = provider.create_request(booking);
                            (BookingFlow { booking, checking: None }, Step::Send(req))
                        }
                    },
                    Step::Finish(Err(e)) => (self, Step::Finish(Err(e))),
                    Step::ReadBody => (BookingFlow { booking, checking: Some(q2) }, Step::ReadBody),
                    Step::Send(req) => (BookingFlow { booking, checking: Some(q2) }, Step::Send(req)),
                    Step::Overflow => (self, Step::Overflow),
                }
            },
            None => match event {
                Event::Failed(e) => (self, Step::Finish(Err(ProviderError::Http(e)))),
                Event::Replied(status) => match check_status(status, CREATED) {
                    Some(err) => (self, Step::Finish(Err(err))),
                    None => (self, Step::Finish(Ok(Booking { from: booking.from, to: booking.to }))),
                },
                Event::Body(_) => (self, Step::ReadBody),
            },
        }
    }
}

impl CalDavProvider {
    /// A provider for the calendar at `calendar_url`, with the default settings.
    pub fn new(client: reqwest::Client, calendar_url: &str, username: &str, password: &str) -> (r: Self)
        ensures
            r@ == (CalDavSettings {
                client,
                calendar_url: calendar_url@,
                username: username@,
                password: password@,
                lookahead_days: DEFAULT_LOOKAHEAD_DAYS,
                slot_minutes: DEFAULT_SLOT_MINUTES,
                booking_summary: DEFAULT_BOOKING_SUMMARY@,
            }),
    {
        CalDavProvider {
            client,
            calendar_url: owned(calendar_url),
            username: owned(username),
            password: owned(password),
            lookahead_days: DEFAULT_LOOKAHEAD_DAYS,
            slot_minutes: DEFAULT_SLOT_MINUTES,
            booking_summary: owned(DEFAULT_BOOKING_SUMMARY),
        }
    }

    /// Sets how many days ahead availability covers.
    pub fn with_lookahead_days(self, days: i64) -> (r: Self)
        ensures
            r@ == (CalDavSettings { lookahead_days: days, ..self@ }),
    {
        CalDavProvider { lookahead_days: days, ..self }
    }

    /// Sets the length of a slot in minutes.
    pub fn with_slot_minutes(self, minutes: i64) -> (r: Self)
        ensures
            r@ == (CalDavSettings { slot_minutes: minutes, ..self@ }),
    {
        CalDavProvider { slot_minutes: minutes, ..self }
    }

    /// Sets the summary of booked events.
    pub fn with_booking_summary(self, summary: &str) -> (r: Self)
        ensures
            r@ == (CalDavSettings { booking_summary: summary@, ..self@ }),
    {
        CalDavProvider { booking_summary: owned(summary), ..self }
    }

    /// The HTTP client of the provider.
    pub fn client(&self) -> (r: &reqwest::Client)
        ensures
            *r == self@.client,
    {
        &self.client
    }

    /// Starts a query for the busy ranges in `[from, to]`.
    pub fn busy_between(&self, from: Timestamp, to: Timestamp) -> (r: (BusyQuery, BusyStep))
        requires
            from.wf(),
            to.wf(),
        ensures
            busy_start_spec(self@, from, to, r),
    {
        let q = BusyQuery { from, to, reading: false };
        if to.is_not_after(&from) {
            return (q, Step::Finish(Err(ProviderError::InvalidRequest)));
        }
        let mut headers: Vec<(String, String)> = Vec::new();
        headers.push((owned("Content-Type"), owned("application/xml; charset=utf-8")));
        headers.push((owned("Depth"), owned("1")));
        assert(header_views(headers@) =~= seq![
            ("Content-Type"@, "application/xml; charset=utf-8"@),
            ("Depth"@, "1"@),
        ]);
        let req = HttpRequest {
            method: HttpMethod::Report,
            url: self.calendar_url.clone(),
            auth: Auth::Basic { username: self.username.clone(), password: self.password.clone() },
            headers,
            body: calendar_query_report(from, to),
        };
        (q, Step::Send(req))
    }

    /// Starts a query for the free slots in `[from, to]`.
    pub fn availability_between(&self, from: Timestamp, to: Timestamp) -> (r: (AvailabilityQuery, AvailabilityStep))
        requires
            from.wf(),
            to.wf(),
        ensures
            if to.pos() <= from.pos() {
                r.1 == AvailabilityStep::Finish(Err(ProviderError::InvalidRequest))
            } else {
                &&& r.0.busy == (BusyQuery { from, to, reading: false })
                &&& r.1 matches Step::Send(req) && is_busy_request(self@, req, from, to)
            },
    {
        let (busy, step) = self.busy_between(from, to);
        let q = AvailabilityQuery { busy };
        match step {
            Step::Send(req) => (q, Step::Send(req)),
            Step::Finish(Err(e)) => (q, Step::Finish(Err(e))),
            Step::Finish(Ok(_)) => (q, Step::ReadBody),
            Step::ReadBody => (q, Step::ReadBody),
            Step::Overflow => (q, Step::Overflow),
        }
    }

    /// Starts booking `booking`: the calendar is checked for conflicts first.
    pub fn create_booking(&self, booking: BookingRequest) -> (r: (BookingFlow, BookingStep))
        requires
            booking.from.wf(),
            booking.to.wf(),
        ensures
            if booking.to.pos() <= booking.from.pos() {
                r.1 == BookingStep::Finish(Err(ProviderError::InvalidRequest))
            } else {
                &&& r.0 == (BookingFlow {
                    booking,
                    checking: Some(BusyQuery { from: booking.from, to: booking.to, reading: false }),
                })
                &&& r.1 matches Step::Send(req) && is_busy_request(self@, req, booking.from, booking.to)
            },
    {
        let (q, step) = self.busy_between(booking.from, booking.to);
        let flow = BookingFlow { booking, checking: Some(q) };
        match step {
            Step::Send(req) => (flow, Step::Send(req)),
            Step::Finish(Err(e)) => (flow, Step::Finish(Err(e))),
            Step::Finish(Ok(_)) => (flow, Step::ReadBody),
            Step::ReadBody => (flow, Step::ReadBody),
            Step::Overflow => (flow, Step::Overflow),
        }
    }

    /// The request that stores the event for `booking`, with a UID and time
    /// stamps taken now.
    fn create_request(&self, booking: BookingRequest) -> (r: HttpRequest<String>)
        requires
            booking.from.wf(),
            booking.to.wf(),
        ensures
            exists|uid_time: Timestamp, stamp: Timestamp, created: Timestamp|
                uid_time.wf() && stamp.wf() && created.wf() && is_create_request(
                    self@,
                    r,
                    booking,
                    uid_time,
                    stamp,
                    created,
                ),
    {
        let uid_time = now();
        let mut uid = owned("schedj-");
        uid.append(decimal_exec(uid_time.timestamp_micros()).as_str());
        uid.append("@schedj");
        let stamp = now();
        let created = now();
        let ics = event_ics_at(uid.as_str(), booking.from, booking.to, self.booking_summary.as_str(), stamp, created);
        let base_chars = chars_of(self.calendar_url.as_str());
        let base = trim_end_char_exec(&base_chars, '/');
        let mut url = string_of(&base);
        url.append("/");
        url.append(percent_encode(uid.as_str()).as_str());
        url.append(".ics");
        let mut headers: Vec<(String, String)> = Vec::new();
        headers.push((owned("Content-Type"), owned("text/calendar; charset=utf-8")));
        assert(header_views(headers@) =~= seq![("Content-Type"@, "text/calendar; charset=utf-8"@)]);
        let req = HttpRequest {
            method: HttpMethod::Put,
            url,
            auth: Auth::Basic { username: self.username.clone(), password: self.password.clone() },
            headers,
            body: ics,
        };
        assert(is_create_request(self@, req, booking, uid_time, stamp, created));
        req
    }

    /// The window `[start, start + lookahead days]` (at least one day) that
    /// availability covers, or `None` where its end would leave the
    /// representable range.
    pub fn lookahead_window(&self, start: Timestamp) -> (r: Option<(Timestamp, Timestamp)>)
        requires
            start.wf(),
        ensures
            ({
                let days = if self@.lookahead_days >= 1 { self@.lookahead_days as int } else { 1 };
                r == if days <= MAX_LOOKAHEAD_DAYS && start.secs + days * 86400 <= MAX_UNIX_SECS {
                    Some((start, start.plus_secs(days * 86400)))
                } else {
                    None::<(Timestamp, Timestamp)>
                }
            }),
    {
        let days = if self.lookahead_days >= 1 { self.lookahead_days } else { 1 };
        if days > MAX_LOOKAHEAD_DAYS {
            return None;
        }
        match start.checked_add_secs(days * 86400) {
            Some(end) => Some((start, end)),
            None => None,
        }
    }

    /// The availability window starting now, or `None` where its end would
    /// leave the representable range.
    pub fn current_window(&self) -> (r: Option<(Timestamp, Timestamp)>)
        ensures
            exists|start: Timestamp|
                start.wf() && r == ({
                    let days = if self@.lookahead_days >= 1 { self@.lookahead_days as int } else { 1 };
                    if days <= MAX_LOOKAHEAD_DAYS && start.secs + days * 86400 <= MAX_UNIX_SECS {
                        Some((start, start.plus_secs(days * 86400)))
                    } else {
                        None::<(Timestamp, Timestamp)>
                    }
                }),
    {
        let start = now();
        self.lookahead_window(start)
    }
}


// ---------------------------------------------------------------------------
// Laws.

proof fn lemma_event_ranges_proper(events: Seq<Seq<char>>)
    ensures
        ranges_proper(event_ranges(events)),
    decreases events.len(),
{
    if events.len() > 0 {
        lemma_event_ranges_proper(events.skip(1));
        let head: Seq<BusyRange> = match event_range(events[0]) {
            Some(r) => seq![r],
            None => seq![],
        };
        lemma_proper_concat(head, event_ranges(events.skip(1)));
    }
}

/// Every busy range read from a CalDAV reply ends after it starts.
pub proof fn lemma_ical_ranges_proper(body: Seq<char>)
    ensures
        ranges_proper(ical_busy_ranges(body)),
{
    lemma_event_ranges_proper(vevents(unescaped_xml(body)));
}

/// Every slot that an availability query offers lies in its window, has the
/// configured length and overlaps no event of the calendar reply that it was
/// computed from; no two slots overlap. (The reply's instants are well formed
/// whenever they come from `parse_ical_busy_ranges`.)
pub proof fn lemma_offered_slots_free(s: CalDavSettings, q: BusyQuery, body: Seq<char>, r: AvailabilityStep)
    requires
        q.from.wf(),
        q.to.wf(),
        ranges_wf(ical_busy_ranges(body)),
        availability_finish_spec(s, q, Ok(ical_busy_ranges(body)), r),
    ensures
        r matches Step::Finish(Ok(a)) ==> {
            &&& forall|i: int|
                0 <= i < a.slots@.len() ==> {
                    &&& q.from.pos() <= (#[trigger] a.slots@[i]).start.pos()
                    &&& a.slots@[i].end.pos() <= q.to.pos()
                    &&& a.slots@[i].end == a.slots@[i].start.plus_secs(slot_secs(s.slot_minutes))
                    &&& !conflicts(ical_busy_ranges(body), a.slots@[i].start, a.slots@[i].end)
                }
            &&& forall|i: int, j: int|
                0 <= i < j < a.slots@.len() ==> (#[trigger] a.slots@[i]).end.pos() <= (#[trigger] a.slots@[j]).start.pos()
        },
{
    lemma_ical_ranges_proper(body);
    match r {
        Step::Finish(Ok(a)) => {
            lemma_slots_are_free(ical_busy_ranges(body), q.from, q.to, s.slot_minutes, a.slots@);
        },
        _ => {},
    }
}

proof fn lemma_last_property_insert(lines: Seq<Seq<char>>, i: int, l: Seq<char>, key: Seq<char>)
    requires
        0 <= i <= lines.len(),
        !starts_with(l, key),
    ensures
        last_property(lines.insert(i, l), key) == last_property(lines, key),
    decreases lines.len(),
{
    let li = lines.insert(i, l);
    if i == lines.len() {
        assert(li.last() == l);
        assert(li.drop_last() =~= lines);
    } else {
        assert(li.last() == lines.last());
        assert(li.drop_last() =~= lines.drop_last().insert(i, l));
        lemma_last_property_insert(lines.drop_last(), i, l, key);
    }
}

/// Only lines that start with `DTSTART` or `DTEND` set an event's range: an
/// event whose logical lines are those of another with one more line added
/// anywhere, a line starting with neither (such as a `DTSTAMP` line), has
/// the same busy range.
pub proof fn lemma_other_lines_ignored(e1: Seq<char>, e2: Seq<char>, i: int, l: Seq<char>)
    requires
        0 <= i <= unfolded(e2).len(),
        unfolded(e1) == unfolded(e2).insert(i, l),
        !starts_with(l, seq!['D', 'T', 'S', 'T', 'A', 'R', 'T']),
        !starts_with(l, seq!['D', 'T', 'E', 'N', 'D']),
    ensures
        event_range(e1) == event_range(e2),
{
    lemma_last_property_insert(unfolded(e2), i, l, dtstart());
    lemma_last_property_insert(unfolded(e2), i, l, dtend());
}

proof fn lemma_cancel(p: Seq<char>, x: Seq<char>, y: Seq<char>, q: Seq<char>)
    requires
        p + x + q == p + y + q,
    ensures
        x == y,
{
    assert((p + x + q).len() == p.len() + x.len() + q.len());
    assert((p + y + q).len() == p.len() + y.len() + q.len());
    assert(x.len() == y.len());
    assert forall|i: int| 0 <= i < x.len() implies x[i] == y[i] by {
        assert((p + x + q)[p.len() + i] == x[i]);
        assert((p + y + q)[p.len() + i] == y[i]);
    }
    assert(x =~= y);
}

/// Two bookings whose UIDs are taken at instants with different microsecond
/// counts are stored under different URLs, so one never overwrites the other.
pub proof fn lemma_booking_urls_distinct(
    s: CalDavSettings,
    r1: HttpRequest<String>,
    r2: HttpRequest<String>,
    b1: BookingRequest,
    b2: BookingRequest,
    u1: Timestamp,
    stamp1: Timestamp,
    created1: Timestamp,
    u2: Timestamp,
    stamp2: Timestamp,
    created2: Timestamp,
)
    requires
        is_create_request(s, r1, b1, u1, stamp1, created1),
        is_create_request(s, r2, b2, u2, stamp2, created2),
        micros(u1) != micros(u2),
    ensures
        r1.url@ != r2.url@,
{
    let uid1 = booking_uid(u1);
    let uid2 = booking_uid(u2);
    if r1.url@ == r2.url@ {
        let p = trim_end_char(s.calendar_url, '/') + "/"@;
        lemma_cancel(p, percent_encoded(encode_utf8(uid1)), percent_encoded(encode_utf8(uid2)), ".ics"@);
        lemma_percent_encoding_injective(uid1, uid2);
        lemma_cancel("schedj-"@, decimal(micros(u1)), decimal(micros(u2)), "@schedj"@);
        lemma_decimal_injective(micros(u1), micros(u2));
    }
}

} // verus!
