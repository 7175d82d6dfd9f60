use vstd::prelude::*;

use crate::progress::{full_cells, percentage_is_valid, progress, rendered, valid_percentage};
use crate::text::{before, chars_of, contains_exec, find_from, has_sub, occurs_at, occurs_at_exec, string_of, sub_string};

verus! {

/// The marker that comes before the time left in a progress line.
pub open spec fn eta_word() -> Seq<char> {
    seq!['E', 'T', 'A', ' ']
}

pub open spec fn is_ascii_digit(c: char) -> bool {
    '0' <= c <= '9'
}

/// The first position at or after `i` that does not hold a digit.
pub open spec fn digit_run(s: Seq<char>, i: int) -> int
    decreases s.len() - i,
{
    if 0 <= i < s.len() && is_ascii_digit(s[i]) {
        digit_run(s, i + 1)
    } else {
        i
    }
}

/// A percentage `<digits>.<digits>%` starts at `j`, right after a space.
pub open spec fn pct_starts_at(s: Seq<char>, j: int) -> bool {
    let a = digit_run(s, j);
    let b = digit_run(s, a + 1);
    &&& 1 <= j
    &&& s[j - 1] == ' '
    &&& j < a < s.len()
    &&& s[a] == '.'
    &&& a + 1 < b < s.len()
    &&& s[b] == '%'
}

/// The position just after the `%` of the percentage that starts at `j`.
pub open spec fn pct_end(s: Seq<char>, j: int) -> int {
    digit_run(s, digit_run(s, j) + 1) + 1
}

/// `ETA ` stands at `q`, at or after position `e`.
pub open spec fn eta_at(s: Seq<char>, e: int, q: int) -> bool {
    e <= q && occurs_at(s, eta_word(), q)
}

/// A progress line's percentage starts at `j`, and `ETA ` follows it.
pub open spec fn progress_at(s: Seq<char>, j: int) -> bool {
    pct_starts_at(s, j) && exists|q: int| eta_at(s, pct_end(s, j), q)
}

/// `j` is the first position where a progress line's percentage starts.
pub open spec fn first_progress(s: Seq<char>, j: int) -> bool {
    progress_at(s, j) && forall|k: int| k < j ==> !progress_at(s, k)
}

/// `q` is the last `ETA ` at or after `e`.
pub open spec fn last_eta(s: Seq<char>, e: int, q: int) -> bool {
    eta_at(s, e, q) && forall|k: int| k > q ==> !eta_at(s, e, k)
}

/// The percentage and the time left that a progress line of the downloader
/// shows, as in `[download]  45.3% of 10MiB at 1MiB/s ETA 00:07`: the first
/// `<digits>.<digits>%` that follows a space and has `ETA ` after it, and what
/// follows the last such `ETA `.
pub open spec fn progress_fields(s: Seq<char>) -> Option<(Seq<char>, Seq<char>)> {
    if exists|j: int| first_progress(s, j) {
        let j = choose|j: int| first_progress(s, j);
        let q = choose|q: int| last_eta(s, pct_end(s, j), q);
        Some((s.subrange(j, pct_end(s, j)), s.skip(q + 4)))
    } else {
        None
    }
}

proof fn lemma_digit_run(s: Seq<char>, i: int, r: int)
    requires
        0 <= i <= r <= s.len(),
        forall|k: int| i <= k < r ==> is_ascii_digit(s[k]),
        r < s.len() ==> !is_ascii_digit(s[r]),
    ensures
        digit_run(s, i) == r,
    decreases r - i,
{
    if i < r {
        lemma_digit_run(s, i + 1, r);
    }
}

/// The first position at or after `i` that does not hold a digit.
fn digit_run_exec(v: &[char], i: usize) -> (r: usize)
    requires
        i <= v.len(),
    ensures
        r == digit_run(v@, i as int),
        i <= r <= v.len(),
{
    let mut k: usize = i;
    while k < v.len() && '0' <= v[k] && v[k] <= '9'
        invariant
            i <= k <= v.len(),
            forall|m: int| i <= m < k ==> is_ascii_digit(v@[m]),
        decreases v.len() - k,
    {
        k += 1;
    }
    proof {
        lemma_digit_run(v@, i as int, k as int);
    }
    k
}

/// Where the percentage that starts at `j` ends, when one starts there.
fn pct_at_exec(v: &[char], j: usize) -> (r: Option<usize>)
    requires
        j <= v.len(),
    ensures
        r is Some <==> pct_starts_at(v@, j as int),
        r matches Some(e) ==> e == pct_end(v@, j as int) && e <= v.len(),
{
    if j < 1 || v[j - 1] != ' ' {
        return None;
    }
    let a = digit_run_exec(v, j);
    if !(j < a && a < v.len() && v[a] == '.') {
        return None;
    }
    let b = digit_run_exec(v, a + 1);
    if !(a + 1 < b && b < v.len() && v[b] == '%') {
        return None;
    }
    Some(b + 1)
}

/// The last `ETA ` at or after `e`, if there is one.
fn last_eta_exec(v: &[char], e: usize) -> (r: Option<usize>)
    requires
        e <= v.len(),
    ensures
        r is None <==> !exists|q: int| eta_at(v@, e as int, q),
        r matches Some(q) ==> last_eta(v@, e as int, q as int) && q + 4 <= v.len(),
{
    let w = ['E', 'T', 'A', ' '];
    assert(w@ =~= eta_word());
    let mut q: usize = v.len();
    loop
        invariant
            e <= q <= v.len(),
            w@ == eta_word(),
            forall|k: int| k > q ==> !eta_at(v@, e as int, k),
        decreases q - e,
    {
        if occurs_at_exec(v, &w, q) {
            assert(eta_at(v@, e as int, q as int));
            return Some(q);
        }
        if q == e {
            assert forall|k: int| !eta_at(v@, e as int, k) by {
                if k >= e && k <= q {
                    assert(k == q);
                }
            }
            return None;
        }
        q -= 1;
    }
}

/// The percentage and time left that a line of the downloader's output shows, or
/// `None` when it is no progress line.
pub fn progress_fields_of(line: &str) -> (r: Option<(String, String)>)
    ensures
        match progress_fields(line@) {
            None => r is None,
            Some((p, e)) => r matches Some((rp, re)) && rp@ == p && re@ == e,
        },
{
    let v = chars_of(line);
    let mut j: usize = 0;
    while j < v.len()
        invariant
            j <= v.len(),
            v@ == line@,
            forall|k: int| k < j ==> !progress_at(v@, k),
        decreases v.len() - j,
    {
        if let Some(e) = pct_at_exec(v.as_slice(), j) {
            if let Some(q) = last_eta_exec(v.as_slice(), e) {
                let ghost s = v@;
                assert(first_progress(s, j as int));
                proof {
                    let c = choose|c: int| first_progress(s, c);
                    assert(c == j as int) by {
                        if c < j {
                            assert(!progress_at(s, c));
                        } else if c > j {
                            assert(!progress_at(s, j as int));
                        }
                    }
                    let d = choose|d: int| last_eta(s, pct_end(s, j as int), d);
                    assert(d == q as int) by {
                        if d < q {
                            assert(!eta_at(s, pct_end(s, j as int), q as int));
                        } else if d > q {
                            assert(!eta_at(s, pct_end(s, j as int), d));
                        }
                    }
                }
                let p = sub_string(v.as_slice(), j, e);
                let t = sub_string(v.as_slice(), q + 4, v.len());
                assert(t@ =~= v@.skip(q + 4));
                return Some((p, t));
            }
        }
        j += 1;
    }
    assert(!exists|c: int| first_progress(v@, c)) by {
        assert forall|c: int| !progress_at(v@, c) by {
            if c >= j {
                if pct_starts_at(v@, c) {
                    assert(c - 1 < v@.len());
                }
            }
        }
    }
    None
}

/// The characters that `char::is_whitespace` accepts: those with the Unicode
/// `White_Space` property.
pub open spec fn is_space(c: char) -> bool {
    ||| '\t' <= c <= '\r'
    ||| c == ' '
    ||| c == '\u{85}'
    ||| c == '\u{a0}'
    ||| c == '\u{1680}'
    ||| '\u{2000}' <= c <= '\u{200a}'
    ||| c == '\u{2028}'
    ||| c == '\u{2029}'
    ||| c == '\u{202f}'
    ||| c == '\u{205f}'
    ||| c == '\u{3000}'
}

fn is_space_exec(c: char) -> (r: bool)
    ensures
        r == is_space(c),
{
    ('\t' <= c && c <= '\r') || c == ' ' || c == '\u{85}' || c == '\u{a0}' || c == '\u{1680}'
        || ('\u{2000}' <= c && c <= '\u{200a}') || c == '\u{2028}' || c == '\u{2029}' || c
        == '\u{202f}' || c == '\u{205f}' || c == '\u{3000}'
}

pub open spec fn trim_start(s: Seq<char>) -> Seq<char>
    decreases s.len(),
{
    if s.len() > 0 && is_space(s[0]) {
        trim_start(s.drop_first())
    } else {
        s
    }
}

pub open spec fn trim_end(s: Seq<char>) -> Seq<char>
    decreases s.len(),
{
    if s.len() > 0 && is_space(s.last()) {
        trim_end(s.drop_last())
    } else {
        s
    }
}

/// `s` without the white space at either end.
pub open spec fn trimmed(s: Seq<char>) -> Seq<char> {
    trim_end(trim_start(s))
}

proof fn lemma_trim_start(s: Seq<char>, i: int)
    requires
        0 <= i <= s.len(),
        forall|k: int| 0 <= k < i ==> is_space(s[k]),
        i < s.len() ==> !is_space(s[i]),
    ensures
        trim_start(s) == s.skip(i),
    decreases i,
{
    if i > 0 {
        lemma_trim_start(s.drop_first(), i - 1);
        assert(s.drop_first().skip(i - 1) =~= s.skip(i));
    } else {
        assert(s.skip(0) =~= s);
    }
}

proof fn lemma_trim_end(s: Seq<char>, k: int)
    requires
        0 <= k <= s.len(),
        forall|m: int| k <= m < s.len() ==> is_space(s[m]),
        k > 0 ==> !is_space(s[k - 1]),
    ensures
        trim_end(s) == s.take(k),
    decreases s.len() - k,
{
    if k < s.len() {
        lemma_trim_end(s.drop_last(), k);
        assert(s.drop_last().take(k) =~= s.take(k));
    } else {
        assert(s.take(k) =~= s);
    }
}

/// The text at the start of a line that names the file being written.
pub open spec fn destination_prefix() -> Seq<char> {
    seq![
        '[', 'd', 'o', 'w', 'n', 'l', 'o', 'a', 'd', ']', ' ', 'D', 'e', 's', 't', 'i', 'n', 'a',
        't', 'i', 'o', 'n', ':', ' ',
    ]
}

pub open spec fn destination_word() -> Seq<char> {
    seq!['D', 'e', 's', 't', 'i', 'n', 'a', 't', 'i', 'o', 'n']
}

/// `s` with every leading repetition of `p` removed.
pub open spec fn strip_prefixes(s: Seq<char>, p: Seq<char>) -> Seq<char>
    decreases s.len(),
{
    if p.len() > 0 && occurs_at(s, p, 0) {
        strip_prefixes(s.skip(p.len() as int), p)
    } else {
        s
    }
}

/// The title that a destination line names: the file name after the prefix, up
/// to its first `.`, without surrounding white space.
pub open spec fn title_of(line: Seq<char>) -> Seq<char> {
    trimmed(before(strip_prefixes(line, destination_prefix()), '.'))
}

/// The title as shown: at most its first 40 characters.
pub open spec fn short_title(title: Seq<char>) -> Seq<char> {
    if title.len() <= 40 {
        title
    } else {
        title.take(40)
    }
}

/// What is shown for a progress line while `title` is being downloaded.
pub open spec fn status_text(title: Seq<char>, line: Seq<char>) -> Option<Seq<char>> {
    match progress_fields(line) {
        Some((p, e)) => if valid_percentage(p) {
            Some(short_title(title) + seq!['.', '.', '.', ':', ' '] + rendered(full_cells(p), e))
        } else {
            None
        },
        None => None,
    }
}

/// The title that a destination line of the downloader names.
pub fn destination_title(line: &str) -> (r: String)
    ensures
        r@ == title_of(line@),
{
    let v = chars_of(line);
    let pre = [
        '[', 'd', 'o', 'w', 'n', 'l', 'o', 'a', 'd', ']', ' ', 'D', 'e', 's', 't', 'i', 'n', 'a',
        't', 'i', 'o', 'n', ':', ' ',
    ];
    assert(pre@ =~= destination_prefix());
    let mut pos: usize = 0;
    assert(v@.skip(0) =~= v@);
    while occurs_at_exec(v.as_slice(), &pre, pos)
        invariant
            pos <= v.len(),
            pre@ == destination_prefix(),
            strip_prefixes(v@.skip(pos as int), pre@) == strip_prefixes(line@, pre@),
            v@ == line@,
        decreases v.len() - pos,
    {
        let ghost w = v@.skip(pos as int);
        assert(occurs_at(w, pre@, 0)) by {
            assert(w.subrange(0, pre@.len() as int) =~= v@.subrange(pos as int, pos + pre@.len()));
        }
        assert(w.skip(pre@.len() as int) =~= v@.skip(pos + pre@.len()));
        pos = pos + pre.len();
    }
    let ghost w = v@.skip(pos as int);
    assert(!occurs_at(w, pre@, 0)) by {
        if occurs_at(w, pre@, 0) {
            assert(w.subrange(0, pre@.len() as int) =~= v@.subrange(pos as int, pos + pre@.len()));
        }
    }
    assert(strip_prefixes(line@, destination_prefix()) == w);
    let dot = find_from(v.as_slice(), pos, '.');
    let ghost b = v@.subrange(pos as int, dot as int);
    assert(b =~= before(w, '.'));
    let mut lo: usize = pos;
    while lo < dot && is_space_exec(v[lo])
        invariant
            pos <= lo <= dot <= v.len(),
            b == v@.subrange(pos as int, dot as int),
            forall|k: int| 0 <= k < lo - pos ==> is_space(b[k]),
        decreases dot - lo,
    {
        lo += 1;
    }
    proof {
        lemma_trim_start(b, lo - pos);
    }
    let ghost t = b.skip(lo - pos);
    let mut hi: usize = dot;
    while hi > lo && is_space_exec(v[hi - 1])
        invariant
            lo <= hi <= dot <= v.len(),
            t == v@.subrange(lo as int, dot as int),
            forall|m: int| hi - lo <= m < t.len() ==> is_space(t[m]),
        decreases hi - lo,
    {
        hi -= 1;
    }
    assert(t =~= v@.subrange(lo as int, dot as int));
    proof {
        lemma_trim_end(t, hi - lo);
    }
    assert(t.take(hi - lo) =~= v@.subrange(lo as int, hi as int));
    sub_string(v.as_slice(), lo, hi)
}

/// Follows one line of the downloader's output. A line that names the destination
/// file sets `title`; a progress line gives the text to show for it: the title's
/// first 40 characters, `...: `, and the progress bar. Other lines give `None`.
pub fn follow_line(title: &mut String, line: &str) -> (r: Option<String>)
    ensures
        has_sub(line@, destination_word()) ==> final(title)@ == title_of(line@),
        !has_sub(line@, destination_word()) ==> final(title)@ == old(title)@,
        match status_text(final(title)@, line@) {
            Some(t) => r matches Some(s) && s@ == t,
            None => r is None,
        },
{
    let v = chars_of(line);
    let word = ['D', 'e', 's', 't', 'i', 'n', 'a', 't', 'i', 'o', 'n'];
    assert(word@ =~= destination_word());
    if contains_exec(v.as_slice(), &word) {
        *title = destination_title(line);
    }
    let fields = progress_fields_of(line);
    match fields {
        Some((p, e)) => {
            if !percentage_is_valid(p.as_str()) {
                return None;
            }
            let bar = progress(e.as_str(), p.as_str());
            let tc = chars_of(title.as_str());
            let n: usize = if tc.len() <= 40 {
                tc.len()
            } else {
                40
            };
            let mut out: Vec<char> = Vec::new();
            let mut k: usize = 0;
            while k < n
                invariant
                    k <= n <= tc.len(),
                    out@ == tc@.take(k as int),
                decreases n - k,
            {
                out.push(tc[k]);
                k += 1;
                assert(out@ =~= tc@.take(k as int));
            }
            assert(out@ =~= short_title(title@));
            let sep = ['.', '.', '.', ':', ' '];
            let bc = chars_of(bar.as_str());
            let ghost before_sep = out@;
            let mut k: usize = 0;
            while k < 5
                invariant
                    k <= 5,
                    out@ == before_sep + sep@.take(k as int),
                decreases 5 - k,
            {
                out.push(sep[k]);
                k += 1;
                assert(out@ =~= before_sep + sep@.take(k as int));
            }
            let ghost before_bar = out@;
            let mut k: usize = 0;
            while k < bc.len()
                invariant
                    k <= bc.len(),
                    out@ == before_bar + bc@.take(k as int),
                decreases bc.len() - k,
            {
                out.push(bc[k]);
                k += 1;
                assert(out@ =~= before_bar + bc@.take(k as int));
            }
            assert(out@ =~= short_title(title@) + seq!['.', '.', '.', ':', ' '] + bc@);
            Some(string_of(out.as_slice()))
        },
        None => None,
    }
}

} // verus!
