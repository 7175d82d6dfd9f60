use vstd::prelude::*;

use crate::text::{before, chars_of, find_char, find_from, index_of, lemma_index_of, string_of, sub_string};

verus! {

/// `s` is written `[text](target)`, where `text` holds no `]`.
pub open spec fn is_markdown_link(s: Seq<char>) -> bool {
    let k = index_of(s, ']');
    &&& s.len() > 0
    &&& s[0] == '['
    &&& k + 3 <= s.len()
    &&& s[k + 1int] == '('
    &&& s.last() == ')'
}

/// The target of a markdown link, or `s` itself when it is not one.
pub open spec fn link_target(s: Seq<char>) -> Seq<char> {
    if is_markdown_link(s) {
        s.subrange(index_of(s, ']') + 2int, s.len() - 1)
    } else {
        s
    }
}

/// A URL as it is stored: the target of a markdown link, cut before the first `&`.
pub open spec fn normalized(s: Seq<char>) -> Seq<char> {
    before(link_target(s), '&')
}

/// Drops tracking parameters from a URL: extracts the target of a markdown link
/// `[text](url)`, then cuts everything from the first `&` on.
pub fn normalize(url: &str) -> (r: String)
    ensures
        r@ == normalized(url@),
{
    let v = chars_of(url);
    let n = v.len();
    let k = find_char(v.as_slice(), ']');
    let (start, end) = if n > 0 && v[0] == '[' && k < n && n - k >= 3 && v[k + 1] == '(' && v[n - 1] == ')' {
        (k + 2, n - 1)
    } else {
        (0, n)
    };
    let ghost t = v@.subrange(start as int, end as int);
    assert(t =~= link_target(url@));
    let amp = find_from(v.as_slice(), start, '&');
    let cut = if amp < end {
        amp
    } else {
        end
    };
    proof {
        assert forall|j: int| 0 <= j < cut - start implies t[j] != '&' by {
            assert(t[j] == v@.skip(start as int)[j]);
        }
        if cut < end {
            assert(t[cut - start] == v@.skip(start as int)[cut - start]);
        }
        lemma_index_of(t, '&', cut - start);
        assert(t.take(cut - start) =~= v@.subrange(start as int, cut as int));
    }
    sub_string(v.as_slice(), start, cut)
}

/// `s` without the carriage returns at its end, so that `\r\n` ends a line as `\n` does.
pub open spec fn strip_cr(s: Seq<char>) -> Seq<char>
    decreases s.len(),
{
    if s.len() > 0 && s.last() == '\r' {
        strip_cr(s.drop_last())
    } else {
        s
    }
}

pub proof fn lemma_strip_cr(s: Seq<char>, k: int)
    requires
        0 <= k <= s.len(),
        forall|m: int| k <= m < s.len() ==> s[m] == '\r',
        k > 0 ==> s[k - 1] != '\r',
    ensures
        strip_cr(s) == s.take(k),
    decreases s.len() - k,
{
    if k < s.len() {
        lemma_strip_cr(s.drop_last(), k);
        assert(s.drop_last().take(k) =~= s.take(k));
    } else {
        assert(s.take(k) =~= s);
    }
}

proof fn lemma_strip_cr_shape(s: Seq<char>)
    ensures
        strip_cr(s).len() <= s.len(),
        strip_cr(s) =~= s.take(strip_cr(s).len() as int),
        strip_cr(s).len() > 0 ==> strip_cr(s).last() != '\r',
    decreases s.len(),
{
    if s.len() > 0 && s.last() == '\r' {
        lemma_strip_cr_shape(s.drop_last());
    }
}

/// The queue that a file holds: its non-empty lines, in order, each without the
/// carriage returns before its line break.
pub open spec fn queue_of(text: Seq<char>) -> Seq<Seq<char>>
    decreases text.len(),
{
    if text.len() == 0 {
        seq![]
    } else {
        let k = index_of(text, '\n');
        let line = strip_cr(text.take(k as int));
        let rest = if k < text.len() {
            text.skip(k + 1int)
        } else {
            seq![]
        };
        if line.len() > 0 {
            seq![line] + queue_of(rest)
        } else {
            queue_of(rest)
        }
    }
}

/// The text of a queue as this library writes it: each entry, then `\n`.
pub open spec fn joined(q: Seq<Seq<char>>) -> Seq<char>
    decreases q.len(),
{
    if q.len() == 0 {
        seq![]
    } else {
        joined(q.drop_last()) + q.last() + seq!['\n']
    }
}

/// A text in the form that the store leaves: empty, or ending with a line break.
pub open spec fn is_stored_form(text: Seq<char>) -> bool {
    text.len() == 0 || text.last() == '\n'
}

/// An entry that a queue can hold: non-empty, on one line, and not ending with a
/// carriage return.
pub open spec fn is_entry(u: Seq<char>) -> bool {
    u.len() > 0 && !u.contains('\n') && u.last() != '\r'
}

pub open spec fn views(v: Seq<String>) -> Seq<Seq<char>> {
    v.map_values(|s: String| s@)
}

pub proof fn lemma_index_of_concat(a: Seq<char>, b: Seq<char>, c: char)
    requires
        index_of(a, c) < a.len(),
    ensures
        index_of(a + b, c) == index_of(a, c),
    decreases a.len(),
{
    if a[0] != c {
        assert((a + b).drop_first() =~= a.drop_first() + b);
        lemma_index_of_concat(a.drop_first(), b, c);
    }
}

pub proof fn lemma_index_of_bound(s: Seq<char>, c: char)
    ensures
        index_of(s, c) <= s.len(),
        index_of(s, c) < s.len() ==> s[index_of(s, c) as int] == c,
        forall|j: int| 0 <= j < index_of(s, c) ==> s[j] != c,
    decreases s.len(),
{
    if s.len() > 0 && s[0] != c {
        lemma_index_of_bound(s.drop_first(), c);
        assert forall|j: int| 0 <= j < index_of(s, c) implies s[j] != c by {
            if j > 0 {
                assert(s[j] == s.drop_first()[j - 1]);
            }
        }
    }
}

/// Loading a text that ends with a line break, followed by more text, gives the
/// entries of the first part, then those of the second.
pub proof fn lemma_queue_concat(a: Seq<char>, b: Seq<char>)
    requires
        is_stored_form(a),
    ensures
        queue_of(a + b) == queue_of(a) + queue_of(b),
    decreases a.len(),
{
    if a.len() == 0 {
        assert(a + b =~= b);
        assert(queue_of(a) + queue_of(b) =~= queue_of(b));
    } else {
        lemma_index_of_bound(a, '\n');
        if index_of(a, '\n') == a.len() {
            assert(a[a.len() - 1] == '\n');
        }
        let k = index_of(a, '\n');
        lemma_index_of_concat(a, b, '\n');
        assert((a + b).take(k as int) =~= a.take(k as int));
        let rest = a.skip(k + 1int);
        assert((a + b).skip(k + 1int) =~= rest + b);
        if rest.len() > 0 {
            assert(rest.last() == a.last());
        }
        lemma_queue_concat(rest, b);
        let line = strip_cr(a.take(k as int));
        if line.len() > 0 {
            assert(seq![line] + queue_of(rest) + queue_of(b) =~= seq![line] + (queue_of(rest)
                + queue_of(b)));
        }
    }
}

/// One entry and a line break load as that entry alone.
pub proof fn lemma_queue_single(u: Seq<char>)
    requires
        is_entry(u),
    ensures
        queue_of(u + seq!['\n']) == seq![u],
{
    let t = u + seq!['\n'];
    assert forall|j: int| 0 <= j < u.len() implies t[j] != '\n' by {
        if t[j] == '\n' {
            assert(u[j] == '\n');
            assert(u.contains('\n'));
        }
    }
    lemma_index_of(t, '\n', u.len() as int);
    assert(t.take(u.len() as int) =~= u);
    assert(strip_cr(u) == u);
    assert(t.skip(u.len() + 1int) =~= Seq::<char>::empty());
    assert(queue_of(Seq::<char>::empty()) == Seq::<Seq<char>>::empty());
    assert(seq![u] + Seq::<Seq<char>>::empty() =~= seq![u]);
}

/// The text that this library writes for a queue loads as that queue.
pub proof fn lemma_queue_joined(q: Seq<Seq<char>>)
    requires
        forall|i: int| 0 <= i < q.len() ==> is_entry(#[trigger] q[i]),
    ensures
        queue_of(joined(q)) == q,
        is_stored_form(joined(q)),
    decreases q.len(),
{
    if q.len() > 0 {
        let init = q.drop_last();
        lemma_queue_joined(init);
        assert(is_entry(q[q.len() - 1]));
        lemma_queue_concat(joined(init), q.last() + seq!['\n']);
        lemma_queue_single(q.last());
        assert(joined(q) =~= joined(init) + (q.last() + seq!['\n']));
        assert(init.push(q.last()) =~= q);
    }
}

/// `q` without its first entry equal to `u` (all of `q` when there is none).
pub open spec fn without_first(q: Seq<Seq<char>>, u: Seq<char>) -> Seq<Seq<char>>
    decreases q.len(),
{
    if q.len() == 0 {
        q
    } else if q[0] == u {
        q.drop_first()
    } else {
        seq![q[0]] + without_first(q.drop_first(), u)
    }
}

proof fn lemma_without_first(q: Seq<Seq<char>>, u: Seq<char>, i: int)
    requires
        0 <= i < q.len(),
        q[i] == u,
        forall|j: int| 0 <= j < i ==> q[j] != u,
    ensures
        without_first(q, u) == q.remove(i),
    decreases q.len(),
{
    if i > 0 {
        lemma_without_first(q.drop_first(), u, i - 1);
        assert(seq![q[0]] + q.drop_first().remove(i - 1) =~= q.remove(i));
    } else {
        assert(q.drop_first() =~= q.remove(0));
    }
}

proof fn lemma_without_absent(q: Seq<Seq<char>>, u: Seq<char>)
    requires
        !q.contains(u),
    ensures
        without_first(q, u) == q,
    decreases q.len(),
{
    if q.len() > 0 {
        assert(q[0] != u);
        assert(!q.drop_first().contains(u)) by {
            if q.drop_first().contains(u) {
                let j = choose|j: int| 0 <= j < q.drop_first().len() && q.drop_first()[j] == u;
                assert(q[j + 1] == u);
            }
        }
        lemma_without_absent(q.drop_first(), u);
        assert(seq![q[0]] + q.drop_first() =~= q);
    }
}

/// Every entry that a text loads as is non-empty and on one line.
pub proof fn lemma_queue_entries(text: Seq<char>)
    ensures
        forall|i: int| 0 <= i < queue_of(text).len() ==> is_entry(#[trigger] queue_of(text)[i]),
    decreases text.len(),
{
    if text.len() > 0 {
        let k = index_of(text, '\n');
        lemma_index_of_bound(text, '\n');
        let raw = text.take(k as int);
        let line = strip_cr(raw);
        lemma_strip_cr_shape(raw);
        let rest = if k < text.len() {
            text.skip(k + 1int)
        } else {
            seq![]
        };
        lemma_queue_entries(rest);
        if line.len() == 0 {
            assert(queue_of(text) == queue_of(rest));
        } else {
            assert(queue_of(text) == seq![line] + queue_of(rest));
            assert(!line.contains('\n')) by {
                if line.contains('\n') {
                    let j = choose|j: int| 0 <= j < line.len() && line[j] == '\n';
                    assert(line[j] == raw[j]);
                    assert(text[j] == '\n');
                }
            }
            assert forall|i: int| 0 <= i < queue_of(text).len() implies is_entry(
                #[trigger] queue_of(text)[i],
            ) by {
                if i > 0 {
                    assert(queue_of(text)[i] == queue_of(rest)[i - 1]);
                }
            }
        }
    }
}

/// Reads a queue file's text: its non-empty lines, in order.
pub fn load_queue(text: &str) -> (r: Vec<String>)
    ensures
        views(r@) == queue_of(text@),
{
    let v = chars_of(text);
    let n = v.len();
    let mut out: Vec<String> = Vec::new();
    let mut start: usize = 0;
    assert(v@.skip(0) =~= v@);
    while start < n
        invariant
            start <= n == v.len(),
            v@ == text@,
            views(out@) + queue_of(v@.skip(start as int)) == queue_of(text@),
        decreases n - start,
    {
        let ghost w = v@.skip(start as int);
        let k = find_from(v.as_slice(), start, '\n');
        let mut e: usize = k;
        while e > start && v[e - 1] == '\r'
            invariant
                start <= e <= k <= n == v.len(),
                forall|m: int| e <= m < k ==> v@[m] == '\r',
            decreases e - start,
        {
            e -= 1;
        }
        let line = sub_string(v.as_slice(), start, e);
        proof {
            let raw = w.take(k - start);
            assert(raw =~= v@.subrange(start as int, k as int));
            lemma_strip_cr(raw, e - start);
            assert(line@ =~= strip_cr(raw));
            if k < n {
                assert(w.skip(k - start + 1) =~= v@.skip(k + 1));
            }
        }
        let ghost before_push = out@;
        if e > start {
            out.push(line);
            assert(views(out@) =~= views(before_push) + seq![line@]);
        }
        start = if k < n {
            k + 1
        } else {
            n
        };
        proof {
            if start == n {
                assert(v@.skip(start as int) =~= Seq::<char>::empty());
            }
        }
    }
    assert(v@.skip(start as int) =~= Seq::<char>::empty());
    assert(views(out@) + Seq::<Seq<char>>::empty() =~= views(out@));
    out
}

/// The text of a queue: each entry followed by a line break.
pub fn join_lines(lines: &Vec<String>) -> (r: String)
    ensures
        r@ == joined(views(lines@)),
{
    let mut out: Vec<char> = Vec::new();
    let mut i: usize = 0;
    while i < lines.len()
        invariant
            i <= lines.len(),
            out@ == joined(views(lines@.take(i as int))),
        decreases lines.len() - i,
    {
        let c = chars_of(lines[i].as_str());
        let ghost prev = out@;
        let mut k: usize = 0;
        while k < c.len()
            invariant
                k <= c.len(),
                out@ == prev + c@.take(k as int),
            decreases c.len() - k,
        {
            out.push(c[k]);
            k += 1;
            assert(out@ =~= prev + c@.take(k as int));
        }
        out.push('\n');
        proof {
            let t = views(lines@.take(i + 1));
            assert(t.drop_last() =~= views(lines@.take(i as int)));
            assert(c@.take(k as int) =~= c@);
            assert(out@ =~= joined(t));
        }
        i += 1;
    }
    assert(lines@.take(i as int) =~= lines@);
    string_of(out.as_slice())
}

/// Removes the first entry equal to `url` from the queue that `text` holds.
/// Returns the new text of the queue, or `None` when no entry equals `url`: the
/// file is then left exactly as it is.
pub fn remove_first(text: &str, url: &str) -> (r: Option<String>)
    ensures
        r is None <==> !queue_of(text@).contains(url@),
        r matches Some(t) ==> t@ == joined(without_first(queue_of(text@), url@)),
        r matches Some(t) ==> queue_of(t@) == without_first(queue_of(text@), url@),
{
    let lines = load_queue(text);
    let ghost q = queue_of(text@);
    let u = String::from_str(url);
    let mut i: usize = 0;
    while i < lines.len() && !(lines[i] == u)
        invariant
            i <= lines.len(),
            views(lines@) == q,
            u@ == url@,
            forall|j: int| 0 <= j < i ==> q[j] != url@,
        decreases lines.len() - i,
    {
        i += 1;
    }
    if i == lines.len() {
        assert(!q.contains(url@)) by {
            if q.contains(url@) {
                let j = choose|j: int| 0 <= j < q.len() && q[j] == url@;
            }
        }
        return None;
    }
    assert(q[i as int] == url@);
    proof {
        lemma_without_first(q, url@, i as int);
        lemma_queue_entries(text@);
    }
    let mut kept: Vec<String> = Vec::new();
    let mut j: usize = 0;
    while j < lines.len()
        invariant
            i < lines.len(),
            j <= lines.len(),
            views(lines@) == q,
            views(kept@) == if j <= i {
                q.take(j as int)
            } else {
                q.take(i as int) + q.subrange(i + 1, j as int)
            },
        decreases lines.len() - j,
    {
        let ghost prev = kept@;
        if j != i {
            kept.push(lines[j].clone());
            assert(views(kept@) =~= views(prev).push(q[j as int]));
        } else {
            assert(q.subrange(i + 1, i + 1) =~= Seq::<Seq<char>>::empty());
        }
        j += 1;
        assert(views(kept@) =~= if j <= i {
            q.take(j as int)
        } else {
            q.take(i as int) + q.subrange(i + 1, j as int)
        });
    }
    assert(views(kept@) =~= q.remove(i as int));
    proof {
        assert forall|m: int| 0 <= m < q.remove(i as int).len() implies is_entry(
            #[trigger] q.remove(i as int)[m],
        ) by {
            if m < i {
                assert(q.remove(i as int)[m] == q[m]);
            } else {
                assert(q.remove(i as int)[m] == q[m + 1]);
            }
        }
        lemma_queue_joined(q.remove(i as int));
    }
    Some(join_lines(&kept))
}

/// What is appended to the queue file for `url`: its normalized form and a line
/// break.
pub open spec fn appended(url: Seq<char>) -> Seq<char> {
    normalized(url) + seq!['\n']
}

/// The line break to write before an entry appended to `text`: none when `text` is
/// empty or already ends with one.
pub open spec fn lead(text: Seq<char>) -> Seq<char> {
    if is_stored_form(text) {
        seq![]
    } else {
        seq!['\n']
    }
}

/// The text to append to a queue file for `url`. `ends_with_break` tells whether
/// the file is empty or ends with a line break; otherwise a line break comes first,
/// so that the last entry of the file stays as it is.
pub fn append_text(ends_with_break: bool, url: &str) -> (r: String)
    ensures
        r@ == (if ends_with_break {
            seq![]
        } else {
            seq!['\n']
        }) + appended(url@),
{
    let n = normalize(url);
    let mut v: Vec<char> = Vec::new();
    if !ends_with_break {
        v.push('\n');
    }
    let c = chars_of(n.as_str());
    let ghost prev = v@;
    let mut k: usize = 0;
    while k < c.len()
        invariant
            k <= c.len(),
            v@ == prev + c@.take(k as int),
        decreases c.len() - k,
    {
        v.push(c[k]);
        k += 1;
        assert(v@ =~= prev + c@.take(k as int));
    }
    v.push('\n');
    assert(c@.take(k as int) =~= c@);
    assert(v@ =~= (if ends_with_break {
        seq![]
    } else {
        seq!['\n']
    }) + appended(url@));
    string_of(v.as_slice())
}

/// A line break at the end of a text adds no entry.
pub proof fn lemma_queue_newline(t: Seq<char>)
    ensures
        queue_of(t + seq!['\n']) == queue_of(t),
    decreases t.len(),
{
    let s = t + seq!['\n'];
    if t.len() == 0 {
        assert(s[0] == '\n');
        assert(index_of(s, '\n') == 0);
        assert(s.take(0) =~= Seq::<char>::empty());
        assert(strip_cr(s.take(0)) =~= Seq::<char>::empty());
        assert(s.skip(1) =~= Seq::<char>::empty());
        assert(queue_of(s) == queue_of(Seq::<char>::empty()));
    } else {
        lemma_index_of_bound(t, '\n');
        let k = index_of(t, '\n');
        if k < t.len() {
            lemma_index_of_concat(t, seq!['\n'], '\n');
            assert(s.take(k as int) =~= t.take(k as int));
            assert(s.skip(k + 1int) =~= t.skip(k + 1int) + seq!['\n']);
            lemma_queue_newline(t.skip(k + 1int));
            assert(s.len() > 0);
        } else {
            assert forall|j: int| 0 <= j < t.len() implies s[j] != '\n' by {
                assert(s[j] == t[j]);
            }
            lemma_index_of(s, '\n', t.len() as int);
            assert(s.take(t.len() as int) =~= t);
            assert(t.take(k as int) =~= t);
            assert(s.skip(t.len() + 1int) =~= Seq::<char>::empty());
        }
    }
}

/// A URL that carries a tracking suffix after `&` is stored cut at the first `&`.
pub proof fn law_tracking_suffix_dropped(u: Seq<char>)
    requires
        !is_markdown_link(u),
    ensures
        normalized(u) == u.take(index_of(u, '&') as int),
        !normalized(u).contains('&'),
{
    lemma_index_of_bound(u, '&');
    assert(!normalized(u).contains('&')) by {
        if normalized(u).contains('&') {
            let j = choose|j: int| 0 <= j < normalized(u).len() && normalized(u)[j] == '&';
            assert(u[j] == '&');
        }
    }
}

/// A markdown link `[text](url&rest)` is stored as `url`, when `text` holds no `]`
/// and `url` no `&`.
pub proof fn law_markdown_link_target(text: Seq<char>, url: Seq<char>, rest: Seq<char>)
    requires
        !text.contains(']'),
        !url.contains('&'),
    ensures
        normalized(seq!['['] + text + seq![']', '('] + url + seq!['&'] + rest + seq![')']) == url,
{
    let s = seq!['['] + text + seq![']', '('] + url + seq!['&'] + rest + seq![')'];
    let k: int = text.len() + 1int;
    assert forall|j: int| 0 <= j < k implies s[j] != ']' by {
        if j > 0 {
            assert(s[j] == text[j - 1]);
            if text[j - 1] == ']' {
                assert(text.contains(']'));
            }
        }
    }
    assert(s[k] == ']');
    lemma_index_of(s, ']', k);
    assert(is_markdown_link(s));
    let t = s.subrange(k + 2, s.len() - 1);
    assert(t =~= url + seq!['&'] + rest);
    assert forall|j: int| 0 <= j < url.len() implies t[j] != '&' by {
        assert(t[j] == url[j]);
        if url[j] == '&' {
            assert(url.contains('&'));
        }
    }
    assert(t[url.len() as int] == '&');
    lemma_index_of(t, '&', url.len() as int);
    assert(t.take(url.len() as int) =~= url);
}

/// Appending a URL to any queue file, with a line break first where the file
/// lacks one, and loading gives the old queue with the normalized URL last; two
/// appends keep their order.
pub proof fn law_append_then_load(text: Seq<char>, u: Seq<char>, v: Seq<char>)
    requires
        is_entry(normalized(u)),
        is_entry(normalized(v)),
    ensures
        queue_of(text + lead(text) + appended(u)) == queue_of(text).push(normalized(u)),
        queue_of(text + lead(text) + appended(u) + appended(v)) == queue_of(text).push(
            normalized(u),
        ).push(normalized(v)),
{
    let t0 = text + lead(text);
    if !is_stored_form(text) {
        lemma_queue_newline(text);
    } else {
        assert(t0 =~= text);
    }
    assert(is_stored_form(t0));
    lemma_queue_concat(t0, appended(u));
    lemma_queue_single(normalized(u));
    assert(queue_of(t0) + seq![normalized(u)] =~= queue_of(text).push(normalized(u)));
    let t1 = t0 + appended(u);
    assert(t1.last() == '\n');
    lemma_queue_concat(t1, appended(v));
    lemma_queue_single(normalized(v));
    assert(queue_of(t1) + seq![normalized(v)] =~= queue_of(t1).push(normalized(v)));
}

/// Removing a URL that the queue does not hold changes nothing; removing one it
/// holds takes out exactly its first occurrence.
pub proof fn law_remove_first(text: Seq<char>, u: Seq<char>)
    ensures
        !queue_of(text).contains(u) ==> without_first(queue_of(text), u) == queue_of(text),
        queue_of(text).contains(u) ==> without_first(queue_of(text), u).len() + 1 == queue_of(text).len(),
{
    let q = queue_of(text);
    if !q.contains(u) {
        lemma_without_absent(q, u);
    } else {
        let i = choose|i: int| 0 <= i < q.len() && q[i] == u;
        lemma_first_occurrence(q, u, i);
        let f = choose|f: int| 0 <= f < q.len() && q[f] == u && forall|j: int| 0 <= j < f ==> q[j] != u;
        lemma_without_first(q, u, f);
    }
}

proof fn lemma_first_occurrence(q: Seq<Seq<char>>, u: Seq<char>, i: int)
    requires
        0 <= i < q.len(),
        q[i] == u,
    ensures
        exists|f: int| 0 <= f < q.len() && q[f] == u && forall|j: int| 0 <= j < f ==> q[j] != u,
    decreases i,
{
    if exists|j: int| 0 <= j < i && q[j] == u {
        let j = choose|j: int| 0 <= j < i && q[j] == u;
        lemma_first_occurrence(q, u, j);
    } else {
        assert(forall|j: int| 0 <= j < i ==> q[j] != u);
    }
}

/// Loading an emptied queue file gives the empty queue.
pub proof fn law_cleared_queue_is_empty()
    ensures
        queue_of(Seq::<char>::empty()).len() == 0,
{
}

} // verus!
