use vstd::prelude::*;

use crate::text::{before, chars_of, find_char, string_of};

verus! {

/// Number of cells in the progress bar.
pub const CELLS: usize = 10;

/// Largest whole percentage accepted (the range of an `i32`).
pub const MAX_WHOLE: u64 = 2147483647;

pub open spec fn fill(c: char, n: nat) -> Seq<char> {
    Seq::new(n, |_i: int| c)
}

/// The bar for `full` filled cells: full cells, then one marker while the bar is
/// not complete, then empty cells up to the width.
pub open spec fn bar(full: nat) -> Seq<char> {
    if full < CELLS {
        fill('=', full) + seq!['>'] + fill('-', (CELLS - 1 - full) as nat)
    } else {
        fill('=', full)
    }
}

/// `[<bar>] (ETA <eta>)`.
pub open spec fn rendered(full: nat, eta: Seq<char>) -> Seq<char> {
    seq!['['] + bar(full) + seq![']', ' ', '(', 'E', 'T', 'A', ' '] + eta + seq![')']
}

pub open spec fn is_digit(c: char) -> bool {
    '0' <= c <= '9'
}

pub open spec fn all_digits(s: Seq<char>) -> bool {
    forall|i: int| 0 <= i < s.len() ==> is_digit(#[trigger] s[i])
}

/// The number that the decimal digits `s` write.
pub open spec fn digits_value(s: Seq<char>) -> nat
    decreases s.len(),
{
    if s.len() == 0 {
        0
    } else {
        digits_value(s.drop_last()) * 10 + (s.last() as nat - '0' as nat) as nat
    }
}

/// The whole part of a percentage written `<digits>` or `<digits>.<anything>`.
pub open spec fn whole_part(pct: Seq<char>) -> Seq<char> {
    before(pct, '.')
}

/// A percentage text that `progress` accepts: its whole part is a non-empty run of
/// decimal digits whose value fits in an `i32`.
pub open spec fn valid_percentage(pct: Seq<char>) -> bool {
    &&& whole_part(pct).len() > 0
    &&& all_digits(whole_part(pct))
    &&& digits_value(whole_part(pct)) <= MAX_WHOLE
}

/// The number of full cells for a percentage text.
pub open spec fn full_cells(pct: Seq<char>) -> nat {
    digits_value(whole_part(pct)) / (CELLS as nat)
}

pub proof fn lemma_digits_monotone(s: Seq<char>, i: int, j: int)
    requires
        0 <= i <= j <= s.len(),
        all_digits(s),
    ensures
        digits_value(s.take(i)) <= digits_value(s.take(j)),
    decreases j - i,
{
    if i < j {
        lemma_digits_monotone(s, i, j - 1);
        assert(s.take(j).drop_last() =~= s.take(j - 1));
    }
}

/// The value of the decimal digits `v[..n]`.
fn whole_value(v: &[char], n: usize) -> (r: u64)
    requires
        n <= v.len(),
        all_digits(v@.take(n as int)),
        digits_value(v@.take(n as int)) <= MAX_WHOLE,
    ensures
        r == digits_value(v@.take(n as int)),
{
    let ghost w = v@.take(n as int);
    let mut val: u64 = 0;
    let mut i: usize = 0;
    while i < n
        invariant
            i <= n <= v.len(),
            w == v@.take(n as int),
            all_digits(w),
            digits_value(w) <= MAX_WHOLE,
            val == digits_value(w.take(i as int)),
        decreases n - i,
    {
        proof {
            assert(w.take(i + 1).drop_last() =~= w.take(i as int));
            assert(is_digit(w[i as int]));
            lemma_digits_monotone(w, i + 1, n as int);
            assert(w.take(n as int) =~= w);
        }
        val = val * 10 + (v[i] as u64 - '0' as u64);
        i += 1;
    }
    proof {
        assert(w.take(n as int) =~= w);
    }
    val
}

/// Whether `progress` accepts the percentage text `pct`.
pub fn percentage_is_valid(pct: &str) -> (r: bool)
    ensures
        r == valid_percentage(pct@),
{
    let p = chars_of(pct);
    let dot = find_char(p.as_slice(), '.');
    let ghost w = p@.take(dot as int);
    assert(w == whole_part(pct@));
    if dot == 0 {
        return false;
    }
    let mut val: u64 = 0;
    let mut i: usize = 0;
    while i < dot
        invariant
            i <= dot <= p.len(),
            w == p@.take(dot as int),
            w == whole_part(pct@),
            forall|k: int| 0 <= k < i ==> is_digit(w[k]),
            val == digits_value(w.take(i as int)),
            val <= MAX_WHOLE,
        decreases dot - i,
    {
        if !('0' <= p[i] && p[i] <= '9') {
            assert(!is_digit(w[i as int]));
            assert(!all_digits(w));
            return false;
        }
        assert(w.take(i + 1).drop_last() =~= w.take(i as int));
        assert(w.take(i + 1).last() == p@[i as int]);
        val = val * 10 + (p[i] as u64 - '0' as u64);
        i += 1;
        assert(val == digits_value(w.take(i as int)));
        if val > MAX_WHOLE {
            proof {
                if all_digits(w) {
                    lemma_digits_monotone(w, i as int, dot as int);
                    assert(w.take(dot as int) =~= w);
                }
            }
            return false;
        }
    }
    assert(w.take(i as int) =~= w);
    true
}

fn push_fill(out: &mut Vec<char>, c: char, n: usize)
    ensures
        final(out)@ == old(out)@ + fill(c, n as nat),
{
    let mut k: usize = 0;
    while k < n
        invariant
            k <= n,
            out@ == old(out)@ + fill(c, k as nat),
        decreases n - k,
    {
        out.push(c);
        k += 1;
        assert(out@ =~= old(out)@ + fill(c, k as nat));
    }
}

fn push_all(out: &mut Vec<char>, s: &[char])
    ensures
        final(out)@ == old(out)@ + s@,
{
    let mut k: usize = 0;
    while k < s.len()
        invariant
            k <= s.len(),
            out@ == old(out)@ + s@.take(k as int),
        decreases s.len() - k,
    {
        out.push(s[k]);
        k += 1;
        assert(out@ =~= old(out)@ + s@.take(k as int));
    }
    assert(s@.take(k as int) =~= s@);
}

/// Renders the progress line `[<bar>] (ETA <eta>)` for a percentage text such as
/// `"45.3%"`: one cell is full for each whole ten percent, one marker cell follows
/// while the bar is not complete, and the other cells are empty.
pub fn progress(eta: &str, pct: &str) -> (r: String)
    requires
        valid_percentage(pct@),
    ensures
        r@ == rendered(full_cells(pct@), eta@),
{
    let p = chars_of(pct);
    let dot = find_char(p.as_slice(), '.');
    assert(p@.take(dot as int) == whole_part(pct@));
    let whole = whole_value(p.as_slice(), dot);
    let full = (whole / (CELLS as u64)) as usize;
    let mut out: Vec<char> = Vec::new();
    out.push('[');
    push_fill(&mut out, '=', full);
    if full < CELLS {
        out.push('>');
        push_fill(&mut out, '-', CELLS - 1 - full);
    }
    let tail = [']', ' ', '(', 'E', 'T', 'A', ' '];
    push_all(&mut out, &tail);
    let e = chars_of(eta);
    push_all(&mut out, e.as_slice());
    out.push(')');
    assert(out@ =~= rendered(full as nat, eta@));
    string_of(out.as_slice())
}

} // verus!
