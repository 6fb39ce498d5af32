//! Splitting a byte buffer into newline-terminated lines.
use vstd::prelude::*;

verus! {

/// Length of the first line of `s`: up to and including the first newline,
/// or all of `s` when it holds no newline.
pub open spec fn first_line_len(s: Seq<u8>) -> nat
    decreases s.len(),
{
    if s.len() == 0 {
        0
    } else if s[0] == 10u8 {
        1
    } else {
        1 + first_line_len(s.drop_first())
    }
}

/// The lines of `s`, in order: each keeps its terminating newline, and bytes
/// after the last newline form a final unterminated line.
pub open spec fn lines(s: Seq<u8>) -> Seq<Seq<u8>>
    decreases s.len(),
{
    if s.len() == 0 {
        Seq::empty()
    } else {
        let n = first_line_len(s);
        if 0 < n <= s.len() {
            seq![s.take(n as int)] + lines(s.skip(n as int))
        } else {
            Seq::empty()
        }
    }
}

pub proof fn lemma_first_line_len_bounds(s: Seq<u8>)
    ensures
        s.len() > 0 ==> 0 < first_line_len(s) <= s.len(),
        s.len() == 0 ==> first_line_len(s) == 0,
    decreases s.len(),
{
    if s.len() > 0 && s[0] != 10u8 {
        lemma_first_line_len_bounds(s.drop_first());
    }
}

/// The first line ends at the first newline.
proof fn lemma_first_line_len_at(s: Seq<u8>, i: int)
    requires
        0 <= i < s.len(),
        s[i] == 10u8,
        forall|j: int| 0 <= j < i ==> s[j] != 10u8,
    ensures
        first_line_len(s) == i + 1,
    decreases i,
{
    if i > 0 {
        assert(s[0] != 10u8);
        lemma_first_line_len_at(s.drop_first(), i - 1);
    }
}

/// Without a newline the first line is all of `s`.
proof fn lemma_first_line_len_none(s: Seq<u8>)
    requires
        forall|j: int| 0 <= j < s.len() ==> s[j] != 10u8,
    ensures
        first_line_len(s) == s.len(),
    decreases s.len(),
{
    if s.len() > 0 {
        assert(s[0] != 10u8);
        lemma_first_line_len_none(s.drop_first());
    }
}

/// Relies on memchr::memchr: the index of the first byte of `haystack` equal
/// to `needle`, or `None` when there is none.
#[verifier::external_body]
fn find_byte(needle: u8, haystack: &[u8]) -> (r: Option<usize>)
    ensures
        match r {
            Some(i) => i < haystack@.len() && haystack@[i as int] == needle && forall|j: int|
                0 <= j < i ==> haystack@[j] != needle,
            None => forall|j: int| 0 <= j < haystack@.len() ==> haystack@[j] != needle,
        },
{
    memchr::memchr(needle, haystack)
}

/// The end (exclusive) of the line of `text` that starts at `begin`.
pub fn line_end(text: &[u8], begin: usize) -> (end: usize)
    requires
        begin < text@.len(),
    ensures
        begin < end <= text@.len(),
        end - begin == first_line_len(text@.skip(begin as int)),
{
    let rest = vstd::slice::slice_subrange(text, begin, text.len());
    let ghost tail = text@.skip(begin as int);
    assert(rest@ =~= tail);
    match find_byte(10u8, rest) {
        Some(i) => {
            proof {
                lemma_first_line_len_at(tail, i as int);
            }
            begin + i + 1
        },
        None => {
            proof {
                lemma_first_line_len_none(tail);
            }
            text.len()
        },
    }
}

/// Stepping over the first line of `s[pos..]`.
pub proof fn lemma_lines_step(s: Seq<u8>, pos: int, end: int)
    requires
        0 <= pos < end <= s.len(),
        end - pos == first_line_len(s.skip(pos)),
    ensures
        lines(s.skip(pos)) == seq![s.subrange(pos, end)] + lines(s.skip(end)),
{
    let t = s.skip(pos);
    lemma_first_line_len_bounds(t);
    assert(t.take(end - pos) =~= s.subrange(pos, end));
    assert(t.skip(end - pos) =~= s.skip(end));
}

/// Whether `s` is empty or ends with a newline.
pub open spec fn terminated(s: Seq<u8>) -> bool {
    s.len() == 0 || s.last() == 10u8
}

proof fn lemma_first_line_len_append(a: Seq<u8>, b: Seq<u8>, i: int)
    requires
        0 <= i < a.len(),
        a[i] == 10u8,
    ensures
        first_line_len(a + b) == first_line_len(a),
    decreases i,
{
    if a[0] != 10u8 {
        assert((a + b).drop_first() =~= a.drop_first() + b);
        lemma_first_line_len_append(a.drop_first(), b, i - 1);
    }
}

/// The lines of a terminated buffer followed by another are those of each.
pub proof fn lemma_lines_append(a: Seq<u8>, b: Seq<u8>)
    requires
        terminated(a),
    ensures
        lines(a + b) == lines(a) + lines(b),
    decreases a.len(),
{
    if a.len() == 0 {
        assert(a + b =~= b);
        assert(lines(a) + lines(b) =~= lines(b));
    } else {
        let n = first_line_len(a);
        lemma_first_line_len_bounds(a);
        lemma_first_line_len_bounds(a + b);
        lemma_first_line_len_append(a, b, a.len() - 1);
        let t = a.skip(n as int);
        assert((a + b).take(n as int) =~= a.take(n as int));
        assert((a + b).skip(n as int) =~= t + b);
        if t.len() > 0 {
            assert(t.last() == a.last());
        }
        lemma_lines_append(t, b);
        assert(lines(a + b) =~= lines(a) + lines(b));
    }
}

} // verus!
