//! What the operations compute, stated over the operands' lines.
//!
//! The operands are a sequence of byte strings; the first one is file 0.
use vstd::prelude::*;

use crate::bookkeeping::Retainable;
use crate::lines::lines;

verus! {

/// How many times `x` occurs in `s`.
pub open spec fn occurrences(s: Seq<Seq<u8>>, x: Seq<u8>) -> nat
    decreases s.len(),
{
    if s.len() == 0 {
        0
    } else {
        occurrences(s.drop_last(), x) + if s.last() == x {
            1nat
        } else {
            0nat
        }
    }
}

/// The lines of all operands, one operand after another.
pub open spec fn all_lines(ops: Seq<Seq<u8>>) -> Seq<Seq<u8>>
    decreases ops.len(),
{
    if ops.len() == 0 {
        Seq::empty()
    } else {
        all_lines(ops.drop_last()) + lines(ops.last())
    }
}

/// The number of operands that hold the line `x`.
pub open spec fn file_count(ops: Seq<Seq<u8>>, x: Seq<u8>) -> nat
    decreases ops.len(),
{
    if ops.len() == 0 {
        0
    } else {
        file_count(ops.drop_last(), x) + if lines(ops.last()).contains(x) {
            1nat
        } else {
            0nat
        }
    }
}

/// The number of the last operand that holds the line `x` (0 where none does).
pub open spec fn last_file(ops: Seq<Seq<u8>>, x: Seq<u8>) -> nat
    decreases ops.len(),
{
    if ops.len() == 0 {
        0
    } else if lines(ops.last()).contains(x) {
        (ops.len() - 1) as nat
    } else {
        last_file(ops.drop_last(), x)
    }
}

/// The elements of `s` in order of first occurrence, each once.
pub open spec fn dedup(s: Seq<Seq<u8>>) -> Seq<Seq<u8>>
    decreases s.len(),
{
    if s.len() == 0 {
        Seq::empty()
    } else if s.drop_last().contains(s.last()) {
        dedup(s.drop_last())
    } else {
        dedup(s.drop_last()).push(s.last())
    }
}

/// The bookkeeping item of the line `x` once the operands `ops` are done and
/// the lines `cur` of the next one have been read.
pub open spec fn item_during<B: Retainable>(
    ops: Seq<Seq<u8>>,
    cur: Seq<Seq<u8>>,
    x: Seq<u8>,
) -> B {
    B::at(
        occurrences(all_lines(ops) + cur, x),
        file_count(ops, x) + if cur.contains(x) {
            1nat
        } else {
            0nat
        },
        if cur.contains(x) {
            ops.len()
        } else {
            last_file(ops, x)
        },
    )
}

/// The bookkeeping item of the line `x` once the operands `ops` are done.
pub open spec fn item_of<B: Retainable>(ops: Seq<Seq<u8>>, x: Seq<u8>) -> B {
    B::at(occurrences(all_lines(ops), x), file_count(ops, x), last_file(ops, x))
}

/// Each line of `keys` preceded by its column.
pub open spec fn report(keys: Seq<Seq<u8>>, column: spec_fn(Seq<u8>) -> Seq<u8>) -> Seq<u8>
    decreases keys.len(),
{
    if keys.len() == 0 {
        Seq::empty()
    } else {
        report(keys.drop_last(), column) + column(keys.last()) + keys.last()
    }
}

pub proof fn lemma_occurrences_push(s: Seq<Seq<u8>>, y: Seq<u8>, x: Seq<u8>)
    ensures
        occurrences(s.push(y), x) == occurrences(s, x) + if y == x {
            1nat
        } else {
            0nat
        },
{
    assert(s.push(y).drop_last() =~= s);
}

pub proof fn lemma_occurrences_absent(s: Seq<Seq<u8>>, x: Seq<u8>)
    ensures
        !s.contains(x) <==> occurrences(s, x) == 0,
    decreases s.len(),
{
    if s.len() > 0 {
        lemma_occurrences_absent(s.drop_last(), x);
        if s.last() != x {
            assert(s.drop_last().contains(x) ==> s.contains(x));
            assert(s.contains(x) ==> s.drop_last().contains(x)) by {
                if s.contains(x) {
                    let i = choose|i: int| 0 <= i < s.len() && s[i] == x;
                    assert(s.drop_last()[i] == x);
                }
            }
        } else {
            assert(s[s.len() - 1] == x);
        }
    }
}

pub proof fn lemma_occurrences_add(a: Seq<Seq<u8>>, b: Seq<Seq<u8>>, x: Seq<u8>)
    ensures
        occurrences(a + b, x) == occurrences(a, x) + occurrences(b, x),
    decreases b.len(),
{
    if b.len() == 0 {
        assert(a + b =~= a);
    } else {
        assert((a + b).drop_last() =~= a + b.drop_last());
        lemma_occurrences_add(a, b.drop_last(), x);
    }
}

pub proof fn lemma_contains_add(a: Seq<Seq<u8>>, b: Seq<Seq<u8>>, x: Seq<u8>)
    ensures
        (a + b).contains(x) <==> a.contains(x) || b.contains(x),
{
    if (a + b).contains(x) {
        let i = choose|i: int| 0 <= i < (a + b).len() && (a + b)[i] == x;
        if i < a.len() {
            assert(a[i] == x);
        } else {
            assert(b[i - a.len()] == x);
        }
    }
    if a.contains(x) {
        let i = choose|i: int| 0 <= i < a.len() && a[i] == x;
        assert((a + b)[i] == x);
    }
    if b.contains(x) {
        let i = choose|i: int| 0 <= i < b.len() && b[i] == x;
        assert((a + b)[a.len() + i] == x);
    }
}

pub proof fn lemma_contains_push(s: Seq<Seq<u8>>, y: Seq<u8>, x: Seq<u8>)
    ensures
        s.push(y).contains(x) <==> s.contains(x) || y == x,
{
    lemma_contains_add(s, seq![y], x);
    assert(s.push(y) =~= s + seq![y]);
    assert(seq![y][0] == y);
}

pub proof fn lemma_dedup(s: Seq<Seq<u8>>)
    ensures
        dedup(s).no_duplicates(),
        forall|x: Seq<u8>| dedup(s).contains(x) <==> s.contains(x),
    decreases s.len(),
{
    if s.len() > 0 {
        let p = s.drop_last();
        lemma_dedup(p);
        assert(s =~= p.push(s.last()));
        assert forall|x: Seq<u8>| dedup(s).contains(x) <==> s.contains(x) by {
            lemma_contains_push(p, s.last(), x);
            lemma_contains_push(dedup(p), s.last(), x);
        }
        if !p.contains(s.last()) {
            let d = dedup(p).push(s.last());
            assert forall|i: int, j: int| 0 <= i < d.len() && 0 <= j < d.len() && i != j implies d[i]
                != d[j] by {
                if i == d.len() - 1 {
                    assert(dedup(p).contains(d[j]));
                } else if j == d.len() - 1 {
                    assert(dedup(p).contains(d[i]));
                }
            }
        }
    }
}

/// The operands after one more is done.
pub proof fn lemma_next_operand(ops: Seq<Seq<u8>>, text: Seq<u8>, x: Seq<u8>)
    ensures
        all_lines(ops.push(text)) == all_lines(ops) + lines(text),
        file_count(ops.push(text), x) == file_count(ops, x) + if lines(text).contains(x) {
            1nat
        } else {
            0nat
        },
        last_file(ops.push(text), x) == if lines(text).contains(x) {
            ops.len()
        } else {
            last_file(ops, x)
        },
{
    assert(ops.push(text).drop_last() =~= ops);
}

pub proof fn lemma_last_file_bound(ops: Seq<Seq<u8>>, x: Seq<u8>)
    requires
        ops.len() > 0,
    ensures
        last_file(ops, x) < ops.len(),
    decreases ops.len(),
{
    if ops.len() > 1 {
        lemma_last_file_bound(ops.drop_last(), x);
    } else {
        assert(last_file(ops.drop_last(), x) == 0);
    }
}

/// A line seen somewhere has been seen in one file at least, the last of them
/// before or at the current one.
pub proof fn lemma_seen(ops: Seq<Seq<u8>>, x: Seq<u8>)
    ensures
        all_lines(ops).contains(x) ==> file_count(ops, x) >= 1,
        !all_lines(ops).contains(x) ==> file_count(ops, x) == 0 && occurrences(all_lines(ops), x)
            == 0,
    decreases ops.len(),
{
    lemma_occurrences_absent(all_lines(ops), x);
    if ops.len() > 0 {
        lemma_seen(ops.drop_last(), x);
        lemma_contains_add(all_lines(ops.drop_last()), lines(ops.last()), x);
    }
}

pub proof fn lemma_report_ext(
    keys: Seq<Seq<u8>>,
    c1: spec_fn(Seq<u8>) -> Seq<u8>,
    c2: spec_fn(Seq<u8>) -> Seq<u8>,
)
    requires
        forall|i: int| 0 <= i < keys.len() ==> c1(keys[i]) == c2(keys[i]),
    ensures
        report(keys, c1) == report(keys, c2),
    decreases keys.len(),
{
    if keys.len() > 0 {
        lemma_report_ext(keys.drop_last(), c1, c2);
    }
}

pub proof fn lemma_filter_ext(
    s: Seq<Seq<u8>>,
    p: spec_fn(Seq<u8>) -> bool,
    q: spec_fn(Seq<u8>) -> bool,
)
    requires
        forall|i: int| 0 <= i < s.len() ==> p(s[i]) == q(s[i]),
    ensures
        s.filter(p) == s.filter(q),
    decreases s.len(),
{
    reveal(Seq::filter);
    if s.len() > 0 {
        lemma_filter_ext(s.drop_last(), p, q);
    }
}

pub proof fn lemma_filter_subset(s: Seq<Seq<u8>>, p: spec_fn(Seq<u8>) -> bool, x: Seq<u8>)
    ensures
        s.filter(p).contains(x) ==> s.contains(x) && p(x),
    decreases s.len(),
{
    reveal(Seq::filter);
    if s.len() > 0 {
        lemma_filter_subset(s.drop_last(), p, x);
        lemma_contains_push(s.drop_last().filter(p), s.last(), x);
        lemma_contains_push(s.drop_last(), s.last(), x);
        assert(s =~= s.drop_last().push(s.last()));
    }
}

pub proof fn lemma_filter_twice(
    s: Seq<Seq<u8>>,
    p: spec_fn(Seq<u8>) -> bool,
    q: spec_fn(Seq<u8>) -> bool,
)
    ensures
        s.filter(p).filter(q) == s.filter(|x: Seq<u8>| p(x) && q(x)),
    decreases s.len(),
{
    reveal(Seq::filter);
    if s.len() > 0 {
        lemma_filter_twice(s.drop_last(), p, q);
        let r = s.drop_last().filter(p);
        if p(s.last()) {
            assert(r.push(s.last()).drop_last() =~= r);
        }
    }
}

pub proof fn lemma_filter_no_duplicates(s: Seq<Seq<u8>>, p: spec_fn(Seq<u8>) -> bool)
    requires
        s.no_duplicates(),
    ensures
        s.filter(p).no_duplicates(),
    decreases s.len(),
{
    reveal(Seq::filter);
    if s.len() > 0 {
        let d = s.drop_last();
        assert(d.no_duplicates());
        lemma_filter_no_duplicates(d, p);
        if p(s.last()) {
            lemma_filter_subset(d, p, s.last());
            let f = d.filter(p).push(s.last());
            assert(!d.contains(s.last()));
            assert forall|i: int, j: int| 0 <= i < f.len() && 0 <= j < f.len() && i != j implies f[i]
                != f[j] by {
                if i == f.len() - 1 {
                    assert(d.filter(p).contains(f[j]));
                } else if j == f.len() - 1 {
                    assert(d.filter(p).contains(f[i]));
                }
            }
        }
    }
}

pub proof fn lemma_filter_all(s: Seq<Seq<u8>>, p: spec_fn(Seq<u8>) -> bool)
    requires
        forall|i: int| 0 <= i < s.len() ==> p(s[i]),
    ensures
        s.filter(p) == s,
    decreases s.len(),
{
    reveal(Seq::filter);
    if s.len() > 0 {
        lemma_filter_all(s.drop_last(), p);
        assert(s.drop_last().push(s.last()) =~= s);
    }
}

} // verus!
