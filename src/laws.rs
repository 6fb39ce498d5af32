//! Properties of the operations, stated over `selection` and `expected_output`,
//! which `calculate` is proved to compute.
use vstd::prelude::*;

use crate::lines::{lemma_lines_append, lines, terminated};
use crate::bookkeeping::{count_column, number_column, saturated};
use crate::model::{
    all_lines, dedup, file_count, lemma_contains_add, lemma_dedup, lemma_filter_all,
    lemma_filter_ext, lemma_filter_subset, lemma_filter_twice, lemma_report_ext, occurrences,
    report,
};
use crate::operations::{
    expected_output, in_every_later, in_more_files, in_no_later, in_one_file, log_column,
    occurs_more, occurs_once, selection, LogType, OpName,
};

verus! {

/// The lines of the operands are those of the first followed by those of the rest.
proof fn lemma_all_lines_first(ops: Seq<Seq<u8>>)
    requires
        ops.len() >= 1,
    ensures
        all_lines(ops) == lines(ops[0]) + all_lines(ops.drop_first()),
    decreases ops.len(),
{
    if ops.len() == 1 {
        assert(ops.drop_last() =~= Seq::<Seq<u8>>::empty());
        assert(ops.drop_first() =~= Seq::<Seq<u8>>::empty());
        assert(all_lines(Seq::<Seq<u8>>::empty()) == Seq::<Seq<u8>>::empty());
        assert(Seq::<Seq<u8>>::empty() + lines(ops[0]) =~= lines(ops[0]));
        assert(lines(ops[0]) + Seq::<Seq<u8>>::empty() =~= lines(ops[0]));
    } else {
        let d = ops.drop_last();
        lemma_all_lines_first(d);
        assert(ops.drop_first().drop_last() =~= d.drop_first());
        assert(ops.drop_first().last() == ops.last());
        assert(d[0] == ops[0]);
        assert(all_lines(ops) =~= lines(ops[0]) + all_lines(ops.drop_first()));
    }
}

/// First occurrences in `a + b` begin with those in `a`; the rest are not in `a`.
proof fn lemma_dedup_prefix(a: Seq<Seq<u8>>, b: Seq<Seq<u8>>)
    ensures
        dedup(a).len() <= dedup(a + b).len(),
        dedup(a + b).take(dedup(a).len() as int) == dedup(a),
        forall|i: int|
            dedup(a).len() <= i < dedup(a + b).len() ==> !a.contains(#[trigger] dedup(a + b)[i]),
    decreases b.len(),
{
    if b.len() == 0 {
        assert(a + b =~= a);
        assert(dedup(a).take(dedup(a).len() as int) =~= dedup(a));
    } else {
        let b1 = b.drop_last();
        lemma_dedup_prefix(a, b1);
        assert((a + b).drop_last() =~= a + b1);
        assert((a + b).last() == b.last());
        lemma_contains_add(a, b1, b.last());
        if !(a + b1).contains(b.last()) {
            let d1 = dedup(a + b1);
            assert(dedup(a + b) == d1.push(b.last()));
            assert(d1.push(b.last()).take(dedup(a).len() as int) =~= d1.take(
                dedup(a).len() as int,
            ));
        }
    }
}

/// The lines of `a` once more add nothing to the first occurrences in `a`.
proof fn lemma_dedup_repeat(a: Seq<Seq<u8>>, b: Seq<Seq<u8>>)
    requires
        forall|i: int| 0 <= i < b.len() ==> a.contains(#[trigger] b[i]),
    ensures
        dedup(a + b) == dedup(a),
    decreases b.len(),
{
    if b.len() == 0 {
        assert(a + b =~= a);
    } else {
        let b1 = b.drop_last();
        lemma_dedup_repeat(a, b1);
        assert((a + b).drop_last() =~= a + b1);
        assert((a + b).last() == b.last());
        assert(a.contains(b[b.len() - 1]));
        lemma_contains_add(a, b1, b.last());
    }
}

/// Where every line of `s` that `p` keeps lies in `s`, filtering `s` by
/// membership in `s.filter(p)` is filtering by `p`.
proof fn lemma_filter_by_membership(s: Seq<Seq<u8>>, p: spec_fn(Seq<u8>) -> bool)
    ensures
        s.filter(|x: Seq<u8>| s.filter(p).contains(x)) == s.filter(p),
{
    let q = |x: Seq<u8>| s.filter(p).contains(x);
    assert forall|i: int| 0 <= i < s.len() implies q(s[i]) == p(s[i]) by {
        lemma_filter_subset(s, p, s[i]);
        if p(s[i]) {
            s.lemma_filter_contains(p, i);
        }
    }
    lemma_filter_ext(s, q, p);
}

/// Order preservation: what an operation outputs is the sequence of first
/// occurrences of all the input's lines, restricted to the lines it outputs.
pub proof fn lemma_order_preserved(op: OpName, ops: Seq<Seq<u8>>)
    requires
        ops.len() >= 1,
    ensures
        selection(op, ops) == dedup(all_lines(ops)).filter(
            |x: Seq<u8>| selection(op, ops).contains(x),
        ),
{
    let d = dedup(all_lines(ops));
    let sel = selection(op, ops);
    let q = |x: Seq<u8>| sel.contains(x);
    match op {
        OpName::Union => {
            assert forall|i: int| 0 <= i < d.len() implies q(d[i]) by {
                assert(d.contains(d[i]));
            }
            lemma_filter_all(d, q);
        },
        OpName::Intersect | OpName::Diff => {
            let p = if op == OpName::Intersect {
                in_every_later(ops)
            } else {
                in_no_later(ops)
            };
            let l0 = lines(ops[0]);
            let d0 = dedup(l0);
            lemma_all_lines_first(ops);
            let rest = all_lines(ops.drop_first());
            lemma_dedup_prefix(l0, rest);
            lemma_dedup(l0);
            let c = d.skip(d0.len() as int);
            assert(d =~= d0 + c);
            Seq::filter_distributes_over_add(d0, c, q);
            assert forall|i: int| 0 <= i < c.len() implies !q(#[trigger] c[i]) by {
                assert(c[i] == d[d0.len() + i]);
                lemma_filter_subset(d0, p, c[i]);
            }
            c.lemma_all_neg_filter_empty(q);
            assert(c.filter(q) =~= Seq::<Seq<u8>>::empty());
            lemma_filter_by_membership(d0, p);
            assert(d0.filter(q) + c.filter(q) =~= d0.filter(q));
        },
        _ => {
            let p = match op {
                OpName::Single => occurs_once(ops),
                OpName::Multiple => occurs_more(ops),
                OpName::SingleByFile => in_one_file(ops),
                _ => in_more_files(ops),
            };
            lemma_filter_by_membership(d, p);
        },
    }
}

/// With one operand, Union, Intersect, Diff and SingleByFile output its lines
/// once each; Single those that occur once in it, Multiple those that occur
/// more than once, and MultipleByFile nothing.
pub proof fn lemma_single_operand(op: OpName, f: Seq<u8>)
    ensures
        selection(op, seq![f]) == match op {
            OpName::Single => dedup(lines(f)).filter(|x: Seq<u8>| occurrences(lines(f), x) == 1),
            OpName::Multiple => dedup(lines(f)).filter(|x: Seq<u8>| occurrences(lines(f), x) > 1),
            OpName::MultipleByFile => Seq::empty(),
            _ => dedup(lines(f)),
        },
{
    let ops = seq![f];
    lemma_all_lines_first(ops);
    assert(ops.drop_first() =~= Seq::<Seq<u8>>::empty());
    assert(all_lines(Seq::<Seq<u8>>::empty()) == Seq::<Seq<u8>>::empty());
    assert(all_lines(ops) =~= lines(f));
    assert(ops[0] == f);
    let d = dedup(lines(f));
    lemma_dedup(lines(f));
    assert(ops.drop_last() =~= Seq::<Seq<u8>>::empty());
    assert forall|x: Seq<u8>| #[trigger] lines(f).contains(x) implies file_count(ops, x) == 1 by {
        assert(file_count(Seq::<Seq<u8>>::empty(), x) == 0);
    }
    assert forall|i: int| 0 <= i < d.len() implies lines(f).contains(#[trigger] d[i]) by {
        assert(d.contains(d[i]));
    }
    match op {
        OpName::Intersect => {
            lemma_filter_all(d, in_every_later(ops));
        },
        OpName::Diff => {
            lemma_filter_all(d, in_no_later(ops));
        },
        OpName::Single => {
            lemma_filter_ext(d, occurs_once(ops), |x: Seq<u8>| occurrences(lines(f), x) == 1);
        },
        OpName::Multiple => {
            lemma_filter_ext(d, occurs_more(ops), |x: Seq<u8>| occurrences(lines(f), x) > 1);
        },
        OpName::SingleByFile => {
            lemma_filter_all(d, in_one_file(ops));
        },
        OpName::MultipleByFile => {
            d.lemma_all_neg_filter_empty(in_more_files(ops));
            assert(d.filter(in_more_files(ops)) =~= Seq::<Seq<u8>>::empty());
        },
        OpName::Union => {},
    }
}

/// The union of an operand with itself is its union alone: its lines, once each.
pub proof fn lemma_union_idempotent(x: Seq<u8>)
    ensures
        selection(OpName::Union, seq![x, x]) == selection(OpName::Union, seq![x]),
        selection(OpName::Union, seq![x]) == dedup(lines(x)),
{
    lemma_single_operand(OpName::Union, x);
    let ops = seq![x, x];
    lemma_all_lines_first(ops);
    assert(ops.drop_first() =~= seq![x]);
    lemma_all_lines_first(seq![x]);
    assert(seq![x].drop_first() =~= Seq::<Seq<u8>>::empty());
    assert(all_lines(Seq::<Seq<u8>>::empty()) == Seq::<Seq<u8>>::empty());
    assert(all_lines(seq![x]) =~= lines(x));
    assert(seq![x][0] == x);
    lemma_dedup_repeat(lines(x), lines(x));
}

/// One more operand `t` only removes lines from Intersect (those `t` lacks)
/// and from Diff (those `t` holds), keeping the order of the rest.
pub proof fn lemma_more_operands_never_grow(ops: Seq<Seq<u8>>, t: Seq<u8>)
    requires
        ops.len() >= 1,
    ensures
        selection(OpName::Intersect, ops.push(t)) == selection(OpName::Intersect, ops).filter(
            |x: Seq<u8>| lines(t).contains(x),
        ),
        selection(OpName::Diff, ops.push(t)) == selection(OpName::Diff, ops).filter(
            |x: Seq<u8>| !lines(t).contains(x),
        ),
        selection(OpName::Intersect, ops.push(t)).len() <= selection(OpName::Intersect, ops).len(),
        selection(OpName::Diff, ops.push(t)).len() <= selection(OpName::Diff, ops).len(),
{
    let next = ops.push(t);
    let d = dedup(lines(ops[0]));
    assert(next[0] == ops[0]);
    let has = |x: Seq<u8>| lines(t).contains(x);
    let lacks = |x: Seq<u8>| !lines(t).contains(x);
    assert forall|s: int| 0 <= s < ops.len() implies #[trigger] next[s] == ops[s] by {}
    assert(next[ops.len() as int] == t);
    lemma_filter_twice(d, in_every_later(ops), has);
    assert forall|i: int| 0 <= i < d.len() implies (in_every_later(ops)(d[i]) && has(d[i]))
        == in_every_later(next)(d[i]) by {
        let x = d[i];
        if in_every_later(next)(x) {
            assert(lines(next[ops.len() as int]).contains(x));
            assert forall|s: int| 1 <= s < ops.len() implies #[trigger] lines(ops[s]).contains(
                x,
            ) by {
                assert(lines(next[s]).contains(x));
            }
        }
        if in_every_later(ops)(x) && has(x) {
            assert forall|s: int| 1 <= s < next.len() implies #[trigger] lines(next[s]).contains(
                x,
            ) by {
                if s < ops.len() {
                    assert(lines(ops[s]).contains(x));
                }
            }
        }
    }
    lemma_filter_ext(d, |x: Seq<u8>| in_every_later(ops)(x) && has(x), in_every_later(next));
    lemma_filter_twice(d, in_no_later(ops), lacks);
    assert forall|i: int| 0 <= i < d.len() implies (in_no_later(ops)(d[i]) && lacks(d[i]))
        == in_no_later(next)(d[i]) by {
        let x = d[i];
        if in_no_later(next)(x) {
            assert(!lines(next[ops.len() as int]).contains(x));
            assert forall|s: int| 1 <= s < ops.len() implies !#[trigger] lines(ops[s]).contains(
                x,
            ) by {
                assert(!lines(next[s]).contains(x));
            }
        }
        if in_no_later(ops)(x) && lacks(x) {
            assert forall|s: int| 1 <= s < next.len() implies !#[trigger] lines(
                next[s],
            ).contains(x) by {
                if s < ops.len() {
                    assert(!lines(ops[s]).contains(x));
                }
            }
        }
    }
    lemma_filter_ext(d, |x: Seq<u8>| in_no_later(ops)(x) && lacks(x), in_no_later(next));
    selection(OpName::Intersect, ops).lemma_filter_len(has);
    selection(OpName::Diff, ops).lemma_filter_len(lacks);
}

/// An empty first operand contributes no line and is in no count.
proof fn lemma_empty_first(ops: Seq<Seq<u8>>, x: Seq<u8>)
    requires
        ops.len() >= 1,
        ops[0] == Seq::<u8>::empty(),
    ensures
        all_lines(ops) == all_lines(ops.drop_first()),
        file_count(ops, x) == file_count(ops.drop_first(), x),
    decreases ops.len(),
{
    lemma_all_lines_first(ops);
    assert(lines(ops[0]) == Seq::<Seq<u8>>::empty());
    assert(all_lines(ops) =~= all_lines(ops.drop_first()));
    if ops.len() == 1 {
        assert(ops.drop_last() =~= Seq::<Seq<u8>>::empty());
        assert(ops.drop_first() =~= Seq::<Seq<u8>>::empty());
        assert(file_count(Seq::<Seq<u8>>::empty(), x) == 0);
    } else {
        let d = ops.drop_last();
        lemma_empty_first(d, x);
        assert(ops.drop_first().drop_last() =~= d.drop_first());
        assert(ops.drop_first().last() == ops.last());
    }
}

/// With an empty first operand, Intersect and Diff output nothing, and Union
/// and the counting operations output what the later operands alone give.
pub proof fn lemma_empty_first_operand(op: OpName, log: LogType, ops: Seq<Seq<u8>>, width: nat)
    requires
        ops.len() >= 2,
        ops[0] == Seq::<u8>::empty(),
    ensures
        op == OpName::Intersect || op == OpName::Diff ==> expected_output(op, log, ops, width)
            == Seq::<u8>::empty(),
        op != OpName::Intersect && op != OpName::Diff ==> expected_output(op, log, ops, width)
            == expected_output(op, log, ops.drop_first(), width),
{
    let rest = ops.drop_first();
    assert(lines(ops[0]) == Seq::<Seq<u8>>::empty());
    assert(dedup(Seq::<Seq<u8>>::empty()) == Seq::<Seq<u8>>::empty());
    if op == OpName::Intersect || op == OpName::Diff {
        let p = if op == OpName::Intersect {
            in_every_later(ops)
        } else {
            in_no_later(ops)
        };
        Seq::<Seq<u8>>::empty().lemma_filter_len(p);
    } else {
        lemma_empty_first(ops, Seq::empty());
        assert forall|x: Seq<u8>| #[trigger] file_count(ops, x) == file_count(rest, x) by {
            lemma_empty_first(ops, x);
        }
        let d = dedup(all_lines(ops));
        let (p, q) = match op {
            OpName::Single => (occurs_once(ops), occurs_once(rest)),
            OpName::Multiple => (occurs_more(ops), occurs_more(rest)),
            OpName::SingleByFile => (in_one_file(ops), in_one_file(rest)),
            _ => (in_more_files(ops), in_more_files(rest)),
        };
        lemma_filter_ext(d, p, q);
        let sel = selection(op, ops);
        assert(sel == selection(op, rest));
        lemma_report_ext(sel, log_column(log, ops, width), log_column(log, rest, width));
    }
}

/// The bytes of `ops`, one after another.
pub open spec fn concatenation(ops: Seq<Seq<u8>>) -> Seq<u8>
    decreases ops.len(),
{
    if ops.len() == 0 {
        Seq::empty()
    } else {
        concatenation(ops.drop_last()) + ops.last()
    }
}

proof fn lemma_concatenation_terminated(ops: Seq<Seq<u8>>)
    requires
        forall|i: int| 0 <= i < ops.len() ==> terminated(#[trigger] ops[i]),
    ensures
        terminated(concatenation(ops)),
    decreases ops.len(),
{
    if ops.len() > 0 {
        let d = ops.drop_last();
        assert forall|i: int| 0 <= i < d.len() implies terminated(#[trigger] d[i]) by {
            assert(d[i] == ops[i]);
        }
        lemma_concatenation_terminated(d);
        assert(terminated(ops[ops.len() - 1]));
        let c = concatenation(ops);
        if ops.last().len() > 0 {
            assert(c.last() == ops.last().last());
        } else {
            assert(c =~= concatenation(d));
        }
    }
}

/// Where the later operands are terminated, the lines of all operands are
/// those of the first followed by those of the later ones' concatenation.
proof fn lemma_all_lines_concatenation(first: Seq<u8>, rest: Seq<Seq<u8>>)
    requires
        forall|i: int| 0 <= i < rest.len() ==> terminated(#[trigger] rest[i]),
    ensures
        all_lines(seq![first] + rest) == lines(first) + lines(concatenation(rest)),
    decreases rest.len(),
{
    let ops = seq![first] + rest;
    if rest.len() == 0 {
        assert(ops =~= seq![first]);
        lemma_all_lines_first(ops);
        assert(ops.drop_first() =~= Seq::<Seq<u8>>::empty());
        assert(all_lines(Seq::<Seq<u8>>::empty()) == Seq::<Seq<u8>>::empty());
        assert(lines(Seq::<u8>::empty()) == Seq::<Seq<u8>>::empty());
        assert(lines(first) + Seq::<Seq<u8>>::empty() =~= lines(first));
    } else {
        let d = rest.drop_last();
        assert forall|i: int| 0 <= i < d.len() implies terminated(#[trigger] d[i]) by {
            assert(d[i] == rest[i]);
        }
        lemma_all_lines_concatenation(first, d);
        lemma_concatenation_terminated(d);
        lemma_lines_append(concatenation(d), rest.last());
        assert(ops.drop_last() =~= seq![first] + d);
        assert(ops.last() == rest.last());
        assert(all_lines(ops) =~= lines(first) + lines(concatenation(rest)));
    }
}

/// Union, Single and Multiple, without counts or with line counts, depend on
/// the later operands only through their concatenation, where each later
/// operand is empty or ends with a newline.
pub proof fn lemma_depends_on_concatenation(
    op: OpName,
    log: LogType,
    first: Seq<u8>,
    rest1: Seq<Seq<u8>>,
    rest2: Seq<Seq<u8>>,
    width: nat,
)
    requires
        op == OpName::Union || op == OpName::Single || op == OpName::Multiple,
        log == LogType::Neither || log == LogType::Lines,
        forall|i: int| 0 <= i < rest1.len() ==> terminated(#[trigger] rest1[i]),
        forall|i: int| 0 <= i < rest2.len() ==> terminated(#[trigger] rest2[i]),
        concatenation(rest1) == concatenation(rest2),
    ensures
        expected_output(op, log, seq![first] + rest1, width) == expected_output(
            op,
            log,
            seq![first] + rest2,
            width,
        ),
{
    let ops1 = seq![first] + rest1;
    let ops2 = seq![first] + rest2;
    lemma_all_lines_concatenation(first, rest1);
    lemma_all_lines_concatenation(first, rest2);
    let d = dedup(all_lines(ops1));
    lemma_filter_ext(d, occurs_once(ops1), occurs_once(ops2));
    lemma_filter_ext(d, occurs_more(ops1), occurs_more(ops2));
    let sel = selection(op, ops1);
    assert(sel == selection(op, ops2));
    lemma_report_ext(sel, log_column(log, ops1, width), log_column(log, ops2, width));
}

/// Count fidelity: with line counts each output line is preceded by its number
/// of occurrences in all operands (`overflow` from `u32::MAX` on); with file
/// counts, by the number of operands that hold it.
pub proof fn lemma_count_fidelity(op: OpName, ops: Seq<Seq<u8>>, width: nat)
    ensures
        expected_output(op, LogType::Lines, ops, width) == report(
            selection(op, ops),
            |x: Seq<u8>| count_column(saturated(occurrences(all_lines(ops), x)), width),
        ),
        expected_output(op, LogType::Files, ops, width) == report(
            selection(op, ops),
            |x: Seq<u8>| number_column(saturated(file_count(ops, x)) as nat, width),
        ),
{
    let sel = selection(op, ops);
    lemma_report_ext(
        sel,
        log_column(LogType::Lines, ops, width),
        |x: Seq<u8>| count_column(saturated(occurrences(all_lines(ops), x)), width),
    );
    lemma_report_ext(
        sel,
        log_column(LogType::Files, ops, width),
        |x: Seq<u8>| number_column(saturated(file_count(ops, x)) as nat, width),
    );
}

} // verus!
