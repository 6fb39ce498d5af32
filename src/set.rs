//! `ZetSet`: the lines seen so far, in order of first appearance, each with its
//! bookkeeping item.
//!
//! The lines are kept in an `indexmap::IndexSet`, whose index of a line is the
//! index of that line's item in `items`.
use indexmap::IndexSet;
use vstd::prelude::*;

use crate::bookkeeping::{Bookkeeping, Retainable};
use crate::lines::{line_end, lemma_lines_step, lines};
use crate::model::{
    all_lines, dedup, item_during, item_of, lemma_contains_add, lemma_contains_push, lemma_dedup,
    lemma_filter_no_duplicates, lemma_filter_subset, lemma_last_file_bound, lemma_next_operand,
    lemma_occurrences_absent, lemma_occurrences_push, lemma_seen, file_count, last_file,
    occurrences, report,
};

verus! {

#[verifier::external_type_specification]
#[verifier::external_body]
#[verifier::reject_recursive_types(T)]
#[verifier::reject_recursive_types(S)]
pub struct ExIndexSet<T, S>(IndexSet<T, S>);

/// The lines held by an `IndexSet`, in its order.
pub uninterp spec fn keys_of(set: IndexSet<Vec<u8>>) -> Seq<Seq<u8>>;

/// Relies on IndexSet::new: an empty set.
#[verifier::external_body]
fn empty_keys() -> (r: IndexSet<Vec<u8>>)
    ensures
        keys_of(r) == Seq::<Seq<u8>>::empty(),
{
    IndexSet::new()
}

/// Relies on IndexSet::get_index_of: the index of the line equal to `line`.
#[verifier::external_body]
fn index_of(set: &IndexSet<Vec<u8>>, line: &[u8]) -> (r: Option<usize>)
    ensures
        match r {
            Some(i) => i < keys_of(*set).len() && keys_of(*set)[i as int] == line@,
            None => !keys_of(*set).contains(line@),
        },
{
    set.get_index_of(line)
}

/// Relies on IndexSet::insert: a new line goes last; a present one changes nothing.
#[verifier::external_body]
fn insert_key(set: &mut IndexSet<Vec<u8>>, line: Vec<u8>) -> (r: bool)
    ensures
        r == !keys_of(*old(set)).contains(line@),
        r ==> keys_of(*final(set)) == keys_of(*old(set)).push(line@),
        !r ==> keys_of(*final(set)) == keys_of(*old(set)),
{
    set.insert(line)
}

/// Relies on IndexSet::pop: removes and returns the last line.
#[verifier::external_body]
fn pop_key(set: &mut IndexSet<Vec<u8>>) -> (r: Option<Vec<u8>>)
    ensures
        keys_of(*old(set)).len() == 0 ==> r is None && keys_of(*final(set)) == keys_of(*old(set)),
        keys_of(*old(set)).len() > 0 ==> r is Some && r->0@ == keys_of(*old(set)).last()
            && keys_of(*final(set)) == keys_of(*old(set)).drop_last(),
{
    set.pop()
}

/// Relies on IndexSet::get_index: the line at index `i`.
#[verifier::external_body]
fn key_at(set: &IndexSet<Vec<u8>>, i: usize) -> (r: Option<&Vec<u8>>)
    ensures
        i < keys_of(*set).len() ==> r is Some && r->0@ == keys_of(*set)[i as int],
        i >= keys_of(*set).len() ==> r is None,
{
    set.get_index(i)
}

fn append(out: &mut Vec<u8>, bytes: &[u8])
    ensures
        final(out)@ == old(out)@ + bytes@,
{
    let mut j: usize = 0;
    while j < bytes.len()
        invariant
            j <= bytes@.len(),
            out@ == old(out)@ + bytes@.take(j as int),
        decreases bytes@.len() - j,
    {
        out.push(bytes[j]);
        j = j + 1;
        assert(out@ =~= old(out)@ + bytes@.take(j as int));
    }
    assert(bytes@.take(j as int) =~= bytes@);
}

/// Which lines a retention sweep keeps, by their retention value.
#[derive(Clone, Copy, Debug, PartialEq, Eq, Structural)]
pub enum Keep {
    Equal(u32),
    Once,
    Several,
}

impl Keep {
    pub open spec fn holds(self, v: u32) -> bool {
        match self {
            Keep::Equal(n) => v == n,
            Keep::Once => v == 1,
            Keep::Several => v > 1,
        }
    }

    pub fn keeps(&self, v: u32) -> (r: bool)
        ensures
            r == self.holds(v),
    {
        match self {
            Keep::Equal(n) => v == *n,
            Keep::Once => v == 1,
            Keep::Several => v > 1,
        }
    }
}

/// The retention rule as a predicate on lines, once the operands `ops` are done.
pub open spec fn kept_by<B: Retainable>(rule: Keep, ops: Seq<Seq<u8>>) -> spec_fn(Seq<u8>) -> bool {
    |x: Seq<u8>| rule.holds(item_of::<B>(ops, x).retention())
}

/// The column of each line, once the operands `ops` are done.
pub open spec fn column_of<B: Bookkeeping>(ops: Seq<Seq<u8>>, width: nat) -> spec_fn(Seq<u8>) -> Seq<u8> {
    |x: Seq<u8>| item_of::<B>(ops, x).column(width)
}

pub struct ZetSet<B: Bookkeeping> {
    keys: IndexSet<Vec<u8>>,
    items: Vec<B>,
    seen: Ghost<Seq<Seq<u8>>>,
}

/// Reading one more line `y` of the current operand.
proof fn lemma_line_step<B: Retainable>(ops: Seq<Seq<u8>>, cur: Seq<Seq<u8>>, y: Seq<u8>, x: Seq<u8>)
    requires
        (all_lines(ops) + cur).contains(x),
        B::counts_files() ==> ops.len() <= u32::MAX,
    ensures
        (all_lines(ops) + cur.push(y)).contains(x),
        x == y ==> item_during::<B>(ops, cur, x).merged(B::at(1, 1, ops.len()))
            == item_during::<B>(ops, cur.push(y), x),
        x != y ==> item_during::<B>(ops, cur, x) == item_during::<B>(ops, cur.push(y), x),
{
    let a = all_lines(ops);
    assert((a + cur).push(y) =~= a + cur.push(y));
    lemma_occurrences_push(a + cur, y, x);
    lemma_contains_push(cur, y, x);
    lemma_contains_push(a + cur, y, x);
    lemma_contains_add(a, cur, x);
    if x == y {
        let n = occurrences(a + cur, x);
        let k = file_count(ops, x) + if cur.contains(x) {
            1nat
        } else {
            0nat
        };
        if cur.contains(x) {
            B::lemma_merge(n, k, ops.len(), ops.len());
        } else {
            assert(a.contains(x));
            assert(ops.len() > 0);
            lemma_last_file_bound(ops, x);
            B::lemma_merge(n, k, last_file(ops, x), ops.len());
        }
    }
}

/// A line `y` not seen before gets the template item.
proof fn lemma_line_new<B: Retainable>(ops: Seq<Seq<u8>>, cur: Seq<Seq<u8>>, y: Seq<u8>)
    requires
        !(all_lines(ops) + cur).contains(y),
    ensures
        B::at(1, 1, ops.len()) == item_during::<B>(ops, cur.push(y), y),
{
    let a = all_lines(ops);
    assert((a + cur).push(y) =~= a + cur.push(y));
    lemma_occurrences_push(a + cur, y, y);
    lemma_occurrences_absent(a + cur, y);
    lemma_contains_add(a, cur, y);
    lemma_seen(ops, y);
    lemma_contains_push(cur, y, y);
}

/// When the current operand is done, its lines join the operands seen.
proof fn lemma_operand_done<B: Retainable>(ops: Seq<Seq<u8>>, text: Seq<u8>, x: Seq<u8>)
    ensures
        all_lines(ops) + lines(text) == all_lines(ops.push(text)),
        item_during::<B>(ops, lines(text), x) == item_of::<B>(ops.push(text), x),
{
    lemma_next_operand(ops, text, x);
}

/// Before the current operand, nothing of it has been read.
proof fn lemma_operand_start<B: Retainable>(ops: Seq<Seq<u8>>, x: Seq<u8>)
    ensures
        all_lines(ops) + Seq::<Seq<u8>>::empty() == all_lines(ops),
        item_during::<B>(ops, Seq::empty(), x) == item_of::<B>(ops, x),
{
    assert(all_lines(ops) + Seq::<Seq<u8>>::empty() =~= all_lines(ops));
}

impl<B: Bookkeeping> ZetSet<B> {
    /// The lines held, in order.
    pub closed spec fn keys(&self) -> Seq<Seq<u8>> {
        keys_of(self.keys)
    }

    /// The operands read so far.
    pub closed spec fn seen(&self) -> Seq<Seq<u8>> {
        self.seen@
    }

    /// Each line held has been seen, once, and its item records what was seen of it.
    pub closed spec fn wf(&self) -> bool {
        &&& self.items@.len() == keys_of(self.keys).len()
        &&& keys_of(self.keys).no_duplicates()
        &&& forall|i: int|
            0 <= i < keys_of(self.keys).len() ==> all_lines(self.seen@).contains(
                #[trigger] keys_of(self.keys)[i],
            ) && self.items@[i] == item_of::<B>(self.seen@, keys_of(self.keys)[i])
    }

    /// The set of the lines of `first`, each with the item it records.
    pub(crate) fn new(first: &[u8], item: B) -> (r: Self)
        requires
            item == B::at(1, 1, 0),
        ensures
            r.wf(),
            r.seen() == seq![first@],
            r.keys() == dedup(all_lines(seq![first@])),
    {
        let mut set = ZetSet { keys: empty_keys(), items: Vec::new(), seen: Ghost(Seq::empty()) };
        assert(set.keys() =~= dedup(all_lines(set.seen())));
        set.absorb(first, item, true);
        assert(set.seen() =~= seq![first@]);
        set
    }

    /// Reads the lines of one more operand: a line already held has its item
    /// merged with `item`; a new one is added with `item` where `insert` is set.
    fn absorb(&mut self, text: &[u8], item: B, insert: bool)
        requires
            old(self).wf(),
            item == B::at(1, 1, old(self).seen().len()),
            B::counts_files() ==> old(self).seen().len() <= u32::MAX,
            insert ==> old(self).keys() == dedup(all_lines(old(self).seen())),
        ensures
            final(self).wf(),
            final(self).seen() == old(self).seen().push(text@),
            insert ==> final(self).keys() == dedup(all_lines(final(self).seen())),
            !insert ==> final(self).keys() == old(self).keys(),
    {
        let ghost ops = self.seen@;
        let ghost a = all_lines(ops);
        let ghost start = keys_of(self.keys);
        let ghost mut cur: Seq<Seq<u8>> = Seq::empty();
        proof {
            assert(text@.skip(0) =~= text@);
            assert forall|x: Seq<u8>| true implies item_during::<B>(ops, cur, x) == item_of::<B>(
                ops,
                x,
            ) by {
                lemma_operand_start::<B>(ops, x);
            }
            lemma_operand_start::<B>(ops, Seq::empty());
        }
        let mut begin: usize = 0;
        while begin < text.len()
            invariant
                begin <= text@.len(),
                self.seen@ == ops,
                a == all_lines(ops),
                B::counts_files() ==> ops.len() <= u32::MAX,
                item == B::at(1, 1, ops.len()),
                lines(text@) == cur + lines(text@.skip(begin as int)),
                self.items@.len() == keys_of(self.keys).len(),
                keys_of(self.keys).no_duplicates(),
                forall|i: int|
                    0 <= i < keys_of(self.keys).len() ==> (a + cur).contains(
                        #[trigger] keys_of(self.keys)[i],
                    ) && self.items@[i] == item_during::<B>(ops, cur, keys_of(self.keys)[i]),
                insert ==> keys_of(self.keys) == dedup(a + cur),
                !insert ==> keys_of(self.keys) == start,
            decreases text@.len() - begin,
        {
            let end = line_end(text, begin);
            let line = vstd::slice::slice_subrange(text, begin, end);
            proof {
                lemma_lines_step(text@, begin as int, end as int);
                assert(lines(text@) =~= cur.push(line@) + lines(text@.skip(end as int)));
                assert((a + cur).push(line@) =~= a + cur.push(line@));
                if insert {
                    lemma_dedup(a + cur);
                }
            }
            let ghost keys_before = keys_of(self.keys);
            let ghost items_before = self.items@;
            match index_of(&self.keys, line) {
                Some(i) => {
                    let mut v = self.items[i];
                    v.update_with(item);
                    self.items.set(i, v);
                    proof {
                        assert(dedup((a + cur).push(line@)) == dedup(a + cur)) by {
                            assert((a + cur).push(line@).drop_last() =~= a + cur);
                            assert(keys_before.contains(line@));
                        }
                    }
                },
                None => {
                    if insert {
                        let added = insert_key(&mut self.keys, vstd::slice::slice_to_vec(line));
                        self.items.push(item);
                        proof {
                            assert((a + cur).push(line@).drop_last() =~= a + cur);
                            lemma_line_new::<B>(ops, cur, line@);
                            lemma_contains_push(a + cur, line@, line@);
                            let k = keys_of(self.keys);
                            assert forall|p: int, q: int|
                                0 <= p < k.len() && 0 <= q < k.len() && p != q implies k[p]
                                != k[q] by {
                                if p == k.len() - 1 {
                                    assert(keys_before.contains(k[q]));
                                } else if q == k.len() - 1 {
                                    assert(keys_before.contains(k[p]));
                                }
                            }
                        }
                    }
                },
            }
            proof {
                let k = keys_of(self.keys);
                assert forall|i: int| 0 <= i < k.len() implies (a + cur.push(line@)).contains(
                    #[trigger] k[i],
                ) && self.items@[i] == item_during::<B>(ops, cur.push(line@), k[i]) by {
                    if i < keys_before.len() {
                        lemma_line_step::<B>(ops, cur, line@, k[i]);
                    }
                }
                cur = cur.push(line@);
            }
            begin = end;
        }
        proof {
            assert(text@.skip(begin as int) =~= Seq::<u8>::empty());
            assert(cur =~= lines(text@));
            self.seen = Ghost(ops.push(text@));
            let k = keys_of(self.keys);
            assert forall|i: int| 0 <= i < k.len() implies all_lines(self.seen@).contains(
                #[trigger] k[i],
            ) && self.items@[i] == item_of::<B>(self.seen@, k[i]) by {
                lemma_operand_done::<B>(ops, text@, k[i]);
            }
            lemma_operand_done::<B>(ops, text@, Seq::empty());
        }
    }

    /// Reads one more operand, adding the lines not held yet. The set must
    /// hold every line seen, as it does until a retention sweep: a line swept
    /// away and seen again would get an item blind to its earlier occurrences.
    pub(crate) fn insert_or_update(&mut self, text: &[u8], item: B)
        requires
            old(self).wf(),
            item == B::at(1, 1, old(self).seen().len()),
            B::counts_files() ==> old(self).seen().len() <= u32::MAX,
            old(self).keys() == dedup(all_lines(old(self).seen())),
        ensures
            final(self).wf(),
            final(self).seen() == old(self).seen().push(text@),
            final(self).keys() == dedup(all_lines(final(self).seen())),
    {
        self.absorb(text, item, true)
    }

    /// Reads one more operand, ignoring the lines not held.
    pub(crate) fn update_if_present(&mut self, text: &[u8], item: B)
        requires
            old(self).wf(),
            item == B::at(1, 1, old(self).seen().len()),
            B::counts_files() ==> old(self).seen().len() <= u32::MAX,
        ensures
            final(self).wf(),
            final(self).seen() == old(self).seen().push(text@),
            final(self).keys() == old(self).keys(),
    {
        self.absorb(text, item, false)
    }

    /// Keeps the lines whose retention value `rule` accepts, in their order.
    pub(crate) fn retain(&mut self, rule: Keep)
        requires
            old(self).wf(),
        ensures
            final(self).wf(),
            final(self).seen() == old(self).seen(),
            final(self).keys() == old(self).keys().filter(kept_by::<B>(rule, old(self).seen())),
    {
        let ghost orig = keys_of(self.keys);
        let ghost ops = self.seen@;
        let ghost p = kept_by::<B>(rule, ops);
        let ghost items0 = self.items@;
        let n = self.items.len();
        let mut stack: Vec<Vec<u8>> = Vec::new();
        let mut m: usize = n;
        while m > 0
            invariant
                m <= n,
                n == orig.len(),
                keys_of(self.keys) == orig.take(m as int),
                self.items@ == items0,
                self.seen@ == ops,
                stack@.len() == n - m,
                forall|t: int| 0 <= t < n - m ==> (#[trigger] stack@[t])@ == orig[n - 1 - t],
            decreases m,
        {
            let popped = pop_key(&mut self.keys);
            if let Some(k) = popped {
                stack.push(k);
            }
            m = m - 1;
            assert(orig.take(m + 1).drop_last() =~= orig.take(m as int));
        }
        assert(orig.take(0).filter(p) =~= Seq::<Seq<u8>>::empty()) by {
            reveal(Seq::filter);
        }
        let mut items: Vec<B> = Vec::new();
        let mut i: usize = 0;
        while i < n
            invariant
                i <= n,
                n == orig.len(),
                self.items@.len() == n,
                self.seen@ == ops,
                p == kept_by::<B>(rule, ops),
                orig.no_duplicates(),
                forall|t: int|
                    0 <= t < n ==> all_lines(ops).contains(#[trigger] orig[t]) && self.items@[t]
                        == item_of::<B>(ops, orig[t]),
                stack@.len() == n - i,
                forall|t: int| 0 <= t < n - i ==> (#[trigger] stack@[t])@ == orig[n - 1 - t],
                keys_of(self.keys) == orig.take(i as int).filter(p),
                items@.len() == keys_of(self.keys).len(),
                forall|t: int|
                    0 <= t < keys_of(self.keys).len() ==> all_lines(ops).contains(
                        #[trigger] keys_of(self.keys)[t],
                    ) && items@[t] == item_of::<B>(ops, keys_of(self.keys)[t]),
            decreases n - i,
        {
            let popped = stack.pop();
            let v = self.items[i];
            let ghost before = keys_of(self.keys);
            proof {
                reveal(Seq::filter);
                assert(orig.take(i + 1).drop_last() =~= orig.take(i as int));
                assert(orig.take(i + 1).last() == orig[i as int]);
                lemma_filter_subset(orig.take(i as int), p, orig[i as int]);
                assert(!orig.take(i as int).contains(orig[i as int]));
                lemma_filter_subset(orig.take(i as int), p, Seq::empty());
            }
            if let Some(k) = popped {
                if rule.keeps(v.retention_value()) {
                    insert_key(&mut self.keys, k);
                    items.push(v);
                }
            }
            proof {
                let k = keys_of(self.keys);
                assert forall|t: int| 0 <= t < k.len() implies all_lines(ops).contains(
                    #[trigger] k[t],
                ) && items@[t] == item_of::<B>(ops, k[t]) by {
                    if t < before.len() {
                        assert(before[t] == k[t]);
                    }
                }
            }
            i = i + 1;
        }
        proof {
            assert(orig.take(n as int) =~= orig);
            lemma_filter_no_duplicates(orig, p);
        }
        self.items = items;
    }

    /// Appends each line held, in order, preceded by its count column.
    pub(crate) fn output_to(&self, width: usize, out: &mut Vec<u8>)
        requires
            self.wf(),
        ensures
            final(out)@ == old(out)@ + report(self.keys(), column_of::<B>(self.seen(), width as nat)),
    {
        let ghost k = keys_of(self.keys);
        let ghost col = column_of::<B>(self.seen@, width as nat);
        let n = self.items.len();
        let mut i: usize = 0;
        proof {
            assert(k.take(0) =~= Seq::<Seq<u8>>::empty());
            assert(old(out)@ + report(k.take(0), col) =~= old(out)@);
        }
        while i < n
            invariant
                i <= n,
                self.wf(),
                n == k.len(),
                k == keys_of(self.keys),
                col == column_of::<B>(self.seen@, width as nat),
                out@ == old(out)@ + report(k.take(i as int), col),
            decreases n - i,
        {
            let v = self.items[i];
            v.write_count(width, out);
            if let Some(line) = key_at(&self.keys, i) {
                append(out, line.as_slice());
            }
            proof {
                assert(k.take(i + 1).drop_last() =~= k.take(i as int));
                assert(k.take(i + 1).last() == k[i as int]);
                assert(out@ =~= old(out)@ + report(k.take(i + 1), col));
            }
            i = i + 1;
        }
        assert(k.take(n as int) =~= k);
    }
}

} // verus!
