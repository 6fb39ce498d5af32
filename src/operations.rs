//! The operations, and `calculate`, which picks the bookkeeping for each.
use vstd::prelude::*;

use crate::bookkeeping::{
    count_column, number_column, saturated, Bookkeeping, Dual, FileCount, LastFileSeen, LineCount,
    Noop, Retainable, TooManyFiles, Unlogged,
};
use crate::lines::lines;
use crate::model::{
    all_lines, dedup, file_count, last_file, lemma_filter_ext,
    lemma_filter_all, lemma_filter_subset, lemma_filter_twice, lemma_last_file_bound, lemma_next_operand,
    item_of, lemma_occurrences_absent, lemma_occurrences_add, lemma_report_ext, lemma_seen, occurrences,
    report,
};
use crate::set::{column_of, kept_by, Keep, ZetSet};

verus! {

/// The set operations.
#[derive(Clone, Copy, Debug, PartialEq, Eq, Structural)]
pub enum OpName {
    Union,
    Intersect,
    Diff,
    Single,
    Multiple,
    SingleByFile,
    MultipleByFile,
}

/// What is reported beside each line: how often it occurs, in how many
/// operands, or nothing.
#[derive(Clone, Copy, Debug, PartialEq, Eq, Structural)]
pub enum LogType {
    Lines,
    Files,
    Neither,
}

/// The first operand followed by the later ones.
pub open spec fn operands(first: Seq<u8>, rest: Seq<Vec<u8>>) -> Seq<Seq<u8>> {
    seq![first] + rest.map_values(|v: Vec<u8>| v@)
}

/// Lines that occur in every operand after the first.
pub open spec fn in_every_later(ops: Seq<Seq<u8>>) -> spec_fn(Seq<u8>) -> bool {
    |x: Seq<u8>| forall|i: int| 1 <= i < ops.len() ==> #[trigger] lines(ops[i]).contains(x)
}

/// Lines that occur in no operand after the first.
pub open spec fn in_no_later(ops: Seq<Seq<u8>>) -> spec_fn(Seq<u8>) -> bool {
    |x: Seq<u8>| forall|i: int| 1 <= i < ops.len() ==> !#[trigger] lines(ops[i]).contains(x)
}

/// Lines that occur once in all the input.
pub open spec fn occurs_once(ops: Seq<Seq<u8>>) -> spec_fn(Seq<u8>) -> bool {
    |x: Seq<u8>| occurrences(all_lines(ops), x) == 1
}

/// Lines that occur more than once in all the input.
pub open spec fn occurs_more(ops: Seq<Seq<u8>>) -> spec_fn(Seq<u8>) -> bool {
    |x: Seq<u8>| occurrences(all_lines(ops), x) > 1
}

/// Lines that occur in exactly one operand.
pub open spec fn in_one_file(ops: Seq<Seq<u8>>) -> spec_fn(Seq<u8>) -> bool {
    |x: Seq<u8>| file_count(ops, x) == 1
}

/// Lines that occur in more than one operand.
pub open spec fn in_more_files(ops: Seq<Seq<u8>>) -> spec_fn(Seq<u8>) -> bool {
    |x: Seq<u8>| file_count(ops, x) > 1
}

/// The lines that `op` outputs, in order.
pub open spec fn selection(op: OpName, ops: Seq<Seq<u8>>) -> Seq<Seq<u8>> {
    let all = dedup(all_lines(ops));
    match op {
        OpName::Union => all,
        OpName::Intersect => dedup(lines(ops[0])).filter(in_every_later(ops)),
        OpName::Diff => dedup(lines(ops[0])).filter(in_no_later(ops)),
        OpName::Single => all.filter(occurs_once(ops)),
        OpName::Multiple => all.filter(occurs_more(ops)),
        OpName::SingleByFile => all.filter(in_one_file(ops)),
        OpName::MultipleByFile => all.filter(in_more_files(ops)),
    }
}

/// The count column written before each line.
pub open spec fn log_column(log: LogType, ops: Seq<Seq<u8>>, width: nat) -> spec_fn(
    Seq<u8>,
) -> Seq<u8> {
    |x: Seq<u8>|
        match log {
            LogType::Neither => Seq::empty(),
            LogType::Lines => count_column(saturated(occurrences(all_lines(ops), x)), width),
            LogType::Files => number_column(saturated(file_count(ops, x)) as nat, width),
        }
}

/// The output of `op` on the operands `ops`.
pub open spec fn expected_output(op: OpName, log: LogType, ops: Seq<Seq<u8>>, width: nat) -> Seq<
    u8,
> {
    report(selection(op, ops), log_column(log, ops, width))
}

/// Whether the operation numbers the operands, and so fails past `u32::MAX` later ones.
pub open spec fn numbers_files(op: OpName, log: LogType) -> bool {
    match op {
        OpName::Union | OpName::Multiple => log == LogType::Files,
        OpName::Single => false,
        _ => true,
    }
}

/// Whether the operation numbers the operands whatever is reported.
pub open spec fn op_numbers_files(op: OpName) -> bool {
    match op {
        OpName::Union | OpName::Single | OpName::Multiple => false,
        _ => true,
    }
}

proof fn lemma_operands_step(first: Seq<u8>, rest: Seq<Vec<u8>>, j: int)
    requires
        0 <= j < rest.len(),
    ensures
        operands(first, rest.take(j)).push(rest[j]@) == operands(first, rest.take(j + 1)),
        operands(first, rest.take(j)).len() == j + 1,
{
    assert(operands(first, rest.take(j)).push(rest[j]@) =~= operands(first, rest.take(j + 1)));
}

proof fn lemma_operands_start(first: Seq<u8>, rest: Seq<Vec<u8>>)
    ensures
        operands(first, rest.take(0)) == seq![first],
        all_lines(seq![first]) == lines(first),
{
    assert(rest.take(0).map_values(|v: Vec<u8>| v@) =~= Seq::<Seq<u8>>::empty());
    assert(operands(first, rest.take(0)) =~= seq![first]);
    assert(seq![first].drop_last() =~= Seq::<Seq<u8>>::empty());
    assert(seq![first].last() == first);
    assert(all_lines(Seq::<Seq<u8>>::empty()) == Seq::<Seq<u8>>::empty());
    assert(all_lines(seq![first]) == all_lines(Seq::<Seq<u8>>::empty()) + lines(first));
    assert(Seq::<Seq<u8>>::empty() + lines(first) =~= lines(first));
}

/// A line of the first operand keeps the number 0 of the last file that held it
/// exactly when no later operand holds it.
proof fn lemma_last_file_zero(ops: Seq<Seq<u8>>, x: Seq<u8>)
    requires
        ops.len() >= 1,
    ensures
        last_file(ops, x) == 0 <==> in_no_later(ops)(x),
    decreases ops.len(),
{
    if ops.len() == 1 {
        assert(last_file(ops.drop_last(), x) == 0);
    } else {
        let d = ops.drop_last();
        lemma_last_file_zero(d, x);
        assert forall|i: int| 1 <= i < d.len() implies #[trigger] lines(d[i]) == lines(ops[i]) by {
            assert(d[i] == ops[i]);
        }
        if !lines(ops.last()).contains(x) {
            if in_no_later(d)(x) {
                assert forall|i: int| 1 <= i < ops.len() implies !#[trigger] lines(
                    ops[i],
                ).contains(x) by {
                    if i < d.len() {
                        assert(lines(d[i]) == lines(ops[i]));
                    }
                }
            }
        } else {
            assert(lines(ops[ops.len() - 1]).contains(x));
        }
    }
}

proof fn lemma_file_count_le(ops: Seq<Seq<u8>>, x: Seq<u8>)
    ensures
        file_count(ops, x) <= occurrences(all_lines(ops), x),
    decreases ops.len(),
{
    if ops.len() > 0 {
        let d = ops.drop_last();
        lemma_file_count_le(d, x);
        lemma_occurrences_add(all_lines(d), lines(ops.last()), x);
        lemma_occurrences_absent(lines(ops.last()), x);
    }
}

/// The output of a counting run is that of the counting operation whose selection
/// agrees with the retention rule, in the columns `col`.
proof fn lemma_count_output<B: Bookkeeping>(
    ops: Seq<Seq<u8>>,
    keep: Keep,
    p: spec_fn(Seq<u8>) -> bool,
    width: nat,
    col: spec_fn(Seq<u8>) -> Seq<u8>,
)
    requires
        forall|x: Seq<u8>| #[trigger] p(x) == kept_by::<B>(keep, ops)(x),
        forall|x: Seq<u8>|
            all_lines(ops).contains(x) && #[trigger] p(x) ==> column_of::<B>(ops, width)(x) == col(
                x,
            ),
    ensures
        report(dedup(all_lines(ops)).filter(kept_by::<B>(keep, ops)), column_of::<B>(ops, width))
            == report(dedup(all_lines(ops)).filter(p), col),
{
    let d = dedup(all_lines(ops));
    lemma_filter_ext(d, kept_by::<B>(keep, ops), p);
    let s = d.filter(p);
    assert forall|i: int| 0 <= i < s.len() implies column_of::<B>(ops, width)(s[i]) == col(
        s[i],
    ) by {
        assert(s.contains(s[i]));
        lemma_filter_subset(d, p, s[i]);
        crate::model::lemma_dedup(all_lines(ops));
    }
    lemma_report_ext(s, column_of::<B>(ops, width), col);
}


/// How a run selects its lines.
#[derive(Clone, Copy, Debug, PartialEq, Eq, Structural)]
pub enum Kind {
    /// Every line.
    All,
    /// The lines whose retention value the rule accepts.
    Counted(Keep),
    /// The lines of the first operand that no later one holds.
    Diff,
    /// The lines of the first operand that every later one holds.
    Intersect,
}

/// The kind of run that computes `op`.
pub open spec fn kind_of(op: OpName) -> Kind {
    match op {
        OpName::Union => Kind::All,
        OpName::Diff => Kind::Diff,
        OpName::Intersect => Kind::Intersect,
        OpName::Single | OpName::SingleByFile => Kind::Counted(Keep::Once),
        OpName::Multiple | OpName::MultipleByFile => Kind::Counted(Keep::Several),
    }
}

/// What a counting operation selects by.
pub open spec fn selects(op: OpName, ops: Seq<Seq<u8>>) -> spec_fn(Seq<u8>) -> bool {
    match op {
        OpName::Single => occurs_once(ops),
        OpName::Multiple => occurs_more(ops),
        OpName::SingleByFile => in_one_file(ops),
        _ => in_more_files(ops),
    }
}

/// Whether the retention value of `B` is the number of the last file that held the line.
pub open spec fn retention_is_last<B: Retainable>() -> bool {
    forall|n: nat, k: nat, l: nat|
        l <= u32::MAX ==> (#[trigger] B::at(n, k, l)).retention() == l as u32
}

/// The lines a run of kind `kind` outputs once the operands `ops` are done.
pub open spec fn outcome<B: Retainable>(kind: Kind, ops: Seq<Seq<u8>>) -> Seq<Seq<u8>> {
    match kind {
        Kind::All => dedup(all_lines(ops)),
        Kind::Counted(keep) => dedup(all_lines(ops)).filter(kept_by::<B>(keep, ops)),
        Kind::Diff => selection(OpName::Diff, ops),
        Kind::Intersect => selection(OpName::Intersect, ops),
    }
}

/// One operation in progress, with bookkeeping items of type `B`: the operands
/// are read one at a time, and each may be dropped once it has been read.
pub struct Run<B: Bookkeeping> {
    set: ZetSet<B>,
    item: B,
    kind: Kind,
}

impl<B: Bookkeeping> Run<B> {
    /// The operands read so far, the first operand first.
    pub closed spec fn seen(&self) -> Seq<Seq<u8>> {
        self.set.seen()
    }

    pub closed spec fn kind(&self) -> Kind {
        self.kind
    }

    pub closed spec fn inv(&self) -> bool {
        let ops = self.set.seen();
        &&& self.set.wf()
        &&& ops.len() >= 1
        &&& self.item == B::at(1, 1, (ops.len() - 1) as nat)
        &&& B::counts_files() ==> ops.len() - 1 <= u32::MAX
        &&& match self.kind {
            Kind::All | Kind::Counted(_) => self.set.keys() == dedup(all_lines(ops)),
            Kind::Diff => self.set.keys() == dedup(lines(ops[0])) && retention_is_last::<B>()
                && B::counts_files(),
            Kind::Intersect => self.set.keys() == dedup(lines(ops[0])).filter(
                in_every_later(ops),
            ) && retention_is_last::<B>() && B::counts_files(),
        }
    }

    /// Starts a run on the first operand.
    pub fn new(first: &[u8], kind: Kind) -> (r: Self)
        requires
            kind is Diff || kind is Intersect ==> retention_is_last::<B>() && B::counts_files(),
        ensures
            r.inv(),
            r.seen() == seq![first@],
            r.kind() == kind,
    {
        let item = B::new();
        let set = ZetSet::new(first, item);
        proof {
            lemma_operands_start(first@, Seq::<Vec<u8>>::empty());
            assert(seq![first@][0] == first@);
            lemma_filter_all(dedup(lines(first@)), in_every_later(seq![first@]));
        }
        Run { set, item, kind }
    }

    /// Reads one more operand; fails, changing nothing, where the operands
    /// would number more than `u32::MAX` after the first.
    pub fn step(&mut self, text: &[u8]) -> (r: Result<(), TooManyFiles>)
        requires
            old(self).inv(),
        ensures
            r is Err <==> B::counts_files() && old(self).seen().len() - 1 == u32::MAX,
            r is Err ==> *final(self) == *old(self),
            r is Ok ==> final(self).inv() && final(self).seen() == old(self).seen().push(text@),
            final(self).kind() == old(self).kind(),
    {
        let ghost ops = self.set.seen();
        let ghost j = (ops.len() - 1) as nat;
        let mut next = self.item;
        proof {
            B::lemma_advance(j);
        }
        match next.next_file() {
            Ok(()) => {},
            Err(e) => {
                return Err(e);
            },
        }
        self.item = next;
        match self.kind {
            Kind::All | Kind::Counted(_) => {
                self.set.insert_or_update(text, next);
            },
            Kind::Diff => {
                self.set.update_if_present(text, next);
            },
            Kind::Intersect => {
                let this_file = next.retention_value();
                let ghost d = dedup(lines(ops[0]));
                self.set.update_if_present(text, next);
                let ghost nxt = self.set.seen();
                self.set.retain(Keep::Equal(this_file));
                proof {
                    assert(this_file == (j + 1) as u32);
                    let p = in_every_later(ops);
                    let q = kept_by::<B>(Keep::Equal(this_file), nxt);
                    lemma_filter_twice(d, p, q);
                    let pq = |x: Seq<u8>| p(x) && q(x);
                    assert(nxt == ops.push(text@));
                    assert(nxt[0] == ops[0]);
                    assert forall|i: int| 0 <= i < d.len() implies pq(d[i]) == in_every_later(nxt)(
                        d[i],
                    ) by {
                        let x = d[i];
                        lemma_next_operand(ops, text@, x);
                        lemma_last_file_bound(ops, x);
                        lemma_last_file_bound(nxt, x);
                        assert(item_of::<B>(nxt, x).retention() == last_file(nxt, x) as u32);
                        assert forall|t: int| 1 <= t < ops.len() implies #[trigger] lines(nxt[t])
                            == lines(ops[t]) by {
                            assert(nxt[t] == ops[t]);
                        }
                        if in_every_later(nxt)(x) {
                            assert(lines(nxt[ops.len() as int]).contains(x));
                            assert forall|t: int| 1 <= t < ops.len() implies #[trigger] lines(
                                ops[t],
                            ).contains(x) by {
                                assert(lines(nxt[t]).contains(x));
                            }
                        }
                        if pq(x) {
                            assert forall|t: int| 1 <= t < nxt.len() implies #[trigger] lines(
                                nxt[t],
                            ).contains(x) by {
                                if t < ops.len() {
                                    assert(lines(ops[t]).contains(x));
                                }
                            }
                        }
                    }
                    lemma_filter_ext(d, pq, in_every_later(nxt));
                }
            },
        }
        proof {
            assert(self.set.seen()[0] == ops[0]);
        }
        Ok(())
    }

    /// Ends the run: the lines selected, in order, each after its count column.
    pub fn finish(self, width: usize) -> (r: Vec<u8>)
        requires
            self.inv(),
        ensures
            r@ == report(outcome::<B>(self.kind(), self.seen()), column_of::<B>(
                self.seen(),
                width as nat,
            )),
    {
        let ghost ops = self.set.seen();
        let mut set = self.set;
        match self.kind {
            Kind::Counted(keep) => {
                set.retain(keep);
            },
            Kind::Diff => {
                let ghost keys = set.keys();
                set.retain(Keep::Equal(0));
                proof {
                    let p = kept_by::<B>(Keep::Equal(0), ops);
                    assert forall|i: int| 0 <= i < keys.len() implies p(keys[i]) == in_no_later(
                        ops,
                    )(keys[i]) by {
                        lemma_last_file_bound(ops, keys[i]);
                        lemma_last_file_zero(ops, keys[i]);
                        assert(item_of::<B>(ops, keys[i]).retention() == last_file(ops, keys[i])
                            as u32);
                    }
                    lemma_filter_ext(keys, p, in_no_later(ops));
                }
            },
            _ => {},
        }
        let mut out: Vec<u8> = Vec::new();
        set.output_to(width, &mut out);
        assert(out@ =~= report(set.keys(), column_of::<B>(ops, width as nat)));
        out
    }
}

/// The output of a run whose items agree with what `op` selects and `log` reports.
proof fn lemma_run_output<B: Bookkeeping>(op: OpName, log: LogType, ops: Seq<Seq<u8>>, width: nat)
    requires
        forall|x: Seq<u8>| #[trigger] column_of::<B>(ops, width)(x) == log_column(log, ops, width)(x),
        kind_of(op) is Counted ==> forall|x: Seq<u8>| #[trigger] selects(op, ops)(x) == kept_by::<B>(
            kind_of(op)->Counted_0,
            ops,
        )(x),
    ensures
        report(outcome::<B>(kind_of(op), ops), column_of::<B>(ops, width)) == expected_output(
            op,
            log,
            ops,
            width,
        ),
{
    let col = log_column(log, ops, width);
    match kind_of(op) {
        Kind::Counted(keep) => {
            lemma_count_output::<B>(ops, keep, selects(op, ops), width, col);
        },
        _ => {
            lemma_report_ext(selection(op, ops), column_of::<B>(ops, width), col);
        },
    }
}

/// The runs that `Calculation` picks from, by the bookkeeping they keep.
pub enum Runs {
    Plain(Run<Unlogged<Noop>>),
    PlainFirst(Run<Dual<LastFileSeen, Unlogged<LastFileSeen>>>),
    PlainLines(Run<Unlogged<LineCount>>),
    PlainFiles(Run<Unlogged<FileCount>>),
    Lines(Run<LineCount>),
    FirstLines(Run<Dual<LastFileSeen, LineCount>>),
    FilesLines(Run<Dual<FileCount, LineCount>>),
    Files(Run<FileCount>),
    LinesFiles(Run<Dual<LineCount, FileCount>>),
    FirstFiles(Run<Dual<LastFileSeen, FileCount>>),
}

/// A set operation in progress over operands handed in one at a time.
pub struct Calculation {
    operation: OpName,
    log_type: LogType,
    runs: Runs,
}

impl Calculation {
    pub closed spec fn operation(&self) -> OpName {
        self.operation
    }

    pub closed spec fn log_type(&self) -> LogType {
        self.log_type
    }

    /// The operands read so far, the first operand first.
    pub closed spec fn seen(&self) -> Seq<Seq<u8>> {
        match self.runs {
            Runs::Plain(r) => r.seen(),
            Runs::PlainFirst(r) => r.seen(),
            Runs::PlainLines(r) => r.seen(),
            Runs::PlainFiles(r) => r.seen(),
            Runs::Lines(r) => r.seen(),
            Runs::FirstLines(r) => r.seen(),
            Runs::FilesLines(r) => r.seen(),
            Runs::Files(r) => r.seen(),
            Runs::LinesFiles(r) => r.seen(),
            Runs::FirstFiles(r) => r.seen(),
        }
    }

    /// The run suits the operation and the count reported: where the count
    /// reported is also the one that selects, one item serves both.
    pub closed spec fn wf(&self) -> bool {
        let op = self.operation;
        let log = self.log_type;
        match self.runs {
            Runs::Plain(r) => r.inv() && r.kind() == kind_of(op) && log == LogType::Neither && op
                == OpName::Union,
            Runs::PlainFirst(r) => r.inv() && r.kind() == kind_of(op) && log == LogType::Neither
                && (op == OpName::Diff || op == OpName::Intersect),
            Runs::PlainLines(r) => r.inv() && r.kind() == kind_of(op) && log == LogType::Neither
                && (op == OpName::Single || op == OpName::Multiple),
            Runs::PlainFiles(r) => r.inv() && r.kind() == kind_of(op) && log == LogType::Neither
                && (op == OpName::SingleByFile || op == OpName::MultipleByFile),
            Runs::Lines(r) => r.inv() && r.kind() == kind_of(op) && ((log == LogType::Lines && (op
                == OpName::Union || op == OpName::Single || op == OpName::Multiple)) || (log
                == LogType::Files && op == OpName::Single)),
            Runs::FirstLines(r) => r.inv() && r.kind() == kind_of(op) && log == LogType::Lines
                && (op == OpName::Diff || op == OpName::Intersect),
            Runs::FilesLines(r) => r.inv() && r.kind() == kind_of(op) && log == LogType::Lines
                && (op == OpName::SingleByFile || op == OpName::MultipleByFile),
            Runs::Files(r) => r.inv() && r.kind() == kind_of(op) && log == LogType::Files && (op
                == OpName::Union || op == OpName::SingleByFile || op == OpName::MultipleByFile),
            Runs::LinesFiles(r) => r.inv() && r.kind() == kind_of(op) && log == LogType::Files
                && op == OpName::Multiple,
            Runs::FirstFiles(r) => r.inv() && r.kind() == kind_of(op) && log == LogType::Files
                && (op == OpName::Diff || op == OpName::Intersect),
        }
    }

    /// Starts `operation` on the first operand, reporting what `log_type` asks for.
    pub fn new(operation: OpName, log_type: LogType, first_operand: &[u8]) -> (r: Self)
        ensures
            r.wf(),
            r.operation() == operation,
            r.log_type() == log_type,
            r.seen() == seq![first_operand@],
    {
        let kind = match operation {
            OpName::Union => Kind::All,
            OpName::Diff => Kind::Diff,
            OpName::Intersect => Kind::Intersect,
            OpName::Single | OpName::SingleByFile => Kind::Counted(Keep::Once),
            OpName::Multiple | OpName::MultipleByFile => Kind::Counted(Keep::Several),
        };
        let first = first_operand;
        let runs = match log_type {
            LogType::Neither => match operation {
                OpName::Union => Runs::Plain(Run::new(first, kind)),
                OpName::Diff | OpName::Intersect => Runs::PlainFirst(Run::new(first, kind)),
                OpName::Single | OpName::Multiple => Runs::PlainLines(Run::new(first, kind)),
                _ => Runs::PlainFiles(Run::new(first, kind)),
            },
            LogType::Lines => match operation {
                OpName::Union | OpName::Single | OpName::Multiple => Runs::Lines(
                    Run::new(first, kind),
                ),
                OpName::Diff | OpName::Intersect => Runs::FirstLines(Run::new(first, kind)),
                _ => Runs::FilesLines(Run::new(first, kind)),
            },
            // A line that occurs once occurs in one file, so `Single`
            // reports its `LineCount`.
            LogType::Files => match operation {
                OpName::Single => Runs::Lines(Run::new(first, kind)),
                OpName::Multiple => Runs::LinesFiles(Run::new(first, kind)),
                OpName::Diff | OpName::Intersect => Runs::FirstFiles(Run::new(first, kind)),
                _ => Runs::Files(Run::new(first, kind)),
            },
        };
        Calculation { operation, log_type, runs }
    }

    /// Reads one more operand. Where the operation numbers the operands, it
    /// fails, changing nothing, on the one past `u32::MAX` after the first.
    pub fn add_operand(&mut self, text: &[u8]) -> (r: Result<(), TooManyFiles>)
        requires
            old(self).wf(),
        ensures
            final(self).wf(),
            final(self).operation() == old(self).operation(),
            final(self).log_type() == old(self).log_type(),
            r is Err <==> numbers_files(old(self).operation(), old(self).log_type())
                && old(self).seen().len() - 1 == u32::MAX,
            r is Ok ==> final(self).seen() == old(self).seen().push(text@),
            r is Err ==> final(self).seen() == old(self).seen(),
    {
        match &mut self.runs {
            Runs::Plain(r) => r.step(text),
            Runs::PlainFirst(r) => r.step(text),
            Runs::PlainLines(r) => r.step(text),
            Runs::PlainFiles(r) => r.step(text),
            Runs::Lines(r) => r.step(text),
            Runs::FirstLines(r) => r.step(text),
            Runs::FilesLines(r) => r.step(text),
            Runs::Files(r) => r.step(text),
            Runs::LinesFiles(r) => r.step(text),
            Runs::FirstFiles(r) => r.step(text),
        }
    }

    /// Ends the operation: each line selected, once, in order of first
    /// appearance, preceded where asked by its count in a column of `width`.
    pub fn finish(self, width: usize) -> (r: Vec<u8>)
        requires
            self.wf(),
        ensures
            r@ == expected_output(self.operation(), self.log_type(), self.seen(), width as nat),
    {
        let ghost op = self.operation;
        let ghost log = self.log_type;
        let ghost ops = self.seen();
        let ghost w = width as nat;
        match self.runs {
            Runs::Plain(r) => {
                proof {
                    lemma_run_output::<Unlogged<Noop>>(op, log, ops, w);
                }
                r.finish(width)
            },
            Runs::PlainFirst(r) => {
                proof {
                    lemma_run_output::<Dual<LastFileSeen, Unlogged<LastFileSeen>>>(op, log, ops, w);
                }
                r.finish(width)
            },
            Runs::PlainLines(r) => {
                proof {
                    lemma_run_output::<Unlogged<LineCount>>(op, log, ops, w);
                }
                r.finish(width)
            },
            Runs::PlainFiles(r) => {
                proof {
                    lemma_run_output::<Unlogged<FileCount>>(op, log, ops, w);
                }
                r.finish(width)
            },
            Runs::Lines(r) => {
                proof {
                    if log == LogType::Lines {
                        lemma_run_output::<LineCount>(op, log, ops, w);
                    } else {
                        let col = log_column(log, ops, w);
                        assert forall|x: Seq<u8>|
                            all_lines(ops).contains(x) && #[trigger] occurs_once(ops)(x) implies column_of::<
                                LineCount,
                            >(ops, w)(x) == col(x) by {
                            lemma_file_count_le(ops, x);
                            lemma_seen(ops, x);
                        }
                        lemma_count_output::<LineCount>(ops, Keep::Once, occurs_once(ops), w, col);
                    }
                }
                r.finish(width)
            },
            Runs::FirstLines(r) => {
                proof {
                    lemma_run_output::<Dual<LastFileSeen, LineCount>>(op, log, ops, w);
                }
                r.finish(width)
            },
            Runs::FilesLines(r) => {
                proof {
                    lemma_run_output::<Dual<FileCount, LineCount>>(op, log, ops, w);
                }
                r.finish(width)
            },
            Runs::Files(r) => {
                proof {
                    lemma_run_output::<FileCount>(op, log, ops, w);
                }
                r.finish(width)
            },
            Runs::LinesFiles(r) => {
                proof {
                    lemma_run_output::<Dual<LineCount, FileCount>>(op, log, ops, w);
                }
                r.finish(width)
            },
            Runs::FirstFiles(r) => {
                proof {
                    lemma_run_output::<Dual<LastFileSeen, FileCount>>(op, log, ops, w);
                }
                r.finish(width)
            },
        }
    }
}

/// Calculates `operation` over `first_operand` and the later operands `rest`:
/// each line selected, once, in order of first appearance, preceded where
/// `log_type` asks for it by its count in a column of `width`.
///
/// * `Union`: the lines that occur in any operand,
/// * `Intersect`: the lines that occur in all operands,
/// * `Diff`: the lines of the first operand that occur in no other,
/// * `Single`: the lines that occur once in the input,
/// * `Multiple`: the lines that occur more than once in the input,
/// * `SingleByFile`: the lines that occur in exactly one operand,
/// * `MultipleByFile`: the lines that occur in more than one operand.
///
/// An operation that numbers the operands fails where there are more than
/// `u32::MAX` later ones.
pub fn calculate(
    operation: OpName,
    log_type: LogType,
    first_operand: &[u8],
    rest: &[Vec<u8>],
    width: usize,
) -> (r: Result<Vec<u8>, TooManyFiles>)
    ensures
        r is Err <==> numbers_files(operation, log_type) && rest@.len() > u32::MAX,
        r is Ok ==> r->Ok_0@ == expected_output(
            operation,
            log_type,
            operands(first_operand@, rest@),
            width as nat,
        ),
{
    let mut calculation = Calculation::new(operation, log_type, first_operand);
    proof {
        lemma_operands_start(first_operand@, rest@);
    }
    let mut j: usize = 0;
    while j < rest.len()
        invariant
            j <= rest@.len(),
            calculation.wf(),
            calculation.operation() == operation,
            calculation.log_type() == log_type,
            calculation.seen() == operands(first_operand@, rest@.take(j as int)),
            numbers_files(operation, log_type) ==> j <= u32::MAX,
        decreases rest@.len() - j,
    {
        proof {
            lemma_operands_step(first_operand@, rest@, j as int);
        }
        match calculation.add_operand(rest[j].as_slice()) {
            Ok(()) => {},
            Err(e) => {
                return Err(e);
            },
        }
        j = j + 1;
    }
    assert(rest@.take(j as int) =~= rest@);
    Ok(calculation.finish(width))
}

} // verus!
