//! The per-line bookkeeping items: what a line's entry in a `ZetSet` records.
//!
//! Every item is described by `at(n, k, last)`: the value it holds for a line
//! seen `n` times in all, in `k` distinct files, the latest of them the file
//! numbered `last` (the first operand is file 0).
use vstd::prelude::*;

verus! {

/// The error of an operation given more files than a `u32` can number.
#[derive(Clone, Copy, Debug, PartialEq, Eq, Structural)]
pub enum TooManyFiles {
    Overflow,
}

impl TooManyFiles {
    /// The message of the error, which cites the limit of `u32::MAX` files.
    pub fn message(&self) -> (r: String)
        ensures
            r@ == "Zet can't handle more than 4294967295 input files"@,
    {
        proof {
            reveal_strlit("Zet can't handle more than 4294967295 input files");
        }
        String::from_str("Zet can't handle more than 4294967295 input files")
    }
}

/// The decimal digits of `n`.
pub open spec fn decimal(n: nat) -> Seq<u8>
    decreases n,
{
    if n < 10 {
        seq![(48 + n) as u8]
    } else {
        decimal(n / 10).push((48 + n % 10) as u8)
    }
}

/// `s` right-justified in a field of `width` columns.
pub open spec fn padded(s: Seq<u8>, width: nat) -> Seq<u8> {
    if s.len() < width {
        Seq::new((width - s.len()) as nat, |i: int| 32u8) + s
    } else {
        s
    }
}

/// The count column for a number: right-justified, then one space.
pub open spec fn number_column(n: nat, width: nat) -> Seq<u8> {
    padded(decimal(n), width).push(32u8)
}

/// The count column for a saturating counter, which reads `overflow` at `u32::MAX`.
pub open spec fn count_column(n: u32, width: nat) -> Seq<u8> {
    if n == u32::MAX {
        padded(seq![111u8, 118, 101, 114, 102, 108, 111, 119], width).push(32u8)
    } else {
        number_column(n as nat, width)
    }
}

/// The smaller of `n` and `u32::MAX`.
pub open spec fn saturated(n: nat) -> u32 {
    if n < u32::MAX {
        n as u32
    } else {
        u32::MAX
    }
}

fn push_decimal(n: u32, out: &mut Vec<u8>)
    ensures
        final(out)@ == old(out)@ + decimal(n as nat),
    decreases n,
{
    if n >= 10 {
        push_decimal(n / 10, out);
    }
    out.push((48 + n % 10) as u8);
    proof {
        assert(old(out)@ + decimal(n as nat) =~= final(out)@) by {
            if n >= 10 {
                assert(decimal(n as nat) == decimal((n / 10) as nat).push((48 + n % 10) as u8));
            }
        }
    }
}

fn push_padded(s: &Vec<u8>, width: usize, out: &mut Vec<u8>)
    ensures
        final(out)@ == old(out)@ + padded(s@, width as nat),
{
    let ghost start = out@;
    let mut i: usize = s.len();
    while i < width
        invariant
            s@.len() <= i <= width || (i == s@.len() && i >= width),
            out@ == start + Seq::new((i - s@.len()) as nat, |j: int| 32u8),
        decreases width - i,
    {
        out.push(32u8);
        i = i + 1;
        assert(out@ =~= start + Seq::new((i - s@.len()) as nat, |j: int| 32u8));
    }
    let mut j: usize = 0;
    let ghost mid = out@;
    while j < s.len()
        invariant
            j <= s@.len(),
            out@ == mid + s@.take(j as int),
        decreases s@.len() - j,
    {
        out.push(s[j]);
        j = j + 1;
        assert(out@ =~= mid + s@.take(j as int));
    }
    assert(s@.take(j as int) =~= s@);
    assert(final(out)@ =~= old(out)@ + padded(s@, width as nat));
}

/// Appends the count column of a number.
pub fn write_number(n: u32, width: usize, out: &mut Vec<u8>)
    ensures
        final(out)@ == old(out)@ + number_column(n as nat, width as nat),
{
    let mut digits: Vec<u8> = Vec::new();
    push_decimal(n, &mut digits);
    assert(digits@ =~= decimal(n as nat));
    push_padded(&digits, width, out);
    out.push(32u8);
    assert(final(out)@ =~= old(out)@ + number_column(n as nat, width as nat));
}

/// Appends the count column of a saturating counter.
pub fn write_saturating(n: u32, width: usize, out: &mut Vec<u8>)
    ensures
        final(out)@ == old(out)@ + count_column(n, width as nat),
{
    if n == u32::MAX {
        let word: Vec<u8> = vec![111u8, 118, 101, 114, 102, 108, 111, 119];
        push_padded(&word, width, out);
        out.push(32u8);
        assert(word@ =~= seq![111u8, 118, 101, 114, 102, 108, 111, 119]);
        assert(final(out)@ =~= old(out)@ + count_column(n, width as nat));
    } else {
        write_number(n, width, out);
    }
}

/// What decides whether a line is kept. `retention_value` is the number
/// that an operation's retention rule looks at.
pub trait Retainable: Copy + Sized {
    /// The item of a line seen `n` times, in `k` files, the latest numbered `last`.
    spec fn at(n: nat, k: nat, last: nat) -> Self;

    /// Whether the item numbers files, and so fails past `u32::MAX` of them.
    spec fn counts_files() -> bool;

    /// The item after `next_file`, or `None` where it fails.
    spec fn advanced(self) -> Option<Self>;

    /// The item after a `next_file` that fails.
    spec fn stalled(self) -> Self;

    /// The item after `update_with(other)`.
    spec fn merged(self, other: Self) -> Self;

    spec fn retention(self) -> u32;

    /// The template item of file `f` steps to that of file `f + 1`.
    proof fn lemma_advance(f: nat)
        requires
            Self::counts_files() ==> f <= u32::MAX,
        ensures
            Self::at(1, 1, f).advanced() == (if Self::counts_files() && f == u32::MAX {
                None::<Self>
            } else {
                Some(Self::at(1, 1, f + 1))
            }),
    ;

    /// A stored item merged with the template item of a file at or after its last one.
    proof fn lemma_merge(n: nat, k: nat, last: nat, f: nat)
        requires
            last <= f,
            Self::counts_files() ==> f <= u32::MAX,
        ensures
            Self::at(n, k, last).merged(Self::at(1, 1, f)) == Self::at(
                n + 1,
                if last == f {
                    k
                } else {
                    k + 1
                },
                f,
            ),
    ;

    fn new() -> (r: Self)
        ensures
            r == Self::at(1, 1, 0),
    ;

    fn next_file(&mut self) -> (r: Result<(), TooManyFiles>)
        ensures
            match old(self).advanced() {
                Some(a) => r is Ok && *final(self) == a,
                None => r is Err && *final(self) == old(self).stalled(),
            },
    ;

    fn update_with(&mut self, other: Self)
        ensures
            *final(self) == old(self).merged(other),
    ;

    fn retention_value(self) -> (r: u32)
        ensures
            r == self.retention(),
    ;
}

/// What is reported of a line beside it in the output.
pub trait Bookkeeping: Retainable {
    spec fn counted(self) -> u32;

    /// The bytes written before the line, in a field of `width` columns.
    spec fn column(self, width: nat) -> Seq<u8>;

    fn count(self) -> (r: u32)
        ensures
            r == self.counted(),
    ;

    fn write_count(&self, width: usize, out: &mut Vec<u8>)
        ensures
            final(out)@ == old(out)@ + self.column(width as nat),
    ;
}

/// An item that reports its retention value.
#[derive(Clone, Copy, Debug, PartialEq, Eq)]
pub struct Logged<R: Retainable>(pub R);

impl<R: Retainable> Retainable for Logged<R> {
    open spec fn at(n: nat, k: nat, last: nat) -> Self {
        Logged(R::at(n, k, last))
    }

    open spec fn counts_files() -> bool {
        R::counts_files()
    }

    open spec fn stalled(self) -> Self {
        Logged(self.0.stalled())
    }

    open spec fn advanced(self) -> Option<Self> {
        match self.0.advanced() {
            Some(a) => Some(Logged(a)),
            None => None,
        }
    }

    open spec fn merged(self, other: Self) -> Self {
        Logged(self.0.merged(other.0))
    }

    open spec fn retention(self) -> u32 {
        self.0.retention()
    }

    proof fn lemma_advance(f: nat) {
        R::lemma_advance(f);
    }

    proof fn lemma_merge(n: nat, k: nat, last: nat, f: nat) {
        R::lemma_merge(n, k, last, f);
    }

    fn new() -> (r: Self) {
        Logged(R::new())
    }

    fn next_file(&mut self) -> (r: Result<(), TooManyFiles>) {
        self.0.next_file()
    }

    fn update_with(&mut self, other: Self) {
        self.0.update_with(other.0)
    }

    fn retention_value(self) -> (r: u32) {
        self.0.retention_value()
    }
}

impl<R: Retainable> Bookkeeping for Logged<R> {
    open spec fn counted(self) -> u32 {
        self.0.retention()
    }

    open spec fn column(self, width: nat) -> Seq<u8> {
        count_column(self.0.retention(), width)
    }

    fn count(self) -> (r: u32) {
        self.0.retention_value()
    }

    fn write_count(&self, width: usize, out: &mut Vec<u8>) {
        write_saturating(self.count(), width, out)
    }
}

/// An item that reports nothing.
#[derive(Clone, Copy, Debug, PartialEq, Eq)]
pub struct Unlogged<R: Retainable>(pub R);

impl<R: Retainable> Retainable for Unlogged<R> {
    open spec fn at(n: nat, k: nat, last: nat) -> Self {
        Unlogged(R::at(n, k, last))
    }

    open spec fn counts_files() -> bool {
        R::counts_files()
    }

    open spec fn stalled(self) -> Self {
        Unlogged(self.0.stalled())
    }

    open spec fn advanced(self) -> Option<Self> {
        match self.0.advanced() {
            Some(a) => Some(Unlogged(a)),
            None => None,
        }
    }

    open spec fn merged(self, other: Self) -> Self {
        Unlogged(self.0.merged(other.0))
    }

    open spec fn retention(self) -> u32 {
        self.0.retention()
    }

    proof fn lemma_advance(f: nat) {
        R::lemma_advance(f);
    }

    proof fn lemma_merge(n: nat, k: nat, last: nat, f: nat) {
        R::lemma_merge(n, k, last, f);
    }

    fn new() -> (r: Self) {
        Unlogged(R::new())
    }

    fn next_file(&mut self) -> (r: Result<(), TooManyFiles>) {
        self.0.next_file()
    }

    fn update_with(&mut self, other: Self) {
        self.0.update_with(other.0)
    }

    fn retention_value(self) -> (r: u32) {
        self.0.retention_value()
    }
}

impl<R: Retainable> Bookkeeping for Unlogged<R> {
    open spec fn counted(self) -> u32 {
        0
    }

    open spec fn column(self, width: nat) -> Seq<u8> {
        Seq::empty()
    }

    fn count(self) -> (r: u32) {
        0
    }

    fn write_count(&self, width: usize, out: &mut Vec<u8>) {
        assert(out@ =~= out@ + Seq::<u8>::empty());
    }
}

/// The item of an operation that keeps every line: it records nothing.
#[derive(Clone, Copy, Debug, PartialEq, Eq, Structural)]
pub struct Noop();

impl Retainable for Noop {
    open spec fn at(n: nat, k: nat, last: nat) -> Self {
        Noop()
    }

    open spec fn counts_files() -> bool {
        false
    }

    open spec fn stalled(self) -> Self {
        self
    }

    open spec fn advanced(self) -> Option<Self> {
        Some(self)
    }

    open spec fn merged(self, other: Self) -> Self {
        self
    }

    open spec fn retention(self) -> u32 {
        0
    }

    proof fn lemma_advance(f: nat) {
    }

    proof fn lemma_merge(n: nat, k: nat, last: nat, f: nat) {
    }

    fn new() -> (r: Self) {
        Noop()
    }

    fn next_file(&mut self) -> (r: Result<(), TooManyFiles>) {
        Ok(())
    }

    fn update_with(&mut self, other: Self) {
    }

    fn retention_value(self) -> (r: u32) {
        0
    }
}

impl Bookkeeping for Noop {
    open spec fn counted(self) -> u32 {
        0
    }

    open spec fn column(self, width: nat) -> Seq<u8> {
        Seq::empty()
    }

    fn count(self) -> (r: u32) {
        self.retention_value()
    }

    fn write_count(&self, width: usize, out: &mut Vec<u8>) {
        assert(out@ =~= out@ + Seq::<u8>::empty());
    }
}

/// The number of the latest file in which a line was seen.
#[derive(Clone, Copy, Debug, PartialEq, Eq, Structural)]
pub struct LastFileSeen(pub u32);

impl Retainable for LastFileSeen {
    open spec fn at(n: nat, k: nat, last: nat) -> Self {
        LastFileSeen(last as u32)
    }

    open spec fn counts_files() -> bool {
        true
    }

    open spec fn stalled(self) -> Self {
        self
    }

    open spec fn advanced(self) -> Option<Self> {
        if self.0 == u32::MAX {
            None
        } else {
            Some(LastFileSeen((self.0 + 1) as u32))
        }
    }

    open spec fn merged(self, other: Self) -> Self {
        other
    }

    open spec fn retention(self) -> u32 {
        self.0
    }

    proof fn lemma_advance(f: nat) {
    }

    proof fn lemma_merge(n: nat, k: nat, last: nat, f: nat) {
    }

    fn new() -> (r: Self) {
        LastFileSeen(0)
    }

    fn next_file(&mut self) -> (r: Result<(), TooManyFiles>) {
        match self.0.checked_add(1) {
            Some(n) => self.0 = n,
            None => return Err(TooManyFiles::Overflow),
        }
        Ok(())
    }

    fn update_with(&mut self, other: Self) {
        self.0 = other.0
    }

    fn retention_value(self) -> (r: u32) {
        self.0
    }
}

/// The number of times a line was seen, saturating at `u32::MAX`.
#[derive(Clone, Copy, Debug, PartialEq, Eq, Structural)]
pub struct LineCount(pub u32);

impl Retainable for LineCount {
    open spec fn at(n: nat, k: nat, last: nat) -> Self {
        LineCount(saturated(n))
    }

    open spec fn counts_files() -> bool {
        false
    }

    open spec fn stalled(self) -> Self {
        self
    }

    open spec fn advanced(self) -> Option<Self> {
        Some(self)
    }

    open spec fn merged(self, other: Self) -> Self {
        LineCount(saturated((self.0 + 1) as nat))
    }

    open spec fn retention(self) -> u32 {
        self.0
    }

    proof fn lemma_advance(f: nat) {
    }

    proof fn lemma_merge(n: nat, k: nat, last: nat, f: nat) {
    }

    fn new() -> (r: Self) {
        LineCount(1)
    }

    fn next_file(&mut self) -> (r: Result<(), TooManyFiles>) {
        Ok(())
    }

    fn update_with(&mut self, other: Self) {
        self.0 = self.0.saturating_add(1);
    }

    fn retention_value(self) -> (r: u32) {
        self.0
    }
}

impl Bookkeeping for LineCount {
    open spec fn counted(self) -> u32 {
        self.0
    }

    open spec fn column(self, width: nat) -> Seq<u8> {
        count_column(self.0, width)
    }

    fn count(self) -> (r: u32) {
        self.retention_value()
    }

    fn write_count(&self, width: usize, out: &mut Vec<u8>) {
        write_saturating(self.0, width, out)
    }
}

/// The number of files in which a line was seen, and the latest of them.
#[derive(Clone, Copy, Debug, PartialEq, Eq, Structural)]
pub struct FileCount {
    pub file_number: u32,
    pub files_seen: u32,
}

impl Retainable for FileCount {
    open spec fn at(n: nat, k: nat, last: nat) -> Self {
        FileCount { file_number: last as u32, files_seen: saturated(k) }
    }

    open spec fn counts_files() -> bool {
        true
    }

    open spec fn stalled(self) -> Self {
        self
    }

    open spec fn advanced(self) -> Option<Self> {
        if self.file_number == u32::MAX {
            None
        } else {
            Some(FileCount { file_number: (self.file_number + 1) as u32, ..self })
        }
    }

    open spec fn merged(self, other: Self) -> Self {
        if other.file_number != self.file_number {
            FileCount {
                file_number: other.file_number,
                files_seen: saturated((self.files_seen + 1) as nat),
            }
        } else {
            self
        }
    }

    open spec fn retention(self) -> u32 {
        self.files_seen
    }

    proof fn lemma_advance(f: nat) {
    }

    proof fn lemma_merge(n: nat, k: nat, last: nat, f: nat) {
    }

    fn new() -> (r: Self) {
        FileCount { file_number: 0, files_seen: 1 }
    }

    fn next_file(&mut self) -> (r: Result<(), TooManyFiles>) {
        match self.file_number.checked_add(1) {
            Some(n) => self.file_number = n,
            None => return Err(TooManyFiles::Overflow),
        }
        Ok(())
    }

    fn update_with(&mut self, other: Self) {
        if other.file_number != self.file_number {
            self.files_seen = self.files_seen.saturating_add(1);
            self.file_number = other.file_number;
        }
    }

    fn retention_value(self) -> (r: u32) {
        self.files_seen
    }
}

impl Bookkeeping for FileCount {
    open spec fn counted(self) -> u32 {
        self.files_seen
    }

    open spec fn column(self, width: nat) -> Seq<u8> {
        number_column(self.files_seen as nat, width)
    }

    fn count(self) -> (r: u32) {
        self.retention_value()
    }

    fn write_count(&self, width: usize, out: &mut Vec<u8>) {
        write_number(self.files_seen, width, out)
    }
}

/// One item for retention and another for the report.
#[derive(Clone, Copy, Debug, PartialEq, Eq)]
pub struct Dual<R: Retainable, B: Bookkeeping> {
    pub retention: R,
    pub log: B,
}

impl<R: Retainable, B: Bookkeeping> Retainable for Dual<R, B> {
    open spec fn at(n: nat, k: nat, last: nat) -> Self {
        Dual { retention: R::at(n, k, last), log: B::at(n, k, last) }
    }

    open spec fn counts_files() -> bool {
        R::counts_files() || B::counts_files()
    }

    open spec fn stalled(self) -> Self {
        match self.retention.advanced() {
            Some(r) => Dual { retention: r, log: self.log.stalled() },
            None => Dual { retention: self.retention.stalled(), log: self.log },
        }
    }

    open spec fn advanced(self) -> Option<Self> {
        match (self.retention.advanced(), self.log.advanced()) {
            (Some(r), Some(b)) => Some(Dual { retention: r, log: b }),
            _ => None,
        }
    }

    open spec fn merged(self, other: Self) -> Self {
        Dual {
            retention: self.retention.merged(other.retention),
            log: self.log.merged(other.log),
        }
    }

    open spec fn retention(self) -> u32 {
        self.retention.retention()
    }

    proof fn lemma_advance(f: nat) {
        R::lemma_advance(f);
        B::lemma_advance(f);
    }

    proof fn lemma_merge(n: nat, k: nat, last: nat, f: nat) {
        R::lemma_merge(n, k, last, f);
        B::lemma_merge(n, k, last, f);
    }

    fn new() -> (r: Self) {
        Dual { retention: R::new(), log: B::new() }
    }

    fn next_file(&mut self) -> (r: Result<(), TooManyFiles>) {
        let r = self.retention.next_file();
        match r {
            Ok(()) => self.log.next_file(),
            Err(e) => Err(e),
        }
    }

    fn update_with(&mut self, other: Self) {
        self.retention.update_with(other.retention);
        self.log.update_with(other.log);
    }

    fn retention_value(self) -> (r: u32) {
        self.retention.retention_value()
    }
}

impl<R: Retainable, B: Bookkeeping> Bookkeeping for Dual<R, B> {
    open spec fn counted(self) -> u32 {
        self.log.counted()
    }

    open spec fn column(self, width: nat) -> Seq<u8> {
        self.log.column(width)
    }

    fn count(self) -> (r: u32) {
        self.log.count()
    }

    fn write_count(&self, width: usize, out: &mut Vec<u8>) {
        self.log.write_count(width, out)
    }
}

} // verus!
