use std::fmt::Debug;
use zet::bookkeeping::{
    Bookkeeping, Dual, FileCount, LastFileSeen, LineCount, Logged, Noop, Retainable, TooManyFiles,
    Unlogged,
};

trait Testable: Copy + PartialEq + Debug {
    fn file_number(self) -> Option<u32> {
        None
    }
    fn set_file_number(&mut self, _file_number: u32) {}
    fn set_line_count(&mut self, _line_count: u32) {}
}

impl Testable for Noop {}
impl Testable for LastFileSeen {
    fn file_number(self) -> Option<u32> {
        Some(self.0)
    }
    fn set_file_number(&mut self, file_number: u32) {
        self.0 = file_number
    }
}
impl Testable for LineCount {
    fn set_line_count(&mut self, line_count: u32) {
        self.0 = line_count;
    }
}
impl Testable for FileCount {
    fn file_number(self) -> Option<u32> {
        Some(self.file_number)
    }
    fn set_file_number(&mut self, file_number: u32) {
        self.file_number = file_number
    }
}
impl<R: Retainable + Testable, B: Bookkeeping + Testable> Testable for Dual<R, B> {
    fn file_number(self) -> Option<u32> {
        self.retention.file_number().or(self.log.file_number())
    }
    fn set_file_number(&mut self, file_number: u32) {
        self.retention.set_file_number(file_number);
        self.log.set_file_number(file_number);
    }
    fn set_line_count(&mut self, line_count: u32) {
        self.log.set_line_count(line_count);
    }
}

fn new_file_number<R: Retainable + Testable>() -> Option<u32> {
    R::new().file_number()
}

#[test]
#[allow(non_snake_case)]
fn first_file_file_number_is_None_for_Noop_and_LineCount_and_Some_0_otherwise() {
    assert_eq!(new_file_number::<LineCount>(), None);
    assert_eq!(new_file_number::<FileCount>(), Some(0));
    assert_eq!(new_file_number::<Noop>(), None);
    assert_eq!(new_file_number::<LastFileSeen>(), Some(0));
    assert_eq!(new_file_number::<Dual<LineCount, LineCount>>(), None);
    assert_eq!(new_file_number::<Dual<LineCount, FileCount>>(), Some(0));
    assert_eq!(new_file_number::<Dual<LineCount, Noop>>(), None);
    assert_eq!(new_file_number::<Dual<FileCount, LineCount>>(), Some(0));
    assert_eq!(new_file_number::<Dual<FileCount, FileCount>>(), Some(0));
    assert_eq!(new_file_number::<Dual<FileCount, Noop>>(), Some(0));
    assert_eq!(new_file_number::<Dual<Noop, LineCount>>(), None);
    assert_eq!(new_file_number::<Dual<Noop, FileCount>>(), Some(0));
    assert_eq!(new_file_number::<Dual<Noop, Noop>>(), None);
    assert_eq!(new_file_number::<Dual<LastFileSeen, LineCount>>(), Some(0));
    assert_eq!(new_file_number::<Dual<LastFileSeen, FileCount>>(), Some(0));
    assert_eq!(new_file_number::<Dual<LastFileSeen, Noop>>(), Some(0));
}

fn bump_twice<R: Retainable>() -> R {
    let mut select = R::new();
    select.next_file().unwrap();
    select.next_file().unwrap();
    select
}
fn bump_twice_file_number<R: Retainable + Testable>() -> Option<u32> {
    bump_twice::<R>().file_number()
}

#[test]
#[allow(non_snake_case)]
fn next_file_increments_file_number_only_for_LastFileSeen_and_FileCount() {
    assert_eq!(bump_twice_file_number::<LineCount>(), None);
    assert_eq!(bump_twice_file_number::<FileCount>(), Some(2));
    assert_eq!(bump_twice_file_number::<Noop>(), None);
    assert_eq!(bump_twice_file_number::<LastFileSeen>(), Some(2));
    assert_eq!(bump_twice_file_number::<Dual<LineCount, LineCount>>(), None);
    assert_eq!(bump_twice_file_number::<Dual<LineCount, FileCount>>(), Some(2));
    assert_eq!(bump_twice_file_number::<Dual<LineCount, Noop>>(), None);
    assert_eq!(bump_twice_file_number::<Dual<FileCount, LineCount>>(), Some(2));
    assert_eq!(bump_twice_file_number::<Dual<FileCount, FileCount>>(), Some(2));
    assert_eq!(bump_twice_file_number::<Dual<FileCount, Noop>>(), Some(2));
    assert_eq!(bump_twice_file_number::<Dual<Noop, LineCount>>(), None);
    assert_eq!(bump_twice_file_number::<Dual<Noop, FileCount>>(), Some(2));
    assert_eq!(bump_twice_file_number::<Dual<Noop, Noop>>(), None);
    assert_eq!(bump_twice_file_number::<Dual<LastFileSeen, LineCount>>(), Some(2));
    assert_eq!(bump_twice_file_number::<Dual<LastFileSeen, FileCount>>(), Some(2));
    assert_eq!(bump_twice_file_number::<Dual<LastFileSeen, Noop>>(), Some(2));
}

fn assert_update_with_sets_self_file_number_to_arguments<R: Retainable + Testable>() {
    let mut naive = R::new();
    let mut other = R::new();
    other.next_file().unwrap();
    other.next_file().unwrap();
    naive.update_with(other);
    assert_eq!(naive.file_number(), other.file_number());
}

#[test]
fn update_with_sets_file_number_to_its_arguments_file_number() {
    assert_update_with_sets_self_file_number_to_arguments::<LineCount>();
    assert_update_with_sets_self_file_number_to_arguments::<FileCount>();
    assert_update_with_sets_self_file_number_to_arguments::<Noop>();
    assert_update_with_sets_self_file_number_to_arguments::<LastFileSeen>();
    assert_update_with_sets_self_file_number_to_arguments::<Dual<LineCount, LineCount>>();
    assert_update_with_sets_self_file_number_to_arguments::<Dual<LineCount, FileCount>>();
    assert_update_with_sets_self_file_number_to_arguments::<Dual<LineCount, Noop>>();
    assert_update_with_sets_self_file_number_to_arguments::<Dual<FileCount, LineCount>>();
    assert_update_with_sets_self_file_number_to_arguments::<Dual<FileCount, FileCount>>();
    assert_update_with_sets_self_file_number_to_arguments::<Dual<FileCount, Noop>>();
    assert_update_with_sets_self_file_number_to_arguments::<Dual<Noop, LineCount>>();
    assert_update_with_sets_self_file_number_to_arguments::<Dual<Noop, FileCount>>();
    assert_update_with_sets_self_file_number_to_arguments::<Dual<Noop, Noop>>();
    assert_update_with_sets_self_file_number_to_arguments::<Dual<LastFileSeen, LineCount>>();
    assert_update_with_sets_self_file_number_to_arguments::<Dual<LastFileSeen, FileCount>>();
    assert_update_with_sets_self_file_number_to_arguments::<Dual<LastFileSeen, Noop>>();
}

#[allow(non_snake_case)]
fn assert_next_file_errors_if_file_number_is_u32_MAX<R: Retainable + Testable>() {
    let mut item = R::new();
    let start = item.file_number();
    item.next_file().unwrap();
    if item.file_number() == start {
        return;
    }
    item.set_file_number(u32::MAX - 2);
    item.next_file().unwrap();
    assert!(item.file_number() == Some(u32::MAX - 1));
    item.next_file().unwrap();
    assert!(item.file_number() == Some(u32::MAX));
    assert!(item.next_file().is_err());
}

#[test]
fn next_file_errors_if_file_number_would_wrap_to_zero() {
    assert_next_file_errors_if_file_number_is_u32_MAX::<LineCount>();
    assert_next_file_errors_if_file_number_is_u32_MAX::<FileCount>();
    assert_next_file_errors_if_file_number_is_u32_MAX::<Noop>();
    assert_next_file_errors_if_file_number_is_u32_MAX::<LastFileSeen>();
    assert_next_file_errors_if_file_number_is_u32_MAX::<Dual<LineCount, LineCount>>();
    assert_next_file_errors_if_file_number_is_u32_MAX::<Dual<LineCount, FileCount>>();
    assert_next_file_errors_if_file_number_is_u32_MAX::<Dual<LineCount, Noop>>();
    assert_next_file_errors_if_file_number_is_u32_MAX::<Dual<FileCount, LineCount>>();
    assert_next_file_errors_if_file_number_is_u32_MAX::<Dual<FileCount, FileCount>>();
    assert_next_file_errors_if_file_number_is_u32_MAX::<Dual<FileCount, Noop>>();
    assert_next_file_errors_if_file_number_is_u32_MAX::<Dual<Noop, LineCount>>();
    assert_next_file_errors_if_file_number_is_u32_MAX::<Dual<Noop, FileCount>>();
    assert_next_file_errors_if_file_number_is_u32_MAX::<Dual<Noop, Noop>>();
    assert_next_file_errors_if_file_number_is_u32_MAX::<Dual<LastFileSeen, LineCount>>();
    assert_next_file_errors_if_file_number_is_u32_MAX::<Dual<LastFileSeen, FileCount>>();
    assert_next_file_errors_if_file_number_is_u32_MAX::<Dual<LastFileSeen, Noop>>();
}

fn log_string<B: Bookkeeping + Testable>(item: B) -> String {
    let mut result = vec![];
    item.write_count(10, &mut result);
    String::from_utf8(result).unwrap()
}

fn assert_item_logs_overflow_when_appropriate<B: Bookkeeping + Testable>() {
    let mut item = B::new();
    item.set_line_count(42);
    if log_string(item).trim() == "42" {
        // Otherwise we're not counting lines
        let big_but_ok = u32::MAX - 1;
        item.set_line_count(big_but_ok);
        assert_eq!(log_string(item).trim(), format!("{big_but_ok}"));

        // Simulate seeing another line
        item.update_with(item);
        assert_eq!(log_string(item).trim(), "overflow");

        // And yet another line – Once line count hits overflow, it doesn't change.
        item.update_with(item);
        assert_eq!(log_string(item).trim(), "overflow");
    }
}

#[test]
fn item_logs_overflow_when_appropriate() {
    assert_item_logs_overflow_when_appropriate::<LineCount>();
    assert_item_logs_overflow_when_appropriate::<FileCount>();
    assert_item_logs_overflow_when_appropriate::<Noop>();
    assert_item_logs_overflow_when_appropriate::<Dual<LineCount, LineCount>>();
    assert_item_logs_overflow_when_appropriate::<Dual<LineCount, FileCount>>();
    assert_item_logs_overflow_when_appropriate::<Dual<LineCount, Noop>>();
    assert_item_logs_overflow_when_appropriate::<Dual<FileCount, LineCount>>();
    assert_item_logs_overflow_when_appropriate::<Dual<FileCount, FileCount>>();
    assert_item_logs_overflow_when_appropriate::<Dual<FileCount, Noop>>();
    assert_item_logs_overflow_when_appropriate::<Dual<Noop, LineCount>>();
    assert_item_logs_overflow_when_appropriate::<Dual<Noop, FileCount>>();
    assert_item_logs_overflow_when_appropriate::<Dual<Noop, Noop>>();
    assert_item_logs_overflow_when_appropriate::<Dual<LastFileSeen, LineCount>>();
    assert_item_logs_overflow_when_appropriate::<Dual<LastFileSeen, FileCount>>();
    assert_item_logs_overflow_when_appropriate::<Dual<LastFileSeen, Noop>>();
}

#[test]
fn file_count_merges_only_across_files() {
    let mut stored = FileCount::new();
    let same_file = FileCount::new();
    stored.update_with(same_file);
    assert_eq!(stored, FileCount { file_number: 0, files_seen: 1 });
    let mut template = FileCount::new();
    template.next_file().unwrap();
    stored.update_with(template);
    assert_eq!(stored, FileCount { file_number: 1, files_seen: 2 });
    assert_eq!(stored.count(), 2);
    assert_eq!(stored.retention_value(), 2);
}

#[test]
fn logged_reports_its_retention_value_and_unlogged_nothing() {
    let mut logged = Logged(LineCount::new());
    logged.update_with(logged);
    assert_eq!(logged.count(), 2);
    let mut out = vec![];
    logged.write_count(4, &mut out);
    assert_eq!(out, b"   2 ".to_vec());
    logged.0 = LineCount(u32::MAX);
    let mut out = vec![];
    logged.write_count(10, &mut out);
    assert_eq!(out, b"  overflow ".to_vec());

    let unlogged = Unlogged(FileCount::new());
    assert_eq!(unlogged.count(), 0);
    assert_eq!(unlogged.retention_value(), 1);
    let mut out = vec![];
    unlogged.write_count(10, &mut out);
    assert!(out.is_empty());
}

#[test]
fn too_many_files_has_a_message() {
    let mut item = LastFileSeen(u32::MAX);
    assert_eq!(item.next_file(), Err(TooManyFiles::Overflow));
    assert!(TooManyFiles::Overflow.message().contains("4294967295"));
}

#[test]
fn a_failed_next_file_leaves_the_item_as_it_was() {
    let mut last = LastFileSeen(u32::MAX);
    assert!(last.next_file().is_err());
    assert_eq!(last, LastFileSeen(u32::MAX));

    let mut files = FileCount { file_number: u32::MAX, files_seen: 3 };
    assert!(files.next_file().is_err());
    assert_eq!(files, FileCount { file_number: u32::MAX, files_seen: 3 });

    let mut dual = Dual { retention: LastFileSeen(u32::MAX), log: FileCount { file_number: 5, files_seen: 2 } };
    assert!(dual.next_file().is_err());
    assert_eq!(dual.log, FileCount { file_number: 5, files_seen: 2 });

    let mut dual = Dual { retention: LastFileSeen(5), log: FileCount { file_number: u32::MAX, files_seen: 2 } };
    assert!(dual.next_file().is_err());
    assert_eq!(dual.retention, LastFileSeen(6));
    assert_eq!(dual.log, FileCount { file_number: u32::MAX, files_seen: 2 });
}

#[test]
fn too_many_files_message_cites_the_limit() {
    assert_eq!(TooManyFiles::Overflow.message(), "Zet can't handle more than 4294967295 input files");
}
