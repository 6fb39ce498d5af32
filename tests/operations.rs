use indexmap::IndexMap;
use zet::operations::{calculate, Calculation, LogType, OpName};
use zet::operations::OpName::{
    Diff, Intersect, Multiple, MultipleByFile, Single, SingleByFile, Union,
};

type V8<'a> = [&'a [u8]];

fn run(operation: OpName, log: LogType, operands: &V8) -> Vec<u8> {
    let first = operands[0];
    let rest: Vec<Vec<u8>> = operands[1..].iter().map(|o| o.to_vec()).collect();
    calculate(operation, log, first, &rest, 10).unwrap()
}

fn calc(operation: OpName, operands: &V8) -> String {
    String::from_utf8(run(operation, LogType::Neither, operands)).unwrap()
}

#[test]
fn given_a_single_argument_all_most_ops_return_input_lines_in_order_without_dups() {
    let arg: Vec<&[u8]> = vec![b"xxx\nabc\nxxx\nyyy\nxxx\nabc\n"];
    let uniq = "xxx\nabc\nyyy\n";
    let solo = "yyy\n";
    let multi = "xxx\nabc\n";
    let empty = "";
    for &op in &[Intersect, Union, Diff, Single, SingleByFile, Multiple, MultipleByFile] {
        let result = calc(op, &arg);
        let expected = if op == Single {
            solo
        } else if op == Multiple {
            multi
        } else if op == MultipleByFile {
            empty
        } else {
            uniq
        };
        assert_eq!(result, *expected, "for {op:?}");
    }
}

#[test]
fn results_for_each_operation() {
    let args: Vec<&[u8]> = vec![
        b"xyz\nabc\nxy\nxz\nx\n",    // Strings containing "x" (and "abc")
        b"xyz\nabc\nxy\nyz\ny\ny\n", // Strings containing "y" (and "abc")
        b"xyz\nabc\nxz\nyz\nz\n",    // Strings containing "z" (and "abc")
    ];
    assert_eq!(calc(Union, &args), "xyz\nabc\nxy\nxz\nx\nyz\ny\nz\n", "for {Union:?}");
    assert_eq!(calc(Intersect, &args), "xyz\nabc\n", "for {Intersect:?}");
    assert_eq!(calc(Diff, &args), "x\n", "for {Diff:?}");
    assert_eq!(calc(Single, &args), "x\nz\n", "for {Single:?}");
    assert_eq!(calc(SingleByFile, &args), "x\ny\nz\n", "for {SingleByFile:?}");
    assert_eq!(calc(Multiple, &args), "xyz\nabc\nxy\nxz\nyz\ny\n", "for {Multiple:?}");
    assert_eq!(calc(MultipleByFile, &args), "xyz\nabc\nxy\nxz\nyz\n", "for {MultipleByFile:?}");
}

type CountMap = IndexMap<String, u32>;

fn counted(operation: OpName, count: LogType, operands: &V8) -> CountMap {
    let answer = run(operation, count, operands);
    let mut result = CountMap::new();
    for line in String::from_utf8(answer).unwrap().lines() {
        let line = line.trim_start();
        let v: Vec<_> = line.splitn(2, ' ').collect();
        let count: u32 = v[0].parse().unwrap();
        result.insert(v[1].to_string(), count);
    }
    result
}

fn lines(operands: &V8) -> CountMap {
    let mut result = CountMap::new();
    for &operand in operands {
        let operand = String::from_utf8(operand.to_vec()).unwrap();
        for line in operand.lines() {
            result.entry(line.to_string()).and_modify(|c| *c += 1).or_insert(1);
        }
    }
    result
}

fn files(operands: &V8) -> CountMap {
    let mut result = CountMap::new();
    for &operand in operands {
        let operand = String::from_utf8(operand.to_vec()).unwrap();
        let mut seen = CountMap::new();
        for line in operand.lines() {
            seen.insert(line.to_string(), 1);
        }
        for line in seen.into_keys() {
            result.entry(line).and_modify(|c| *c += 1).or_insert(1);
        }
    }
    result
}

#[test]
fn check_line_count() {
    let args: Vec<&[u8]> = vec![
        b"xyz\nabc\nxy\nxz\nx\n",    // Strings containing "x" (and "abc")
        b"xyz\nabc\nxy\nyz\ny\ny\n", // Strings containing "y" (and "abc")
        b"xyz\nabc\nxz\nyz\nz\n",    // Strings containing "z" (and "abc")
    ];
    let line_count = lines(&args);
    for &op in &[Intersect, Union, Diff, Single, SingleByFile, Multiple, MultipleByFile] {
        let result = counted(op, LogType::Lines, &args);
        for line in result.keys() {
            assert_eq!(result.get(line), line_count.get(line));
        }
    }
}

#[test]
fn check_file_count() {
    let args: Vec<&[u8]> = vec![
        b"xyz\nabc\nxy\nxz\nx\n",    // Strings containing "x" (and "abc")
        b"xyz\nabc\nxy\nyz\ny\ny\n", // Strings containing "y" (and "abc")
        b"xyz\nabc\nxz\nyz\nz\n",    // Strings containing "z" (and "abc")
    ];
    let file_count = files(&args);
    for &op in &[Intersect, Union, Diff, Single, SingleByFile, Multiple, MultipleByFile] {
        let result = counted(op, LogType::Files, &args);
        for line in result.keys() {
            assert_eq!(result.get(line), file_count.get(line));
        }
    }
}

fn abc() -> Vec<&'static [u8]> {
    vec![b"xyz\nabc\nxy\nxz\nx\n", b"xyz\nabc\nxy\nyz\ny\ny\n", b"xyz\nabc\nxz\nyz\nz\n"]
}

#[test]
fn union_with_line_counts_reports_each_multiplicity() {
    // "y" occurs twice, both times in the second operand.
    let out = String::from_utf8(run(Union, LogType::Lines, &abc())).unwrap();
    let expected = "         3 xyz\n         3 abc\n         2 xy\n         2 xz\n         1 x\n         2 yz\n         2 y\n         1 z\n";
    assert_eq!(out, expected);
}

#[test]
fn union_with_file_counts_reports_each_file_count() {
    let out = String::from_utf8(run(Union, LogType::Files, &abc())).unwrap();
    let expected = "         3 xyz\n         3 abc\n         2 xy\n         2 xz\n         1 x\n         2 yz\n         1 y\n         1 z\n";
    assert_eq!(out, expected);
}

#[test]
fn count_column_is_right_justified_in_the_given_width() {
    let rest = vec![b"a\n".to_vec()];
    let out = calculate(Union, LogType::Lines, b"a\nb\n", &rest, 3).unwrap();
    assert_eq!(String::from_utf8(out).unwrap(), "  2 a\n  1 b\n");
    let out = calculate(Union, LogType::Lines, b"a\n", &[], 0).unwrap();
    assert_eq!(String::from_utf8(out).unwrap(), "1 a\n");
}

#[test]
fn empty_first_operand_gives_nothing_for_intersect_and_diff() {
    let args: Vec<&[u8]> = vec![b"", b"a\nb\n", b"b\n"];
    assert_eq!(calc(Intersect, &args), "");
    assert_eq!(calc(Diff, &args), "");
    assert_eq!(calc(Union, &args), "a\nb\n");
    assert_eq!(calc(Single, &args), "a\n");
    assert_eq!(calc(Multiple, &args), "b\n");
    assert_eq!(calc(SingleByFile, &args), "a\n");
    assert_eq!(calc(MultipleByFile, &args), "b\n");
}

#[test]
fn no_operands_at_all_but_an_empty_first_gives_nothing() {
    let args: Vec<&[u8]> = vec![b""];
    for &op in &[Intersect, Union, Diff, Single, SingleByFile, Multiple, MultipleByFile] {
        assert_eq!(calc(op, &args), "", "for {op:?}");
    }
}

#[test]
fn unterminated_last_line_is_a_line_of_its_own() {
    let args: Vec<&[u8]> = vec![b"a\nb", b"b\n"];
    assert_eq!(calc(Union, &args), "a\nbb\n");
    assert_eq!(calc(Intersect, &args), "");
    assert_eq!(calc(Diff, &args), "a\nb");
    let args: Vec<&[u8]> = vec![b"a\nb", b"b"];
    assert_eq!(calc(Intersect, &args), "b");
}

#[test]
fn empty_lines_are_lines() {
    let args: Vec<&[u8]> = vec![b"\n\na\n", b"\n"];
    assert_eq!(calc(Union, &args), "\na\n");
    assert_eq!(calc(Diff, &args), "a\n");
    assert_eq!(calc(Multiple, &args), "\n");
}

#[test]
fn union_of_an_operand_with_itself_is_its_lines_once() {
    let x: &[u8] = b"b\na\nb\nc\na\n";
    assert_eq!(calc(Union, &[x, x]), "b\na\nc\n");
    assert_eq!(calc(Union, &[x]), "b\na\nc\n");
}

#[test]
fn another_operand_never_grows_intersect_or_diff() {
    let a: &[u8] = b"p\nq\nr\ns\n";
    let b: &[u8] = b"q\nr\ns\nt\n";
    let c: &[u8] = b"s\nr\n";
    assert_eq!(calc(Intersect, &[a, b]), "q\nr\ns\n");
    assert_eq!(calc(Intersect, &[a, b, c]), "r\ns\n");
    assert_eq!(calc(Diff, &[a, c]), "p\nq\n");
    assert_eq!(calc(Diff, &[a, c, b]), "p\n");
}

#[test]
fn duplicates_within_one_file_count_as_lines_not_files() {
    let args: Vec<&[u8]> = vec![b"a\na\nb\n", b"b\n"];
    assert_eq!(calc(Single, &args), "");
    assert_eq!(calc(Multiple, &args), "a\nb\n");
    assert_eq!(calc(SingleByFile, &args), "a\n");
    assert_eq!(calc(MultipleByFile, &args), "b\n");
    let out = String::from_utf8(run(Diff, LogType::Lines, &args)).unwrap();
    assert_eq!(out, "         2 a\n");
    let out = String::from_utf8(run(Intersect, LogType::Files, &args)).unwrap();
    assert_eq!(out, "         2 b\n");
}

#[test]
fn crlf_lines_differ_from_lf_lines() {
    let args: Vec<&[u8]> = vec![b"a\r\nb\n", b"a\nb\n"];
    assert_eq!(calc(Intersect, &args), "b\n");
    assert_eq!(calc(Union, &args), "a\r\nb\na\n");
}

#[test]
fn line_based_results_depend_on_later_operands_only_through_their_bytes() {
    let first: &[u8] = b"b\nc\n";
    let split: Vec<&[u8]> = vec![first, b"a\nb\n", b"c\n", b""];
    let joined: Vec<&[u8]> = vec![first, b"a\nb\nc\n"];
    for &op in &[Union, Single, Multiple] {
        for log in [LogType::Neither, LogType::Lines] {
            assert_eq!(run(op, log, &split), run(op, log, &joined), "for {op:?}");
        }
    }
    // Operand boundaries matter to the operations that look at files.
    assert_eq!(calc(Intersect, &split), "");
    assert_eq!(calc(Intersect, &joined), "b\nc\n");
}

#[test]
fn operands_handed_in_one_at_a_time_give_what_calculate_gives() {
    let args = abc();
    for &op in &[Intersect, Union, Diff, Single, SingleByFile, Multiple, MultipleByFile] {
        for log in [LogType::Neither, LogType::Lines, LogType::Files] {
            let mut calculation = Calculation::new(op, log, args[0]);
            for operand in &args[1..] {
                let text = operand.to_vec();
                calculation.add_operand(&text).unwrap();
            }
            assert_eq!(calculation.finish(10), run(op, log, &args), "for {op:?}, {log:?}");
        }
    }
}

#[test]
fn a_calculation_with_only_its_first_operand_dedups_it() {
    let calculation = Calculation::new(Union, LogType::Lines, b"b\na\nb\n");
    assert_eq!(calculation.finish(2), b" 2 b\n 1 a\n".to_vec());
}
