use shelve::{ColumnNumber, GroupedData, ProcessError, Row};

const TASKS: &str = "\
Task ID,Task Title,Status,Assignee,Priority
1,Implement feature A,In Progress,John Doe,High
2,Fix bug B,Done,Jane Doe,Low
3,Write tests for feature A,In Progress,John Doe,Medium
4,Refactor code,To Do,Jane Doe,High
5,Deploy to production A and B,To Do,John Doe,Low
6,Write missing documentation for feature A,Done,Peter Foo,Medium
7,Fix bug C,To Do,Alice Bar,High
8,Write tests for feature A,In Progress,John Doe,Low
";

fn column(n: usize) -> ColumnNumber {
    ColumnNumber::new(n).expect("a non-zero column")
}

/// Group every input in turn and render the layout; also report whether a
/// record without the grouping column was skipped.
fn group(inputs: &[&str], n: usize, no_headers: bool, delimiter: char) -> (String, bool) {
    let mut groups = GroupedData::new(column(n));
    for input in inputs {
        groups.process(input.as_bytes(), no_headers, delimiter).expect("well-formed CSV");
    }
    let mut out = Vec::new();
    groups.write_to(&mut out);
    (String::from_utf8(out).expect("the layout is UTF-8"), groups.warned_missing_column())
}

fn render(input: &str, n: usize) -> String {
    group(&[input], n, false, ',').0
}

#[test]
fn status_column_groups_as_documented() {
    let expected = "\
Done:

2, Fix bug B, Jane Doe, Low
6, Write missing documentation for feature A, Peter Foo, Medium

In Progress:

1, Implement feature A, John Doe, High
3, Write tests for feature A, John Doe, Medium
8, Write tests for feature A, John Doe, Low

To Do:

4, Refactor code, Jane Doe, High
5, Deploy to production A and B, John Doe, Low
7, Fix bug C, Alice Bar, High

";
    assert_eq!(render(TASKS, 3), expected);
}

#[test]
fn priority_column_groups_as_documented() {
    let expected = "\
High:

1, Implement feature A, In Progress, John Doe
4, Refactor code, To Do, Jane Doe
7, Fix bug C, To Do, Alice Bar

Low:

2, Fix bug B, Done, Jane Doe
5, Deploy to production A and B, To Do, John Doe
8, Write tests for feature A, In Progress, John Doe

Medium:

3, Write tests for feature A, In Progress, John Doe
6, Write missing documentation for feature A, Done, Peter Foo

";
    assert_eq!(render(TASKS, 5), expected);
}

#[test]
fn assignee_column_groups_as_documented() {
    let expected = "\
Alice Bar:

7, Fix bug C, To Do, High

Jane Doe:

2, Fix bug B, Done, Low
4, Refactor code, To Do, High

John Doe:

1, Implement feature A, In Progress, High
3, Write tests for feature A, In Progress, Medium
5, Deploy to production A and B, To Do, Low
8, Write tests for feature A, In Progress, Low

Peter Foo:

6, Write missing documentation for feature A, Done, Medium

";
    assert_eq!(render(TASKS, 4), expected);
}

#[test]
fn first_column_groups_every_row_alone() {
    let expected = "\
1:

Implement feature A, In Progress, John Doe, High

2:

Fix bug B, Done, Jane Doe, Low

3:

Write tests for feature A, In Progress, John Doe, Medium

4:

Refactor code, To Do, Jane Doe, High

5:

Deploy to production A and B, To Do, John Doe, Low

6:

Write missing documentation for feature A, Done, Peter Foo, Medium

7:

Fix bug C, To Do, Alice Bar, High

8:

Write tests for feature A, In Progress, John Doe, Low

";
    assert_eq!(render(TASKS, 1), expected);
}

#[test]
fn non_adjacent_duplicate_keys_group_together() {
    let out = render(TASKS, 2);
    assert!(out.contains(
        "Write tests for feature A:\n\n3, In Progress, John Doe, Medium\n8, In Progress, John Doe, Low\n\n"
    ));
    assert_eq!(out.matches("Write tests for feature A:").count(), 1);
}

#[test]
fn two_inputs_group_into_one_layout() {
    let more = "Task ID,Task Title,Status,Assignee,Priority\n9,Ship it,Done,Jane Doe,High\n";
    let (out, warned) = group(&[TASKS, more], 5, false, ',');
    assert!(!warned);
    assert!(out.starts_with(
        "High:\n\n1, Implement feature A, In Progress, John Doe\n4, Refactor code, To Do, Jane Doe\n7, Fix bug C, To Do, Alice Bar\n9, Ship it, Done, Jane Doe\n\nLow:\n\n"
    ));
}

#[test]
fn reading_two_inputs_is_reading_them_as_one_stream() {
    let first = "id,key\n1,b\n2,a\n";
    let second = "id,key\n3,b\n4,c\n";
    let joined = "id,key\n1,b\n2,a\n3,b\n4,c\n";
    assert_eq!(group(&[first, second], 2, false, ','), group(&[joined], 2, false, ','));
}

#[test]
fn empty_input_renders_nothing() {
    assert_eq!(group(&[""], 1, false, ','), (String::new(), false));
}

#[test]
fn header_only_input_is_empty_and_silent() {
    assert_eq!(group(&["a,b,c\n"], 1, false, ','), (String::new(), false));
}

#[test]
fn too_high_column_skips_every_row_and_notes_it() {
    assert_eq!(group(&[TASKS], 20, false, ','), (String::new(), true));
    assert_eq!(group(&[TASKS], 256, false, ','), (String::new(), true));
}

#[test]
fn single_column_file_prints_headers_and_blank_rows() {
    let out = render("name\nalpha\nbeta\nalpha\n", 1);
    assert_eq!(out, "alpha:\n\n\n\n\nbeta:\n\n\n\n");
}

#[test]
fn crlf_input_leaves_no_carriage_return() {
    let out = render("id,name,status\r\n1,a,open\r\n2,b,done\r\n3,c,open\r\n", 3);
    assert!(!out.contains('\r'));
    assert_eq!(out, "done:\n\n2, b\n\nopen:\n\n1, a\n3, c\n\n");
}

#[test]
fn utf8_bom_does_not_shift_columns_or_leak() {
    let with_bom = format!("\u{feff}{TASKS}");
    assert_eq!(render(&with_bom, 1), render(TASKS, 1));
    assert!(!render(&with_bom, 1).contains('\u{feff}'));
}

#[test]
fn very_wide_row() {
    let header: Vec<String> = (1..=32).map(|c| format!("h{c}")).collect();
    let row: Vec<String> = (1..=32).map(|c| format!("v{c}")).collect();
    let input = format!("{}\n{}\n", header.join(","), row.join(","));
    let expected = format!("v1:\n\n{}\n\n", row[1..].join(", "));
    assert_eq!(render(&input, 1), expected);
    let last = format!("v32:\n\n{}\n\n", row[..31].join(", "));
    assert_eq!(render(&input, 32), last);
}

#[test]
fn groups_are_ordered_by_utf8_bytes() {
    let input = "id,city\n1,äteam\n2,🎉 party\n3,Zürich\n4,東京\n";
    let out = render(input, 2);
    let headers: Vec<&str> = out.lines().filter_map(|line| line.strip_suffix(':')).collect();
    assert_eq!(headers, vec!["Zürich", "äteam", "東京", "🎉 party"]);
}

#[test]
fn unicode_keys_survive_as_group_names() {
    let input = "id,city\n1,東京\n2,東京\n";
    assert_eq!(render(input, 2), "東京:\n\n1\n2\n\n");
}

#[test]
fn multiline_group_header_is_escaped() {
    let input = "id,name\n1,\"first\nsecond\"\n2,\"another\nmultiline\"\n3,plain\n";
    let out = render(input, 2);
    assert!(out.contains("first\\nsecond:\n"), "{out}");
    assert!(out.contains("another\\nmultiline:\n"), "{out}");
    for line in out.lines() {
        if let Some(name) = line.strip_suffix(':') {
            assert!(!name.contains('\n'));
        }
    }
}

#[test]
fn row_fields_are_not_escaped() {
    let input = "id,name\n\"a\nb\",k\n";
    assert_eq!(render(input, 2), "k:\n\na\nb\n\n");
}

#[test]
fn custom_delimiter_tab() {
    let input = "assignee\ttask\tid\nAlice\tDeploy\t1\nBob\tTriage\t2\nAlice\tRefactor\t3\n";
    let (out, _) = group(&[input], 1, false, '\t');
    assert_eq!(out, "Alice:\n\nDeploy, 1\nRefactor, 3\n\nBob:\n\nTriage, 2\n\n");
}

#[test]
fn no_headers_treats_first_record_as_data() {
    let input = "1,Deploy,John\n2,Triage,Jane\n3,Refactor,John\n";
    let (out, _) = group(&[input], 3, true, ',');
    assert_eq!(out, "Jane:\n\n2, Triage\n\nJohn:\n\n1, Deploy\n3, Refactor\n\n");
    let (with_header, _) = group(&[input], 3, false, ',');
    assert_eq!(with_header, "Jane:\n\n2, Triage\n\nJohn:\n\n3, Refactor\n\n");
}

#[test]
fn short_row_is_a_csv_error_after_earlier_rows_are_filed() {
    let mut groups = GroupedData::new(column(1));
    let result = groups.process(b"id,a,b\n1,x,y\n2,z\n", false, ',');
    match result {
        Err(ProcessError::Csv(err)) => {
            assert!(err.to_string().contains("found record with 2 fields"), "{err}");
        }
        other => panic!("expected a CSV error, got {other:?}"),
    }
    let mut out = Vec::new();
    groups.write_to(&mut out);
    assert_eq!(String::from_utf8(out).unwrap(), "1:\n\nx, y\n\n");
}

#[test]
fn non_ascii_delimiter_is_refused_and_changes_nothing() {
    let mut groups = GroupedData::new(column(1));
    match groups.process(TASKS.as_bytes(), false, 'é') {
        Err(ProcessError::UnsupportedDelimiter(c)) => assert_eq!(c, 'é'),
        other => panic!("expected an unsupported delimiter, got {other:?}"),
    }
    assert!(groups.groups().is_empty());
    assert!(!groups.warned_missing_column());
}

#[test]
fn missing_column_is_noted_once_and_stays_noted() {
    let mut groups = GroupedData::new(column(2));
    groups.process(b"a,b\n1,x\n", false, ',').unwrap();
    assert!(!groups.warned_missing_column());
    groups.process(b"a\n1\n2\n", false, ',').unwrap();
    assert!(groups.warned_missing_column());
    groups.process(b"a,b\n3,y\n", false, ',').unwrap();
    assert!(groups.warned_missing_column());
    let names: Vec<&str> = groups.groups().iter().map(|(name, _)| name.as_str()).collect();
    assert_eq!(names, vec!["x", "y"]);
}

#[test]
fn printing_rows_omits_the_grouping_column() {
    let mut groups = GroupedData::new(column(1));
    groups.process(b"key,a,b,c\ng1,keep-a,keep-b,keep-c\ng1,keep-d,keep-e,keep-f\n", false, ',').unwrap();
    let mut out: Vec<u8> = Vec::with_capacity(1 << 16);
    for (_, rows) in groups.groups() {
        groups.write_rows(rows, &mut out);
    }
    assert_eq!(String::from_utf8(out).unwrap(), "keep-a, keep-b, keep-c\nkeep-d, keep-e, keep-f\n");
}

#[test]
fn add_files_rows_in_name_order() {
    let mut groups = GroupedData::new(column(1));
    let row = |fields: &[&str]| Row::new(csv::StringRecord::from(fields.to_vec()));
    groups.add("b".to_owned(), row(&["b", "1"]));
    groups.add("a".to_owned(), row(&["a", "2"]));
    groups.add("b".to_owned(), row(&["b", "3"]));
    let listed: Vec<(String, Vec<Vec<String>>)> = groups
        .groups()
        .iter()
        .map(|(name, rows)| {
            (name.clone(), rows.iter().map(|r| r.record().iter().map(String::from).collect()).collect())
        })
        .collect();
    assert_eq!(
        listed,
        vec![
            ("a".to_owned(), vec![vec!["a".to_owned(), "2".to_owned()]]),
            (
                "b".to_owned(),
                vec![vec!["b".to_owned(), "1".to_owned()], vec!["b".to_owned(), "3".to_owned()]]
            ),
        ]
    );
    let mut out = Vec::new();
    groups.write_to(&mut out);
    assert_eq!(String::from_utf8(out).unwrap(), "a:\n\n2\n\nb:\n\n1\n3\n\n");
}

#[test]
fn rows_shorter_than_the_skipped_column_print_every_field() {
    let groups = GroupedData::new(column(3));
    let mut out = Vec::new();
    groups.write_rows(&[Row::new(csv::StringRecord::from(vec!["x", "y"]))], &mut out);
    assert_eq!(out, b"x, y\n");
}
