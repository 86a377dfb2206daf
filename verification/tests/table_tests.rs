use sheet_calc::errors::CalcError;
use sheet_calc::table::SpreadSheet2D;

fn to_number(cell: &str) -> f64 {
    cell.parse::<f64>().unwrap_or(f64::NAN)
}

fn numeric_column(sheet: &SpreadSheet2D, idx: usize) -> Vec<f64> {
    sheet
        .column_cells(idx)
        .iter()
        .map(|c| to_number(c.as_str()))
        .collect()
}

fn apply_op(op: &str, left: &[f64], right: &[f64]) -> Vec<String> {
    left.iter()
        .zip(right.iter())
        .map(|(&a, &b)| match op {
            "+" => a + b,
            "-" => a - b,
            "*" => a * b,
            "/" => a / b,
            _ => panic!("unsupported operator in test"),
        })
        .map(|x| x.to_string())
        .collect()
}

fn run_operation(sheet: &mut SpreadSheet2D, left: &str, op: &str, right: &str, name: &str) {
    let (i, j, _) = sheet.plan_operation(left, op, right).unwrap();
    let a = numeric_column(sheet, i);
    let b = numeric_column(sheet, j);
    let vals = apply_op(op, &a, &b);
    sheet.append_column(name, &vals).unwrap();
}

#[test]
fn round_trip_tab_table() {
    let text = "x\ty\n1\t2\n3\t4\n";
    let sheet = SpreadSheet2D::from_string(text.to_string(), "\t", 0).unwrap();
    assert_eq!(sheet.to_string(), text);
}

#[test]
fn round_trip_with_preamble() {
    let text = "# first note\n# second note\na,b,c\n1,2,3\n4,5,6\n";
    let sheet = SpreadSheet2D::from_string(text.to_string(), ",", 2).unwrap();
    assert_eq!(sheet.to_string(), text);
}

#[test]
fn crlf_line_endings_are_normalized() {
    let text = "x\ty\r\n1\t2\r\n";
    let sheet = SpreadSheet2D::from_string(text.to_string(), "\t", 0).unwrap();
    assert_eq!(sheet.to_string(), "x\ty\n1\t2\n");
}

#[test]
fn missing_trailing_newline_is_added_back() {
    let sheet = SpreadSheet2D::from_string("x\ty\n1\t2".to_string(), "\t", 0).unwrap();
    assert_eq!(sheet.to_string(), "x\ty\n1\t2\n");
}

#[test]
fn rows_match_header_width() {
    let text = "a;b;c\n1;2;3\n4;5;6\n";
    let sheet = SpreadSheet2D::from_string(text.to_string(), ";", 0).unwrap();
    assert_eq!(sheet.n_columns(), 3);
    assert_eq!(sheet.n_rows(), 2);
    for idx in 0..sheet.n_columns() {
        assert_eq!(sheet.column_cells(idx).len(), sheet.n_rows());
    }
}

#[test]
fn row_with_too_few_fields_is_rejected() {
    let r = SpreadSheet2D::from_string("x\ty\n1\n".to_string(), "\t", 0);
    match r {
        Err(CalcError::RowWidthMismatch { expected, found }) => {
            assert_eq!(expected, 2);
            assert_eq!(found, 1);
        }
        _ => panic!("expected a row width mismatch"),
    }
}

#[test]
fn row_with_too_many_fields_is_rejected() {
    let r = SpreadSheet2D::from_string("x\ty\n1\t2\t3\n".to_string(), "\t", 0);
    match r {
        Err(CalcError::RowWidthMismatch { expected, found }) => {
            assert_eq!(expected, 2);
            assert_eq!(found, 3);
        }
        _ => panic!("expected a row width mismatch"),
    }
}

#[test]
fn empty_input_has_no_header() {
    let r = SpreadSheet2D::from_string(String::new(), "\t", 0);
    assert!(matches!(r, Err(CalcError::MalformedInput)));
}

#[test]
fn preamble_consuming_all_lines_leaves_no_header() {
    let r = SpreadSheet2D::from_string("a\nb\n".to_string(), "\t", 5);
    assert!(matches!(r, Err(CalcError::MalformedInput)));
}

#[test]
fn short_preamble_takes_only_available_lines() {
    let sheet = SpreadSheet2D::from_string("# p\nh\n".to_string(), "\t", 1).unwrap();
    let headers = sheet.column_headers();
    assert_eq!(headers.len(), 1);
    assert_eq!(headers[0], "h");
    assert_eq!(sheet.n_rows(), 0);
    assert_eq!(sheet.to_string(), "# p\nh\n");
}

#[test]
fn operator_correctness_on_three_rows() {
    let text = "A\tB\n1\t10\n2\t20\n3\t30\n";
    let cases = [
        ("+", ["11", "22", "33"]),
        ("-", ["-9", "-18", "-27"]),
        ("*", ["10", "40", "90"]),
        ("/", ["0.1", "0.1", "0.1"]),
    ];
    for (op, expected) in cases.iter() {
        let mut sheet = SpreadSheet2D::from_string(text.to_string(), "\t", 0).unwrap();
        run_operation(&mut sheet, "A", op, "B", "R");
        let got = sheet.column_cells(2);
        let got: Vec<&str> = got.iter().map(|s| s.as_str()).collect();
        assert_eq!(got, expected.to_vec());
    }
}

#[test]
fn nan_propagates_without_error() {
    let text = "A\tB\nabc\t10\n2\t20\n";
    let mut sheet = SpreadSheet2D::from_string(text.to_string(), "\t", 0).unwrap();
    run_operation(&mut sheet, "A", "+", "B", "S");
    let got = sheet.column_cells(2);
    assert_eq!(got[0], "NaN");
    assert_eq!(got[1], "22");
}

#[test]
fn division_by_zero_follows_float_semantics() {
    let text = "A\tB\n1\t0\n0\t0\n";
    let mut sheet = SpreadSheet2D::from_string(text.to_string(), "\t", 0).unwrap();
    run_operation(&mut sheet, "A", "/", "B", "Q");
    let got = sheet.column_cells(2);
    assert_eq!(got[0], "inf");
    assert_eq!(got[1], "NaN");
}

#[test]
fn sequential_dependency_sees_earlier_result() {
    let text = "A\tB\n1\t10\n2\t20\n";
    let mut sheet = SpreadSheet2D::from_string(text.to_string(), "\t", 0).unwrap();
    run_operation(&mut sheet, "A", "+", "B", "C");
    // the second operation resolves the column the first one created
    run_operation(&mut sheet, "C", "/", "A", "D");
    let headers = sheet.column_headers();
    assert_eq!(headers.len(), 4);
    assert_eq!(headers[2], "C");
    assert_eq!(headers[3], "D");
    let got = sheet.column_cells(3);
    assert_eq!(got[0], "11");
    assert_eq!(got[1], "11");
}

#[test]
fn out_of_order_operations_are_impossible() {
    let text = "A\tB\n1\t10\n2\t20\n";
    let sheet = SpreadSheet2D::from_string(text.to_string(), "\t", 0).unwrap();
    // running the dependent operation first cannot find its input column
    let r = sheet.plan_operation("C", "/", "A");
    match r {
        Err(CalcError::ColumnNotFound { pattern }) => assert_eq!(pattern, "C"),
        _ => panic!("expected the dependent column to be missing"),
    }
}

#[test]
fn end_to_end_sum_column() {
    let text = "x\ty\n1\t2\n3\t4\n";
    let mut sheet = SpreadSheet2D::from_string(text.to_string(), "\t", 0).unwrap();
    run_operation(&mut sheet, "x", "+", "y", "sum");
    assert_eq!(sheet.to_string(), "x\ty\tsum\n1\t2\t3\n3\t4\t7\n");
}

#[test]
fn append_with_wrong_row_count_is_rejected() {
    let text = "x\ty\n1\t2\n3\t4\n";
    let mut sheet = SpreadSheet2D::from_string(text.to_string(), "\t", 0).unwrap();
    let vals = vec!["7".to_string()];
    let r = sheet.append_column("z", &vals);
    match r {
        Err(CalcError::RowCountMismatch { expected, found }) => {
            assert_eq!(expected, 2);
            assert_eq!(found, 1);
        }
        _ => panic!("expected a row count mismatch"),
    }
    // the failed append left the table unchanged
    assert_eq!(sheet.to_string(), text);
}

#[test]
fn appended_cells_keep_row_order() {
    let text = "k\nr0\nr1\nr2\n";
    let mut sheet = SpreadSheet2D::from_string(text.to_string(), "\t", 0).unwrap();
    let vals = vec!["a".to_string(), "b".to_string(), "c".to_string()];
    sheet.append_column("v", &vals).unwrap();
    assert_eq!(sheet.to_string(), "k\tv\nr0\ta\nr1\tb\nr2\tc\n");
}

#[test]
fn empty_delimiter_keeps_each_line_as_one_field() {
    let sheet = SpreadSheet2D::from_string("a\tb\n1\t2\n".to_string(), "", 0).unwrap();
    assert_eq!(sheet.n_columns(), 1);
    assert_eq!(sheet.column_headers()[0], "a\tb");
    assert_eq!(sheet.column_cells(0)[0], "1\t2");
}

#[test]
fn preamble_is_kept_verbatim_even_with_delimiters_in_it() {
    let text = "one,two,three\nh1,h2\nv1,v2\n";
    let sheet = SpreadSheet2D::from_string(text.to_string(), ",", 1).unwrap();
    assert_eq!(sheet.n_columns(), 2);
    assert_eq!(sheet.to_string(), text);
}

#[test]
fn multi_character_delimiter_round_trips() {
    let text = "a::b\n1::2\n";
    let sheet = SpreadSheet2D::from_string(text.to_string(), "::", 0).unwrap();
    assert_eq!(sheet.n_columns(), 2);
    assert_eq!(sheet.to_string(), text);
}
