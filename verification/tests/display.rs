use venom_db::display::{print_results, show_value};
use venom_db::sql::ast::Value;
use venom_db::sql::number::Real;

fn rows(cells: &[&[&str]]) -> Vec<Vec<String>> {
    cells.iter().map(|r| r.iter().map(|c| c.to_string()).collect()).collect()
}

fn names(of: &[&str]) -> Vec<String> {
    of.iter().map(|n| n.to_string()).collect()
}

#[test]
fn no_rows_are_reported() {
    assert_eq!(print_results(&rows(&[]), None), "(no rows)\n");
    assert_eq!(print_results(&rows(&[]), Some(&names(&["id"]))), "(no rows)\n");
}

#[test]
fn rows_without_names_are_not_padded() {
    assert_eq!(
        print_results(&rows(&[&["1", "abc"], &["200", "d"]]), None),
        " 1 │ abc \n 200 │ d \n(2 rows)\n"
    );
}

#[test]
fn columns_are_as_wide_as_their_widest_cell() {
    assert_eq!(
        print_results(&rows(&[&["1", "x"]]), Some(&names(&["id", "name"]))),
        " id │ name \n────┼──────\n 1  │ x    \n(1 row)\n"
    );
    assert_eq!(
        print_results(&rows(&[&["1234", "x"], &["5", "abcdef"]]), Some(&names(&["id", "n"]))),
        " id   │ n      \n──────┼────────\n 1234 │ x      \n 5    │ abcdef \n(2 rows)\n"
    );
}

#[test]
fn rows_may_be_longer_or_shorter_than_the_header() {
    assert_eq!(
        print_results(&rows(&[&["1", "x", "yy"], &["2"]]), Some(&names(&["aa", "b"]))),
        " aa │ b \n────┼───\n 1  │ x │ yy \n 2  \n(2 rows)\n"
    );
}

#[test]
fn widths_count_bytes_and_padding_counts_characters() {
    // The two characters of the cell take four bytes.
    assert_eq!(
        print_results(&rows(&[&["éé"], &["a"]]), Some(&names(&["n"]))),
        " n    \n──────\n éé   \n a    \n(2 rows)\n"
    );
}

#[test]
fn values_have_a_text() {
    assert_eq!(show_value(&Value::Int(-5)), Some("-5".to_string()));
    assert_eq!(show_value(&Value::Text("a b".to_string())), Some("a b".to_string()));
    assert_eq!(show_value(&Value::Null), Some("NULL".to_string()));
    assert_eq!(show_value(&Value::Float(Real::from_bits(0))), None);
}
