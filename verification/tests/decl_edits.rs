use fortitude::decl_edits::{add_attribute_to_var_decl, remove_from_comma_sep_stmt, RemovalError};
use fortitude::diagnostics::Edit;
use fortitude::range::TextRange;
use fortitude::source::SourceFile;

const CODE: &str = "
program foo
  integer :: x, Y(4), z = 5
  real, pointer :: a => null()
  integer :: d, &
     e &
     , f
end program foo
";

fn deletion(e: &Result<Edit, RemovalError>) -> (u32, u32) {
    let e = e.as_ref().unwrap();
    assert!(e.content.is_none());
    (e.range.start, e.range.end)
}

#[test]
fn remove_from_variable_stmt() {
    let file = SourceFile::new("test.f90".to_string(), CODE);
    // The declarators of the first statement, and where the comma after each ends.
    let first = vec![TextRange::new(26, 27), TextRange::new(29, 33), TextRange::new(35, 40)];
    let first_stmt = TextRange::new(15, 40);
    let x = remove_from_comma_sep_stmt(first[0], first_stmt, &first, Some(28), &file);
    assert_eq!(deletion(&x), (26, 28));
    let y = remove_from_comma_sep_stmt(first[1], first_stmt, &first, Some(34), &file);
    assert_eq!(deletion(&y), (29, 34));
    let z = remove_from_comma_sep_stmt(first[2], first_stmt, &first, None, &file);
    assert_eq!(deletion(&z), (33, 40));

    let second = vec![TextRange::new(60, 71)];
    let a = remove_from_comma_sep_stmt(second[0], TextRange::new(43, 71), &second, None, &file);
    assert_eq!(deletion(&a), (41, 72));

    let third = vec![TextRange::new(85, 86), TextRange::new(95, 96), TextRange::new(106, 107)];
    let e = remove_from_comma_sep_stmt(third[1], TextRange::new(75, 107), &third, Some(105), &file);
    assert_eq!(deletion(&e), (95, 105));
}

#[test]
fn removal_needs_a_trailing_comma() {
    let file = SourceFile::new("test.f90".to_string(), CODE);
    let first = vec![TextRange::new(26, 27), TextRange::new(29, 33)];
    let r = remove_from_comma_sep_stmt(first[0], TextRange::new(15, 40), &first, None, &file);
    assert_eq!(r.unwrap_err(), RemovalError::NoTrailingComma);
}

#[test]
fn add_attr() {
    // integer x / integer :: y / integer, save, allocatable, value :: z
    let x = add_attribute_to_var_decl(22, None, false, "parameter");
    assert_eq!(x.content.as_deref(), Some(", parameter ::"));
    assert_eq!(x.range, TextRange::new(22, 22));
    let y = add_attribute_to_var_decl(34, None, true, "parameter");
    assert_eq!(y.content.as_deref(), Some(", parameter"));
    assert_eq!(y.range, TextRange::new(34, 34));
    let z = add_attribute_to_var_decl(55, Some(75), true, "parameter");
    assert_eq!(z.content.as_deref(), Some(", parameter"));
    assert_eq!(z.range, TextRange::new(75, 75));
}
