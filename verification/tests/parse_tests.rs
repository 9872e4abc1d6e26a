use wlshot::parse::parse_geometry;

#[test]
fn parses_plain_region() {
    assert_eq!(parse_geometry("10,20 300x400"), Some((10, 20, 300, 400)));
}

#[test]
fn rejects_single_token() {
    assert_eq!(parse_geometry("bad"), None);
}

#[test]
fn rejects_coords_only() {
    assert_eq!(parse_geometry("10,20"), None);
}

#[test]
fn rejects_missing_dimension_separator() {
    assert_eq!(parse_geometry("10,20 300"), None);
}

#[test]
fn rejects_non_numeric_coords() {
    assert_eq!(parse_geometry("a,b 1x1"), None);
}

#[test]
fn parses_negative_coordinates() {
    assert_eq!(parse_geometry("-10,-20 5x6"), Some((-10, -20, 5, 6)));
}

#[test]
fn parses_plus_signs() {
    assert_eq!(parse_geometry("+1,+2 3x4"), Some((1, 2, 3, 4)));
}

#[test]
fn parses_extreme_values() {
    assert_eq!(
        parse_geometry("2147483647,-2147483648 4294967295x1"),
        Some((2147483647, -2147483648, 4294967295, 1))
    );
}

#[test]
fn rejects_out_of_range_values() {
    assert_eq!(parse_geometry("2147483648,0 1x1"), None);
    assert_eq!(parse_geometry("0,0 4294967296x1"), None);
    assert_eq!(parse_geometry("99999999999,0 1x1"), None);
}

#[test]
fn parses_values_with_leading_zeros() {
    assert_eq!(parse_geometry("007,08 0009x010"), Some((7, 8, 9, 10)));
}

#[test]
fn rejects_extra_whitespace() {
    assert_eq!(parse_geometry("10,20  300x400"), None);
    assert_eq!(parse_geometry(" 10,20 300x400"), None);
    assert_eq!(parse_geometry("10,20 300x400 "), None);
}

#[test]
fn rejects_extra_separators() {
    assert_eq!(parse_geometry("10,20,30 1x1"), None);
    assert_eq!(parse_geometry("10,20 1x1x1"), None);
}

#[test]
fn rejects_empty_fields() {
    assert_eq!(parse_geometry(""), None);
    assert_eq!(parse_geometry(",1 1x1"), None);
    assert_eq!(parse_geometry("1,1 x1"), None);
    assert_eq!(parse_geometry("1,1 1x"), None);
    assert_eq!(parse_geometry("-,1 1x1"), None);
}

#[test]
fn rejects_negative_dimensions() {
    assert_eq!(parse_geometry("0,0 -1x1"), None);
    assert_eq!(parse_geometry("0,0 1x-1"), None);
}
