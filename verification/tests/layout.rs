use lieui::layout_types::{
    axis_dim, axis_end, axis_start, is_column_direction, is_reverse_direction, is_row_direction,
    CSSDirection, Dimension, FlexDirection,
};

#[test]
fn direction_predicates() {
    assert!(is_row_direction(FlexDirection::Row));
    assert!(is_row_direction(FlexDirection::RowReverse));
    assert!(!is_row_direction(FlexDirection::Column));
    assert!(is_column_direction(FlexDirection::ColumnReverse));
    assert!(!is_column_direction(FlexDirection::Row));
    assert!(is_reverse_direction(FlexDirection::RowReverse));
    assert!(is_reverse_direction(FlexDirection::ColumnReverse));
    assert!(!is_reverse_direction(FlexDirection::Column));
}

#[test]
fn axis_tables() {
    assert_eq!(axis_start(FlexDirection::Row), CSSDirection::Left);
    assert_eq!(axis_end(FlexDirection::RowReverse), CSSDirection::Left);
    assert_eq!(axis_start(FlexDirection::ColumnReverse), CSSDirection::Bottom);
    assert_eq!(axis_end(FlexDirection::Column), CSSDirection::Bottom);
    assert_eq!(axis_dim(FlexDirection::RowReverse), Dimension::Width);
    assert_eq!(axis_dim(FlexDirection::Column), Dimension::Height);
    assert_eq!(CSSDirection::Bottom.index(), 3);
    assert_eq!(CSSDirection::NoEdge.index(), 9);
    assert_eq!(Dimension::Height.index(), 1);
}
