//! Discrete vocabulary of the flexbox layout engine: directions, wrapping,
//! alignment, edges, measure modes, and the axis tables that map a flex
//! direction to its edges and dimension.

use vstd::prelude::*;

verus! {

/// Writing direction.
#[derive(Debug, Clone, Copy, PartialEq, Eq, Structural)]
pub enum Direction {
    Inherit,
    Ltr,
    Rtl,
}

/// Main axis of a flex container.
#[derive(Debug, Clone, Copy, PartialEq, Eq, Structural)]
pub enum FlexDirection {
    Row,
    RowReverse,
    Column,
    ColumnReverse,
}

/// Line wrapping of a flex container.
#[derive(Debug, Clone, Copy, PartialEq, Eq, Structural)]
pub enum FlexWrap {
    NoWrap,
    Wrap,
    WrapReverse,
}

/// Alignment (justify-content, align-items, align-self, align-content).
#[derive(Debug, Clone, Copy, PartialEq, Eq, Structural)]
pub enum FlexAlign {
    Auto,
    Start,
    Center,
    End,
    Stretch,
    Baseline,
    SpaceBetween,
    SpaceAround,
    SpaceEvenly,
}

/// An edge or group of edges (margins, paddings, borders, positions).
#[derive(Debug, Clone, Copy, PartialEq, Eq, Structural)]
pub enum CSSDirection {
    Left,
    Top,
    Right,
    Bottom,
    Start,
    End,
    Horizontal,
    Vertical,
    All,
    /// No edge.
    NoEdge,
}

impl CSSDirection {
    /// Slot of the edge in per-edge arrays.
    pub fn index(&self) -> (r: usize)
        ensures
            r == match *self {
                CSSDirection::Left => 0usize,
                CSSDirection::Top => 1,
                CSSDirection::Right => 2,
                CSSDirection::Bottom => 3,
                CSSDirection::Start => 4,
                CSSDirection::End => 5,
                CSSDirection::Horizontal => 6,
                CSSDirection::Vertical => 7,
                CSSDirection::All => 8,
                CSSDirection::NoEdge => 9,
            },
    {
        match self {
            CSSDirection::Left => 0,
            CSSDirection::Top => 1,
            CSSDirection::Right => 2,
            CSSDirection::Bottom => 3,
            CSSDirection::Start => 4,
            CSSDirection::End => 5,
            CSSDirection::Horizontal => 6,
            CSSDirection::Vertical => 7,
            CSSDirection::All => 8,
            CSSDirection::NoEdge => 9,
        }
    }
}

/// Width or height.
#[derive(Debug, Clone, Copy, PartialEq, Eq, Structural)]
pub enum Dimension {
    Width,
    Height,
}

impl Dimension {
    /// Slot of the dimension in size arrays.
    pub fn index(&self) -> (r: usize)
        ensures
            r == (if *self == Dimension::Width {
                0usize
            } else {
                1usize
            }),
    {
        match self {
            Dimension::Width => 0,
            Dimension::Height => 1,
        }
    }
}

/// Positioning scheme.
#[derive(Debug, Clone, Copy, PartialEq, Eq, Structural)]
pub enum PositionType {
    Relative,
    Absolute,
}

/// Whether a node takes part in layout.
#[derive(Debug, Clone, Copy, PartialEq, Eq, Structural)]
pub enum DisplayType {
    Flex,
    /// Not displayed.
    Hidden,
}

/// Kind of layout node.
#[derive(Debug, Clone, Copy, PartialEq, Eq, Structural)]
pub enum NodeType {
    Default,
    Text,
}

/// How a measured extent is constrained.
#[derive(Debug, Clone, Copy, PartialEq, Eq, Structural)]
pub enum MeasureMode {
    Undefined,
    Exactly,
    AtMost,
}

/// Layout pass, for caching and staged measuring.
#[derive(Debug, Clone, Copy, PartialEq, Eq, Structural)]
pub enum LayoutAction {
    MeasureWidth,
    MeasureHeight,
    Layout,
}

/// Measure modes of both extents.
#[derive(Debug, Clone, Copy, PartialEq, Eq, Structural)]
pub struct SizeMode {
    pub width_measure_mode: MeasureMode,
    pub height_measure_mode: MeasureMode,
}

/// Whether free space is distributed by growing or by shrinking items.
#[derive(Debug, Clone, Copy, PartialEq, Eq, Structural)]
pub enum FlexSign {
    PositiveFlexibility,
    NegativeFlexibility,
}

pub open spec fn spec_is_row(dir: FlexDirection) -> bool {
    dir == FlexDirection::Row || dir == FlexDirection::RowReverse
}

pub open spec fn spec_is_reverse(dir: FlexDirection) -> bool {
    dir == FlexDirection::RowReverse || dir == FlexDirection::ColumnReverse
}

/// Whether the main axis is horizontal.
pub fn is_row_direction(dir: FlexDirection) -> (r: bool)
    ensures
        r == spec_is_row(dir),
{
    match dir {
        FlexDirection::Row | FlexDirection::RowReverse => true,
        _ => false,
    }
}

/// Whether the main axis is vertical.
pub fn is_column_direction(dir: FlexDirection) -> (r: bool)
    ensures
        r == !spec_is_row(dir),
{
    match dir {
        FlexDirection::Column | FlexDirection::ColumnReverse => true,
        _ => false,
    }
}

/// Whether items run against the axis.
pub fn is_reverse_direction(dir: FlexDirection) -> (r: bool)
    ensures
        r == spec_is_reverse(dir),
{
    match dir {
        FlexDirection::RowReverse | FlexDirection::ColumnReverse => true,
        _ => false,
    }
}

/// The edge where the main axis starts.
pub fn axis_start(dir: FlexDirection) -> (r: CSSDirection)
    ensures
        r == match dir {
            FlexDirection::Row => CSSDirection::Left,
            FlexDirection::RowReverse => CSSDirection::Right,
            FlexDirection::Column => CSSDirection::Top,
            FlexDirection::ColumnReverse => CSSDirection::Bottom,
        },
{
    match dir {
        FlexDirection::Row => CSSDirection::Left,
        FlexDirection::RowReverse => CSSDirection::Right,
        FlexDirection::Column => CSSDirection::Top,
        FlexDirection::ColumnReverse => CSSDirection::Bottom,
    }
}

/// The edge where the main axis ends.
pub fn axis_end(dir: FlexDirection) -> (r: CSSDirection)
    ensures
        r == match dir {
            FlexDirection::Row => CSSDirection::Right,
            FlexDirection::RowReverse => CSSDirection::Left,
            FlexDirection::Column => CSSDirection::Bottom,
            FlexDirection::ColumnReverse => CSSDirection::Top,
        },
{
    match dir {
        FlexDirection::Row => CSSDirection::Right,
        FlexDirection::RowReverse => CSSDirection::Left,
        FlexDirection::Column => CSSDirection::Bottom,
        FlexDirection::ColumnReverse => CSSDirection::Top,
    }
}

/// The dimension measured along the main axis.
pub fn axis_dim(dir: FlexDirection) -> (r: Dimension)
    ensures
        r == (if spec_is_row(dir) {
            Dimension::Width
        } else {
            Dimension::Height
        }),
{
    match dir {
        FlexDirection::Row | FlexDirection::RowReverse => Dimension::Width,
        FlexDirection::Column | FlexDirection::ColumnReverse => Dimension::Height,
    }
}

} // verus!
