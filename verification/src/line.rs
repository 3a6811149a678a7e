//! The rows of a report and their mathematical model.

use vstd::prelude::*;

verus! {

/// The category of a diagnostic item.
#[derive(Clone, Copy, Debug, PartialEq, Eq, Structural)]
pub enum Kind {
    /// A compiler warning.
    Warning,
    /// A compiler error.
    Error,
    /// A build summary footer; tracked only to be excluded.
    Sum,
}

/// The classification of one line of the stream.
#[derive(Clone, Copy, Debug, PartialEq, Eq, Structural)]
pub enum LineType {
    /// The first line of a new item, carrying its kind.
    Title(Kind),
    /// A line that belongs to the body of the current item, or stands
    /// outside any item.
    Continuation,
}

/// Whether a classification opens a new item or section.
pub open spec fn is_title(t: LineType) -> bool {
    t matches LineType::Title(_)
}

/// One row of the finished report.
#[derive(Debug)]
pub struct Line {
    /// One-based index of the item this row belongs to; 0 means the row
    /// is part of no item.
    pub item_idx: usize,
    /// The classification of the row.
    pub line_type: LineType,
    /// The style-resolved text of the row, stored verbatim.
    pub content: String,
}

/// The mathematical model of a row.
pub struct LineV {
    pub item_idx: nat,
    pub line_type: LineType,
    pub content: Seq<char>,
}

impl View for Line {
    type V = LineV;

    open spec fn view(&self) -> LineV {
        LineV {
            item_idx: self.item_idx as nat,
            line_type: self.line_type,
            content: self.content@,
        }
    }
}

/// The models of a sequence of rows.
pub open spec fn line_views(s: Seq<Line>) -> Seq<LineV> {
    s.map_values(|l: Line| l@)
}

/// The single failure of report building: a line of the input bytes is
/// not valid text.
#[derive(Clone, Copy, Debug, PartialEq, Eq, Structural)]
pub struct DecodeError;

} // verus!
