//! Rows of a tree diagram: what a caller needs to draw a tree line by line
//! without seeing its nodes.

use vstd::prelude::*;

verus! {

/// Where a row hangs: at the very top, or as the left or right child of the
/// row it is drawn below.
#[derive(Clone, Copy, Debug, PartialEq, Eq, Structural)]
pub enum Branch {
    Root,
    Left,
    Right,
}

impl Branch {
    /// Whether a vertical guide runs on below this row: true for the root and
    /// for a left child, which still has a sibling to come.
    pub open spec fn guides_on(self) -> bool {
        self != Branch::Right
    }

    /// See [`Branch::guides_on`].
    pub fn is_guide(self) -> (on: bool)
        ensures
            on == self.guides_on(),
    {
        match self {
            Branch::Right => false,
            _ => true,
        }
    }
}

/// One line of a diagram. `guides` has one flag for each ancestor, outermost
/// first, telling whether a vertical guide is drawn in that column; `entry`
/// is what the node holds, or `None` for an absent child.
#[derive(Debug)]
pub struct DiagramRow<E> {
    pub guides: Vec<bool>,
    pub branch: Branch,
    pub entry: Option<E>,
}

/// A row as plain values.
pub type RowView<E> = (Seq<bool>, Branch, Option<E>);

impl<E> View for DiagramRow<E> {
    type V = RowView<E>;

    open spec fn view(&self) -> RowView<E> {
        (self.guides@, self.branch, self.entry)
    }
}

/// `rows` shows exactly the lines `lines`, in order.
pub open spec fn depicts<E>(rows: Seq<DiagramRow<E>>, lines: Seq<RowView<E>>) -> bool {
    &&& rows.len() == lines.len()
    &&& forall|i: int| 0 <= i < rows.len() ==> (#[trigger] rows[i])@ == lines[i]
}

} // verus!
