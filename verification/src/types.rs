use vstd::prelude::*;

verus! {

/// The orders in which search results can be listed.
#[derive(PartialEq, Eq, Structural, Clone, Copy, Debug)]
pub enum SortOrder {
    NameAsc,
    NameDesc,
    PathAsc,
    PathDesc,
    SizeAsc,
    SizeDesc,
    ModifiedAsc,
    ModifiedDesc,
}

/// The text shown for a sort order in the sort menu.
pub open spec fn sort_order_label(order: SortOrder) -> Seq<char> {
    match order {
        SortOrder::NameAsc => "Name (Asc)"@,
        SortOrder::NameDesc => "Name (Des)"@,
        SortOrder::PathAsc => "Path (Asc)"@,
        SortOrder::PathDesc => "Path (Des)"@,
        SortOrder::SizeAsc => "Size (Asc)"@,
        SortOrder::SizeDesc => "Size (Des)"@,
        SortOrder::ModifiedAsc => "Modified (Asc)"@,
        SortOrder::ModifiedDesc => "Modified (Des)"@,
    }
}

impl SortOrder {
    /// Every sort order, in the order the menu lists them.
    pub fn all() -> (r: Vec<SortOrder>)
        ensures
            r@ == seq![
                SortOrder::NameAsc,
                SortOrder::NameDesc,
                SortOrder::PathAsc,
                SortOrder::PathDesc,
                SortOrder::SizeAsc,
                SortOrder::SizeDesc,
                SortOrder::ModifiedAsc,
                SortOrder::ModifiedDesc,
            ],
    {
        vec![
            SortOrder::NameAsc,
            SortOrder::NameDesc,
            SortOrder::PathAsc,
            SortOrder::PathDesc,
            SortOrder::SizeAsc,
            SortOrder::SizeDesc,
            SortOrder::ModifiedAsc,
            SortOrder::ModifiedDesc,
        ]
    }

    /// The text shown for the order in the sort menu.
    pub fn label(self) -> (r: &'static str)
        ensures
            r@ == sort_order_label(self),
    {
        match self {
            SortOrder::NameAsc => "Name (Asc)",
            SortOrder::NameDesc => "Name (Des)",
            SortOrder::PathAsc => "Path (Asc)",
            SortOrder::PathDesc => "Path (Des)",
            SortOrder::SizeAsc => "Size (Asc)",
            SortOrder::SizeDesc => "Size (Des)",
            SortOrder::ModifiedAsc => "Modified (Asc)",
            SortOrder::ModifiedDesc => "Modified (Des)",
        }
    }
}

/// One search result: where it is, whether it is a directory, its size in
/// bytes and its modification time in seconds since the Unix epoch (0 where
/// unknown).
#[derive(Clone, Debug)]
pub struct ResultEntry {
    pub path: String,
    pub is_dir: bool,
    pub size: u64,
    pub modified: i64,
}

/// Where a search stands.
#[derive(PartialEq, Eq, Structural, Clone, Copy, Debug)]
pub enum SearchStatus {
    Idle,
    Searching,
    Done,
}

/// The text field that gets the keyboard focus after a search starts.
#[derive(PartialEq, Eq, Structural, Clone, Copy, Debug)]
pub enum FocusTarget {
    Pattern,
    Ext,
    Exclude,
}

/// How the results are laid out.
#[derive(PartialEq, Eq, Structural, Clone, Copy, Debug)]
pub enum ResultView {
    Aligned,
    Fluid,
    Simple,
}

impl Default for ResultView {
    fn default() -> (r: ResultView)
        ensures
            r == ResultView::Aligned,
    {
        ResultView::Aligned
    }
}

/// The text shown for a layout in the view menu.
pub open spec fn result_view_label(view: ResultView) -> Seq<char> {
    match view {
        ResultView::Aligned => "Table (aligned)"@,
        ResultView::Fluid => "Table (fluid)"@,
        ResultView::Simple => "Table (compact)"@,
    }
}

impl ResultView {
    /// The text shown for the layout in the view menu.
    pub fn label(self) -> (r: &'static str)
        ensures
            r@ == result_view_label(self),
    {
        match self {
            ResultView::Aligned => "Table (aligned)",
            ResultView::Fluid => "Table (fluid)",
            ResultView::Simple => "Table (compact)",
        }
    }
}

} // verus!
