//! The dashboard's three views and how the tabs cycle through them.

use vstd::prelude::*;

verus! {

/// The three views of the dashboard, in the order the tabs show them.
#[derive(Debug, Clone, Copy, PartialEq, Eq, Structural)]
pub enum View {
    Building,
    Log,
    System,
}

/// The position of a view among the tabs.
pub open spec fn view_index(v: View) -> int {
    match v {
        View::Building => 0,
        View::Log => 1,
        View::System => 2,
    }
}

/// The view at position `i` (taken modulo 3) among the tabs.
pub open spec fn view_at(i: int) -> View {
    if i % 3 == 0 {
        View::Building
    } else if i % 3 == 1 {
        View::Log
    } else {
        View::System
    }
}

impl View {
    /// The views in tab order.
    pub const ALL: [View; 3] = [View::Building, View::Log, View::System];

    /// The tab's title.
    pub fn label(self) -> (r: &'static str)
        ensures
            self == View::Building ==> r == "Build",
            self == View::Log ==> r == "Log",
            self == View::System ==> r == "Resources",
    {
        match self {
            View::Building => "Build",
            View::Log => "Log",
            View::System => "Resources",
        }
    }

    /// The next tab, wrapping around.
    pub fn next(self) -> (r: Self)
        ensures
            r == view_at(view_index(self) + 1),
    {
        match self {
            View::Building => View::Log,
            View::Log => View::System,
            View::System => View::Building,
        }
    }

    /// The previous tab, wrapping around.
    pub fn prev(self) -> (r: Self)
        ensures
            r == view_at(view_index(self) + 3 - 1),
    {
        match self {
            View::Building => View::System,
            View::Log => View::Building,
            View::System => View::Log,
        }
    }
}

pub open spec fn spec_next(v: View) -> View {
    view_at(view_index(v) + 1)
}

pub open spec fn spec_prev(v: View) -> View {
    view_at(view_index(v) + 3 - 1)
}

/// Going to the next tab and back, or back and then on, returns to the same
/// tab.
pub proof fn lemma_next_prev_inverse(v: View)
    ensures
        spec_prev(spec_next(v)) == v,
        spec_next(spec_prev(v)) == v,
{
}

/// Three steps forward, or three back, go all the way round.
pub proof fn lemma_next_cycle(v: View)
    ensures
        spec_next(spec_next(spec_next(v))) == v,
        spec_prev(spec_prev(spec_prev(v))) == v,
        spec_next(v) != v,
{
}

/// `view_at` enumerates the views: each tab is at its own position.
pub proof fn lemma_view_positions(v: View)
    ensures
        view_at(view_index(v)) == v,
        0 <= view_index(v) < 3,
{
}

/// The tabs come in the order Build, Log, Resources: each one's next tab is
/// the one after it, and the last one's is the first.
pub proof fn lemma_tab_order()
    ensures
        spec_next(View::Building) == View::Log,
        spec_next(View::Log) == View::System,
        spec_next(View::System) == View::Building,
        spec_prev(View::Building) == View::System,
{
}

} // verus!
