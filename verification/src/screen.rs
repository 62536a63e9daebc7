//! What the screen shows, and in which order.

use crate::tree::ChildOrder;
use vstd::prelude::*;

verus! {

/// What is on the screen.
#[derive(Clone, Copy, Debug, PartialEq, Eq, Structural)]
pub enum View {
    Scanning,
    Browser,
    Help,
    DeleteConfirm,
}

/// The order in which a directory's children are listed.
#[derive(Clone, Copy, Debug, PartialEq, Eq, Structural)]
pub enum SortOrder {
    SizeDesc,
    SizeAsc,
    NameAsc,
    NameDesc,
}

impl SortOrder {
    /// The order that follows when the user asks for the next one.
    pub open spec fn following(self) -> SortOrder {
        match self {
            SortOrder::SizeDesc => SortOrder::SizeAsc,
            SortOrder::SizeAsc => SortOrder::NameAsc,
            SortOrder::NameAsc => SortOrder::NameDesc,
            SortOrder::NameDesc => SortOrder::SizeDesc,
        }
    }

    pub fn next(self) -> (r: SortOrder)
        ensures
            r == self.following(),
    {
        match self {
            SortOrder::SizeDesc => SortOrder::SizeAsc,
            SortOrder::SizeAsc => SortOrder::NameAsc,
            SortOrder::NameAsc => SortOrder::NameDesc,
            SortOrder::NameDesc => SortOrder::SizeDesc,
        }
    }

    /// The order that follows when the user asks for the names: ascending,
    /// and descending if they ascend already.
    pub open spec fn toward_names(self) -> SortOrder {
        if self == SortOrder::NameAsc {
            SortOrder::NameDesc
        } else {
            SortOrder::NameAsc
        }
    }

    pub fn by_name(self) -> (r: SortOrder)
        ensures
            r == self.toward_names(),
    {
        match self {
            SortOrder::NameAsc => SortOrder::NameDesc,
            _ => SortOrder::NameAsc,
        }
    }

    /// The order as one of nodes.
    pub open spec fn of_children(self) -> ChildOrder {
        match self {
            SortOrder::SizeDesc => ChildOrder::SizeDesc,
            SortOrder::SizeAsc => ChildOrder::SizeAsc,
            SortOrder::NameAsc => ChildOrder::NameAsc,
            SortOrder::NameDesc => ChildOrder::NameDesc,
        }
    }
}

/// Asking for the next order four times leads back to the first, and no
/// sooner.
pub proof fn four_orders_cycle(order: SortOrder)
    ensures
        order.following().following().following().following() == order,
        order.following() != order,
        order.following().following() != order,
{
}

/// Asking for the names orders them ascending, unless they are; each further
/// time turns them around.
pub proof fn names_turn_around(order: SortOrder)
    ensures
        order != SortOrder::NameAsc ==> order.toward_names() == SortOrder::NameAsc,
        order.toward_names() != order,
        order.toward_names().toward_names() == if order == SortOrder::NameAsc {
            SortOrder::NameAsc
        } else {
            SortOrder::NameDesc
        },
{
}

} // verus!
