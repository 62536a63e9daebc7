//! Areas of the screen and how they are divided.

use ratatui::layout::{Constraint, Direction, Layout, Rect as Whole};
use vstd::prelude::*;

verus! {

/// An area of the screen, in columns and rows.
#[derive(Clone, Copy, Debug, PartialEq, Eq, Structural)]
pub struct Rect {
    pub x: u16,
    pub y: u16,
    pub width: u16,
    pub height: u16,
}

impl Rect {
    /// The first column to the right of the area, as far as columns can be
    /// numbered.
    pub open spec fn right(self) -> int {
        if self.x + self.width <= u16::MAX {
            self.x + self.width
        } else {
            u16::MAX as int
        }
    }

    /// The first row below the area, as far as rows can be numbered.
    pub open spec fn bottom(self) -> int {
        if self.y + self.height <= u16::MAX {
            self.y + self.height
        } else {
            u16::MAX as int
        }
    }

    /// Whether the area ends on the screen.
    pub open spec fn on_screen(self) -> bool {
        self.x + self.width <= u16::MAX && self.y + self.height <= u16::MAX
    }

    /// Whether the area is part of another.
    pub open spec fn within(self, outer: Rect) -> bool {
        &&& outer.x <= self.x
        &&& outer.y <= self.y
        &&& self.x + self.width <= outer.right()
        &&& self.y + self.height <= outer.bottom()
    }

    /// The area inside a frame around the area.
    pub open spec fn framed(self) -> Rect {
        Rect {
            x: if self.x + 1 <= self.right() {
                (self.x + 1) as u16
            } else {
                self.x
            },
            y: if self.y + 1 <= self.bottom() {
                (self.y + 1) as u16
            } else {
                self.y
            },
            width: if self.width > 2 {
                (self.width - 2) as u16
            } else {
                0
            },
            height: if self.height > 2 {
                (self.height - 2) as u16
            } else {
                0
            },
        }
    }

    /// The area inside a frame around the area.
    pub fn inner(self) -> (r: Rect)
        ensures
            r == self.framed(),
    {
        Rect {
            x: if self.width > 0 && self.x < u16::MAX {
                self.x + 1
            } else {
                self.x
            },
            y: if self.height > 0 && self.y < u16::MAX {
                self.y + 1
            } else {
                self.y
            },
            width: self.width.saturating_sub(2),
            height: self.height.saturating_sub(2),
        }
    }
}

/// How large a part of an area is to be.
#[derive(Clone, Copy, Debug, PartialEq, Eq, Structural)]
pub enum Share {
    /// So many columns or rows.
    Length(u16),
    /// So many hundredths of the area.
    Percentage(u16),
    /// At least so many columns or rows.
    Min(u16),
}

/// How the parts of an area lie to each other.
#[derive(Clone, Copy, Debug, PartialEq, Eq, Structural)]
pub enum Axis {
    /// From top to bottom.
    Rows,
    /// From left to right.
    Columns,
}

/// Whether an area is a part of another that was divided along an axis: it
/// begins and ends within it, and is as wide, or as high, as the whole.
pub open spec fn is_part(part: Rect, area: Rect, axis: Axis) -> bool {
    match axis {
        Axis::Rows => {
            &&& part.x == area.x
            &&& part.width == area.width
            &&& area.y <= part.y
            &&& part.y + part.height <= area.bottom()
        },
        Axis::Columns => {
            &&& part.y == area.y
            &&& part.height == area.height
            &&& area.x <= part.x
            &&& part.x + part.width <= area.right()
        },
    }
}

/// No area is divided into more parts.
pub const MAX_PARTS: usize = 4;

impl Share {
    /// What is asked for before anything is divided in proportion, in
    /// hundredths of a column or row.
    pub open spec fn firm(self) -> int {
        match self {
            Share::Length(n) => 100 * n,
            Share::Percentage(_) => 0,
            Share::Min(n) => 100 * n,
        }
    }

    /// What is asked for in proportion to the whole, which has `extent`
    /// columns or rows, in hundredths of one.
    pub open spec fn soft(self, extent: int) -> int {
        match self {
            Share::Percentage(n) => n * extent,
            _ => 0,
        }
    }

    /// What a share is to have at least, in columns or rows.
    pub open spec fn minimum(self) -> int {
        match self {
            Share::Min(n) => n as int,
            _ => 0,
        }
    }

    /// What is given to a share among others that are met, in hundredths of a
    /// column or row: a percentage takes no more than the firm shares leave,
    /// and a minimum also takes what all shares leave.
    pub open spec fn granted(self, shares: Seq<Share>, extent: int) -> int {
        match self {
            Share::Length(n) => 100 * n,
            Share::Percentage(n) => if n * extent <= 100 * extent - firm(shares) {
                n * extent
            } else {
                100 * extent - firm(shares)
            },
            Share::Min(n) => 100 * n + spare(shares, extent),
        }
    }
}

/// A number for each share, added up.
pub open spec fn sum(shares: Seq<Share>, number: spec_fn(Share) -> int) -> int
    decreases shares.len(),
{
    if shares.len() == 0 {
        0
    } else {
        sum(shares.drop_last(), number) + number(shares.last())
    }
}

pub open spec fn firm(shares: Seq<Share>) -> int {
    sum(shares, |s: Share| s.firm())
}

pub open spec fn soft(shares: Seq<Share>, extent: int) -> int {
    sum(shares, |s: Share| s.soft(extent))
}

/// What is left when all shares have what they ask for.
pub open spec fn spare(shares: Seq<Share>, extent: int) -> int {
    let left = 100 * extent - firm(shares) - soft(shares, extent);
    if left > 0 {
        left
    } else {
        0
    }
}

/// How many of the shares are percentages.
pub open spec fn percentages(shares: Seq<Share>) -> int {
    sum(shares, |s: Share| if s is Percentage { 1int } else { 0 })
}

/// How many of the shares are minima.
pub open spec fn minima(shares: Seq<Share>) -> int {
    sum(shares, |s: Share| if s is Min { 1int } else { 0 })
}

/// Whether the firm shares can all be met, and the percentages too or there is
/// only one to yield; and no two shares can grow.
pub open spec fn can_be_met(shares: Seq<Share>, extent: int) -> bool {
    &&& firm(shares) <= 100 * extent
    &&& firm(shares) + soft(shares, extent) <= 100 * extent || percentages(shares) == 1
    &&& minima(shares) <= 1
}

impl Rect {
    /// How many columns or rows of the area lie on the screen.
    pub open spec fn extent(self, axis: Axis) -> int {
        match axis {
            Axis::Rows => self.bottom() - self.y,
            Axis::Columns => self.right() - self.x,
        }
    }

    /// How many columns or rows the area has.
    pub open spec fn size(self, axis: Axis) -> int {
        match axis {
            Axis::Rows => self.height as int,
            Axis::Columns => self.width as int,
        }
    }

    /// The first column or row of the area.
    pub open spec fn start(self, axis: Axis) -> int {
        match axis {
            Axis::Rows => self.y as int,
            Axis::Columns => self.x as int,
        }
    }

    /// The part of the area from one column or row up to another.
    pub open spec fn between(self, axis: Axis, from: int, to: int) -> Rect {
        match axis {
            Axis::Rows => Rect { y: from as u16, height: (to - from) as u16, ..self },
            Axis::Columns => Rect { x: from as u16, width: (to - from) as u16, ..self },
        }
    }

    /// The column or row that is nearest to a place in the area, given in
    /// hundredths of one behind its start; of two the one that is further.
    pub open spec fn edge(self, axis: Axis, hundredths: int) -> int {
        (100 * self.start(axis) + hundredths + 50) / 100
    }
}

/// What is given to the first `n` shares together.
pub open spec fn reach(shares: Seq<Share>, extent: int, n: int) -> int {
    sum(shares.take(n), |s: Share| s.granted(shares, extent))
}

/// Whether the first part begins where the area does, and each other one where
/// the one before it ends.
pub open spec fn in_a_row(parts: Seq<Rect>, area: Rect, axis: Axis) -> bool {
    &&& parts.len() > 0 ==> parts[0].start(axis) == area.start(axis)
    &&& forall|i: int, j: int|
        #![trigger parts[i], parts[j]]
        0 <= i && j == i + 1 && j < parts.len() ==> parts[j].start(axis) == parts[i].start(axis)
            + parts[i].size(axis)
}

/// Whether the last part ends where the area does, or where the screen does.
pub open spec fn reaches_the_end(parts: Seq<Rect>, area: Rect, axis: Axis) -> bool {
    parts.len() > 0 ==> parts.last().start(axis) + parts.last().size(axis) == area.start(axis)
        + area.extent(axis)
}

/// Whether an area was divided into these parts along an axis. There is a part
/// for each share, and none is smaller than its minimum where there is room
/// for the minima. Among shares of which at most one is a percentage and one a
/// minimum, the parts follow one another from the start of the area, and up to
/// its end where one is a minimum, whether or not the shares can be met. Where
/// they can, each part is as large as what its share is given.
pub open spec fn divides(
    parts: Seq<Rect>,
    area: Rect,
    axis: Axis,
    shares: Seq<Share>,
) -> bool {
    &&& parts.len() == shares.len()
    &&& forall|i: int| 0 <= i < parts.len() ==> is_part(#[trigger] parts[i], area, axis)
    &&& sum(shares, |s: Share| s.minimum()) <= area.extent(axis) ==> forall|i: int|
        0 <= i < parts.len() ==> (#[trigger] parts[i]).size(axis) >= shares[i].minimum()
    &&& percentages(shares) <= 1 && minima(shares) <= 1 ==> in_a_row(parts, area, axis) && (
    minima(shares) == 1 ==> reaches_the_end(parts, area, axis))
    &&& can_be_met(shares, area.extent(axis)) ==> forall|i: int|
        0 <= i < parts.len() ==> #[trigger] parts[i] == area.between(
            axis,
            area.edge(axis, reach(shares, area.extent(axis), i)),
            area.edge(axis, reach(shares, area.extent(axis), i + 1)),
        )
}

/// `Layout::split` of ratatui, without margins or spacing. There are as many
/// parts as shares, and each is a part of the area along the axis. A solver
/// weighs the shares against each other: that there is no space between the
/// parts and that minima are met counts most, and then, each at least ten times
/// as much as the next, lengths, percentages, that a minimum grows, that space
/// is left at the end, and that neighbours are of equal size. So there is never
/// space between the parts, nor do they overlap, a minimum takes what would be
/// left at the end, minima are met wherever there is room for them, and where the shares can be met there is one best
/// solution: each part is as large as what its share is given, and its edges
/// are rounded. Where they cannot, how large the parts are beside the minima is
/// left unsaid: lengths then yield to each other as the weakest preference has
/// it, which does not always decide. That parts follow one another is left
/// unsaid of several percentages or minima that cannot be met, whose edges may
/// fall where rounding is not certain. ratatui takes a minimum as a signed
/// number, so that larger ones would not count.
#[verifier::external_body]
pub(crate) fn split(area: Rect, axis: Axis, shares: &[Share]) -> (r: Vec<Rect>)
    requires
        shares@.len() <= MAX_PARTS,
        forall|i: int|
            0 <= i < shares@.len() ==> (#[trigger] shares@[i] matches Share::Min(n) ==> n
                <= i16::MAX),
    ensures
        divides(r@, area, axis, shares@),
{
    let direction = match axis {
        Axis::Rows => Direction::Vertical,
        Axis::Columns => Direction::Horizontal,
    };
    let constraints = shares.iter().map(|s| match *s {
        Share::Length(n) => Constraint::Length(n),
        Share::Percentage(n) => Constraint::Percentage(n),
        Share::Min(n) => Constraint::Min(n),
    });
    let whole = Whole { x: area.x, y: area.y, width: area.width, height: area.height };
    let parts = Layout::default().direction(direction).constraints(constraints).split(whole);
    parts.iter().map(|p| Rect { x: p.x, y: p.y, width: p.width, height: p.height }).collect()
}

/// A share more adds its number.
pub proof fn lemma_sum_push(shares: Seq<Share>, last: Share, number: spec_fn(Share) -> int)
    ensures
        sum(shares.push(last), number) == sum(shares, number) + number(last),
{
    assert(shares.push(last).drop_last() =~= shares);
}

/// A number for each of three shares, added up.
pub proof fn lemma_sum_three(a: Share, b: Share, c: Share, number: spec_fn(Share) -> int)
    ensures
        sum(seq![a, b, c].take(0), number) == 0,
        sum(seq![a, b, c].take(1), number) == number(a),
        sum(seq![a, b, c].take(2), number) == number(a) + number(b),
        sum(seq![a, b, c].take(3), number) == number(a) + number(b) + number(c),
        sum(seq![a, b, c], number) == number(a) + number(b) + number(c),
{
    let none = Seq::<Share>::empty();
    lemma_sum_push(none, a, number);
    lemma_sum_push(none.push(a), b, number);
    lemma_sum_push(none.push(a).push(b), c, number);
    assert(seq![a, b, c].take(0) =~= none);
    assert(seq![a, b, c].take(1) =~= none.push(a));
    assert(seq![a, b, c].take(2) =~= none.push(a).push(b));
    assert(seq![a, b, c].take(3) =~= none.push(a).push(b).push(c));
    assert(seq![a, b, c] =~= none.push(a).push(b).push(c));
}

/// A number for each of four shares, added up.
pub proof fn lemma_sum_four(
    a: Share,
    b: Share,
    c: Share,
    d: Share,
    number: spec_fn(Share) -> int,
)
    ensures
        sum(seq![a, b, c, d].take(0), number) == 0,
        sum(seq![a, b, c, d].take(1), number) == number(a),
        sum(seq![a, b, c, d].take(2), number) == number(a) + number(b),
        sum(seq![a, b, c, d].take(3), number) == number(a) + number(b) + number(c),
        sum(seq![a, b, c, d].take(4), number) == number(a) + number(b) + number(c) + number(d),
        sum(seq![a, b, c, d], number) == number(a) + number(b) + number(c) + number(d),
{
    let three = seq![a, b, c];
    lemma_sum_three(a, b, c, number);
    lemma_sum_push(three, d, number);
    assert(seq![a, b, c, d].take(0) =~= three.take(0));
    assert(seq![a, b, c, d].take(1) =~= three.take(1));
    assert(seq![a, b, c, d].take(2) =~= three.take(2));
    assert(seq![a, b, c, d].take(3) =~= three);
    assert(seq![a, b, c, d].take(4) =~= three.push(d));
    assert(seq![a, b, c, d] =~= three.push(d));
}

/// The shares of an area whose middle part takes `percent` hundredths of it.
pub open spec fn around(percent: u16) -> Seq<Share> {
    seq![
        Share::Percentage(((100 - percent) / 2) as u16),
        Share::Percentage(percent),
        Share::Percentage(((100 - percent) / 2) as u16),
    ]
}

/// The shares of an area whose middle part takes `percent` hundredths of it.
pub fn centering(percent: u16) -> (r: Vec<Share>)
    requires
        percent <= 100,
    ensures
        r@ == around(percent),
{
    let rest: u16 = (100 - percent) / 2;
    vec![Share::Percentage(rest), Share::Percentage(percent), Share::Percentage(rest)]
}

/// The middle part of an area along an axis, `percent` hundredths of it: as
/// much is left before it as behind it, to a hundredth.
pub open spec fn middle(area: Rect, axis: Axis, percent: u16) -> Rect {
    let before = (100 - percent) / 2;
    area.between(
        axis,
        area.edge(axis, before * area.extent(axis)),
        area.edge(axis, (before + percent) * area.extent(axis)),
    )
}

proof fn lemma_middle(parts: Seq<Rect>, area: Rect, axis: Axis, percent: u16)
    requires
        percent <= 100,
        divides(parts, area, axis, around(percent)),
    ensures
        parts.len() == 3,
        parts[1] == middle(area, axis, percent),
{
    let shares = around(percent);
    let extent = area.extent(axis);
    let rest = ((100 - percent) / 2) as u16;
    let (a, b) = (Share::Percentage(rest), Share::Percentage(percent));
    lemma_sum_three(a, b, a, |s: Share| s.firm());
    lemma_sum_three(a, b, a, |s: Share| s.soft(extent));
    lemma_sum_three(a, b, a, |s: Share| if s is Min { 1int } else { 0 });
    lemma_sum_three(a, b, a, |s: Share| s.granted(shares, extent));
    assert(rest * extent + percent * extent == (rest + percent) * extent) by (nonlinear_arith);
    assert((rest + percent) * extent + rest * extent == (2 * rest + percent) * extent)
        by (nonlinear_arith);
    assert((2 * rest + percent) * extent <= 100 * extent) by (nonlinear_arith)
        requires
            2 * rest + percent <= 100,
            extent >= 0,
    ;
    assert(percent * extent <= 100 * extent && rest * extent <= 100 * extent)
        by (nonlinear_arith)
        requires
            rest <= 100,
            percent <= 100,
            extent >= 0,
    ;
    assert(can_be_met(shares, extent));
    assert(parts[1] == middle(area, axis, percent));
}

/// The middle part of an area, `percent_x` hundredths wide and `percent_y`
/// hundredths high.
pub open spec fn centered(percent_x: u16, percent_y: u16, area: Rect) -> Rect {
    middle(middle(area, Axis::Rows, percent_y), Axis::Columns, percent_x)
}

/// The middle part of an area, `percent_x` hundredths wide and `percent_y`
/// hundredths high.
pub fn centered_rect(percent_x: u16, percent_y: u16, area: Rect) -> (r: Rect)
    requires
        percent_x <= 100,
        percent_y <= 100,
    ensures
        r == centered(percent_x, percent_y, area),
        area.on_screen() ==> is_centered(r, percent_x, percent_y, area),
        r.within(area),
{
    let rows = split(area, Axis::Rows, centering(percent_y).as_slice());
    proof {
        lemma_middle(rows@, area, Axis::Rows, percent_y);
    }
    let columns = split(rows[1], Axis::Columns, centering(percent_x).as_slice());
    proof {
        lemma_middle(columns@, rows@[1], Axis::Columns, percent_x);
        if area.on_screen() {
            lemma_centered(percent_x, percent_y, area);
        }
    }
    columns[1]
}

/// The column or row nearest to some hundredths of an extent behind a start.
pub open spec fn nearest(start: int, extent: int, hundredths: int) -> int {
    (100 * start + hundredths * extent + 50) / 100
}

/// Whether each edge of a part of an area is the column or row nearest to the
/// hundredths of the area that lie before it, where as many lie before the part
/// as behind it.
pub open spec fn is_centered(part: Rect, percent_x: u16, percent_y: u16, area: Rect) -> bool {
    let left = (100 - percent_x) / 2;
    let above = (100 - percent_y) / 2;
    &&& part.x == nearest(area.x as int, area.width as int, left)
    &&& part.x + part.width == nearest(area.x as int, area.width as int, left + percent_x)
    &&& part.y == nearest(area.y as int, area.height as int, above)
    &&& part.y + part.height == nearest(area.y as int, area.height as int, above + percent_y)
}

/// The middle part of an area that ends on the screen has its edges at the nearest
/// columns and rows.
pub proof fn lemma_centered(percent_x: u16, percent_y: u16, area: Rect)
    requires
        percent_x <= 100,
        percent_y <= 100,
        area.on_screen(),
    ensures
        is_centered(centered(percent_x, percent_y, area), percent_x, percent_y, area),
{
    let left = (100 - percent_x) / 2;
    let above = (100 - percent_y) / 2;
    lemma_edges(area.x as int, area.width as int, left, percent_x as int);
    lemma_edges(area.y as int, area.height as int, above, percent_y as int);
}

proof fn lemma_edges(start: int, extent: int, before: int, percent: int)
    requires
        0 <= start,
        0 <= extent,
        0 <= before,
        0 <= percent,
        before + percent <= 100,
    ensures
        start <= (100 * start + before * extent + 50) / 100 <= (100 * start + (before + percent)
            * extent + 50) / 100 <= start + extent,
{
    assert(0 <= before * extent <= (before + percent) * extent <= 100 * extent)
        by (nonlinear_arith)
        requires
            0 <= extent,
            0 <= before,
            0 <= percent,
            before + percent <= 100,
    ;
}

/// What is inside a frame lies within the framed area, where that ends on the
/// screen: one column and one row further in on each side, as far as there are so
/// many.
pub proof fn frames_hold_their_inside(area: Rect)
    requires
        area.on_screen(),
    ensures
        area.framed().within(area),
        area.width >= 2 ==> area.framed().x == area.x + 1 && area.framed().width == area.width - 2,
        area.height >= 2 ==> area.framed().y == area.y + 1 && area.framed().height == area.height
            - 2,
        area.width < 2 ==> area.framed().width == 0,
        area.height < 2 ==> area.framed().height == 0,
{
}

} // verus!
