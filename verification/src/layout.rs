//! How a screen area is divided among the regions of the editor.
use crate::style::Rect;
use ratatui::layout::{Constraint, Direction, Layout};
use vstd::prelude::*;

verus! {

/// What a part of an area asks for: a fixed size, at least a size, or a share
/// of what the others leave.
#[derive(Debug, Clone, Copy, PartialEq, Eq, Structural)]
pub enum Size {
    Length(u16),
    Min(u16),
    Fill(u16),
}

/// Which way an area is divided: into rows, from the top down, or into columns,
/// from left to right.
#[derive(Debug, Clone, Copy, PartialEq, Eq, Structural)]
pub enum Way {
    Down,
    Across,
}

/// One stretch of an axis: where it starts and how long it is.
pub struct Stretch {
    pub start: int,
    pub len: int,
}

/// What an area covers the way it is divided. Coordinates end at `u16::MAX`.
pub open spec fn along(area: Rect, way: Way) -> Stretch {
    let (start, extent) = match way {
        Way::Down => (area.y, area.height),
        Way::Across => (area.x, area.width),
    };
    Stretch {
        start: start as int,
        len: if start + extent <= u16::MAX {
            extent as int
        } else {
            u16::MAX - start
        },
    }
}

/// What a part of an area covers.
pub open spec fn stretch(part: Rect, way: Way) -> Stretch {
    match way {
        Way::Down => Stretch { start: part.y as int, len: part.height as int },
        Way::Across => Stretch { start: part.x as int, len: part.width as int },
    }
}

/// The part of an area that covers a stretch of it.
pub open spec fn part(area: Rect, way: Way, s: Stretch) -> Rect {
    match way {
        Way::Down => Rect { y: s.start as u16, height: s.len as u16, ..area },
        Way::Across => Rect { x: s.start as u16, width: s.len as u16, ..area },
    }
}

/// What a size asks for at least.
pub open spec fn least(size: Size) -> int {
    match size {
        Size::Length(n) => n as int,
        Size::Min(n) => n as int,
        Size::Fill(_) => 0,
    }
}

/// What a list of sizes asks for at least.
pub open spec fn least_sum(sizes: Seq<Size>) -> int
    decreases sizes.len(),
{
    if sizes.len() == 0 {
        0
    } else {
        least_sum(sizes.drop_last()) + least(sizes.last())
    }
}

/// How many of the sizes are shares of what the others leave.
pub open spec fn shares(sizes: Seq<Size>) -> int
    decreases sizes.len(),
{
    if sizes.len() == 0 {
        0
    } else {
        shares(sizes.drop_last()) + if sizes.last() is Fill {
            1int
        } else {
            0
        }
    }
}

/// How many of the sizes are least sizes.
pub open spec fn minima(sizes: Seq<Size>) -> int
    decreases sizes.len(),
{
    if sizes.len() == 0 {
        0
    } else {
        minima(sizes.drop_last()) + if sizes.last() is Min {
            1int
        } else {
            0
        }
    }
}

/// Whether something takes what the fixed lengths leave: one part with a least
/// size, or no more than sixteen parts with equal shares.
pub open spec fn elastic(sizes: Seq<Size>) -> bool {
    &&& minima(sizes) == 1 && shares(sizes) == 0 || minima(sizes) == 0 && 1 <= shares(sizes) <= 16
    &&& forall|i: int|
        0 <= i < sizes.len() ==> match #[trigger] sizes[i] {
            Size::Length(_) => true,
            Size::Min(n) => n <= 0x7fff,
            Size::Fill(w) => w == 1,
        }
}

/// Whether part `i` starts where the one before it ends.
pub open spec fn follows(parts: Seq<Rect>, way: Way, i: int) -> bool {
    stretch(parts[i], way).start == stretch(parts[i - 1], way).start + stretch(
        parts[i - 1],
        way,
    ).len
}

/// Whether the parts follow on one another and cover `all`.
pub open spec fn in_a_row(parts: Seq<Rect>, way: Way, all: Stretch) -> bool {
    &&& parts.len() > 0
    &&& stretch(parts[0], way).start == all.start
    &&& forall|i: int| 1 <= i < parts.len() ==> #[trigger] follows(parts, way, i)
    &&& stretch(parts.last(), way).start + stretch(parts.last(), way).len == all.start + all.len
}

/// Whether no part is off the axis: the parts are as broad as the area.
pub open spec fn abreast(area: Rect, way: Way, parts: Seq<Rect>) -> bool {
    forall|i: int|
        0 <= i < parts.len() ==> (#[trigger] parts[i]) == part(area, way, stretch(parts[i], way))
}

/// What of `total` the other part of two gets beside a fixed length: what the
/// length leaves, but its own least size first.
pub open spec fn beside(total: int, length: int, other: int) -> int {
    if length + other <= total {
        total - length
    } else if other <= total {
        other
    } else {
        total
    }
}

/// Whether two parts, one of them of a fixed length, were dealt out: the other
/// one's least size goes first, then the length, then what is left.
pub open spec fn dealt_pair(sizes: Seq<Size>, parts: Seq<Rect>, way: Way, total: int) -> bool {
    match (sizes[0], sizes[1]) {
        (Size::Length(_), Size::Length(_)) => true,
        (Size::Length(n), other) => stretch(parts[1], way).len == beside(
            total,
            n as int,
            least(other),
        ),
        (other, Size::Length(n)) => stretch(parts[0], way).len == beside(
            total,
            n as int,
            least(other),
        ),
        _ => true,
    }
}

/// Whether every length was met, and no share is more than one cell larger than
/// another.
pub open spec fn dealt_evenly(sizes: Seq<Size>, parts: Seq<Rect>, way: Way) -> bool {
    &&& forall|i: int|
        0 <= i < sizes.len() && sizes[i] is Length ==> stretch(#[trigger] parts[i], way).len
            == least(sizes[i])
    &&& forall|i: int, j: int|
        #![trigger parts[i], parts[j]]
        0 <= i < sizes.len() && 0 <= j < sizes.len() && sizes[i] is Fill && sizes[j] is Fill
            ==> stretch(parts[i], way).len <= stretch(parts[j], way).len + 1
}

/// Whether no part got more than it asks for at least: a share then gets
/// nothing.
pub open spec fn dealt_short(sizes: Seq<Size>, parts: Seq<Rect>, way: Way) -> bool {
    forall|i: int|
        0 <= i < sizes.len() ==> stretch(#[trigger] parts[i], way).len <= least(sizes[i])
}

/// Whether `parts` are the parts of an area that sizes ask for.
pub open spec fn divided(area: Rect, way: Way, sizes: Seq<Size>, parts: Seq<Rect>) -> bool {
    let all = along(area, way);
    &&& parts.len() == sizes.len()
    &&& abreast(area, way, parts)
    &&& elastic(sizes) ==> {
        &&& least_sum(sizes) <= all.len || sizes.len() <= 3 ==> in_a_row(parts, way, all)
        &&& sizes.len() == 2 ==> dealt_pair(sizes, parts, way, all.len)
        &&& least_sum(sizes) <= all.len ==> dealt_evenly(sizes, parts, way)
        &&& sizes.len() == 3 && shares(sizes) == 1 && all.len < least_sum(sizes) ==> dealt_short(
            sizes,
            parts,
            way,
        )
    }
}

/// `Layout::split`: one area for each of the sizes, as broad as the whole.
///
/// What is claimed of them is what `Constraint` documents of its priorities: a
/// `Min` is served before a `Length`, that before a `Fill`; a `Length` is set to
/// its amount where there is room; and `Fill`s, as does a `Min` beyond its
/// amount, take the excess in proportion, which is then rounded to cells. A
/// layout has no margin and no spacing unless it is given them, so that the
/// parts follow on one another, and something that takes the excess makes them
/// cover the area. Two parts are claimed in any case; three to follow on one
/// another in any case, and to have their lengths if all fit; more of them if
/// all fit. Where two lengths and a share do not fit, the lengths go first: the
/// share gets nothing, and neither length more than its amount. How the two then
/// divide the area, and what comes out of more parts that do not fit, of
/// weighted shares or of very many, is left to the solver behind it.
#[verifier::external_body]
pub(crate) fn split(area: Rect, way: Way, sizes: &Vec<Size>) -> (r: Vec<Rect>)
    ensures
        divided(area, way, sizes@, r@),
{
    let parts = sizes.iter().map(|s| match *s {
        Size::Length(n) => Constraint::Length(n),
        Size::Min(n) => Constraint::Min(n),
        Size::Fill(n) => Constraint::Fill(n),
    });
    let direction = match way {
        Way::Down => Direction::Vertical,
        Way::Across => Direction::Horizontal,
    };
    let Rect { x, y, width, height } = area;
    let whole = ratatui::layout::Rect { x, y, width, height };
    let areas = Layout::new(direction, parts).split(whole);
    areas.iter().map(|a| Rect { x: a.x, y: a.y, width: a.width, height: a.height }).collect()
}

/// The two parts of an area that is cut after its first `at` cells.
pub open spec fn cut(area: Rect, way: Way, at: int) -> (Rect, Rect) {
    let all = along(area, way);
    (
        part(area, way, Stretch { start: all.start, len: at }),
        part(area, way, Stretch { start: all.start + at, len: all.len - at }),
    )
}

/// An area cut in two, the first part of a fixed length and the other one not
/// shorter than `other` as long as there is room.
pub open spec fn cut_front(area: Rect, way: Way, length: u16, other: int) -> (Rect, Rect) {
    let total = along(area, way).len;
    cut(area, way, total - beside(total, length as int, other))
}

/// An area cut in two, the second part of a fixed length and the first one not
/// shorter than `other` as long as there is room.
pub open spec fn cut_back(area: Rect, way: Way, other: int, length: u16) -> (Rect, Rect) {
    cut(area, way, beside(along(area, way).len, length as int, other))
}

proof fn lemma_pair(a: Size, b: Size)
    requires
        a is Length != b is Length,
        a is Min ==> a->Min_0 <= 0x7fff,
        b is Min ==> b->Min_0 <= 0x7fff,
        a is Fill ==> a->Fill_0 == 1,
        b is Fill ==> b->Fill_0 == 1,
    ensures
        elastic(seq![a, b]),
{
    let sizes = seq![a, b];
    assert(sizes.drop_last() =~= seq![a]);
    assert(seq![a].drop_last() =~= Seq::<Size>::empty());
    assert(sizes.last() == b && seq![a].last() == a);
    reveal_with_fuel(minima, 3);
    reveal_with_fuel(shares, 3);
}

/// Divides an area in two, the first part of a fixed length.
pub(crate) fn split_front(area: Rect, way: Way, length: u16, other: Size) -> (r: (Rect, Rect))
    requires
        match other {
            Size::Length(_) => false,
            Size::Min(n) => n <= 0x7fff,
            Size::Fill(w) => w == 1,
        },
    ensures
        r == cut_front(area, way, length, least(other)),
{
    let mut sizes: Vec<Size> = Vec::new();
    sizes.push(Size::Length(length));
    sizes.push(other);
    let parts = split(area, way, &sizes);
    proof {
        lemma_pair(Size::Length(length), other);
        assert(sizes@ =~= seq![Size::Length(length), other]);
        assert(follows(parts@, way, 1));
        assert(parts@[0] == part(area, way, stretch(parts@[0], way)));
        assert(parts@[1] == part(area, way, stretch(parts@[1], way)));
    }
    (parts[0], parts[1])
}

/// Divides an area in two, the second part of a fixed length.
pub(crate) fn split_back(area: Rect, way: Way, other: Size, length: u16) -> (r: (Rect, Rect))
    requires
        match other {
            Size::Length(_) => false,
            Size::Min(n) => n <= 0x7fff,
            Size::Fill(w) => w == 1,
        },
    ensures
        r == cut_back(area, way, least(other), length),
{
    let mut sizes: Vec<Size> = Vec::new();
    sizes.push(other);
    sizes.push(Size::Length(length));
    let parts = split(area, way, &sizes);
    proof {
        lemma_pair(other, Size::Length(length));
        assert(sizes@ =~= seq![other, Size::Length(length)]);
        assert(follows(parts@, way, 1));
        assert(parts@[0] == part(area, way, stretch(parts@[0], way)));
        assert(parts@[1] == part(area, way, stretch(parts@[1], way)));
    }
    (parts[0], parts[1])
}

// ---------------------------------------------------------------------------
// Columns.

/// Whether divider `i` and the column after it follow on the column before it.
pub open spec fn adjoining(columns: Seq<Rect>, dividers: Seq<Rect>, i: int) -> bool {
    &&& dividers[i].x == columns[i].x + columns[i].width
    &&& columns[i + 1].x == dividers[i].x + dividers[i].width
}

/// Whether an area is divided into columns of equal width, to a cell, with a
/// divider of one column between each two. It is as long as there is room for
/// the dividers and there are no more than sixteen columns; two columns and
/// their divider follow on one another in any case.
pub open spec fn side_by_side(area: Rect, columns: Seq<Rect>, dividers: Seq<Rect>) -> bool {
    let all = along(area, Way::Across);
    let roomy = columns.len() <= 16 && dividers.len() <= all.len;
    &&& dividers.len() == columns.len() - 1
    &&& abreast(area, Way::Across, columns)
    &&& abreast(area, Way::Across, dividers)
    &&& roomy || columns.len() <= 2 ==> {
        &&& columns[0].x == area.x
        &&& forall|i: int| 0 <= i < dividers.len() ==> #[trigger] adjoining(columns, dividers, i)
        &&& columns.last().x + columns.last().width == area.x + all.len
    }
    &&& roomy ==> {
        &&& forall|i: int| 0 <= i < dividers.len() ==> (#[trigger] dividers[i]).width == 1
        &&& forall|i: int, j: int|
            #![trigger columns[i], columns[j]]
            0 <= i < columns.len() && 0 <= j < columns.len() ==> columns[i].width
                <= columns[j].width + 1
    }
}

/// What columns and the dividers between them ask for: an equal share for each
/// column, one cell for each divider.
pub open spec fn column_size(i: int) -> Size {
    if i % 2 == 0 {
        Size::Fill(1)
    } else {
        Size::Length(1)
    }
}

proof fn lemma_column_sizes(sizes: Seq<Size>, count: int)
    requires
        0 < count,
        sizes.len() == 2 * count - 1,
        forall|i: int| 0 <= i < sizes.len() ==> (#[trigger] sizes[i]) == column_size(i),
    ensures
        minima(sizes) == 0,
        shares(sizes) == count,
        least_sum(sizes) == count - 1,
    decreases count,
{
    reveal_with_fuel(minima, 3);
    reveal_with_fuel(shares, 3);
    reveal_with_fuel(least_sum, 3);
    assert(sizes.last() == column_size(2 * (count - 1)));
    if count > 1 {
        let fewer = sizes.drop_last();
        assert(fewer.last() == column_size(2 * (count - 1) - 1));
        assert forall|i: int| 0 <= i < fewer.drop_last().len() implies (
        #[trigger] fewer.drop_last()[i]) == column_size(i) by {
            assert(sizes[i] == column_size(i));
        }
        lemma_column_sizes(fewer.drop_last(), count - 1);
    }
}

/// What `count` columns and the dividers between them ask for.
fn column_sizes(count: usize) -> (r: Vec<Size>)
    requires
        0 < count,
        2 * count - 1 <= usize::MAX,
    ensures
        r@.len() == 2 * count - 1,
        forall|i: int| 0 <= i < r@.len() ==> (#[trigger] r@[i]) == column_size(i),
{
    let mut sizes: Vec<Size> = Vec::new();
    sizes.push(Size::Fill(1));
    let mut n: usize = 1;
    while n < count
        invariant
            1 <= n <= count,
            sizes@.len() == 2 * n - 1,
            forall|i: int| 0 <= i < sizes@.len() ==> (#[trigger] sizes@[i]) == column_size(i),
        decreases count - n,
    {
        sizes.push(Size::Length(1));
        sizes.push(Size::Fill(1));
        n += 1;
    }
    sizes
}

/// Divides an area into `count` columns with a divider between each two: the
/// columns, and the dividers.
pub(crate) fn columns(area: Rect, count: usize) -> (r: (Vec<Rect>, Vec<Rect>))
    requires
        0 < count,
        2 * count - 1 <= usize::MAX,
    ensures
        r.0@.len() == count,
        side_by_side(area, r.0@, r.1@),
{
    let sizes = column_sizes(count);
    let parts = split(area, Way::Across, &sizes);
    let mut areas: Vec<Rect> = Vec::new();
    let mut dividers: Vec<Rect> = Vec::new();
    areas.push(parts[0]);
    let mut i: usize = 1;
    while i < count
        invariant
            1 <= i <= count,
            parts@.len() == 2 * count - 1,
            2 * count - 1 <= usize::MAX,
            areas@.len() == i,
            dividers@.len() == i - 1,
            forall|k: int| 0 <= k < areas@.len() ==> (#[trigger] areas@[k]) == parts@[2 * k],
            forall|k: int| 0 <= k < dividers@.len() ==> (#[trigger] dividers@[k]) == parts@[2 * k + 1],
        decreases count - i,
    {
        dividers.push(parts[2 * i - 1]);
        areas.push(parts[2 * i]);
        i += 1;
    }
    proof {
        let all = along(area, Way::Across);
        lemma_column_sizes(sizes@, count as int);
        if in_a_row(parts@, Way::Across, all) {
            assert forall|k: int| 0 <= k < dividers@.len() implies #[trigger] adjoining(
                areas@,
                dividers@,
                k,
            ) by {
                assert(follows(parts@, Way::Across, 2 * k + 1));
                assert(follows(parts@, Way::Across, 2 * k + 2));
                assert(areas@[k + 1] == parts@[2 * (k + 1)]);
            }
            assert(areas@.last() == parts@[2 * (count - 1)]);
        }
        if dealt_evenly(sizes@, parts@, Way::Across) {
            assert forall|k: int| 0 <= k < dividers@.len() implies (#[trigger] dividers@[k]).width
                == 1 by {
                assert(sizes@[2 * k + 1] == column_size(2 * k + 1));
                assert(stretch(parts@[2 * k + 1], Way::Across).len == 1);
            }
            assert forall|k: int, j: int|
                #![trigger areas@[k], areas@[j]]
                0 <= k < areas@.len() && 0 <= j < areas@.len() implies areas@[k].width
                <= areas@[j].width + 1 by {
                assert(sizes@[2 * k] == column_size(2 * k));
                assert(sizes@[2 * j] == column_size(2 * j));
                assert(stretch(parts@[2 * k], Way::Across).len <= stretch(
                    parts@[2 * j],
                    Way::Across,
                ).len + 1);
            }
        }
    }
    (areas, dividers)
}

/// What a border on all sides leaves of an extent: two cells less, from one
/// cell on; from the far end on where there is no cell.
pub open spec fn inside(start: u16, extent: u16) -> (int, int) {
    (
        if extent > 0 && start < u16::MAX {
            start + 1
        } else {
            start as int
        },
        if extent >= 2 {
            extent - 2
        } else {
            0
        },
    )
}

/// The area inside a border on all sides.
pub open spec fn bordered(area: Rect) -> Rect {
    Rect {
        x: inside(area.x, area.width).0 as u16,
        y: inside(area.y, area.height).0 as u16,
        width: inside(area.x, area.width).1 as u16,
        height: inside(area.y, area.height).1 as u16,
    }
}

fn shrink(start: u16, extent: u16) -> (r: (u16, u16))
    ensures
        r.0 == inside(start, extent).0,
        r.1 == inside(start, extent).1,
{
    let s: u16 = if extent > 0 && start < u16::MAX {
        start + 1
    } else {
        start
    };
    let e: u16 = if extent >= 2 {
        extent - 2
    } else {
        0
    };
    (s, e)
}

/// The area inside a border on all sides.
pub fn inside_border(area: Rect) -> (r: Rect)
    ensures
        r == bordered(area),
{
    let (x, width) = shrink(area.x, area.width);
    let (y, height) = shrink(area.y, area.height);
    Rect { x, y, width, height }
}

// ---------------------------------------------------------------------------
// Laws.

/// A cut divides an area without a gap: the first part starts where the area
/// starts, the second where the first ends, and it ends where the area ends; the
/// other way both are as broad as the area. The part of a fixed length has it if
/// that leaves the other one its least size.
pub proof fn cuts_tile_the_area(area: Rect, length: u16, other: int)
    requires
        area.wf(),
        0 <= other,
    ensures
        ({
            let (l, r) = cut_front(area, Way::Across, length, other);
            &&& l.x == area.x && r.x == l.x + l.width && r.x + r.width == area.x + area.width
            &&& l.y == area.y && r.y == area.y
            &&& l.height == area.height && r.height == area.height
            &&& length + other <= area.width ==> l.width == length
        }),
        ({
            let (u, d) = cut_front(area, Way::Down, length, other);
            &&& u.y == area.y && d.y == u.y + u.height && d.y + d.height == area.y + area.height
            &&& u.x == area.x && d.x == area.x
            &&& u.width == area.width && d.width == area.width
            &&& length + other <= area.height ==> u.height == length
        }),
        ({
            let (l, r) = cut_back(area, Way::Across, other, length);
            &&& l.x == area.x && r.x == l.x + l.width && r.x + r.width == area.x + area.width
            &&& l.y == area.y && r.y == area.y
            &&& l.height == area.height && r.height == area.height
            &&& length + other <= area.width ==> r.width == length
        }),
        ({
            let (u, d) = cut_back(area, Way::Down, other, length);
            &&& u.y == area.y && d.y == u.y + u.height && d.y + d.height == area.y + area.height
            &&& u.x == area.x && d.x == area.x
            &&& u.width == area.width && d.width == area.width
            &&& length + other <= area.height ==> d.height == length
        }),
{
}

/// A border takes one cell on every side.
pub proof fn borders_take_one_cell(area: Rect)
    requires
        area.wf(),
        area.width >= 2,
        area.height >= 2,
    ensures
        bordered(area).x == area.x + 1,
        bordered(area).y == area.y + 1,
        bordered(area).width + 2 == area.width,
        bordered(area).height + 2 == area.height,
{
}

} // verus!
