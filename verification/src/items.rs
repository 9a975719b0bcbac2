//! Named items and locations, used by the grid backends under `packs`.

use vstd::prelude::*;

verus! {

/// A named rectangular item: a string identifier, a row span, a column span
/// and a display symbol.  Both spans are at least 1; the constructor coerces
/// 0 up to 1.
#[derive(Debug)]
pub struct Item {
    pub(crate) name: String,
    pub(crate) rows: u32,
    pub(crate) cols: u32,
    pub(crate) symbol: char,
}

impl Item {
    /// The identifier, as a sequence of characters.
    pub closed spec fn spec_name(self) -> Seq<char> {
        self.name@
    }

    /// The row span.
    pub closed spec fn spec_rows(self) -> u32 {
        self.rows
    }

    /// The column span.
    pub closed spec fn spec_cols(self) -> u32 {
        self.cols
    }

    /// The display symbol.
    pub closed spec fn spec_symbol(self) -> char {
        self.symbol
    }

    /// Every item occupies at least one cell in each direction.  This holds
    /// of every `Item` value by construction; `use_type_invariant` makes it
    /// available to callers.
    #[verifier::type_invariant]
    pub open spec fn wf(self) -> bool {
        self.spec_rows() >= 1 && self.spec_cols() >= 1
    }

    /// The same item with its row and column spans exchanged.
    pub closed spec fn spec_transposed(self) -> Item {
        Item { name: self.name, rows: self.cols, cols: self.rows, symbol: self.symbol }
    }

    /// Transposing exchanges the spans, keeps the name and the symbol, and
    /// is self-inverse.
    pub proof fn lemma_transposed(self)
        ensures
            self.spec_transposed().spec_name() == self.spec_name(),
            self.spec_transposed().spec_rows() == self.spec_cols(),
            self.spec_transposed().spec_cols() == self.spec_rows(),
            self.spec_transposed().spec_symbol() == self.spec_symbol(),
            self.spec_transposed().spec_transposed() == self,
    {
    }

    /// Makes an item; spans of 0 are coerced up to 1.
    pub fn new(name: &str, rows: u32, cols: u32, symbol: char) -> (item: Item)
        ensures
            item.spec_name() == name@,
            item.spec_rows() == (if rows == 0 { 1u32 } else { rows }),
            item.spec_cols() == (if cols == 0 { 1u32 } else { cols }),
            item.spec_symbol() == symbol,
    {
        let mut rows = rows;
        let mut cols = cols;
        if rows == 0 {
            rows = 1;
        }
        if cols == 0 {
            cols = 1;
        }
        Item { name: name.to_owned(), rows, cols, symbol }
    }

    /// The identifier.
    pub fn name(&self) -> (n: &str)
        ensures
            n@ == self.spec_name(),
    {
        &self.name
    }

    /// The row span.
    pub fn rows(&self) -> (n: u32)
        ensures
            n == self.spec_rows(),
    {
        self.rows
    }

    /// The column span.
    pub fn cols(&self) -> (n: u32)
        ensures
            n == self.spec_cols(),
    {
        self.cols
    }

    /// The display symbol.
    pub fn symbol(&self) -> (s: char)
        ensures
            s == self.spec_symbol(),
    {
        self.symbol
    }
}

impl Clone for Item {
    /// An exact copy.
    fn clone(&self) -> (res: Self)
        ensures
            res == *self,
    {
        proof {
            use_type_invariant(self);
        }
        Item { name: self.name.clone(), rows: self.rows, cols: self.cols, symbol: self.symbol }
    }
}

/// A grid cell: a zero-based `(row, col)` pair.
#[derive(Debug, Clone, Eq, PartialEq, PartialOrd, Ord, Copy, Structural)]
pub struct Loc {
    pub row: u32,
    pub col: u32,
}

impl Loc {
    /// Makes a location.
    pub fn new(row: u32, col: u32) -> (l: Loc)
        ensures
            l == (Loc { row, col }),
    {
        Loc { row, col }
    }

    /// The row coordinate.
    pub fn row(&self) -> (n: u32)
        ensures
            n == self.row,
    {
        self.row
    }

    /// The column coordinate.
    pub fn col(&self) -> (n: u32)
        ensures
            n == self.col,
    {
        self.col
    }
}

/// A named item anchored at a location: the anchor is the top-left cell of
/// the rectangle the item occupies.
#[derive(Debug)]
pub struct PackedItem {
    pub item: Item,
    pub loc: Loc,
}

impl Clone for PackedItem {
    /// An exact copy.
    fn clone(&self) -> (res: Self)
        ensures
            res == *self,
    {
        PackedItem { item: self.item.clone(), loc: self.loc }
    }
}

/// The rectangles of `a` and `b` share at least one cell.  Row and column
/// ranges are half-open, so rectangles that only touch do not overlap.
pub open spec fn overlaps(a: PackedItem, b: PackedItem) -> bool {
    !(a.loc.col + a.item.spec_cols() <= b.loc.col || b.loc.col + b.item.spec_cols() <= a.loc.col
        || a.loc.row + a.item.spec_rows() <= b.loc.row || b.loc.row + b.item.spec_rows()
        <= a.loc.row)
}

/// The cell `(row, col)` lies inside the rectangle of `pi`.
pub open spec fn covers(pi: PackedItem, row: int, col: int) -> bool {
    pi.loc.row <= row && row < pi.loc.row + pi.item.spec_rows() && pi.loc.col <= col && col
        < pi.loc.col + pi.item.spec_cols()
}

/// The rectangle of `pi` lies fully inside a grid of `rows` x `cols` cells.
pub open spec fn in_bounds(pi: PackedItem, rows: u32, cols: u32) -> bool {
    pi.loc.row < rows && pi.loc.col < cols && pi.loc.row + pi.item.spec_rows() <= rows
        && pi.loc.col + pi.item.spec_cols() <= cols
}

impl PackedItem {
    /// Anchors an item at `loc`.
    pub fn new(loc: Loc, item: Item) -> (pi: PackedItem)
        ensures
            pi == (PackedItem { item, loc }),
    {
        PackedItem { item, loc }
    }

    /// Gives the held item back, dropping the anchor.
    pub fn unpack(self) -> (item: Item)
        ensures
            item == self.item,
    {
        self.item
    }

    /// The anchor location.
    pub fn loc(&self) -> (l: Loc)
        ensures
            l == self.loc,
    {
        self.loc
    }

    /// The anchor's row coordinate.
    pub fn row(&self) -> (n: u32)
        ensures
            n == self.loc.row,
    {
        self.loc.row
    }

    /// The anchor's column coordinate.
    pub fn col(&self) -> (n: u32)
        ensures
            n == self.loc.col,
    {
        self.loc.col
    }

    /// The held item's identifier.
    pub fn name(&self) -> (n: &str)
        ensures
            n@ == self.item.spec_name(),
    {
        self.item.name()
    }

    /// The held item's row span.
    pub fn rows(&self) -> (n: u32)
        ensures
            n == self.item.spec_rows(),
    {
        self.item.rows()
    }

    /// The held item's column span.
    pub fn cols(&self) -> (n: u32)
        ensures
            n == self.item.spec_cols(),
    {
        self.item.cols()
    }

    /// The held item's display symbol.
    pub fn symbol(&self) -> (s: char)
        ensures
            s == self.item.spec_symbol(),
    {
        self.item.symbol()
    }

    /// Whether this item's rectangle shares a cell with `other`'s.
    pub fn intersects(&self, other: &Self) -> (res: bool)
        ensures
            res == overlaps(*self, *other),
    {
        if (self.loc.col as u64) + (self.item.cols as u64) <= (other.loc.col as u64)
            || (other.loc.col as u64) + (other.item.cols as u64) <= (self.loc.col as u64)
            || (self.loc.row as u64) + (self.item.rows as u64) <= (other.loc.row as u64)
            || (other.loc.row as u64) + (other.item.rows as u64) <= (self.loc.row as u64) {
            return false;
        }
        true
    }

    /// Whether the cell `loc` lies inside this item's rectangle.
    pub fn contains(&self, loc: &Loc) -> (res: bool)
        ensures
            res == covers(*self, loc.row as int, loc.col as int),
    {
        if self.loc.row <= loc.row && (loc.row as u64) < (self.loc.row as u64)
            + (self.item.rows as u64) && self.loc.col <= loc.col && (loc.col as u64)
            < (self.loc.col as u64) + (self.item.cols as u64) {
            return true;
        }
        false
    }

    /// Exchanges the held item's row and column spans in place; the anchor is
    /// unchanged.
    pub fn transpose(&mut self)
        ensures
            *final(self) == flipped(*old(self)),
    {
        proof {
            use_type_invariant(&self.item);
        }
        let t = self.item.rows;
        self.item.rows = self.item.cols;
        self.item.cols = t;
    }

    /// A copy of this placed item with its row and column spans exchanged;
    /// the anchor is unchanged.
    pub(crate) fn transposed(&self) -> (r: PackedItem)
        ensures
            r == flipped(*self),
    {
        proof {
            use_type_invariant(&self.item);
        }
        PackedItem {
            item: Item {
                name: self.item.name.clone(),
                rows: self.item.cols,
                cols: self.item.rows,
                symbol: self.item.symbol,
            },
            loc: self.loc,
        }
    }

    /// Re-anchors the item at `dst`.
    pub fn move_to(&mut self, dst: Loc)
        ensures
            *final(self) == (PackedItem { item: old(self).item, loc: dst }),
    {
        self.loc = dst;
    }
}

/// The whole contents of a grid is well formed: every item spans at least
/// one cell, lies inside the `rows` x `cols` extent, and no two items'
/// rectangles overlap.
pub open spec fn wf_contents(s: Seq<PackedItem>, rows: u32, cols: u32) -> bool {
    &&& forall|i: int|
        0 <= i < s.len() ==> (#[trigger] s[i]).item.wf() && in_bounds(s[i], rows, cols)
    &&& forall|i: int, j: int|
        0 <= i < s.len() && 0 <= j < s.len() && i != j ==> !overlaps(
            #[trigger] s[i],
            #[trigger] s[j],
        )
}

/// `pi` can be placed into a grid with contents `s`: it lies inside the
/// extent and overlaps no item of `s`.
pub open spec fn item_fits(s: Seq<PackedItem>, pi: PackedItem, rows: u32, cols: u32) -> bool {
    in_bounds(pi, rows, cols) && forall|i: int|
        0 <= i < s.len() ==> !overlaps(pi, #[trigger] s[i])
}

/// As `item_fits`, but the item at index `skip` is not compared against:
/// used when an item already in the grid changes shape or place, so that it
/// is not held to collide with its own old rectangle.
pub open spec fn item_fits_excluding(
    s: Seq<PackedItem>,
    pi: PackedItem,
    rows: u32,
    cols: u32,
    skip: int,
) -> bool {
    in_bounds(pi, rows, cols) && forall|i: int|
        0 <= i < s.len() && i != skip ==> !overlaps(pi, #[trigger] s[i])
}

/// Some item of `s` covers the cell `(row, col)`.
pub open spec fn covered(s: Seq<PackedItem>, row: int, col: int) -> bool {
    exists|i: int| 0 <= i < s.len() && covers(#[trigger] s[i], row, col)
}

/// An index of an item of `s` that covers the cell `(row, col)`.  In a
/// well-formed grid that item is unique.
pub open spec fn cover_index(s: Seq<PackedItem>, row: int, col: int) -> int {
    choose|i: int| 0 <= i < s.len() && covers(#[trigger] s[i], row, col)
}

/// Some item of `s` is named `name`.
pub open spec fn named(s: Seq<PackedItem>, name: Seq<char>) -> bool {
    exists|i: int| 0 <= i < s.len() && (#[trigger] s[i]).item.spec_name() == name
}

/// The first index of an item of `s` named `name`.
pub open spec fn name_index(s: Seq<PackedItem>, name: Seq<char>) -> int
    decreases s.len(),
{
    if s.len() == 0 {
        0
    } else if s[0].item.spec_name() == name {
        0
    } else {
        1 + name_index(s.drop_first(), name)
    }
}

/// When some item of `s` is named `name`, `name_index` is the first index
/// carrying that name.
pub(crate) proof fn lemma_name_index(s: Seq<PackedItem>, name: Seq<char>)
    requires
        named(s, name),
    ensures
        ({
            let i = name_index(s, name);
            &&& 0 <= i < s.len()
            &&& s[i].item.spec_name() == name
            &&& forall|j: int| 0 <= j < i ==> (#[trigger] s[j]).item.spec_name() != name
        }),
    decreases s.len(),
{
    if s.len() == 0 {
    } else if s[0].item.spec_name() == name {
    } else {
        let k = choose|k: int| 0 <= k < s.len() && (#[trigger] s[k]).item.spec_name() == name;
        assert(s.drop_first()[k - 1] == s[k]);
        assert(named(s.drop_first(), name));
        lemma_name_index(s.drop_first(), name);
        let i = name_index(s, name);
        assert(s[i] == s.drop_first()[i - 1]);
        assert forall|j: int| 0 <= j < i implies (#[trigger] s[j]).item.spec_name() != name by {
            if j > 0 {
                assert(s[j] == s.drop_first()[j - 1]);
            }
        }
    }
}

/// `pi` with its row and column spans exchanged; the anchor is unchanged.
pub open spec fn flipped(pi: PackedItem) -> PackedItem {
    PackedItem { item: pi.item.spec_transposed(), loc: pi.loc }
}

/// The character a rendering shows for the cell `(row, col)`: the symbol of
/// the covering item, or a blank when no item covers the cell.
pub open spec fn cell_symbol(s: Seq<PackedItem>, row: int, col: int) -> char {
    if covered(s, row, col) {
        s[cover_index(s, row, col)].item.spec_symbol()
    } else {
        ' '
    }
}

/// The first `ncols` cells of row `row`, each as `|` followed by the cell's
/// character.
pub open spec fn rendered_row(s: Seq<PackedItem>, row: int, ncols: int) -> Seq<char>
    decreases ncols,
{
    if ncols <= 0 {
        Seq::empty()
    } else {
        rendered_row(s, row, ncols - 1).push('|').push(cell_symbol(s, row, ncols - 1))
    }
}

/// The first `nrows` rows of the rendering, each row closed by `|` and a
/// newline.
pub open spec fn rendered(s: Seq<PackedItem>, nrows: int, ncols: int) -> Seq<char>
    decreases nrows,
{
    if nrows <= 0 {
        Seq::empty()
    } else {
        rendered(s, nrows - 1, ncols) + rendered_row(s, nrows - 1, ncols).push('|').push('\n')
    }
}

/// In a well-formed grid at most one item covers any given cell.
pub(crate) proof fn lemma_cover_unique(s: Seq<PackedItem>, rows: u32, cols: u32, row: int, col: int)
    requires
        wf_contents(s, rows, cols),
    ensures
        forall|i: int, j: int|
            0 <= i < s.len() && 0 <= j < s.len() && covers(#[trigger] s[i], row, col) && covers(
                #[trigger] s[j],
                row,
                col,
            ) ==> i == j,
{
    assert forall|i: int, j: int|
        0 <= i < s.len() && 0 <= j < s.len() && covers(#[trigger] s[i], row, col) && covers(
            #[trigger] s[j],
            row,
            col,
        ) implies i == j by {
        if i != j {
            assert(!overlaps(s[i], s[j]));
            assert(false);
        }
    }
}

/// Appending a fitting item preserves well-formedness.
pub(crate) proof fn lemma_wf_push(s: Seq<PackedItem>, pi: PackedItem, rows: u32, cols: u32)
    requires
        wf_contents(s, rows, cols),
        pi.item.wf(),
        item_fits(s, pi, rows, cols),
    ensures
        wf_contents(s.push(pi), rows, cols),
{
    let s1 = s.push(pi);
    assert forall|i: int| 0 <= i < s1.len() implies (#[trigger] s1[i]).item.wf() && in_bounds(
        s1[i],
        rows,
        cols,
    ) by {
        if i < s.len() {
            assert(s1[i] == s[i]);
        } else {
            assert(s1[i] == pi);
        }
    }
    assert forall|i: int, j: int|
        0 <= i < s1.len() && 0 <= j < s1.len() && i != j implies !overlaps(
        #[trigger] s1[i],
        #[trigger] s1[j],
    ) by {
        if i < s.len() && j < s.len() {
            assert(s1[i] == s[i] && s1[j] == s[j]);
        } else if i < s.len() {
            assert(s1[i] == s[i] && s1[j] == pi);
            assert(!overlaps(pi, s[i]));
        } else {
            assert(s1[i] == pi && s1[j] == s[j]);
            assert(!overlaps(pi, s[j]));
        }
    }
}

/// Replacing the item at `i` by one that fits (itself excluded) preserves
/// well-formedness.
pub(crate) proof fn lemma_wf_update(
    s: Seq<PackedItem>,
    rows: u32,
    cols: u32,
    i: int,
    pi: PackedItem,
)
    requires
        wf_contents(s, rows, cols),
        0 <= i < s.len(),
        pi.item.wf(),
        item_fits_excluding(s, pi, rows, cols, i),
    ensures
        wf_contents(s.update(i, pi), rows, cols),
{
    let s1 = s.update(i, pi);
    assert forall|k: int| 0 <= k < s1.len() implies (#[trigger] s1[k]).item.wf() && in_bounds(
        s1[k],
        rows,
        cols,
    ) by {
        if k != i {
            assert(s1[k] == s[k]);
        }
    }
    assert forall|k: int, l: int|
        0 <= k < s1.len() && 0 <= l < s1.len() && k != l implies !overlaps(
        #[trigger] s1[k],
        #[trigger] s1[l],
    ) by {
        if k != i && l != i {
            assert(s1[k] == s[k] && s1[l] == s[l]);
        } else if k == i {
            assert(s1[k] == pi && s1[l] == s[l]);
            assert(!overlaps(pi, s[l]));
        } else {
            assert(s1[k] == s[k] && s1[l] == pi);
            assert(!overlaps(pi, s[k]));
        }
    }
}

/// Removing the item at `i` by swapping the last item into its place
/// preserves well-formedness.
pub(crate) proof fn lemma_wf_swap_remove(s: Seq<PackedItem>, rows: u32, cols: u32, i: int)
    requires
        wf_contents(s, rows, cols),
        0 <= i < s.len(),
    ensures
        wf_contents(s.update(i, s.last()).drop_last(), rows, cols),
{
    let s1 = s.update(i, s.last()).drop_last();
    assert forall|k: int| 0 <= k < s1.len() implies (#[trigger] s1[k]).item.wf() && in_bounds(
        s1[k],
        rows,
        cols,
    ) by {
        if k == i {
            assert(s1[k] == s[s.len() - 1]);
        } else {
            assert(s1[k] == s[k]);
        }
    }
    assert forall|k: int, l: int|
        0 <= k < s1.len() && 0 <= l < s1.len() && k != l implies !overlaps(
        #[trigger] s1[k],
        #[trigger] s1[l],
    ) by {
        let gk: int = if k == i { s.len() - 1 } else { k };
        let gl: int = if l == i { s.len() - 1 } else { l };
        assert(s1[k] == s[gk]);
        assert(s1[l] == s[gl]);
        assert(!overlaps(s[gk], s[gl]));
    }
}

/// No two items placed in the same grid overlap.
pub proof fn lemma_no_two_placed_items_overlap(
    s: Seq<PackedItem>,
    rows: u32,
    cols: u32,
    i: int,
    j: int,
)
    requires
        wf_contents(s, rows, cols),
        0 <= i < s.len(),
        0 <= j < s.len(),
        i != j,
    ensures
        !overlaps(s[i], s[j]),
{
}

/// Every placed item lies inside the grid extent: its anchor coordinates
/// are in range and anchor plus span stays within the grid's rows and
/// columns.
pub proof fn lemma_placed_item_in_bounds(s: Seq<PackedItem>, rows: u32, cols: u32, i: int)
    requires
        wf_contents(s, rows, cols),
        0 <= i < s.len(),
    ensures
        in_bounds(s[i], rows, cols),
        s[i].loc.row + s[i].item.spec_rows() <= rows,
        s[i].loc.col + s[i].item.spec_cols() <= cols,
{
}

/// Adding an item and then removing it at the same location is a round
/// trip: the removal finds exactly the added item and the grid's contents
/// return to what they were before the addition.
pub proof fn lemma_add_remove_round_trip(s: Seq<PackedItem>, pi: PackedItem, rows: u32, cols: u32)
    requires
        wf_contents(s, rows, cols),
        pi.item.wf(),
        item_fits(s, pi, rows, cols),
    ensures
        ({
            let s1 = s.push(pi);
            let i = cover_index(s1, pi.loc.row as int, pi.loc.col as int);
            &&& wf_contents(s1, rows, cols)
            &&& covered(s1, pi.loc.row as int, pi.loc.col as int)
            &&& s1[i] == pi
            &&& s1.update(i, s1.last()).drop_last() == s
        }),
{
    let s1 = s.push(pi);
    lemma_wf_push(s, pi, rows, cols);
    assert(covers(s1[s.len() as int], pi.loc.row as int, pi.loc.col as int));
    assert(covered(s1, pi.loc.row as int, pi.loc.col as int));
    lemma_cover_unique(s1, rows, cols, pi.loc.row as int, pi.loc.col as int);
    let i = cover_index(s1, pi.loc.row as int, pi.loc.col as int);
    assert(0 <= i < s1.len() && covers(s1[i], pi.loc.row as int, pi.loc.col as int));
    assert(i == s.len());
    assert(s1.update(i, s1.last()).drop_last() =~= s);
}

/// Transposing an item is self-inverse: when a transposition is accepted,
/// transposing the item again is accepted too and restores the grid's
/// contents exactly.
pub proof fn lemma_transpose_self_inverse(s: Seq<PackedItem>, rows: u32, cols: u32, i: int)
    requires
        wf_contents(s, rows, cols),
        0 <= i < s.len(),
        item_fits_excluding(s, flipped(s[i]), rows, cols, i),
    ensures
        ({
            let s1 = s.update(i, flipped(s[i]));
            &&& wf_contents(s1, rows, cols)
            &&& flipped(s1[i]) == s[i]
            &&& item_fits_excluding(s1, flipped(s1[i]), rows, cols, i)
            &&& s1.update(i, flipped(s1[i])) == s
        }),
{
    assert(s[i].item.wf());
    lemma_wf_update(s, rows, cols, i, flipped(s[i]));
    let s1 = s.update(i, flipped(s[i]));
    assert(flipped(s1[i]) == s[i]);
    assert forall|j: int| 0 <= j < s1.len() && j != i implies !overlaps(s[i], #[trigger] s1[j]) by {
        assert(s1[j] == s[j]);
        assert(!overlaps(s[i], s[j]));
    }
    assert(s1.update(i, flipped(s1[i])) =~= s);
}

} // verus!
