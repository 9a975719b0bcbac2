//! A bounded two-dimensional grid that holds non-overlapping rectangular
//! items, with placement, removal, relocation and in-place rotation
//! (transposition), all validated against the grid's extent and contents.
//!
//! The crate root holds the simplest variant: anonymous items addressed by
//! bare `(row, col)` coordinate pairs.  The `items` module holds named items
//! with a dedicated `Loc` type, used by the backends under `packs`.

use vstd::prelude::*;

pub mod items;
pub mod packs;

verus! {

/// Relies on `String::push`: appends the given character to the end of the string.
pub assume_specification[ String::push ](s: &mut String, ch: char)
    ensures
        final(s)@ == old(s)@.push(ch),
;

/// Why a grid operation was refused.  The grid is left unchanged whenever one
/// of these is returned.
///
/// A selector that matches no item is reported as `NotFound` by `transpose`
/// and `move` operations on every backend, so that absence is handled one way
/// throughout the crate.
#[derive(Debug, Clone, Copy, PartialEq, Eq, Structural)]
pub enum PackError {
    /// The candidate rectangle is not fully inside the grid extent.
    Bounds,
    /// The candidate rectangle intersects an already placed item.
    Overlap,
    /// The transposed rectangle would leave the grid or hit another item.
    InvalidTranspose,
    /// The relocated rectangle would leave the grid or hit another item.
    InvalidMove,
    /// No placed item matches the given selector.
    NotFound,
}

impl PackError {
    /// A human-readable description, for callers that surface errors as text.
    pub fn message(&self) -> (s: &'static str)
        ensures
            match self {
                PackError::Bounds => s@ == "Item placement is invalid"@,
                PackError::Overlap => s@ == "Item intersects existing Pack contents."@,
                PackError::InvalidTranspose => s@ == "Invalid transposition."@,
                PackError::InvalidMove => s@ == "Invalid move"@,
                PackError::NotFound => s@ == "No item at the given location"@,
            },
    {
        match self {
            PackError::Bounds => "Item placement is invalid",
            PackError::Overlap => "Item intersects existing Pack contents.",
            PackError::InvalidTranspose => "Invalid transposition.",
            PackError::InvalidMove => "Invalid move",
            PackError::NotFound => "No item at the given location",
        }
    }
}

/// A rectangular item: a row span, a column span and a display symbol.
/// Both spans are at least 1; the constructor coerces 0 up to 1.
#[derive(Debug)]
pub struct Item {
    pub(crate) rows: u32,
    pub(crate) cols: u32,
    pub(crate) symbol: char,
}

impl Item {
    /// The row span.
    pub closed spec fn spec_rows(self) -> u32 {
        self.rows
    }

    /// The column span.
    pub closed spec fn spec_cols(self) -> u32 {
        self.cols
    }

    /// The display symbol.
    pub closed spec fn spec_symbol(self) -> char {
        self.symbol
    }

    /// The same item with its row and column spans exchanged.
    pub closed spec fn spec_transposed(self) -> Item {
        Item { rows: self.cols, cols: self.rows, symbol: self.symbol }
    }

    /// Every item occupies at least one cell in each direction.  This holds
    /// of every `Item` value by construction; `use_type_invariant` makes it
    /// available to callers.
    #[verifier::type_invariant]
    pub open spec fn wf(self) -> bool {
        self.spec_rows() >= 1 && self.spec_cols() >= 1
    }

    /// Transposing exchanges the spans, keeps the symbol, and is self-inverse.
    pub proof fn lemma_transposed(self)
        ensures
            self.spec_transposed().spec_rows() == self.spec_cols(),
            self.spec_transposed().spec_cols() == self.spec_rows(),
            self.spec_transposed().spec_symbol() == self.spec_symbol(),
            self.spec_transposed().spec_transposed() == self,
    {
    }

    /// Makes an item; spans of 0 are coerced up to 1.
    pub fn new(rows: u32, cols: u32, symbol: char) -> (item: Item)
        ensures
            item.spec_rows() == (if rows == 0 { 1u32 } else { rows }),
            item.spec_cols() == (if cols == 0 { 1u32 } else { cols }),
            item.spec_symbol() == symbol,
    {
        let mut rows = rows;
        let mut cols = cols;
        if rows == 0 {
            rows = 1;
        }
        if cols == 0 {
            cols = 1;
        }
        Item { rows, cols, symbol }
    }
}

impl Clone for Item {
    /// An exact copy.
    fn clone(&self) -> (res: Self)
        ensures
            res == *self,
    {
        proof {
            use_type_invariant(self);
        }
        Item { rows: self.rows, cols: self.cols, symbol: self.symbol }
    }
}

/// An item anchored at a grid cell: the anchor is the top-left cell of the
/// rectangle the item occupies.
#[derive(Debug)]
pub struct PackedItem {
    pub r: u32,
    pub c: u32,
    pub item: Item,
}

/// The rectangles of `a` and `b` share at least one cell.  Row and column
/// ranges are half-open, so rectangles that only touch do not overlap.
pub open spec fn overlaps(a: PackedItem, b: PackedItem) -> bool {
    !(a.c + a.item.spec_cols() <= b.c || b.c + b.item.spec_cols() <= a.c || a.r
        + a.item.spec_rows() <= b.r || b.r + b.item.spec_rows() <= a.r)
}

/// The cell `(row, col)` lies inside the rectangle of `pi`.
pub open spec fn covers(pi: PackedItem, row: int, col: int) -> bool {
    pi.r <= row && row < pi.r + pi.item.spec_rows() && pi.c <= col && col < pi.c
        + pi.item.spec_cols()
}

/// The rectangle of `pi` lies fully inside a grid of `rows` x `cols` cells.
pub open spec fn in_bounds(pi: PackedItem, rows: u32, cols: u32) -> bool {
    pi.r < rows && pi.c < cols && pi.r + pi.item.spec_rows() <= rows && pi.c
        + pi.item.spec_cols() <= cols
}

impl Clone for PackedItem {
    /// An exact copy.
    fn clone(&self) -> (res: Self)
        ensures
            res == *self,
    {
        PackedItem { r: self.r, c: self.c, item: self.item.clone() }
    }
}

impl PackedItem {
    /// Anchors an item at `(r, c)`.
    pub fn new(r: u32, c: u32, item: Item) -> (pi: PackedItem)
        ensures
            pi == (PackedItem { r, c, item }),
    {
        PackedItem { r, c, item }
    }

    /// The display symbol of the held item.
    pub fn symbol(&self) -> (s: char)
        ensures
            s == self.item.spec_symbol(),
    {
        self.item.symbol
    }

    /// Whether this item's rectangle shares a cell with `other`'s.
    pub fn intersects(&self, other: &Self) -> (res: bool)
        ensures
            res == overlaps(*self, *other),
    {
        if (self.c as u64) + (self.item.cols as u64) <= (other.c as u64) || (other.c as u64)
            + (other.item.cols as u64) <= (self.c as u64) || (self.r as u64)
            + (self.item.rows as u64) <= (other.r as u64) || (other.r as u64)
            + (other.item.rows as u64) <= (self.r as u64) {
            return false;
        }
        true
    }

    /// Whether the cell `loc` lies inside this item's rectangle.
    pub fn contains(&self, loc: (u32, u32)) -> (res: bool)
        ensures
            res == covers(*self, loc.0 as int, loc.1 as int),
    {
        if self.r <= loc.0 && (loc.0 as u64) < (self.r as u64) + (self.item.rows as u64)
            && self.c <= loc.1 && (loc.1 as u64) < (self.c as u64) + (self.item.cols as u64) {
            return true;
        }
        false
    }

    /// A copy of this placed item with its row and column spans exchanged;
    /// the anchor is unchanged.
    pub(crate) fn transposed(&self) -> (r: PackedItem)
        ensures
            r == flipped(*self),
    {
        proof {
            use_type_invariant(&self.item);
        }
        PackedItem {
            r: self.r,
            c: self.c,
            item: Item { rows: self.item.cols, cols: self.item.rows, symbol: self.item.symbol },
        }
    }

    /// Exchanges the held item's row and column spans in place; the anchor
    /// is unchanged.
    pub fn transpose(&mut self)
        ensures
            *final(self) == flipped(*old(self)),
    {
        proof {
            use_type_invariant(&self.item);
        }
        let t = self.item.rows;
        self.item.rows = self.item.cols;
        self.item.cols = t;
    }
}

/// The whole contents of a grid is well formed: every item spans at least
/// one cell, lies inside the `rows` x `cols` extent, and no two items'
/// rectangles overlap.
pub open spec fn wf_contents(s: Seq<PackedItem>, rows: u32, cols: u32) -> bool {
    &&& forall|i: int|
        0 <= i < s.len() ==> (#[trigger] s[i]).item.wf() && in_bounds(s[i], rows, cols)
    &&& forall|i: int, j: int|
        0 <= i < s.len() && 0 <= j < s.len() && i != j ==> !overlaps(
            #[trigger] s[i],
            #[trigger] s[j],
        )
}

/// `pi` can be placed into a grid with contents `s`: it lies inside the
/// extent and overlaps no item of `s`.
pub open spec fn item_fits(s: Seq<PackedItem>, pi: PackedItem, rows: u32, cols: u32) -> bool {
    in_bounds(pi, rows, cols) && forall|i: int|
        0 <= i < s.len() ==> !overlaps(pi, #[trigger] s[i])
}

/// As `item_fits`, but the item at index `skip` is not compared against:
/// used when an item already in the grid changes shape or place, so that it
/// is not held to collide with its own old rectangle.
pub open spec fn item_fits_excluding(
    s: Seq<PackedItem>,
    pi: PackedItem,
    rows: u32,
    cols: u32,
    skip: int,
) -> bool {
    in_bounds(pi, rows, cols) && forall|i: int|
        0 <= i < s.len() && i != skip ==> !overlaps(pi, #[trigger] s[i])
}

/// Some item of `s` covers the cell `(row, col)`.
pub open spec fn covered(s: Seq<PackedItem>, row: int, col: int) -> bool {
    exists|i: int| 0 <= i < s.len() && covers(#[trigger] s[i], row, col)
}

/// An index of an item of `s` that covers the cell `(row, col)`.  In a
/// well-formed grid that item is unique.
pub open spec fn cover_index(s: Seq<PackedItem>, row: int, col: int) -> int {
    choose|i: int| 0 <= i < s.len() && covers(#[trigger] s[i], row, col)
}

/// `pi` with its row and column spans exchanged; the anchor is unchanged.
pub open spec fn flipped(pi: PackedItem) -> PackedItem {
    PackedItem { r: pi.r, c: pi.c, item: pi.item.spec_transposed() }
}

/// The character a rendering shows for the cell `(row, col)`: the symbol of
/// the covering item, or a blank when no item covers the cell.
pub open spec fn cell_symbol(s: Seq<PackedItem>, row: int, col: int) -> char {
    if covered(s, row, col) {
        s[cover_index(s, row, col)].item.spec_symbol()
    } else {
        ' '
    }
}

/// The first `ncols` cells of row `row`, each as `|` followed by the cell's
/// character.
pub open spec fn rendered_row(s: Seq<PackedItem>, row: int, ncols: int) -> Seq<char>
    decreases ncols,
{
    if ncols <= 0 {
        Seq::empty()
    } else {
        rendered_row(s, row, ncols - 1).push('|').push(cell_symbol(s, row, ncols - 1))
    }
}

/// The first `nrows` rows of the rendering, each row closed by `|` and a
/// newline.
pub open spec fn rendered(s: Seq<PackedItem>, nrows: int, ncols: int) -> Seq<char>
    decreases nrows,
{
    if nrows <= 0 {
        Seq::empty()
    } else {
        rendered(s, nrows - 1, ncols) + rendered_row(s, nrows - 1, ncols).push('|').push('\n')
    }
}

/// In a well-formed grid at most one item covers any given cell.
pub(crate) proof fn lemma_cover_unique(s: Seq<PackedItem>, rows: u32, cols: u32, row: int, col: int)
    requires
        wf_contents(s, rows, cols),
    ensures
        forall|i: int, j: int|
            0 <= i < s.len() && 0 <= j < s.len() && covers(#[trigger] s[i], row, col) && covers(
                #[trigger] s[j],
                row,
                col,
            ) ==> i == j,
{
    assert forall|i: int, j: int|
        0 <= i < s.len() && 0 <= j < s.len() && covers(#[trigger] s[i], row, col) && covers(
            #[trigger] s[j],
            row,
            col,
        ) implies i == j by {
        if i != j {
            assert(!overlaps(s[i], s[j]));
            assert(false);
        }
    }
}

/// Appending a fitting item preserves well-formedness.
pub(crate) proof fn lemma_wf_push(s: Seq<PackedItem>, pi: PackedItem, rows: u32, cols: u32)
    requires
        wf_contents(s, rows, cols),
        pi.item.wf(),
        item_fits(s, pi, rows, cols),
    ensures
        wf_contents(s.push(pi), rows, cols),
{
    let s1 = s.push(pi);
    assert forall|i: int| 0 <= i < s1.len() implies (#[trigger] s1[i]).item.wf() && in_bounds(
        s1[i],
        rows,
        cols,
    ) by {
        if i < s.len() {
            assert(s1[i] == s[i]);
        } else {
            assert(s1[i] == pi);
        }
    }
    assert forall|i: int, j: int|
        0 <= i < s1.len() && 0 <= j < s1.len() && i != j implies !overlaps(
        #[trigger] s1[i],
        #[trigger] s1[j],
    ) by {
        if i < s.len() && j < s.len() {
            assert(s1[i] == s[i] && s1[j] == s[j]);
        } else if i < s.len() {
            assert(s1[i] == s[i] && s1[j] == pi);
            assert(!overlaps(pi, s[i]));
        } else {
            assert(s1[i] == pi && s1[j] == s[j]);
            assert(!overlaps(pi, s[j]));
        }
    }
}

/// Replacing the item at `i` by one that fits (itself excluded) preserves
/// well-formedness.
pub(crate) proof fn lemma_wf_update(
    s: Seq<PackedItem>,
    rows: u32,
    cols: u32,
    i: int,
    pi: PackedItem,
)
    requires
        wf_contents(s, rows, cols),
        0 <= i < s.len(),
        pi.item.wf(),
        item_fits_excluding(s, pi, rows, cols, i),
    ensures
        wf_contents(s.update(i, pi), rows, cols),
{
    let s1 = s.update(i, pi);
    assert forall|k: int| 0 <= k < s1.len() implies (#[trigger] s1[k]).item.wf() && in_bounds(
        s1[k],
        rows,
        cols,
    ) by {
        if k != i {
            assert(s1[k] == s[k]);
        }
    }
    assert forall|k: int, l: int|
        0 <= k < s1.len() && 0 <= l < s1.len() && k != l implies !overlaps(
        #[trigger] s1[k],
        #[trigger] s1[l],
    ) by {
        if k != i && l != i {
            assert(s1[k] == s[k] && s1[l] == s[l]);
        } else if k == i {
            assert(s1[k] == pi && s1[l] == s[l]);
            assert(!overlaps(pi, s[l]));
        } else {
            assert(s1[k] == s[k] && s1[l] == pi);
            assert(!overlaps(pi, s[k]));
        }
    }
}

/// Removing the item at `i` by swapping the last item into its place
/// preserves well-formedness.
pub(crate) proof fn lemma_wf_swap_remove(s: Seq<PackedItem>, rows: u32, cols: u32, i: int)
    requires
        wf_contents(s, rows, cols),
        0 <= i < s.len(),
    ensures
        wf_contents(s.update(i, s.last()).drop_last(), rows, cols),
{
    let s1 = s.update(i, s.last()).drop_last();
    assert forall|k: int| 0 <= k < s1.len() implies (#[trigger] s1[k]).item.wf() && in_bounds(
        s1[k],
        rows,
        cols,
    ) by {
        if k == i {
            assert(s1[k] == s[s.len() - 1]);
        } else {
            assert(s1[k] == s[k]);
        }
    }
    assert forall|k: int, l: int|
        0 <= k < s1.len() && 0 <= l < s1.len() && k != l implies !overlaps(
        #[trigger] s1[k],
        #[trigger] s1[l],
    ) by {
        let gk: int = if k == i { s.len() - 1 } else { k };
        let gl: int = if l == i { s.len() - 1 } else { l };
        assert(s1[k] == s[gk]);
        assert(s1[l] == s[gl]);
        assert(!overlaps(s[gk], s[gl]));
    }
}

/// Removing the item at `i`, closing the gap, preserves well-formedness.
pub(crate) proof fn lemma_wf_remove(s: Seq<PackedItem>, rows: u32, cols: u32, i: int)
    requires
        wf_contents(s, rows, cols),
        0 <= i < s.len(),
    ensures
        wf_contents(s.remove(i), rows, cols),
{
    let s1 = s.remove(i);
    assert forall|k: int| 0 <= k < s1.len() implies (#[trigger] s1[k]).item.wf() && in_bounds(
        s1[k],
        rows,
        cols,
    ) by {
        if k < i {
            assert(s1[k] == s[k]);
        } else {
            assert(s1[k] == s[k + 1]);
        }
    }
    assert forall|k: int, l: int|
        0 <= k < s1.len() && 0 <= l < s1.len() && k != l implies !overlaps(
        #[trigger] s1[k],
        #[trigger] s1[l],
    ) by {
        let gk: int = if k < i { k } else { k + 1 };
        let gl: int = if l < i { l } else { l + 1 };
        assert(s1[k] == s[gk]);
        assert(s1[l] == s[gl]);
        assert(!overlaps(s[gk], s[gl]));
    }
}

/// A bounded grid of non-overlapping placed items, addressed by bare
/// `(row, col)` coordinate pairs and stored as an unordered list.
#[derive(Debug)]
pub struct Pack {
    rows: u32,
    cols: u32,
    items: Vec<PackedItem>,
}

impl Pack {
    /// The number of rows of the grid.
    pub closed spec fn spec_rows(&self) -> u32 {
        self.rows
    }

    /// The number of columns of the grid.
    pub closed spec fn spec_cols(&self) -> u32 {
        self.cols
    }

    /// The placed items, in storage order.
    pub closed spec fn contents(&self) -> Seq<PackedItem> {
        self.items@
    }

    /// Every `Pack` value has an extent of at least one cell and well-formed
    /// contents; `use_type_invariant` makes this available to callers.
    #[verifier::type_invariant]
    pub open spec fn wf(self) -> bool {
        self.spec_rows() >= 1 && self.spec_cols() >= 1 && wf_contents(
            self.contents(),
            self.spec_rows(),
            self.spec_cols(),
        )
    }

    /// Makes an empty grid; extents of 0 are coerced up to 1.
    pub fn new(rows: u32, cols: u32) -> (p: Pack)
        ensures
            p.spec_rows() == (if rows == 0 { 1u32 } else { rows }),
            p.spec_cols() == (if cols == 0 { 1u32 } else { cols }),
            p.contents() == Seq::<PackedItem>::empty(),
    {
        let mut rows = rows;
        let mut cols = cols;
        if rows == 0 {
            rows = 1;
        }
        if cols == 0 {
            cols = 1;
        }
        Pack { rows, cols, items: Vec::new() }
    }

    /// The item covering `loc`, if any.
    fn grab_item(&self, loc: (u32, u32)) -> (res: Option<&PackedItem>)
        ensures
            match res {
                Some(pi) => covered(self.contents(), loc.0 as int, loc.1 as int) && *pi
                    == self.contents()[cover_index(self.contents(), loc.0 as int, loc.1 as int)],
                None => !covered(self.contents(), loc.0 as int, loc.1 as int),
            },
    {
        proof {
            use_type_invariant(self);
            lemma_cover_unique(self.contents(), self.rows, self.cols, loc.0 as int, loc.1 as int);
        }
        let n = self.items.len();
        let mut idx: usize = 0;
        while idx < n
            invariant
                n == self.items@.len(),
                idx <= n,
                forall|j: int| 0 <= j < idx ==> !covers(#[trigger] self.items@[j], loc.0 as int, loc.1 as int),
                wf_contents(self.items@, self.rows, self.cols),
            decreases n - idx,
        {
            if self.items[idx].contains(loc) {
                return Some(&self.items[idx]);
            }
            idx += 1;
        }
        None
    }

    /// The index of the item covering `loc`, if any.
    fn grab_index(&self, loc: (u32, u32)) -> (res: Option<usize>)
        ensures
            match res {
                Some(i) => i < self.contents().len() && covers(
                    self.contents()[i as int],
                    loc.0 as int,
                    loc.1 as int,
                ),
                None => !covered(self.contents(), loc.0 as int, loc.1 as int),
            },
    {
        let n = self.items.len();
        let mut idx: usize = 0;
        while idx < n
            invariant
                n == self.items@.len(),
                idx <= n,
                forall|j: int| 0 <= j < idx ==> !covers(#[trigger] self.items@[j], loc.0 as int, loc.1 as int),
            decreases n - idx,
        {
            if self.items[idx].contains(loc) {
                return Some(idx);
            }
            idx += 1;
        }
        None
    }

    /// Whether `item`'s rectangle leaves this grid's extent.
    fn item_placement_exceeds_bounds(&self, item: &PackedItem) -> (res: bool)
        ensures
            res == !in_bounds(*item, self.spec_rows(), self.spec_cols()),
    {
        item.r >= self.rows || item.c >= self.cols || (item.r as u64) + (item.item.rows as u64)
            > (self.rows as u64) || (item.c as u64) + (item.item.cols as u64) > (self.cols as u64)
    }

    /// Whether `item`'s rectangle overlaps any placed item.
    fn item_placement_intersects_contents(&self, item: &PackedItem) -> (res: bool)
        ensures
            res == !(forall|i: int|
                0 <= i < self.contents().len() ==> !overlaps(*item, #[trigger] self.contents()[i])),
    {
        let n = self.items.len();
        let mut idx: usize = 0;
        while idx < n
            invariant
                n == self.items@.len(),
                idx <= n,
                forall|i: int| 0 <= i < idx ==> !overlaps(*item, #[trigger] self.items@[i]),
            decreases n - idx,
        {
            if item.intersects(&self.items[idx]) {
                proof {
                    assert(overlaps(*item, self.contents()[idx as int]));
                }
                return true;
            }
            idx += 1;
        }
        false
    }

    /// Whether `item`'s rectangle overlaps any placed item other than the
    /// one at index `skip`.
    fn item_placement_intersects_contents_excluding(
        &self,
        item: &PackedItem,
        skip: usize,
    ) -> (res: bool)
        ensures
            res == !(forall|i: int|
                0 <= i < self.contents().len() && i != skip ==> !overlaps(
                    *item,
                    #[trigger] self.contents()[i],
                )),
    {
        let n = self.items.len();
        let mut idx: usize = 0;
        while idx < n
            invariant
                n == self.items@.len(),
                idx <= n,
                forall|i: int|
                    0 <= i < idx && i != skip ==> !overlaps(*item, #[trigger] self.items@[i]),
            decreases n - idx,
        {
            if idx != skip && item.intersects(&self.items[idx]) {
                proof {
                    assert(overlaps(*item, self.contents()[idx as int]));
                }
                return true;
            }
            idx += 1;
        }
        false
    }

    /// Places `item` with its top-left cell at `loc`.  Fails with `Bounds`
    /// when the rectangle leaves the grid, else with `Overlap` when it hits a
    /// placed item; the grid is unchanged on failure.
    pub fn add_item(&mut self, item: Item, loc: (u32, u32)) -> (res: Result<(), PackError>)
        ensures
            final(self).spec_rows() == old(self).spec_rows(),
            final(self).spec_cols() == old(self).spec_cols(),
            ({
                let pi = (PackedItem { r: loc.0, c: loc.1, item });
                let s = old(self).contents();
                let nr = old(self).spec_rows();
                let nc = old(self).spec_cols();
                match res {
                    Ok(u) => item_fits(s, pi, nr, nc) && final(self).contents() == s.push(pi),
                    Err(e) => !item_fits(s, pi, nr, nc) && final(self).contents() == s && e == (
                    if !in_bounds(pi, nr, nc) {
                        PackError::Bounds
                    } else {
                        PackError::Overlap
                    }),
                }
            }),
    {
        proof {
            use_type_invariant(&*self);
            use_type_invariant(&item);
        }
        let tentative = PackedItem::new(loc.0, loc.1, item);
        if self.item_placement_exceeds_bounds(&tentative) {
            return Err(PackError::Bounds);
        }
        if self.item_placement_intersects_contents(&tentative) {
            return Err(PackError::Overlap);
        }
        let mut items: Vec<PackedItem> = Vec::new();
        core::mem::swap(&mut self.items, &mut items);
        proof {
            lemma_wf_push(items@, tentative, self.rows, self.cols);
        }
        items.push(tentative);
        self.items = items;
        Ok(())
    }

    /// Removes and returns the item covering `loc`; `None` when no item
    /// covers it.  The freed slot is filled by the last stored item.
    pub fn remove_item(&mut self, loc: (u32, u32)) -> (res: Option<PackedItem>)
        ensures
            final(self).spec_rows() == old(self).spec_rows(),
            final(self).spec_cols() == old(self).spec_cols(),
            ({
                let s = old(self).contents();
                let row = loc.0 as int;
                let col = loc.1 as int;
                if covered(s, row, col) {
                    let i = cover_index(s, row, col);
                    res == Some(s[i]) && final(self).contents() == s.update(i, s.last()).drop_last()
                } else {
                    res == None::<PackedItem> && final(self).contents() == s
                }
            }),
    {
        proof {
            use_type_invariant(&*self);
            lemma_cover_unique(self.items@, self.rows, self.cols, loc.0 as int, loc.1 as int);
        }
        match self.grab_index(loc) {
            None => None,
            Some(idx) => {
                let mut items: Vec<PackedItem> = Vec::new();
                core::mem::swap(&mut self.items, &mut items);
                proof {
                    lemma_wf_swap_remove(items@, self.rows, self.cols, idx as int);
                }
                let pi = items.swap_remove(idx);
                self.items = items;
                Some(pi)
            },
        }
    }

    /// Exchanges the row and column spans of the item covering `loc`, in
    /// place.  Fails with `NotFound` when no item covers `loc`, and with
    /// `InvalidTranspose` when the rotated rectangle would leave the grid or
    /// hit another item; the grid is unchanged on failure.
    pub fn transpose_item(&mut self, loc: (u32, u32)) -> (res: Result<(), PackError>)
        ensures
            final(self).spec_rows() == old(self).spec_rows(),
            final(self).spec_cols() == old(self).spec_cols(),
            ({
                let s = old(self).contents();
                let nr = old(self).spec_rows();
                let nc = old(self).spec_cols();
                let row = loc.0 as int;
                let col = loc.1 as int;
                if !covered(s, row, col) {
                    res == Err::<(), PackError>(PackError::NotFound) && final(self).contents() == s
                } else {
                    let i = cover_index(s, row, col);
                    let cand = flipped(s[i]);
                    if item_fits_excluding(s, cand, nr, nc, i) {
                        res == Ok::<(), PackError>(()) && final(self).contents() == s.update(
                            i,
                            cand,
                        )
                    } else {
                        res == Err::<(), PackError>(PackError::InvalidTranspose)
                            && final(self).contents() == s
                    }
                }
            }),
    {
        proof {
            use_type_invariant(&*self);
            lemma_cover_unique(self.items@, self.rows, self.cols, loc.0 as int, loc.1 as int);
        }
        match self.grab_index(loc) {
            None => Err(PackError::NotFound),
            Some(idx) => {
                let cur = &self.items[idx];
                let cand = PackedItem {
                    r: cur.r,
                    c: cur.c,
                    item: Item {
                        rows: cur.item.cols,
                        cols: cur.item.rows,
                        symbol: cur.item.symbol,
                    },
                };
                proof {
                    assert(cand == flipped(self.items@[idx as int]));
                }
                if self.item_placement_exceeds_bounds(&cand)
                    || self.item_placement_intersects_contents_excluding(&cand, idx) {
                    return Err(PackError::InvalidTranspose);
                }
                let mut items: Vec<PackedItem> = Vec::new();
                core::mem::swap(&mut self.items, &mut items);
                let target = &mut items[idx];
                target.transpose();
                proof {
                    lemma_wf_update(old(self).contents(), self.rows, self.cols, idx as int, cand);
                    assert(items@ =~= old(self).contents().update(idx as int, cand));
                }
                self.items = items;
                Ok(())
            },
        }
    }

    /// Moves the item covering `src` so that its top-left cell is `dst`.
    /// Fails with `NotFound` when no item covers `src`, and with
    /// `InvalidMove` when the moved rectangle would leave the grid or hit
    /// another item; the grid is unchanged on failure.
    pub fn move_item(&mut self, src: (u32, u32), dst: (u32, u32)) -> (res: Result<(), PackError>)
        ensures
            final(self).spec_rows() == old(self).spec_rows(),
            final(self).spec_cols() == old(self).spec_cols(),
            ({
                let s = old(self).contents();
                let nr = old(self).spec_rows();
                let nc = old(self).spec_cols();
                let row = src.0 as int;
                let col = src.1 as int;
                if !covered(s, row, col) {
                    res == Err::<(), PackError>(PackError::NotFound) && final(self).contents() == s
                } else {
                    let i = cover_index(s, row, col);
                    let cand = (PackedItem { r: dst.0, c: dst.1, item: s[i].item });
                    if item_fits_excluding(s, cand, nr, nc, i) {
                        res == Ok::<(), PackError>(()) && final(self).contents() == s.update(
                            i,
                            cand,
                        )
                    } else {
                        res == Err::<(), PackError>(PackError::InvalidMove)
                            && final(self).contents() == s
                    }
                }
            }),
    {
        proof {
            use_type_invariant(&*self);
            lemma_cover_unique(self.items@, self.rows, self.cols, src.0 as int, src.1 as int);
        }
        match self.grab_index(src) {
            None => Err(PackError::NotFound),
            Some(idx) => {
                let cur = &self.items[idx];
                let cand = PackedItem {
                    r: dst.0,
                    c: dst.1,
                    item: Item {
                        rows: cur.item.rows,
                        cols: cur.item.cols,
                        symbol: cur.item.symbol,
                    },
                };
                proof {
                    assert(cand.item == self.items@[idx as int].item);
                }
                if self.item_placement_exceeds_bounds(&cand)
                    || self.item_placement_intersects_contents_excluding(&cand, idx) {
                    return Err(PackError::InvalidMove);
                }
                let mut items: Vec<PackedItem> = Vec::new();
                core::mem::swap(&mut self.items, &mut items);
                let target = &mut items[idx];
                target.r = dst.0;
                target.c = dst.1;
                proof {
                    lemma_wf_update(old(self).contents(), self.rows, self.cols, idx as int, cand);
                    assert(items@ =~= old(self).contents().update(idx as int, cand));
                }
                self.items = items;
                Ok(())
            },
        }
    }

    /// Draws the grid row by row: each cell as `|` followed by its covering
    /// item's symbol (or a blank), each row closed by `|` and a newline.
    pub fn render(&self) -> (out: String)
        ensures
            out@ == rendered(self.contents(), self.spec_rows() as int, self.spec_cols() as int),
    {
        proof {
            use_type_invariant(self);
        }
        let ghost s = self.contents();
        let mut out = String::new();
        let mut r: u32 = 0;
        while r < self.rows
            invariant
                r <= self.rows,
                s == self.contents(),
                out@ == rendered(s, r as int, self.spec_cols() as int),
            decreases self.rows - r,
        {
            let mut c: u32 = 0;
            proof {
                assert(out@ + rendered_row(s, r as int, 0) =~= out@);
            }
            while c < self.cols
                invariant
                    r < self.rows,
                    c <= self.cols,
                    s == self.contents(),
                    out@ == rendered(s, r as int, self.spec_cols() as int) + rendered_row(
                        s,
                        r as int,
                        c as int,
                    ),
                decreases self.cols - c,
            {
                let ghost before = out@;
                let sym = match self.grab_item((r, c)) {
                    Some(pi) => pi.symbol(),
                    None => ' ',
                };
                proof {
                    assert(sym == cell_symbol(s, r as int, c as int));
                }
                out.push('|');
                out.push(sym);
                proof {
                    assert(out@ =~= rendered(s, r as int, self.spec_cols() as int) + rendered_row(
                        s,
                        r as int,
                        c as int + 1,
                    ));
                }
                c += 1;
            }
            out.push('|');
            out.push('\n');
            proof {
                assert(out@ =~= rendered(s, r as int + 1, self.spec_cols() as int));
            }
            r += 1;
        }
        out
    }
}

/// No two items placed in the same grid overlap: for any well-formed grid
/// and any two distinct placed items, their rectangles share no cell.
pub proof fn lemma_no_two_placed_items_overlap(p: Pack, i: int, j: int)
    requires
        p.wf(),
        0 <= i < p.contents().len(),
        0 <= j < p.contents().len(),
        i != j,
    ensures
        !overlaps(p.contents()[i], p.contents()[j]),
{
}

/// Every placed item lies inside the grid extent: its anchor coordinates are
/// in range and anchor plus span stays within the grid's rows and columns.
pub proof fn lemma_placed_item_in_bounds(p: Pack, i: int)
    requires
        p.wf(),
        0 <= i < p.contents().len(),
    ensures
        in_bounds(p.contents()[i], p.spec_rows(), p.spec_cols()),
        p.contents()[i].r + p.contents()[i].item.spec_rows() <= p.spec_rows(),
        p.contents()[i].c + p.contents()[i].item.spec_cols() <= p.spec_cols(),
{
}

/// Adding an item and then removing it at the same location is a round
/// trip: the removal finds exactly the added item and the grid's contents
/// return to what they were before the addition.
pub proof fn lemma_add_remove_round_trip(s: Seq<PackedItem>, pi: PackedItem, rows: u32, cols: u32)
    requires
        wf_contents(s, rows, cols),
        pi.item.wf(),
        item_fits(s, pi, rows, cols),
    ensures
        ({
            let s1 = s.push(pi);
            let i = cover_index(s1, pi.r as int, pi.c as int);
            &&& wf_contents(s1, rows, cols)
            &&& covered(s1, pi.r as int, pi.c as int)
            &&& s1[i] == pi
            &&& s1.update(i, s1.last()).drop_last() == s
        }),
{
    let s1 = s.push(pi);
    lemma_wf_push(s, pi, rows, cols);
    assert(covers(s1[s.len() as int], pi.r as int, pi.c as int));
    assert(covered(s1, pi.r as int, pi.c as int));
    lemma_cover_unique(s1, rows, cols, pi.r as int, pi.c as int);
    let i = cover_index(s1, pi.r as int, pi.c as int);
    assert(0 <= i < s1.len() && covers(s1[i], pi.r as int, pi.c as int));
    assert(i == s.len());
    assert(s1.update(i, s1.last()).drop_last() =~= s);
}

/// Transposing an item is self-inverse: when a transposition is accepted,
/// transposing the item again is accepted too and restores the grid's
/// contents exactly.
pub proof fn lemma_transpose_self_inverse(s: Seq<PackedItem>, rows: u32, cols: u32, i: int)
    requires
        wf_contents(s, rows, cols),
        0 <= i < s.len(),
        item_fits_excluding(s, flipped(s[i]), rows, cols, i),
    ensures
        ({
            let s1 = s.update(i, flipped(s[i]));
            &&& wf_contents(s1, rows, cols)
            &&& flipped(s1[i]) == s[i]
            &&& item_fits_excluding(s1, flipped(s1[i]), rows, cols, i)
            &&& s1.update(i, flipped(s1[i])) == s
        }),
{
    assert(s[i].item.wf());
    lemma_wf_update(s, rows, cols, i, flipped(s[i]));
    let s1 = s.update(i, flipped(s[i]));
    assert(flipped(s1[i]) == s[i]);
    assert forall|j: int| 0 <= j < s1.len() && j != i implies !overlaps(s[i], #[trigger] s1[j]) by {
        assert(s1[j] == s[j]);
        assert(!overlaps(s[i], s[j]));
    }
    assert(s1.update(i, flipped(s1[i])) =~= s);
}

} // verus!
