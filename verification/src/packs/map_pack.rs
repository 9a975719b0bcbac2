//! The indexed backend: anonymous items addressed by their exact anchor
//! location.  Anchors are unique in a well-formed grid, so the store behaves
//! as a map from anchor to item; a query by an arbitrary interior point
//! still scans the whole store.

use vstd::prelude::*;

use crate::Item;
use crate::PackError;
use crate::PackedItem;
use crate::cell_symbol;
use crate::cover_index;
use crate::covered;
use crate::covers;
use crate::flipped;
use crate::in_bounds;
use crate::item_fits;
use crate::item_fits_excluding;
use crate::items::Loc;
use crate::lemma_cover_unique;
use crate::lemma_wf_push;
use crate::lemma_wf_remove;
use crate::lemma_wf_update;
use crate::overlaps;
use crate::rendered;
use crate::rendered_row;
use crate::wf_contents;

verus! {

/// Some item of `s` has its anchor exactly at `(row, col)`.
pub open spec fn anchored(s: Seq<PackedItem>, row: u32, col: u32) -> bool {
    exists|i: int| 0 <= i < s.len() && (#[trigger] s[i]).r == row && s[i].c == col
}

/// The index of an item of `s` anchored at `(row, col)`.  In a well-formed
/// grid that item is unique.
pub open spec fn anchor_index(s: Seq<PackedItem>, row: u32, col: u32) -> int {
    choose|i: int| 0 <= i < s.len() && (#[trigger] s[i]).r == row && s[i].c == col
}

/// In a well-formed grid at most one item is anchored at any given cell:
/// every item covers its own anchor, and two items covering the same cell
/// would overlap.
proof fn lemma_anchor_unique(s: Seq<PackedItem>, rows: u32, cols: u32, row: u32, col: u32)
    requires
        wf_contents(s, rows, cols),
    ensures
        forall|i: int, j: int|
            0 <= i < s.len() && 0 <= j < s.len() && (#[trigger] s[i]).r == row && s[i].c == col
                && (#[trigger] s[j]).r == row && s[j].c == col ==> i == j,
{
    assert forall|i: int, j: int|
        0 <= i < s.len() && 0 <= j < s.len() && (#[trigger] s[i]).r == row && s[i].c == col && (
        #[trigger] s[j]).r == row && s[j].c == col implies i == j by {
        if i != j {
            assert(s[i].item.wf() && s[j].item.wf());
            assert(covers(s[i], row as int, col as int));
            assert(covers(s[j], row as int, col as int));
            assert(!overlaps(s[i], s[j]));
            assert(false);
        }
    }
}

/// A bounded grid of non-overlapping items whose stored key is the anchor
/// location: lookups, transpositions and moves select items by their exact
/// anchor.
#[derive(Debug)]
pub struct MapPack {
    rows: u32,
    cols: u32,
    items: Vec<PackedItem>,
}

impl MapPack {
    /// The number of rows of the grid.
    pub closed spec fn spec_rows(&self) -> u32 {
        self.rows
    }

    /// The number of columns of the grid.
    pub closed spec fn spec_cols(&self) -> u32 {
        self.cols
    }

    /// The placed items, in insertion order.
    pub closed spec fn contents(&self) -> Seq<PackedItem> {
        self.items@
    }

    /// Every `MapPack` value has an extent of at least one cell and
    /// well-formed contents; `use_type_invariant` makes this available to
    /// callers.  Well-formedness makes the anchors pairwise distinct, so
    /// the anchor is a key.
    #[verifier::type_invariant]
    pub open spec fn wf(self) -> bool {
        self.spec_rows() >= 1 && self.spec_cols() >= 1 && wf_contents(
            self.contents(),
            self.spec_rows(),
            self.spec_cols(),
        )
    }

    /// Makes an empty grid; extents of 0 are coerced up to 1.
    pub fn new(rows: u32, cols: u32) -> (p: MapPack)
        ensures
            p.spec_rows() == (if rows == 0 { 1u32 } else { rows }),
            p.spec_cols() == (if cols == 0 { 1u32 } else { cols }),
            p.contents() == Seq::<PackedItem>::empty(),
    {
        let mut rows = rows;
        let mut cols = cols;
        if rows == 0 {
            rows = 1;
        }
        if cols == 0 {
            cols = 1;
        }
        MapPack { rows, cols, items: Vec::new() }
    }

    /// The index of the item anchored exactly at `loc`, if any.
    fn grab_index(&self, loc: &Loc) -> (res: Option<usize>)
        ensures
            match res {
                Some(i) => i < self.contents().len() && self.contents()[i as int].r == loc.row
                    && self.contents()[i as int].c == loc.col,
                None => !anchored(self.contents(), loc.row, loc.col),
            },
    {
        let n = self.items.len();
        let mut idx: usize = 0;
        while idx < n
            invariant
                n == self.items@.len(),
                idx <= n,
                forall|j: int|
                    0 <= j < idx ==> !((#[trigger] self.items@[j]).r == loc.row && self.items@[j].c
                        == loc.col),
            decreases n - idx,
        {
            let pi = &self.items[idx];
            if pi.r == loc.row && pi.c == loc.col {
                return Some(idx);
            }
            idx += 1;
        }
        None
    }

    /// The item anchored exactly at `loc`, if any.
    fn grab_item(&self, loc: &Loc) -> (res: Option<&PackedItem>)
        ensures
            match res {
                Some(pi) => anchored(self.contents(), loc.row, loc.col) && *pi
                    == self.contents()[anchor_index(self.contents(), loc.row, loc.col)],
                None => !anchored(self.contents(), loc.row, loc.col),
            },
    {
        proof {
            use_type_invariant(self);
            lemma_anchor_unique(self.contents(), self.rows, self.cols, loc.row, loc.col);
        }
        match self.grab_index(loc) {
            None => None,
            Some(idx) => Some(&self.items[idx]),
        }
    }

    /// The item covering `loc`, if any; unlike `grab_item` this matches any
    /// cell of an item's rectangle, so it scans the whole store.
    fn find_item(&self, loc: &Loc) -> (res: Option<&PackedItem>)
        ensures
            match res {
                Some(pi) => covered(self.contents(), loc.row as int, loc.col as int) && *pi
                    == self.contents()[cover_index(
                    self.contents(),
                    loc.row as int,
                    loc.col as int,
                )],
                None => !covered(self.contents(), loc.row as int, loc.col as int),
            },
    {
        proof {
            use_type_invariant(self);
            lemma_cover_unique(self.contents(), self.rows, self.cols, loc.row as int, loc.col as int);
        }
        let n = self.items.len();
        let mut idx: usize = 0;
        while idx < n
            invariant
                n == self.items@.len(),
                idx <= n,
                forall|j: int|
                    0 <= j < idx ==> !covers(#[trigger] self.items@[j], loc.row as int, loc.col as int),
                wf_contents(self.items@, self.rows, self.cols),
            decreases n - idx,
        {
            if self.items[idx].contains((loc.row, loc.col)) {
                return Some(&self.items[idx]);
            }
            idx += 1;
        }
        None
    }

    /// Whether `item`'s rectangle leaves this grid's extent.
    fn item_placement_exceeds_bounds(&self, item: &PackedItem) -> (res: bool)
        ensures
            res == !in_bounds(*item, self.spec_rows(), self.spec_cols()),
    {
        item.r >= self.rows || item.c >= self.cols || (item.r as u64) + (item.item.rows as u64)
            > (self.rows as u64) || (item.c as u64) + (item.item.cols as u64) > (self.cols as u64)
    }

    /// Whether `item`'s rectangle overlaps any placed item.
    fn item_placement_intersects_contents(&self, item: &PackedItem) -> (res: bool)
        ensures
            res == !(forall|i: int|
                0 <= i < self.contents().len() ==> !overlaps(*item, #[trigger] self.contents()[i])),
    {
        let n = self.items.len();
        let mut idx: usize = 0;
        while idx < n
            invariant
                n == self.items@.len(),
                idx <= n,
                forall|i: int| 0 <= i < idx ==> !overlaps(*item, #[trigger] self.items@[i]),
            decreases n - idx,
        {
            if item.intersects(&self.items[idx]) {
                proof {
                    assert(overlaps(*item, self.contents()[idx as int]));
                }
                return true;
            }
            idx += 1;
        }
        false
    }

    /// Whether `item`'s rectangle overlaps any placed item other than the
    /// one at index `skip`.
    fn item_placement_intersects_contents_excluding(
        &self,
        item: &PackedItem,
        skip: usize,
    ) -> (res: bool)
        ensures
            res == !(forall|i: int|
                0 <= i < self.contents().len() && i != skip ==> !overlaps(
                    *item,
                    #[trigger] self.contents()[i],
                )),
    {
        let n = self.items.len();
        let mut idx: usize = 0;
        while idx < n
            invariant
                n == self.items@.len(),
                idx <= n,
                forall|i: int|
                    0 <= i < idx && i != skip ==> !overlaps(*item, #[trigger] self.items@[i]),
            decreases n - idx,
        {
            if idx != skip && item.intersects(&self.items[idx]) {
                proof {
                    assert(overlaps(*item, self.contents()[idx as int]));
                }
                return true;
            }
            idx += 1;
        }
        false
    }

    /// Places `item` with its top-left cell at `loc` and echoes `loc` back.
    /// Fails with `Bounds` when the rectangle leaves the grid, else with
    /// `Overlap` when it hits a placed item; the grid is unchanged on
    /// failure.
    pub fn add_item(&mut self, item: Item, loc: Loc) -> (res: Result<Loc, PackError>)
        ensures
            final(self).spec_rows() == old(self).spec_rows(),
            final(self).spec_cols() == old(self).spec_cols(),
            ({
                let pi = (PackedItem { r: loc.row, c: loc.col, item });
                let s = old(self).contents();
                let nr = old(self).spec_rows();
                let nc = old(self).spec_cols();
                match res {
                    Ok(l) => l == loc && item_fits(s, pi, nr, nc) && final(self).contents()
                        == s.push(pi),
                    Err(e) => !item_fits(s, pi, nr, nc) && final(self).contents() == s && e == (
                    if !in_bounds(pi, nr, nc) {
                        PackError::Bounds
                    } else {
                        PackError::Overlap
                    }),
                }
            }),
    {
        proof {
            use_type_invariant(&*self);
            use_type_invariant(&item);
        }
        let tentative = PackedItem::new(loc.row, loc.col, item);
        if self.item_placement_exceeds_bounds(&tentative) {
            return Err(PackError::Bounds);
        }
        if self.item_placement_intersects_contents(&tentative) {
            return Err(PackError::Overlap);
        }
        let mut items: Vec<PackedItem> = Vec::new();
        core::mem::swap(&mut self.items, &mut items);
        proof {
            lemma_wf_push(items@, tentative, self.rows, self.cols);
        }
        items.push(tentative);
        self.items = items;
        Ok(loc)
    }

    /// Removes and returns the item anchored exactly at `loc`; `None` when
    /// no item is anchored there.  Later items keep their order.
    pub fn remove_item(&mut self, loc: Loc) -> (res: Option<PackedItem>)
        ensures
            final(self).spec_rows() == old(self).spec_rows(),
            final(self).spec_cols() == old(self).spec_cols(),
            ({
                let s = old(self).contents();
                if anchored(s, loc.row, loc.col) {
                    let i = anchor_index(s, loc.row, loc.col);
                    res == Some(s[i]) && final(self).contents() == s.remove(i)
                } else {
                    res == None::<PackedItem> && final(self).contents() == s
                }
            }),
    {
        proof {
            use_type_invariant(&*self);
            lemma_anchor_unique(self.contents(), self.rows, self.cols, loc.row, loc.col);
        }
        match self.grab_index(&loc) {
            None => None,
            Some(idx) => {
                let mut items: Vec<PackedItem> = Vec::new();
                core::mem::swap(&mut self.items, &mut items);
                proof {
                    lemma_wf_remove(items@, self.rows, self.cols, idx as int);
                }
                let pi = items.remove(idx);
                self.items = items;
                Some(pi)
            },
        }
    }

    /// Exchanges the row and column spans of the item anchored exactly at
    /// `loc`, in place, and echoes `loc` back.  Fails with `NotFound` when
    /// no item is anchored there, and with `InvalidTranspose` when the
    /// rotated rectangle would leave the grid or hit another item; the grid
    /// is unchanged on failure.
    pub fn transpose_item(&mut self, loc: Loc) -> (res: Result<Loc, PackError>)
        ensures
            final(self).spec_rows() == old(self).spec_rows(),
            final(self).spec_cols() == old(self).spec_cols(),
            ({
                let s = old(self).contents();
                let nr = old(self).spec_rows();
                let nc = old(self).spec_cols();
                if !anchored(s, loc.row, loc.col) {
                    res == Err::<Loc, PackError>(PackError::NotFound) && final(self).contents()
                        == s
                } else {
                    let i = anchor_index(s, loc.row, loc.col);
                    let cand = flipped(s[i]);
                    if item_fits_excluding(s, cand, nr, nc, i) {
                        res == Ok::<Loc, PackError>(loc) && final(self).contents() == s.update(
                            i,
                            cand,
                        )
                    } else {
                        res == Err::<Loc, PackError>(PackError::InvalidTranspose)
                            && final(self).contents() == s
                    }
                }
            }),
    {
        proof {
            use_type_invariant(&*self);
            lemma_anchor_unique(self.contents(), self.rows, self.cols, loc.row, loc.col);
        }
        match self.grab_index(&loc) {
            None => Err(PackError::NotFound),
            Some(idx) => {
                let cur = &self.items[idx];
                let cand = cur.transposed();
                if self.item_placement_exceeds_bounds(&cand)
                    || self.item_placement_intersects_contents_excluding(&cand, idx) {
                    return Err(PackError::InvalidTranspose);
                }
                let mut items: Vec<PackedItem> = Vec::new();
                core::mem::swap(&mut self.items, &mut items);
                let target = &mut items[idx];
                target.transpose();
                proof {
                    use_type_invariant(&cand.item);
                    lemma_wf_update(old(self).contents(), self.rows, self.cols, idx as int, cand);
                    assert(items@ =~= old(self).contents().update(idx as int, cand));
                }
                self.items = items;
                Ok(loc)
            },
        }
    }

    /// Moves the item anchored exactly at `src` so that its anchor becomes
    /// `dst`, re-keying it, and returns the previous anchor.  Fails with
    /// `NotFound` when no item is anchored at `src`, and with `InvalidMove`
    /// when the moved rectangle would leave the grid or hit another item;
    /// the grid is unchanged on failure.
    pub fn move_item(&mut self, src: Loc, dst: Loc) -> (res: Result<Loc, PackError>)
        ensures
            final(self).spec_rows() == old(self).spec_rows(),
            final(self).spec_cols() == old(self).spec_cols(),
            ({
                let s = old(self).contents();
                let nr = old(self).spec_rows();
                let nc = old(self).spec_cols();
                if !anchored(s, src.row, src.col) {
                    res == Err::<Loc, PackError>(PackError::NotFound) && final(self).contents()
                        == s
                } else {
                    let i = anchor_index(s, src.row, src.col);
                    let cand = (PackedItem { r: dst.row, c: dst.col, item: s[i].item });
                    if item_fits_excluding(s, cand, nr, nc, i) {
                        res == Ok::<Loc, PackError>(src) && final(self).contents() == s.update(
                            i,
                            cand,
                        )
                    } else {
                        res == Err::<Loc, PackError>(PackError::InvalidMove)
                            && final(self).contents() == s
                    }
                }
            }),
    {
        proof {
            use_type_invariant(&*self);
            lemma_anchor_unique(self.contents(), self.rows, self.cols, src.row, src.col);
        }
        match self.grab_index(&src) {
            None => Err(PackError::NotFound),
            Some(idx) => {
                let cur = &self.items[idx];
                let cand = PackedItem { r: dst.row, c: dst.col, item: cur.item.clone() };
                proof {
                    assert(cand == (PackedItem {
                        r: dst.row,
                        c: dst.col,
                        item: self.items@[idx as int].item,
                    }));
                }
                if self.item_placement_exceeds_bounds(&cand)
                    || self.item_placement_intersects_contents_excluding(&cand, idx) {
                    return Err(PackError::InvalidMove);
                }
                let mut items: Vec<PackedItem> = Vec::new();
                core::mem::swap(&mut self.items, &mut items);
                let target = &mut items[idx];
                target.r = dst.row;
                target.c = dst.col;
                proof {
                    lemma_wf_update(old(self).contents(), self.rows, self.cols, idx as int, cand);
                    assert(items@ =~= old(self).contents().update(idx as int, cand));
                }
                self.items = items;
                Ok(src)
            },
        }
    }

    /// Draws the grid row by row: each cell as `|` followed by its covering
    /// item's symbol (or a blank), each row closed by `|` and a newline.
    pub fn render(&self) -> (out: String)
        ensures
            out@ == rendered(self.contents(), self.spec_rows() as int, self.spec_cols() as int),
    {
        proof {
            use_type_invariant(self);
        }
        let ghost s = self.contents();
        let mut out = String::new();
        let mut r: u32 = 0;
        while r < self.rows
            invariant
                r <= self.rows,
                s == self.contents(),
                out@ == rendered(s, r as int, self.spec_cols() as int),
            decreases self.rows - r,
        {
            let mut c: u32 = 0;
            proof {
                assert(out@ + rendered_row(s, r as int, 0) =~= out@);
            }
            while c < self.cols
                invariant
                    r < self.rows,
                    c <= self.cols,
                    s == self.contents(),
                    out@ == rendered(s, r as int, self.spec_cols() as int) + rendered_row(
                        s,
                        r as int,
                        c as int,
                    ),
                decreases self.cols - c,
            {
                let sym = match self.find_item(&Loc::new(r, c)) {
                    Some(pi) => pi.symbol(),
                    None => ' ',
                };
                proof {
                    assert(sym == cell_symbol(s, r as int, c as int));
                }
                out.push('|');
                out.push(sym);
                proof {
                    assert(out@ =~= rendered(s, r as int, self.spec_cols() as int) + rendered_row(
                        s,
                        r as int,
                        c as int + 1,
                    ));
                }
                c += 1;
            }
            out.push('|');
            out.push('\n');
            proof {
                assert(out@ =~= rendered(s, r as int + 1, self.spec_cols() as int));
            }
            r += 1;
        }
        out
    }
}

/// Adding an item and then removing it at the same location is a round
/// trip: the removal by the anchor just placed finds exactly the added item
/// and the grid's contents return to what they were before the addition.
pub proof fn lemma_add_remove_round_trip(s: Seq<PackedItem>, pi: PackedItem, rows: u32, cols: u32)
    requires
        wf_contents(s, rows, cols),
        pi.item.wf(),
        item_fits(s, pi, rows, cols),
    ensures
        ({
            let s1 = s.push(pi);
            let i = anchor_index(s1, pi.r, pi.c);
            &&& wf_contents(s1, rows, cols)
            &&& anchored(s1, pi.r, pi.c)
            &&& s1[i] == pi
            &&& s1.remove(i) == s
        }),
{
    let s1 = s.push(pi);
    lemma_wf_push(s, pi, rows, cols);
    assert(s1[s.len() as int].r == pi.r && s1[s.len() as int].c == pi.c);
    assert(anchored(s1, pi.r, pi.c));
    lemma_anchor_unique(s1, rows, cols, pi.r, pi.c);
    let i = anchor_index(s1, pi.r, pi.c);
    assert(0 <= i < s1.len() && s1[i].r == pi.r && s1[i].c == pi.c);
    assert(i == s.len());
    assert(s1.remove(i) =~= s);
}

} // verus!
