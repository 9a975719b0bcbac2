//! The dense backend: named items kept in an unordered growable list.
//! Lookups by name or by covered cell are linear scans; removal swaps the
//! last item into the freed slot.

use vstd::prelude::*;

use crate::PackError;
use crate::items::Item;
use crate::items::Loc;
use crate::items::PackedItem;
use crate::items::cell_symbol;
use crate::items::cover_index;
use crate::items::covered;
use crate::items::covers;
use crate::items::flipped;
use crate::items::in_bounds;
use crate::items::item_fits;
use crate::items::item_fits_excluding;
use crate::items::lemma_cover_unique;
use crate::items::lemma_name_index;
use crate::items::lemma_wf_push;
use crate::items::lemma_wf_swap_remove;
use crate::items::lemma_wf_update;
use crate::items::name_index;
use crate::items::named;
use crate::items::overlaps;
use crate::items::rendered;
use crate::items::rendered_row;
use crate::items::wf_contents;

verus! {

/// Whether the character sequences of two string slices are equal.
fn str_eq(a: &str, b: &str) -> (res: bool)
    ensures
        res == (a@ == b@),
{
    let sa: String = a.to_owned();
    let sb: String = b.to_owned();
    sa == sb
}

/// A bounded grid of non-overlapping named items, stored as an unordered
/// growable list and addressed by item name or by any covered cell.
#[derive(Debug)]
pub struct DensePack {
    rows: u32,
    cols: u32,
    items: Vec<PackedItem>,
}

impl DensePack {
    /// The number of rows of the grid.
    pub closed spec fn spec_rows(&self) -> u32 {
        self.rows
    }

    /// The number of columns of the grid.
    pub closed spec fn spec_cols(&self) -> u32 {
        self.cols
    }

    /// The placed items, in storage order.
    pub closed spec fn contents(&self) -> Seq<PackedItem> {
        self.items@
    }

    /// Every `DensePack` value has an extent of at least one cell and
    /// well-formed contents; `use_type_invariant` makes this available to
    /// callers.
    #[verifier::type_invariant]
    pub open spec fn wf(self) -> bool {
        self.spec_rows() >= 1 && self.spec_cols() >= 1 && wf_contents(
            self.contents(),
            self.spec_rows(),
            self.spec_cols(),
        )
    }

    /// Makes an empty grid; extents of 0 are coerced up to 1.
    pub fn new(rows: u32, cols: u32) -> (p: DensePack)
        ensures
            p.spec_rows() == (if rows == 0 { 1u32 } else { rows }),
            p.spec_cols() == (if cols == 0 { 1u32 } else { cols }),
            p.contents() == Seq::<PackedItem>::empty(),
    {
        let mut rows = rows;
        let mut cols = cols;
        if rows == 0 {
            rows = 1;
        }
        if cols == 0 {
            cols = 1;
        }
        DensePack { rows, cols, items: Vec::new() }
    }

    /// The item covering `loc`, if any.
    fn grab_item(&self, loc: &Loc) -> (res: Option<&PackedItem>)
        ensures
            match res {
                Some(pi) => covered(self.contents(), loc.row as int, loc.col as int) && *pi
                    == self.contents()[cover_index(
                    self.contents(),
                    loc.row as int,
                    loc.col as int,
                )],
                None => !covered(self.contents(), loc.row as int, loc.col as int),
            },
    {
        proof {
            use_type_invariant(self);
            lemma_cover_unique(self.contents(), self.rows, self.cols, loc.row as int, loc.col as int);
        }
        let n = self.items.len();
        let mut idx: usize = 0;
        while idx < n
            invariant
                n == self.items@.len(),
                idx <= n,
                forall|j: int|
                    0 <= j < idx ==> !covers(#[trigger] self.items@[j], loc.row as int, loc.col as int),
                wf_contents(self.items@, self.rows, self.cols),
            decreases n - idx,
        {
            if self.items[idx].contains(loc) {
                return Some(&self.items[idx]);
            }
            idx += 1;
        }
        None
    }

    /// The index of the first item named `name`, if any.
    fn grab_item_index(&self, name: &str) -> (res: Option<usize>)
        ensures
            match res {
                Some(i) => named(self.contents(), name@) && i < self.contents().len() && i
                    == name_index(self.contents(), name@),
                None => !named(self.contents(), name@),
            },
    {
        let n = self.items.len();
        let mut idx: usize = 0;
        while idx < n
            invariant
                n == self.items@.len(),
                idx <= n,
                forall|j: int|
                    0 <= j < idx ==> (#[trigger] self.items@[j]).item.spec_name() != name@,
            decreases n - idx,
        {
            if str_eq(self.items[idx].name(), name) {
                proof {
                    assert(named(self.contents(), name@));
                    lemma_name_index(self.contents(), name@);
                }
                return Some(idx);
            }
            idx += 1;
        }
        None
    }

    /// The index of the item covering `loc`, if any.
    fn grab_item_index_at(&self, loc: &Loc) -> (res: Option<usize>)
        ensures
            match res {
                Some(i) => i < self.contents().len() && covers(
                    self.contents()[i as int],
                    loc.row as int,
                    loc.col as int,
                ),
                None => !covered(self.contents(), loc.row as int, loc.col as int),
            },
    {
        let n = self.items.len();
        let mut idx: usize = 0;
        while idx < n
            invariant
                n == self.items@.len(),
                idx <= n,
                forall|j: int|
                    0 <= j < idx ==> !covers(#[trigger] self.items@[j], loc.row as int, loc.col as int),
            decreases n - idx,
        {
            if self.items[idx].contains(loc) {
                return Some(idx);
            }
            idx += 1;
        }
        None
    }

    /// Whether `item`'s rectangle leaves this grid's extent.
    fn item_placement_exceeds_bounds(&self, item: &PackedItem) -> (res: bool)
        ensures
            res == !in_bounds(*item, self.spec_rows(), self.spec_cols()),
    {
        item.row() >= self.rows || item.col() >= self.cols || (item.row() as u64)
            + (item.rows() as u64) > (self.rows as u64) || (item.col() as u64)
            + (item.cols() as u64) > (self.cols as u64)
    }

    /// Whether `item`'s rectangle overlaps any placed item.
    fn item_placement_intersects_contents(&self, item: &PackedItem) -> (res: bool)
        ensures
            res == !(forall|i: int|
                0 <= i < self.contents().len() ==> !overlaps(*item, #[trigger] self.contents()[i])),
    {
        let n = self.items.len();
        let mut idx: usize = 0;
        while idx < n
            invariant
                n == self.items@.len(),
                idx <= n,
                forall|i: int| 0 <= i < idx ==> !overlaps(*item, #[trigger] self.items@[i]),
            decreases n - idx,
        {
            if item.intersects(&self.items[idx]) {
                proof {
                    assert(overlaps(*item, self.contents()[idx as int]));
                }
                return true;
            }
            idx += 1;
        }
        false
    }

    /// Whether `item`'s rectangle overlaps any placed item other than the
    /// one at index `skip`.
    fn item_placement_intersects_contents_excluding(
        &self,
        item: &PackedItem,
        skip: usize,
    ) -> (res: bool)
        ensures
            res == !(forall|i: int|
                0 <= i < self.contents().len() && i != skip ==> !overlaps(
                    *item,
                    #[trigger] self.contents()[i],
                )),
    {
        let n = self.items.len();
        let mut idx: usize = 0;
        while idx < n
            invariant
                n == self.items@.len(),
                idx <= n,
                forall|i: int|
                    0 <= i < idx && i != skip ==> !overlaps(*item, #[trigger] self.items@[i]),
            decreases n - idx,
        {
            if idx != skip && item.intersects(&self.items[idx]) {
                proof {
                    assert(overlaps(*item, self.contents()[idx as int]));
                }
                return true;
            }
            idx += 1;
        }
        false
    }

    /// Places `item` with its top-left cell at `loc` and echoes `loc` back.
    /// Fails with `Bounds` when the rectangle leaves the grid, else with
    /// `Overlap` when it hits a placed item; the grid is unchanged on
    /// failure.
    pub fn add_item(&mut self, item: Item, loc: Loc) -> (res: Result<Loc, PackError>)
        ensures
            final(self).spec_rows() == old(self).spec_rows(),
            final(self).spec_cols() == old(self).spec_cols(),
            ({
                let pi = (PackedItem { item, loc });
                let s = old(self).contents();
                let nr = old(self).spec_rows();
                let nc = old(self).spec_cols();
                match res {
                    Ok(l) => l == loc && item_fits(s, pi, nr, nc) && final(self).contents()
                        == s.push(pi),
                    Err(e) => !item_fits(s, pi, nr, nc) && final(self).contents() == s && e == (
                    if !in_bounds(pi, nr, nc) {
                        PackError::Bounds
                    } else {
                        PackError::Overlap
                    }),
                }
            }),
    {
        proof {
            use_type_invariant(&*self);
            use_type_invariant(&item);
        }
        let tentative = PackedItem::new(loc, item);
        if self.item_placement_exceeds_bounds(&tentative) {
            return Err(PackError::Bounds);
        }
        if self.item_placement_intersects_contents(&tentative) {
            return Err(PackError::Overlap);
        }
        let mut items: Vec<PackedItem> = Vec::new();
        core::mem::swap(&mut self.items, &mut items);
        proof {
            lemma_wf_push(items@, tentative, self.rows, self.cols);
        }
        items.push(tentative);
        self.items = items;
        Ok(loc)
    }

    /// Removes and returns the first item named `name`; `None` when no item
    /// carries that name.  The freed slot is filled by the last stored item.
    pub fn remove_item(&mut self, name: &str) -> (res: Option<PackedItem>)
        ensures
            final(self).spec_rows() == old(self).spec_rows(),
            final(self).spec_cols() == old(self).spec_cols(),
            ({
                let s = old(self).contents();
                if named(s, name@) {
                    let i = name_index(s, name@);
                    res == Some(s[i]) && final(self).contents() == s.update(i, s.last()).drop_last()
                } else {
                    res == None::<PackedItem> && final(self).contents() == s
                }
            }),
    {
        proof {
            use_type_invariant(&*self);
        }
        match self.grab_item_index(name) {
            None => None,
            Some(idx) => {
                let mut items: Vec<PackedItem> = Vec::new();
                core::mem::swap(&mut self.items, &mut items);
                proof {
                    lemma_wf_swap_remove(items@, self.rows, self.cols, idx as int);
                }
                let pi = items.swap_remove(idx);
                self.items = items;
                Some(pi)
            },
        }
    }

    /// Removes and returns the item covering `loc`; `None` when no item
    /// covers it.  The freed slot is filled by the last stored item.
    pub fn remove_item_at(&mut self, loc: Loc) -> (res: Option<PackedItem>)
        ensures
            final(self).spec_rows() == old(self).spec_rows(),
            final(self).spec_cols() == old(self).spec_cols(),
            ({
                let s = old(self).contents();
                let row = loc.row as int;
                let col = loc.col as int;
                if covered(s, row, col) {
                    let i = cover_index(s, row, col);
                    res == Some(s[i]) && final(self).contents() == s.update(i, s.last()).drop_last()
                } else {
                    res == None::<PackedItem> && final(self).contents() == s
                }
            }),
    {
        proof {
            use_type_invariant(&*self);
            lemma_cover_unique(self.items@, self.rows, self.cols, loc.row as int, loc.col as int);
        }
        match self.grab_item_index_at(&loc) {
            None => None,
            Some(idx) => {
                let mut items: Vec<PackedItem> = Vec::new();
                core::mem::swap(&mut self.items, &mut items);
                proof {
                    lemma_wf_swap_remove(items@, self.rows, self.cols, idx as int);
                }
                let pi = items.swap_remove(idx);
                self.items = items;
                Some(pi)
            },
        }
    }

    /// Exchanges the row and column spans of the item at index `idx`, after
    /// checking that the rotated rectangle stays inside the grid and clear
    /// of the other items; the grid is unchanged on failure.
    fn transpose_index(&mut self, idx: usize) -> (res: Result<Loc, PackError>)
        requires
            idx < old(self).contents().len(),
        ensures
            final(self).spec_rows() == old(self).spec_rows(),
            final(self).spec_cols() == old(self).spec_cols(),
            ({
                let s = old(self).contents();
                let nr = old(self).spec_rows();
                let nc = old(self).spec_cols();
                let cand = flipped(s[idx as int]);
                if item_fits_excluding(s, cand, nr, nc, idx as int) {
                    res == Ok::<Loc, PackError>(s[idx as int].loc) && final(self).contents()
                        == s.update(idx as int, cand)
                } else {
                    res == Err::<Loc, PackError>(PackError::InvalidTranspose) && final(self).contents() == s
                }
            }),
    {
        proof {
            use_type_invariant(&*self);
        }
        let cur = &self.items[idx];
        let cand = cur.transposed();
        let anchor = cur.loc;
        if self.item_placement_exceeds_bounds(&cand)
            || self.item_placement_intersects_contents_excluding(&cand, idx) {
            return Err(PackError::InvalidTranspose);
        }
        let mut items: Vec<PackedItem> = Vec::new();
        core::mem::swap(&mut self.items, &mut items);
        let target = &mut items[idx];
        target.transpose();
        proof {
            use_type_invariant(&cand.item);
            lemma_wf_update(old(self).contents(), self.rows, self.cols, idx as int, cand);
            assert(items@ =~= old(self).contents().update(idx as int, cand));
        }
        self.items = items;
        Ok(anchor)
    }

    /// Exchanges the row and column spans of the first item named `name`,
    /// in place, and returns its anchor.  Fails with `NotFound` when no item
    /// carries that name, and with `InvalidTranspose` when the rotated
    /// rectangle would leave the grid or hit another item; the grid is
    /// unchanged on failure.
    pub fn transpose_item(&mut self, name: &str) -> (res: Result<Loc, PackError>)
        ensures
            final(self).spec_rows() == old(self).spec_rows(),
            final(self).spec_cols() == old(self).spec_cols(),
            ({
                let s = old(self).contents();
                let nr = old(self).spec_rows();
                let nc = old(self).spec_cols();
                if !named(s, name@) {
                    res == Err::<Loc, PackError>(PackError::NotFound) && final(self).contents()
                        == s
                } else {
                    let i = name_index(s, name@);
                    let cand = flipped(s[i]);
                    if item_fits_excluding(s, cand, nr, nc, i) {
                        res == Ok::<Loc, PackError>(s[i].loc) && final(self).contents() == s.update(
                            i,
                            cand,
                        )
                    } else {
                        res == Err::<Loc, PackError>(PackError::InvalidTranspose) && final(self).contents() == s
                    }
                }
            }),
    {
        match self.grab_item_index(name) {
            None => Err(PackError::NotFound),
            Some(idx) => self.transpose_index(idx),
        }
    }

    /// Exchanges the row and column spans of the item covering `loc`, in
    /// place, and returns its anchor.  Fails with `NotFound` when no item
    /// covers `loc`, and with `InvalidTranspose` when the rotated rectangle
    /// would leave the grid or hit another item; the grid is unchanged on
    /// failure.
    pub fn transpose_item_at(&mut self, loc: Loc) -> (res: Result<Loc, PackError>)
        ensures
            final(self).spec_rows() == old(self).spec_rows(),
            final(self).spec_cols() == old(self).spec_cols(),
            ({
                let s = old(self).contents();
                let nr = old(self).spec_rows();
                let nc = old(self).spec_cols();
                let row = loc.row as int;
                let col = loc.col as int;
                if !covered(s, row, col) {
                    res == Err::<Loc, PackError>(PackError::NotFound) && final(self).contents()
                        == s
                } else {
                    let i = cover_index(s, row, col);
                    let cand = flipped(s[i]);
                    if item_fits_excluding(s, cand, nr, nc, i) {
                        res == Ok::<Loc, PackError>(s[i].loc) && final(self).contents() == s.update(
                            i,
                            cand,
                        )
                    } else {
                        res == Err::<Loc, PackError>(PackError::InvalidTranspose) && final(self).contents() == s
                    }
                }
            }),
    {
        proof {
            use_type_invariant(&*self);
            lemma_cover_unique(self.items@, self.rows, self.cols, loc.row as int, loc.col as int);
        }
        match self.grab_item_index_at(&loc) {
            None => Err(PackError::NotFound),
            Some(idx) => self.transpose_index(idx),
        }
    }

    /// Re-anchors the item at index `idx` at `dst`, after checking that the
    /// moved rectangle stays inside the grid and clear of the other items,
    /// and returns the previous anchor; the grid is unchanged on failure.
    fn move_index(&mut self, idx: usize, dst: Loc) -> (res: Result<Loc, PackError>)
        requires
            idx < old(self).contents().len(),
        ensures
            final(self).spec_rows() == old(self).spec_rows(),
            final(self).spec_cols() == old(self).spec_cols(),
            ({
                let s = old(self).contents();
                let nr = old(self).spec_rows();
                let nc = old(self).spec_cols();
                let cand = (PackedItem { item: s[idx as int].item, loc: dst });
                if item_fits_excluding(s, cand, nr, nc, idx as int) {
                    res == Ok::<Loc, PackError>(s[idx as int].loc) && final(self).contents()
                        == s.update(idx as int, cand)
                } else {
                    res == Err::<Loc, PackError>(PackError::InvalidMove) && final(self).contents()
                        == s
                }
            }),
    {
        proof {
            use_type_invariant(&*self);
        }
        let cur = &self.items[idx];
        let cand = PackedItem { item: cur.item.clone(), loc: dst };
        proof {
            assert(cand == (PackedItem { item: self.items@[idx as int].item, loc: dst }));
        }
        let src = cur.loc;
        if self.item_placement_exceeds_bounds(&cand)
            || self.item_placement_intersects_contents_excluding(&cand, idx) {
            return Err(PackError::InvalidMove);
        }
        let mut items: Vec<PackedItem> = Vec::new();
        core::mem::swap(&mut self.items, &mut items);
        let target = &mut items[idx];
        target.move_to(dst);
        proof {
            lemma_wf_update(old(self).contents(), self.rows, self.cols, idx as int, cand);
            assert(items@ =~= old(self).contents().update(idx as int, cand));
        }
        self.items = items;
        Ok(src)
    }

    /// Moves the first item named `name` so that its top-left cell is
    /// `dst`, and returns its previous anchor.  Fails with `NotFound` when
    /// no item carries that name, and with `InvalidMove` when the moved
    /// rectangle would leave the grid or hit another item; the grid is
    /// unchanged on failure.
    pub fn move_item(&mut self, name: &str, dst: Loc) -> (res: Result<Loc, PackError>)
        ensures
            final(self).spec_rows() == old(self).spec_rows(),
            final(self).spec_cols() == old(self).spec_cols(),
            ({
                let s = old(self).contents();
                let nr = old(self).spec_rows();
                let nc = old(self).spec_cols();
                if !named(s, name@) {
                    res == Err::<Loc, PackError>(PackError::NotFound) && final(self).contents()
                        == s
                } else {
                    let i = name_index(s, name@);
                    let cand = (PackedItem { item: s[i].item, loc: dst });
                    if item_fits_excluding(s, cand, nr, nc, i) {
                        res == Ok::<Loc, PackError>(s[i].loc) && final(self).contents() == s.update(
                            i,
                            cand,
                        )
                    } else {
                        res == Err::<Loc, PackError>(PackError::InvalidMove) && final(self).contents() == s
                    }
                }
            }),
    {
        match self.grab_item_index(name) {
            None => Err(PackError::NotFound),
            Some(idx) => self.move_index(idx, dst),
        }
    }

    /// Moves the item covering `src` so that its top-left cell is `dst`,
    /// and returns its previous anchor.  Fails with `NotFound` when no item
    /// covers `src`, and with `InvalidMove` when the moved rectangle would
    /// leave the grid or hit another item; the grid is unchanged on failure.
    pub fn move_item_at(&mut self, src: Loc, dst: Loc) -> (res: Result<Loc, PackError>)
        ensures
            final(self).spec_rows() == old(self).spec_rows(),
            final(self).spec_cols() == old(self).spec_cols(),
            ({
                let s = old(self).contents();
                let nr = old(self).spec_rows();
                let nc = old(self).spec_cols();
                let row = src.row as int;
                let col = src.col as int;
                if !covered(s, row, col) {
                    res == Err::<Loc, PackError>(PackError::NotFound) && final(self).contents()
                        == s
                } else {
                    let i = cover_index(s, row, col);
                    let cand = (PackedItem { item: s[i].item, loc: dst });
                    if item_fits_excluding(s, cand, nr, nc, i) {
                        res == Ok::<Loc, PackError>(s[i].loc) && final(self).contents() == s.update(
                            i,
                            cand,
                        )
                    } else {
                        res == Err::<Loc, PackError>(PackError::InvalidMove) && final(self).contents() == s
                    }
                }
            }),
    {
        proof {
            use_type_invariant(&*self);
            lemma_cover_unique(self.items@, self.rows, self.cols, src.row as int, src.col as int);
        }
        match self.grab_item_index_at(&src) {
            None => Err(PackError::NotFound),
            Some(idx) => self.move_index(idx, dst),
        }
    }

    /// Draws the grid row by row: each cell as `|` followed by its covering
    /// item's symbol (or a blank), each row closed by `|` and a newline.
    pub fn render(&self) -> (out: String)
        ensures
            out@ == rendered(self.contents(), self.spec_rows() as int, self.spec_cols() as int),
    {
        proof {
            use_type_invariant(self);
        }
        let ghost s = self.contents();
        let mut out = String::new();
        let mut r: u32 = 0;
        while r < self.rows
            invariant
                r <= self.rows,
                s == self.contents(),
                out@ == rendered(s, r as int, self.spec_cols() as int),
            decreases self.rows - r,
        {
            let mut c: u32 = 0;
            proof {
                assert(out@ + rendered_row(s, r as int, 0) =~= out@);
            }
            while c < self.cols
                invariant
                    r < self.rows,
                    c <= self.cols,
                    s == self.contents(),
                    out@ == rendered(s, r as int, self.spec_cols() as int) + rendered_row(
                        s,
                        r as int,
                        c as int,
                    ),
                decreases self.cols - c,
            {
                let sym = match self.grab_item(&Loc::new(r, c)) {
                    Some(pi) => pi.symbol(),
                    None => ' ',
                };
                proof {
                    assert(sym == cell_symbol(s, r as int, c as int));
                }
                out.push('|');
                out.push(sym);
                proof {
                    assert(out@ =~= rendered(s, r as int, self.spec_cols() as int) + rendered_row(
                        s,
                        r as int,
                        c as int + 1,
                    ));
                }
                c += 1;
            }
            out.push('|');
            out.push('\n');
            proof {
                assert(out@ =~= rendered(s, r as int + 1, self.spec_cols() as int));
            }
            r += 1;
        }
        out
    }
}

} // verus!
