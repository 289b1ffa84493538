//! The rectangular per-half key matrix and its structural edits.
//!
//! A `KeyMatrix` holds, per logical layer, a grid of key codes for one
//! keyboard half. Every layer has the same number of rows, and every row of
//! every layer has the same length; the edits below preserve this shape
//! across all layers at once. Within a row, index 0 is the edge at the
//! keyboard's split line ("center"); the last index is the outer edge.

use vstd::prelude::*;
use crate::key::{blank_code, opposite_side, Key, Side};

verus! {

broadcast use crate::views::lemma_vec_deep_view_len, crate::views::lemma_vec_deep_view_index;

/// A row of key codes, one `Seq<char>` per key.
pub type RowCodes = Seq<Seq<char>>;

/// One layer: its rows, top to bottom.
pub type LayerCodes = Seq<Seq<Seq<char>>>;

/// A whole keymap: one layer grid per logical layer.
pub type GridCodes = Seq<Seq<Seq<Seq<char>>>>;

/// `n` blank key codes in a row.
pub open spec fn blank_keys(n: nat) -> RowCodes {
    Seq::new(n, |i: int| blank_code())
}

/// `n` all-blank rows of width `w`.
pub open spec fn blank_rows(n: nat, w: nat) -> LayerCodes {
    Seq::new(n, |i: int| blank_keys(w))
}

/// The common row count of a grid's layers (0 for a grid with no layers).
pub open spec fn grid_height(g: GridCodes) -> nat {
    if g.len() == 0 {
        0
    } else {
        g[0].len()
    }
}

/// The common row length of a grid's layers (0 for a grid with no rows).
pub open spec fn grid_width(g: GridCodes) -> nat {
    if g.len() == 0 || g[0].len() == 0 {
        0
    } else {
        g[0][0].len()
    }
}

/// Rectangularity: every layer has the same row count, and every row of every
/// layer has the same length.
pub open spec fn grid_wf(g: GridCodes) -> bool {
    &&& forall|l: int| 0 <= l < g.len() ==> (#[trigger] g[l]).len() == grid_height(g)
    &&& forall|l: int, y: int|
        0 <= l < g.len() && 0 <= y < g[l].len() ==> (#[trigger] g[l][y]).len() == grid_width(g)
}

/// A row after a column edit of signed magnitude `cols`: `cols >= 0` inserts
/// that many blank keys, `cols < 0` removes up to `-cols` existing keys
/// (clamped at the empty row); `at_center` selects the split-line edge
/// (index 0), otherwise the outer edge (the row's end).
pub open spec fn row_cols_changed(row: RowCodes, cols: int, at_center: bool) -> RowCodes {
    if cols >= 0 {
        if at_center {
            blank_keys(cols as nat) + row
        } else {
            row + blank_keys(cols as nat)
        }
    } else {
        let m: int = if -cols <= row.len() {
            -cols
        } else {
            row.len() as int
        };
        if at_center {
            row.skip(m)
        } else {
            row.take(row.len() - m)
        }
    }
}

/// A layer after the same column edit applied to each of its rows.
pub open spec fn layer_cols_changed(layer: LayerCodes, cols: int, at_center: bool) -> LayerCodes {
    Seq::new(layer.len(), |y: int| row_cols_changed(layer[y], cols, at_center))
}

/// A layer after a row edit of signed magnitude `rows`: `rows >= 0` inserts
/// that many all-blank rows of width `w`, `rows < 0` removes up to `-rows`
/// existing rows (clamped at the empty layer); `at_top` selects the top,
/// otherwise the bottom.
pub open spec fn layer_rows_changed(layer: LayerCodes, rows: int, w: nat, at_top: bool) -> LayerCodes {
    if rows >= 0 {
        if at_top {
            blank_rows(rows as nat, w) + layer
        } else {
            layer + blank_rows(rows as nat, w)
        }
    } else {
        let m: int = if -rows <= layer.len() {
            -rows
        } else {
            layer.len() as int
        };
        if at_top {
            layer.skip(m)
        } else {
            layer.take(layer.len() - m)
        }
    }
}

/// A grid with every row of every layer reversed.
pub open spec fn mirrored_grid(g: GridCodes) -> GridCodes {
    Seq::new(g.len(), |l: int| Seq::new(g[l].len(), |y: int| g[l][y].reverse()))
}

/// The composition-level mirror: the halves swap roles and each is reversed.
pub open spec fn mirror_swap(pair: (GridCodes, GridCodes)) -> (GridCodes, GridCodes) {
    (mirrored_grid(pair.1), mirrored_grid(pair.0))
}

/// Reversing every row twice restores the grid.
pub proof fn lemma_mirrored_grid_involution(g: GridCodes)
    ensures
        mirrored_grid(mirrored_grid(g)) == g,
{
    let m = mirrored_grid(g);
    let mm = mirrored_grid(m);
    assert forall|l: int| 0 <= l < g.len() implies mm[l] == g[l] by {
        assert forall|y: int| 0 <= y < g[l].len() implies mm[l][y] == g[l][y] by {
            assert(m[l][y] == g[l][y].reverse());
            assert(mm[l][y] == m[l][y].reverse());
            assert(g[l][y].reverse().reverse() =~= g[l][y]);
        }
        assert(mm[l] =~= g[l]);
    }
    assert(mm =~= g);
}

/// Applying the composition-level mirror swap twice restores both halves'
/// key content exactly.
pub proof fn lemma_mirror_swap_involution(pair: (GridCodes, GridCodes))
    ensures
        mirror_swap(mirror_swap(pair)) == pair,
{
    lemma_mirrored_grid_involution(pair.0);
    lemma_mirrored_grid_involution(pair.1);
}

/// Mirroring keeps the grid's shape, so rectangularity survives it.
pub proof fn lemma_mirrored_grid_wf(g: GridCodes)
    requires
        grid_wf(g),
    ensures
        grid_wf(mirrored_grid(g)),
        grid_height(mirrored_grid(g)) == grid_height(g),
        grid_width(mirrored_grid(g)) == grid_width(g),
{
    let m = mirrored_grid(g);
    assert forall|l: int, y: int|
        0 <= l < m.len() && 0 <= y < m[l].len() implies (#[trigger] m[l][y]).len() == grid_width(
        g,
    ) by {
        assert(m[l][y] == g[l][y].reverse());
        assert(g[l][y].len() == grid_width(g));
    }
}

/// `w` fresh blank keys.
fn blank_row(w: usize) -> (r: Vec<Key>)
    ensures
        r.deep_view() == blank_keys(w as nat),
{
    let mut out: Vec<Key> = Vec::new();
    let mut i: usize = 0;
    while i < w
        invariant
            i <= w,
            out@.len() == i,
            forall|j: int| 0 <= j < i ==> (#[trigger] out@[j].deep_view()) == blank_code(),
        decreases w - i,
    {
        out.push(Key::blank());
        i += 1;
    }
    assert(out.deep_view() =~= blank_keys(w as nat));
    out
}

/// A copy of `row` in reverse key order.
fn reversed_row(row: &Vec<Key>) -> (r: Vec<Key>)
    ensures
        r.deep_view() == row.deep_view().reverse(),
{
    let mut out: Vec<Key> = Vec::new();
    let mut i: usize = row.len();
    while i > 0
        invariant
            i <= row@.len(),
            out@.len() == row@.len() - i,
            forall|j: int| 0 <= j < out@.len() ==> (#[trigger] out@[j].deep_view()) == row@[row@.len()
                - 1 - j].deep_view(),
        decreases i,
    {
        i -= 1;
        out.push(row[i].duplicate());
    }
    assert(out.deep_view() =~= row.deep_view().reverse());
    out
}

/// Apply one column edit to a single row.
fn edit_row_cols(row: &mut Vec<Key>, cols: i8, at_center: bool)
    ensures
        final(row).deep_view() == row_cols_changed(old(row).deep_view(), cols as int, at_center),
{
    if cols >= 0 {
        let n = cols as usize;
        if at_center {
            let mut fresh = blank_row(n);
            fresh.append(row);
            *row = fresh;
            assert(row.deep_view() =~= blank_keys(n as nat) + old(row).deep_view());
        } else {
            let mut blanks = blank_row(n);
            row.append(&mut blanks);
            assert(row.deep_view() =~= old(row).deep_view() + blank_keys(n as nat));
        }
    } else {
        let m0 = -(cols as i32);
        let m: usize = if (m0 as usize) <= row.len() {
            m0 as usize
        } else {
            row.len()
        };
        if at_center {
            let mut i: usize = 0;
            while i < m
                invariant
                    i <= m,
                    m <= old(row)@.len(),
                    row@.len() == old(row)@.len() - i,
                    forall|j: int| 0 <= j < row@.len() ==> (#[trigger] row@[j]) == old(row)@[j + i],
                decreases m - i,
            {
                row.remove(0);
                i += 1;
            }
            assert(row.deep_view() =~= old(row).deep_view().skip(m as int));
        } else {
            let keep = row.len() - m;
            row.truncate(keep);
            assert(row.deep_view() =~= old(row).deep_view().take(keep as int));
        }
    }
}

/// Apply one column edit to every row of `layer`.
fn edit_layer_cols(layer: &mut Vec<Vec<Key>>, cols: i8, at_center: bool)
    ensures
        final(layer).deep_view() == layer_cols_changed(old(layer).deep_view(), cols as int, at_center),
{
    let n = layer.len();
    let mut y: usize = 0;
    while y < n
        invariant
            y <= n,
            layer@.len() == n,
            n == old(layer)@.len(),
            forall|j: int| 0 <= j < y ==> (#[trigger] layer@[j].deep_view()) == row_cols_changed(
                old(layer)@[j].deep_view(),
                cols as int,
                at_center,
            ),
            forall|j: int| y <= j < n ==> layer@[j] == old(layer)@[j],
        decreases n - y,
    {
        edit_row_cols(&mut layer[y], cols, at_center);
        y += 1;
    }
    assert(layer.deep_view() =~= layer_cols_changed(
        old(layer).deep_view(),
        cols as int,
        at_center,
    ));
}

/// Apply one row edit to a single layer: `w` is the width used for fresh
/// blank rows.
fn edit_layer_rows(layer: &mut Vec<Vec<Key>>, rows: i8, w: usize, at_top: bool)
    ensures
        final(layer).deep_view() == layer_rows_changed(
            old(layer).deep_view(),
            rows as int,
            w as nat,
            at_top,
        ),
{
    if rows >= 0 {
        let n = rows as usize;
        if at_top {
            let mut fresh: Vec<Vec<Key>> = Vec::new();
            let mut i: usize = 0;
            while i < n
                invariant
                    i <= n,
                    fresh@.len() == i,
                    forall|j: int| 0 <= j < i ==> (#[trigger] fresh@[j].deep_view()) == blank_keys(
                        w as nat,
                    ),
                decreases n - i,
            {
                fresh.push(blank_row(w));
                i += 1;
            }
            fresh.append(layer);
            *layer = fresh;
            assert(layer.deep_view() =~= blank_rows(n as nat, w as nat) + old(layer).deep_view());
        } else {
            let mut i: usize = 0;
            while i < n
                invariant
                    i <= n,
                    layer@.len() == old(layer)@.len() + i,
                    forall|j: int| 0 <= j < old(layer)@.len() ==> layer@[j] == old(layer)@[j],
                    forall|j: int| old(layer)@.len() <= j < layer@.len() ==> (#[trigger] layer@[
                        j
                    ].deep_view()) == blank_keys(w as nat),
                decreases n - i,
            {
                layer.push(blank_row(w));
                i += 1;
            }
            assert(layer.deep_view() =~= old(layer).deep_view() + blank_rows(n as nat, w as nat));
        }
    } else {
        let m0 = -(rows as i32);
        let m: usize = if (m0 as usize) <= layer.len() {
            m0 as usize
        } else {
            layer.len()
        };
        if at_top {
            let mut i: usize = 0;
            while i < m
                invariant
                    i <= m,
                    m <= old(layer)@.len(),
                    layer@.len() == old(layer)@.len() - i,
                    forall|j: int| 0 <= j < layer@.len() ==> (#[trigger] layer@[j]) == old(
                        layer,
                    )@[j + i],
                decreases m - i,
            {
                layer.remove(0);
                i += 1;
            }
            assert(layer.deep_view() =~= old(layer).deep_view().skip(m as int));
        } else {
            let keep = layer.len() - m;
            layer.truncate(keep);
            assert(layer.deep_view() =~= old(layer).deep_view().take(keep as int));
        }
    }
}

/// One keyboard half: identity fields, a side tag, and the key grid.
#[derive(Debug)]
pub struct KeyMatrix {
    name: String,
    vendor_id: usize,
    macros: Vec<String>,
    side: Side,
    keymap: Vec<Vec<Vec<Key>>>,
}

impl KeyMatrix {
    /// The key codes of the whole keymap: layers, then rows, then keys.
    pub closed spec fn grid(self) -> GridCodes {
        self.keymap.deep_view()
    }

    pub closed spec fn spec_side(self) -> Side {
        self.side
    }

    pub closed spec fn spec_name(self) -> Seq<char> {
        self.name@
    }

    pub closed spec fn spec_vendor(self) -> usize {
        self.vendor_id
    }

    pub closed spec fn spec_macros(self) -> Seq<Seq<char>> {
        self.macros.deep_view()
    }

    pub open spec fn spec_height(self) -> nat {
        grid_height(self.grid())
    }

    pub open spec fn spec_width(self) -> nat {
        grid_width(self.grid())
    }

    pub open spec fn wf(self) -> bool {
        grid_wf(self.grid())
    }

    /// The identity fields and the side tag agree with `other`'s.
    pub open spec fn same_identity(self, other: KeyMatrix) -> bool {
        &&& self.spec_name() == other.spec_name()
        &&& self.spec_vendor() == other.spec_vendor()
        &&& self.spec_macros() == other.spec_macros()
        &&& self.spec_side() == other.spec_side()
    }

    pub(crate) fn from_parts(
        name: String,
        vendor_id: usize,
        macros: Vec<String>,
        side: Side,
        keymap: Vec<Vec<Vec<Key>>>,
    ) -> (r: KeyMatrix)
        ensures
            r.grid() == keymap.deep_view(),
            r.spec_side() == side,
            r.spec_name() == name@,
            r.spec_vendor() == vendor_id,
            r.spec_macros() == macros.deep_view(),
    {
        KeyMatrix { name, vendor_id, macros, side, keymap }
    }

    /// Borrow one layer's rows.
    pub(crate) fn layer_at(&self, l: usize) -> (r: &Vec<Vec<Key>>)
        requires
            l < self.grid().len(),
        ensures
            r.deep_view() == self.grid()[l as int],
    {
        &self.keymap[l]
    }

    /// A copy of the keyboard name.
    pub(crate) fn name_copy(&self) -> (r: String)
        ensures
            r@ == self.spec_name(),
    {
        self.name.clone()
    }

    pub(crate) fn vendor(&self) -> (r: usize)
        ensures
            r == self.spec_vendor(),
    {
        self.vendor_id
    }

    /// A copy of the macro table.
    pub(crate) fn macros_copy(&self) -> (r: Vec<String>)
        ensures
            r.deep_view() == self.spec_macros(),
    {
        let mut out: Vec<String> = Vec::new();
        let mut i: usize = 0;
        while i < self.macros.len()
            invariant
                i <= self.macros@.len(),
                out@.len() == i,
                forall|j: int| 0 <= j < i ==> (#[trigger] out@[j].deep_view()) == self.macros@[
                    j
                ].deep_view(),
            decreases self.macros@.len() - i,
        {
            out.push(self.macros[i].clone());
            i += 1;
        }
        assert(out.deep_view() =~= self.macros.deep_view());
        out
    }

    /// The key codes of layer `l`, row by row, as fresh strings.
    pub fn layer_codes(&self, l: usize) -> (r: Vec<Vec<String>>)
        requires
            l < self.grid().len(),
        ensures
            r.deep_view() == self.grid()[l as int],
    {
        let src = &self.keymap[l];
        let ghost g = self.grid()[l as int];
        assert(src.deep_view() == g);
        let mut out: Vec<Vec<String>> = Vec::new();
        let mut y: usize = 0;
        while y < src.len()
            invariant
                y <= src@.len(),
                src.deep_view() == g,
                out@.len() == y,
                forall|j: int| 0 <= j < y ==> (#[trigger] out@[j].deep_view()) == g[j],
            decreases src@.len() - y,
        {
            let row = &src[y];
            assert(row.deep_view() == g[y as int]);
            let mut codes: Vec<String> = Vec::new();
            let mut x: usize = 0;
            while x < row.len()
                invariant
                    x <= row@.len(),
                    row.deep_view() == g[y as int],
                    0 <= y < g.len(),
                    codes@.len() == x,
                    forall|j: int| 0 <= j < x ==> (#[trigger] codes@[j].deep_view()) == g[
                        y as int
                    ][j],
                decreases row@.len() - x,
            {
                let s = row[x].k().to_owned();
                proof {
                    assert(g[y as int][x as int] == row@[x as int].deep_view());
                }
                codes.push(s);
                x += 1;
            }
            assert(codes.deep_view() =~= g[y as int]);
            out.push(codes);
            y += 1;
        }
        assert(out.deep_view() =~= g);
        out
    }

    /// The number of logical layers.
    pub fn layers(&self) -> (r: usize)
        ensures
            r == self.grid().len(),
    {
        self.keymap.len()
    }

    /// The width of the matrix: the longest row of the first layer, which
    /// under rectangularity is every row's length.
    pub fn width(&self) -> (r: usize)
        requires
            self.wf(),
            self.grid().len() >= 1,
        ensures
            r == self.spec_width(),
    {
        let first: &Vec<Vec<Key>> = &self.keymap[0];
        let mut m: usize = 0;
        let mut y: usize = 0;
        while y < first.len()
            invariant
                self.wf(),
                self.grid().len() >= 1,
                first == &self.keymap@[0],
                y <= first@.len(),
                first.deep_view() == self.grid()[0],
                m == if y == 0 {
                    0nat
                } else {
                    self.spec_width()
                },
            decreases first@.len() - y,
        {
            assert(first.deep_view()[y as int].len() == self.spec_width());
            if first[y].len() > m {
                m = first[y].len();
            }
            y += 1;
        }
        m
    }

    /// Insert (`cols >= 0`) or remove (`cols < 0`, clamped) columns at the
    /// split-line edge of every row of every layer. The edit is the same for
    /// both sides: index 0 of a row is the center edge on the Left half and
    /// on the Right half alike.
    pub fn change_cols_center(&mut self, cols: i8)
        requires
            old(self).wf(),
        ensures
            final(self).wf(),
            final(self).same_identity(*old(self)),
            final(self).grid().len() == old(self).grid().len(),
            forall|l: int| 0 <= l < old(self).grid().len() ==> #[trigger] final(self).grid()[l]
                == layer_cols_changed(old(self).grid()[l], cols as int, true),
    {
        match self.side {
            Side::Left => self.change_cols(cols, Side::Left),
            Side::Right => self.change_cols(cols, Side::Left),
        }
    }

    /// Insert (`cols >= 0`) or remove (`cols < 0`, clamped) columns at the
    /// outer edge of every row of every layer, on either side the edge away
    /// from the split line.
    pub fn change_cols_sides(&mut self, cols: i8)
        requires
            old(self).wf(),
        ensures
            final(self).wf(),
            final(self).same_identity(*old(self)),
            final(self).grid().len() == old(self).grid().len(),
            forall|l: int| 0 <= l < old(self).grid().len() ==> #[trigger] final(self).grid()[l]
                == layer_cols_changed(old(self).grid()[l], cols as int, false),
    {
        match self.side {
            Side::Left => self.change_cols(cols, Side::Right),
            Side::Right => self.change_cols(cols, Side::Right),
        }
    }

    /// The shared column edit. `side` names the edge by the flag convention
    /// of the two public operations: `Side::Left` selects the split-line
    /// (center) edge, `Side::Right` the outer edge.
    fn change_cols(&mut self, cols: i8, side: Side)
        requires
            old(self).wf(),
        ensures
            final(self).wf(),
            final(self).same_identity(*old(self)),
            final(self).grid().len() == old(self).grid().len(),
            forall|l: int| 0 <= l < old(self).grid().len() ==> #[trigger] final(self).grid()[l]
                == layer_cols_changed(old(self).grid()[l], cols as int, side == Side::Left),
    {
        let at_center = match side {
            Side::Left => true,
            Side::Right => false,
        };
        let n = self.keymap.len();
        let mut l: usize = 0;
        while l < n
            invariant
                l <= n,
                self.keymap@.len() == n,
                n == old(self).keymap@.len(),
                self.name == old(self).name,
                self.vendor_id == old(self).vendor_id,
                self.macros == old(self).macros,
                self.side == old(self).side,
                at_center == (side == Side::Left),
                forall|j: int| 0 <= j < l ==> (#[trigger] self.keymap@[j].deep_view())
                    == layer_cols_changed(old(self).keymap@[j].deep_view(), cols as int, at_center),
                forall|j: int| l <= j < n ==> self.keymap@[j] == old(self).keymap@[j],
            decreases n - l,
        {
            edit_layer_cols(&mut self.keymap[l], cols, at_center);
            l += 1;
        }
        proof {
            assert(final(self).grid() =~= final(self).keymap.deep_view());
            assert forall|j: int| 0 <= j < n implies #[trigger] final(self).grid()[j]
                == layer_cols_changed(old(self).grid()[j], cols as int, at_center) by {
                assert(final(self).grid()[j] == final(self).keymap@[j].deep_view());
                assert(old(self).grid()[j] == old(self).keymap@[j].deep_view());
            }
            lemma_cols_changed_wf(old(self).grid(), final(self).grid(), cols as int, at_center);
        }
    }

    /// Insert (`rows >= 0`) or remove (`rows < 0`, clamped) rows at the top
    /// of every layer; inserted rows are all blank and as wide as the matrix.
    pub fn change_rows_top(&mut self, rows: i8)
        requires
            old(self).wf(),
            old(self).grid().len() >= 1,
        ensures
            final(self).wf(),
            final(self).same_identity(*old(self)),
            final(self).grid().len() == old(self).grid().len(),
            forall|l: int| 0 <= l < old(self).grid().len() ==> #[trigger] final(self).grid()[l]
                == layer_rows_changed(old(self).grid()[l], rows as int, old(self).spec_width(), true),
    {
        self.change_rows(rows, true);
    }

    /// Insert (`rows >= 0`) or remove (`rows < 0`, clamped) rows at the
    /// bottom of every layer; inserted rows are all blank and as wide as the
    /// matrix.
    pub fn change_rows_bottom(&mut self, rows: i8)
        requires
            old(self).wf(),
            old(self).grid().len() >= 1,
        ensures
            final(self).wf(),
            final(self).same_identity(*old(self)),
            final(self).grid().len() == old(self).grid().len(),
            forall|l: int| 0 <= l < old(self).grid().len() ==> #[trigger] final(self).grid()[l]
                == layer_rows_changed(
                old(self).grid()[l],
                rows as int,
                old(self).spec_width(),
                false,
            ),
    {
        self.change_rows(rows, false);
    }

    /// The shared row edit.
    fn change_rows(&mut self, rows: i8, at_top: bool)
        requires
            old(self).wf(),
            old(self).grid().len() >= 1,
        ensures
            final(self).wf(),
            final(self).same_identity(*old(self)),
            final(self).grid().len() == old(self).grid().len(),
            forall|l: int| 0 <= l < old(self).grid().len() ==> #[trigger] final(self).grid()[l]
                == layer_rows_changed(
                old(self).grid()[l],
                rows as int,
                old(self).spec_width(),
                at_top,
            ),
    {
        let width = self.width();
        let n = self.keymap.len();
        let mut l: usize = 0;
        while l < n
            invariant
                l <= n,
                self.keymap@.len() == n,
                n == old(self).keymap@.len(),
                self.name == old(self).name,
                self.vendor_id == old(self).vendor_id,
                self.macros == old(self).macros,
                self.side == old(self).side,
                width == old(self).spec_width(),
                forall|j: int| 0 <= j < l ==> (#[trigger] self.keymap@[j].deep_view())
                    == layer_rows_changed(
                    old(self).keymap@[j].deep_view(),
                    rows as int,
                    width as nat,
                    at_top,
                ),
                forall|j: int| l <= j < n ==> self.keymap@[j] == old(self).keymap@[j],
            decreases n - l,
        {
            edit_layer_rows(&mut self.keymap[l], rows, width, at_top);
            l += 1;
        }
        proof {
            assert forall|j: int| 0 <= j < n implies #[trigger] final(self).grid()[j]
                == layer_rows_changed(
                old(self).grid()[j],
                rows as int,
                old(self).spec_width(),
                at_top,
            ) by {
                assert(final(self).grid()[j] == final(self).keymap@[j].deep_view());
                assert(old(self).grid()[j] == old(self).keymap@[j].deep_view());
            }
            lemma_rows_changed_wf(
                old(self).grid(),
                final(self).grid(),
                rows as int,
                old(self).spec_width(),
                at_top,
            );
        }
    }

    /// A new matrix tagged with the opposite side, every row of every layer
    /// reversed, identity fields copied unchanged.
    pub fn to_mirrored(&self) -> (r: Self)
        ensures
            r.grid() == mirrored_grid(self.grid()),
            r.spec_side() == opposite_side(self.spec_side()),
            r.spec_name() == self.spec_name(),
            r.spec_vendor() == self.spec_vendor(),
            r.spec_macros() == self.spec_macros(),
            self.wf() ==> r.wf(),
    {
        let mut keymap: Vec<Vec<Vec<Key>>> = Vec::new();
        let mut l: usize = 0;
        let n = self.keymap.len();
        while l < n
            invariant
                l <= n,
                n == self.keymap@.len(),
                keymap@.len() == l,
                forall|j: int| 0 <= j < l ==> (#[trigger] keymap@[j].deep_view()) == mirrored_grid(
                    self.grid(),
                )[j],
            decreases n - l,
        {
            let src = &self.keymap[l];
            let mut layer: Vec<Vec<Key>> = Vec::new();
            let mut y: usize = 0;
            while y < src.len()
                invariant
                    y <= src@.len(),
                    src == &self.keymap@[l as int],
                    src.deep_view() == self.grid()[l as int],
                    0 <= l < self.grid().len(),
                    layer@.len() == y,
                    forall|j: int| 0 <= j < y ==> (#[trigger] layer@[j].deep_view())
                        == self.grid()[l as int][j].reverse(),
                decreases src@.len() - y,
            {
                layer.push(reversed_row(&src[y]));
                proof {
                    assert(src@[y as int].deep_view() == self.grid()[l as int][y as int]);
                }
                y += 1;
            }
            assert(layer.deep_view() =~= mirrored_grid(self.grid())[l as int]);
            keymap.push(layer);
            l += 1;
        }
        assert(keymap.deep_view() =~= mirrored_grid(self.grid()));
        let ghost g = keymap.deep_view();
        let r = KeyMatrix {
            name: self.name.clone(),
            vendor_id: self.vendor_id,
            macros: self.macros_copy(),
            side: self.side.opposite(),
            keymap,
        };
        assert(r.grid() == g);
        proof {
            if self.wf() {
                lemma_mirrored_grid_wf(self.grid());
            }
        }
        r
    }
}

/// The composition-level mirror: the new left half is the old right half
/// reversed and re-tagged, and the new right half likewise comes from the old
/// left half. Both halves are read by value before either result is formed,
/// so the exchange is atomic.
pub fn mirror_pair(left: KeyMatrix, right: KeyMatrix) -> (r: (KeyMatrix, KeyMatrix))
    ensures
        (r.0.grid(), r.1.grid()) == mirror_swap((left.grid(), right.grid())),
        r.0.spec_side() == opposite_side(right.spec_side()),
        r.1.spec_side() == opposite_side(left.spec_side()),
        r.0.spec_name() == right.spec_name(),
        r.0.spec_vendor() == right.spec_vendor(),
        r.0.spec_macros() == right.spec_macros(),
        r.1.spec_name() == left.spec_name(),
        r.1.spec_vendor() == left.spec_vendor(),
        r.1.spec_macros() == left.spec_macros(),
        left.wf() ==> r.1.wf(),
        right.wf() ==> r.0.wf(),
{
    let new_left = right.to_mirrored();
    let new_right = left.to_mirrored();
    (new_left, new_right)
}

/// A column edit keeps the grid rectangular.
proof fn lemma_cols_changed_wf(g: GridCodes, g2: GridCodes, cols: int, at_center: bool)
    requires
        grid_wf(g),
        g2.len() == g.len(),
        forall|l: int| 0 <= l < g.len() ==> #[trigger] g2[l] == layer_cols_changed(
            g[l],
            cols,
            at_center,
        ),
    ensures
        grid_wf(g2),
{
    assert forall|l: int| 0 <= l < g2.len() implies (#[trigger] g2[l]).len() == grid_height(g2) by {
        assert(g2[l].len() == g[l].len());
        assert(g2[0].len() == g[0].len());
    }
    if g2.len() > 0 && g2[0].len() > 0 {
        let w2 = row_cols_changed(g[0][0], cols, at_center).len();
        assert forall|l: int, y: int|
            0 <= l < g2.len() && 0 <= y < g2[l].len() implies (#[trigger] g2[l][y]).len() == w2 by {
            assert(g2[l][y] == row_cols_changed(g[l][y], cols, at_center));
            assert(g[l][y].len() == grid_width(g));
            assert(g[0][0].len() == grid_width(g));
        }
        assert(g2[0][0].len() == w2);
        assert(grid_width(g2) == w2);
    }
}

/// A row edit keeps the grid rectangular.
proof fn lemma_rows_changed_wf(g: GridCodes, g2: GridCodes, rows: int, w: nat, at_top: bool)
    requires
        grid_wf(g),
        w == grid_width(g),
        g2.len() == g.len(),
        g.len() >= 1,
        forall|l: int| 0 <= l < g.len() ==> #[trigger] g2[l] == layer_rows_changed(
            g[l],
            rows,
            w,
            at_top,
        ),
    ensures
        grid_wf(g2),
{
    assert forall|l: int| 0 <= l < g2.len() implies (#[trigger] g2[l]).len() == grid_height(g2) by {
        assert(g[l].len() == grid_height(g));
        assert(g2[0] == layer_rows_changed(g[0], rows, w, at_top));
    }
    assert forall|l: int, y: int|
        0 <= l < g2.len() && 0 <= y < g2[l].len() implies (#[trigger] g2[l][y]).len() == grid_width(
        g2,
    ) by {
        assert(g2[l] == layer_rows_changed(g[l], rows, w, at_top));
        assert(g2[l][y].len() == w);
        assert(g2[0] == layer_rows_changed(g[0], rows, w, at_top));
        if g2[0].len() > 0 {
            assert(g2[0][0].len() == w);
        }
    }
}

} // verus!
