//! The flat layout representation and the split/join conversions.
//!
//! A `Config` stores, per logical layer, one flat row-major array of key
//! codes covering both keyboard halves side by side: for each row group `y`
//! of a layout of declared width `w` and height `h`, the left half's row is
//! the slice at offset `y*w` in stored order, and the right half's row is the
//! slice at offset `(h+y)*w` taken in reverse, so that in both half matrices
//! index 0 of a row is the edge at the split line. Joining emits the left
//! rows in stored order and the right rows reversed again, which restores the
//! flat convention exactly.

use vstd::prelude::*;
use vstd::seq_lib::lemma_flatten_concat;
use crate::key::{Key, Side};
use crate::matrix::{GridCodes, KeyMatrix, LayerCodes};

verus! {

broadcast use crate::views::lemma_vec_deep_view_len, crate::views::lemma_vec_deep_view_index;

/// The per-layer flat key codes of a layout.
pub type FlatCodes = Seq<Seq<Seq<char>>>;

/// The left half's grid for a layout of the given flat layers and declared
/// dimensions: row `y` of layer `l` is the flat slice at offset `y*w`, in
/// stored order.
pub open spec fn left_grid_of(layers: FlatCodes, w: nat, h: nat) -> GridCodes {
    Seq::new(
        layers.len(),
        |l: int| Seq::new(h, |y: int| Seq::new(w, |x: int| layers[l][y * w + x])),
    )
}

/// The right half's grid: row `y` of layer `l` is the flat slice at offset
/// `(h+y)*w`, reversed, so index 0 is the key nearest the split line.
pub open spec fn right_grid_of(layers: FlatCodes, w: nat, h: nat) -> GridCodes {
    Seq::new(
        layers.len(),
        |l: int|
            Seq::new(
                h,
                |y: int| Seq::new(w, |x: int| layers[l][(h + y) * w + (w - 1 - x)]),
            ),
    )
}

/// Each row reversed, in place.
pub open spec fn reversed_rows(rows: LayerCodes) -> LayerCodes {
    Seq::new(rows.len(), |y: int| rows[y].reverse())
}

/// One joined flat layer: the left half's rows in stored order, then the
/// right half's rows each reversed.
pub open spec fn joined_layer(gl: LayerCodes, gr: LayerCodes) -> Seq<Seq<char>> {
    gl.flatten() + reversed_rows(gr).flatten()
}

/// The flat layout: identity fields plus one flat key-code array per layer.
#[allow(non_snake_case)]
#[derive(Debug)]
pub struct Config {
    pub name: String,
    pub vendorProductId: usize,
    pub macros: Vec<String>,
    pub layers: Vec<Vec<String>>,
}

impl Config {
    /// The key codes of the flat layers.
    pub open spec fn spec_layers(self) -> FlatCodes {
        self.layers.deep_view()
    }

    /// Every layer's flat length equals `2*w*h`: the layout is compatible
    /// with the declared dimensions.
    pub open spec fn dims_ok(self, w: nat, h: nat) -> bool {
        forall|l: int|
            0 <= l < self.spec_layers().len() ==> (#[trigger] self.spec_layers()[l]).len() == 2 * w
                * h
    }

    /// Split the flat layout into its two halves, of `h` rows of `w` keys
    /// each per layer. Yields nothing unless every layer has exactly
    /// `2*w*h` keys.
    pub fn split_map(&self, w: usize, h: usize) -> (r: Option<(KeyMatrix, KeyMatrix)>)
        ensures
            r.is_some() <==> self.dims_ok(w as nat, h as nat),
            r.is_some() ==> {
                &&& r.unwrap().0.grid() == left_grid_of(self.spec_layers(), w as nat, h as nat)
                &&& r.unwrap().1.grid() == right_grid_of(self.spec_layers(), w as nat, h as nat)
                &&& r.unwrap().0.spec_side() == Side::Left
                &&& r.unwrap().1.spec_side() == Side::Right
                &&& r.unwrap().0.spec_name() == self.name@
                &&& r.unwrap().1.spec_name() == self.name@
                &&& r.unwrap().0.spec_vendor() == self.vendorProductId
                &&& r.unwrap().1.spec_vendor() == self.vendorProductId
                &&& r.unwrap().0.spec_macros() == self.macros.deep_view()
                &&& r.unwrap().1.spec_macros() == self.macros.deep_view()
                &&& r.unwrap().0.wf()
                &&& r.unwrap().1.wf()
            },
    {
        let n = self.layers.len();
        let expected: Option<usize> = match w.checked_mul(h) {
            Some(wh) => wh.checked_mul(2),
            None => None,
        };
        proof {
            assert(2 * (w as int) * (h as int) == ((w as int) * (h as int)) * 2)
                by (nonlinear_arith);
            assert((w as int) * (h as int) <= ((w as int) * (h as int)) * 2) by (nonlinear_arith)
                requires
                    0 <= (w as int) * (h as int),
            ;
            assert(0 <= (w as int) * (h as int)) by (nonlinear_arith)
                requires
                    0 <= w as int,
                    0 <= h as int,
            ;
        }
        let mut ok = true;
        let ghost mut bad: int = 0;
        let mut l: usize = 0;
        while l < n
            invariant
                l <= n,
                n == self.layers@.len(),
                expected.is_some() ==> expected.unwrap() == 2 * (w as int) * (h as int),
                expected.is_none() ==> 2 * (w as int) * (h as int) > usize::MAX,
                ok ==> forall|j: int|
                    0 <= j < l ==> (#[trigger] self.spec_layers()[j]).len() == 2 * (w as int) * (
                    h as int),
                !ok ==> 0 <= bad < l && self.spec_layers()[bad].len() != 2 * (w as int) * (h as int),
            decreases n - l,
        {
            let len_l = self.layers[l].len();
            assert(len_l == self.spec_layers()[l as int].len());
            let good = match expected {
                Some(t) => len_l == t,
                None => false,
            };
            if !good && ok {
                ok = false;
                proof {
                    bad = l as int;
                }
            }
            l += 1;
        }
        if !ok {
            assert(!self.dims_ok(w as nat, h as nat));
            return None;
        }
        assert(self.dims_ok(w as nat, h as nat));

        let ghost lg = left_grid_of(self.spec_layers(), w as nat, h as nat);
        let ghost rg = right_grid_of(self.spec_layers(), w as nat, h as nat);
        let mut left_layers: Vec<Vec<Vec<Key>>> = Vec::new();
        let mut right_layers: Vec<Vec<Vec<Key>>> = Vec::new();
        let mut l: usize = 0;
        while l < n
            invariant
                l <= n,
                n == self.layers@.len(),
                self.dims_ok(w as nat, h as nat),
                lg == left_grid_of(self.spec_layers(), w as nat, h as nat),
                rg == right_grid_of(self.spec_layers(), w as nat, h as nat),
                left_layers@.len() == l,
                right_layers@.len() == l,
                forall|j: int| 0 <= j < l ==> (#[trigger] left_layers@[j].deep_view()) == lg[j],
                forall|j: int| 0 <= j < l ==> (#[trigger] right_layers@[j].deep_view()) == rg[j],
            decreases n - l,
        {
            let src: &Vec<String> = &self.layers[l];
            let src_len = src.len();
            assert(src.deep_view() == self.spec_layers()[l as int]);
            assert(src_len == 2 * (w as int) * (h as int));
            let mut lk: Vec<Vec<Key>> = Vec::new();
            let mut rk: Vec<Vec<Key>> = Vec::new();
            let mut y: usize = 0;
            while y < h
                invariant
                    y <= h,
                    src_len == src@.len(),
                    src@.len() == 2 * (w as int) * (h as int),
                    src.deep_view() == self.spec_layers()[l as int],
                    0 <= l < self.spec_layers().len(),
                    lg == left_grid_of(self.spec_layers(), w as nat, h as nat),
                    rg == right_grid_of(self.spec_layers(), w as nat, h as nat),
                    lk@.len() == y,
                    rk@.len() == y,
                    forall|j: int| 0 <= j < y ==> (#[trigger] lk@[j].deep_view()) == lg[l as int][j],
                    forall|j: int| 0 <= j < y ==> (#[trigger] rk@[j].deep_view()) == rg[l as int][j],
                decreases h - y,
            {
                let mut lrow: Vec<Key> = Vec::new();
                let mut rrow: Vec<Key> = Vec::new();
                let mut x: usize = 0;
                while x < w
                    invariant
                        x <= w,
                        y < h,
                        src_len == src@.len(),
                        src@.len() == 2 * (w as int) * (h as int),
                        lrow@.len() == x,
                        rrow@.len() == x,
                        forall|j: int| 0 <= j < x ==> (#[trigger] lrow@[j].deep_view())
                            == src@[y * w + j].deep_view(),
                        forall|j: int| 0 <= j < x ==> (#[trigger] rrow@[j].deep_view())
                            == src@[(h + y) * w + (w - 1 - j)].deep_view(),
                    decreases w - x,
                {
                    proof {
                        lemma_split_index_bounds(w as int, h as int, y as int, x as int);
                        assert(2 * ((w as int) * (h as int)) == src_len as int);
                        assert((w as int) * (h as int) <= usize::MAX);
                    }
                    let li = y * w + x;
                    let ri = (h + y) * w + (w - 1 - x);
                    lrow.push(Key::new(src[li].clone()));
                    rrow.push(Key::new(src[ri].clone()));
                    x += 1;
                }
                proof {
                    assert forall|j: int| 0 <= j < w implies lg[l as int][y as int][j] == src@[y * w
                        + j].deep_view() by {
                        lemma_split_index_bounds(w as int, h as int, y as int, j);
                    }
                    assert forall|j: int| 0 <= j < w implies rg[l as int][y as int][j] == src@[(h
                        + y) * w + (w - 1 - j)].deep_view() by {
                        lemma_split_index_bounds(w as int, h as int, y as int, j);
                    }
                    assert(lrow.deep_view() =~= lg[l as int][y as int]);
                    assert(rrow.deep_view() =~= rg[l as int][y as int]);
                }
                lk.push(lrow);
                rk.push(rrow);
                y += 1;
            }
            assert(lk.deep_view() =~= lg[l as int]);
            assert(rk.deep_view() =~= rg[l as int]);
            left_layers.push(lk);
            right_layers.push(rk);
            l += 1;
        }
        assert(left_layers.deep_view() =~= lg);
        assert(right_layers.deep_view() =~= rg);
        let left = KeyMatrix::from_parts(
            self.name.clone(),
            self.vendorProductId,
            clone_strings(&self.macros),
            Side::Left,
            left_layers,
        );
        let right = KeyMatrix::from_parts(
            self.name.clone(),
            self.vendorProductId,
            clone_strings(&self.macros),
            Side::Right,
            right_layers,
        );
        proof {
            lemma_split_grid_wf(self.spec_layers(), w as nat, h as nat);
        }
        Some((left, right))
    }

    /// Join two halves back into one flat layout: per layer, the left half's
    /// rows in stored order, then the right half's rows each reversed.
    /// Identity fields are copied from the left half.
    pub fn join_maps(left: &KeyMatrix, right: &KeyMatrix) -> (r: Config)
        requires
            left.grid().len() == right.grid().len(),
        ensures
            r.name@ == left.spec_name(),
            r.vendorProductId == left.spec_vendor(),
            r.macros.deep_view() == left.spec_macros(),
            r.layers@.len() == left.grid().len(),
            forall|l: int| 0 <= l < left.grid().len() ==> (#[trigger] r.layers@[l].deep_view())
                == joined_layer(left.grid()[l], right.grid()[l]),
    {
        let n = left.layers();
        let mut layers: Vec<Vec<String>> = Vec::new();
        let mut l: usize = 0;
        while l < n
            invariant
                l <= n,
                n == left.grid().len(),
                n == right.grid().len(),
                layers@.len() == l,
                forall|j: int| 0 <= j < l ==> (#[trigger] layers@[j].deep_view()) == joined_layer(
                    left.grid()[j],
                    right.grid()[j],
                ),
            decreases n - l,
        {
            let mut flat: Vec<String> = Vec::new();
            let lrows = left.layer_at(l);
            let ghost gl = left.grid()[l as int];
            proof {
                assert(flat.deep_view() =~= gl.take(0).flatten());
            }
            let mut y: usize = 0;
            while y < lrows.len()
                invariant
                    y <= lrows@.len(),
                    lrows.deep_view() == gl,
                    flat.deep_view() == gl.take(y as int).flatten(),
                decreases lrows@.len() - y,
            {
                let row = &lrows[y];
                assert(row.deep_view() == gl[y as int]);
                let ghost flat0 = flat.deep_view();
                let mut x: usize = 0;
                while x < row.len()
                    invariant
                        x <= row@.len(),
                        row.deep_view() == gl[y as int],
                        flat0 == gl.take(y as int).flatten(),
                        flat@.len() == flat0.len() + x,
                        forall|j: int| 0 <= j < flat0.len() ==> (#[trigger] flat@[j].deep_view())
                            == flat0[j],
                        forall|j: int| flat0.len() <= j < flat@.len() ==> (#[trigger] flat@[
                            j
                        ].deep_view()) == gl[y as int][j - flat0.len()],
                    decreases row@.len() - x,
                {
                    let s = key_code_string(&row[x]);
                    proof {
                        assert(gl[y as int][x as int] == row@[x as int].deep_view());
                    }
                    flat.push(s);
                    x += 1;
                }
                proof {
                    assert(flat.deep_view() =~= flat0 + gl[y as int]);
                    lemma_flatten_push(gl.take(y as int), gl[y as int]);
                    assert(gl.take(y as int).push(gl[y as int]) =~= gl.take(y as int + 1));
                    assert(flat.deep_view() =~= gl.take(y as int + 1).flatten());
                }
                y += 1;
            }
            proof {
                assert(gl.take(lrows@.len() as int) =~= gl);
            }
            let rrows = right.layer_at(l);
            let ghost gr = right.grid()[l as int];
            let ghost base = gl.flatten();
            proof {
                assert(flat.deep_view() =~= base + reversed_rows(gr).take(0).flatten());
            }
            let mut y: usize = 0;
            while y < rrows.len()
                invariant
                    y <= rrows@.len(),
                    rrows.deep_view() == gr,
                    base == gl.flatten(),
                    flat.deep_view() == base + reversed_rows(gr).take(y as int).flatten(),
                decreases rrows@.len() - y,
            {
                let row = &rrows[y];
                assert(row.deep_view() == gr[y as int]);
                let ghost flat0 = flat.deep_view();
                let mut x: usize = row.len();
                while x > 0
                    invariant
                        x <= row@.len(),
                        row.deep_view() == gr[y as int],
                        flat0 == base + reversed_rows(gr).take(y as int).flatten(),
                        flat@.len() == flat0.len() + (row@.len() - x),
                        forall|j: int| 0 <= j < flat0.len() ==> (#[trigger] flat@[j].deep_view())
                            == flat0[j],
                        forall|j: int| flat0.len() <= j < flat@.len() ==> (#[trigger] flat@[
                            j
                        ].deep_view()) == gr[y as int][row@.len() - 1 - (j - flat0.len())],
                    decreases x,
                {
                    x -= 1;
                    let s = key_code_string(&row[x]);
                    proof {
                        assert(gr[y as int][x as int] == row@[x as int].deep_view());
                    }
                    flat.push(s);
                }
                proof {
                    assert(gr[y as int].len() == row@.len());
                    assert(flat.deep_view() =~= flat0 + gr[y as int].reverse());
                    lemma_flatten_push(reversed_rows(gr).take(y as int), gr[y as int].reverse());
                    assert(reversed_rows(gr).take(y as int).push(gr[y as int].reverse())
                        =~= reversed_rows(gr).take(y as int + 1));
                    assert(flat.deep_view() =~= base + reversed_rows(gr).take(
                        y as int + 1,
                    ).flatten());
                }
                y += 1;
            }
            proof {
                assert(reversed_rows(gr).take(rrows@.len() as int) =~= reversed_rows(gr));
                assert(flat.deep_view() == joined_layer(left.grid()[l as int], right.grid()[
                    l as int
                ]));
            }
            layers.push(flat);
            l += 1;
        }
        Config {
            name: left.name_copy(),
            vendorProductId: left.vendor(),
            macros: left.macros_copy(),
            layers,
        }
    }
}

/// The key code of one key, as a fresh string.
fn key_code_string(k: &Key) -> (r: String)
    ensures
        r@ == k@,
{
    k.k().to_owned()
}

/// A copy of a list of strings.
fn clone_strings(v: &Vec<String>) -> (r: Vec<String>)
    ensures
        r.deep_view() == v.deep_view(),
{
    let mut out: Vec<String> = Vec::new();
    let mut i: usize = 0;
    while i < v.len()
        invariant
            i <= v@.len(),
            out@.len() == i,
            forall|j: int| 0 <= j < i ==> (#[trigger] out@[j].deep_view()) == v@[j].deep_view(),
        decreases v@.len() - i,
    {
        out.push(v[i].clone());
        i += 1;
    }
    assert(out.deep_view() =~= v.deep_view());
    out
}

/// Index bounds for the split slices: with `0 <= x < w` and `0 <= y < h`,
/// the left index `y*w + x` falls in the first half of the flat array and
/// the right index `(h+y)*w + (w-1-x)` in the second half.
proof fn lemma_split_index_bounds(w: int, h: int, y: int, x: int)
    requires
        0 <= x < w,
        0 <= y < h,
    ensures
        0 <= y * w,
        y * w + x < w * h,
        0 <= w - 1 - x,
        h + y <= (h + y) * w,
        w * h <= (h + y) * w + (w - 1 - x),
        (h + y) * w + (w - 1 - x) < 2 * (w * h),
        2 * w * h == 2 * (w * h),
        0 < w * h,
{
    assert(y * w + x < w * h) by (nonlinear_arith)
        requires
            0 <= x < w,
            0 <= y < h,
    ;
    assert(0 <= y * w) by (nonlinear_arith)
        requires
            0 <= y,
            0 < w,
    ;
    assert(h + y <= (h + y) * w) by (nonlinear_arith)
        requires
            0 < w,
            0 <= y,
            0 < h,
    ;
    assert(w * h <= (h + y) * w + (w - 1 - x)) by (nonlinear_arith)
        requires
            0 <= x < w,
            0 <= y < h,
    ;
    assert((h + y) * w + (w - 1 - x) < 2 * (w * h)) by (nonlinear_arith)
        requires
            0 <= x < w,
            0 <= y < h,
    ;
    assert(2 * w * h == 2 * (w * h)) by (nonlinear_arith);
    assert(0 < w * h) by (nonlinear_arith)
        requires
            0 < w,
            0 < h,
    ;
}

/// The grids a split produces are rectangular: every layer has `h` rows and
/// every row has `w` keys.
proof fn lemma_split_grid_wf(layers: FlatCodes, w: nat, h: nat)
    ensures
        crate::matrix::grid_wf(left_grid_of(layers, w, h)),
        crate::matrix::grid_wf(right_grid_of(layers, w, h)),
{
    let lg = left_grid_of(layers, w, h);
    let rg = right_grid_of(layers, w, h);
    assert forall|l: int, y: int|
        0 <= l < lg.len() && 0 <= y < lg[l].len() implies (#[trigger] lg[l][y]).len()
        == crate::matrix::grid_width(lg) by {
        assert(lg[l][y].len() == w);
        assert(lg[0].len() == h);
        if h > 0 {
            assert(lg[0][0].len() == w);
        }
    }
    assert forall|l: int, y: int|
        0 <= l < rg.len() && 0 <= y < rg[l].len() implies (#[trigger] rg[l][y]).len()
        == crate::matrix::grid_width(rg) by {
        assert(rg[l][y].len() == w);
        assert(rg[0].len() == h);
        if h > 0 {
            assert(rg[0][0].len() == w);
        }
    }
}

/// The keys of `s` from `off` on, cut into `h` consecutive chunks of `w`.
spec fn chunk_rows<A>(s: Seq<A>, off: int, w: nat, h: nat) -> Seq<Seq<A>> {
    Seq::new(h, |y: int| s.subrange(off + y * w, off + y * w + w))
}

/// Flattening consecutive chunks gives back the contiguous slice they cover.
proof fn lemma_flatten_chunks<A>(s: Seq<A>, off: int, w: nat, h: nat)
    requires
        0 <= off,
        off + h * w <= s.len(),
    ensures
        chunk_rows(s, off, w, h).flatten() == s.subrange(off, off + h * w),
    decreases h,
{
    let rows = chunk_rows(s, off, w, h);
    if h == 0 {
        assert(rows.len() == 0);
        assert(rows.flatten() =~= s.subrange(off, off + h * w));
    } else {
        assert(h * w == (h - 1) * w + w) by (nonlinear_arith);
        assert(0 <= (h - 1) * w) by (nonlinear_arith)
            requires
                0 <= h - 1,
                0 <= w,
        ;
        let tail = chunk_rows(s, off + w, w, (h - 1) as nat);
        assert forall|y: int| 0 <= y < h - 1 implies rows.drop_first()[y] == tail[y] by {
            assert(rows.drop_first()[y] == rows[y + 1]);
            assert((y + 1) * w == y * w + w) by (nonlinear_arith);
        }
        assert(rows.drop_first() =~= tail);
        lemma_flatten_chunks(s, off + w, w, (h - 1) as nat);
        assert(rows.first() == s.subrange(off, off + w));
        assert(rows.flatten() == rows.first() + rows.drop_first().flatten());
        assert(s.subrange(off, off + w) + s.subrange(off + w, off + h * w) =~= s.subrange(
            off,
            off + h * w,
        ));
    }
}

/// The split/join round trip: for a flat layout every one of whose layers has
/// exactly `2*w*h` keys, joining the two grids that splitting yields
/// reproduces each layer's key sequence exactly.
pub proof fn lemma_split_join_round_trip(layers: FlatCodes, w: nat, h: nat)
    requires
        forall|l: int| 0 <= l < layers.len() ==> (#[trigger] layers[l]).len() == 2 * w * h,
    ensures
        forall|l: int|
            0 <= l < layers.len() ==> joined_layer(
                #[trigger] left_grid_of(layers, w, h)[l],
                right_grid_of(layers, w, h)[l],
            ) == layers[l],
{
    let wi = w as int;
    let hi = h as int;
    assert(2 * wi * hi == wi * hi + wi * hi) by (nonlinear_arith);
    assert(0 <= wi * hi) by (nonlinear_arith)
        requires
            0 <= wi,
            0 <= hi,
    ;
    assert(hi * wi == wi * hi) by (nonlinear_arith);
    assert forall|l: int| 0 <= l < layers.len() implies joined_layer(
        #[trigger] left_grid_of(layers, w, h)[l],
        right_grid_of(layers, w, h)[l],
    ) == layers[l] by {
        let la = layers[l];
        let gl = left_grid_of(layers, w, h)[l];
        let gr = right_grid_of(layers, w, h)[l];
        assert(la.len() == 2 * wi * hi);

        assert forall|y: int| 0 <= y < h implies gl[y] == chunk_rows(la, 0, w, h)[y] by {
            assert(0 <= y * wi && y * wi + wi <= wi * hi) by (nonlinear_arith)
                requires
                    0 <= y < hi,
                    0 <= wi,
            ;
            assert forall|x: int| 0 <= x < w implies gl[y][x] == la.subrange(
                y * wi,
                y * wi + wi,
            )[x] by {
                assert(gl[y][x] == la[y * wi + x]);
            }
            assert(gl[y] =~= la.subrange(y * wi, y * wi + wi));
        }
        assert(gl =~= chunk_rows(la, 0, w, h));
        lemma_flatten_chunks(la, 0, w, h);
        assert(gl.flatten() == la.subrange(0, hi * wi));

        let rr = reversed_rows(gr);
        assert forall|y: int| 0 <= y < h implies rr[y] == chunk_rows(la, wi * hi, w, h)[y] by {
            assert(0 <= y * wi && y * wi + wi <= wi * hi) by (nonlinear_arith)
                requires
                    0 <= y < hi,
                    0 <= wi,
            ;
            assert((hi + y) * wi == hi * wi + y * wi) by (nonlinear_arith);
            assert(rr[y] == gr[y].reverse());
            assert(gr[y].len() == w);
            assert forall|x: int| 0 <= x < w implies gr[y].reverse()[x] == la.subrange(
                wi * hi + y * wi,
                wi * hi + y * wi + wi,
            )[x] by {
                assert(gr[y].reverse()[x] == gr[y][wi - 1 - x]);
                assert(gr[y][wi - 1 - x] == la[(hi + y) * wi + (wi - 1 - (wi - 1 - x))]);
                assert((hi + y) * wi + (wi - 1 - (wi - 1 - x)) == hi * wi + y * wi + x);
            }
            assert(gr[y].reverse() =~= la.subrange(wi * hi + y * wi, wi * hi + y * wi + wi));
        }
        assert(rr =~= chunk_rows(la, wi * hi, w, h));
        lemma_flatten_chunks(la, wi * hi, w, h);
        assert(rr.flatten() == la.subrange(wi * hi, wi * hi + hi * wi));

        assert(la.subrange(0, hi * wi) + la.subrange(wi * hi, wi * hi + hi * wi) =~= la);
        assert(joined_layer(gl, gr) == la);
    }
}

/// Appending one more row to a sequence of rows appends its keys to the
/// flattening.
proof fn lemma_flatten_push<A>(s: Seq<Seq<A>>, r: Seq<A>)
    ensures
        (s.push(r)).flatten() == s.flatten() + r,
{
    assert(s.push(r) =~= s + seq![r]);
    lemma_flatten_concat(s, seq![r]);
    seq![r].lemma_flatten_one_element();
    assert(seq![r].first() == r);
    assert(s.flatten() + seq![r].flatten() =~= s.flatten() + r);
    assert((s + seq![r]).flatten() =~= s.flatten() + r);
}

} // verus!
