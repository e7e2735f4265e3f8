//! Decoding an encoding gives the grid back, and encoding is stable under that.

use crate::encodings::onebyte_rle::{
    accumulate_runs, decode_outcome, drop_trailing_empty, empty_grid, encode_offset,
    encode_width, expand_runs, has_ink, header_byte, is_ink, is_left_edge, is_right_edge,
    left_edge, lemma_decode_stop, lemma_run_byte_round_trip, lemma_writes_cell, pixel_position,
    right_edge, rle_encoding, run_byte, scan, writes_pixel, DecodeError, EncodeError,
};
use crate::types::{dims_valid, flat_index, lemma_cell_in_grid, lemma_position_in_grid, ColorIndex};
use vstd::arithmetic::div_mod::{lemma_fundamental_div_mod, lemma_fundamental_div_mod_converse};
use vstd::prelude::*;

verus! {

/// The pixels that a list of (colour, length) runs stands for.
pub open spec fn run_colors(runs: Seq<(ColorIndex, int)>) -> Seq<ColorIndex>
    decreases runs.len(),
{
    if runs.len() == 0 {
        Seq::empty()
    } else {
        run_colors(runs.drop_last()) + Seq::new(runs.last().1 as nat, |_i: int| runs.last().0)
    }
}

/// Every run lasts 1 to 32 pixels.
pub open spec fn runs_fit(runs: Seq<(ColorIndex, int)>) -> bool {
    forall|i: int| 0 <= i < runs.len() ==> 1 <= (#[trigger] runs[i]).1 <= 32
}

proof fn lemma_run_colors_append(a: Seq<(ColorIndex, int)>, b: Seq<(ColorIndex, int)>)
    ensures
        run_colors(a + b) == run_colors(a) + run_colors(b),
    decreases b.len(),
{
    if b.len() == 0 {
        assert(a + b =~= a);
        assert(run_colors(a) + run_colors(b) =~= run_colors(a));
    } else {
        lemma_run_colors_append(a, b.drop_last());
        assert((a + b).drop_last() =~= a + b.drop_last());
        assert(run_colors(a + b) =~= run_colors(a) + run_colors(b));
    }
}

/// The runs gathered from a colour sequence stand for exactly that sequence.
proof fn lemma_accumulate_expands(s: Seq<ColorIndex>)
    ensures
        run_colors(accumulate_runs(s)) == s,
        runs_fit(accumulate_runs(s)),
    decreases s.len(),
{
    if s.len() > 0 {
        let prev = accumulate_runs(s.drop_last());
        lemma_accumulate_expands(s.drop_last());
        let c = s.last();
        if prev.len() > 0 && prev.last().0 == c && prev.last().1 < 32 {
            let l = prev.last().1;
            let r = prev.update(prev.len() - 1, (c, l + 1));
            assert(r.drop_last() =~= prev.drop_last());
            assert(r.last() == (c, l + 1));
            assert(prev.last() == (c, l));
            assert(run_colors(prev) == run_colors(prev.drop_last()) + Seq::new(l as nat, |_i: int| c));
            assert(s =~= s.drop_last().push(c));
            assert(Seq::new((prev.last().1 + 1) as nat, |_i: int| c) =~= Seq::new(
                prev.last().1 as nat,
                |_i: int| c,
            ).push(c));
            assert(run_colors(r) =~= s);
        } else {
            let r = prev.push((c, 1));
            assert(r.drop_last() =~= prev);
            assert(run_colors(r) =~= s);
        }
    }
}

/// Dropping the trailing `Empty` runs keeps a prefix whose last run, if any, is
/// not `Empty`; every dropped run is `Empty`.
proof fn lemma_drop_trailing(r: Seq<(ColorIndex, int)>)
    ensures
        ({
            let d = drop_trailing_empty(r);
            &&& d.len() <= r.len()
            &&& d == r.take(d.len() as int)
            &&& forall|i: int| d.len() <= i < r.len() ==> (#[trigger] r[i]).0 == ColorIndex::Empty
            &&& d.len() > 0 ==> d.last().0 != ColorIndex::Empty
        }),
    decreases r.len(),
{
    if r.len() > 0 && r.last().0 == ColorIndex::Empty {
        lemma_drop_trailing(r.drop_last());
        let d = drop_trailing_empty(r);
        assert(d == r.drop_last().take(d.len() as int));
        assert(d =~= r.take(d.len() as int));
        assert forall|i: int| d.len() <= i < r.len() implies (#[trigger] r[i]).0 == ColorIndex::Empty by {
            if i < r.len() - 1 {
                assert(r.drop_last()[i] == r[i]);
            }
        }
    } else {
        assert(r =~= r.take(r.len() as int));
    }
}

/// Runs that are all `Empty` stand for `Empty` pixels only.
proof fn lemma_blank_run_colors(r: Seq<(ColorIndex, int)>)
    requires
        forall|i: int| 0 <= i < r.len() ==> (#[trigger] r[i]).0 == ColorIndex::Empty,
    ensures
        forall|k: int| 0 <= k < run_colors(r).len() ==> #[trigger] run_colors(r)[k] == ColorIndex::Empty,
    decreases r.len(),
{
    if r.len() > 0 {
        lemma_blank_run_colors(r.drop_last());
        assert(r.last() == r[r.len() - 1]);
    }
}

/// The run bytes of fitting runs decode to the pixels those runs stand for.
proof fn lemma_expand_run_bytes(r: Seq<(ColorIndex, int)>)
    requires
        runs_fit(r),
    ensures
        expand_runs(r.map_values(|x: (ColorIndex, int)| run_byte(x.0, x.1) as u8)) == run_colors(r),
    decreases r.len(),
{
    if r.len() > 0 {
        let f = |x: (ColorIndex, int)| run_byte(x.0, x.1) as u8;
        assert(r.map_values(f).drop_last() =~= r.drop_last().map_values(f));
        lemma_expand_run_bytes(r.drop_last());
        assert(r.last() == r[r.len() - 1]);
        lemma_run_byte_round_trip(r.last().0, r.last().1);
        assert(expand_runs(r.map_values(f)) =~= run_colors(r));
    }
}

/// Column bounds over the first `i` cells: `c` is an ink column among them and no
/// ink among them lies left of it.
spec fn left_upto(px: Seq<ColorIndex>, w: int, trim: int, i: int, c: int) -> bool {
    &&& exists|j: int| 0 <= j < i && #[trigger] is_ink(px, w, trim, j) && j % w == c
    &&& forall|j: int| 0 <= j < i && #[trigger] is_ink(px, w, trim, j) ==> c <= j % w
}

/// `c` is an ink column among the first `i` cells and no ink among them lies right of it.
spec fn right_upto(px: Seq<ColorIndex>, w: int, trim: int, i: int, c: int) -> bool {
    &&& exists|j: int| 0 <= j < i && #[trigger] is_ink(px, w, trim, j) && j % w == c
    &&& forall|j: int| 0 <= j < i && #[trigger] is_ink(px, w, trim, j) ==> j % w <= c
}

proof fn lemma_edges_upto(px: Seq<ColorIndex>, w: int, trim: int, i: int)
    requires
        0 <= i <= px.len(),
    ensures
        (exists|j: int| 0 <= j < i && #[trigger] is_ink(px, w, trim, j)) ==> (exists|c: int| #[trigger] left_upto(px, w, trim, i, c)) && (exists|c: int| #[trigger] right_upto(px, w, trim, i, c)),
    decreases i,
{
    if i > 0 {
        lemma_edges_upto(px, w, trim, i - 1);
        let x = (i - 1) % w;
        if exists|j: int| 0 <= j < i - 1 && #[trigger] is_ink(px, w, trim, j) {
            let l = choose|c: int| #[trigger] left_upto(px, w, trim, i - 1, c);
            let r = choose|c: int| #[trigger] right_upto(px, w, trim, i - 1, c);
            if is_ink(px, w, trim, i - 1) {
                let l2 = if x < l { x } else { l };
                let r2 = if x > r { x } else { r };
                assert(left_upto(px, w, trim, i, l2));
                assert(right_upto(px, w, trim, i, r2));
            } else {
                assert(left_upto(px, w, trim, i, l));
                assert(right_upto(px, w, trim, i, r));
            }
        } else if is_ink(px, w, trim, i - 1) {
            assert(left_upto(px, w, trim, i, x));
            assert(right_upto(px, w, trim, i, x));
        }
    }
}

/// With ink present, the chosen edges are the ink's leftmost and rightmost
/// columns; either way they lie inside the grid and bound every ink cell.
proof fn lemma_edges_hold(px: Seq<ColorIndex>, w: int, trim: int)
    requires
        w >= 1,
    ensures
        has_ink(px, w, trim) ==> is_left_edge(px, w, trim, left_edge(px, w, trim)),
        has_ink(px, w, trim) ==> is_right_edge(px, w, trim, right_edge(px, w, trim)),
        0 <= left_edge(px, w, trim) <= right_edge(px, w, trim) < w,
        forall|i: int|
            #[trigger] is_ink(px, w, trim, i) ==> left_edge(px, w, trim) <= i % w <= right_edge(
                px,
                w,
                trim,
            ),
{
    if has_ink(px, w, trim) {
        lemma_edges_upto(px, w, trim, px.len() as int);
        let i0 = choose|i: int| is_ink(px, w, trim, i);
        assert(0 <= i0 < px.len() && is_ink(px, w, trim, i0));
        let l = choose|c: int| #[trigger] left_upto(px, w, trim, px.len() as int, c);
        let r = choose|c: int| #[trigger] right_upto(px, w, trim, px.len() as int, c);
        assert(is_left_edge(px, w, trim, l));
        assert(is_right_edge(px, w, trim, r));
        let le = left_edge(px, w, trim);
        let re = right_edge(px, w, trim);
        let jl = choose|j: int| #[trigger] is_ink(px, w, trim, j) && j % w == le;
        let jr = choose|j: int| #[trigger] is_ink(px, w, trim, j) && j % w == re;
        assert(le <= i0 % w <= re);
    }
}

/// Two grids that agree at and after row `trim` encode alike.
pub proof fn lemma_encoding_ignores_trimmed_rows(
    px1: Seq<ColorIndex>,
    px2: Seq<ColorIndex>,
    n: int,
    w: int,
    trim: int,
)
    requires
        dims_valid(n, w),
        px1.len() == n,
        px2.len() == n,
        0 <= trim,
        forall|i: int| 0 <= i < n && i / w >= trim ==> px1[i] == px2[i],
    ensures
        rle_encoding(px1, w, n / w, trim) == rle_encoding(px2, w, n / w, trim),
{
    assert forall|i: int| is_ink(px1, w, trim, i) == is_ink(px2, w, trim, i) by {}
    assert(has_ink(px1, w, trim) == has_ink(px2, w, trim));
    lemma_edges_hold(px1, w, trim);
    lemma_edges_hold(px2, w, trim);
    if has_ink(px1, w, trim) {
        let l1 = left_edge(px1, w, trim);
        let l2 = left_edge(px2, w, trim);
        let r1 = right_edge(px1, w, trim);
        let r2 = right_edge(px2, w, trim);
        let a = choose|j: int| #[trigger] is_ink(px1, w, trim, j) && j % w == l1;
        let b = choose|j: int| #[trigger] is_ink(px2, w, trim, j) && j % w == l2;
        assert(is_ink(px2, w, trim, a));
        assert(is_ink(px1, w, trim, b));
        assert(l1 == l2);
        let c = choose|j: int| #[trigger] is_ink(px1, w, trim, j) && j % w == r1;
        let d = choose|j: int| #[trigger] is_ink(px2, w, trim, j) && j % w == r2;
        assert(is_ink(px2, w, trim, c));
        assert(is_ink(px1, w, trim, d));
        assert(r1 == r2);
    }
    let off = encode_offset(px1, w, trim);
    let wd = encode_width(px1, w, trim);
    let h = n / w;
    let s1 = scan(px1, w, h, trim, off, wd);
    let s2 = scan(px2, w, h, trim, off, wd);
    assert forall|k: int| 0 <= k < s1.len() implies s1[k] == s2[k] by {
        let cols = wd + 1;
        let rows = if trim < h { h - trim } else { 0 };
        lemma_scan_cell(rows, cols, k);
        lemma_cell_in_grid(n, w, off + k % cols, trim + k / cols);
    }
    assert(s1 =~= s2);
}

/// A position `k` among `rows * cols` cells read row by row lies in row
/// `k / cols` and column `k % cols`.
proof fn lemma_scan_cell(rows: int, cols: int, k: int)
    requires
        1 <= cols,
        0 <= k < rows * cols,
    ensures
        0 <= k % cols < cols,
        0 <= k / cols < rows,
        k == (k / cols) * cols + k % cols,
{
    lemma_fundamental_div_mod(k, cols);
    assert(0 <= k / cols < rows) by (nonlinear_arith)
        requires
            k == cols * (k / cols) + k % cols,
            0 <= k % cols < cols,
            0 <= k < rows * cols,
            1 <= cols,
    ;
    assert((k / cols) * cols == cols * (k / cols)) by (nonlinear_arith);
}


/// The `k`-th scanned cell of columns `off ..= off + wd` from row `trim` lies in
/// the grid, in that column and row.
proof fn lemma_scan_position(n: int, w: int, trim: int, off: int, wd: int, k: int)
    requires
        dims_valid(n, w),
        0 <= off,
        0 <= wd,
        off + wd < w,
        0 <= trim,
        0 <= k < (if trim < n / w { n / w - trim } else { 0 }) * (wd + 1),
    ensures
        ({
            let cols = wd + 1;
            let p = flat_index(w, off + k % cols, trim + k / cols);
            &&& 0 <= p < n
            &&& p % w == off + k % cols
            &&& p / w == trim + k / cols
            &&& k == (k / cols) * cols + k % cols
            &&& 0 <= k % cols < cols
        }),
{
    let cols = wd + 1;
    let rows = if trim < n / w { n / w - trim } else { 0 };
    lemma_scan_cell(rows, cols, k);
    lemma_cell_in_grid(n, w, off + k % cols, trim + k / cols);
}

/// Decoding the encoding of a grid onto an `Empty` grid, from the same row `trim`,
/// gives back every cell at and after that row. This holds whenever the grid
/// encodes and its last cell is `Empty` (the decoder never writes the last cell).
pub proof fn lemma_round_trip(px: Seq<ColorIndex>, n: int, w: int, trim: int)
    requires
        dims_valid(n, w),
        px.len() == n,
        0 <= trim <= 255,
        rle_encoding(px, w, n / w, trim) is Ok,
        px[n - 1] == ColorIndex::Empty,
    ensures
        rle_encoding(px, w, n / w, trim) matches Ok(bytes) ==> {
            let (out, status) = decode_outcome(empty_grid(n), n, w, bytes, trim, true);
            &&& status == Ok::<(), DecodeError>(())
            &&& out.len() == n
            &&& forall|i: int| 0 <= i < n && i / w >= trim ==> out[i] == px[i]
        },
{
    let h = n / w;
    lemma_edges_hold(px, w, trim);
    let off = encode_offset(px, w, trim);
    let wd = encode_width(px, w, trim);
    let cols = wd + 1;
    let rows = if trim < h { h - trim } else { 0 };
    let s = scan(px, w, h, trim, off, wd);
    let rs = accumulate_runs(s);
    let d = drop_trailing_empty(rs);
    let f = |x: (ColorIndex, int)| run_byte(x.0, x.1) as u8;
    let hb = header_byte(off, wd) as u8;
    let bytes = seq![hb] + d.map_values(f);
    assert(rle_encoding(px, w, h, trim) == Ok::<Seq<u8>, EncodeError>(bytes));
    // the header names the scanned columns
    lemma_fundamental_div_mod_converse(off * 32 + wd, 32, off, wd);
    assert(hb / 32 == off && hb % 32 == wd);
    assert(bytes[0] == hb);
    assert(bytes.drop_first() =~= d.map_values(f));
    // the decoded pixels are the scanned cells up to the last non-Empty run
    lemma_accumulate_expands(s);
    lemma_drop_trailing(rs);
    let tail = rs.skip(d.len() as int);
    assert(rs =~= d + tail);
    assert(runs_fit(d));
    lemma_expand_run_bytes(d);
    lemma_run_colors_append(d, tail);
    assert forall|i: int| 0 <= i < tail.len() implies (#[trigger] tail[i]).0 == ColorIndex::Empty by {
        assert(tail[i] == rs[d.len() + i]);
    }
    lemma_blank_run_colors(tail);
    let colors = expand_runs(bytes.drop_first());
    let len = colors.len() as int;
    assert(colors == run_colors(d));
    assert(s == colors + run_colors(tail));
    assert forall|k: int| 0 <= k < len implies #[trigger] colors[k] == s[k] by {}
    assert forall|k: int| len <= k < s.len() implies #[trigger] s[k] == ColorIndex::Empty by {
        assert(s[k] == run_colors(tail)[k - len]);
    }
    if d.len() > 0 {
        assert(d.last() == d[d.len() - 1]);
        assert(colors[len - 1] == d.last().0);
    }
    // every decoded pixel lies before the grid's last cell
    lemma_fundamental_div_mod(n, w);
    assert(n - 1 == (h - 1) * w + (w - 1)) by (nonlinear_arith)
        requires
            n == w * h,
    ;
    lemma_fundamental_div_mod_converse(n - 1, w, h - 1, w - 1);
    assert forall|k: int| 0 <= k < len implies #[trigger] pixel_position(w, hb, trim, k) < n - 1 by {
        lemma_scan_position(n, w, trim, off, wd, k);
        let p = pixel_position(w, hb, trim, k);
        if p == n - 1 {
            assert(k % cols == cols - 1);
            assert(k / cols == rows - 1);
            assert(k == s.len() - 1) by (nonlinear_arith)
                requires
                    k == (k / cols) * cols + k % cols,
                    k % cols == cols - 1,
                    k / cols == rows - 1,
                    s.len() == rows * cols,
            ;
            assert(s[k] == px[n - 1]);
        }
    }
    lemma_decode_stop(n, w, hb, trim, len, 0, len);
    assert forall|j: int| 0 <= j < len implies 0 <= #[trigger] pixel_position(w, hb, trim, j) < n by {
        lemma_scan_position(n, w, trim, off, wd, j);
    }
    let out = decode_outcome(empty_grid(n), n, w, bytes, trim, true).0;
    lemma_writes_cell(empty_grid(n), w, hb, trim, colors, true, len, 0);
    assert forall|i: int| 0 <= i < n && i / w >= trim implies out[i] == px[i] by {
        lemma_position_in_grid(n, w, i);
        let x = i % w;
        let y = i / w;
        lemma_writes_cell(empty_grid(n), w, hb, trim, colors, true, len, i);
        if off <= x <= off + wd {
            let k = (y - trim) * cols + (x - off);
            assert(0 <= k < rows * cols) by (nonlinear_arith)
                requires
                    k == (y - trim) * cols + (x - off),
                    0 <= x - off < cols,
                    0 <= y - trim < rows,
            ;
            lemma_fundamental_div_mod_converse(k, cols, y - trim, x - off);
            lemma_scan_position(n, w, trim, off, wd, k);
            assert(pixel_position(w, hb, trim, k) == i);
            assert forall|j: int| 0 <= j < len && j != k implies #[trigger] pixel_position(w, hb, trim, j) != i by {
                lemma_scan_position(n, w, trim, off, wd, j);
            }
            if k < len {
                assert(writes_pixel(colors, true, k));
            } else {
                assert(s[k] == px[i]);
            }
        } else {
            assert forall|j: int| 0 <= j < len implies #[trigger] pixel_position(w, hb, trim, j) != i by {
                lemma_scan_position(n, w, trim, off, wd, j);
            }
            if px[i] != ColorIndex::Empty {
                assert(is_ink(px, w, trim, i));
            }
        }
    }
}

/// Encoding a grid, decoding the bytes onto an `Empty` grid from the same row and
/// encoding the result from that row again gives the same bytes. This holds
/// whenever the grid encodes and its last cell is `Empty`.
pub proof fn lemma_encode_idempotent(px: Seq<ColorIndex>, n: int, w: int, trim: int)
    requires
        dims_valid(n, w),
        px.len() == n,
        0 <= trim <= 255,
        rle_encoding(px, w, n / w, trim) is Ok,
        px[n - 1] == ColorIndex::Empty,
    ensures
        rle_encoding(px, w, n / w, trim) matches Ok(bytes) ==> rle_encoding(
            decode_outcome(empty_grid(n), n, w, bytes, trim, true).0,
            w,
            n / w,
            trim,
        ) == rle_encoding(px, w, n / w, trim),
{
    lemma_round_trip(px, n, w, trim);
    if let Ok(bytes) = rle_encoding(px, w, n / w, trim) {
        let out = decode_outcome(empty_grid(n), n, w, bytes, trim, true).0;
        lemma_encoding_ignores_trimmed_rows(out, px, n, w, trim);
    }
}

} // verus!
