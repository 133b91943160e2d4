//! Native clipboard format builders.
//!
//! The platform clipboard wants an image a second time in its own formats:
//! a device-independent bitmap (header plus bottom-up, BGRA, 32-bit rows)
//! and a file-drop list naming a staged file. These builders produce the
//! exact bytes of both representations; handing them to the operating
//! system, and staging the temporary file, is the application's part.

use vstd::prelude::*;
use vstd::bytes::{spec_u16_to_le_bytes, spec_u32_to_le_bytes, u16_to_le_bytes, u32_to_le_bytes};

verus! {

/// The 40-byte bitmap info header: size, signed dimensions, one plane of
/// 32 bits per pixel, no compression, the pixel-data size, and four zeroed
/// trailing fields.
pub open spec fn dib_header(width: u32, height: u32) -> Seq<u8> {
    spec_u32_to_le_bytes(40) + spec_u32_to_le_bytes(width) + spec_u32_to_le_bytes(height) + seq![
        1u8,
        0u8,
        32u8,
        0u8,
    ] + spec_u32_to_le_bytes(0) + spec_u32_to_le_bytes((4 * width * height) as u32)
        + spec_u32_to_le_bytes(0) + spec_u32_to_le_bytes(0) + spec_u32_to_le_bytes(0)
        + spec_u32_to_le_bytes(0)
}

/// One output row: the source row `src_row` of `rgba`, each pixel's red
/// and blue channels swapped.
pub open spec fn dib_row(rgba: Seq<u8>, width: int, src_row: int) -> Seq<u8> {
    Seq::new(
        (4 * width) as nat,
        |j: int|
            {
                let x = j / 4;
                let c = j % 4;
                let src = src_row * 4 * width + 4 * x;
                if c == 0 {
                    rgba[src + 2]
                } else if c == 1 {
                    rgba[src + 1]
                } else if c == 2 {
                    rgba[src]
                } else {
                    rgba[src + 3]
                }
            },
    )
}

/// The output rows from `y` down: bottom-up, so output row `y` reads
/// source row `height - 1 - y`.
pub open spec fn dib_rows_from(rgba: Seq<u8>, width: int, height: int, y: int) -> Seq<u8>
    decreases height - y,
{
    if y >= height {
        Seq::empty()
    } else {
        dib_row(rgba, width, height - 1 - y) + dib_rows_from(rgba, width, height, y + 1)
    }
}

/// The complete device-independent bitmap for an RGBA buffer.
pub open spec fn dib_bytes(rgba: Seq<u8>, width: u32, height: u32) -> Seq<u8> {
    dib_header(width, height) + dib_rows_from(rgba, width as int, height as int, 0)
}

/// Build the device-independent bitmap representation of an RGBA buffer:
/// the 40-byte header, then the rows bottom-up with each pixel turned from
/// RGBA into BGRA. Rows of 32-bit pixels are already 32-bit aligned.
pub fn build_dib_bytes(rgba: &Vec<u8>, width: u32, height: u32) -> (r: Vec<u8>)
    requires
        rgba@.len() == 4 * width * height,
        4 * width * height <= u32::MAX,
    ensures
        r@ == dib_bytes(rgba@, width, height),
{
    let w = width as usize;
    let h = height as usize;
    let mut out: Vec<u8> = Vec::new();
    let mut t = u32_to_le_bytes(40);
    out.append(&mut t);
    let mut t = u32_to_le_bytes(width);
    out.append(&mut t);
    let mut t = u32_to_le_bytes(height);
    out.append(&mut t);
    out.push(1);
    out.push(0);
    out.push(32);
    out.push(0);
    let mut t = u32_to_le_bytes(0);
    out.append(&mut t);
    proof {
        vstd::arithmetic::mul::lemma_mul_upper_bound(
            4 * width as int,
            0x4_0000_0000 as int,
            height as int,
            0xffff_ffff as int,
        );
    }
    let sz128: u128 = 4u128 * (width as u128) * (height as u128);
    let mut t = u32_to_le_bytes(sz128 as u32);
    out.append(&mut t);
    let mut t = u32_to_le_bytes(0);
    out.append(&mut t);
    let mut t = u32_to_le_bytes(0);
    out.append(&mut t);
    let mut t = u32_to_le_bytes(0);
    out.append(&mut t);
    let mut t = u32_to_le_bytes(0);
    out.append(&mut t);
    assert(out@ =~= dib_header(width, height));
    let mut y: usize = 0;
    while y < h
        invariant
            y <= h,
            w == width,
            h == height,
            rgba@.len() == 4 * w * h,
            4 * w * h <= u32::MAX,
            out@ == dib_header(width, height) + dib_rows_upto(rgba@, w as int, h as int, y as int),
        decreases h - y,
    {
        let src_row = h - 1 - y;
        let mut x: usize = 0;
        while x < w
            invariant
                x <= w,
                y < h,
                w == width,
                h == height,
                src_row == h - 1 - y,
                rgba@.len() == 4 * w * h,
                4 * w * h <= u32::MAX,
                out@ == dib_header(width, height) + dib_rows_upto(
                    rgba@,
                    w as int,
                    h as int,
                    y as int,
                ) + dib_row(rgba@, w as int, src_row as int).subrange(0, 4 * x),
            decreases w - x,
        {
            proof {
                lemma_row_bounds(w as int, h as int, src_row as int, x as int);
                assert(u32::MAX <= usize::MAX);
            }
            let src = (src_row * w + x) * 4;
            assert(src == src_row as int * 4 * w + 4 * x);
            let b0 = rgba[src + 2];
            let b1 = rgba[src + 1];
            let b2 = rgba[src];
            let b3 = rgba[src + 3];
            out.push(b0);
            out.push(b1);
            out.push(b2);
            out.push(b3);
            proof {
                lemma_row_step(rgba@, w as int, src_row as int, x as int);
                assert(out@ =~= dib_header(width, height) + dib_rows_upto(
                    rgba@,
                    w as int,
                    h as int,
                    y as int,
                ) + dib_row(rgba@, w as int, src_row as int).subrange(0, 4 * (x + 1)));
            }
            x += 1;
        }
        proof {
            assert(dib_row(rgba@, w as int, src_row as int).subrange(
                0,
                4 * w as int,
            ) =~= dib_row(rgba@, w as int, src_row as int));
            lemma_rows_upto_step(rgba@, w as int, h as int, y as int);
            assert(out@ =~= dib_header(width, height) + dib_rows_upto(
                rgba@,
                w as int,
                h as int,
                y + 1,
            ));
        }
        y += 1;
    }
    proof {
        lemma_rows_upto_full(rgba@, w as int, h as int);
    }
    out
}

/// The output rows before `y`, top of the output first.
pub open spec fn dib_rows_upto(rgba: Seq<u8>, width: int, height: int, y: int) -> Seq<u8>
    decreases y,
{
    if y <= 0 {
        Seq::empty()
    } else {
        dib_rows_upto(rgba, width, height, y - 1) + dib_row(rgba, width, height - y)
    }
}

/// Appending row `y` extends the built prefix by one output row.
proof fn lemma_rows_upto_step(rgba: Seq<u8>, width: int, height: int, y: int)
    requires
        0 <= y < height,
    ensures
        dib_rows_upto(rgba, width, height, y + 1) == dib_rows_upto(rgba, width, height, y)
            + dib_row(rgba, width, height - 1 - y),
{
}

/// All rows built is the same sequence as all rows from the top.
proof fn lemma_rows_upto_full(rgba: Seq<u8>, width: int, height: int)
    requires
        0 <= height,
        0 <= width,
    ensures
        dib_rows_upto(rgba, width, height, height) == dib_rows_from(rgba, width, height, 0),
{
    lemma_rows_agree(rgba, width, height, height);
    assert(dib_rows_upto(rgba, width, height, height) + dib_rows_from(rgba, width, height, height)
        =~= dib_rows_upto(rgba, width, height, height));
}

/// The prefix built so far and the remaining suffix together make the
/// whole: `upto(y) + from(y)` is independent of `y`.
proof fn lemma_rows_agree(rgba: Seq<u8>, width: int, height: int, y: int)
    requires
        0 <= y <= height,
    ensures
        dib_rows_upto(rgba, width, height, y) + dib_rows_from(rgba, width, height, y)
            == dib_rows_from(rgba, width, height, 0),
    decreases y,
{
    if y == 0 {
        assert(dib_rows_upto(rgba, width, height, 0) + dib_rows_from(rgba, width, height, 0)
            =~= dib_rows_from(rgba, width, height, 0));
    } else {
        lemma_rows_agree(rgba, width, height, y - 1);
        lemma_rows_upto_step(rgba, width, height, y - 1);
        assert(dib_rows_upto(rgba, width, height, y) + dib_rows_from(rgba, width, height, y)
            =~= dib_rows_upto(rgba, width, height, y - 1) + dib_rows_from(
            rgba,
            width,
            height,
            y - 1,
        ));
    }
}

/// Byte offsets into the source row stay inside the buffer.
proof fn lemma_row_bounds(width: int, height: int, src_row: int, x: int)
    requires
        0 <= src_row < height,
        0 <= x < width,
    ensures
        0 <= src_row * width + x,
        (src_row * width + x) * 4 + 3 < 4 * width * height,
        (src_row * width + x) * 4 == src_row * 4 * width + 4 * x,
{
    assert((src_row * width + x) * 4 + 3 < 4 * width * height) by (nonlinear_arith)
        requires
            0 <= src_row < height,
            0 <= x < width,
    ;
    assert(0 <= src_row * width + x) by (nonlinear_arith)
        requires
            0 <= src_row,
            0 <= width,
            0 <= x,
    ;
    assert((src_row * width + x) * 4 == src_row * 4 * width + 4 * x) by (nonlinear_arith);
}

/// The four bytes pushed for pixel `x` are exactly the four bytes of the
/// output row at positions `4x .. 4x+4`.
proof fn lemma_row_step(rgba: Seq<u8>, width: int, src_row: int, x: int)
    requires
        0 <= x < width,
        0 <= src_row,
        src_row * 4 * width + 4 * x + 3 < rgba.len(),
    ensures
        ({
            let row = dib_row(rgba, width, src_row);
            let src = src_row * 4 * width + 4 * x;
            row.subrange(0, 4 * (x + 1)) == row.subrange(0, 4 * x) + seq![
                rgba[src + 2],
                rgba[src + 1],
                rgba[src],
                rgba[src + 3],
            ]
        }),
{
    let row = dib_row(rgba, width, src_row);
    let src = src_row * 4 * width + 4 * x;
    vstd::arithmetic::div_mod::lemma_fundamental_div_mod_converse(4 * x, 4, x, 0);
    vstd::arithmetic::div_mod::lemma_fundamental_div_mod_converse(4 * x + 1, 4, x, 1);
    vstd::arithmetic::div_mod::lemma_fundamental_div_mod_converse(4 * x + 2, 4, x, 2);
    vstd::arithmetic::div_mod::lemma_fundamental_div_mod_converse(4 * x + 3, 4, x, 3);
    assert(row[4 * x] == rgba[src + 2]);
    assert(row[4 * x + 1] == rgba[src + 1]);
    assert(row[4 * x + 2] == rgba[src]);
    assert(row[4 * x + 3] == rgba[src + 3]);
    assert(row.subrange(0, 4 * (x + 1)) =~= row.subrange(0, 4 * x) + seq![
        rgba[src + 2],
        rgba[src + 1],
        rgba[src],
        rgba[src + 3],
    ]);
}

/// The 20-byte drop-files header: the offset of the path list, a zero drop
/// point, not on the non-client area, and wide (UTF-16) paths.
pub open spec fn drop_files_header() -> Seq<u8> {
    spec_u32_to_le_bytes(20) + spec_u32_to_le_bytes(0) + spec_u32_to_le_bytes(0)
        + spec_u32_to_le_bytes(0) + spec_u32_to_le_bytes(1)
}

/// UTF-16 units as little-endian bytes.
pub open spec fn utf16_le_bytes(units: Seq<u16>) -> Seq<u8>
    decreases units.len(),
{
    if units.len() == 0 {
        Seq::empty()
    } else {
        spec_u16_to_le_bytes(units[0]) + utf16_le_bytes(units.drop_first())
    }
}

/// The complete drop-files block for one path: the header, the path's
/// UTF-16 units, its null terminator, and the empty string that ends the
/// list.
pub open spec fn drop_files_bytes(path_utf16: Seq<u16>) -> Seq<u8> {
    drop_files_header() + utf16_le_bytes(path_utf16) + seq![0u8, 0u8, 0u8, 0u8]
}

/// Build the file-drop list representation naming one staged file. The
/// path comes in as UTF-16 units without a terminator.
pub fn build_drop_files_bytes(path_utf16: &Vec<u16>) -> (r: Vec<u8>)
    requires
        path_utf16@.len() * 2 + 24 <= usize::MAX,
    ensures
        r@ == drop_files_bytes(path_utf16@),
{
    let mut out: Vec<u8> = Vec::new();
    let mut t = u32_to_le_bytes(20);
    out.append(&mut t);
    let mut t = u32_to_le_bytes(0);
    out.append(&mut t);
    let mut t = u32_to_le_bytes(0);
    out.append(&mut t);
    let mut t = u32_to_le_bytes(0);
    out.append(&mut t);
    let mut t = u32_to_le_bytes(1);
    out.append(&mut t);
    assert(out@ =~= drop_files_header());
    let mut i: usize = 0;
    proof {
        assert(utf16_prefix(path_utf16@, 0) =~= Seq::<u8>::empty());
    }
    while i < path_utf16.len()
        invariant
            i <= path_utf16@.len(),
            out@ == drop_files_header() + utf16_prefix(path_utf16@, i as int),
        decreases path_utf16@.len() - i,
    {
        let mut t = u16_to_le_bytes(path_utf16[i]);
        out.append(&mut t);
        proof {
            lemma_utf16_prefix_step(path_utf16@, i as int);
        }
        i += 1;
    }
    proof {
        lemma_utf16_prefix_full(path_utf16@);
    }
    out.push(0);
    out.push(0);
    out.push(0);
    out.push(0);
    assert(out@ =~= drop_files_bytes(path_utf16@));
    out
}

/// Bytes of the first `i` UTF-16 units.
pub open spec fn utf16_prefix(units: Seq<u16>, i: int) -> Seq<u8>
    decreases i,
{
    if i <= 0 {
        Seq::empty()
    } else {
        utf16_prefix(units, i - 1) + spec_u16_to_le_bytes(units[i - 1])
    }
}

proof fn lemma_utf16_prefix_step(units: Seq<u16>, i: int)
    requires
        0 <= i < units.len(),
    ensures
        utf16_prefix(units, i + 1) == utf16_prefix(units, i) + spec_u16_to_le_bytes(units[i]),
{
}

proof fn lemma_utf16_prefix_full(units: Seq<u16>)
    ensures
        utf16_prefix(units, units.len() as int) == utf16_le_bytes(units),
    decreases units.len(),
{
    if units.len() == 0 {
        assert(utf16_prefix(units, 0) =~= utf16_le_bytes(units));
    } else {
        lemma_utf16_prefix_full(units.drop_last());
        lemma_utf16_prefix_congruent(units, units.drop_last(), units.len() - 1);
        lemma_utf16_front_back(units);
        assert(utf16_prefix(units, units.len() as int) =~= utf16_prefix(
            units,
            units.len() - 1,
        ) + spec_u16_to_le_bytes(units.last()));
    }
}

/// The prefix bytes depend only on the units below `i`.
proof fn lemma_utf16_prefix_congruent(u1: Seq<u16>, u2: Seq<u16>, i: int)
    requires
        0 <= i <= u1.len(),
        i <= u2.len(),
        forall|k: int| 0 <= k < i ==> u1[k] == u2[k],
    ensures
        utf16_prefix(u1, i) == utf16_prefix(u2, i),
    decreases i,
{
    if i > 0 {
        lemma_utf16_prefix_congruent(u1, u2, i - 1);
    }
}

/// The front-recursive and back-recursive readings agree.
proof fn lemma_utf16_front_back(units: Seq<u16>)
    requires
        units.len() > 0,
    ensures
        utf16_le_bytes(units) == utf16_le_bytes(units.drop_last()) + spec_u16_to_le_bytes(
            units.last(),
        ),
    decreases units.len(),
{
    if units.len() == 1 {
        assert(utf16_le_bytes(units.drop_first()) =~= Seq::<u8>::empty());
        assert(units.drop_last() =~= Seq::<u16>::empty());
        assert(utf16_le_bytes(units) =~= utf16_le_bytes(units.drop_last()) + spec_u16_to_le_bytes(
            units.last(),
        ));
    } else {
        lemma_utf16_front_back(units.drop_first());
        assert(units.drop_first().drop_last() =~= units.drop_last().drop_first());
        assert(units.drop_last()[0] == units[0]);
        assert(utf16_le_bytes(units) =~= utf16_le_bytes(units.drop_last()) + spec_u16_to_le_bytes(
            units.last(),
        ));
    }
}

} // verus!
