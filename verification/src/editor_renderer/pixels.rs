//! Copying a glyph's pixels into an atlas texture, row after row.
use vstd::prelude::*;

verus! {

/// The texture after the first `n` pixels of row `r` of a `w`-wide image
/// were written at `(x0, y0 + r)`, in a texture `stride` pixels wide.
pub open spec fn put_row(
    c: Seq<u8>,
    data: Seq<u8>,
    stride: int,
    x0: int,
    y0: int,
    w: int,
    r: int,
    n: int,
) -> Seq<u8>
    decreases n,
{
    if n <= 0 {
        c
    } else {
        put_row(c, data, stride, x0, y0, w, r, n - 1).update(
            (y0 + r) * stride + x0 + (n - 1),
            data[r * w + (n - 1)],
        )
    }
}

/// The texture after the first `rows` rows of a `w`-wide image were written
/// with their top-left corner at `(x0, y0)`.
pub open spec fn put_rows(
    c: Seq<u8>,
    data: Seq<u8>,
    stride: int,
    x0: int,
    y0: int,
    w: int,
    rows: int,
) -> Seq<u8>
    decreases rows,
{
    if rows <= 0 {
        c
    } else {
        put_row(
            put_rows(c, data, stride, x0, y0, w, rows - 1),
            data,
            stride,
            x0,
            y0,
            w,
            rows - 1,
            w,
        )
    }
}

pub proof fn lemma_put_row_len(
    c: Seq<u8>,
    data: Seq<u8>,
    stride: int,
    x0: int,
    y0: int,
    w: int,
    r: int,
    n: int,
)
    requires
        0 <= stride,
        0 <= x0,
        0 <= y0,
        0 <= r,
        (y0 + r) * stride + x0 + n <= c.len(),
    ensures
        put_row(c, data, stride, x0, y0, w, r, n).len() == c.len(),
    decreases n,
{
    if n > 0 {
        lemma_put_row_len(c, data, stride, x0, y0, w, r, n - 1);
    }
}

pub proof fn lemma_put_rows_len(
    c: Seq<u8>,
    data: Seq<u8>,
    stride: int,
    x0: int,
    y0: int,
    w: int,
    rows: int,
)
    requires
        0 <= stride,
        0 <= x0,
        0 <= y0,
        0 <= w,
        rows <= 0 || w == 0 || (y0 + rows - 1) * stride + x0 + w <= c.len(),
    ensures
        put_rows(c, data, stride, x0, y0, w, rows).len() == c.len(),
    decreases rows,
{
    if rows > 0 && w == 0 {
        lemma_put_rows_len(c, data, stride, x0, y0, w, rows - 1);
    } else if rows > 0 {
        if rows > 1 {
            assert((y0 + rows - 2) * stride + x0 + w <= (y0 + rows - 1) * stride + x0 + w) by (nonlinear_arith)
                requires
                    0 <= stride,
            ;
        }
        lemma_put_rows_len(c, data, stride, x0, y0, w, rows - 1);
        lemma_put_row_len(
            put_rows(c, data, stride, x0, y0, w, rows - 1),
            data,
            stride,
            x0,
            y0,
            w,
            rows - 1,
            w,
        );
    }
}

/// The pixel at index `i` of a texture `stride` pixels wide lies in the `w`
/// by `rows` rectangle whose top-left corner is `(x0, y0)`.
pub open spec fn in_rect(i: int, stride: int, x0: int, y0: int, w: int, rows: int) -> bool {
    &&& y0 <= i / stride < y0 + rows
    &&& x0 <= i % stride < x0 + w
}

/// Writing the first `n` pixels of row `r` leaves every pixel outside the
/// image's rectangle as it was, when the rectangle lies within the width.
pub proof fn lemma_put_row_outside(
    c: Seq<u8>,
    data: Seq<u8>,
    stride: int,
    x0: int,
    y0: int,
    w: int,
    r: int,
    n: int,
    rows: int,
    i: int,
)
    requires
        0 < stride,
        0 <= x0,
        0 <= y0,
        x0 + w <= stride,
        0 <= r < rows,
        0 <= n <= w,
        (y0 + rows - 1) * stride + x0 + w <= c.len(),
        0 <= i < c.len(),
        !in_rect(i, stride, x0, y0, w, rows),
    ensures
        put_row(c, data, stride, x0, y0, w, r, n)[i] == c[i],
    decreases n,
{
    if n > 0 {
        lemma_put_row_outside(c, data, stride, x0, y0, w, r, n - 1, rows, i);
        assert((y0 + r) * stride <= (y0 + rows - 1) * stride) by (nonlinear_arith)
            requires
                0 < stride,
                r <= rows - 1,
        ;
        lemma_put_row_len(c, data, stride, x0, y0, w, r, n - 1);
        let p = (y0 + r) * stride + x0 + (n - 1);
        if i == p {
            vstd::arithmetic::div_mod::lemma_fundamental_div_mod_converse(
                i,
                stride,
                y0 + r,
                x0 + (n - 1),
            );
        }
    }
}

/// Writing an image leaves every pixel outside its rectangle as it was,
/// when the rectangle lies within the width.
pub proof fn lemma_put_rows_outside(
    c: Seq<u8>,
    data: Seq<u8>,
    stride: int,
    x0: int,
    y0: int,
    w: int,
    rows: int,
    i: int,
)
    requires
        0 < stride,
        0 <= x0,
        0 <= y0,
        0 <= w,
        x0 + w <= stride,
        rows <= 0 || w == 0 || (y0 + rows - 1) * stride + x0 + w <= c.len(),
        0 <= i < c.len(),
        !in_rect(i, stride, x0, y0, w, rows),
    ensures
        put_rows(c, data, stride, x0, y0, w, rows)[i] == c[i],
    decreases rows,
{
    if rows > 0 && w == 0 {
        assert(!in_rect(i, stride, x0, y0, w, rows - 1));
        lemma_put_rows_outside(c, data, stride, x0, y0, w, rows - 1, i);
    } else if rows > 0 {
        if rows > 1 {
            assert((y0 + rows - 2) * stride <= (y0 + rows - 1) * stride) by (nonlinear_arith)
                requires
                    0 < stride,
            ;
        }
        assert(!in_rect(i, stride, x0, y0, w, rows - 1));
        lemma_put_rows_outside(c, data, stride, x0, y0, w, rows - 1, i);
        lemma_put_rows_len(c, data, stride, x0, y0, w, rows - 1);
        lemma_put_row_outside(
            put_rows(c, data, stride, x0, y0, w, rows - 1),
            data,
            stride,
            x0,
            y0,
            w,
            rows - 1,
            w,
            rows,
            i,
        );
    }
}

/// Writing the first `n` pixels of row `r` leaves every other pixel as it
/// was.
pub proof fn lemma_put_row_elsewhere(
    c: Seq<u8>,
    data: Seq<u8>,
    stride: int,
    x0: int,
    y0: int,
    w: int,
    r: int,
    n: int,
    i: int,
)
    requires
        0 <= stride,
        0 <= x0,
        0 <= y0,
        0 <= r,
        0 <= n,
        (y0 + r) * stride + x0 + n <= c.len(),
        0 <= i < c.len(),
        i < (y0 + r) * stride + x0 || (y0 + r) * stride + x0 + n <= i,
    ensures
        put_row(c, data, stride, x0, y0, w, r, n)[i] == c[i],
    decreases n,
{
    if n > 0 {
        lemma_put_row_elsewhere(c, data, stride, x0, y0, w, r, n - 1, i);
        lemma_put_row_len(c, data, stride, x0, y0, w, r, n - 1);
        assert(0 <= (y0 + r) * stride) by (nonlinear_arith)
            requires
                0 <= stride,
                0 <= y0 + r,
        ;
    }
}

/// After the first `n` pixels of row `r` were written, pixel `col` of that
/// row holds the image's.
pub proof fn lemma_put_row_inside(
    c: Seq<u8>,
    data: Seq<u8>,
    stride: int,
    x0: int,
    y0: int,
    w: int,
    r: int,
    n: int,
    col: int,
)
    requires
        0 <= stride,
        0 <= x0,
        0 <= y0,
        0 <= r,
        0 <= col < n,
        (y0 + r) * stride + x0 + n <= c.len(),
    ensures
        put_row(c, data, stride, x0, y0, w, r, n)[(y0 + r) * stride + x0 + col] == data[r * w
            + col],
    decreases n,
{
    lemma_put_row_len(c, data, stride, x0, y0, w, r, n - 1);
    assert(0 <= (y0 + r) * stride) by (nonlinear_arith)
        requires
            0 <= stride,
            0 <= y0 + r,
    ;
    if col < n - 1 {
        lemma_put_row_inside(c, data, stride, x0, y0, w, r, n - 1, col);
    }
}

/// After the image was written, each of its pixels lies at its place,
/// when the image lies within the width.
pub proof fn lemma_put_rows_inside(
    c: Seq<u8>,
    data: Seq<u8>,
    stride: int,
    x0: int,
    y0: int,
    w: int,
    rows: int,
    r: int,
    col: int,
)
    requires
        0 <= x0,
        0 <= y0,
        x0 + w <= stride,
        0 <= r < rows,
        0 <= col < w,
        (y0 + rows - 1) * stride + x0 + w <= c.len(),
    ensures
        put_rows(c, data, stride, x0, y0, w, rows)[(y0 + r) * stride + x0 + col] == data[r * w
            + col],
    decreases rows,
{
    let prev = put_rows(c, data, stride, x0, y0, w, rows - 1);
    if rows > 1 {
        assert((y0 + rows - 2) * stride <= (y0 + rows - 1) * stride) by (nonlinear_arith)
            requires
                0 <= stride,
        ;
    }
    lemma_put_rows_len(c, data, stride, x0, y0, w, rows - 1);
    if r == rows - 1 {
        lemma_put_row_inside(prev, data, stride, x0, y0, w, rows - 1, w, col);
    } else {
        lemma_put_rows_inside(c, data, stride, x0, y0, w, rows - 1, r, col);
        assert((y0 + r + 1) * stride <= (y0 + rows - 1) * stride) by (nonlinear_arith)
            requires
                0 <= stride,
                r + 1 <= rows - 1,
        ;
        assert((y0 + r) * stride + stride == (y0 + r + 1) * stride) by (nonlinear_arith);
        assert(0 <= (y0 + r) * stride) by (nonlinear_arith)
            requires
                0 <= stride,
                0 <= y0 + r,
        ;
        lemma_put_row_elsewhere(
            prev,
            data,
            stride,
            x0,
            y0,
            w,
            rows - 1,
            w,
            (y0 + r) * stride + x0 + col,
        );
    }
}

/// Writes the `w` by `h` image `data` into `contents`, a texture `stride`
/// pixels wide, with its top-left corner at `(x0, y0)`.
pub fn put_pixels(
    contents: &mut Vec<u8>,
    stride: u32,
    x0: u32,
    y0: u32,
    data: &Vec<u8>,
    w: u32,
    h: u32,
)
    requires
        w * h <= data@.len(),
        w * h <= u32::MAX,
        y0 + h <= u32::MAX,
        x0 + w <= u32::MAX,
        h == 0 || w == 0 || (y0 + h - 1) * stride + x0 + w <= old(contents)@.len(),
        old(contents)@.len() <= u32::MAX,
    ensures
        final(contents)@ == put_rows(old(contents)@, data@, stride as int, x0 as int, y0 as int, w as int, h as int),
{
    let ghost c0 = contents@;
    let mut y: u32 = 0;
    while y < h
        invariant
            0 <= y <= h,
            w * h <= data@.len(),
            w * h <= u32::MAX,
            y0 + h <= u32::MAX,
            x0 + w <= u32::MAX,
            h == 0 || w == 0 || (y0 + h - 1) * stride + x0 + w <= c0.len(),
            c0.len() <= u32::MAX,
            contents@ == put_rows(c0, data@, stride as int, x0 as int, y0 as int, w as int, y as int),
        decreases h - y,
    {
        let mut x: u32 = 0;
        let ghost base = contents@;
        while x < w
            invariant
                0 <= y < h,
                0 <= x <= w,
                w * h <= data@.len(),
                w * h <= u32::MAX,
                y0 + h <= u32::MAX,
                x0 + w <= u32::MAX,
                w == 0 || (y0 + h - 1) * stride + x0 + w <= c0.len(),
                c0.len() <= u32::MAX,
                base == put_rows(c0, data@, stride as int, x0 as int, y0 as int, w as int, y as int),
                contents@ == put_row(base, data@, stride as int, x0 as int, y0 as int, w as int, y as int, x as int),
            decreases w - x,
        {
            proof {
                assert(y * w + x < w * h) by (nonlinear_arith)
                    requires
                        y < h,
                        x < w,
                ;
                assert((y0 + y) * stride + x0 + x < (y0 + h - 1) * stride + x0 + w) by (nonlinear_arith)
                    requires
                        y < h,
                        x < w,
                ;
                if y > 0 {
                    assert((y0 + y - 1) * stride + x0 + w <= (y0 + h - 1) * stride + x0 + w) by (nonlinear_arith)
                        requires
                            y < h,
                    ;
                }
                lemma_put_rows_len(c0, data@, stride as int, x0 as int, y0 as int, w as int, y as int);
                assert((y0 + y) * stride + x0 + x <= (y0 + h - 1) * stride + x0 + w) by (nonlinear_arith)
                    requires
                        y < h,
                        x < w,
                ;
                lemma_put_row_len(base, data@, stride as int, x0 as int, y0 as int, w as int, y as int, x as int);
            }
            let src_index = (y * w + x) as usize;
            let dst_x = x0 + x;
            let dst_y = y0 + y;
            let dst_index = (dst_y * stride + dst_x) as usize;
            contents.set(dst_index, data[src_index]);
            x = x + 1;
        }
        y = y + 1;
    }
}

} // verus!
