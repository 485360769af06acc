//! The overlay surface: its size as the compositor configures it, and the
//! copy of a rendered image into the buffer the compositor shows.

use vstd::prelude::*;

verus! {

/// The size of the overlay surface and whether the compositor has
/// configured it yet.
#[derive(Clone, Copy, Debug, PartialEq, Eq, Structural)]
pub struct LayerSize {
    pub width: u32,
    pub height: u32,
    pub configured: bool,
}

impl LayerSize {
    /// The size asked for, before the compositor has configured the surface.
    pub fn new(width: u32, height: u32) -> (size: Self)
        ensures
            size == (LayerSize { width, height, configured: false }),
    {
        LayerSize { width, height, configured: false }
    }

    /// Applies a configure event: a dimension of zero leaves the choice to
    /// the client, so the current one stays; any other replaces it. The
    /// surface counts as configured afterwards.
    pub fn configure(&mut self, new_width: u32, new_height: u32)
        ensures
            final(self).width == (if new_width != 0 {
                new_width
            } else {
                old(self).width
            }),
            final(self).height == (if new_height != 0 {
                new_height
            } else {
                old(self).height
            }),
            final(self).configured,
    {
        if new_width != 0 {
            self.width = new_width;
        }
        if new_height != 0 {
            self.height = new_height;
        }
        self.configured = true;
    }

    /// The size to draw at, as `i32`s, once the surface is configured;
    /// nothing is drawn before.
    pub fn drawable_size(&self) -> (size: Option<(i32, i32)>)
        ensures
            !self.configured ==> size is None,
            self.configured ==> size == Some(
                (
                    #[verifier::truncate] (self.width as i32),
                    #[verifier::truncate] (self.height as i32),
                ),
            ),
    {
        if !self.configured {
            return None;
        }
        Some((#[verifier::truncate] (self.width as i32), #[verifier::truncate] (self.height as i32)))
    }
}

/// `dst` with row `row` of `src` copied in: the `row_bytes` bytes at
/// `row * src_stride` of `src` replace those at `row * dst_stride` of `dst`.
pub open spec fn copy_row(
    dst: Seq<u8>,
    src: Seq<u8>,
    row: int,
    row_bytes: int,
    src_stride: int,
    dst_stride: int,
) -> Seq<u8> {
    Seq::new(
        dst.len(),
        |i: int|
            if row * dst_stride <= i < row * dst_stride + row_bytes {
                src[row * src_stride + (i - row * dst_stride)]
            } else {
                dst[i]
            },
    )
}

/// `dst` with the first `rows` rows of `src` copied in, one after another.
pub open spec fn rows_copied(
    dst: Seq<u8>,
    src: Seq<u8>,
    rows: int,
    row_bytes: int,
    src_stride: int,
    dst_stride: int,
) -> Seq<u8>
    decreases rows,
{
    if rows <= 0 {
        dst
    } else {
        copy_row(
            rows_copied(dst, src, rows - 1, row_bytes, src_stride, dst_stride),
            src,
            rows - 1,
            row_bytes,
            src_stride,
            dst_stride,
        )
    }
}

/// Whether every one of the `rows` rows lies in both buffers.
pub open spec fn rows_fit(
    dst_len: int,
    src_len: int,
    rows: int,
    row_bytes: int,
    src_stride: int,
    dst_stride: int,
) -> bool {
    rows == 0 || ((rows - 1) * dst_stride + row_bytes <= dst_len && (rows - 1) * src_stride
        + row_bytes <= src_len)
}

/// Whether row `r` of `row_bytes` bytes, rows `stride` bytes apart, ends
/// inside a buffer of `len` bytes.
pub open spec fn row_inside(len: int, r: int, stride: int, row_bytes: int) -> bool {
    r * stride + row_bytes <= len
}

/// The rows fit exactly when each one of them ends inside both buffers.
pub proof fn lemma_rows_fit_when_every_row_fits(
    dst_len: int,
    src_len: int,
    rows: int,
    row_bytes: int,
    src_stride: int,
    dst_stride: int,
)
    requires
        0 <= rows,
        0 <= src_stride,
        0 <= dst_stride,
    ensures
        rows_fit(dst_len, src_len, rows, row_bytes, src_stride, dst_stride) <==> forall|r: int|
            0 <= r < rows ==> #[trigger] row_inside(dst_len, r, dst_stride, row_bytes)
                && row_inside(src_len, r, src_stride, row_bytes),
{
    if rows > 0 {
        if rows_fit(dst_len, src_len, rows, row_bytes, src_stride, dst_stride) {
            assert forall|r: int| 0 <= r < rows implies #[trigger] row_inside(
                dst_len,
                r,
                dst_stride,
                row_bytes,
            ) && row_inside(src_len, r, src_stride, row_bytes) by {
                assert(r * dst_stride <= (rows - 1) * dst_stride && r * src_stride <= (rows - 1)
                    * src_stride) by (nonlinear_arith)
                    requires
                        0 <= r <= rows - 1,
                        0 <= src_stride,
                        0 <= dst_stride,
                ;
            }
        }
        if forall|r: int|
            0 <= r < rows ==> #[trigger] row_inside(dst_len, r, dst_stride, row_bytes)
                && row_inside(src_len, r, src_stride, row_bytes) {
            assert(row_inside(dst_len, rows - 1, dst_stride, row_bytes));
        }
    }
}

/// Buffers of exactly `rows` strides hold all the rows when a row is no
/// longer than either stride.
pub proof fn lemma_whole_buffers_fit(
    rows: int,
    row_bytes: int,
    src_stride: int,
    dst_stride: int,
)
    requires
        0 <= rows,
        0 <= row_bytes <= src_stride,
        row_bytes <= dst_stride,
    ensures
        rows_fit(rows * dst_stride, rows * src_stride, rows, row_bytes, src_stride, dst_stride),
{
    if rows > 0 {
        assert((rows - 1) * dst_stride + dst_stride == rows * dst_stride && (rows - 1) * src_stride
            + src_stride == rows * src_stride) by (nonlinear_arith);
    }
}

/// Whether every one of the `rows` rows lies in both buffers.
pub fn rows_fit_in(
    dst_len: usize,
    src_len: usize,
    rows: usize,
    row_bytes: usize,
    src_stride: usize,
    dst_stride: usize,
) -> (fits: bool)
    ensures
        fits == rows_fit(
            dst_len as int,
            src_len as int,
            rows as int,
            row_bytes as int,
            src_stride as int,
            dst_stride as int,
        ),
        fits == forall|r: int|
            0 <= r < rows ==> #[trigger] row_inside(dst_len as int, r, dst_stride as int, row_bytes as int)
                && row_inside(src_len as int, r, src_stride as int, row_bytes as int),
{
    proof {
        lemma_rows_fit_when_every_row_fits(
            dst_len as int,
            src_len as int,
            rows as int,
            row_bytes as int,
            src_stride as int,
            dst_stride as int,
        );
    }
    if rows == 0 {
        return true;
    }
    let last = (rows - 1) as u128;
    proof {
        assert(last * dst_stride <= 0xffff_ffff_ffff_ffffu128 * 0xffff_ffff_ffff_ffffu128
            && last * src_stride <= 0xffff_ffff_ffff_ffffu128 * 0xffff_ffff_ffff_ffffu128)
            by (nonlinear_arith)
            requires
                last <= 0xffff_ffff_ffff_ffffu128,
                dst_stride <= 0xffff_ffff_ffff_ffffu128,
                src_stride <= 0xffff_ffff_ffff_ffffu128,
        ;
    }
    last * dst_stride as u128 + row_bytes as u128 <= dst_len as u128 && last * src_stride as u128
        + row_bytes as u128 <= src_len as u128
}

/// Copies `rows` rows of `row_bytes` bytes from `data`, whose rows are
/// `src_stride` bytes apart, into `canvas`, whose rows are `dst_stride`
/// bytes apart, first row first.
pub fn copy_rows(
    canvas: &mut [u8],
    data: &[u8],
    rows: usize,
    row_bytes: usize,
    src_stride: usize,
    dst_stride: usize,
)
    requires
        rows_fit(
            old(canvas).len() as int,
            data.len() as int,
            rows as int,
            row_bytes as int,
            src_stride as int,
            dst_stride as int,
        ),
    ensures
        final(canvas)@ == rows_copied(
            old(canvas)@,
            data@,
            rows as int,
            row_bytes as int,
            src_stride as int,
            dst_stride as int,
        ),
{
    let ghost initial = canvas@;
    let mut row: usize = 0;
    while row < rows
        invariant
            row <= rows,
            canvas.len() == initial.len(),
            rows_fit(
                canvas.len() as int,
                data.len() as int,
                rows as int,
                row_bytes as int,
                src_stride as int,
                dst_stride as int,
            ),
            canvas@ == rows_copied(
                initial,
                data@,
                row as int,
                row_bytes as int,
                src_stride as int,
                dst_stride as int,
            ),
        decreases rows - row,
    {
        proof {
            assert(row * dst_stride <= (rows - 1) * dst_stride && row * src_stride <= (rows - 1)
                * src_stride) by (nonlinear_arith)
                requires
                    row <= rows - 1,
            ;
            assert(0 <= row * dst_stride && 0 <= row * src_stride) by (nonlinear_arith);
        }
        let src = row * src_stride;
        let dst = row * dst_stride;
        let ghost before = canvas@;
        let mut i: usize = 0;
        while i < row_bytes
            invariant
                i <= row_bytes,
                src == row * src_stride,
                dst == row * dst_stride,
                dst + row_bytes <= canvas.len(),
                src + row_bytes <= data.len(),
                canvas.len() == before.len(),
                forall|j: int|
                    0 <= j < canvas.len() ==> #[trigger] canvas@[j] == (if dst <= j < dst + i {
                        data@[src + (j - dst)]
                    } else {
                        before[j]
                    }),
            decreases row_bytes - i,
        {
            canvas[dst + i] = data[src + i];
            i = i + 1;
        }
        assert(canvas@ =~= copy_row(
            before,
            data@,
            row as int,
            row_bytes as int,
            src_stride as int,
            dst_stride as int,
        ));
        row = row + 1;
    }
}

/// Where row `r` starts in a buffer whose rows are `stride` bytes apart.
pub open spec fn row_start(r: int, stride: int) -> int {
    r * stride
}

/// Whether position `i` lies in one of the first `rows` rows of
/// `row_bytes` bytes, rows `stride` bytes apart.
pub open spec fn in_copied_row(i: int, rows: int, row_bytes: int, stride: int) -> bool {
    exists|r: int|
        0 <= r < rows && #[trigger] row_start(r, stride) <= i < row_start(r, stride) + row_bytes
}

/// When rows do not overlap in the destination (`row_bytes <= dst_stride`),
/// every copied byte lands at its place in its row and every other byte
/// of the destination stays as it was.
pub proof fn lemma_rows_land_in_place(
    dst: Seq<u8>,
    src: Seq<u8>,
    rows: int,
    row_bytes: int,
    src_stride: int,
    dst_stride: int,
)
    requires
        0 <= rows,
        0 <= row_bytes <= dst_stride,
        0 <= src_stride,
    ensures
        rows_copied(dst, src, rows, row_bytes, src_stride, dst_stride).len() == dst.len(),
        forall|r: int, c: int|
            0 <= r < rows && 0 <= c < row_bytes && r * dst_stride + c < dst.len() ==> #[trigger] rows_copied(
                dst,
                src,
                rows,
                row_bytes,
                src_stride,
                dst_stride,
            )[r * dst_stride + c] == #[trigger] src[r * src_stride + c],
        forall|i: int|
            0 <= i < dst.len() && !in_copied_row(i, rows, row_bytes, dst_stride) ==> #[trigger] rows_copied(
                dst,
                src,
                rows,
                row_bytes,
                src_stride,
                dst_stride,
            )[i] == dst[i],
    decreases rows,
{
    if rows > 0 {
        let k = rows - 1;
        let prev = rows_copied(dst, src, k, row_bytes, src_stride, dst_stride);
        let now = rows_copied(dst, src, rows, row_bytes, src_stride, dst_stride);
        lemma_rows_land_in_place(dst, src, k, row_bytes, src_stride, dst_stride);
        assert(now == copy_row(prev, src, k, row_bytes, src_stride, dst_stride));
        assert forall|r: int, c: int|
            0 <= r < rows && 0 <= c < row_bytes && r * dst_stride + c < dst.len() implies #[trigger] now[r
                * dst_stride + c] == #[trigger] src[r * src_stride + c] by {
            if r < k {
                assert(r * dst_stride + dst_stride <= k * dst_stride) by (nonlinear_arith)
                    requires
                        r < k,
                        dst_stride >= 0,
                ;
                assert(prev[r * dst_stride + c] == src[r * src_stride + c]);
            }
        }
        assert forall|i: int|
            0 <= i < dst.len() && !in_copied_row(i, rows, row_bytes, dst_stride) implies #[trigger] now[i]
            == dst[i] by {
            if k * dst_stride <= i < k * dst_stride + row_bytes {
                assert(row_start(k, dst_stride) <= i < row_start(k, dst_stride) + row_bytes);
            }
            if in_copied_row(i, k, row_bytes, dst_stride) {
                let r = choose|r: int|
                    0 <= r < k && #[trigger] row_start(r, dst_stride) <= i < row_start(r, dst_stride)
                        + row_bytes;
                assert(0 <= r < rows);
            }
        }
    }
}

} // verus!
