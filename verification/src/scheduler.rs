//! Scanline scheduling: how a worker claims the next row of the image, and
//! how the rows that the workers hand back become the image buffer.
//!
//! Workers share one counter. Each claim takes the counter's next value,
//! which the counter hands out once, and a worker stops at the first value
//! that is not a row of the image. Rows come back in whatever order the workers
//! finished them; the merge puts them in ascending order of their index
//! before it joins them, so that the buffer does not depend on that order.

use vstd::prelude::*;
use atomic_counter::{AtomicCounter, RelaxedCounter};
use crate::error::RenderError;
use crate::sort::{
    ascending, distinct_keys, lemma_distinct_keys_permuted, lemma_item_of_permutation,
    lemma_sorted, lemma_sorted_order_independent, sort_range, sorted, Keyed,
};

verus! {

/// `atomic_counter::RelaxedCounter`: a counter that threads share. What it
/// holds at any moment depends on all of them, so it is carried and never
/// looked into.
#[verifier::external_type_specification]
#[verifier::external_body]
pub struct ExRelaxedCounter(atomic_counter::RelaxedCounter);

/// One finished row: its bytes, three to a pixel, and its index in the
/// image, counted from the top.
#[derive(Clone, Debug)]
pub struct RtRet {
    pub im: Vec<u8>,
    pub i_id: usize,
}

/// The colour of one pixel, each channel from 0 to 255.
#[derive(Clone, Copy, Debug, PartialEq, Eq, Structural)]
pub struct Pixel {
    pub r: u8,
    pub g: u8,
    pub b: u8,
}

impl Keyed for RtRet {
    /// A row is ordered by its index, whatever `by` is.
    open spec fn key(&self, by: int) -> int {
        self.i_id as int
    }

    fn key_exceeds(&self, other: &Self, by: i8) -> (r: bool) {
        self.i_id > other.i_id
    }
}

/// The bytes of `rows`, joined in the order in which the rows stand.
pub open spec fn concat(rows: Seq<RtRet>) -> Seq<u8>
    decreases rows.len(),
{
    if rows.len() == 0 {
        Seq::empty()
    } else {
        concat(rows.drop_last()) + rows.last().im@
    }
}

/// The bytes of `rows`, joined in ascending order of the rows' indices.
pub open spec fn merged(rows: Seq<RtRet>) -> Seq<u8> {
    concat(sorted(rows, 0))
}

/// The size in bytes of an image of the given width and height.
pub open spec fn image_len(target_width: u32, target_height: u32) -> int {
    target_width * target_height * 3
}

/// `AtomicCounter::inc` on a `RelaxedCounter`: adds one to the counter and
/// returns the value that it had before. Which value that is depends on the
/// claims of the other workers, so the contract says nothing of it.
#[verifier::external_body]
fn take_ticket(y_counter: &RelaxedCounter) -> (ticket: usize) {
    y_counter.inc()
}

/// The row that a ticket stands for: the ticket itself while it is a row of
/// the image, and none from the image's height on.
pub open spec fn row_of(ticket: usize, target_height: u32) -> Option<u32> {
    if ticket < target_height {
        Some(ticket as u32)
    } else {
        None
    }
}

/// Finds the row that a ticket stands for.
pub fn row_for_ticket(ticket: usize, target_height: u32) -> (row: Option<u32>)
    ensures
        row == row_of(ticket, target_height),
{
    if ticket < target_height as usize {
        Some(ticket as u32)
    } else {
        None
    }
}

/// Claims the next row for the calling worker. `None` tells the worker to
/// stop: every row has been claimed.
pub fn claim_row(y_counter: &RelaxedCounter, target_height: u32) -> (row: Option<u32>)
    ensures
        row matches Some(y) ==> y < target_height,
{
    let ticket = take_ticket(y_counter);
    row_for_ticket(ticket, target_height)
}

/// No row is handed out twice, and every row is handed out: two tickets
/// that stand for the same row are the same ticket, and every row of the
/// image has its ticket.
pub proof fn lemma_tickets_and_rows(first: usize, second: usize, y: u32, target_height: u32)
    ensures
        row_of(first, target_height).is_some() && row_of(first, target_height) == row_of(
            second,
            target_height,
        ) ==> first == second,
        y < target_height ==> row_of(y as usize, target_height) == Some(y),
{
}

/// The row `row` is the row `y` of an image of the given width, painted by
/// `pixel`: it has the index `y`, and its bytes are, pixel by pixel from
/// the left, the red, green and blue that `pixel` returned for the column
/// and `y`.
pub open spec fn painted<F: Fn(u32, u32) -> Result<Pixel, RenderError>>(
    row: RtRet,
    y: u32,
    target_width: u32,
    pixel: F,
) -> bool {
    &&& row.i_id == y
    &&& row.im@.len() == 3 * target_width
    &&& forall|x: u32|
        x < target_width ==> call_ensures(
            pixel,
            (x, y),
            Ok::<Pixel, RenderError>(
                Pixel {
                    r: #[trigger] row.im@[3 * x],
                    g: row.im@[3 * x + 1],
                    b: row.im@[3 * x + 2],
                },
            ),
        )
}

/// Paints the row `y`: asks `pixel` for every column from the left, and
/// stops at the first that fails.
pub fn render_row<F: Fn(u32, u32) -> Result<Pixel, RenderError>>(
    y: u32,
    target_width: u32,
    pixel: &F,
) -> (out: Result<RtRet, RenderError>)
    requires
        forall|x: u32| x < target_width ==> call_requires(*pixel, (x, y)),
    ensures
        match out {
            Ok(row) => painted(row, y, target_width, *pixel),
            Err(e) => exists|x: u32|
                x < target_width && call_ensures(*pixel, (x, y), Err::<Pixel, RenderError>(e)),
        },
{
    let mut im: Vec<u8> = Vec::new();
    let mut x: u32 = 0;
    while x < target_width
        invariant
            x <= target_width,
            im@.len() == 3 * x,
            forall|x: u32| x < target_width ==> call_requires(*pixel, (x, y)),
            forall|k: u32|
                k < x ==> call_ensures(
                    *pixel,
                    (k, y),
                    Ok::<Pixel, RenderError>(
                        Pixel { r: #[trigger] im@[3 * k], g: im@[3 * k + 1], b: im@[3 * k + 2] },
                    ),
                ),
        decreases target_width - x,
    {
        match pixel(x, y) {
            Ok(p) => {
                im.push(p.r);
                im.push(p.g);
                im.push(p.b);
            },
            Err(e) => {
                return Err(e);
            },
        }
        x += 1;
    }
    Ok(RtRet { im, i_id: y as usize })
}

/// The work of one render thread: claims rows until none is left, paints
/// each of them, and returns them in the order in which it claimed them.
/// The first pixel that fails ends the work. A worker that has painted as
/// many rows as the image has stops without asking for more.
pub fn raytrace<F: Fn(u32, u32) -> Result<Pixel, RenderError>>(
    target_width: u32,
    target_height: u32,
    y_counter: &RelaxedCounter,
    pixel: &F,
) -> (out: Result<Vec<RtRet>, RenderError>)
    requires
        forall|x: u32, y: u32|
            x < target_width && y < target_height ==> call_requires(*pixel, (x, y)),
    ensures
        match out {
            Ok(ims) => forall|i: int|
                0 <= i < ims@.len() ==> (#[trigger] ims@[i]).i_id < target_height && painted(
                    ims@[i],
                    ims@[i].i_id as u32,
                    target_width,
                    *pixel,
                ),
            Err(e) => exists|x: u32, y: u32|
                x < target_width && y < target_height && call_ensures(
                    *pixel,
                    (x, y),
                    Err::<Pixel, RenderError>(e),
                ),
        },
{
    let mut ims: Vec<RtRet> = Vec::new();
    while ims.len() < target_height as usize
        invariant
            forall|x: u32, y: u32|
                x < target_width && y < target_height ==> call_requires(*pixel, (x, y)),
            forall|i: int|
                0 <= i < ims@.len() ==> (#[trigger] ims@[i]).i_id < target_height && painted(
                    ims@[i],
                    ims@[i].i_id as u32,
                    target_width,
                    *pixel,
                ),
        decreases target_height - ims@.len(),
    {
        match claim_row(y_counter, target_height) {
            None => {
                return Ok(ims);
            },
            Some(y) => {
                match render_row(y, target_width, pixel) {
                    Ok(row) => {
                        ims.push(row);
                    },
                    Err(e) => {
                        return Err(e);
                    },
                }
            },
        }
    }
    Ok(ims)
}

/// Joins the rows into the image buffer, in ascending order of their
/// indices, and checks that they make up an image of the given size.
pub fn merge_rows(rets: Vec<RtRet>, target_width: u32, target_height: u32) -> (out: Result<
    Vec<u8>,
    RenderError,
>)
    ensures
        merged(rets@).len() == image_len(target_width, target_height) ==> (out matches Ok(im_raw)
            && im_raw@ == merged(rets@)),
        merged(rets@).len() != image_len(target_width, target_height) ==> out == Err::<
            Vec<u8>,
            RenderError,
        >(
            RenderError::BufferSizeMismatch {
                expected: image_len(target_width, target_height) as u128,
                actual: merged(rets@).len() as usize,
            },
        ),
{
    let ghost given = rets@;
    let mut rets = rets;
    let n = rets.len();
    sort_range(&mut rets, 0, n, 0);
    proof {
        assert(given.subrange(0, n as int) =~= given);
        assert(rets@ =~= sorted(given, 0));
    }
    let ghost rows = rets@;
    let mut im_raw: Vec<u8> = Vec::new();
    let mut i: usize = 0;
    while i < rets.len()
        invariant
            i <= rets.len(),
            rets.len() == rows.len(),
            forall|k: int| i <= k < rows.len() ==> rets@[k] == rows[k],
            im_raw@ == concat(rows.take(i as int)),
        decreases rets.len() - i,
    {
        proof {
            assert(rows.take(i + 1).drop_last() =~= rows.take(i as int));
        }
        let mut row: Vec<u8> = Vec::new();
        core::mem::swap(&mut row, &mut rets[i].im);
        im_raw.append(&mut row);
        i += 1;
    }
    proof {
        assert(rows.take(i as int) =~= rows);
    }
    proof {
        assert(target_width * target_height <= 0xFFFF_FFFF * 0xFFFF_FFFF) by (nonlinear_arith)
            requires
                target_width <= 0xFFFF_FFFF,
                target_height <= 0xFFFF_FFFF,
        ;
    }
    let expected: u128 = (target_width as u128) * (target_height as u128) * 3;
    let actual = im_raw.len();
    if actual as u128 == expected {
        Ok(im_raw)
    } else {
        Err(RenderError::BufferSizeMismatch { expected, actual })
    }
}

/// The image buffer depends on which rows came back, not on the order in
/// which they came: two batches that hold the same rows, no two of them with
/// the same index, merge to the same bytes.
pub proof fn lemma_merge_ignores_arrival_order(a: Seq<RtRet>, b: Seq<RtRet>)
    requires
        distinct_keys(a, 0),
        a.to_multiset() == b.to_multiset(),
    ensures
        sorted(a, 0) == sorted(b, 0),
        merged(a) == merged(b),
{
    lemma_sorted_order_independent(a, b, 0);
}

/// Rows of one length, joined: the bytes of the row at place `y` start at
/// `y` times that length.
pub proof fn lemma_concat_of_equal_rows(rows: Seq<RtRet>, len: nat, y: int, k: int)
    requires
        forall|i: int| 0 <= i < rows.len() ==> (#[trigger] rows[i]).im@.len() == len,
        0 <= y < rows.len(),
        0 <= k < len,
    ensures
        concat(rows).len() == rows.len() * len,
        0 <= y * len + k < concat(rows).len(),
        concat(rows)[y * len + k] == rows[y].im@[k],
    decreases rows.len(),
{
    let front = rows.drop_last();
    assert forall|i: int| 0 <= i < front.len() implies (#[trigger] front[i]).im@.len() == len by {
        assert(front[i] == rows[i]);
    }
    lemma_concat_len(front, len);
    assert(rows.len() * len == front.len() * len + len) by (nonlinear_arith)
        requires
            rows.len() == front.len() + 1,
    ;
    if y < front.len() {
        lemma_concat_of_equal_rows(front, len, y, k);
        assert(front[y] == rows[y]);
    } else {
        assert(y * len == front.len() * len) by (nonlinear_arith)
            requires
                y == front.len(),
        ;
    }
    assert(0 <= y * len) by (nonlinear_arith)
        requires
            0 <= y,
    ;
}

/// Rows of one length, joined, are as long as their number times that
/// length.
pub proof fn lemma_concat_len(rows: Seq<RtRet>, len: nat)
    requires
        forall|i: int| 0 <= i < rows.len() ==> (#[trigger] rows[i]).im@.len() == len,
    ensures
        concat(rows).len() == rows.len() * len,
    decreases rows.len(),
{
    if rows.len() > 0 {
        let front = rows.drop_last();
        assert forall|i: int| 0 <= i < front.len() implies (#[trigger] front[i]).im@.len()
            == len by {
            assert(front[i] == rows[i]);
        }
        lemma_concat_len(front, len);
        assert(rows.len() * len == front.len() * len + len) by (nonlinear_arith)
            requires
                rows.len() == front.len() + 1,
        ;
    } else {
        assert(rows.len() * len == 0) by (nonlinear_arith)
            requires
                rows.len() == 0,
        ;
    }
}

/// Rows in ascending order with distinct indices climb by at least one
/// from each to the next.
proof fn lemma_indices_climb(rows: Seq<RtRet>, i: int, j: int)
    requires
        ascending(rows, 0),
        distinct_keys(rows, 0),
        0 <= i <= j < rows.len(),
    ensures
        rows[j].i_id - rows[i].i_id >= j - i,
    decreases j - i,
{
    if i < j {
        lemma_indices_climb(rows, i, j - 1);
        assert(rows[j - 1].key(0) <= rows[j].key(0));
        assert(rows[j - 1].key(0) != rows[j].key(0));
    }
}

/// The bytes of `buffer` at which the row with index `y` of an image of
/// the given width stands.
pub open spec fn row_of_image(buffer: Seq<u8>, target_width: u32, y: int) -> Seq<u8> {
    buffer.subrange(y * (3 * target_width), (y + 1) * (3 * target_width))
}

/// A batch that holds as many rows as the image has, no two with the same
/// index and each with an index of the image, holds every row of the
/// image: in ascending order, the row at place `y` has the index `y`.
pub proof fn lemma_batch_is_complete(rets: Seq<RtRet>, target_height: u32)
    requires
        rets.len() == target_height,
        distinct_keys(rets, 0),
        forall|i: int| 0 <= i < rets.len() ==> (#[trigger] rets[i]).i_id < target_height,
    ensures
        sorted(rets, 0).len() == target_height,
        sorted(rets, 0).to_multiset() == rets.to_multiset(),
        forall|y: int| 0 <= y < target_height ==> (#[trigger] sorted(rets, 0)[y]).i_id == y,
{
    let rows = sorted(rets, 0);
    lemma_sorted(rets, 0);
    lemma_distinct_keys_permuted(rets, rows, 0);
    assert forall|y: int| 0 <= y < rows.len() implies (#[trigger] rows[y]).i_id == y by {
        let top = rows.len() - 1;
        let j = lemma_item_of_permutation(rets, rows, top);
        let j0 = lemma_item_of_permutation(rets, rows, 0);
        lemma_indices_climb(rows, 0, y);
        lemma_indices_climb(rows, y, top);
    }
}

/// The merged buffer is the image, row-major and from the top: where the
/// batch holds every row of the image once, each three bytes to the pixel,
/// the buffer has the size of the image and the bytes of each row stand
/// where that row of the image does.
pub proof fn lemma_merge_is_row_major(rets: Seq<RtRet>, target_width: u32, target_height: u32)
    requires
        rets.len() == target_height,
        distinct_keys(rets, 0),
        forall|i: int|
            0 <= i < rets.len() ==> (#[trigger] rets[i]).i_id < target_height && rets[i].im@.len()
                == 3 * target_width,
    ensures
        merged(rets).len() == image_len(target_width, target_height),
        forall|i: int|
            0 <= i < rets.len() ==> row_of_image(
                merged(rets),
                target_width,
                (#[trigger] rets[i]).i_id as int,
            ) == rets[i].im@,
{
    let rows = sorted(rets, 0);
    let len = (3 * target_width) as nat;
    lemma_batch_is_complete(rets, target_height);
    assert forall|y: int| 0 <= y < rows.len() implies (#[trigger] rows[y]).im@.len() == len by {
        let i = lemma_item_of_permutation(rets, rows, y);
    }
    lemma_concat_len(rows, len);
    assert(rows.len() * len == target_width * target_height * 3) by (nonlinear_arith)
        requires
            rows.len() == target_height,
            len == 3 * target_width,
    ;
    assert forall|i: int| 0 <= i < rets.len() implies row_of_image(
        merged(rets),
        target_width,
        (#[trigger] rets[i]).i_id as int,
    ) == rets[i].im@ by {
        let y = lemma_item_of_permutation(rows, rets, i);
        assert(rows[y].i_id == y);
        assert((y + 1) * len == y * len + len) by (nonlinear_arith);
        assert((y + 1) * len <= rows.len() * len) by (nonlinear_arith)
            requires
                y + 1 <= rows.len(),
        ;
        assert(0 <= y * len) by (nonlinear_arith)
            requires
                0 <= y,
        ;
        let part = row_of_image(merged(rets), target_width, y);
        assert(part.len() == len);
        assert forall|k: int| 0 <= k < len implies part[k] == rets[i].im@[k] by {
            lemma_concat_of_equal_rows(rows, len, y, k);
        }
        assert(part =~= rets[i].im@);
    }
}

/// The place in the image buffer of the first byte of the pixel in column
/// `x` of row `y`.
pub open spec fn place(target_width: u32, x: u32, y: u32) -> int {
    3 * (y * target_width + x)
}

/// The image is what the workers painted: where the batch holds as many
/// rows as the image has, no two with the same index and each painted by
/// `pixel` for a row of the image, the merged buffer has the size of the
/// image, and at the place of every pixel stand the red, green and blue
/// that `pixel` returned for its column and row.
pub proof fn lemma_image_is_painted<F: Fn(u32, u32) -> Result<Pixel, RenderError>>(
    rets: Seq<RtRet>,
    target_width: u32,
    target_height: u32,
    pixel: F,
)
    requires
        rets.len() == target_height,
        distinct_keys(rets, 0),
        forall|i: int|
            0 <= i < rets.len() ==> (#[trigger] rets[i]).i_id < target_height && painted(
                rets[i],
                rets[i].i_id as u32,
                target_width,
                pixel,
            ),
    ensures
        merged(rets).len() == image_len(target_width, target_height),
        forall|x: u32, y: u32|
            x < target_width && y < target_height ==> 0 <= #[trigger] place(target_width, x, y)
                && place(target_width, x, y) + 2 < merged(rets).len() && call_ensures(
                pixel,
                (x, y),
                Ok::<Pixel, RenderError>(
                    Pixel {
                        r: merged(rets)[place(target_width, x, y)],
                        g: merged(rets)[place(target_width, x, y) + 1],
                        b: merged(rets)[place(target_width, x, y) + 2],
                    },
                ),
            ),
{
    let rows = sorted(rets, 0);
    let len = (3 * target_width) as nat;
    lemma_batch_is_complete(rets, target_height);
    lemma_merge_is_row_major(rets, target_width, target_height);
    assert forall|x: u32, y: u32| x < target_width && y < target_height implies 0
        <= #[trigger] place(target_width, x, y) && place(target_width, x, y) + 2 < merged(
        rets,
    ).len() && call_ensures(
        pixel,
        (x, y),
        Ok::<Pixel, RenderError>(
            Pixel {
                r: merged(rets)[place(target_width, x, y)],
                g: merged(rets)[place(target_width, x, y) + 1],
                b: merged(rets)[place(target_width, x, y) + 2],
            },
        ),
    ) by {
        let i = lemma_item_of_permutation(rets, rows, y as int);
        assert(rets[i].i_id == y);
        let part = row_of_image(merged(rets), target_width, y as int);
        assert(part == rets[i].im@);
        assert(place(target_width, x, y) == y * (3 * target_width) + 3 * x) by (nonlinear_arith);
        assert((y + 1) * (3 * target_width) == y * (3 * target_width) + 3 * target_width)
            by (nonlinear_arith);
        assert((y + 1) * (3 * target_width) <= target_width * target_height * 3)
            by (nonlinear_arith)
            requires
                y + 1 <= target_height,
        ;
        assert(0 <= y * (3 * target_width)) by (nonlinear_arith);
        assert(part[3 * x] == merged(rets)[place(target_width, x, y)]);
        assert(part[3 * x + 1] == merged(rets)[place(target_width, x, y) + 1]);
        assert(part[3 * x + 2] == merged(rets)[place(target_width, x, y) + 2]);
        assert(painted(rets[i], y, target_width, pixel));
    }
}

} // verus!
