//! Synthetic video frames for the self-test.
//!
//! Using a generated pattern instead of a real screen capture means the video
//! path can be tested without Screen Recording permission, and gives an exact
//! reference image to compare the decoded output against.

use vstd::prelude::*;

verus! {

pub struct TestPattern {
    pub width: usize,
    pub height: usize,
}

/// `a` less `b`, but at least one.
pub open spec fn travel(a: nat, b: nat) -> nat {
    if a > b {
        (a - b) as nat
    } else {
        1
    }
}

impl TestPattern {
    /// The side of the moving box.
    pub open spec fn box_size(self) -> nat {
        self.width as nat / 8
    }

    /// Whether the moving box covers a point in frame `index`.
    pub open spec fn in_box(self, index: u32, x: int, y: int) -> bool {
        let size = self.box_size();
        let box_x = (index as nat * 17) % travel(self.width as nat, size);
        let box_y = (index as nat * 11) % travel(self.height as nat, size);
        box_x <= x < box_x + size && box_y <= y < box_y + size
    }

    /// The static gradient.
    pub open spec fn gradient(self, x: int, y: int) -> u8 {
        ((x * 255 / self.width as int) as usize ^ (y * 255 / self.height as int) as usize) as u8
    }

    /// The luma of a point in frame `index`.
    pub open spec fn luma_at(self, index: u32, x: int, y: int) -> u8 {
        if self.in_box(index, x, y) {
            235
        } else {
            self.gradient(x, y)
        }
    }

    /// The luma plane of frame `index`, row by row.
    pub open spec fn plane(self, index: u32) -> Seq<u8> {
        Seq::new(
            (self.width * self.height) as nat,
            |k: int| self.luma_at(index, k % self.width as int, k / self.width as int),
        )
    }

    /// The reference luma plane for frame `index`.
    ///
    /// A static gradient exercises spatial detail while a moving box forces
    /// real inter-frame prediction, so the test covers both I- and P-frames.
    pub fn luma(&self, index: u32) -> (plane: Vec<u8>)
        requires
            self.width * self.height <= usize::MAX,
            self.width * 255 <= usize::MAX,
            self.height * 255 <= usize::MAX,
            index * 17 <= usize::MAX,
        ensures
            plane@ == self.plane(index),
    {
        let mut plane: Vec<u8> = Vec::new();
        let width: usize = self.width;
        let height: usize = self.height;
        let box_size: usize = width / 8;
        let box_x: usize = (index as usize * 17) % room(width, box_size);
        let box_y: usize = (index as usize * 11) % room(height, box_size);
        let mut y: usize = 0;
        proof {
            assert(0 * width == 0) by (nonlinear_arith);
        }
        while y < height
            invariant
                y <= height,
                width == self.width,
                height == self.height,
                width * 255 <= usize::MAX,
                height * 255 <= usize::MAX,
                box_size == self.box_size(),
                box_x == (index as nat * 17) % travel(width as nat, box_size as nat),
                box_y == (index as nat * 11) % travel(height as nat, box_size as nat),
                box_x + box_size <= usize::MAX,
                box_y + box_size <= usize::MAX,
                plane@.len() == y * width,
                y * width <= height * width,
                width * height <= usize::MAX,
                forall|k: int|
                    0 <= k < plane@.len() ==> #[trigger] plane@[k] == self.luma_at(
                        index,
                        k % width as int,
                        k / width as int,
                    ),
            decreases height - y,
        {
            let mut x: usize = 0;
            while x < width
                invariant
                    x <= width,
                    y < height,
                    width == self.width,
                    height == self.height,
                    width * 255 <= usize::MAX,
                    height * 255 <= usize::MAX,
                    box_size == self.box_size(),
                    box_x == (index as nat * 17) % travel(width as nat, box_size as nat),
                    box_y == (index as nat * 11) % travel(height as nat, box_size as nat),
                    box_x + box_size <= usize::MAX,
                    box_y + box_size <= usize::MAX,
                    plane@.len() == y * width + x,
                    forall|k: int|
                        0 <= k < plane@.len() ==> #[trigger] plane@[k] == self.luma_at(
                            index,
                            k % width as int,
                            k / width as int,
                        ),
                decreases width - x,
            {
                let across: usize = x * 255 / width;
                let down: usize = y * 255 / height;
                let gradient: u8 = (across ^ down) as u8;
                let inside: bool = x >= box_x && x < box_x + box_size && y >= box_y && y < box_y
                    + box_size;
                proof {
                    let k = y * width + x;
                    assert(k % width as int == x && k / width as int == y) by (nonlinear_arith)
                        requires
                            k == y * width + x,
                            0 <= x < width,
                            0 <= y,
                    ;
                    assert(across == x as int * 255 / width as int);
                    assert(down == y as int * 255 / height as int);
                }
                plane.push(
                    if inside {
                        235
                    } else {
                        gradient
                    },
                );
                x = x + 1;
            }
            proof {
                assert((y + 1) * width == y * width + width) by (nonlinear_arith);
                assert((y + 1) * width <= height * width) by (nonlinear_arith)
                    requires
                        y + 1 <= height,
                ;
            }
            y = y + 1;
        }
        proof {
            assert(height * width == width * height) by (nonlinear_arith);
            assert(plane@ =~= self.plane(index));
        }
        plane
    }
}

/// `a` less `b`, but at least one.
fn room(a: usize, b: usize) -> (r: usize)
    ensures
        r == travel(a as nat, b as nat),
        r >= 1,
{
    if a > b {
        a - b
    } else {
        1
    }
}

/// The sum of the squared differences between two planes.
pub open spec fn error_sum(reference: Seq<u8>, decoded: Seq<u8>) -> nat
    recommends
        reference.len() == decoded.len(),
    decreases reference.len(),
{
    if reference.len() == 0 {
        0
    } else {
        let difference = reference.last() - decoded.last();
        error_sum(reference.drop_last(), decoded.drop_last()) + (difference * difference) as nat
    }
}

/// The sum of the squared differences between a reference and a decoded plane,
/// which is what their signal-to-noise ratio is figured from. Nothing where the
/// planes are not comparable.
pub fn squared_error(reference: &[u8], decoded: &[u8]) -> (sum: Option<u128>)
    ensures
        sum is Some <==> reference@.len() > 0 && reference@.len() == decoded@.len(),
        sum matches Some(s) ==> s == error_sum(reference@, decoded@),
{
    if reference.len() == 0 || reference.len() != decoded.len() {
        return None;
    }
    let mut sum: u128 = 0;
    let mut i: usize = 0;
    while i < reference.len()
        invariant
            i <= reference@.len(),
            reference@.len() == decoded@.len(),
            reference@.len() <= usize::MAX,
            sum == error_sum(reference@.take(i as int), decoded@.take(i as int)),
            sum <= i * 65025,
        decreases reference@.len() - i,
    {
        let a: i32 = reference[i] as i32;
        let b: i32 = decoded[i] as i32;
        let difference: i32 = a - b;
        proof {
            assert(0 <= difference * difference <= 65025) by (nonlinear_arith)
                requires
                    -255 <= difference <= 255,
            ;
            let r = reference@.take(i + 1);
            let d = decoded@.take(i + 1);
            assert(r.drop_last() =~= reference@.take(i as int));
            assert(d.drop_last() =~= decoded@.take(i as int));
            assert(i * 65025 <= usize::MAX * 65025);
        }
        sum = sum + (difference * difference) as u128;
        i = i + 1;
    }
    proof {
        assert(reference@.take(i as int) =~= reference@);
        assert(decoded@.take(i as int) =~= decoded@);
    }
    Some(sum)
}

proof fn lemma_square_zero(difference: int)
    ensures
        difference * difference >= 0,
        difference * difference == 0 <==> difference == 0,
{
    assert(difference * difference >= 0 && (difference * difference == 0 <==> difference == 0))
        by (nonlinear_arith);
}

/// Two planes have no error exactly if they are identical.
pub proof fn law_no_error_means_identical(reference: Seq<u8>, decoded: Seq<u8>)
    requires
        reference.len() == decoded.len(),
    ensures
        error_sum(reference, decoded) == 0 <==> reference == decoded,
    decreases reference.len(),
{
    if reference.len() > 0 {
        law_no_error_means_identical(reference.drop_last(), decoded.drop_last());
        lemma_square_zero(reference.last() - decoded.last());
        if error_sum(reference, decoded) == 0 {
            assert(reference =~= reference.drop_last().push(reference.last()));
            assert(decoded =~= decoded.drop_last().push(decoded.last()));
        }
    } else {
        assert(reference =~= decoded);
    }
}

/// The visible pixels of a plane whose rows are padded to a stride.
pub open spec fn cropped(plane: Seq<u8>, stride: nat, width: nat, height: nat) -> Seq<u8>
    decreases height,
{
    if height == 0 {
        seq![]
    } else {
        cropped(plane, stride, width, (height - 1) as nat) + plane.subrange(
            (height - 1) * stride,
            (height - 1) * stride + width,
        )
    }
}

/// Copies the visible pixels out of a plane whose rows are padded to a stride.
/// Nothing where there are no pixels, or the rows are too short to hold them.
pub fn crop_plane(plane: &[u8], stride: usize, width: usize, height: usize) -> (pixels: Option<
    Vec<u8>,
>)
    requires
        height > 0 && stride >= width ==> (height - 1) * stride + width <= plane@.len(),
    ensures
        pixels is Some <==> width > 0 && height > 0 && stride >= width,
        pixels matches Some(p) ==> p@ == cropped(
            plane@,
            stride as nat,
            width as nat,
            height as nat,
        ),
{
    if width == 0 || height == 0 || stride < width {
        return None;
    }
    let total: usize = plane.len();
    let mut pixels: Vec<u8> = Vec::new();
    let mut row: usize = 0;
    let mut start: usize = 0;
    while row < height
        invariant
            row <= height,
            width <= stride,
            total == plane@.len(),
            (height - 1) * stride + width <= total,
            row < height ==> start == row * stride,
            pixels@ == cropped(plane@, stride as nat, width as nat, row as nat),
        decreases height - row,
    {
        proof {
            assert(row * stride <= (height - 1) * stride) by (nonlinear_arith)
                requires
                    row <= height - 1,
            ;
            assert((row + 1) * stride == row * stride + stride) by (nonlinear_arith);
            if row + 1 < height {
                assert((row + 1) * stride <= (height - 1) * stride) by (nonlinear_arith)
                    requires
                        row + 1 <= height - 1,
                ;
            }
        }
        crate::endian::append_bytes(
            &mut pixels,
            vstd::slice::slice_subrange(plane, start, start + width),
        );
        row = row + 1;
        if row < height {
            start = start + stride;
        }
    }
    Some(pixels)
}

/// The pixel at column `x` of row `y` is bright where the moving box is, and
/// elsewhere the gradient: the exclusive or of how far across and how far down it
/// is, each in 255 parts. The box is an eighth of the width, and moves 17 pixels
/// across and 11 down from frame to frame, as far as there is room.
pub proof fn law_a_pixel_is_in_the_box_or_the_gradient(
    pattern: TestPattern,
    index: u32,
    x: int,
    y: int,
)
    requires
        0 <= x < pattern.width,
        0 <= y < pattern.height,
    ensures
        ({
            let plane = pattern.plane(index);
            let size = pattern.width as int / 8;
            let across = if pattern.width > size {
                pattern.width - size
            } else {
                1
            };
            let down = if pattern.height > size {
                pattern.height - size
            } else {
                1
            };
            let left = (index * 17) % across;
            let top = (index * 11) % down;
            let inside = left <= x < left + size && top <= y < top + size;
            &&& plane.len() == pattern.width * pattern.height
            &&& 0 <= y * pattern.width + x < plane.len()
            &&& plane[y * pattern.width + x] == if inside {
                235u8
            } else {
                ((x * 255 / pattern.width as int) as usize ^ (y * 255
                    / pattern.height as int) as usize) as u8
            }
        }),
{
    let w = pattern.width as int;
    let k = y * w + x;
    assert(k % w == x && k / w == y && 0 <= k < w * pattern.height) by (nonlinear_arith)
        requires
            k == y * w + x,
            0 <= x < w,
            0 <= y < pattern.height,
    ;
}

/// The error of two planes is the sum of the squares of their differences.
pub proof fn law_errors_add_up(reference: Seq<u8>, decoded: Seq<u8>, a: u8, b: u8)
    requires
        reference.len() == decoded.len(),
    ensures
        error_sum(seq![], seq![]) == 0,
        error_sum(reference.push(a), decoded.push(b)) == error_sum(reference, decoded) + (a - b) * (a
            - b),
{
    assert(reference.push(a).drop_last() =~= reference);
    assert(decoded.push(b).drop_last() =~= decoded);
    assert((a - b) * (a - b) >= 0) by (nonlinear_arith);
}

/// The visible pixels are those at the front of each row, row by row.
pub proof fn law_cropping_keeps_the_front_of_each_row(
    plane: Seq<u8>,
    stride: nat,
    width: nat,
    height: nat,
    x: int,
    y: int,
)
    requires
        0 < width <= stride,
        height > 0,
        (height - 1) * stride + width <= plane.len(),
        0 <= x < width,
        0 <= y < height,
    ensures
        cropped(plane, stride, width, height).len() == width * height,
        cropped(plane, stride, width, height)[y * width + x] == plane[y * stride + x],
    decreases height,
{
    let shorter = (height - 1) as nat;
    let all = cropped(plane, stride, width, height);
    let (s, w, h) = (stride as int, width as int, height as int);
    assert((h - 1) * s >= 0 && (h - 1) * w + w == h * w && w * h == h * w) by (nonlinear_arith)
        requires
            h >= 1,
            s >= 1,
            w >= 1,
    ;
    if shorter > 0 {
        assert((h - 2) * s + w <= plane.len()) by (nonlinear_arith)
            requires
                (h - 1) * s + w <= plane.len(),
                s >= 0,
        ;
        let row = if y < h - 1 {
            y
        } else {
            0
        };
        law_cropping_keeps_the_front_of_each_row(plane, stride, width, shorter, x, row);
        assert(w * (h - 1) == (h - 1) * w) by (nonlinear_arith);
        if y < h - 1 {
            assert(0 <= y * w + x < (h - 1) * w) by (nonlinear_arith)
                requires
                    0 <= y <= h - 2,
                    0 <= x < w,
            ;
        } else {
            assert(y * w == (h - 1) * w && y * s == (h - 1) * s) by (nonlinear_arith)
                requires
                    y == h - 1,
            ;
        }
    } else {
        assert(cropped(plane, stride, width, 0) =~= seq![]);
        assert(y * w == 0 && y * s == 0 && (h - 1) * s == 0 && (h - 1) * w == 0)
            by (nonlinear_arith)
            requires
                y == 0,
                h == 1,
        ;
    }
}

} // verus!
