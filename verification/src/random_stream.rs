use vstd::prelude::*;
use crate::compression_step::CompressionStep;
use crate::order::{iota, is_order_of, seeded_shuffle, shuffled_order};
use crate::patch::apply_writes;
use crate::raster::{black, image_ok, stored_pixels, ImageView, Pixel, PixelImage};
use crate::restore::{lemma_all_steps_restore, merge_steps, range_writes};
use crate::schedule::{lemma_steps_partition, lemma_steps_start_nonneg, schedule_is_complete, step_bounds, step_bounds_fit, step_end, step_start};

verus! {

/// The pixel that the flattened index `idx` addresses once it is cut to 32 bits.
pub open spec fn pixel_slot(idx: usize) -> int {
    idx as int % 0x1_0000_0000
}

/// The pixels at the positions `order[start .. end]` of `pixels`.
pub open spec fn random_payload(pixels: Seq<Pixel>, order: Seq<usize>, start: int, end: int) -> Seq<Pixel> {
    Seq::new((end - start) as nat, |j: int| pixels[pixel_slot(order[start + j])])
}

/// The writes that merging `payload` as the step starting at `start` makes.
pub open spec fn random_writes(order: Seq<usize>, start: int, payload: Seq<Pixel>) -> Seq<(usize, Pixel)> {
    Seq::new(payload.len(), |j: int| (pixel_slot(order[start + j]) as usize, payload[j]))
}

/// `cur`, the pixels of an image with or without an alpha channel (`has_alpha`), after
/// merging the payloads of the steps `0 .. n` of `pixels`, in that order.
pub open spec fn random_merge_steps(
    cur: Seq<Pixel>,
    has_alpha: bool,
    pixels: Seq<Pixel>,
    order: Seq<usize>,
    total_steps: int,
    min_per_step: int,
    n: int,
) -> Seq<Pixel>
    decreases n,
{
    if n <= 0 {
        cur
    } else {
        let l = pixels.len() as int;
        let st = step_start(l, total_steps, min_per_step, n - 1);
        let en = step_end(l, total_steps, min_per_step, n - 1);
        apply_writes(
            random_merge_steps(cur, has_alpha, pixels, order, total_steps, min_per_step, n - 1),
            random_writes(order, st, stored_pixels(has_alpha, random_payload(pixels, order, st, en))),
        )
    }
}

proof fn lemma_random_merge_steps_is_merge_steps(
    cur: Seq<Pixel>,
    has_alpha: bool,
    pixels: Seq<Pixel>,
    order: Seq<usize>,
    total_steps: int,
    min_per_step: int,
    n: int,
)
    requires
        pixels.len() <= 0x1_0000_0000,
        pixels.len() <= usize::MAX,
        schedule_is_complete(pixels.len() as int, total_steps, min_per_step),
        is_order_of(order, pixels.len()),
        0 <= n <= total_steps,
    ensures
        random_merge_steps(cur, has_alpha, pixels, order, total_steps, min_per_step, n) == merge_steps(
            cur,
            stored_pixels(has_alpha, pixels),
            order,
            0,
            pixels.len() as int,
            total_steps,
            min_per_step,
            n,
        ),
    decreases n,
{
    if n > 0 {
        lemma_random_merge_steps_is_merge_steps(cur, has_alpha, pixels, order, total_steps, min_per_step, n - 1);
        let l = pixels.len() as int;
        let st = step_start(l, total_steps, min_per_step, n - 1);
        let en = step_end(l, total_steps, min_per_step, n - 1);
        lemma_steps_start_nonneg(l, total_steps, min_per_step, n - 1);
        lemma_steps_partition(l, total_steps, min_per_step);
        let a = random_writes(order, st, stored_pixels(has_alpha, random_payload(pixels, order, st, en)));
        let b = range_writes(stored_pixels(has_alpha, pixels), order, 0, st, en);
        assert forall|j: int| 0 <= j < a.len() implies #[trigger] a[j] == b[j] by {
            assert(order[st + j] < l);
        }
        assert(a =~= b);
    }
}

/// Reconstruction: merging the payloads of all steps `0 .. total_steps` of an image of
/// at most 2^32 pixels, in order, into any image of the same size gives exactly the
/// full image's pixels as that image stores them (made opaque where it has no alpha
/// channel), for any order of the pixels, whenever the schedule leaves no gap.
pub proof fn lemma_random_all_steps_restore(
    cur: Seq<Pixel>,
    has_alpha: bool,
    pixels: Seq<Pixel>,
    order: Seq<usize>,
    total_steps: int,
    min_per_step: int,
)
    requires
        cur.len() == pixels.len(),
        pixels.len() <= 0x1_0000_0000,
        pixels.len() <= usize::MAX,
        schedule_is_complete(pixels.len() as int, total_steps, min_per_step),
        is_order_of(order, pixels.len()),
    ensures
        random_merge_steps(cur, has_alpha, pixels, order, total_steps, min_per_step, total_steps)
            == stored_pixels(has_alpha, pixels),
{
    let stored = stored_pixels(has_alpha, pixels);
    lemma_random_merge_steps_is_merge_steps(cur, has_alpha, pixels, order, total_steps, min_per_step, total_steps);
    lemma_all_steps_restore(cur, stored, order, 0, pixels.len() as int, total_steps, min_per_step);
    assert(random_merge_steps(cur, has_alpha, pixels, order, total_steps, min_per_step, total_steps) =~= stored);
}

/// Two streams with the same seed send the pixels of images of the same size in the
/// same order, whatever their numbers of steps: the order depends only on the seed and
/// the pixel count.
pub proof fn lemma_pixel_order_depends_on_seed_and_size(r1: RandomStream, r2: RandomStream, size: nat)
    requires
        r1.spec_seed() == r2.spec_seed(),
    ensures
        r1.pixel_order(size) == r2.pixel_order(size),
{
}

/// A step sends pixels in the order of a shuffle, seeded with the seed the stream was
/// made with, of the flattened indices `0 .. width * height`: entry `j` of step
/// `current_step` is the pixel at index `order[start + j]` (cut to 32 bits).
pub proof fn lemma_random_step_follows_the_seed(stream: RandomStream, image: ImageView, current_step: usize)
    requires
        stream.step_allowed(image, current_step),
    ensures
        ({
            let size = image.0 as int * image.1 as int;
            let order = seeded_shuffle(iota(size as nat), stream.spec_seed());
            let st = step_start(size, stream.spec_total_steps() as int, stream.spec_min_num_pixel() as int, current_step as int);
            let en = step_end(size, stream.spec_total_steps() as int, stream.spec_min_num_pixel() as int, current_step as int);
            &&& stream.step_payload(image, current_step).len() == en - st
            &&& forall|j: int|
                0 <= j < en - st ==> #[trigger] stream.step_payload(image, current_step)[j]
                    == image.2[order[st + j] as int % 0x1_0000_0000]
        }),
{
}

/// Two streams made with the same arguments send the same pixels for every step of
/// every image.
pub proof fn lemma_random_step_deterministic(r1: RandomStream, r2: RandomStream, image: ImageView, current_step: usize)
    requires
        r1.spec_seed() == r2.spec_seed(),
        r1.spec_total_steps() == r2.spec_total_steps(),
        r1.spec_min_num_pixel() == r2.spec_min_num_pixel(),
    ensures
        r1.step_payload(image, current_step) == r2.step_payload(image, current_step),
{
}

proof fn lemma_row_col(x: int, w: int, h: int)
    requires
        0 <= x < w * h,
        0 < w,
        0 <= h,
    ensures
        0 <= x / w < h,
        0 <= x % w < w,
        (x / w) * w + x % w == x,
{
    vstd::arithmetic::div_mod::lemma_fundamental_div_mod(x, w);
    assert(x / w * w == w * (x / w)) by (nonlinear_arith);
    assert(0 <= x / w < h) by (nonlinear_arith)
        requires 0 <= x < w * h, 0 < w, x == w * (x / w) + x % w, 0 <= x % w < w;
}

pub struct RandomStream {
    seed: u64,
    total_number_of_steps: usize,
    min_num_pixel: usize,
}

impl RandomStream {
    /// The number of steps the pixels are spread over.
    pub closed spec fn spec_total_steps(&self) -> usize {
        self.total_number_of_steps
    }

    /// The seed of the shuffle that decides which pixels go in which step.
    pub closed spec fn spec_seed(&self) -> u64 {
        self.seed
    }

    /// How many pixels every step carries on top of its share.
    pub closed spec fn spec_min_num_pixel(&self) -> usize {
        self.min_num_pixel
    }

    /// The order in which the pixels of an image with `size` pixels are sent.
    pub open spec fn pixel_order(&self, size: nat) -> Seq<usize> {
        seeded_shuffle(iota(size), self.spec_seed())
    }

    /// The first position (in the pixel order) that step `current_step` sends.
    pub open spec fn step_start_for(&self, size: int, current_step: usize) -> int {
        step_start(size, self.spec_total_steps() as int, self.spec_min_num_pixel() as int, current_step as int)
    }

    /// The position just past the last one that step `current_step` sends.
    pub open spec fn step_end_for(&self, size: int, current_step: usize) -> int {
        step_end(size, self.spec_total_steps() as int, self.spec_min_num_pixel() as int, current_step as int)
    }

    /// Steps exist and the arithmetic of step `current_step` fits.
    pub open spec fn schedule_ok(&self, size: int, current_step: usize) -> bool {
        &&& self.spec_total_steps() > 0
        &&& step_bounds_fit(size, self.spec_total_steps() as int, self.spec_min_num_pixel() as int, current_step as int)
    }

    /// The images and step numbers on which `step` is defined.
    pub open spec fn step_allowed(&self, image: ImageView, current_step: usize) -> bool {
        let size = image.0 as int * image.1 as int;
        &&& self.schedule_ok(size, current_step)
        &&& self.step_start_for(size, current_step) <= self.step_end_for(size, current_step)
    }

    /// What step `current_step` sends for `image`.
    pub open spec fn step_payload(&self, image: ImageView, current_step: usize) -> Seq<Pixel> {
        let size = image.0 as int * image.1 as int;
        random_payload(
            image.2,
            self.pixel_order(size as nat),
            self.step_start_for(size, current_step),
            self.step_end_for(size, current_step),
        )
    }

    pub fn new(seed: u64, total_number_of_steps: usize, min_num_pixel: usize) -> (r: RandomStream)
        ensures
            r.spec_seed() == seed,
            r.spec_total_steps() == total_number_of_steps,
            r.spec_min_num_pixel() == min_num_pixel,
    {
        RandomStream { seed, total_number_of_steps, min_num_pixel }
    }

    /// The pixels of step `current_step`, in the order a shuffle seeded with the
    /// stream's seed gives.
    pub fn step(&self, image: &PixelImage, current_step: usize) -> (r: CompressionStep<Vec<Pixel>>)
        requires
            self.step_allowed(image@, current_step),
        ensures
            r.data@ == self.step_payload(image@, current_step),
            is_order_of(self.pixel_order((image@.0 as int * image@.1 as int) as nat), (image@.0 as int * image@.1 as int) as nat),
    {
        let (pixel_idxs, _, _) = self.get_pixel_idx_start_end_idx_for_step(image, current_step);
        self.step_for_order(image, &pixel_idxs, current_step)
    }

    /// The pixels of step `current_step` when the pixels are sent in `order`: those at
    /// the flattened indices `order[start .. end]` (cut to 32 bits).
    pub fn step_for_order(&self, image: &PixelImage, order: &Vec<usize>, current_step: usize) -> (r: CompressionStep<Vec<Pixel>>)
        requires
            self.step_allowed(image@, current_step),
            order.len() == image@.0 as int * image@.1 as int,
            forall|i: int| 0 <= i < order.len() ==> #[trigger] order@[i] < order.len(),
        ensures
            r.data@ == random_payload(
                image@.2,
                order@,
                self.step_start_for(image@.0 as int * image@.1 as int, current_step),
                self.step_end_for(image@.0 as int * image@.1 as int, current_step),
            ),
    {
        let width = image.width();
        let height = image.height();
        let image_size = (width as usize) * (height as usize);
        let bounds = step_bounds(image_size, self.total_number_of_steps, self.min_num_pixel, current_step);
        let start_idx = bounds.0;
        let end_idx = bounds.1;
        proof {
            lemma_steps_start_nonneg(image_size as int, self.total_number_of_steps as int, self.min_num_pixel as int, current_step as int);
        }
        let ghost size = image@.0 as int * image@.1 as int;
        let ghost want = random_payload(image@.2, order@, start_idx as int, end_idx as int);
        let mut new_pixels: Vec<Pixel> = Vec::new();
        let mut k: usize = start_idx;
        while k < end_idx
            invariant
                start_idx <= k <= end_idx <= size,
                width == image@.0,
                image_ok(image@),
                size == image@.0 as int * image@.1 as int,
                order.len() == size,
                forall|i: int| 0 <= i < order.len() ==> #[trigger] order@[i] < order.len(),
                want == random_payload(image@.2, order@, start_idx as int, end_idx as int),
                new_pixels@ == want.take(k - start_idx),
            decreases end_idx - k,
        {
            let flattened_pixel = order[k];
            assert((flattened_pixel as u32) as u64 == (flattened_pixel as u64) % 0x1_0000_0000u64) by (bit_vector);
            let slot = flattened_pixel as u32;
            proof {
                lemma_row_col(slot as int, width as int, image@.1 as int);
            }
            let row = slot / width;
            let col = slot % width;
            let pixel = image.get_pixel(col, row);
            new_pixels.push(pixel);
            k = k + 1;
            assert(new_pixels@ =~= want.take(k - start_idx));
        }
        assert(new_pixels@ =~= want);
        CompressionStep { data: new_pixels }
    }

    /// Puts the pixels of step `current_step` in their places in `current_image`, taken
    /// from the shuffled order of the image's pixels; an image without an alpha channel
    /// keeps only their colour.
    pub fn merge(
        &self,
        current_image: &mut PixelImage,
        compression_step: &CompressionStep<Vec<Pixel>>,
        current_step: usize,
    )
        requires
            self.schedule_ok(old(current_image)@.0 as int * old(current_image)@.1 as int, current_step),
            self.step_start_for(old(current_image)@.0 as int * old(current_image)@.1 as int, current_step)
                + compression_step.data.len() <= old(current_image)@.0 as int * old(current_image)@.1 as int,
        ensures
            final(current_image)@ == (
                old(current_image)@.0,
                old(current_image)@.1,
                apply_writes(
                    old(current_image)@.2,
                    random_writes(
                        self.pixel_order((old(current_image)@.0 as int * old(current_image)@.1 as int) as nat),
                        self.step_start_for(old(current_image)@.0 as int * old(current_image)@.1 as int, current_step),
                        stored_pixels(old(current_image)@.3, compression_step.data@),
                    ),
                ),
                old(current_image)@.3,
            ),
    {
        let (pixel_idxs, _, _) = self.get_pixel_idx_start_end_idx_for_step(current_image, current_step);
        self.merge_for_order(current_image, compression_step, &pixel_idxs, current_step)
    }

    /// Puts the pixels of step `current_step` in their places in `current_image` when
    /// the pixels are sent in `order`: the `i`-th one at the flattened index
    /// `order[start + i]` (cut to 32 bits).
    pub fn merge_for_order(
        &self,
        current_image: &mut PixelImage,
        compression_step: &CompressionStep<Vec<Pixel>>,
        order: &Vec<usize>,
        current_step: usize,
    )
        requires
            self.schedule_ok(old(current_image)@.0 as int * old(current_image)@.1 as int, current_step),
            self.step_start_for(old(current_image)@.0 as int * old(current_image)@.1 as int, current_step)
                + compression_step.data.len() <= old(current_image)@.0 as int * old(current_image)@.1 as int,
            order.len() == old(current_image)@.0 as int * old(current_image)@.1 as int,
            forall|i: int| 0 <= i < order.len() ==> #[trigger] order@[i] < order.len(),
        ensures
            final(current_image)@ == (
                old(current_image)@.0,
                old(current_image)@.1,
                apply_writes(
                    old(current_image)@.2,
                    random_writes(
                        order@,
                        self.step_start_for(old(current_image)@.0 as int * old(current_image)@.1 as int, current_step),
                        stored_pixels(old(current_image)@.3, compression_step.data@),
                    ),
                ),
                old(current_image)@.3,
            ),
    {
        let width0 = current_image.width();
        let height0 = current_image.height();
        let image_size = (width0 as usize) * (height0 as usize);
        let bounds = step_bounds(image_size, self.total_number_of_steps, self.min_num_pixel, current_step);
        let start_idx = bounds.0;
        proof {
            lemma_steps_start_nonneg(image_size as int, self.total_number_of_steps as int, self.min_num_pixel as int, current_step as int);
        }
        let ghost old_image = current_image@;
        let ghost size = old_image.0 as int * old_image.1 as int;
        let ghost writes = random_writes(order@, start_idx as int, stored_pixels(old_image.3, compression_step.data@));
        let data = &compression_step.data;
        let mut i: usize = 0;
        while i < data.len()
            invariant
                i <= data.len(),
                start_idx + data.len() <= size,
                size == old_image.0 as int * old_image.1 as int,
                order.len() == size,
                forall|j: int| 0 <= j < order.len() ==> #[trigger] order@[j] < order.len(),
                writes == random_writes(order@, start_idx as int, stored_pixels(old_image.3, data@)),
                current_image@ == (old_image.0, old_image.1, apply_writes(old_image.2, writes.take(i as int)), old_image.3),
                image_ok(old_image),
            decreases data.len() - i,
        {
            let flattened_pixel = order[start_idx + i];
            assert((flattened_pixel as u32) as u64 == (flattened_pixel as u64) % 0x1_0000_0000u64) by (bit_vector);
            let width = current_image.width();
            let slot = flattened_pixel as u32;
            proof {
                lemma_row_col(slot as int, width as int, old_image.1 as int);
            }
            let row = slot / width;
            let col = slot % width;
            current_image.put_pixel(col, row, data[i]);
            i = i + 1;
            assert(writes.take(i as int).drop_last() =~= writes.take(i - 1));
        }
        assert(writes.take(i as int) =~= writes);
    }

    pub fn get_total_number_of_steps(&self) -> (r: usize)
        ensures
            r == self.spec_total_steps(),
    {
        self.total_number_of_steps
    }

    /// The data of an image is the image itself.
    pub fn to_data(&self, image: &PixelImage) -> (r: PixelImage)
        ensures
            r@ == image@,
    {
        image.duplicate()
    }

    /// The image of the data is the data itself.
    pub fn to_image(&self, data: &PixelImage) -> (r: PixelImage)
        ensures
            r@ == data@,
    {
        data.duplicate()
    }

    /// A black RGB image (no alpha channel) of the same size as `original_data`.
    pub fn generate_empty(&self, original_data: &PixelImage) -> (r: PixelImage)
        ensures
            r@ == (
                original_data@.0,
                original_data@.1,
                Seq::new((original_data@.0 as int * original_data@.1 as int) as nat, |i: int| black()),
                false,
            ),
    {
        let w = original_data.width();
        let h = original_data.height();
        PixelImage::new_black(w, h)
    }

    /// The shuffled pixel order of `image` and the range of it that step `current_step`
    /// covers.
    fn get_pixel_idx_start_end_idx_for_step(&self, image: &PixelImage, current_step: usize) -> (r: (Vec<usize>, usize, usize))
        requires
            self.schedule_ok(image@.0 as int * image@.1 as int, current_step),
        ensures
            r.0@ == self.pixel_order((image@.0 as int * image@.1 as int) as nat),
            is_order_of(r.0@, (image@.0 as int * image@.1 as int) as nat),
            r.1 == self.step_start_for(image@.0 as int * image@.1 as int, current_step),
            r.2 == self.step_end_for(image@.0 as int * image@.1 as int, current_step),
            image_ok(image@),
    {
        let width = image.width() as usize;
        let height = image.height() as usize;
        let image_size = width * height;
        let bounds = step_bounds(image_size, self.total_number_of_steps, self.min_num_pixel, current_step);
        let pixel_idxs = shuffled_order(image_size, self.seed);
        proof {
            lemma_steps_start_nonneg(image_size as int, self.total_number_of_steps as int, self.min_num_pixel as int, current_step as int);
        }
        (pixel_idxs, bounds.0, bounds.1)
    }
}

} // verus!
