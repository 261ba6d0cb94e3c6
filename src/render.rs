use vstd::prelude::*;

use crate::color::{channel, color_for, color_of, shade_known};
use crate::escape::{code_of, result_code};
use crate::geometry::{index_to_pixel, pixel_offset, ImageDescriptor, Pixel};

verus! {

/// `img` with pixel `i` (bytes `4i .. 4i + 4`) set to the opaque colour `c`.
pub open spec fn painted(img: Seq<u8>, i: int, c: (u8, u8, u8)) -> Seq<u8> {
    Seq::new(img.len(), |b: int| if b / 4 == i { channel(c, b % 4) } else { img[b] })
}

/// The image after pass 1 over the chunk whose pixel `start + k` has escape
/// result `escapes[k]`: each pixel of the chunk takes its colour, the rest
/// of the buffer is kept.
pub open spec fn pass1_image(img: Seq<u8>, escapes: Seq<Option<u32>>, shades: Seq<u8>, start: int) -> Seq<u8> {
    Seq::new(
        img.len(),
        |b: int|
            if start <= b / 4 < start + escapes.len() {
                channel(color_of(escapes[b / 4 - start], shades), b % 4)
            } else {
                img[b]
            },
    )
}

/// The results buffer after pass 1: each index of the chunk holds the code of
/// its escape result, the rest is kept.
pub open spec fn pass1_results(res: Seq<i32>, escapes: Seq<Option<u32>>, start: int) -> Seq<i32> {
    Seq::new(
        res.len(),
        |i: int| if start <= i < start + escapes.len() { code_of(escapes[i - start]) } else { res[i] },
    )
}

/// Count used in pass 2 for a raw result `current`: shifted down so that the
/// lowest count becomes 1; `None` where the pixel keeps its colour.
pub open spec fn rebased(current: i32, lowest: u32) -> Option<u32> {
    if current > 0 && lowest > 0 {
        Some((current - lowest + 1) as u32)
    } else {
        None
    }
}

/// The image after pass 2 over the `len` pixels from `start`: a pixel with a
/// rebased count is redrawn, every other byte is kept.
pub open spec fn pass2_image(
    img: Seq<u8>,
    results: Seq<i32>,
    shades: Seq<u8>,
    start: int,
    len: int,
    lowest: u32,
) -> Seq<u8> {
    Seq::new(
        img.len(),
        |b: int|
            if start <= b / 4 < start + len && rebased(results[b / 4], lowest) is Some {
                channel(color_of(rebased(results[b / 4], lowest), shades), b % 4)
            } else {
                img[b]
            },
    )
}

/// An escape result that pass 1 can store and colour.
pub open spec fn escape_fits(e: Option<u32>, image: ImageDescriptor, shades: Seq<u8>) -> bool {
    &&& e matches Some(n) ==> n < image.max_iterations
    &&& shade_known(e, shades)
}

/// A raw result that pass 2 can rebase and colour: `lowest` does not exceed
/// it, and the shade table covers it.
pub open spec fn rebase_fits(current: i32, lowest: u32, shades: Seq<u8>) -> bool {
    current > 0 && lowest > 0 ==> lowest <= current && current < shades.len()
}

/// Pass 1 is idempotent: running it again with the same arguments over the
/// buffers it produced leaves both buffers as they are.
pub proof fn lemma_pass1_idempotent(
    img: Seq<u8>,
    res: Seq<i32>,
    escapes: Seq<Option<u32>>,
    shades: Seq<u8>,
    start: int,
)
    ensures
        pass1_image(pass1_image(img, escapes, shades, start), escapes, shades, start) == pass1_image(
            img,
            escapes,
            shades,
            start,
        ),
        pass1_results(pass1_results(res, escapes, start), escapes, start) == pass1_results(
            res,
            escapes,
            start,
        ),
{
    assert(pass1_image(pass1_image(img, escapes, shades, start), escapes, shades, start) =~= pass1_image(
        img,
        escapes,
        shades,
        start,
    ));
    assert(pass1_results(pass1_results(res, escapes, start), escapes, start) =~= pass1_results(
        res,
        escapes,
        start,
    ));
}

/// What pass 1 leaves in the chunk depends on its arguments alone: two runs
/// with the same arguments over buffers of the same lengths, whatever they
/// held before, agree on every byte and every result of the chunk.
pub proof fn lemma_pass1_chunk_independent_of_prior(
    img1: Seq<u8>,
    img2: Seq<u8>,
    res1: Seq<i32>,
    res2: Seq<i32>,
    escapes: Seq<Option<u32>>,
    shades: Seq<u8>,
    start: int,
)
    requires
        img1.len() == img2.len(),
        res1.len() == res2.len(),
        0 <= start,
        4 * (start + escapes.len()) <= img1.len(),
        start + escapes.len() <= res1.len(),
    ensures
        forall|b: int|
            4 * start <= b < 4 * (start + escapes.len()) ==> #[trigger] pass1_image(img1, escapes, shades, start)[b]
                == pass1_image(img2, escapes, shades, start)[b],
        forall|i: int|
            start <= i < start + escapes.len() ==> #[trigger] pass1_results(res1, escapes, start)[i]
                == pass1_results(res2, escapes, start)[i],
{
}

/// Pass 2 can follow pass 1 over the same chunk: with any `lowest` that does
/// not exceed an escape count of the chunk (the chunk's own minimum, or the
/// minimum over several chunks), every result that pass 1 stored can be
/// rebased and coloured.
pub proof fn lemma_pass1_results_admit_pass2(
    res: Seq<i32>,
    image: ImageDescriptor,
    escapes: Seq<Option<u32>>,
    shades: Seq<u8>,
    start: int,
    lowest: u32,
)
    requires
        image.wf(),
        0 <= start,
        start + escapes.len() <= res.len(),
        forall|k: int| 0 <= k < escapes.len() ==> escape_fits(#[trigger] escapes[k], image, shades),
        forall|k: int| 0 <= k < escapes.len() && (#[trigger] escapes[k]) is Some ==> lowest <= escapes[k].unwrap(),
    ensures
        forall|i: int|
            start <= i < start + escapes.len() ==> rebase_fits(
                #[trigger] pass1_results(res, escapes, start)[i],
                lowest,
                shades,
            ),
{
    assert forall|i: int| start <= i < start + escapes.len() implies rebase_fits(
        #[trigger] pass1_results(res, escapes, start)[i],
        lowest,
        shades,
    ) by {
        assert(escape_fits(escapes[i - start], image, shades));
    }
}

/// Writes the RGBA bytes of one pixel.
fn draw_pixel(pixel: &Pixel, iters_opt: Option<u32>, image: &ImageDescriptor, shades: &[u8], arr: &mut [u8])
    requires
        image.wf(),
        pixel.x < image.width,
        pixel.y < image.height,
        old(arr)@.len() >= 4 * image.pixels(),
        shade_known(iters_opt, shades@),
    ensures
        final(arr)@ == painted(
            old(arr)@,
            image.width * pixel.y + pixel.x,
            color_of(iters_opt, shades@),
        ),
{
    let index = pixel_offset(pixel, image);
    let (r, g, b) = color_for(iters_opt, shades);
    arr[index] = r;
    arr[index + 1] = g;
    arr[index + 2] = b;
    arr[index + 3] = 255u8;
    proof {
        let i = image.width * pixel.y + pixel.x;
        assert(arr@ =~= painted(old(arr)@, i, color_of(iters_opt, shades@)));
    }
}

/// Pass 1 over the chunk of pixels `start_index ..= start_index + amount`
/// (`amount + 1` pixels): pixel `start_index + k` has escape result
/// `escapes[k]`. Stores each result's code in `results`, draws its colour
/// into `image_data` at the pixel's row-major offset, and returns the lowest
/// escape count of the chunk, `None` where no pixel of it escaped.
pub fn render_mandlebrot(
    image_data: &mut [u8],
    results: &mut [i32],
    image: &ImageDescriptor,
    escapes: &[Option<u32>],
    shades: &[u8],
    start_index: usize,
    amount: usize,
) -> (lowest: Option<u32>)
    requires
        image.wf(),
        start_index + amount < image.pixels(),
        escapes@.len() == amount + 1,
        old(results)@.len() >= image.pixels(),
        old(image_data)@.len() >= 4 * image.pixels(),
        forall|k: int| 0 <= k < escapes@.len() ==> escape_fits(#[trigger] escapes@[k], *image, shades@),
    ensures
        final(image_data)@ == pass1_image(old(image_data)@, escapes@, shades@, start_index as int),
        final(results)@ == pass1_results(old(results)@, escapes@, start_index as int),
        lowest is None <==> forall|k: int| 0 <= k < escapes@.len() ==> (#[trigger] escapes@[k]) is None,
        lowest matches Some(m) ==> {
            &&& exists|k: int| 0 <= k < escapes@.len() && escapes@[k] == Some(m)
            &&& forall|k: int| 0 <= k < escapes@.len() && (#[trigger] escapes@[k]) is Some ==> m <= escapes@[k].unwrap()
        },
{
    let ghost img0 = image_data@;
    let ghost res0 = results@;
    let mut lowest_iterations: Option<u32> = None;
    let mut count: usize = 0;
    while count <= amount
        invariant
            image.wf(),
            start_index + amount < image.pixels(),
            escapes@.len() == amount + 1,
            forall|k: int| 0 <= k < escapes@.len() ==> escape_fits(#[trigger] escapes@[k], *image, shades@),
            img0.len() >= 4 * image.pixels(),
            res0.len() >= image.pixels(),
            count <= amount + 1,
            image_data@ == pass1_image(img0, escapes@.take(count as int), shades@, start_index as int),
            results@ == pass1_results(res0, escapes@.take(count as int), start_index as int),
            lowest_iterations is None <==> forall|k: int| 0 <= k < count ==> (#[trigger] escapes@[k]) is None,
            lowest_iterations matches Some(m) ==> {
                &&& exists|k: int| 0 <= k < count && escapes@[k] == Some(m)
                &&& forall|k: int| 0 <= k < count && (#[trigger] escapes@[k]) is Some ==> m <= escapes@[k].unwrap()
            },
        decreases amount + 1 - count,
    {
        let index = start_index + count;
        let pixel = index_to_pixel(index, image);
        let result = escapes[count];
        assert(escape_fits(escapes@[count as int], *image, shades@));
        match result {
            Some(unsigned) => {
                match lowest_iterations {
                    None => {
                        lowest_iterations = Some(unsigned);
                    },
                    Some(current_low) => {
                        if unsigned < current_low {
                            lowest_iterations = Some(unsigned);
                        }
                    },
                }
                assert(escapes@[count as int] == Some(unsigned));
            },
            None => {},
        }
        results[index] = result_code(result);
        draw_pixel(&pixel, result, image, shades, image_data);
        proof {
            let ghost c = count as int;
            assert(escapes@.take(c + 1) =~= escapes@.take(c).push(escapes@[c]));
            assert(results@ =~= pass1_results(res0, escapes@.take(c + 1), start_index as int));
            assert(image_data@ =~= pass1_image(img0, escapes@.take(c + 1), shades@, start_index as int));
        }
        count += 1;
    }
    assert(escapes@.take(escapes@.len() as int) =~= escapes@);
    lowest_iterations
}

/// Pass 2 over the chunk `start_index ..= start_index + amount`: each pixel
/// whose raw result `current` is positive is redrawn with the count
/// `current - lowest + 1`, provided `lowest` is positive. Members (`-1`),
/// zero counts, and every pixel when `lowest` is zero keep their colour.
pub fn second_round(
    image_data: &mut [u8],
    results: &[i32],
    image: &ImageDescriptor,
    shades: &[u8],
    start_index: usize,
    amount: usize,
    lowest: u32,
)
    requires
        image.wf(),
        start_index + amount < image.pixels(),
        results@.len() >= image.pixels(),
        old(image_data)@.len() >= 4 * image.pixels(),
        forall|i: int|
            start_index <= i <= start_index + amount ==> rebase_fits(#[trigger] results@[i], lowest, shades@),
    ensures
        final(image_data)@ == pass2_image(
            old(image_data)@,
            results@,
            shades@,
            start_index as int,
            amount + 1,
            lowest,
        ),
        forall|i: int, k: int|
            start_index <= i <= start_index + amount && 0 <= k < 4 && results@[i] <= 0
                ==> #[trigger] final(image_data)@[4 * i + k] == old(image_data)@[4 * i + k],
{
    let ghost img0 = image_data@;
    let mut count: usize = 0;
    while count <= amount
        invariant
            image.wf(),
            start_index + amount < image.pixels(),
            results@.len() >= image.pixels(),
            img0.len() >= 4 * image.pixels(),
            forall|i: int|
                start_index <= i <= start_index + amount ==> rebase_fits(#[trigger] results@[i], lowest, shades@),
            count <= amount + 1,
            image_data@ == pass2_image(img0, results@, shades@, start_index as int, count as int, lowest),
        decreases amount + 1 - count,
    {
        let index = start_index + count;
        let current = results[index];
        assert(rebase_fits(results@[index as int], lowest, shades@));
        if current > 0 && lowest > 0 {
            let pixel = index_to_pixel(index, image);
            let rebased_count = (current as u32) - lowest + 1;
            draw_pixel(&pixel, Some(rebased_count), image, shades, image_data);
        }
        assert(image_data@ =~= pass2_image(img0, results@, shades@, start_index as int, count + 1, lowest));
        count += 1;
    }
    assert forall|i: int, k: int|
        start_index <= i <= start_index + amount && 0 <= k < 4 && results@[i] <= 0 implies
        #[trigger] image_data@[4 * i + k] == img0[4 * i + k] by {
        assert((4 * i + k) / 4 == i);
    }
}

} // verus!
