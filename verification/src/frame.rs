//! Frames, and the filter that picks the colours of a frame.

use vstd::prelude::*;

use crate::color::{
    keeps, keeps_under, near_black, near_white, saturation_reaches, value_reaches, Color,
    Threshold,
};

verus! {

/// Channel `channel` of pixel `pixel` in a buffer of three bytes per pixel.
pub open spec fn channel_at(data: Seq<u8>, pixel: int, channel: int) -> u8 {
    data[3 * pixel + channel]
}

/// The pixels of a buffer that holds red, green, blue for each pixel.
pub open spec fn pixels_of_rgb(data: Seq<u8>) -> Seq<Color> {
    Seq::new(
        (data.len() / 3) as nat,
        |i: int|
            Color {
                red: channel_at(data, i, 0),
                green: channel_at(data, i, 1),
                blue: channel_at(data, i, 2),
            },
    )
}

/// The pixels of a buffer that holds blue, green, red for each pixel.
pub open spec fn pixels_of_bgr(data: Seq<u8>) -> Seq<Color> {
    Seq::new(
        (data.len() / 3) as nat,
        |i: int|
            Color {
                red: channel_at(data, i, 2),
                green: channel_at(data, i, 1),
                blue: channel_at(data, i, 0),
            },
    )
}

/// One decoded frame: a grid of pixels, row by row, with the channels in
/// the order red, green, blue.
#[derive(Debug)]
pub struct Frame {
    cols: usize,
    rows: usize,
    pixels: Vec<Color>,
}

impl View for Frame {
    type V = Seq<Color>;

    closed spec fn view(&self) -> Seq<Color> {
        self.pixels@
    }
}

impl Frame {
    #[verifier::type_invariant]
    spec fn is_grid(self) -> bool {
        self.pixels@.len() == self.cols * self.rows
    }

    /// The number of pixels in a row.
    pub closed spec fn width(self) -> int {
        self.cols as int
    }

    /// The number of rows.
    pub closed spec fn height(self) -> int {
        self.rows as int
    }

    /// The frame of `cols` by `rows` pixels; `None` when `pixels` does not
    /// hold that many.
    pub fn from_pixels(cols: usize, rows: usize, pixels: Vec<Color>) -> (frame: Option<Frame>)
        ensures
            pixels@.len() == cols * rows ==> frame is Some && frame->Some_0@ == pixels@
                && frame->Some_0.width() == cols && frame->Some_0.height() == rows,
            pixels@.len() != cols * rows ==> frame is None,
    {
        let given: usize = pixels.len();
        match cols.checked_mul(rows) {
            Some(count) => if given == count {
                Some(Frame { cols, rows, pixels })
            } else {
                None
            },
            None => None,
        }
    }

    /// The frame of a buffer of red, green, blue bytes; `None` when the
    /// buffer does not hold `cols` by `rows` pixels.
    pub fn from_rgb(cols: usize, rows: usize, data: &[u8]) -> (frame: Option<Frame>)
        ensures
            data@.len() == 3 * (cols * rows) ==> frame is Some && frame->Some_0@ == pixels_of_rgb(
                data@,
            ) && frame->Some_0.width() == cols && frame->Some_0.height() == rows,
            data@.len() != 3 * (cols * rows) ==> frame is None,
    {
        let bytes: usize = data.len();
        let count: usize = match cols.checked_mul(rows) {
            Some(count) => count,
            None => {
                return None;
            },
        };
        if bytes % 3 != 0 || bytes / 3 != count {
            return None;
        }
        let mut pixels: Vec<Color> = Vec::new();
        let mut i: usize = 0;
        while i < count
            invariant
                3 * count == data@.len(),
                data@.len() <= usize::MAX,
                i <= count,
                pixels@ == pixels_of_rgb(data@).take(i as int),
            decreases count - i,
        {
            let c = Color { red: data[3 * i], green: data[3 * i + 1], blue: data[3 * i + 2] };
            pixels.push(c);
            i += 1;
        }
        Some(Frame { cols, rows, pixels })
    }

    /// The frame of a buffer of blue, green, red bytes, the order in which
    /// decoders commonly hand pixels out; `None` when the buffer does not
    /// hold `cols` by `rows` pixels. The channels come out as red, green,
    /// blue.
    pub fn from_bgr(cols: usize, rows: usize, data: &[u8]) -> (frame: Option<Frame>)
        ensures
            data@.len() == 3 * (cols * rows) ==> frame is Some && frame->Some_0@ == pixels_of_bgr(
                data@,
            ) && frame->Some_0.width() == cols && frame->Some_0.height() == rows,
            data@.len() != 3 * (cols * rows) ==> frame is None,
    {
        let bytes: usize = data.len();
        let count: usize = match cols.checked_mul(rows) {
            Some(count) => count,
            None => {
                return None;
            },
        };
        if bytes % 3 != 0 || bytes / 3 != count {
            return None;
        }
        let mut pixels: Vec<Color> = Vec::new();
        let mut i: usize = 0;
        while i < count
            invariant
                3 * count == data@.len(),
                data@.len() <= usize::MAX,
                i <= count,
                pixels@ == pixels_of_bgr(data@).take(i as int),
            decreases count - i,
        {
            let c = Color { red: data[3 * i + 2], green: data[3 * i + 1], blue: data[3 * i] };
            pixels.push(c);
            i += 1;
        }
        Some(Frame { cols, rows, pixels })
    }

    /// The number of pixels in a row.
    pub fn cols(&self) -> (cols: usize)
        ensures
            cols == self.width(),
    {
        self.cols
    }

    /// The number of rows.
    pub fn rows(&self) -> (rows: usize)
        ensures
            rows == self.height(),
    {
        self.rows
    }

    /// The number of pixels.
    pub fn len(&self) -> (n: usize)
        ensures
            n == self@.len(),
            n == self.width() * self.height(),
    {
        proof {
            use_type_invariant(self);
        }
        self.pixels.len()
    }

    /// The pixels, row by row.
    pub fn pixels(&self) -> (pixels: &Vec<Color>)
        ensures
            pixels@ == self@,
    {
        &self.pixels
    }
}

/// The pixels of `pixels` that the filter keeps, in their order, each as
/// often as it occurs.
pub open spec fn kept_colors(
    pixels: Seq<Color>,
    saturation: Threshold,
    luminance: Threshold,
) -> Seq<Color> {
    pixels.filter(keeps_under(saturation, luminance))
}

/// What the filter keeps is outside both exclusion bands and at or above
/// both thresholds, whatever the thresholds are.
pub proof fn lemma_kept_colors_pass(
    pixels: Seq<Color>,
    saturation: Threshold,
    luminance: Threshold,
    i: int,
)
    requires
        0 <= i < kept_colors(pixels, saturation, luminance).len(),
    ensures
        !near_white(kept_colors(pixels, saturation, luminance)[i]),
        !near_black(kept_colors(pixels, saturation, luminance)[i]),
        saturation_reaches(kept_colors(pixels, saturation, luminance)[i], saturation.value()),
        value_reaches(kept_colors(pixels, saturation, luminance)[i], luminance.value()),
{
}

/// The colours of `frame` that pass the filter: every pixel outside the
/// near-white and near-black bands whose saturation and value reach the
/// two thresholds, in frame order, duplicates included.
pub fn extract_colors_from_frame(
    frame: &Frame,
    saturation_threshold: Threshold,
    luminance_threshold: Threshold,
) -> (colors: Vec<Color>)
    ensures
        colors@ == kept_colors(frame@, saturation_threshold, luminance_threshold),
        forall|i: int| 0 <= i < colors@.len() ==> !near_white(#[trigger] colors@[i]),
        forall|i: int| 0 <= i < colors@.len() ==> !near_black(#[trigger] colors@[i]),
        forall|i: int|
            0 <= i < colors@.len() ==> saturation_reaches(
                #[trigger] colors@[i],
                saturation_threshold.value(),
            ),
        forall|i: int|
            0 <= i < colors@.len() ==> value_reaches(
                #[trigger] colors@[i],
                luminance_threshold.value(),
            ),
{
    let ghost pred = keeps_under(saturation_threshold, luminance_threshold);
    let mut colors: Vec<Color> = Vec::new();
    let n: usize = frame.pixels.len();
    let mut i: usize = 0;
    while i < n
        invariant
            n == frame.pixels@.len(),
            i <= n,
            pred == keeps_under(saturation_threshold, luminance_threshold),
            colors@ == frame.pixels@.take(i as int).filter(pred),
        decreases n - i,
    {
        let c = frame.pixels[i];
        proof {
            reveal(Seq::filter);
            assert(frame.pixels@.take(i + 1).drop_last() =~= frame.pixels@.take(i as int));
        }
        if c.is_kept(saturation_threshold, luminance_threshold) {
            colors.push(c);
        }
        i += 1;
    }
    proof {
        assert(frame.pixels@.take(n as int) =~= frame.pixels@);
    }
    colors
}

/// The width that keeps the shape of a frame of `cols` by `rows` pixels at
/// the height `sample_height`: the whole number nearest to
/// `sample_height * cols / rows`, the upper one where two are as near.
pub open spec fn width_at_height(cols: int, rows: int, sample_height: int) -> int {
    (2 * (sample_height * cols) + rows) / (2 * rows)
}

/// The width to which a frame of `cols` by `rows` pixels is sampled down
/// when its height becomes `sample_height`, so that its shape stays.
pub fn resized_width(cols: u32, rows: u32, sample_height: u32) -> (width: u64)
    requires
        rows > 0,
    ensures
        width == width_at_height(cols as int, rows as int, sample_height as int),
        -(rows as int) <= 2 * (sample_height * cols) - 2 * (width * rows) < rows,
{
    assert(sample_height * cols <= 0xffff_ffff * 0xffff_ffff) by (nonlinear_arith)
        requires
            sample_height <= 0xffff_ffff,
            cols <= 0xffff_ffff,
    ;
    let scaled: u64 = (sample_height as u64) * (cols as u64);
    let whole: u64 = scaled / (rows as u64);
    let rest: u64 = scaled % (rows as u64);
    let width: u64 = if 2 * rest >= rows as u64 {
        whole + 1
    } else {
        whole
    };
    proof {
        let n = scaled as int;
        let r = rows as int;
        let w = width as int;
        assert(n == (whole as int) * r + (rest as int) && 0 <= (rest as int) < r) by (nonlinear_arith)
            requires
                r > 0,
                n >= 0,
                whole as int == n / r,
                rest as int == n % r,
        ;
        let over = 2 * n + r - w * (2 * r);
        assert(0 <= over < 2 * r && 2 * n + r == w * (2 * r) + over && 2 * n - 2 * (w * r) == over
            - r) by (nonlinear_arith)
            requires
                r > 0,
                n == (whole as int) * r + (rest as int),
                0 <= (rest as int) < r,
                over == 2 * n + r - w * (2 * r),
                w == (whole as int) + (if 2 * (rest as int) >= r {
                    1int
                } else {
                    0int
                }),
        ;
        vstd::arithmetic::div_mod::lemma_fundamental_div_mod_converse(2 * n + r, 2 * r, w, over);
    }
    width
}

} // verus!
