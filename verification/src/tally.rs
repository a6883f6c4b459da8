//! Tallying the colours of the frames into a frequency ranking.
//!
//! The tally is owned by the aggregation step alone. It takes the kept
//! pixels frame after frame and is turned into the ranking once, after
//! the last frame.

use std::collections::HashMap;
use vstd::prelude::*;
use vstd::seq_lib::to_multiset_build;

use crate::color::{Color, Threshold};
use crate::error::PaletteError;
use crate::frame::{extract_colors_from_frame, kept_colors, Frame};
use crate::ranking::{
    colors_distinct, count_of, counts_positive, holds, is_frequency_ranking, is_ranking_of,
    lemma_ranking_keeps_counts, lemma_sample_offset_monotonic, lemma_sample_offset_update,
    lemma_total_samples_push, rank_by_count, sample_offset, slot, total_samples,
};

verus! {

broadcast use vstd::std_specs::hash::group_hash_axioms;

/// The entries after one more pixel of colour `c`: its entry counts one
/// more, or a new entry with count one stands at the end.
pub open spec fn bump(entries: Seq<(Color, usize)>, c: Color) -> Seq<(Color, usize)> {
    if holds(entries, c) {
        entries.update(slot(entries, c), (c, (entries[slot(entries, c)].1 + 1) as usize))
    } else {
        entries.push((c, 1usize))
    }
}

/// The entries after the pixels `colors`, one after the other.
pub open spec fn tally_onto(entries: Seq<(Color, usize)>, colors: Seq<Color>) -> Seq<
    (Color, usize),
>
    decreases colors.len(),
{
    if colors.len() == 0 {
        entries
    } else {
        bump(tally_onto(entries, colors.drop_last()), colors.last())
    }
}

/// The tally of a stream of pixels: each colour once, in the order of
/// first sight, with the number of its pixels.
pub open spec fn tally(colors: Seq<Color>) -> Seq<(Color, usize)> {
    tally_onto(Seq::empty(), colors)
}

/// One more pixel keeps the entries well formed, raises the count of its
/// colour by one and the total by one, and leaves every other count.
pub proof fn lemma_bump(entries: Seq<(Color, usize)>, c: Color)
    requires
        colors_distinct(entries),
        counts_positive(entries),
        total_samples(entries) < usize::MAX,
    ensures
        colors_distinct(bump(entries, c)),
        counts_positive(bump(entries, c)),
        total_samples(bump(entries, c)) == total_samples(entries) + 1,
        count_of(bump(entries, c), c) == count_of(entries, c) + 1,
        forall|d: Color| d != c ==> count_of(bump(entries, c), d) == count_of(entries, d),
        forall|d: Color| holds(bump(entries, c), d) <==> d == c || holds(entries, d),
{
    let after = bump(entries, c);
    if holds(entries, c) {
        let s = slot(entries, c);
        lemma_sample_offset_monotonic(entries, s, s);
        lemma_sample_offset_monotonic(entries, s + 1, entries.len() as int);
        lemma_sample_offset_update(entries, s, after[s], entries.len() as int);
        assert forall|d: Color| holds(after, d) <==> d == c || holds(entries, d) by {
            if holds(after, d) {
                let q = slot(after, d);
            }
            if holds(entries, d) {
                let q = slot(entries, d);
                assert(after[q].0 == d);
            }
        }
        assert forall|d: Color| d != c implies count_of(after, d) == count_of(entries, d) by {
            if holds(entries, d) {
                let q = slot(entries, d);
            }
        }
    } else {
        lemma_total_samples_push(entries, (c, 1usize));
        assert forall|d: Color| holds(after, d) <==> d == c || holds(entries, d) by {
            if holds(after, d) && d != c {
                let q = slot(after, d);
            }
            if holds(entries, d) {
                let q = slot(entries, d);
                assert(after[q].0 == d);
            }
        }
    }
}

/// Tallying a stream onto well-formed entries keeps them well formed,
/// adds one to the total for each pixel, and adds to the count of each
/// colour the number of its pixels in the stream.
pub proof fn lemma_tally_onto(entries: Seq<(Color, usize)>, colors: Seq<Color>)
    requires
        colors_distinct(entries),
        counts_positive(entries),
        total_samples(entries) + colors.len() <= usize::MAX,
    ensures
        colors_distinct(tally_onto(entries, colors)),
        counts_positive(tally_onto(entries, colors)),
        total_samples(tally_onto(entries, colors)) == total_samples(entries) + colors.len(),
        forall|d: Color| #[trigger]
            count_of(tally_onto(entries, colors), d) == count_of(entries, d)
                + colors.to_multiset().count(d),
    decreases colors.len(),
{
    if colors.len() == 0 {
        colors.to_multiset_ensures();
    } else {
        let before = colors.drop_last();
        let c = colors.last();
        lemma_tally_onto(entries, before);
        lemma_bump(tally_onto(entries, before), c);
        assert(colors =~= before.push(c));
        to_multiset_build(before, c);
        assert forall|d: Color| #[trigger]
            count_of(tally_onto(entries, colors), d) == count_of(entries, d)
                + colors.to_multiset().count(d) by {
            assert(count_of(tally_onto(entries, before), d) == count_of(entries, d)
                + before.to_multiset().count(d));
        }
    }
}

/// Tallying one stream and then another is tallying the two in a row.
pub proof fn lemma_tally_onto_add(entries: Seq<(Color, usize)>, a: Seq<Color>, b: Seq<Color>)
    ensures
        tally_onto(tally_onto(entries, a), b) == tally_onto(entries, a + b),
    decreases b.len(),
{
    if b.len() > 0 {
        lemma_tally_onto_add(entries, a, b.drop_last());
        assert((a + b).drop_last() =~= a + b.drop_last());
    }
}

/// The ranking of a tally is a frequency ranking that counts every pixel:
/// no colour twice, no count of zero, the larger counts first, each
/// colour with the number of its pixels, and all counts together as many
/// as there are pixels. It is empty only where there is no pixel.
pub proof fn lemma_ranking_of_tally(colors: Seq<Color>, ranking: Seq<(Color, usize)>)
    requires
        colors.len() <= usize::MAX,
        is_ranking_of(ranking, tally(colors)),
    ensures
        is_frequency_ranking(ranking),
        total_samples(ranking) == colors.len(),
        forall|d: Color| #[trigger] count_of(ranking, d) == colors.to_multiset().count(d),
        ranking.len() == 0 <==> colors.len() == 0,
{
    lemma_tally_onto(Seq::empty(), colors);
    lemma_ranking_keeps_counts(ranking, tally(colors));
    lemma_counts_bound_len(ranking, ranking.len() as int);
}

/// The key under which a colour is looked up: its three channels in one
/// number.
spec fn pack(c: Color) -> u32 {
    (c.red as int * 65536 + c.green as int * 256 + c.blue as int) as u32
}

fn key_of(c: Color) -> (key: u32)
    ensures
        key == pack(c),
{
    (c.red as u32) * 65536 + (c.green as u32) * 256 + (c.blue as u32)
}

/// The running tally of the aggregation step: the colours seen so far, in
/// the order of first sight, each with the number of its pixels.
pub struct ColorCounts {
    entries: Vec<(Color, usize)>,
    slots: HashMap<u32, usize>,
    total: usize,
}

impl View for ColorCounts {
    type V = Seq<(Color, usize)>;

    closed spec fn view(&self) -> Seq<(Color, usize)> {
        self.entries@
    }
}

impl ColorCounts {
    /// The tally is consistent: every colour has one entry, found under
    /// its key, no count is zero, and the total fits.
    pub closed spec fn wf(&self) -> bool {
        &&& forall|i: int|
            0 <= i < self.entries@.len() ==> self.slots@.contains_key(
                pack((#[trigger] self.entries@[i]).0),
            ) && self.slots@[pack(self.entries@[i].0)] == i
        &&& forall|k: u32| #[trigger]
            self.slots@.contains_key(k) ==> self.slots@[k] < self.entries@.len() && pack(
                self.entries@[self.slots@[k] as int].0,
            ) == k
        &&& counts_positive(self.entries@)
        &&& self.total == total_samples(self.entries@)
    }

    /// A consistent tally holds no colour twice and no count of zero, and
    /// its total fits a `usize`.
    pub proof fn lemma_wf(&self)
        requires
            self.wf(),
        ensures
            colors_distinct(self@),
            counts_positive(self@),
            total_samples(self@) <= usize::MAX,
    {
    }

    /// The tally before any pixel.
    pub fn new() -> (counts: ColorCounts)
        ensures
            counts.wf(),
            counts@ == Seq::<(Color, usize)>::empty(),
    {
        ColorCounts { entries: Vec::new(), slots: HashMap::new(), total: 0 }
    }

    /// The number of pixels tallied.
    pub fn total(&self) -> (total: usize)
        requires
            self.wf(),
        ensures
            total == total_samples(self@),
    {
        self.total
    }

    /// The number of distinct colours tallied.
    pub fn len(&self) -> (n: usize)
        ensures
            n == self@.len(),
    {
        self.entries.len()
    }

    /// Counts one pixel of colour `c`.
    pub fn add_color(&mut self, c: Color)
        requires
            old(self).wf(),
            total_samples(old(self)@) < usize::MAX,
        ensures
            final(self).wf(),
            final(self)@ == bump(old(self)@, c),
            total_samples(final(self)@) == total_samples(old(self)@) + 1,
    {
        proof {
            lemma_bump(self@, c);
        }
        let key = key_of(c);
        let found: Option<usize> = match self.slots.get(&key) {
            Some(place) => Some(*place),
            None => None,
        };
        match found {
            Some(place) => {
                let count: usize = self.entries[place].1;
                self.entries.set(place, (c, count + 1));
            },
            None => {
                proof {
                    assert(self.entries@.len() < usize::MAX) by {
                        lemma_counts_bound_len(self.entries@, self.entries@.len() as int);
                    }
                }
                let place: usize = self.entries.len();
                self.entries.push((c, 1));
                self.slots.insert(key, place);
            },
        }
        self.total = self.total + 1;
    }

    /// Counts the pixels `colors`, one after the other.
    pub fn add_colors(&mut self, colors: &[Color])
        requires
            old(self).wf(),
            total_samples(old(self)@) + colors@.len() <= usize::MAX,
        ensures
            final(self).wf(),
            final(self)@ == tally_onto(old(self)@, colors@),
            total_samples(final(self)@) == total_samples(old(self)@) + colors@.len(),
    {
        let n: usize = colors.len();
        let mut i: usize = 0;
        while i < n
            invariant
                n == colors@.len(),
                i <= n,
                self.wf(),
                self@ == tally_onto(old(self)@, colors@.take(i as int)),
                total_samples(self@) == total_samples(old(self)@) + i,
                total_samples(old(self)@) + colors@.len() <= usize::MAX,
            decreases n - i,
        {
            proof {
                assert(colors@.take(i + 1).drop_last() =~= colors@.take(i as int));
            }
            self.add_color(colors[i]);
            i += 1;
        }
        proof {
            assert(colors@.take(n as int) =~= colors@);
        }
    }

    /// Takes one read of the video into the tally: the kept pixels of a
    /// decoded frame are counted; a failed read changes nothing and gives
    /// `Decode` with `frames_processed`, the number of frames before it.
    pub fn add_read(
        &mut self,
        read: &FrameRead,
        frames_processed: usize,
        saturation_threshold: Threshold,
        luminance_threshold: Threshold,
    ) -> (result: Result<(), PaletteError>)
        requires
            old(self).wf(),
            read matches FrameRead::Decoded(frame) ==> total_samples(old(self)@) + frame@.len()
                <= usize::MAX,
        ensures
            final(self).wf(),
            match *read {
                FrameRead::Decoded(frame) => {
                    &&& result is Ok
                    &&& final(self)@ == tally_onto(
                        old(self)@,
                        kept_colors(frame@, saturation_threshold, luminance_threshold),
                    )
                    &&& total_samples(final(self)@) == total_samples(old(self)@) + kept_colors(
                        frame@,
                        saturation_threshold,
                        luminance_threshold,
                    ).len()
                },
                FrameRead::Failed => final(self)@ == old(self)@ && result == Err::<
                    (),
                    PaletteError,
                >(PaletteError::Decode { frames_processed }),
            },
    {
        match read {
            FrameRead::Decoded(frame) => {
                let colors = extract_colors_from_frame(
                    frame,
                    saturation_threshold,
                    luminance_threshold,
                );
                self.add_colors(colors.as_slice());
                Ok(())
            },
            FrameRead::Failed => Err(PaletteError::Decode { frames_processed }),
        }
    }

    /// The ranking of the tally: its entries with the larger counts first,
    /// and colours with equal counts in the order of first sight.
    pub fn into_ranking(self) -> (ranking: Vec<(Color, usize)>)
        requires
            self.wf(),
        ensures
            is_ranking_of(ranking@, self@),
            is_frequency_ranking(ranking@),
            total_samples(ranking@) == total_samples(self@),
            forall|d: Color| #[trigger] count_of(ranking@, d) == count_of(self@, d),
    {
        let ranking = rank_by_count(self.entries.as_slice());
        proof {
            lemma_ranking_keeps_counts(ranking@, self@);
        }
        ranking
    }
}

/// Entries with positive counts are no more than their total.
proof fn lemma_counts_bound_len(entries: Seq<(Color, usize)>, n: int)
    requires
        counts_positive(entries),
        0 <= n <= entries.len(),
    ensures
        n <= sample_offset(entries, n),
    decreases n,
{
    if n > 0 {
        lemma_counts_bound_len(entries, n - 1);
    }
}

/// What reading one frame from the video gave.
#[derive(Debug)]
pub enum FrameRead {
    /// The frame, already sampled down.
    Decoded(Frame),
    /// The frame could not be decoded.
    Failed,
}

/// The number of pixels in the decoded frames among the first `n` reads.
pub open spec fn pixels_before(reads: Seq<FrameRead>, n: int) -> int
    decreases n,
{
    if n <= 0 {
        0
    } else {
        pixels_before(reads, n - 1) + match reads[n - 1] {
            FrameRead::Decoded(frame) => frame@.len() as int,
            FrameRead::Failed => 0,
        }
    }
}

/// The pixels that the filter keeps from the decoded frames among the
/// first `n` reads, frame after frame.
pub open spec fn kept_before(
    reads: Seq<FrameRead>,
    n: int,
    saturation: Threshold,
    luminance: Threshold,
) -> Seq<Color>
    decreases n,
{
    if n <= 0 {
        Seq::empty()
    } else {
        kept_before(reads, n - 1, saturation, luminance) + match reads[n - 1] {
            FrameRead::Decoded(frame) => kept_colors(frame@, saturation, luminance),
            FrameRead::Failed => Seq::empty(),
        }
    }
}

/// The pixels that the filter keeps from all the frames of `reads`.
pub open spec fn kept_in_frames(
    reads: Seq<FrameRead>,
    saturation: Threshold,
    luminance: Threshold,
) -> Seq<Color> {
    kept_before(reads, reads.len() as int, saturation, luminance)
}

/// Read `f` is the first that failed.
pub open spec fn is_first_failure(reads: Seq<FrameRead>, f: int) -> bool {
    &&& 0 <= f < reads.len()
    &&& reads[f] is Failed
    &&& forall|q: int| 0 <= q < f ==> #[trigger] reads[q] is Decoded
}

/// Every read gave a frame.
pub open spec fn all_decoded(reads: Seq<FrameRead>) -> bool {
    forall|q: int| 0 <= q < reads.len() ==> #[trigger] reads[q] is Decoded
}

proof fn lemma_pixels_before_monotonic(reads: Seq<FrameRead>, i: int, j: int)
    requires
        i <= j,
    ensures
        0 <= pixels_before(reads, i) <= pixels_before(reads, j),
    decreases j,
{
    if j > 0 {
        if i == j {
            lemma_pixels_before_monotonic(reads, i - 1, j - 1);
        } else {
            lemma_pixels_before_monotonic(reads, i, j - 1);
        }
    }
}

proof fn lemma_kept_before_len(
    reads: Seq<FrameRead>,
    n: int,
    saturation: Threshold,
    luminance: Threshold,
)
    ensures
        kept_before(reads, n, saturation, luminance).len() <= pixels_before(reads, n),
    decreases n,
{
    if n > 0 {
        lemma_kept_before_len(reads, n - 1, saturation, luminance);
    }
}

/// The frequency ranking of the frames of a sampled range.
///
/// The frames are taken in their order. A pixel counts when the filter of
/// `extract_colors_from_frame` keeps it. The ranking holds every kept
/// colour once, with the number of its pixels over all frames, the larger
/// counts first and colours with equal counts in the order of first sight.
/// A read that failed ends the run with `Decode` and the number of frames
/// before it; no ranking comes out of a part of the frames.
pub fn extract_color_ranking_from_video(
    reads: &[FrameRead],
    saturation_threshold: Threshold,
    luminance_threshold: Threshold,
) -> (result: Result<Vec<(Color, usize)>, PaletteError>)
    requires
        pixels_before(reads@, reads@.len() as int) <= usize::MAX,
    ensures
        match result {
            Ok(ranking) => {
                &&& all_decoded(reads@)
                &&& is_ranking_of(
                    ranking@,
                    tally(kept_in_frames(reads@, saturation_threshold, luminance_threshold)),
                )
                &&& is_frequency_ranking(ranking@)
                &&& total_samples(ranking@) == kept_in_frames(
                    reads@,
                    saturation_threshold,
                    luminance_threshold,
                ).len()
                &&& forall|d: Color| #[trigger]
                    count_of(ranking@, d) == kept_in_frames(
                        reads@,
                        saturation_threshold,
                        luminance_threshold,
                    ).to_multiset().count(d)
                &&& ranking@.len() == 0 <==> kept_in_frames(
                    reads@,
                    saturation_threshold,
                    luminance_threshold,
                ).len() == 0
            },
            Err(e) => {
                &&& e matches PaletteError::Decode { frames_processed }
                &&& is_first_failure(reads@, frames_processed as int)
            },
        },
{
    let n: usize = reads.len();
    let mut counts = ColorCounts::new();
    let mut i: usize = 0;
    while i < n
        invariant
            n == reads@.len(),
            i <= n,
            pixels_before(reads@, n as int) <= usize::MAX,
            counts.wf(),
            counts@ == tally(kept_before(reads@, i as int, saturation_threshold, luminance_threshold)),
            total_samples(counts@) == kept_before(
                reads@,
                i as int,
                saturation_threshold,
                luminance_threshold,
            ).len(),
            forall|q: int| 0 <= q < i ==> #[trigger] reads@[q] is Decoded,
        decreases n - i,
    {
        proof {
            lemma_pixels_before_monotonic(reads@, i + 1, n as int);
            lemma_kept_before_len(reads@, i as int, saturation_threshold, luminance_threshold);
            match reads@[i as int] {
                FrameRead::Decoded(frame) => {
                    lemma_tally_onto_add(
                        Seq::empty(),
                        kept_before(reads@, i as int, saturation_threshold, luminance_threshold),
                        kept_colors(frame@, saturation_threshold, luminance_threshold),
                    );
                },
                FrameRead::Failed => {},
            }
        }
        match counts.add_read(&reads[i], i, saturation_threshold, luminance_threshold) {
            Ok(()) => {},
            Err(e) => {
                return Err(e);
            },
        }
        i += 1;
    }
    let ranking = counts.into_ranking();
    proof {
        lemma_ranking_of_tally(
            kept_in_frames(reads@, saturation_threshold, luminance_threshold),
            ranking@,
        );
    }
    Ok(ranking)
}

} // verus!
