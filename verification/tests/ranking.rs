use video_palette::color::{Color, Threshold};
use video_palette::error::PaletteError;
use video_palette::frame::{extract_colors_from_frame, Frame};
use video_palette::ranking::{rank_by_count, top_colors};
use video_palette::tally::{extract_color_ranking_from_video, ColorCounts, FrameRead};

const RED: Color = Color { red: 255, green: 0, blue: 0 };
const BLUE: Color = Color { red: 0, green: 0, blue: 255 };
const GREEN: Color = Color { red: 0, green: 255, blue: 0 };
const WHITE: Color = Color { red: 255, green: 255, blue: 255 };
const BLACK: Color = Color { red: 0, green: 0, blue: 0 };

fn decoded(pixels: Vec<Color>) -> FrameRead {
    let cols = pixels.len();
    FrameRead::Decoded(Frame::from_pixels(cols, 1, pixels).unwrap())
}

fn zero() -> Threshold {
    Threshold::zero()
}

#[test]
fn synthetic_frame_ranks_red_before_blue() {
    let reads = vec![decoded(vec![RED, RED, BLUE, WHITE])];
    let ranking = extract_color_ranking_from_video(&reads, zero(), zero()).unwrap();
    assert_eq!(ranking, vec![(RED, 2), (BLUE, 1)]);
}

#[test]
fn counts_add_up_over_the_frames() {
    let reads = vec![
        decoded(vec![BLUE, RED, WHITE]),
        decoded(vec![RED, GREEN, BLACK, RED]),
        decoded(vec![]),
        decoded(vec![GREEN, RED]),
    ];
    let ranking = extract_color_ranking_from_video(&reads, zero(), zero()).unwrap();
    assert_eq!(ranking, vec![(RED, 4), (GREEN, 2), (BLUE, 1)]);
}

#[test]
fn sum_of_counts_is_the_number_of_kept_pixels() {
    let mut reads = Vec::new();
    let mut kept = 0usize;
    let saturation = Threshold::new(200_000).unwrap();
    let luminance = Threshold::new(100_000).unwrap();
    for f in 0..7u32 {
        let mut pixels = Vec::new();
        for p in 0..50u32 {
            let v = f * 50 + p;
            pixels.push(Color::new((v * 7 % 256) as u8, (v * 13 % 256) as u8, (v * 29 % 256) as u8));
        }
        let frame = Frame::from_pixels(50, 1, pixels.clone()).unwrap();
        kept += extract_colors_from_frame(&frame, saturation, luminance).len();
        reads.push(decoded(pixels));
    }
    let ranking = extract_color_ranking_from_video(&reads, saturation, luminance).unwrap();
    assert!(kept > 0);
    assert_eq!(ranking.iter().map(|entry| entry.1).sum::<usize>(), kept);
}

#[test]
fn ranking_is_sorted_by_count_descending() {
    let mut pixels = Vec::new();
    for v in 0..400u32 {
        let c = Color::new((v % 7 * 30 + 20) as u8, (v % 5 * 40 + 10) as u8, (v % 3 * 100) as u8);
        pixels.push(c);
    }
    let ranking =
        extract_color_ranking_from_video(&vec![decoded(pixels)], zero(), zero()).unwrap();
    assert!(ranking.len() > 1);
    for pair in ranking.windows(2) {
        assert!(pair[0].1 >= pair[1].1);
    }
    for entry in &ranking {
        assert!(entry.1 >= 1);
    }
    for i in 0..ranking.len() {
        for j in i + 1..ranking.len() {
            assert_ne!(ranking[i].0, ranking[j].0);
        }
    }
}

#[test]
fn equal_counts_stand_in_order_of_first_sight() {
    let reads = vec![decoded(vec![GREEN, BLUE]), decoded(vec![RED, BLUE, GREEN, RED])];
    let ranking = extract_color_ranking_from_video(&reads, zero(), zero()).unwrap();
    assert_eq!(ranking, vec![(GREEN, 2), (BLUE, 2), (RED, 2)]);
}

#[test]
fn no_frames_give_an_empty_ranking() {
    let ranking = extract_color_ranking_from_video(&vec![], zero(), zero()).unwrap();
    assert_eq!(ranking, vec![]);
}

#[test]
fn filtered_out_frames_give_an_empty_ranking() {
    let reads = vec![decoded(vec![WHITE, BLACK]), decoded(vec![BLACK])];
    let ranking = extract_color_ranking_from_video(&reads, zero(), zero()).unwrap();
    assert_eq!(ranking, vec![]);
}

#[test]
fn failed_read_gives_decode_error_with_frames_processed() {
    let reads = vec![decoded(vec![RED]), decoded(vec![BLUE]), FrameRead::Failed, decoded(vec![RED])];
    let result = extract_color_ranking_from_video(&reads, zero(), zero());
    assert_eq!(result, Err(PaletteError::Decode { frames_processed: 2 }));
}

#[test]
fn failed_first_read_gives_decode_error_at_zero() {
    let reads = vec![FrameRead::Failed, FrameRead::Failed];
    let result = extract_color_ranking_from_video(&reads, zero(), zero());
    assert_eq!(result, Err(PaletteError::Decode { frames_processed: 0 }));
}

#[test]
fn thresholds_apply_to_the_ranking() {
    let pale = Color::new(200, 180, 180);
    let reads = vec![decoded(vec![pale, RED, pale, pale])];
    let saturation = Threshold::new(500_000).unwrap();
    let ranking = extract_color_ranking_from_video(&reads, saturation, zero()).unwrap();
    assert_eq!(ranking, vec![(RED, 1)]);
    let all = extract_color_ranking_from_video(&reads, zero(), zero()).unwrap();
    assert_eq!(all, vec![(pale, 3), (RED, 1)]);
}

#[test]
fn tally_counts_pixel_by_pixel() {
    let mut counts = ColorCounts::new();
    assert_eq!(counts.total(), 0);
    assert_eq!(counts.len(), 0);
    counts.add_color(BLUE);
    counts.add_color(RED);
    counts.add_color(RED);
    assert_eq!(counts.total(), 3);
    assert_eq!(counts.len(), 2);
    counts.add_colors(&[GREEN, RED, BLUE, GREEN, GREEN, GREEN]);
    assert_eq!(counts.total(), 9);
    assert_eq!(counts.len(), 3);
    assert_eq!(counts.into_ranking(), vec![(GREEN, 4), (RED, 3), (BLUE, 2)]);
}

#[test]
fn tally_frame_by_frame_matches_the_whole_run() {
    let frames = vec![vec![RED, BLUE, WHITE, GREEN], vec![GREEN, GREEN, BLACK], vec![BLUE, RED]];
    let mut counts = ColorCounts::new();
    for pixels in &frames {
        let frame = Frame::from_pixels(pixels.len(), 1, pixels.clone()).unwrap();
        counts.add_colors(&extract_colors_from_frame(&frame, zero(), zero()));
    }
    let reads: Vec<FrameRead> = frames.into_iter().map(decoded).collect();
    let whole = extract_color_ranking_from_video(&reads, zero(), zero()).unwrap();
    assert_eq!(counts.into_ranking(), whole);
    assert_eq!(whole, vec![(GREEN, 3), (RED, 2), (BLUE, 2)]);
}

#[test]
fn tally_tells_colours_apart_by_every_channel() {
    let mut counts = ColorCounts::new();
    counts.add_colors(&[
        Color::new(1, 0, 0),
        Color::new(0, 1, 0),
        Color::new(0, 0, 1),
        Color::new(0, 1, 0),
        Color::new(1, 0, 1),
    ]);
    assert_eq!(
        counts.into_ranking(),
        vec![
            (Color::new(0, 1, 0), 2),
            (Color::new(1, 0, 0), 1),
            (Color::new(0, 0, 1), 1),
            (Color::new(1, 0, 1), 1),
        ]
    );
}

#[test]
fn rank_by_count_is_stable() {
    let a = Color::new(1, 1, 1);
    let b = Color::new(2, 2, 2);
    let c = Color::new(3, 3, 3);
    let d = Color::new(4, 4, 4);
    let e = Color::new(5, 5, 5);
    let entries = vec![(a, 1), (b, 3), (c, 1), (d, 3), (e, 2)];
    assert_eq!(rank_by_count(&entries), vec![(b, 3), (d, 3), (e, 2), (a, 1), (c, 1)]);
}

#[test]
fn rank_by_count_of_many_entries() {
    let mut entries = Vec::new();
    for v in 0..1000usize {
        entries.push((Color::new((v % 256) as u8, (v / 256) as u8, 0), v * 7919 % 13));
    }
    let ranking = rank_by_count(&entries);
    let mut expected = entries.clone();
    expected.sort_by(|a, b| b.1.cmp(&a.1));
    assert_eq!(ranking, expected);
}

#[test]
fn rank_by_count_of_nothing_and_of_one() {
    assert_eq!(rank_by_count(&[]), vec![]);
    assert_eq!(rank_by_count(&[(RED, 9)]), vec![(RED, 9)]);
}

#[test]
fn top_colors_takes_the_front() {
    let ranking = vec![(RED, 5), (GREEN, 3), (BLUE, 1)];
    assert_eq!(top_colors(&ranking, 2), vec![(RED, 5), (GREEN, 3)]);
    assert_eq!(top_colors(&ranking, 3), ranking);
    assert_eq!(top_colors(&ranking, 10), ranking);
    assert_eq!(top_colors(&ranking, 0), vec![]);
}

#[test]
fn tally_agrees_with_a_hash_map_count() {
    let mut pixels = Vec::new();
    let mut state: u32 = 12345;
    for _ in 0..5000 {
        state = state.wrapping_mul(1664525).wrapping_add(1013904223);
        let r = ((state >> 24) % 4 * 60 + 30) as u8;
        let g = ((state >> 16) % 3 * 100 + 20) as u8;
        let b = ((state >> 8) % 5 * 50) as u8;
        pixels.push(Color::new(r, g, b));
    }
    let mut expected: std::collections::HashMap<Color, usize> = std::collections::HashMap::new();
    let mut first_seen: Vec<Color> = Vec::new();
    for c in &pixels {
        let count = expected.entry(*c).or_insert(0);
        if *count == 0 {
            first_seen.push(*c);
        }
        *count += 1;
    }
    let mut counts = ColorCounts::new();
    counts.add_colors(&pixels);
    assert_eq!(counts.total(), 5000);
    assert_eq!(counts.len(), expected.len());
    let ranking = counts.into_ranking();
    assert_eq!(ranking.len(), expected.len());
    for (color, count) in &ranking {
        assert_eq!(expected[color], *count);
    }
    let mut by_first_sight: Vec<(Color, usize)> =
        first_seen.iter().map(|c| (*c, expected[c])).collect();
    by_first_sight.sort_by(|a, b| b.1.cmp(&a.1));
    assert_eq!(ranking, by_first_sight);
}

#[test]
fn tally_takes_reads_one_by_one() {
    let mut counts = ColorCounts::new();
    let first = decoded(vec![RED, WHITE, BLUE, RED]);
    assert_eq!(counts.add_read(&first, 0, zero(), zero()), Ok(()));
    assert_eq!(counts.total(), 3);
    let failed = FrameRead::Failed;
    assert_eq!(
        counts.add_read(&failed, 1, zero(), zero()),
        Err(PaletteError::Decode { frames_processed: 1 })
    );
    assert_eq!(counts.total(), 3);
    let vivid_only = Threshold::new(900_000).unwrap();
    let second = decoded(vec![Color::new(200, 190, 190), GREEN]);
    assert_eq!(counts.add_read(&second, 1, vivid_only, zero()), Ok(()));
    assert_eq!(counts.total(), 4);
    assert_eq!(counts.into_ranking(), vec![(RED, 2), (BLUE, 1), (GREEN, 1)]);
}
