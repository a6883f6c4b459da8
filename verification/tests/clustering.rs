use video_palette::cluster::{count_samples, create_color_clusters, weighted_samples, ColorCluster};
use video_palette::color::{Color, Threshold};
use video_palette::error::PaletteError;
use video_palette::frame::Frame;
use video_palette::tally::{extract_color_ranking_from_video, FrameRead};

const RED: Color = Color { red: 255, green: 0, blue: 0 };
const BLUE: Color = Color { red: 0, green: 0, blue: 255 };
const GREEN: Color = Color { red: 0, green: 255, blue: 0 };
const WHITE: Color = Color { red: 255, green: 255, blue: 255 };

fn centre(c: Color) -> (i64, i64, i64) {
    (c.red as i64, c.green as i64, c.blue as i64)
}

#[test]
fn synthetic_frame_clusters_into_red_and_blue() {
    let frame = Frame::from_pixels(4, 1, vec![RED, RED, BLUE, WHITE]).unwrap();
    let reads = vec![FrameRead::Decoded(frame)];
    let ranking =
        extract_color_ranking_from_video(&reads, Threshold::zero(), Threshold::zero()).unwrap();
    assert_eq!(ranking, vec![(RED, 2), (BLUE, 1)]);
    let samples = weighted_samples(&ranking).unwrap();
    assert_eq!(samples, vec![RED, RED, BLUE]);
    // The outcome of k-means with two clusters over these samples.
    let assignments = vec![0, 0, 1];
    let centroids = vec![centre(RED), centre(BLUE)];
    let clusters = create_color_clusters(&ranking, 2, &assignments, &centroids).unwrap();
    assert_eq!(
        clusters,
        vec![
            ColorCluster { centroid: RED, assignments: vec![(RED, 2)] },
            ColorCluster { centroid: BLUE, assignments: vec![(BLUE, 1)] },
        ]
    );
}

#[test]
fn synthetic_frame_clusters_in_the_order_of_the_centres() {
    let ranking = vec![(RED, 2), (BLUE, 1)];
    let clusters =
        create_color_clusters(&ranking, 2, &[1, 1, 0], &[centre(BLUE), centre(RED)]).unwrap();
    assert_eq!(
        clusters,
        vec![
            ColorCluster { centroid: BLUE, assignments: vec![(BLUE, 1)] },
            ColorCluster { centroid: RED, assignments: vec![(RED, 2)] },
        ]
    );
}

#[test]
fn empty_ranking_is_an_empty_input_error() {
    assert_eq!(create_color_clusters(&[], 2, &[], &[]), Err(PaletteError::EmptyInput));
    assert_eq!(
        create_color_clusters(&[], 2, &[], &[(0, 0, 0), (1, 1, 1)]),
        Err(PaletteError::EmptyInput)
    );
    assert_eq!(create_color_clusters(&[], 0, &[], &[]), Err(PaletteError::EmptyInput));
    assert_eq!(weighted_samples(&[]), Err(PaletteError::EmptyInput));
}

#[test]
fn ranking_without_samples_is_an_empty_input_error() {
    let ranking = vec![(RED, 0), (BLUE, 0)];
    assert_eq!(count_samples(&ranking), Some(0));
    assert_eq!(weighted_samples(&ranking), Err(PaletteError::EmptyInput));
    assert_eq!(
        create_color_clusters(&ranking, 1, &[], &[(0, 0, 0)]),
        Err(PaletteError::EmptyInput)
    );
}

#[test]
fn zero_clusters_are_an_invalid_configuration() {
    let ranking = vec![(RED, 2), (BLUE, 1)];
    assert_eq!(
        create_color_clusters(&ranking, 0, &[0, 0, 0], &[]),
        Err(PaletteError::InvalidConfiguration)
    );
}

#[test]
fn outcome_with_too_few_assignments_is_a_mismatch() {
    let ranking = vec![(RED, 2), (BLUE, 1)];
    let centroids = vec![centre(RED), centre(BLUE)];
    assert_eq!(
        create_color_clusters(&ranking, 2, &[0, 1], &centroids),
        Err(PaletteError::ClusteringMismatch)
    );
    assert_eq!(
        create_color_clusters(&ranking, 2, &[0, 0, 1, 1], &centroids),
        Err(PaletteError::ClusteringMismatch)
    );
}

#[test]
fn outcome_with_the_wrong_number_of_centres_is_a_mismatch() {
    let ranking = vec![(RED, 2), (BLUE, 1)];
    assert_eq!(
        create_color_clusters(&ranking, 2, &[0, 0, 1], &[centre(RED)]),
        Err(PaletteError::ClusteringMismatch)
    );
    assert_eq!(
        create_color_clusters(&ranking, 2, &[0, 0, 1], &[centre(RED), centre(BLUE), centre(GREEN)]),
        Err(PaletteError::ClusteringMismatch)
    );
}

#[test]
fn outcome_with_an_unknown_cluster_is_a_mismatch() {
    let ranking = vec![(RED, 2), (BLUE, 1)];
    let centroids = vec![centre(RED), centre(BLUE)];
    assert_eq!(
        create_color_clusters(&ranking, 2, &[0, 0, 2], &centroids),
        Err(PaletteError::ClusteringMismatch)
    );
    assert_eq!(
        create_color_clusters(&ranking, 2, &[0, 7, 1], &centroids),
        Err(PaletteError::ClusteringMismatch)
    );
}

#[test]
fn outcome_that_parts_the_samples_of_a_colour_is_a_mismatch() {
    let ranking = vec![(RED, 2), (BLUE, 1)];
    let centroids = vec![centre(RED), centre(BLUE)];
    assert_eq!(
        create_color_clusters(&ranking, 2, &[0, 1, 1], &centroids),
        Err(PaletteError::ClusteringMismatch)
    );
    let ranking = vec![(RED, 1), (GREEN, 3)];
    assert_eq!(
        create_color_clusters(&ranking, 2, &[0, 1, 1, 0], &centroids),
        Err(PaletteError::ClusteringMismatch)
    );
    assert!(create_color_clusters(&ranking, 2, &[0, 1, 1, 1], &centroids).is_ok());
}

#[test]
fn ranking_too_large_to_sample_is_a_mismatch() {
    let ranking = vec![(RED, usize::MAX), (BLUE, 1)];
    assert_eq!(count_samples(&ranking), None);
    assert_eq!(
        create_color_clusters(&ranking, 1, &[0, 0], &[centre(RED)]),
        Err(PaletteError::ClusteringMismatch)
    );
    assert_eq!(
        create_color_clusters(&ranking, 0, &[0, 0], &[centre(RED)]),
        Err(PaletteError::InvalidConfiguration)
    );
}

#[test]
fn count_samples_adds_the_counts() {
    assert_eq!(count_samples(&[]), Some(0));
    assert_eq!(count_samples(&[(RED, 2), (BLUE, 1)]), Some(3));
    assert_eq!(count_samples(&[(RED, usize::MAX - 1), (BLUE, 1)]), Some(usize::MAX));
    assert_eq!(count_samples(&[(RED, usize::MAX - 1), (BLUE, 1), (GREEN, 1)]), None);
}

#[test]
fn weighted_samples_repeat_each_colour_by_its_count() {
    let ranking = vec![(GREEN, 3), (RED, 1), (BLUE, 2)];
    assert_eq!(weighted_samples(&ranking), Ok(vec![GREEN, GREEN, GREEN, RED, BLUE, BLUE]));
    assert_eq!(weighted_samples(&[(RED, 0), (BLUE, 1)]), Ok(vec![BLUE]));
}

#[test]
fn colour_follows_its_own_samples() {
    // The samples are red, red, red, blue: blue goes by the fourth assignment.
    let ranking = vec![(RED, 3), (BLUE, 1)];
    let clusters =
        create_color_clusters(&ranking, 2, &[1, 1, 1, 0], &[centre(BLUE), centre(RED)]).unwrap();
    assert_eq!(clusters[0].assignments, vec![(BLUE, 1)]);
    assert_eq!(clusters[1].assignments, vec![(RED, 3)]);
}

#[test]
fn cluster_may_stay_empty() {
    let ranking = vec![(RED, 2), (BLUE, 1)];
    let centroids = vec![(10, 20, 30), centre(RED), (1, 2, 3)];
    let clusters = create_color_clusters(&ranking, 3, &[1, 1, 1], &centroids).unwrap();
    assert_eq!(clusters.len(), 3);
    assert_eq!(clusters[0], ColorCluster { centroid: Color::new(10, 20, 30), assignments: vec![] });
    assert_eq!(clusters[1], ColorCluster { centroid: RED, assignments: vec![(RED, 2), (BLUE, 1)] });
    assert_eq!(clusters[2], ColorCluster { centroid: Color::new(1, 2, 3), assignments: vec![] });
}

#[test]
fn entry_without_samples_goes_nowhere() {
    let ranking = vec![(RED, 1), (GREEN, 0), (BLUE, 1)];
    let clusters =
        create_color_clusters(&ranking, 2, &[0, 1], &[centre(RED), centre(BLUE)]).unwrap();
    assert_eq!(clusters[0].assignments, vec![(RED, 1)]);
    assert_eq!(clusters[1].assignments, vec![(BLUE, 1)]);
}

#[test]
fn centroid_channels_are_cut_to_bytes() {
    let ranking = vec![(RED, 1)];
    let centroids = vec![(-1, 256, 127), (i64::MIN, i64::MAX, 0), (255, 254, 1)];
    let clusters = create_color_clusters(&ranking, 3, &[2], &centroids).unwrap();
    assert_eq!(clusters[0].centroid, Color::new(0, 255, 127));
    assert_eq!(clusters[1].centroid, Color::new(0, 255, 0));
    assert_eq!(clusters[2].centroid, Color::new(255, 254, 1));
    assert_eq!(video_palette::cluster::clamp_to_byte(-7), 0);
    assert_eq!(video_palette::cluster::clamp_to_byte(0), 0);
    assert_eq!(video_palette::cluster::clamp_to_byte(200), 200);
    assert_eq!(video_palette::cluster::clamp_to_byte(255), 255);
    assert_eq!(video_palette::cluster::clamp_to_byte(256), 255);
}

#[test]
fn clusters_part_the_ranking() {
    let mut ranking = Vec::new();
    let mut assignments = Vec::new();
    for v in 0..40usize {
        let count = v % 4 + 1;
        ranking.push((Color::new(v as u8, (2 * v) as u8, (255 - v) as u8), count));
        for _ in 0..count {
            assignments.push(v * v % 5);
        }
    }
    let centroids: Vec<(i64, i64, i64)> = (0..5).map(|j| (j * 50, j * 40, j * 30)).collect();
    let clusters = create_color_clusters(&ranking, 5, &assignments, &centroids).unwrap();
    assert_eq!(clusters.len(), 5);
    let mut seen = vec![0usize; ranking.len()];
    for cluster in &clusters {
        for entry in &cluster.assignments {
            let place = ranking.iter().position(|e| e == entry).unwrap();
            seen[place] += 1;
        }
    }
    assert!(seen.iter().all(|&times| times == 1));
    for (j, cluster) in clusters.iter().enumerate() {
        let expected: Vec<(Color, usize)> = ranking
            .iter()
            .enumerate()
            .filter(|(v, _)| v * v % 5 == j)
            .map(|(_, entry)| *entry)
            .collect();
        assert_eq!(cluster.assignments, expected);
    }
}

#[test]
fn each_colour_is_its_own_cluster_when_every_sample_has_one() {
    let ranking = vec![(RED, 1), (GREEN, 1), (BLUE, 1)];
    let assignments = vec![2, 0, 1];
    let centroids = vec![centre(GREEN), centre(BLUE), centre(RED)];
    let clusters = create_color_clusters(&ranking, 3, &assignments, &centroids).unwrap();
    assert_eq!(
        clusters,
        vec![
            ColorCluster { centroid: GREEN, assignments: vec![(GREEN, 1)] },
            ColorCluster { centroid: BLUE, assignments: vec![(BLUE, 1)] },
            ColorCluster { centroid: RED, assignments: vec![(RED, 1)] },
        ]
    );
}

#[test]
fn clustering_twice_gives_the_same_clusters() {
    let ranking = vec![(RED, 4), (GREEN, 2), (BLUE, 2), (WHITE, 1)];
    let assignments = vec![0, 0, 0, 0, 1, 1, 2, 2, 1];
    let centroids = vec![(254, 1, 3), (100, 250, 100), (2, 2, 250)];
    let first = create_color_clusters(&ranking, 3, &assignments, &centroids).unwrap();
    let second = create_color_clusters(&ranking, 3, &assignments, &centroids).unwrap();
    assert_eq!(first, second);
    assert_eq!(first[1].assignments, vec![(GREEN, 2), (WHITE, 1)]);
}

#[test]
fn more_clusters_than_colours_is_no_error() {
    let ranking = vec![(RED, 1)];
    let centroids = vec![(0, 0, 0), centre(RED), (9, 9, 9), (8, 8, 8)];
    let clusters = create_color_clusters(&ranking, 4, &[1], &centroids).unwrap();
    assert_eq!(clusters.len(), 4);
    assert_eq!(clusters[1].assignments, vec![(RED, 1)]);
    assert!(clusters[0].assignments.is_empty());
    assert!(clusters[2].assignments.is_empty());
    assert!(clusters[3].assignments.is_empty());
}

#[test]
fn centroid_stays_within_rounding_of_its_colour() {
    let grey = Color::new(128, 1, 254);
    let ranking = vec![(RED, 1), (grey, 1)];
    // Centres as a k-means run leaves them: a hair off the colours, once past a byte.
    let centroids = vec![(254, 0, -1), (127, 2, 255)];
    let clusters = create_color_clusters(&ranking, 2, &[0, 1], &centroids).unwrap();
    assert_eq!(clusters[0].assignments, vec![(RED, 1)]);
    assert_eq!(clusters[1].assignments, vec![(grey, 1)]);
    assert_eq!(clusters[0].centroid, Color::new(254, 0, 0));
    assert_eq!(clusters[1].centroid, Color::new(127, 2, 255));
    for (cluster, (color, _)) in clusters.iter().zip(&ranking) {
        assert!((cluster.centroid.red as i32 - color.red as i32).abs() <= 1);
        assert!((cluster.centroid.green as i32 - color.green as i32).abs() <= 1);
        assert!((cluster.centroid.blue as i32 - color.blue as i32).abs() <= 1);
    }
}

#[test]
fn window_without_frames_ends_in_an_empty_input_error() {
    let ranking =
        extract_color_ranking_from_video(&[], Threshold::zero(), Threshold::zero()).unwrap();
    assert!(ranking.is_empty());
    assert_eq!(
        create_color_clusters(&ranking, 5, &[], &[(0, 0, 0); 5]),
        Err(PaletteError::EmptyInput)
    );
}
