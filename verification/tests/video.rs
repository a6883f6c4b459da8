use video_palette::error::PaletteError;
use video_palette::video::VideoFrameIterator;

const TOTAL_FRAMES: u64 = 300;
const FRAMES_PER_SECOND: u64 = 30;

#[test]
fn test_video_frame_iterator_creation() {
    let iterator = VideoFrameIterator::new(TOTAL_FRAMES, None, None);

    assert!(iterator.is_ok());
}

#[test]
fn test_video_frame_iterator_iteration() {
    let mut iterator = VideoFrameIterator::new(TOTAL_FRAMES, None, None).unwrap();
    let mut frame_count = 0;

    while iterator.next(true) {
        frame_count += 1;
    }

    assert!(frame_count > 0);
    assert_eq!(frame_count, TOTAL_FRAMES);
}

#[test]
fn test_video_frame_iterator_start_and_end_timestamps() {
    let start_timestamp = 2;
    let end_timestamp = 4;
    let mut iterator = VideoFrameIterator::new(
        TOTAL_FRAMES,
        Some(start_timestamp * FRAMES_PER_SECOND),
        Some(end_timestamp * FRAMES_PER_SECOND),
    )
    .unwrap();

    let mut frame_count = 0;
    let mut last_frame = None;
    loop {
        let frame = iterator.frame_number;
        if !iterator.next(true) {
            break;
        }
        frame_count += 1;
        last_frame = Some(frame);
    }

    assert!(frame_count > 0);
    assert_eq!(frame_count, 60);

    if let Some(frame) = last_frame {
        assert_eq!(frame, 119);
    } else {
        panic!("No frames found");
    }
    assert_eq!(iterator.frame_number, 120);
    assert_eq!(iterator.end_frame, 120);
    assert!(iterator.is_finished());
}

#[test]
fn video_without_frames_is_a_source_open_error() {
    assert_eq!(VideoFrameIterator::new(0, None, None), Err(PaletteError::SourceOpen));
    assert_eq!(VideoFrameIterator::new(0, Some(3), Some(9)), Err(PaletteError::SourceOpen));
    assert_eq!(VideoFrameIterator::new(0, Some(9), Some(3)), Err(PaletteError::SourceOpen));
}

#[test]
fn start_behind_the_end_gives_a_walk_without_frames() {
    let mut walk = VideoFrameIterator::new(100, Some(50), Some(49)).unwrap();
    assert_eq!(walk, VideoFrameIterator { end_frame: 49, frame_number: 50 });
    assert!(walk.is_finished());
    assert_eq!(walk.frames_left(), 0);
    assert!(!walk.next(true));
    assert_eq!(walk, VideoFrameIterator { end_frame: 49, frame_number: 50 });

    let mut walk = VideoFrameIterator::new(100, Some(101), None).unwrap();
    assert_eq!(walk, VideoFrameIterator { end_frame: 100, frame_number: 101 });
    assert!(walk.is_finished());
    assert_eq!(walk.frames_left(), 0);
    assert!(!walk.next(true));
    assert_eq!(walk.frame_number, 101);

    assert_eq!(
        VideoFrameIterator::new(1, Some(u64::MAX), Some(0)),
        Ok(VideoFrameIterator { end_frame: 0, frame_number: u64::MAX })
    );
}

#[test]
fn walk_covers_the_range_it_was_given() {
    assert_eq!(
        VideoFrameIterator::new(100, None, None),
        Ok(VideoFrameIterator { end_frame: 100, frame_number: 0 })
    );
    assert_eq!(
        VideoFrameIterator::new(100, Some(20), None),
        Ok(VideoFrameIterator { end_frame: 100, frame_number: 20 })
    );
    assert_eq!(
        VideoFrameIterator::new(100, None, Some(30)),
        Ok(VideoFrameIterator { end_frame: 30, frame_number: 0 })
    );
    assert_eq!(
        VideoFrameIterator::new(100, Some(20), Some(500)),
        Ok(VideoFrameIterator { end_frame: 500, frame_number: 20 })
    );
    assert_eq!(
        VideoFrameIterator::new(100, Some(20), Some(20)),
        Ok(VideoFrameIterator { end_frame: 20, frame_number: 20 })
    );
}

#[test]
fn walk_ends_when_a_read_gives_no_frame() {
    let mut iterator = VideoFrameIterator::new(10, None, None).unwrap();
    assert_eq!(iterator.frames_left(), 10);
    assert!(iterator.next(true));
    assert!(iterator.next(true));
    assert_eq!(iterator.frame_number, 2);
    assert_eq!(iterator.frames_left(), 8);
    assert!(!iterator.next(false));
    assert_eq!(iterator.frame_number, 2);
    assert_eq!(iterator.end_frame, 10);
    assert!(!iterator.is_finished());
}

#[test]
fn walk_yields_nothing_past_its_end() {
    let mut iterator = VideoFrameIterator::new(10, Some(8), None).unwrap();
    assert!(iterator.next(true));
    assert!(iterator.next(true));
    assert!(iterator.is_finished());
    assert_eq!(iterator.frames_left(), 0);
    assert!(!iterator.next(true));
    assert_eq!(iterator.frame_number, 10);
    let mut empty = VideoFrameIterator::new(10, Some(4), Some(4)).unwrap();
    assert!(empty.is_finished());
    assert!(!empty.next(true));
    let mut last = VideoFrameIterator { end_frame: u64::MAX, frame_number: u64::MAX - 1 };
    assert!(last.next(true));
    assert!(!last.next(true));
    assert_eq!(last.frame_number, u64::MAX);
}
