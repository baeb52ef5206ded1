use oximedia::frame::{AudioKey, FramePool, VideoKey};

/// A stand-in video frame: its width and height.
type Frame = (u32, u32);

fn yuv420p(width: u32, height: u32) -> VideoKey {
    VideoKey { format: 0, width, height }
}

#[test]
fn test_frame_pool() {
    let mut pool: FramePool<Frame, ()> = FramePool::new(4);
    let key = yuv420p(1920, 1080);

    // Get a new frame: the pool is empty, so the caller allocates one
    let frame = pool.get_video_frame(key).unwrap_or((1920, 1080));
    assert_eq!(frame.0, 1920);
    assert_eq!(frame.1, 1080);

    // Return it to the pool
    pool.return_video_frame(key, frame);
    assert_eq!(pool.video_frame_count(), 1);

    // Get it back (should be the same allocation)
    let frame2 = pool.get_video_frame(key).expect("pooled frame");
    assert_eq!(frame2.0, 1920);
    assert_eq!(pool.video_frame_count(), 0);
}

#[test]
fn pool_keeps_at_most_capacity() {
    let mut pool: FramePool<Frame, ()> = FramePool::new(2);
    for i in 0..5 {
        pool.return_video_frame(yuv420p(16, 16), (i, i));
    }
    assert_eq!(pool.video_frame_count(), 2);
    assert_eq!(pool.get_video_frame(yuv420p(16, 16)), Some((0, 0)));
    assert_eq!(pool.get_video_frame(yuv420p(16, 16)), Some((1, 1)));
    assert_eq!(pool.get_video_frame(yuv420p(16, 16)), None);
}

#[test]
fn pool_matches_whole_key_and_swaps_last_in() {
    let mut pool: FramePool<&str, &str> = FramePool::default();
    pool.return_video_frame(yuv420p(8, 8), "a");
    pool.return_video_frame(yuv420p(4, 4), "b");
    pool.return_video_frame(yuv420p(2, 2), "c");
    assert_eq!(pool.get_video_frame(yuv420p(8, 4)), None);
    assert_eq!(pool.get_video_frame(yuv420p(8, 8)), Some("a"));
    // "c" moved into the freed first place; "b" still found
    assert_eq!(pool.get_video_frame(yuv420p(4, 4)), Some("b"));
    assert_eq!(pool.video_frame_count(), 1);
    let audio = AudioKey { format: 1, sample_rate: 48_000, channels: 2 };
    pool.return_audio_frame(audio, "pcm");
    assert_eq!(pool.audio_frame_count(), 1);
    assert_eq!(pool.get_audio_frame(AudioKey { sample_rate: 44_100, ..audio }), None);
    assert_eq!(pool.get_audio_frame(audio), Some("pcm"));
    pool.return_audio_frame(audio, "pcm");
    pool.clear();
    assert_eq!((pool.video_frame_count(), pool.audio_frame_count()), (0, 0));
}

#[test]
fn zero_capacity_pool_keeps_nothing() {
    let mut pool: FramePool<Frame, Frame> = FramePool::new(0);
    pool.return_video_frame(yuv420p(1, 1), (1, 1));
    pool.return_audio_frame(AudioKey { format: 0, sample_rate: 1, channels: 1 }, (1, 1));
    assert_eq!(pool.video_frame_count(), 0);
    assert_eq!(pool.audio_frame_count(), 0);
}
