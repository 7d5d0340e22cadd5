use murmr::audio::{FrameCollector, FRAME_SAMPLES};

#[test]
fn frames_of_960_samples() {
    let mut c: FrameCollector<i32> = FrameCollector::new();
    let mut frames = Vec::new();
    for i in 0..2000 {
        if let Some(f) = c.offer(i, false) {
            frames.push(f);
        }
    }
    assert_eq!(frames.len(), 2);
    assert_eq!(frames[0], (0..960).collect::<Vec<i32>>());
    assert_eq!(frames[1], (960..1920).collect::<Vec<i32>>());
    assert_eq!(c.pending_len(), 80);
    assert_eq!(FRAME_SAMPLES, 960);
}

#[test]
fn muted_samples_are_dropped() {
    let mut c: FrameCollector<u8> = FrameCollector::new();
    for _ in 0..5000 {
        assert_eq!(c.offer(1, true), None);
    }
    assert_eq!(c.pending_len(), 0);
    for k in 0..959 {
        assert_eq!(c.offer(2, k % 2 == 0), None);
    }
    assert_eq!(c.pending_len(), 479);
}
