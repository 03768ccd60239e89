use lib::slider::{Sequence, SequenceSlider, SliceSequenceSlider};

#[test]
fn slider_steps_report_previous_item() {
    let seq = [11u64, 15, 17, 50, 90];
    let mut s = SliceSequenceSlider::new(&seq);
    assert_eq!(s.next(), Some(11));
    assert_eq!(s.next(), Some(15));
    assert_eq!(s.skip_n(2), Some(50));
    assert_eq!(s.next(), None);
}

#[test]
fn slider_skip_to_moves_past_smaller_items() {
    let seq = [11u64, 15, 17, 50, 90];
    let mut s = SliceSequenceSlider::new(&seq);
    assert_eq!(s.next(), Some(11));
    assert_eq!(s.skip_to(17), Some(15));
    assert_eq!(s.skip_to(60), Some(50));
    assert_eq!(s.skip_to(100), None);
}

#[test]
fn slice_hands_out_slider_at_start() {
    let seq: &[u64] = &[3, 6, 9];
    let mut s = seq.slider();
    assert_eq!(s.next(), Some(3));
    assert_eq!(s.skip_to(9), Some(6));
    assert_eq!(s.next(), None);
}
