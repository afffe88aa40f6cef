use zoom_focus::cluster::ClusterBox;
use zoom_focus::focus::{active_auto_segment, cluster_starts, focus_source, FocusSource};
use zoom_focus::keys::key_of_bits;
use zoom_focus::sample::Sample;

fn keys(v: &[i64]) -> Vec<Option<i64>> {
    v.iter().map(|x| Some(*x)).collect()
}

#[test]
fn active_auto_segment_skips_manual_segments() {
    let is_auto = vec![false, true, true];
    let starts = keys(&[0, 5, 8]);
    let ends = keys(&[10, 10, 20]);
    assert_eq!(active_auto_segment(&is_auto, &starts, &ends, Some(3)), None);
    assert_eq!(active_auto_segment(&is_auto, &starts, &ends, Some(5)), Some(1));
    assert_eq!(active_auto_segment(&is_auto, &starts, &ends, Some(9)), Some(1));
    assert_eq!(active_auto_segment(&is_auto, &starts, &ends, Some(10)), Some(1));
    assert_eq!(active_auto_segment(&is_auto, &starts, &ends, Some(11)), Some(2));
    assert_eq!(active_auto_segment(&is_auto, &starts, &ends, Some(21)), None);
    assert_eq!(active_auto_segment(&is_auto, &starts, &ends, None), None);
}

#[test]
fn active_auto_segment_skips_a_segment_with_a_nan_end() {
    let is_auto = vec![true, true];
    let starts = vec![Some(0), Some(0)];
    let ends = vec![None, Some(10)];
    assert_eq!(active_auto_segment(&is_auto, &starts, &ends, Some(5)), Some(1));
}

#[test]
fn active_auto_segment_without_segments() {
    assert_eq!(active_auto_segment(&vec![], &vec![], &vec![], Some(0)), None);
}

#[test]
fn cluster_starts_reads_opening_moves() {
    let times = keys(&[10, 20, 30, 40]);
    let boxes = vec![ClusterBox::new(0), ClusterBox::new(2)];
    assert_eq!(cluster_starts(&times, &boxes), keys(&[10, 30]));
}

#[test]
fn focus_source_prefers_cursor() {
    let times = keys(&[10, 20, 30]);
    let boxes = vec![ClusterBox::new(1)];
    assert_eq!(
        focus_source(&times, &boxes, Some(15)),
        FocusSource::Cursor(Sample::Between { prev: 0, next: 1 })
    );
    assert_eq!(focus_source(&times, &vec![], Some(99)), FocusSource::Cursor(Sample::At(2)));
}

#[test]
fn focus_source_without_moves_is_centre() {
    assert_eq!(focus_source(&vec![], &vec![], Some(15)), FocusSource::Centre);
}

#[test]
fn keys_order_as_doubles() {
    let values = [
        f64::NEG_INFINITY, -1.0e300, -2.5, -1.0, -1.0e-310, 0.0, 1.0e-310, 0.5, 1.0, 3.0e8,
        f64::INFINITY,
    ];
    for w in values.windows(2) {
        assert!(key_of_bits(w[0].to_bits()).unwrap() < key_of_bits(w[1].to_bits()).unwrap());
    }
    assert_eq!(key_of_bits((-0.0f64).to_bits()), key_of_bits(0.0f64.to_bits()));
    assert_eq!(key_of_bits(0.0f64.to_bits()), Some(0));
    assert_eq!(key_of_bits(1.0f64.to_bits()), Some(0x3FF0_0000_0000_0000));
    assert_eq!(key_of_bits((-1.0f64).to_bits()), Some(-0x3FF0_0000_0000_0000));
}

#[test]
fn nan_has_no_key() {
    assert_eq!(key_of_bits(f64::NAN.to_bits()), None);
    assert_eq!(key_of_bits((-f64::NAN).to_bits()), None);
    assert_eq!(key_of_bits(0x7FF8_0000_0000_0000), None);
    assert_eq!(key_of_bits(0x7FF0_0000_0000_0001), None);
    assert!(key_of_bits(f64::INFINITY.to_bits()).is_some());
}
