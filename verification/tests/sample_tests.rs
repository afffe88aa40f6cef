use zoom_focus::sample::{cursor_sample, smoothed_sample, Sample};

fn keys(v: &[i64]) -> Vec<Option<i64>> {
    v.iter().map(|x| Some(*x)).collect()
}

#[test]
fn cursor_sample_empty_track_gives_nothing() {
    assert_eq!(cursor_sample(&vec![], Some(10)), None);
}

#[test]
fn cursor_sample_clamps_to_ends() {
    let times = keys(&[100, 200, 300]);
    assert_eq!(cursor_sample(&times, Some(50)), Some(Sample::At(0)));
    assert_eq!(cursor_sample(&times, Some(100)), Some(Sample::At(0)));
    assert_eq!(cursor_sample(&times, Some(300)), Some(Sample::At(2)));
    assert_eq!(cursor_sample(&times, Some(999)), Some(Sample::At(2)));
}

#[test]
fn cursor_sample_brackets_inner_instants() {
    let times = keys(&[100, 200, 300]);
    assert_eq!(cursor_sample(&times, Some(150)), Some(Sample::Between { prev: 0, next: 1 }));
    assert_eq!(cursor_sample(&times, Some(200)), Some(Sample::Between { prev: 1, next: 2 }));
    assert_eq!(cursor_sample(&times, Some(299)), Some(Sample::Between { prev: 1, next: 2 }));
}

#[test]
fn cursor_sample_single_move() {
    let times = keys(&[42]);
    assert_eq!(cursor_sample(&times, Some(0)), Some(Sample::At(0)));
    assert_eq!(cursor_sample(&times, Some(100)), Some(Sample::At(0)));
}

#[test]
fn cursor_sample_with_repeated_times_takes_the_last_of_them() {
    let times = keys(&[0, 10, 10, 10, 20]);
    assert_eq!(cursor_sample(&times, Some(10)), Some(Sample::Between { prev: 3, next: 4 }));
}

#[test]
fn cursor_sample_holds_last_move_after_a_nan_first_move() {
    let times = vec![None, Some(10)];
    assert_eq!(cursor_sample(&times, Some(20)), Some(Sample::At(1)));
}

#[test]
fn cursor_sample_at_a_nan_instant_takes_the_first_move() {
    let times = keys(&[100, 200, 300]);
    assert_eq!(cursor_sample(&times, None), Some(Sample::At(0)));
}

#[test]
fn smoothed_sample_empty_and_ends() {
    assert_eq!(smoothed_sample(&vec![], Some(1)), None);
    let times = keys(&[0, 8, 16, 24]);
    assert_eq!(smoothed_sample(&times, Some(-3)), Some(Sample::At(0)));
    assert_eq!(smoothed_sample(&times, Some(0)), Some(Sample::At(0)));
    assert_eq!(smoothed_sample(&times, Some(24)), Some(Sample::At(3)));
    assert_eq!(smoothed_sample(&times, Some(25)), Some(Sample::At(3)));
}

#[test]
fn smoothed_sample_exact_hit_and_gap() {
    let times = keys(&[0, 8, 16, 24]);
    assert_eq!(smoothed_sample(&times, Some(8)), Some(Sample::Between { prev: 1, next: 2 }));
    assert_eq!(smoothed_sample(&times, Some(9)), Some(Sample::Between { prev: 1, next: 2 }));
    assert_eq!(smoothed_sample(&times, Some(7)), Some(Sample::Between { prev: 0, next: 1 }));
    assert_eq!(smoothed_sample(&times, Some(23)), Some(Sample::Between { prev: 2, next: 3 }));
}

#[test]
fn smoothed_sample_at_a_nan_instant_takes_the_last_sample() {
    let times = keys(&[0, 8, 16, 24]);
    assert_eq!(smoothed_sample(&times, None), Some(Sample::At(3)));
}

#[test]
fn both_readings_agree_on_strictly_increasing_times() {
    let times = keys(&[0, 8, 16, 24, 30, 33]);
    for t in -2..36 {
        assert_eq!(cursor_sample(&times, Some(t)), smoothed_sample(&times, Some(t)));
    }
}
