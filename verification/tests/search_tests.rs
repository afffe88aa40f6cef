use zoom_focus::search::{
    count_at_or_before, first_at_or_after, first_window_containing, last_at_or_before, search_key,
};

fn keys(v: &[i64]) -> Vec<Option<i64>> {
    v.iter().map(|x| Some(*x)).collect()
}

#[test]
fn last_at_or_before_picks_latest_match() {
    let times = keys(&[0, 10, 20, 30]);
    assert_eq!(last_at_or_before(&times, Some(25)), Some(2));
    assert_eq!(last_at_or_before(&times, Some(30)), Some(3));
    assert_eq!(last_at_or_before(&times, Some(0)), Some(0));
    assert_eq!(last_at_or_before(&times, Some(-1)), None);
    assert_eq!(last_at_or_before(&vec![], Some(5)), None);
}

#[test]
fn last_at_or_before_scans_unsorted_keys_from_the_back() {
    let times = keys(&[5, 50, 1, 70]);
    assert_eq!(last_at_or_before(&times, Some(6)), Some(2));
}

#[test]
fn last_at_or_before_never_matches_nan() {
    let times = vec![Some(0), None, Some(20)];
    assert_eq!(last_at_or_before(&times, Some(10)), Some(0));
    assert_eq!(last_at_or_before(&times, None), None);
}

#[test]
fn first_at_or_after_picks_earliest_match() {
    let times = keys(&[0, 10, 20, 30]);
    assert_eq!(first_at_or_after(&times, Some(15)), Some(2));
    assert_eq!(first_at_or_after(&times, Some(10)), Some(1));
    assert_eq!(first_at_or_after(&times, Some(31)), None);
    assert_eq!(first_at_or_after(&vec![], Some(0)), None);
    assert_eq!(first_at_or_after(&vec![None, Some(3)], Some(1)), Some(1));
}

#[test]
fn count_at_or_before_on_sorted_keys() {
    let times = keys(&[0, 10, 10, 20, 30]);
    assert_eq!(count_at_or_before(&times, Some(-5)), 0);
    assert_eq!(count_at_or_before(&times, Some(0)), 1);
    assert_eq!(count_at_or_before(&times, Some(10)), 3);
    assert_eq!(count_at_or_before(&times, Some(15)), 3);
    assert_eq!(count_at_or_before(&times, Some(30)), 5);
    assert_eq!(count_at_or_before(&times, Some(99)), 5);
    assert_eq!(count_at_or_before(&times, None), 0);
    assert_eq!(count_at_or_before(&vec![], Some(99)), 0);
}

#[test]
fn count_matches_reverse_scan_on_sorted_keys() {
    let times = keys(&[-7, -3, 0, 4, 4, 9, 12]);
    for t in -10..15 {
        let expected = match last_at_or_before(&times, Some(t)) {
            Some(i) => i + 1,
            None => 0,
        };
        assert_eq!(count_at_or_before(&times, Some(t)), expected);
    }
}

#[test]
fn search_key_finds_or_places() {
    let times = keys(&[0, 8, 16, 24]);
    assert_eq!(search_key(&times, Some(16)), Ok(2));
    assert_eq!(search_key(&times, Some(0)), Ok(0));
    assert_eq!(search_key(&times, Some(10)), Err(2));
    assert_eq!(search_key(&times, Some(-1)), Err(0));
    assert_eq!(search_key(&times, Some(30)), Err(4));
    assert_eq!(search_key(&vec![], Some(3)), Err(0));
}

#[test]
fn search_key_places_nan_after_everything() {
    let times = keys(&[0, 8, 16, 24]);
    assert_eq!(search_key(&times, None), Err(4));
}

#[test]
fn first_window_containing_takes_the_first_match_with_inclusive_ends() {
    let starts = keys(&[0, 100, 150]);
    let ends = keys(&[50, 200, 300]);
    assert_eq!(first_window_containing(&starts, &ends, Some(50)), Some(0));
    assert_eq!(first_window_containing(&starts, &ends, Some(75)), None);
    assert_eq!(first_window_containing(&starts, &ends, Some(100)), Some(1));
    assert_eq!(first_window_containing(&starts, &ends, Some(160)), Some(1));
    assert_eq!(first_window_containing(&starts, &ends, Some(250)), Some(2));
    assert_eq!(first_window_containing(&starts, &ends, Some(301)), None);
    assert_eq!(first_window_containing(&starts, &ends, None), None);
}

#[test]
fn a_window_with_a_nan_end_holds_nothing() {
    let starts = vec![Some(0)];
    let ends = vec![None];
    assert_eq!(first_window_containing(&starts, &ends, Some(5)), None);
}
