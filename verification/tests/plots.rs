use git_of_theseus::plot::{rank_series, top_n, top_n_with_other, x_axis_end};
use git_of_theseus::survival::survival_events;

fn names(list: &[&str]) -> Vec<String> {
    list.iter().map(|s| s.to_string()).collect()
}

#[test]
fn ranks_of_series() {
    assert_eq!(rank_series(&vec![5, 9, 5, 0, 9]), vec![1, 4, 0, 2, 3]);
    assert!(rank_series(&Vec::new()).is_empty());
}

#[test]
fn few_series_are_all_selected() {
    assert_eq!(top_n(&vec![1, 2], &names(&["b", "a"]), 2), vec![0, 1]);
    assert_eq!(top_n_with_other(&vec![1, 2], &names(&["b", "a"]), 5), (vec![0, 1], vec![]));
    assert!(top_n(&Vec::new(), &Vec::new(), 0).is_empty());
}

#[test]
fn highest_series_are_selected() {
    let peaks = vec![5, 9, 5, 0, 9];
    let labels = names(&["e", "d", "c", "b", "a"]);
    assert_eq!(top_n(&peaks, &labels, 3), vec![4, 1, 0]);
    assert_eq!(top_n_with_other(&peaks, &labels, 3), (vec![4, 1, 0], vec![2, 3]));
    assert_eq!(top_n_with_other(&peaks, &labels, 0), (vec![], vec![1, 4, 0, 2, 3]));
}

#[test]
fn equal_labels_keep_their_rank() {
    assert_eq!(top_n(&vec![1, 3, 2, 0], &names(&["x", "x", "a", "b"]), 3), vec![2, 1, 0]);
}

#[test]
fn unselected_series_need_no_label() {
    assert_eq!(top_n(&vec![7, 1], &names(&["x"]), 1), vec![0]);
}

#[test]
fn selections_are_partitions() {
    let peaks: Vec<u64> = (0..50u64).map(|i| (i * 37) % 11).collect();
    let labels: Vec<String> = (0..50u64).map(|i| format!("{}", (i * 7) % 13)).collect();
    let (selected, rest) = top_n_with_other(&peaks, &labels, 20);
    assert_eq!(selected.len(), 20);
    for p in 0..50usize {
        assert!(selected.contains(&p) != rest.contains(&p));
    }
    for i in &selected {
        for j in &rest {
            assert!(peaks[*i] >= peaks[*j]);
        }
    }
    for pair in selected.windows(2) {
        assert!(labels[pair[0]] <= labels[pair[1]]);
    }
}

#[test]
fn peaks_order_as_their_bits() {
    let peaks = [0.0f64, 0.5, 1.0, 1.5, 2.0, 1e9, 1e300, f64::INFINITY];
    let bits: Vec<u64> = peaks.iter().map(|p| p.to_bits()).collect();
    assert_eq!(rank_series(&bits), vec![7, 6, 5, 4, 3, 2, 1, 0]);
}

#[test]
fn ends_of_axes() {
    assert_eq!(x_axis_end(0, 5), None);
    assert_eq!(x_axis_end(5, 0), None);
    assert_eq!(x_axis_end(1, 1), Some(1));
    assert_eq!(x_axis_end(1, 2), Some(1));
    assert_eq!(x_axis_end(3, 100), Some(99));
}

#[test]
fn survival_by_age() {
    let times = vec![vec![100, 110, 120], vec![], vec![105, 115], vec![300]];
    let events = survival_events(&times);
    let found: Vec<(i64, Vec<(usize, usize)>, Vec<usize>)> =
        events.into_iter().map(|e| (e.offset, e.steps, e.exits)).collect();
    assert_eq!(
        found,
        vec![
            (0, vec![], vec![3]),
            (10, vec![(0, 1), (2, 1)], vec![2]),
            (20, vec![(0, 2)], vec![0]),
        ]
    );
    assert!(survival_events(&Vec::new()).is_empty());
    assert!(survival_events(&vec![vec![]]).is_empty());
}

#[test]
fn ages_may_go_back() {
    let events = survival_events(&vec![vec![100, 90, 100]]);
    let found: Vec<(i64, usize, usize)> =
        events.iter().map(|e| (e.offset, e.steps.len(), e.exits.len())).collect();
    assert_eq!(found, vec![(-10, 1, 0), (0, 1, 1)]);
}

#[test]
fn all_lines_leave() {
    let times = vec![vec![0, 5, 9], vec![3], vec![4, 9, 14, 13], vec![]];
    let counts: Vec<Vec<i64>> = vec![vec![10, 7, 8], vec![4], vec![20, 15, 1, 0], vec![]];
    let mut alive: i64 = 34;
    let mut observed: i64 = 34;
    let mut exits = [0; 4];
    for e in survival_events(&times) {
        for (h, s) in &e.steps {
            alive += counts[*h][*s] - counts[*h][*s - 1];
        }
        for h in &e.exits {
            alive -= counts[*h][counts[*h].len() - 1];
            observed -= counts[*h][0];
            exits[*h] += 1;
        }
    }
    assert_eq!(alive, 0);
    assert_eq!(observed, 0);
    assert_eq!(exits, [1, 1, 1, 0]);
}
