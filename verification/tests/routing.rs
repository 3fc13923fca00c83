use tensor_tape::routing::{
    copy_plan, group_by_expert, route, tokens_of, top_k, total_order_key,
};

fn bits(row: &[f32]) -> Vec<u32> {
    row.iter().map(|x| x.to_bits()).collect()
}

#[test]
fn order_keys_follow_numbers() {
    let sorted = [f32::NEG_INFINITY, -2.5, -0.0, 0.0, 1e-30, 1.0, f32::INFINITY];
    for pair in sorted.windows(2) {
        assert!(total_order_key(pair[0].to_bits()) < total_order_key(pair[1].to_bits()));
    }
    assert_eq!(total_order_key(0.0f32.to_bits()), 0x8000_0000);
    assert_eq!(total_order_key((-0.0f32).to_bits()), 0x7fff_ffff);
}

#[test]
fn order_keys_agree_with_total_order() {
    let xs = [-3.0f32, 7.5, 0.0, -0.0, f32::NAN, -f32::NAN, f32::INFINITY, 1e-40];
    for a in xs {
        for b in xs {
            let keys = total_order_key(a.to_bits()).partial_cmp(&total_order_key(b.to_bits()));
            assert_eq!(keys, Some(a.total_cmp(&b)));
        }
    }
}

#[test]
fn largest_first() {
    assert_eq!(top_k(&bits(&[0.1, 0.6, 0.05, 0.25]), 2), vec![1, 3]);
    assert_eq!(top_k(&bits(&[0.1, 0.6, 0.05, 0.25]), 4), vec![1, 3, 0, 2]);
}

#[test]
fn ties_go_to_the_left() {
    assert_eq!(top_k(&bits(&[0.25, 0.25, 0.25, 0.25]), 3), vec![0, 1, 2]);
}

#[test]
fn asking_for_too_many_gives_all() {
    assert_eq!(top_k(&bits(&[0.5, 0.7]), 9), vec![1, 0]);
    assert_eq!(top_k(&bits(&[]), 2), Vec::<usize>::new());
    assert_eq!(top_k(&bits(&[0.5, 0.7]), 0), Vec::<usize>::new());
}

#[test]
fn each_row_is_routed() {
    let rows = vec![bits(&[0.9, 0.1, 0.0]), bits(&[0.2, 0.3, 0.5])];
    let plan = route(&rows, 2);
    assert_eq!(plan, vec![vec![0, 1], vec![2, 1]]);
    assert_eq!(copy_plan(&plan), plan);
}

#[test]
fn groups_hold_every_choice_once() {
    let plan = vec![vec![0, 1], vec![2, 1], vec![0, 2]];
    let groups = group_by_expert(&plan, 4);
    assert_eq!(groups[0], vec![(0, 0), (2, 0)]);
    assert_eq!(groups[1], vec![(0, 1), (1, 1)]);
    assert_eq!(groups[2], vec![(1, 0), (2, 1)]);
    assert!(groups[3].is_empty());
    let all: usize = groups.iter().map(|g| g.len()).sum();
    assert_eq!(all, 6);
    assert_eq!(tokens_of(&groups[2]), vec![1, 2]);
}

#[test]
fn the_first_of_a_sorted_row_are_its_largest() {
    let row: Vec<u32> =
        [0.1f32, 0.7, -0.2, 0.7, 0.3, -0.0, 0.0].iter().map(|x| x.to_bits()).collect();
    let sorted = top_k(&row, row.len());
    assert_eq!(sorted, vec![1, 3, 4, 0, 6, 5, 2]);
    for k in 0..=row.len() {
        assert_eq!(top_k(&row, k), sorted[..k].to_vec());
    }
}
