use tensor_tape::generation::{Generation, Input};

#[test]
fn prompt_first_then_one_token_at_a_time() {
    let mut g = Generation::new(vec![5, 6, 7], 3, Some(2));
    assert_eq!(g.next_input(), Some(Input { from: 0, start_pos: 0 }));
    assert!(g.accept(8));
    assert_eq!(g.next_input(), Some(Input { from: 3, start_pos: 3 }));
    assert!(g.accept(9));
    assert_eq!(g.next_input(), Some(Input { from: 4, start_pos: 4 }));
    assert!(g.accept(10));
    assert_eq!(g.next_input(), None);
    assert_eq!(g.tokens, vec![5, 6, 7, 8, 9, 10]);
    assert_eq!(g.generated, 3);
}

#[test]
fn the_end_token_stops_and_is_not_kept() {
    let mut g = Generation::new(vec![5], 10, Some(2));
    assert!(g.next_input().is_some());
    assert!(!g.accept(2));
    assert_eq!(g.tokens, vec![5]);
    assert_eq!(g.generated, 0);
    assert_eq!(g.next_input(), None);
}

#[test]
fn without_an_end_token_every_token_goes_on() {
    let mut g = Generation::new(vec![5], 10, None);
    assert!(g.next_input().is_some());
    assert!(g.accept(2));
    assert_eq!(g.tokens, vec![5, 2]);
}

#[test]
fn no_pass_when_none_is_allowed() {
    let mut g = Generation::new(vec![5], 0, None);
    assert_eq!(g.next_input(), None);
}

#[test]
fn penalty_covers_the_newest_tokens() {
    let g = Generation::new(vec![1, 2, 3, 4, 5], 1, None);
    assert_eq!(g.penalized_from(2), 3);
    assert_eq!(g.penalized_from(5), 0);
    assert_eq!(g.penalized_from(64), 0);
}
