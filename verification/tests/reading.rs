use tensor_tape::dtype::{DType, Device};
use tensor_tape::shape::{d2, d3};
use tensor_tape::tape::{Op, Tape};
use tensor_tape::unlimited_ocr::reading::{
    banned_tokens, prompt_ids, splice, Reading, Turn, EOS, IMAGE_TOKEN_ID, NGRAM_SIZE,
};

#[test]
fn the_prompt_surrounds_the_image() {
    assert_eq!(prompt_ids(2, &vec![9, 8]), vec![0, IMAGE_TOKEN_ID, IMAGE_TOKEN_ID, 9, 8]);
    assert_eq!(prompt_ids(0, &vec![9, 223]), vec![0, 9]);
    assert_eq!(prompt_ids(1, &vec![]), vec![0, 128815]);
    assert_eq!(prompt_ids(1, &vec![223, 223]), vec![0, 128815, 223]);
}

#[test]
fn image_rows_replace_their_places() {
    let mut t = Tape::new(Device::Cpu);
    let e = t.leaf(Op::Input { slot: 0, shape: d3(1, 6, 4), dtype: DType::BF16 });
    let i = t.leaf(Op::Input { slot: 1, shape: d2(3, 4), dtype: DType::F32 });
    let r = splice(&mut t, e, i, 3);
    assert_eq!(r.shape, d3(1, 6, 4));
    assert_eq!(r.dtype, DType::BF16);
}

#[test]
fn short_texts_ban_nothing() {
    assert!(banned_tokens(&vec![7; NGRAM_SIZE - 1]).is_empty());
}

#[test]
fn a_repeated_run_bans_what_followed_it() {
    // 1..=34, then 99, then 1..=34 again: 99 would complete the run
    let mut text: Vec<u32> = (1..=34).collect();
    text.push(99);
    text.extend(1..=34);
    assert_eq!(banned_tokens(&text), vec![99]);
    // a different ending bans nothing
    text.pop();
    text.push(77);
    assert!(banned_tokens(&text).is_empty());
}

#[test]
fn one_token_over_and_over_bans_itself() {
    let text = vec![7u32; 40];
    assert_eq!(banned_tokens(&text), vec![7; 6]);
}

#[test]
fn the_window_forgets() {
    let mut text: Vec<u32> = (1..=34).collect();
    text.push(99);
    text.extend(std::iter::repeat(5000).take(60));
    text.extend(1..=34);
    assert_eq!(text.len(), 129);
    assert!(banned_tokens(&text).is_empty());
    text.remove(40);
    assert_eq!(banned_tokens(&text), vec![99]);
}

fn bits(values: &[f32]) -> Vec<u32> {
    values.iter().map(|x| x.to_bits()).collect()
}

#[test]
fn the_first_of_the_largest_is_read() {
    let mut r = Reading::new(10, 4);
    assert_eq!(
        r.turn(&bits(&[0.5, -1.0, 3.0, 3.0])),
        Turn::Feed { token: 2, pos: 10 }
    );
    assert_eq!(
        r.turn(&bits(&[-5.0, -6.0, -4.0, f32::NEG_INFINITY])),
        Turn::Feed { token: 2, pos: 11 }
    );
    // both zeros are equal
    assert_eq!(r.turn(&bits(&[-0.0, -1.0, 0.0])), Turn::Feed { token: 0, pos: 12 });
    assert!(r.wants_more());
    assert_eq!(r.turn(&bits(&[0.0, 1.0, 0.0])), Turn::Stop);
    assert_eq!(r.generated, vec![2, 2, 0]);
    assert_eq!(EOS, 1);
}

#[test]
fn what_is_no_number_is_larger_than_nothing() {
    let mut r = Reading::new(0, 4);
    assert_eq!(r.turn(&bits(&[0.5, 0.1, f32::NAN, 0.7])), Turn::Feed { token: 3, pos: 0 });
    assert_eq!(r.turn(&bits(&[f32::NAN, 0.1, 9.0])), Turn::Feed { token: 0, pos: 1 });
}

#[test]
fn banned_tokens_are_never_chosen() {
    let mut r = Reading::new(0, 100);
    let favourite = bits(&[0.0, -1.0, 2.0, 1.0]);
    for _ in 0..35 {
        assert!(matches!(r.turn(&favourite), Turn::Feed { token: 2, .. }));
    }
    assert_eq!(r.turn(&favourite), Turn::Feed { token: 3, pos: 35 });
    assert_eq!(r.generated.len(), 36);
}

#[test]
fn a_text_stops_growing() {
    let mut r = Reading::new(3, 1);
    assert!(r.wants_more());
    r.turn(&bits(&[1.0, 0.0]));
    assert!(!r.wants_more());
}
