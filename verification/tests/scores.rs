use rusty_whisper::scores::{argmax, get_top_indices, total_order_key};

fn bits(values: &[f32]) -> Vec<u32> {
    values.iter().map(|v| v.to_bits()).collect()
}

#[test]
fn keys_follow_the_total_order() {
    let ordered = [
        f32::NEG_INFINITY,
        -1.0e30,
        -2.5,
        -1.0e-40,
        -0.0,
        0.0,
        1.0e-40,
        0.3,
        7.0,
        f32::MAX,
        f32::INFINITY,
        f32::NAN,
    ];
    for pair in ordered.windows(2) {
        assert!(total_order_key(pair[0].to_bits()) < total_order_key(pair[1].to_bits()));
    }
}

#[test]
fn keys_of_chosen_patterns() {
    assert_eq!(total_order_key(0), 0);
    assert_eq!(total_order_key(0x8000_0000), -1);
    assert_eq!(total_order_key(0x7FFF_FFFF), 0x7FFF_FFFF);
    assert_eq!(total_order_key(0xFFFF_FFFF), -0x8000_0000);
    assert_eq!(total_order_key(1.0f32.to_bits()), 0x3F80_0000);
}

#[test]
fn argmax_takes_the_greatest() {
    assert_eq!(argmax(&bits(&[0.1, 0.9, -3.0, 0.5])), 1);
    assert_eq!(argmax(&bits(&[-5.0, -9.0, -1.5])), 2);
    assert_eq!(argmax(&bits(&[4.0])), 0);
}

#[test]
fn argmax_breaks_ties_by_the_lowest_index() {
    assert_eq!(argmax(&bits(&[1.0, 2.0, 2.0, 2.0, 0.0])), 1);
    assert_eq!(argmax(&bits(&[0.0, 0.0])), 0);
    assert_eq!(argmax(&bits(&[-0.0, 0.0])), 1);
}

#[test]
fn top_indices_come_best_first() {
    let scores = bits(&[0.05, 0.5, 0.2, 0.3, 0.01]);
    assert_eq!(get_top_indices(&scores, 3), vec![1, 3, 2]);
    assert_eq!(get_top_indices(&scores, 1), vec![1]);
    assert_eq!(get_top_indices(&scores, 0), Vec::<usize>::new());
}

#[test]
fn top_indices_are_no_more_than_the_scores() {
    assert_eq!(get_top_indices(&bits(&[0.2, 0.7]), 5), vec![1, 0]);
    assert_eq!(get_top_indices(&[], 3), Vec::<usize>::new());
}

#[test]
fn top_indices_break_ties_by_the_lowest_index() {
    assert_eq!(get_top_indices(&bits(&[0.25, 0.25, 0.5, 0.25]), 3), vec![2, 0, 1]);
}

#[test]
fn top_one_is_the_argmax() {
    let scores = bits(&[0.3, -1.0, 8.5, 8.5, 2.0]);
    assert_eq!(get_top_indices(&scores, 1), vec![argmax(&scores)]);
}
