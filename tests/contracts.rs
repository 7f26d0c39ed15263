use base4::{Base4, Base4Int};

fn pattern(len: usize) -> Vec<u64> {
    (0..len).map(|i| ((i * 7 + i / 3) % 4) as u64).collect()
}

#[test]
fn block_full_takes_no_more() {
    let values = pattern(64);
    let mut block = Base4::new();
    for v in &values {
        assert!(block.push(*v));
    }
    assert!(!block.push(2_u64));
    assert!(!block.push(0_u8));
    assert_eq!(block.peek_all::<u64>(), values);
    assert_eq!(block.pop(), Some(values[63] as u8));
}

#[test]
fn block_refuses_non_digits() {
    let mut block = Base4::new();
    assert!(block.push(1_u8));
    assert!(!block.push(4_u8));
    assert!(!block.push(255_u8));
    assert!(!block.push(u128::MAX));
    assert_eq!(block.peek_all::<u8>(), vec![1]);
}

#[test]
fn block_push_all_too_long_leaves_block() {
    let mut block = Base4::new();
    assert!(block.push_all(&[3_u8, 1]));
    assert!(!block.push_all(&pattern(65)));
    assert_eq!(block.peek_all::<u8>(), vec![3, 1]);
}

#[test]
fn block_push_all_rolls_back_on_bad_value() {
    let mut block = Base4::new();
    assert!(!block.push_all(&[0_u32, 1, 2, 4, 3]));
    assert_eq!(block.peek_all::<u32>(), Vec::<u32>::new());
    assert_eq!(block.pop(), None);

    let mut block = Base4::new();
    assert!(block.push_all(&[2_u16, 2]));
    assert!(!block.push_all(&[1_u16, 9]));
    assert_eq!(block.pop_all::<u16>(), Vec::<u16>::new());
}

#[test]
fn block_push_all_overflowing_contents_empties_block() {
    let mut block = Base4::new();
    assert!(block.push_all(&pattern(60)));
    assert!(!block.push_all(&pattern(5)));
    assert_eq!(block.peek_all::<u64>(), Vec::<u64>::new());
}

#[test]
fn block_empty_input_is_accepted() {
    let mut block = Base4::default();
    assert!(block.push_all::<u8>(&[]));
    assert_eq!(block.pop_all::<u8>(), Vec::<u8>::new());
    assert_eq!(block.pop(), None);
}

#[test]
fn block_lane_order() {
    let mut block = Base4::new();
    assert!(block.push_all(&[3_usize, 0, 1]));
    assert_eq!(block.peek_at::<usize>(0), 3);
    assert_eq!(block.peek_at::<usize>(1), 0);
    assert_eq!(block.peek_at::<usize>(2), 1);
    assert_eq!(block.pop(), Some(1));
    assert_eq!(block.peek_all::<u128>(), vec![3, 0]);
}

#[test]
fn block_round_trip_full() {
    let values = pattern(64);
    let mut block = Base4::new();
    assert!(block.push_all(&values));
    assert_eq!(block.pop_all::<u64>(), values);
    assert_eq!(block.pop(), None);
}

#[test]
fn chain_blocks_follow_length() {
    let mut chain = Base4Int::default();
    assert_eq!(chain.total_blocks(), 0);
    assert_eq!(chain.total_len(), 0);
    chain.push_all(&pattern(128));
    assert_eq!(chain.total_blocks(), 2);
    assert_eq!(chain.total_len(), 128);
    chain.push(3_u8);
    assert_eq!(chain.total_blocks(), 3);
    assert_eq!(chain.total_len(), 129);
    assert_eq!(chain.pop(), 3);
    assert_eq!(chain.total_blocks(), 2);
    assert_eq!(chain.total_len(), 128);
    assert_eq!(chain.pop(), pattern(128)[127] as u8);
    assert_eq!(chain.total_blocks(), 2);
    assert_eq!(chain.total_len(), 127);
}

#[test]
fn chain_round_trip() {
    let values = pattern(200);
    let mut chain = Base4Int::new();
    chain.push_all(&values);
    assert_eq!(chain.peek_all::<u64>(), values);
    assert_eq!(chain.total_len(), 200);
    for (i, v) in values.iter().enumerate() {
        assert_eq!(chain.peek_at::<u64>(i), *v);
    }
    assert_eq!(chain.pop_all::<u64>(), values);
    assert_eq!(chain.total_blocks(), 0);
    assert_eq!(chain.total_len(), 0);
}

#[test]
fn chain_empty_drains_to_nothing() {
    let mut chain = Base4Int::new();
    assert_eq!(chain.pop_all::<u8>(), Vec::<u8>::new());
    assert_eq!(chain.peek_all::<u8>(), Vec::<u8>::new());
    assert_eq!(chain.total_blocks(), 0);
}

#[test]
fn chain_pop_drops_emptied_block() {
    let mut chain = Base4Int::new();
    chain.push(1_u32);
    assert_eq!(chain.total_blocks(), 1);
    assert_eq!(chain.pop(), 1);
    assert_eq!(chain.total_blocks(), 0);
    chain.push(2_u32);
    assert_eq!(chain.peek_at::<u32>(0), 2);
}

#[test]
fn chain_get_codec_opens_block_when_needed() {
    let mut chain = Base4Int::new();
    assert!(chain.get_codec().push(2_u8));
    assert_eq!(chain.total_blocks(), 1);
    chain.push_all(&pattern(63));
    assert_eq!(chain.total_blocks(), 1);
    assert!(chain.get_codec().push(1_u8));
    assert_eq!(chain.total_blocks(), 2);
    assert_eq!(chain.total_len(), 65);
    assert_eq!(chain.peek_at::<u8>(64), 1);
    assert_eq!(chain.peek_at::<u8>(0), 2);
}
