use stack_frame_allocators::block_chain::{ensure_space, Block, BlockTail};
use stack_frame_allocators::stack_frame_header::Position;

fn chain() -> Vec<Block<u8>> {
    vec![Block {
        slots: vec![],
        tail: BlockTail { prev_block: None, prev_block_bytes_used: 0, next_block: None },
    }]
}

#[test]
fn space_in_the_block_is_taken_behind_the_padding() {
    let mut blocks = chain();
    let at = Position { block: 0, offset: 17, slot: 3 };
    let (placed, past) = ensure_space(&mut blocks, at, 12, 8, 100);
    assert_eq!(placed, Position { block: 0, offset: 24, slot: 3 });
    assert_eq!(past, Position { block: 0, offset: 36, slot: 3 });
    assert_eq!(blocks.len(), 1);
    assert_eq!(
        blocks[0].tail,
        BlockTail { prev_block: None, prev_block_bytes_used: 0, next_block: None }
    );
}

#[test]
fn an_item_may_end_at_the_last_usable_byte() {
    let mut blocks = chain();
    let at = Position { block: 0, offset: 88, slot: 0 };
    let (placed, past) = ensure_space(&mut blocks, at, 12, 1, 100);
    assert_eq!(placed, Position { block: 0, offset: 88, slot: 0 });
    assert_eq!(past, Position { block: 0, offset: 100, slot: 0 });
    assert_eq!(blocks.len(), 1);
    let (placed, past) = ensure_space(&mut blocks, at, 13, 1, 100);
    assert_eq!(placed, Position { block: 1, offset: 0, slot: 0 });
    assert_eq!(past, Position { block: 1, offset: 13, slot: 0 });
    assert_eq!(blocks.len(), 2);
}

#[test]
fn padding_counts_towards_the_capacity() {
    let mut blocks = chain();
    let at = Position { block: 0, offset: 89, slot: 0 };
    let (placed, _) = ensure_space(&mut blocks, at, 4, 8, 100);
    assert_eq!(placed, Position { block: 0, offset: 96, slot: 0 });
    let (placed, _) = ensure_space(&mut blocks, at, 5, 8, 100);
    assert_eq!(placed, Position { block: 1, offset: 0, slot: 0 });
}

#[test]
fn a_block_is_appended_and_linked_when_the_chain_ends() {
    let mut blocks = chain();
    let at = Position { block: 0, offset: 90, slot: 5 };
    let (placed, past) = ensure_space(&mut blocks, at, 16, 8, 100);
    assert_eq!(placed, Position { block: 1, offset: 0, slot: 0 });
    assert_eq!(past, Position { block: 1, offset: 16, slot: 0 });
    assert_eq!(blocks.len(), 2);
    assert_eq!(
        blocks[0].tail,
        BlockTail { prev_block: None, prev_block_bytes_used: 0, next_block: Some(1) }
    );
    assert_eq!(
        blocks[1].tail,
        BlockTail { prev_block: Some(0), prev_block_bytes_used: 90, next_block: None }
    );
    assert!(blocks[1].slots.is_empty());
}

#[test]
fn a_block_that_is_there_is_entered_and_not_appended() {
    let mut blocks = chain();
    ensure_space(&mut blocks, Position { block: 0, offset: 90, slot: 5 }, 16, 8, 100);
    ensure_space(&mut blocks, Position { block: 1, offset: 96, slot: 0 }, 16, 8, 100);
    assert_eq!(blocks.len(), 3);
    let (placed, _) = ensure_space(&mut blocks, Position { block: 0, offset: 99, slot: 6 }, 2, 1, 100);
    assert_eq!(placed, Position { block: 1, offset: 0, slot: 0 });
    assert_eq!(blocks.len(), 3);
    assert_eq!(
        blocks[1].tail,
        BlockTail { prev_block: Some(0), prev_block_bytes_used: 99, next_block: Some(2) }
    );
    assert_eq!(
        blocks[2].tail,
        BlockTail { prev_block: Some(1), prev_block_bytes_used: 96, next_block: None }
    );
}
