use std::cell::{Cell, RefCell};

use stack_frame_allocators::block_chain::BlockTail;
use stack_frame_allocators::stack_frame_allocator::StackFrameAllocator;
use stack_frame_allocators::stack_frame_header::Position;
use stack_frame_allocators::stack_ref::{Line, StackRef};
use stack_frame_allocators::stack_size::StackSize;

struct Counted<'c>(u32, &'c Cell<u32>, &'c RefCell<Vec<u32>>);

impl<'c> Drop for Counted<'c> {
    fn drop(&mut self) {
        self.1.set(self.1.get() + 1);
        self.2.borrow_mut().push(self.0);
    }
}

fn small(bytes: usize) -> StackFrameAllocator<u64> {
    StackFrameAllocator::<u64>::with_size(StackSize::from_num_bytes(bytes)).unwrap()
}

#[test]
fn a_new_stack_has_one_block_and_an_empty_root() {
    let stack = StackFrameAllocator::<u64>::new();
    assert_eq!(stack.size().bytes(), 1024);
    assert_eq!(stack.real_size().bytes(), 1000);
    assert_eq!(stack.depth(), 1);
    assert_eq!(stack.block_count(), 1);
    assert_eq!(stack.buffer_bytes_used(), 16);
    assert!(stack.frame_is_empty());
    let root = stack.current_frame();
    assert_eq!(root.previous_frame, None);
    assert!(root.start == Position { block: 0, offset: 16, slot: 0 });
    assert!(root.current_frame_ptr == Position { block: 0, offset: 16, slot: 0 });
    assert_eq!(root.generation, 0);
}

#[test]
fn a_block_must_hold_its_tail_and_the_root_header() {
    assert!(StackFrameAllocator::<u64>::with_size(StackSize::from_num_bytes(0)).is_none());
    assert!(StackFrameAllocator::<u64>::with_size(StackSize::from_num_bytes(24)).is_none());
    assert!(StackFrameAllocator::<u64>::with_size(StackSize::from_num_bytes(39)).is_none());
    let least = StackFrameAllocator::<u64>::with_size(StackSize::from_num_bytes(40)).unwrap();
    assert_eq!(least.real_size().bytes(), 16);
    assert_eq!(least.size().bytes(), 40);
    assert_eq!(least.buffer_bytes_used(), 16);
}

#[test]
fn push_moves_the_bump_position_by_one_record() {
    let mut stack = StackFrameAllocator::<u64>::new();
    let first = stack.push(7);
    assert!(first == StackRef { generation: 0, frame: 0, block: 0, slot: 0 });
    assert_eq!(stack.buffer_bytes_used(), 24);
    let second = stack.push(8);
    assert!(second == StackRef { generation: 0, frame: 0, block: 0, slot: 1 });
    assert_eq!(stack.buffer_bytes_used(), 32);
    assert!(stack.current_frame().current_frame_ptr == Position { block: 0, offset: 32, slot: 2 });
    assert_eq!(stack.get(first), Some(&7));
    assert_eq!(stack.get(second), Some(&8));
}

#[test]
fn the_first_record_is_padded_to_its_alignment() {
    let mut stack = StackFrameAllocator::<u128>::new();
    let align = std::mem::align_of::<u128>();
    let pad = (align - 16 % align) % align;
    assert_eq!(stack.current_frame().padding, pad);
    stack.push(1);
    assert_eq!(stack.buffer_bytes_used(), 16 + pad + 16);
    stack.new_frame();
    let start = stack.current_frame().start.offset;
    assert_eq!(start, 16 + pad + 16 + 16);
    let child_pad = (align - start % align) % align;
    assert_eq!(stack.current_frame().padding, child_pad);
    stack.push(2);
    assert_eq!(stack.buffer_bytes_used(), start + child_pad + 16);
}

#[test]
fn bytes_are_padded_behind_a_header_only() {
    let mut stack = StackFrameAllocator::<u8>::new();
    stack.push(1);
    assert_eq!(stack.buffer_bytes_used(), 17);
    stack.new_frame();
    assert_eq!(stack.buffer_bytes_used(), 17 + 7 + 16);
    stack.push(2);
    stack.push(3);
    assert_eq!(stack.buffer_bytes_used(), 42);
}

#[test]
fn a_frame_is_released_in_reverse_push_order() {
    let mut stack = StackFrameAllocator::<u64>::new();
    stack.push(1);
    stack.push(2);
    stack.new_frame();
    for value in 3..=7u64 {
        stack.push(value);
    }
    assert_eq!(stack.end_frame(), Some(vec![7, 6, 5, 4, 3]));
    assert_eq!(stack.depth(), 1);
    assert_eq!(stack.buffer_bytes_used(), 32);
    assert_eq!(stack.end_frame(), None);
    assert_eq!(stack.depth(), 1);
    assert_eq!(stack.teardown(), (vec![2, 1], 1));
}

#[test]
fn destructors_run_in_reverse_push_order() {
    let count = Cell::new(0);
    let order = RefCell::new(vec![]);
    {
        let mut stack = StackFrameAllocator::<Counted>::new();
        for value in 0..10 {
            stack.push(Counted(value, &count, &order));
        }
        stack.new_frame();
        for value in 10..20 {
            stack.push(Counted(value, &count, &order));
        }
        drop(stack.end_frame());
        assert_eq!(count.get(), 10);
        assert_eq!(*order.borrow(), (10..20).rev().collect::<Vec<u32>>());
        drop(stack.teardown());
    }
    assert_eq!(count.get(), 20);
    assert_eq!(*order.borrow(), (10..20).rev().chain((0..10).rev()).collect::<Vec<u32>>());
}

#[test]
fn every_element_is_destructed_exactly_once() {
    let count = Cell::new(0);
    let order = RefCell::new(vec![]);
    {
        let mut stack =
            StackFrameAllocator::<Counted>::with_size(StackSize::from_num_bytes(128)).unwrap();
        let mut pushed = 0;
        for _ in 0..4 {
            stack.new_frame();
            for _ in 0..9 {
                stack.push(Counted(pushed, &count, &order));
                pushed += 1;
            }
        }
        stack.new_scope(|stack| {
            for value in 100..120 {
                stack.push(Counted(value, &count, &order));
            }
        });
        assert_eq!(count.get(), 20);
        assert!(stack.block_count() > 1);
        let (released, blocks) = stack.teardown();
        assert_eq!(released.len(), 36);
        assert!(blocks > 1);
        assert_eq!(count.get(), 20);
    }
    assert_eq!(count.get(), 56);
    let mut seen = order.borrow().clone();
    seen.sort();
    let mut expected: Vec<u32> = (0..36).chain(100..120).collect();
    expected.sort();
    assert_eq!(seen, expected);
}

#[test]
fn a_scope_is_invisible_once_it_has_ended() {
    let mut stack = StackFrameAllocator::<u64>::new();
    let outer = stack.push(1);
    let before = stack.current_frame();
    let mut inner = None;
    stack.new_scope(|stack| {
        assert_eq!(stack.depth(), 2);
        inner = Some(stack.push(2));
        stack.push(3);
        assert_eq!(stack.get(inner.unwrap()), Some(&2));
        assert_eq!(stack.get(outer), Some(&1));
    });
    assert_eq!(stack.depth(), 1);
    assert_eq!(stack.get(inner.unwrap()), None);
    assert_eq!(stack.get(outer), Some(&1));
    let after = stack.current_frame();
    assert!(after.current_frame_ptr == before.current_frame_ptr);
    assert_eq!(stack.buffer_bytes_used(), 24);
    assert_eq!(stack.print().0.len(), 2);
}

#[test]
fn a_scope_closes_the_frames_left_open_inside_it() {
    let mut stack = StackFrameAllocator::<u64>::new();
    stack.push(1);
    stack.new_scope(|stack| {
        stack.push(2);
        stack.new_frame();
        stack.push(3);
        stack.new_frame();
        stack.push(4);
        assert_eq!(stack.depth(), 4);
    });
    assert_eq!(stack.depth(), 1);
    assert_eq!(stack.teardown().0, vec![1]);
}

#[test]
fn a_push_that_does_not_fit_goes_on_in_a_new_block() {
    let mut stack = StackFrameAllocator::<u64>::new();
    let mut handles = vec![];
    for value in 0..122u64 {
        handles.push(stack.push(value));
    }
    assert_eq!(stack.block_count(), 1);
    assert_eq!(stack.buffer_bytes_used(), 992);
    // the next value ends at the last usable byte of the block
    let last = stack.push(122);
    handles.push(last);
    assert!(last == StackRef { generation: 0, frame: 0, block: 0, slot: 122 });
    assert_eq!(stack.block_count(), 1);
    assert_eq!(stack.buffer_bytes_used(), 1000);
    assert_eq!(stack.buffer_bytes_used(), stack.real_size().bytes());
    let crossing = stack.push(123);
    handles.push(crossing);
    assert!(crossing == StackRef { generation: 0, frame: 0, block: 1, slot: 0 });
    assert_eq!(stack.block_count(), 2);
    assert_eq!(stack.buffer_bytes_used(), 8);
    assert!(stack.current_frame().current_frame_ptr == Position { block: 1, offset: 8, slot: 1 });
    for value in 124..300u64 {
        handles.push(stack.push(value));
    }
    assert_eq!(stack.block_count(), 3);
    for (value, handle) in handles.iter().enumerate() {
        assert_eq!(stack.get(*handle), Some(&(value as u64)));
    }
    let (released, blocks) = stack.teardown();
    assert_eq!(released, (0..300u64).rev().collect::<Vec<u64>>());
    assert_eq!(blocks, 3);
}

#[test]
fn a_frame_that_spans_blocks_is_released_whole() {
    let mut stack = small(104);
    // 80 usable bytes: behind the root header and seven records no header fits
    for value in 0..7u64 {
        stack.push(value);
    }
    let parent = stack.current_frame().current_frame_ptr;
    assert!(parent == Position { block: 0, offset: 72, slot: 7 });
    stack.new_frame();
    assert_eq!(stack.current_frame().start.block, 1);
    assert_eq!(stack.current_frame().start.offset, 16);
    for value in 10..40u64 {
        stack.push(value);
    }
    let blocks = stack.block_count();
    assert!(blocks >= 4);
    assert_eq!(stack.end_frame(), Some((10..40u64).rev().collect::<Vec<u64>>()));
    assert!(stack.current_frame().current_frame_ptr == parent);
    assert_eq!(stack.block_count(), blocks);
    assert_eq!(stack.teardown(), ((0..7u64).rev().collect::<Vec<u64>>(), blocks));
}

#[test]
fn a_block_left_by_a_closed_frame_is_used_again() {
    let mut stack = small(104);
    stack.push(0);
    stack.new_frame();
    // the child fills the first block further than the parent did and goes on
    // in the second
    for value in 100..110u64 {
        stack.push(value);
    }
    assert_eq!(stack.block_count(), 2);
    assert_eq!(stack.end_frame().unwrap().len(), 10);
    assert_eq!(stack.buffer_bytes_used(), 24);
    // the parent now reaches the second block from another place in the first
    for value in 1..12u64 {
        stack.push(value);
    }
    assert_eq!(stack.block_count(), 2);
    assert_eq!(stack.current_frame().current_frame_ptr.block, 1);
    let lines = stack.print().0;
    assert_eq!(lines.len(), 13);
    let mut listed = vec![];
    for line in lines {
        if let Line::Entry(handle) = line {
            listed.push(*stack.get(handle).unwrap());
        }
    }
    assert_eq!(listed, (0..12u64).rev().collect::<Vec<u64>>());
    assert_eq!(stack.teardown().0, (0..12u64).rev().collect::<Vec<u64>>());
}

#[test]
fn a_header_that_does_not_fit_starts_the_next_block() {
    let mut stack = small(64);
    // 40 usable bytes: 16 are the root header, 16 more are two records
    stack.push(1);
    stack.push(2);
    assert_eq!(stack.buffer_bytes_used(), 32);
    stack.new_frame();
    let header = stack.current_frame();
    assert!(header.start == Position { block: 1, offset: 16, slot: 0 });
    assert_eq!(header.previous_frame, Some(0));
    assert_eq!(stack.block_count(), 2);
    assert!(stack.frame_is_empty());
    assert_eq!(stack.end_frame(), Some(vec![]));
    assert_eq!(stack.buffer_bytes_used(), 32);
    // a record still fits behind them, up to the last usable byte
    stack.push(3);
    assert!(stack.current_frame().current_frame_ptr == Position { block: 0, offset: 40, slot: 3 });
    stack.push(4);
    assert!(stack.current_frame().current_frame_ptr == Position { block: 1, offset: 8, slot: 1 });
    assert_eq!(stack.teardown(), (vec![4, 3, 2, 1], 2));
}

#[test]
fn a_record_larger_than_a_block_takes_a_block_of_its_own() {
    let mut stack =
        StackFrameAllocator::<[u64; 8]>::with_size(StackSize::from_num_bytes(64)).unwrap();
    let a = stack.push([1; 8]);
    let b = stack.push([2; 8]);
    let c = stack.push([3; 8]);
    assert_eq!((a.block, a.slot), (1, 0));
    assert_eq!((b.block, b.slot), (2, 0));
    assert_eq!((c.block, c.slot), (3, 0));
    assert_eq!(stack.buffer_bytes_used(), 64);
    assert_eq!(stack.get(b), Some(&[2; 8]));
    assert_eq!(stack.teardown(), (vec![[3; 8], [2; 8], [1; 8]], 4));
}

#[test]
fn values_without_bytes_take_one_byte_each() {
    let mut stack = StackFrameAllocator::<()>::new();
    let first = stack.push(());
    stack.push(());
    stack.push(());
    assert_eq!(stack.buffer_bytes_used(), 19);
    assert_eq!(stack.get(first), Some(&()));
    stack.new_frame();
    stack.push(());
    assert_eq!(stack.end_frame(), Some(vec![()]));
    assert_eq!(stack.teardown(), (vec![(), (), ()], 1));
}

#[test]
fn a_handle_resolves_while_its_frame_is_live() {
    let mut stack = StackFrameAllocator::<u64>::new();
    let root = stack.push(1);
    stack.new_frame();
    let child = stack.push(2);
    assert!(child == StackRef { generation: 1, frame: 1, block: 0, slot: 1 });
    for value in 0..200 {
        stack.push(value);
    }
    assert_eq!(stack.get(root), Some(&1));
    assert_eq!(stack.get(child), Some(&2));
    stack.end_frame();
    assert_eq!(stack.get(child), None);
    assert_eq!(stack.get(root), Some(&1));
    // a new frame at the same depth, with a record in the same slot
    stack.new_frame();
    let again = stack.push(3);
    assert!(again == StackRef { generation: 2, frame: 1, block: 0, slot: 1 });
    assert_eq!(stack.get(child), None);
    assert_eq!(stack.get(again), Some(&3));
}

#[test]
fn a_handle_that_names_nothing_resolves_to_nothing() {
    let mut stack = StackFrameAllocator::<u64>::new();
    let only = stack.push(1);
    assert_eq!(stack.get(StackRef { slot: 1, ..only }), None);
    assert_eq!(stack.get(StackRef { block: 1, ..only }), None);
    assert_eq!(stack.get(StackRef { frame: 1, ..only }), None);
    assert_eq!(stack.get(StackRef { generation: 1, ..only }), None);
    assert_eq!(stack.get(StackRef { frame: usize::MAX, block: usize::MAX, ..only }), None);
    assert!(stack.get_mut(StackRef { slot: 1, ..only }).is_none());
    assert_eq!(stack.get(only), Some(&1));
}

#[test]
fn a_handle_of_an_enclosing_frame_does_not_reach_into_an_inner_frame() {
    let mut stack = StackFrameAllocator::<u64>::new();
    let outer = stack.push(1);
    stack.new_frame();
    let inner = stack.push(2);
    assert_eq!(stack.get(StackRef { slot: inner.slot, ..outer }), None);
    assert_eq!(stack.get(StackRef { slot: outer.slot, ..inner }), None);
}

#[test]
fn writing_through_a_handle_changes_that_record_only() {
    let mut stack = StackFrameAllocator::<u64>::new();
    let a = stack.push(1);
    let b = stack.push(2);
    stack.new_frame();
    let c = stack.push(3);
    *stack.get_mut(b).unwrap() = 20;
    *stack.get_mut(c).unwrap() += 30;
    assert_eq!(stack.get(a), Some(&1));
    assert_eq!(stack.get(b), Some(&20));
    assert_eq!(stack.get(c), Some(&33));
    assert_eq!(stack.teardown().0, vec![33, 20, 1]);
}

#[test]
fn the_listing_goes_from_the_top_to_the_root_header() {
    let mut stack = StackFrameAllocator::<u64>::new();
    let a = stack.push(1);
    let b = stack.push(2);
    stack.new_frame();
    stack.new_frame();
    let c = stack.push(3);
    let (lines, blocks) = stack.print();
    assert_eq!(blocks, 1);
    assert!(
        lines
            == vec![
                Line::Entry(c),
                Line::Header,
                Line::Header,
                Line::Entry(b),
                Line::Entry(a),
                Line::Header,
            ]
    );
}

#[test]
fn the_listing_of_an_empty_stack_is_one_header() {
    let stack = StackFrameAllocator::<u64>::new();
    assert!(stack.print().0 == vec![Line::Header]);
}

#[test]
fn visiting_backwards_crosses_blocks_and_stops_at_the_frame() {
    let mut stack = small(104);
    for value in 0..20u64 {
        stack.push(value);
    }
    stack.new_frame();
    for value in 20..45u64 {
        stack.push(value);
    }
    let mut place = stack.peek_top();
    let mut seen = vec![];
    while !stack.peek_at_start(place) {
        let (before, handle, value) = stack.peek_back(place);
        assert_eq!(stack.get(handle), Some(value));
        seen.push(*value);
        place = before;
    }
    assert_eq!(seen, (20..45u64).rev().collect::<Vec<u64>>());
    let outer = stack.peek_previous(place).unwrap();
    assert_eq!(outer.frame, 0);
    let (_, _, last) = stack.peek_back(outer);
    assert_eq!(*last, 19);
    let root = stack.peek_previous(outer);
    assert!(root.is_none());
}

#[test]
fn teardown_releases_every_frame_and_every_block() {
    let mut stack = small(104);
    for value in 0..10u64 {
        stack.push(value);
    }
    stack.new_frame();
    for value in 10..30u64 {
        stack.push(value);
    }
    stack.new_frame();
    stack.new_frame();
    stack.push(30);
    let blocks = stack.block_count();
    assert_eq!(stack.teardown(), ((0..31u64).rev().collect::<Vec<u64>>(), blocks));
}

#[test]
fn stamps_grow_with_every_frame() {
    let mut stack = StackFrameAllocator::<u64>::new();
    stack.new_frame();
    assert_eq!(stack.current_frame().generation, 1);
    stack.end_frame();
    assert_eq!(stack.current_frame().generation, 0);
    stack.new_scope(|stack| {
        assert_eq!(stack.current_frame().generation, 2);
        assert_eq!(stack.current_frame().previous_frame, Some(0));
    });
    stack.new_frame();
    assert_eq!(stack.current_frame().generation, 3);
}

#[test]
fn the_first_block_has_no_neighbours() {
    let stack = StackFrameAllocator::<u64>::new();
    assert!(
        stack.get_block_tail()
            == BlockTail { prev_block: None, prev_block_bytes_used: 0, next_block: None }
    );
}

#[test]
fn a_new_block_is_linked_in_both_directions() {
    let mut stack = small(104);
    for value in 0..9u64 {
        stack.push(value);
    }
    assert_eq!(stack.buffer_bytes_used(), 8);
    assert!(
        stack.get_block_tail()
            == BlockTail { prev_block: Some(0), prev_block_bytes_used: 80, next_block: None }
    );
    let second = stack.end_frame();
    assert_eq!(second, None);
    for value in 9..30u64 {
        stack.push(value);
    }
    // ten records fill each later block
    assert_eq!(stack.block_count(), 4);
    assert!(
        stack.get_block_tail()
            == BlockTail { prev_block: Some(2), prev_block_bytes_used: 80, next_block: None }
    );
}

#[test]
fn the_backward_link_is_renewed_when_a_block_is_entered_again() {
    let mut stack = small(104);
    for value in 0..7u64 {
        stack.push(value);
    }
    assert_eq!(stack.buffer_bytes_used(), 72);
    // a header does not fit behind 72 bytes, a record does
    stack.new_frame();
    assert!(
        stack.get_block_tail()
            == BlockTail { prev_block: Some(0), prev_block_bytes_used: 72, next_block: None }
    );
    stack.push(100);
    assert_eq!(stack.end_frame(), Some(vec![100]));
    assert!(
        stack.get_block_tail()
            == BlockTail { prev_block: None, prev_block_bytes_used: 0, next_block: Some(1) }
    );
    stack.push(7);
    assert_eq!(stack.buffer_bytes_used(), 80);
    stack.push(8);
    assert_eq!(stack.block_count(), 2);
    assert!(
        stack.get_block_tail()
            == BlockTail { prev_block: Some(0), prev_block_bytes_used: 80, next_block: None }
    );
    assert_eq!(stack.teardown(), ((0..9u64).rev().collect::<Vec<u64>>(), 2));
}

#[test]
fn a_header_may_end_at_the_last_usable_byte() {
    let mut stack = small(104);
    for value in 0..6u64 {
        stack.push(value);
    }
    assert_eq!(stack.buffer_bytes_used(), 64);
    stack.new_frame();
    let header = stack.current_frame();
    assert!(header.start == Position { block: 0, offset: 80, slot: 6 });
    assert_eq!(header.previous_frame, Some(0));
    assert_eq!(stack.block_count(), 1);
    assert_eq!(stack.buffer_bytes_used(), 80);
    let first = stack.push(6);
    assert!(first == StackRef { generation: 1, frame: 1, block: 1, slot: 0 });
    assert_eq!(stack.end_frame(), Some(vec![6]));
    assert_eq!(stack.buffer_bytes_used(), 64);
}

#[test]
fn a_scope_hands_back_what_it_released() {
    let mut stack = StackFrameAllocator::<u64>::new();
    stack.push(1);
    let released = stack.new_scope(|stack| {
        stack.push(2);
        stack.push(3);
        stack.push(4);
    });
    assert_eq!(released, vec![4, 3, 2]);
    let nothing = stack.new_scope(|_| {});
    assert_eq!(nothing, vec![]);
    assert_eq!(stack.teardown(), (vec![1], 1));
}

#[test]
fn a_scope_releases_the_frames_left_open_inside_it_innermost_first() {
    let mut stack = small(104);
    stack.push(0);
    let released = stack.new_scope(|stack| {
        for value in 1..20u64 {
            stack.push(value);
        }
        stack.new_frame();
        stack.push(20);
        stack.push(21);
        stack.new_frame();
        stack.new_frame();
        stack.push(22);
    });
    assert_eq!(released, vec![22, 21, 20].into_iter().chain((1..20u64).rev()).collect::<Vec<u64>>());
    assert_eq!(stack.depth(), 1);
    assert_eq!(stack.teardown().0, vec![0]);
}

#[test]
fn the_callback_of_a_scope_runs_once_in_a_new_empty_frame() {
    let mut stack = StackFrameAllocator::<u64>::new();
    let outer = stack.push(1);
    let mut runs = 0;
    stack.new_scope(|stack| {
        runs += 1;
        assert_eq!(stack.depth(), 2);
        assert!(stack.frame_is_empty());
        assert_eq!(stack.current_frame().previous_frame, Some(0));
        assert_eq!(stack.current_frame().generation, 1);
        assert_eq!(stack.size().bytes(), 1024);
        assert_eq!(stack.get(outer), Some(&1));
    });
    assert_eq!(runs, 1);
}
