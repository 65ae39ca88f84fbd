use std::cell::RefCell;

use stack_frame_allocators::stack_frame_dict_allocator::StackFrameDictAllocator;
use stack_frame_allocators::stack_ref::{Line, StackRef};
use stack_frame_allocators::stack_size::StackSize;

struct Noted<'n>(usize, &'n RefCell<Vec<usize>>);

impl<'n> Drop for Noted<'n> {
    fn drop(&mut self) {
        self.1.borrow_mut().push(self.0);
    }
}

fn keys_from_the_top(stack: &StackFrameDictAllocator<&'static str, usize>) -> Vec<&'static str> {
    let mut keys = vec![];
    for line in stack.print().0 {
        if let Line::Entry(handle) = line {
            keys.push(*stack.key(handle).unwrap());
        }
    }
    keys
}

#[test]
fn a_new_dictionary_has_one_block_and_an_empty_root() {
    let stack = StackFrameDictAllocator::<&str, usize>::new();
    assert_eq!(stack.size().bytes(), 1024);
    assert_eq!(stack.real_size().bytes(), 1000);
    assert_eq!(stack.depth(), 1);
    assert_eq!(stack.block_count(), 1);
    assert_eq!(stack.buffer_bytes_used(), 16);
    assert_eq!(stack.current_frame().generation, 0);
    assert!(stack.get_in_frame("missing").is_none());
    assert!(stack.get_in_stack("missing").is_none());
}

#[test]
fn a_small_block_is_refused() {
    assert!(
        StackFrameDictAllocator::<u8, u8>::with_size(StackSize::from_num_bytes(39)).is_none()
    );
    assert!(
        StackFrameDictAllocator::<u8, u8>::with_size(StackSize::from_num_bytes(40)).is_some()
    );
}

#[test]
fn a_pair_takes_the_footprint_of_key_and_value_together() {
    let mut stack = StackFrameDictAllocator::<u8, u64>::new();
    let stride = std::mem::size_of::<(u8, u64)>();
    stack.push(1, 10);
    assert_eq!(stack.buffer_bytes_used(), 16 + stride);
    stack.push(2, 20);
    assert_eq!(stack.buffer_bytes_used(), 16 + 2 * stride);
}

#[test]
fn the_latest_pair_shadows_the_earlier_ones() {
    let mut stack = StackFrameDictAllocator::<&str, usize>::new();
    let first = stack.push("k", 1);
    let second = stack.push("k", 2);
    assert!(stack.get_in_frame("k") == Some(second));
    assert!(stack.get_in_stack("k") == Some(second));
    assert_eq!(stack.get(second), Some(&2));
    // the shadowed pair is still there
    assert_eq!(stack.get(first), Some(&1));
    assert_eq!(stack.key(first), Some(&"k"));
}

#[test]
fn shadowing_ends_with_the_frame_of_the_shadowing_pair() {
    let mut stack = StackFrameDictAllocator::<&str, usize>::new();
    let outer = stack.push("k", 1);
    stack.new_frame();
    let inner = stack.push("k", 2);
    assert!(stack.get_in_stack("k") == Some(inner));
    assert!(stack.get_in_frame("k") == Some(inner));
    let released = stack.end_frame().unwrap();
    assert_eq!(released, vec![("k", 2)]);
    assert!(stack.get_in_stack("k") == Some(outer));
    assert!(stack.get_in_frame("k") == Some(outer));
    assert_eq!(stack.get(stack.get_in_stack("k").unwrap()), Some(&1));
}

#[test]
fn a_frame_and_the_stack_are_different_scopes() {
    let mut stack = StackFrameDictAllocator::<&str, usize>::new();
    let parent = stack.push("parent", 1);
    stack.new_scope(|stack| {
        let child = stack.push("child", 2);
        assert!(stack.get_in_stack("child") == Some(child));
        assert!(stack.get_in_frame("child") == Some(child));
        assert!(stack.get_in_stack("parent") == Some(parent));
        assert!(stack.get_in_frame("parent").is_none());
    });
    assert!(stack.get_in_frame("child").is_none());
    assert!(stack.get_in_stack("child").is_none());
    assert!(stack.get_in_frame("parent") == Some(parent));
}

#[test]
fn a_scope_does_not_move_the_bump_position_of_its_parent() {
    let mut stack = StackFrameDictAllocator::<u64, u64>::new();
    stack.push(1, 1);
    let before = stack.current_frame();
    stack.new_scope(|stack| {
        for key in 0..500 {
            stack.push(key, key);
        }
        assert!(stack.block_count() > 1);
    });
    let after = stack.current_frame();
    assert!(after.current_frame_ptr == before.current_frame_ptr);
    assert!(after.start == before.start);
    assert_eq!(after.generation, before.generation);
    assert_eq!(stack.buffer_bytes_used(), 32);
    assert!(stack.get_in_stack(0).is_none());
    assert!(stack.get_in_stack(1).is_some());
}

#[test]
fn lookups_cross_blocks() {
    let mut stack =
        StackFrameDictAllocator::<u64, u64>::with_size(StackSize::from_num_bytes(128)).unwrap();
    let mut handles = vec![];
    for key in 0..40u64 {
        handles.push(stack.push(key, key * 10));
    }
    stack.new_frame();
    for key in 40..80u64 {
        handles.push(stack.push(key, key * 10));
    }
    assert!(stack.block_count() > 10);
    for key in 0..80u64 {
        let found = stack.get_in_stack(key).unwrap();
        assert!(found == handles[key as usize]);
        assert_eq!(stack.get(found), Some(&(key * 10)));
        assert_eq!(stack.key(found), Some(&key));
        assert_eq!(stack.get_in_frame(key).is_some(), key >= 40);
    }
    assert!(stack.get_in_stack(80).is_none());
    let released = stack.end_frame().unwrap();
    assert_eq!(released, (40..80u64).rev().map(|key| (key, key * 10)).collect::<Vec<_>>());
    for key in 0..40u64 {
        assert!(stack.get_in_frame(key) == Some(handles[key as usize]));
    }
    let (all, _) = stack.teardown();
    assert_eq!(all, (0..40u64).rev().map(|key| (key, key * 10)).collect::<Vec<_>>());
}

#[test]
fn the_value_of_a_pair_can_be_written() {
    let mut stack = StackFrameDictAllocator::<&str, usize>::new();
    stack.push("a", 0);
    let b = stack.push("b", 4);
    *stack.get_mut(b).unwrap() = 69;
    assert_eq!(stack.get(stack.get_in_frame("b").unwrap()), Some(&69));
    assert_eq!(stack.get(stack.get_in_frame("a").unwrap()), Some(&0));
    assert_eq!(stack.key(b), Some(&"b"));
    assert!(stack.get_mut(StackRef { slot: 2, ..b }).is_none());
    assert_eq!(stack.teardown().0, vec![("b", 69), ("a", 0)]);
}

#[test]
fn a_handle_of_a_closed_frame_names_nothing() {
    let mut stack = StackFrameDictAllocator::<&str, usize>::new();
    stack.new_frame();
    let gone = stack.push("k", 1);
    stack.end_frame();
    assert_eq!(stack.get(gone), None);
    assert_eq!(stack.key(gone), None);
    stack.new_frame();
    let back = stack.push("k", 2);
    assert_eq!(gone.slot, back.slot);
    assert_eq!(stack.get(gone), None);
    assert_eq!(stack.get(back), Some(&2));
}

#[test]
fn the_listing_marks_the_frames() {
    let mut stack = StackFrameDictAllocator::<&str, usize>::new();
    let one = stack.push("I", 0);
    let two = stack.push("II", 1);
    stack.new_frame();
    let a = stack.push("a", 3);
    let (lines, blocks) = stack.print();
    assert_eq!(blocks, 1);
    assert!(
        lines
            == vec![
                Line::Entry(a),
                Line::Header,
                Line::Entry(two),
                Line::Entry(one),
                Line::Header,
            ]
    );
}

#[test]
fn nested_scopes_release_inside_out() {
    let released = RefCell::new(vec![]);
    let mut stack = StackFrameDictAllocator::<&'static str, Noted>::new();
    stack.push("I", Noted(1, &released));
    stack.push("II", Noted(2, &released));
    stack.push("III", Noted(3, &released));

    stack.new_scope(|stack| {
        stack.push("a", Noted(10, &released));
        stack.push("b", Noted(20, &released));

        stack.new_scope(|stack| {
            stack.push("1", Noted(100, &released));
            stack.push("2", Noted(200, &released));
            stack.push("3", Noted(300, &released));
            stack.push("4", Noted(400, &released));
            stack.push("5", Noted(500, &released));
        });
        assert_eq!(*released.borrow(), vec![500, 400, 300, 200, 100]);

        stack.push("c", Noted(30, &released));
    });
    assert_eq!(*released.borrow(), vec![500, 400, 300, 200, 100, 30, 20, 10]);

    stack.push("IV", Noted(4, &released));
    stack.push("V", Noted(5, &released));
    stack.push("VI", Noted(6, &released));

    let mut keys = vec![];
    for line in stack.print().0 {
        if let Line::Entry(handle) = line {
            keys.push(*stack.key(handle).unwrap());
        }
    }
    assert_eq!(keys, vec!["VI", "V", "IV", "III", "II", "I"]);
    for (key, value) in [("VI", 6), ("V", 5), ("IV", 4), ("III", 3), ("II", 2), ("I", 1)] {
        let found = stack.get_in_stack(key).unwrap();
        assert_eq!(stack.get(found).unwrap().0, value);
    }
    for key in ["a", "b", "c", "1", "2", "3", "4", "5"] {
        assert!(stack.get_in_stack(key).is_none());
        assert!(stack.get_in_frame(key).is_none());
    }
    drop(stack.teardown());
    assert_eq!(
        *released.borrow(),
        vec![500, 400, 300, 200, 100, 30, 20, 10, 6, 5, 4, 3, 2, 1]
    );
}

#[test]
fn the_keys_of_the_root_are_listed_most_recent_first() {
    let mut stack = StackFrameDictAllocator::<&'static str, usize>::new();
    stack.push("I", 1);
    stack.push("II", 2);
    stack.push("III", 3);
    stack.new_scope(|stack| {
        stack.push("a", 10);
        stack.push("b", 20);
        stack.new_scope(|stack| {
            for (key, value) in [("1", 100), ("2", 200), ("3", 300), ("4", 400), ("5", 500)] {
                stack.push(key, value);
            }
            assert_eq!(
                keys_from_the_top(stack),
                vec!["5", "4", "3", "2", "1", "b", "a", "III", "II", "I"]
            );
        });
        stack.push("c", 30);
        assert_eq!(keys_from_the_top(stack), vec!["c", "b", "a", "III", "II", "I"]);
    });
    stack.push("IV", 4);
    stack.push("V", 5);
    stack.push("VI", 6);
    assert_eq!(keys_from_the_top(&stack), vec!["VI", "V", "IV", "III", "II", "I"]);
}

#[test]
fn a_pair_may_end_at_the_last_usable_byte() {
    // 64 usable bytes: the root header and three pairs of sixteen bytes
    let mut stack =
        StackFrameDictAllocator::<u64, u64>::with_size(StackSize::from_num_bytes(88)).unwrap();
    stack.push(1, 10);
    stack.push(2, 20);
    let third = stack.push(3, 30);
    assert_eq!((third.block, third.slot), (0, 2));
    assert_eq!(stack.block_count(), 1);
    assert_eq!(stack.buffer_bytes_used(), 64);
    assert_eq!(stack.buffer_bytes_used(), stack.real_size().bytes());
    let fourth = stack.push(4, 40);
    assert_eq!((fourth.block, fourth.slot), (1, 0));
    assert_eq!(stack.block_count(), 2);
    assert_eq!(stack.buffer_bytes_used(), 16);
    assert!(stack.get_in_frame(3) == Some(third));
    assert_eq!(stack.teardown(), (vec![(4, 40), (3, 30), (2, 20), (1, 10)], 2));
}

#[test]
fn a_scope_hands_back_its_pairs_most_recent_first() {
    let mut stack = StackFrameDictAllocator::<&str, usize>::new();
    stack.push("I", 1);
    let outer = stack.new_scope(|stack| {
        stack.push("a", 10);
        stack.push("b", 20);
        let inner = stack.new_scope(|stack| {
            for (key, value) in [("1", 100), ("2", 200), ("3", 300), ("4", 400), ("5", 500)] {
                stack.push(key, value);
            }
        });
        assert_eq!(inner, vec![("5", 500), ("4", 400), ("3", 300), ("2", 200), ("1", 100)]);
        stack.push("c", 30);
    });
    assert_eq!(outer, vec![("c", 30), ("b", 20), ("a", 10)]);
    assert_eq!(stack.teardown(), (vec![("I", 1)], 1));
}
