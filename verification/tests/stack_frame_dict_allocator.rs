use std::cell::RefCell;
use std::fmt::Display;

use stack_frame_allocators::stack_frame_dict_allocator::StackFrameDictAllocator;

pub struct DropTest<'d>(&'d str, &'d RefCell<Vec<&'d str>>);

impl<'d> Drop for DropTest<'d> {
    fn drop(&mut self) {
        let (value, dropped) = (self.0, self.1);

        dropped.borrow_mut().push(value);
    }
}

#[derive(PartialEq, Eq, Hash)]
pub struct DropPrint<T>(T)
where
    T: Display;

impl<T> Drop for DropPrint<T>
where
    T: Display,
{
    fn drop(&mut self) {
        println!("{}", self.0);
    }
}

/// Tears the dictionary down; the number of pairs released and of blocks.
fn torn_down<Key: PartialEq, Value>(stack: StackFrameDictAllocator<Key, Value>) -> (usize, usize) {
    let (released, blocks) = stack.teardown();
    (released.len(), blocks)
}

#[test]
pub fn get_in_frame_test() {
    let mut stack = StackFrameDictAllocator::<&str, &str>::new();

    stack.push("red", "first");
    stack.push("blue", "first");

    stack.new_scope(|stack| {
        stack.push("red", "second");

        let red = stack.get(stack.get_in_frame("red").unwrap()).unwrap();
        let blue = stack.get_in_frame("blue");
        assert_eq!(*red, "second");
        assert!(blue.is_none());
    });

    let red = stack.get(stack.get_in_frame("red").unwrap()).unwrap();
    let blue = stack.get(stack.get_in_frame("blue").unwrap()).unwrap();
    assert_eq!(*red, "first");
    assert_eq!(*blue, "first");

    //shadow blue
    stack.push("blue", "second");

    let blue = stack.get(stack.get_in_frame("blue").unwrap()).unwrap();
    assert_eq!(*blue, "second");
}

#[test]
pub fn get_in_stack_test() {
    let mut stack = StackFrameDictAllocator::<&str, &str>::new();

    stack.push("red", "old");
    stack.push("blue", "old");

    stack.new_scope(|stack| {
        stack.push("green", "new");

        let red = *stack.get(stack.get_in_stack("red").unwrap()).unwrap();
        let blue = stack.get_in_stack("blue");
        let green = *stack.get(stack.get_in_stack("green").unwrap()).unwrap();
        assert_eq!(red, "old");
        assert!(blue.is_some());
        assert_eq!(green, "new");

        //shadow blue
        stack.push("red", "new");

        let red = stack.get(stack.get_in_stack("red").unwrap()).unwrap();
        assert_eq!(*red, "new");
    });

    let red = stack.get(stack.get_in_stack("red").unwrap()).unwrap();
    let blue = stack.get(stack.get_in_stack("blue").unwrap()).unwrap();
    assert_eq!(*red, "old");
    assert_eq!(*blue, "old");
}

#[test]
pub fn drop_test() {
    let dropped = RefCell::new(vec![]);
    {
        let mut stack = StackFrameDictAllocator::<DropPrint<&str>, DropTest>::new();
        stack.push(DropPrint("key1scope1"), DropTest("value1scope1", &dropped));
        stack.push(DropPrint("key2scope1"), DropTest("value2scope1", &dropped));
        stack.push(DropPrint("key3scope1"), DropTest("value3scope1", &dropped));
        stack.new_scope(|stack| {
            stack.push(DropPrint("key1scope2"), DropTest("value1scope2", &dropped));
            stack.push(DropPrint("key2scope2"), DropTest("value2scope2", &dropped));
            stack.push(DropPrint("key3scope2"), DropTest("value3scope2", &dropped));
        });
        stack.teardown();
    }

    let compare = vec![
        "value3scope2",
        "value2scope2",
        "value1scope2",
        "value3scope1",
        "value2scope1",
        "value1scope1",
    ];

    assert_eq!(*dropped.borrow(), compare);
}

#[test]
#[allow(unused_variables)]
pub fn stack_frame_dict_allocator_empty_drop_test() {
    let stack_u8_u8 = StackFrameDictAllocator::<DropPrint<u8>, DropPrint<u8>>::new();
    let stack_u8_u16 = StackFrameDictAllocator::<DropPrint<u8>, DropPrint<u16>>::new();
    let stack_u8_u32 = StackFrameDictAllocator::<DropPrint<u8>, DropPrint<u32>>::new();
    let stack_u8_u64 = StackFrameDictAllocator::<DropPrint<u8>, DropPrint<u64>>::new();
    let stack_u8_u128 = StackFrameDictAllocator::<DropPrint<u8>, DropPrint<u128>>::new();

    let stack_u16_u8 = StackFrameDictAllocator::<DropPrint<u16>, DropPrint<u8>>::new();
    let stack_u16_u16 = StackFrameDictAllocator::<DropPrint<u16>, DropPrint<u16>>::new();
    let stack_u16_u32 = StackFrameDictAllocator::<DropPrint<u16>, DropPrint<u32>>::new();
    let stack_u16_u64 = StackFrameDictAllocator::<DropPrint<u16>, DropPrint<u64>>::new();
    let stack_u16_u128 = StackFrameDictAllocator::<DropPrint<u16>, DropPrint<u128>>::new();

    let stack_u32_u8 = StackFrameDictAllocator::<DropPrint<u32>, DropPrint<u8>>::new();
    let stack_u32_u16 = StackFrameDictAllocator::<DropPrint<u32>, DropPrint<u16>>::new();
    let stack_u32_u32 = StackFrameDictAllocator::<DropPrint<u32>, DropPrint<u32>>::new();
    let stack_u32_u64 = StackFrameDictAllocator::<DropPrint<u32>, DropPrint<u64>>::new();
    let stack_u32_u128 = StackFrameDictAllocator::<DropPrint<u32>, DropPrint<u128>>::new();

    let stack_u64_u8 = StackFrameDictAllocator::<DropPrint<u64>, DropPrint<u8>>::new();
    let stack_u64_u16 = StackFrameDictAllocator::<DropPrint<u64>, DropPrint<u16>>::new();
    let stack_u64_u32 = StackFrameDictAllocator::<DropPrint<u64>, DropPrint<u32>>::new();
    let stack_u64_u64 = StackFrameDictAllocator::<DropPrint<u64>, DropPrint<u64>>::new();
    let stack_u64_u128 = StackFrameDictAllocator::<DropPrint<u64>, DropPrint<u128>>::new();

    let stack_u128_u8 = StackFrameDictAllocator::<DropPrint<u128>, DropPrint<u8>>::new();
    let stack_u128_u16 = StackFrameDictAllocator::<DropPrint<u128>, DropPrint<u16>>::new();
    let stack_u128_u32 = StackFrameDictAllocator::<DropPrint<u128>, DropPrint<u32>>::new();
    let stack_u128_u64 = StackFrameDictAllocator::<DropPrint<u128>, DropPrint<u64>>::new();
    let stack_u128_u128 = StackFrameDictAllocator::<DropPrint<u128>, DropPrint<u128>>::new();


    assert_eq!(torn_down(stack_u8_u8), (0, 1));
    assert_eq!(torn_down(stack_u8_u16), (0, 1));
    assert_eq!(torn_down(stack_u8_u32), (0, 1));
    assert_eq!(torn_down(stack_u8_u64), (0, 1));
    assert_eq!(torn_down(stack_u8_u128), (0, 1));
    assert_eq!(torn_down(stack_u16_u8), (0, 1));
    assert_eq!(torn_down(stack_u16_u16), (0, 1));
    assert_eq!(torn_down(stack_u16_u32), (0, 1));
    assert_eq!(torn_down(stack_u16_u64), (0, 1));
    assert_eq!(torn_down(stack_u16_u128), (0, 1));
    assert_eq!(torn_down(stack_u32_u8), (0, 1));
    assert_eq!(torn_down(stack_u32_u16), (0, 1));
    assert_eq!(torn_down(stack_u32_u32), (0, 1));
    assert_eq!(torn_down(stack_u32_u64), (0, 1));
    assert_eq!(torn_down(stack_u32_u128), (0, 1));
    assert_eq!(torn_down(stack_u64_u8), (0, 1));
    assert_eq!(torn_down(stack_u64_u16), (0, 1));
    assert_eq!(torn_down(stack_u64_u32), (0, 1));
    assert_eq!(torn_down(stack_u64_u64), (0, 1));
    assert_eq!(torn_down(stack_u64_u128), (0, 1));
    assert_eq!(torn_down(stack_u128_u8), (0, 1));
    assert_eq!(torn_down(stack_u128_u16), (0, 1));
    assert_eq!(torn_down(stack_u128_u32), (0, 1));
    assert_eq!(torn_down(stack_u128_u64), (0, 1));
    assert_eq!(torn_down(stack_u128_u128), (0, 1));
}
