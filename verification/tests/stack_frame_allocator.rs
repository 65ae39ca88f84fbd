use std::cell::RefCell;
use std::fmt::Display;

use stack_frame_allocators::stack_frame_allocator::StackFrameAllocator;

pub struct DropTest<'d>(&'d str, &'d RefCell<Vec<&'d str>>);

impl<'d> Drop for DropTest<'d> {
    fn drop(&mut self) {
        let (value, dropped) = (self.0, self.1);

        dropped.borrow_mut().push(value);
    }
}

#[derive(PartialEq, Eq, Hash)]
pub struct DropPrint<T>(T)
where
    T: Display;

impl<T> Drop for DropPrint<T>
where
    T: Display,
{
    fn drop(&mut self) {
        println!("{}", self.0);
    }
}

#[test]
pub fn drop_scope_test() {
    let dropped = RefCell::new(vec![]);
    {
        let mut stack = StackFrameAllocator::<DropTest>::new();
        stack.push(DropTest("value1scope1", &dropped));
        stack.push(DropTest("value2scope1", &dropped));
        stack.push(DropTest("value3scope1", &dropped));
        stack.new_scope(|stack| {
            stack.push(DropTest("value1scope2", &dropped));
            stack.push(DropTest("value2scope2", &dropped));
            stack.push(DropTest("value3scope2", &dropped));
        });
        stack.teardown();
    }

    let compare = vec![
        "value3scope2",
        "value2scope2",
        "value1scope2",
        "value3scope1",
        "value2scope1",
        "value1scope1",
    ];

    assert_eq!(*dropped.borrow(), compare);
}

#[test]
pub fn drop_frame_test() {
    let dropped = RefCell::new(vec![]);
    {
        let mut stack = StackFrameAllocator::<DropTest>::new();
        stack.push(DropTest("value1scope1", &dropped));
        stack.push(DropTest("value2scope1", &dropped));
        stack.push(DropTest("value3scope1", &dropped));
        stack.new_frame();
        stack.push(DropTest("value1scope2", &dropped));
        stack.push(DropTest("value2scope2", &dropped));
        stack.push(DropTest("value3scope2", &dropped));
        stack.teardown();
    }

    let compare = vec![
        "value3scope2",
        "value2scope2",
        "value1scope2",
        "value3scope1",
        "value2scope1",
        "value1scope1",
    ];

    assert_eq!(*dropped.borrow(), compare);
}

#[test]
#[allow(unused_variables)]
pub fn stack_frame_allocator_empty_drop_test() {
    let stack_u8 = StackFrameAllocator::<DropPrint<u8>>::new();
    let stack_u16 = StackFrameAllocator::<DropPrint<u16>>::new();
    let stack_u32 = StackFrameAllocator::<DropPrint<u32>>::new();
    let stack_u64 = StackFrameAllocator::<DropPrint<u64>>::new();
    let stack_u128 = StackFrameAllocator::<DropPrint<u128>>::new();

    assert_eq!(stack_u8.teardown().0.len(), 0);
    assert_eq!(stack_u16.teardown().0.len(), 0);
    assert_eq!(stack_u32.teardown().0.len(), 0);
    assert_eq!(stack_u64.teardown().0.len(), 0);
    assert_eq!(stack_u128.teardown().0.len(), 0);
}
