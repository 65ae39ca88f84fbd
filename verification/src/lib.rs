//! Stack-disciplined arenas: values are pushed into nested frames, and a whole
//! frame is released at once, most recent entry first.
//!
//! Two engines share one block chain and frame protocol.
//! [`stack_frame_allocator::StackFrameAllocator`] stores plain values.
//! [`stack_frame_dict_allocator::StackFrameDictAllocator`] stores key-value
//! pairs that can be looked up by key, the most recent match shadowing older
//! ones, in the current frame alone or through all live frames.
//!
//! An arena keeps its records in blocks of one size and accounts for every
//! byte of them: headers and records are placed by alignment and size, and a
//! record that does not fit in the current block goes on in the next one.
//! [`layout`] holds that arithmetic and [`block_chain`] the chain and its
//! links. A frame is a header in [`stack_frame_header`] and the records behind
//! it; a record is reached through a handle of [`stack_ref`], which resolves
//! as long as the frame of the record is live and never again afterwards.
//!
//! Frames are closed explicitly: one by `end_frame`, those of a scope by
//! `new_scope` when its callback returns, and all at once by `teardown`,
//! which consumes the arena. Each of them hands the released records back in
//! the order of their release, so that dropping what is handed back runs
//! their destructors most recent first.
//!
//! The contracts are stated over [`model::StackModel`]; what follows from them
//! for every stack is proved in [`laws`].

pub mod block_chain;
pub mod laws;
pub mod layout;
pub mod model;
pub mod stack_frame_allocator;
pub mod stack_frame_dict_allocator;
pub mod stack_frame_header;
pub mod stack_ref;
pub mod stack_size;
