pub mod array_deque;
pub mod array_queue;
pub mod array_stack;
pub mod doubly_linked_list;
pub mod dual_array_deque;
pub mod history;
pub mod ring;
pub mod rootish_array_stack;
pub mod singly_linked_list;
pub mod triangular;
pub mod util;

pub use array_deque::ArrayDeque;
pub use array_queue::ArrayQueue;
pub use array_stack::ArrayStack;
pub use doubly_linked_list::{DLList, Node};
pub use dual_array_deque::DualArrayDeque;
pub use rootish_array_stack::RootishArrayStack;
pub use singly_linked_list::SLList;
pub use triangular::i2b;
