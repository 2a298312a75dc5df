// A doubly-linked list kept in an arena, with a cursor that moves over it and
// splices and splits it, and the simpler stacks and queues built on the same
// idea.
pub mod linked_list;
pub mod laws;
pub mod first;
pub mod second;
pub mod fourth;
pub mod fifth;
