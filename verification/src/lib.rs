//! A small library of verified data structures and algorithms: a
//! fixed-capacity LRU cache with an actor-style command interface,
//! singly linked lists, a bounded vector, and several sorting routines.

pub mod actor;
pub mod heap_sort;
pub mod link_list;
pub mod lru;
pub mod lru_model;
pub mod merge_sort;
pub mod quick_sort;
pub mod shell_sort;
pub mod sorting;
pub mod vec_array;
