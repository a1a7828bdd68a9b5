use std::collections::VecDeque;

use lib::fs::disk_struct::DiskStruct;
use lib::try_alloc::boxed::TryBox;
use lib::try_alloc::clone::{TryClone, TryToOwned};
use lib::try_alloc::fmt::{TryWrite, TryWriteError, Write2TryWrite};
use lib::try_alloc::linked::{IntrusiveLinkedList, Node};
use lib::try_alloc::string::{utf8_len, TryString, TryToString};
use lib::try_alloc::vec::{TryVec, TryVecDeque};

#[test]
fn try_vec_grows() {
    let mut v = <Vec<u8> as TryVec<u8>>::try_with_capacity(4).ok().unwrap();
    assert!(v.is_empty());
    assert!(v.try_push(1).is_ok());
    assert!(v.try_push(2).is_ok());
    assert_eq!(v, vec![1, 2]);
}

#[test]
fn try_vec_deque_grows_at_both_ends() {
    let mut q = <VecDeque<u8> as TryVecDeque<u8>>::try_with_capacity(2).ok().unwrap();
    assert!(q.try_push_back(2).is_ok());
    assert!(q.try_push_front(1).is_ok());
    assert!(q.try_push_back(3).is_ok());
    assert_eq!(q.into_iter().collect::<Vec<_>>(), vec![1, 2, 3]);
}

#[test]
fn try_string_builds_text() {
    let mut s = <String as TryString>::try_with_capacity(1).ok().unwrap();
    assert!(s.try_push('a').is_ok());
    assert!(s.try_push_str("bé").is_ok());
    assert!(s.try_push('中').is_ok());
    assert_eq!(s, "abé中");
    assert_eq!(utf8_len('a'), 1);
    assert_eq!(utf8_len('é'), 2);
    assert_eq!(utf8_len('中'), 3);
    assert_eq!(utf8_len('😀'), 4);
}

#[test]
fn try_from_utf8_lossy_replaces_invalid_bytes() {
    let s = <String as TryString>::try_from_utf8_lossy(b"ok").ok().unwrap();
    assert_eq!(s, "ok");
    let s = <String as TryString>::try_from_utf8_lossy(&[b'a', 0xff, b'b']).ok().unwrap();
    assert_eq!(s, "a\u{FFFD}b");
}

#[test]
fn try_write_into_string() {
    let mut s = String::new();
    assert!(s.try_write_str("x=").is_ok());
    assert!(s.try_write_char('1').is_ok());
    assert_eq!(s, "x=1");
}

#[test]
fn write_adapter_passes_text_and_maps_errors() {
    let mut w = Write2TryWrite::new(String::new());
    assert!(w.write_str("ab").is_ok());
    assert!(w.write_char('c').is_ok());
    assert!(matches!(w.map_try_error(core::fmt::Error), TryWriteError::FmtError(_)));
    assert_eq!(w.into_inner(), "abc");
}

#[test]
fn try_clone_from_reuses_the_target() {
    let long = vec![9u8, 9, 9, 9];
    let short = vec![1u8, 2];
    assert_eq!(long.clone().try_clone_from(&short).ok().unwrap(), vec![1, 2]);
    assert_eq!(short.clone().try_clone_from(&long).ok().unwrap(), vec![9, 9, 9, 9]);
    assert_eq!(short.try_clone().ok().unwrap(), vec![1, 2]);
    let a = String::from("hello");
    let b = String::from("hi");
    assert_eq!(a.try_clone_from(&b).ok().unwrap(), "hi");
    assert_eq!(b.try_clone().ok().unwrap(), "hi");
    assert_eq!(7u32.try_clone().ok().unwrap(), 7);
}

#[test]
fn try_to_owned_copies() {
    let s: &str = "text";
    assert_eq!(s.try_to_owned().ok().unwrap(), "text");
    let v: &[u16] = &[1, 2, 3];
    assert_eq!(v.try_to_owned().ok().unwrap(), vec![1, 2, 3]);
    assert_eq!(v.try_clone_into(vec![5]).ok().unwrap(), vec![1, 2, 3]);
}

#[test]
fn try_box_holds_the_value() {
    let b = <Box<u32> as TryBox<u32>>::try_new(11).ok().unwrap();
    assert_eq!(*b, 11);
    let c = b.try_clone().ok().unwrap();
    assert_eq!(*c, 11);
}

#[test]
fn disk_struct_bytes() {
    let mut d = DiskStruct::<[u8; 6]>::new(4);
    assert_eq!(d.as_slice(), &[0u8; 6]);
    d.as_slice_mut()[2] = 5;
    assert_eq!(d.as_slice()[2], 5);
    let d = DiskStruct::<[u8; 2]>::new(8);
    assert_eq!(d.as_slice().len(), 8);
}

#[test]
fn intrusive_list_push_pop_remove() {
    let mut nodes: Vec<Node<char>> = vec![Node::new('a'), Node::new('b'), Node::new('c'), Node::new('d')];
    let mut list: IntrusiveLinkedList<char> = IntrusiveLinkedList::new();
    assert_eq!(list.len(), 0);
    list.push_back(&mut nodes, 1);
    list.push_back(&mut nodes, 2);
    list.push_front(&mut nodes, 0);
    list.push_back(&mut nodes, 3);
    assert_eq!(list.len(), 4);
    assert!(list.remove(&mut nodes, 2));
    assert!(!list.remove(&mut nodes, 2));
    assert_eq!(list.len(), 3);
    assert_eq!(list.pop_front(&mut nodes), Some(0));
    assert_eq!(list.pop_back(&mut nodes), Some(3));
    assert_eq!(list.pop_back(&mut nodes), Some(1));
    assert_eq!(list.pop_front(&mut nodes), None);
    assert_eq!(list.len(), 0);
    assert_eq!(nodes[2].val, 'c');
}

#[test]
fn intrusive_list_is_first_in_first_out_from_both_ends() {
    let mut nodes: Vec<Node<u8>> = (0..5u8).map(Node::new).collect();
    let mut list: IntrusiveLinkedList<u8> = IntrusiveLinkedList::new();
    for i in 0..5usize {
        list.push_back(&mut nodes, i);
    }
    for i in 0..5usize {
        assert_eq!(list.pop_front(&mut nodes), Some(i));
        // a popped node can be pushed again
        if i == 0 {
            list.push_front(&mut nodes, 0);
            assert_eq!(list.pop_front(&mut nodes), Some(0));
        }
    }
}

#[test]
fn try_to_string_matches_display() {
    assert_eq!(0u64.try_to_string().ok().unwrap(), "0");
    assert_eq!(1234567890u64.try_to_string().ok().unwrap(), "1234567890");
    assert_eq!(u64::MAX.try_to_string().ok().unwrap(), u64::MAX.to_string());
    assert_eq!(42u32.try_to_string().ok().unwrap(), "42");
    assert_eq!(7usize.try_to_string().ok().unwrap(), "7");
    assert_eq!((-305i64).try_to_string().ok().unwrap(), "-305");
    assert_eq!(i64::MIN.try_to_string().ok().unwrap(), i64::MIN.to_string());
    assert_eq!((-1i32).try_to_string().ok().unwrap(), "-1");
    assert_eq!(true.try_to_string().ok().unwrap(), "true");
    assert_eq!(false.try_to_string().ok().unwrap(), "false");
    assert_eq!('é'.try_to_string().ok().unwrap(), "é");
    assert_eq!("abc".try_to_string().ok().unwrap(), "abc");
    assert_eq!(String::from("xy").try_to_string().ok().unwrap(), "xy");
}

#[test]
fn option_try_clone_keeps_the_value() {
    let some: Option<u32> = Some(5);
    assert_eq!(some.try_clone().unwrap(), Some(5));
    let none: Option<u32> = None;
    assert_eq!(none.try_clone().unwrap(), None);
}

#[test]
fn option_try_clone_from_needs_both_sides() {
    let dst: Option<u32> = Some(1);
    assert_eq!(dst.try_clone_from(&Some(7)).unwrap(), Some(7));
    let empty: Option<u32> = None;
    assert_eq!(empty.try_clone_from(&Some(7)).unwrap(), None);
    let dst: Option<u32> = Some(1);
    assert_eq!(dst.try_clone_from(&None).unwrap(), None);
}

#[test]
fn result_try_clone_follows_the_source() {
    let ok: Result<u32, u8> = Ok(3);
    assert_eq!(ok.try_clone().unwrap(), Ok(3));
    let err: Result<u32, u8> = Err(4);
    assert_eq!(err.try_clone().unwrap(), Err(4));
    let dst: Result<u32, u8> = Ok(1);
    assert_eq!(dst.try_clone_from(&Err(9)).unwrap(), Err(9));
    let dst: Result<u32, u8> = Err(2);
    assert_eq!(dst.try_clone_from(&Ok(8)).unwrap(), Ok(8));
}

#[test]
fn empty_requests_need_no_memory() {
    assert!(<Vec<u8> as TryVec<u8>>::try_with_capacity(0).is_ok());
    assert!(<VecDeque<u8> as TryVecDeque<u8>>::try_with_capacity(0).is_ok());
    assert!(<String as TryString>::try_with_capacity(0).is_ok());
    let mut s = String::from("ab");
    assert!(s.try_push_str("").is_ok());
    assert_eq!(s, "ab");
    assert_eq!(<String as TryString>::try_from_utf8_lossy(&[]).ok().unwrap(), "");
    assert_eq!("".try_to_string().ok().unwrap(), "");
    assert_eq!(String::new().try_clone().ok().unwrap(), "");
    let empty: Vec<u8> = Vec::new();
    assert!(empty.try_clone().ok().unwrap().is_empty());
}

#[test]
fn clone_into_a_longer_target_reuses_it() {
    let target = vec![9u8, 9, 9, 9];
    let copied = vec![1u8, 2].try_clone_into(target).ok().unwrap();
    assert_eq!(copied, vec![1, 2]);
    let text = "hi".try_clone_into(String::from("longer")).ok().unwrap();
    assert_eq!(text, "hi");
}
