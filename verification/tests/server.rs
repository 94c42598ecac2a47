use yaskkserv2::server::{ConnectionSlots, Server};

#[test]
fn get_empty_sockets_index_goes_round_test() {
    let is_free = [true, false, false, true, false];
    assert_eq!(Server::get_empty_sockets_index(&is_free, 5, 0), 3);
    assert_eq!(Server::get_empty_sockets_index(&is_free, 5, 3), 0);
    assert_eq!(Server::get_empty_sockets_index(&is_free, 5, 4), 0);
    let only_self = [false, true, false];
    assert_eq!(Server::get_empty_sockets_index(&only_self, 3, 1), 1);
}

#[test]
fn connection_slots_accept_until_full_test() {
    let mut slots = ConnectionSlots::new(3);
    assert_eq!(slots.len(), 3);
    assert_eq!(slots.accept(), Some(0));
    assert_eq!(slots.accept(), Some(1));
    assert_eq!(slots.accept(), Some(2));
    assert!(slots.is_taken(0) && slots.is_taken(1) && slots.is_taken(2));
    assert_eq!(slots.accept(), None);
    assert_eq!(slots.accept(), None);
}

#[test]
fn connection_slots_release_is_taken_next_test() {
    let mut slots = ConnectionSlots::new(4);
    assert_eq!(slots.accept(), Some(0));
    assert_eq!(slots.accept(), Some(1));
    assert_eq!(slots.accept(), Some(2));
    slots.release(1);
    assert!(!slots.is_taken(1));
    assert_eq!(slots.accept(), Some(1));
    assert_eq!(slots.accept(), Some(3));
    assert_eq!(slots.accept(), None);
    slots.release(0);
    slots.release(2);
    assert_eq!(slots.accept(), Some(2));
    assert_eq!(slots.accept(), Some(0));
    assert_eq!(slots.accept(), None);
}

#[test]
fn connection_slots_none_test() {
    let mut slots = ConnectionSlots::new(0);
    assert_eq!(slots.len(), 0);
    assert_eq!(slots.accept(), None);
    assert!(!slots.is_taken(0));
}

#[test]
fn request_end_test() {
    assert_eq!(Server::request_end(b"1abc 1def "), Some(5));
    assert_eq!(Server::request_end(b"\r\n2"), Some(3));
    assert_eq!(Server::request_end(b"\n0xyz"), Some(2));
    assert_eq!(Server::request_end(b"1ab"), None);
    assert_eq!(Server::request_end(b""), None);
}
