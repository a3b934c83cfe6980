use grizol::outgoing_requests::{OutgoingRequests, MAX_TIME_IN_QUEUE};
use grizol::syncthing::Request;

fn request(id: i32, name: &str, offset: i64, size: i32) -> Request {
    Request {
        id,
        folder: "folder".to_string(),
        name: name.to_string(),
        offset,
        size,
        hash: vec![id as u8; 32],
        from_temporary: false,
    }
}

#[test]
fn a_request_that_was_put_in_is_found() {
    let mut queue = OutgoingRequests::default();
    assert!(queue.get(&1).is_none());
    assert!(queue.insert(1, request(1, "a", 0, 10)).is_some());
    assert_eq!(queue.get(&1), Some(&request(1, "a", 0, 10)));
    assert!(!queue.is_pending(&1));
}

#[test]
fn a_request_is_put_in_once() {
    let mut queue = OutgoingRequests::default();
    assert!(queue.insert(1, request(1, "a", 0, 10)).is_some());
    let mut again = request(1, "a", 0, 10);
    again.id = 2;
    assert!(queue.insert(2, again).is_none());
    assert!(queue.get(&2).is_none());
}

#[test]
fn as_many_requests_are_sent_as_may_be_pending() {
    let mut queue = OutgoingRequests::default();
    for i in 0..5 {
        queue.insert(i, request(i, "a", i as i64 * 10, 10));
    }
    assert_eq!(queue.update_pending_requests(2, 1000).len(), 2);
    assert_eq!(queue.update_pending_requests(2, 1000).len(), 0);
    assert_eq!(queue.update_pending_requests(4, 1000).len(), 2);
    let pending: Vec<i32> = (0..5).filter(|i| queue.is_pending(i)).collect();
    assert_eq!(pending.len(), 4);
    assert!(queue.remove(&pending[0]).is_some());
    assert!(queue.get(&pending[0]).is_none());
    assert_eq!(queue.update_pending_requests(4, 1000).len(), 1);
}

#[test]
fn no_more_is_asked_for_than_there_is_room_for() {
    let mut queue = OutgoingRequests::default();
    for i in 0..5 {
        queue.insert(i, request(i, "a", i as i64 * 10, 10));
    }
    assert_eq!(queue.update_pending_requests(100, 35).len(), 3);
    assert_eq!(queue.update_pending_requests(100, 39).len(), 0);
    assert_eq!(queue.update_pending_requests(100, 40).len(), 1);
}

#[test]
fn ten_files_are_asked_for_at_a_time() {
    let mut queue = OutgoingRequests::default();
    for i in 0..12 {
        queue.insert(i, request(i, &format!("file{:02}", i), 0, 1));
    }
    assert_eq!(queue.update_pending_requests(100, 1000).len(), 10);
}

#[test]
fn requests_that_waited_too_long_are_dropped() {
    let mut queue = OutgoingRequests::default();
    queue.insert_at(1, request(1, "a", 0, 1), 0);
    queue.insert_at(2, request(2, "b", 0, 1), 5);
    queue.remove_old_requests_at(MAX_TIME_IN_QUEUE);
    assert!(queue.get(&1).is_some());
    queue.remove_old_requests_at(MAX_TIME_IN_QUEUE + 1);
    assert!(queue.get(&1).is_none());
    assert!(queue.get(&2).is_some());
    assert!(queue.insert(3, request(1, "a", 0, 1)).is_some());
    queue.remove_old_requests();
    assert!(queue.get(&2).is_some());
}

#[test]
fn a_request_that_is_not_there_is_not_removed() {
    let mut queue = OutgoingRequests::default();
    assert!(queue.remove(&9).is_none());
}

#[test]
fn nothing_is_sent_where_more_is_pending_than_allowed() {
    let mut queue = OutgoingRequests::default();
    queue.insert(1, request(1, "a", 0, 1));
    queue.insert(2, request(2, "b", 0, 1));
    queue.insert(3, request(3, "c", 0, 1));
    let sent = queue.update_pending_requests(2, 100);
    assert_eq!(sent, vec![request(1, "a", 0, 1), request(2, "b", 0, 1)]);
    assert_eq!(queue.update_pending_requests(1, 100), vec![]);
    assert_eq!(queue.update_pending_requests(0, 100), vec![]);
    assert!(queue.is_pending(&1) && queue.is_pending(&2) && !queue.is_pending(&3));
}

#[test]
fn a_removed_request_can_be_put_in_again() {
    let mut queue = OutgoingRequests::default();
    queue.insert(1, request(1, "a", 0, 10));
    queue.insert(2, request(2, "b", 0, 10));
    assert_eq!(queue.update_pending_requests(1, 10).len(), 1);
    assert_eq!(queue.remove(&1), Some(request(1, "a", 0, 10)));
    assert!(queue.get(&2).is_some());
    assert!(queue.insert(4, request(1, "a", 0, 10)).is_some());
    assert_eq!(queue.update_pending_requests(1, 10), vec![request(1, "a", 0, 10)]);
}

#[test]
fn requests_are_sent_in_order() {
    let mut queue = OutgoingRequests::default();
    queue.insert(1, request(1, "b", 10, 1));
    queue.insert(2, request(2, "c", 0, 1));
    queue.insert(3, request(3, "b", 0, 1));
    queue.insert(4, request(4, "a", 0, 1));
    let ids: Vec<i32> = queue.update_pending_requests(10, 100).iter().map(|r| r.id).collect();
    assert_eq!(ids, vec![4, 3, 1, 2]);
}
