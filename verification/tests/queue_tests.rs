use zhtta::queue::{is_priority_peer, HttpRequest, RequestQueue};

fn req(peer: &str, path: &str, size: u64) -> HttpRequest {
    HttpRequest { peer_name: peer.as_bytes().to_vec(), path: path.as_bytes().to_vec(), size }
}

#[test]
fn priority_prefixes() {
    assert!(is_priority_peer(b"128.143.20.1:5000"));
    assert!(is_priority_peer(b"137.54.1.1:80"));
    assert!(!is_priority_peer(b"137.541.1.1:80"));
    assert!(!is_priority_peer(b"127.0.0.1:80"));
}

#[test]
fn priority_first_then_newest_ordinary_first() {
    let mut q = RequestQueue::new();
    q.enqueue(req("10.0.0.1:1", "/n1", 10));
    q.enqueue(req("10.0.0.2:2", "/n2", 1));
    q.enqueue(req("128.143.0.1:5", "/p1", 7));
    q.enqueue(req("137.54.0.2:6", "/p2", 7));
    q.enqueue(req("10.0.0.3:3", "/n3", 1000));
    assert_eq!(q.len(), 5);
    let mut order = Vec::new();
    while let Some(r) = q.dequeue() {
        order.push(String::from_utf8(r.path).unwrap());
    }
    assert_eq!(order, vec!["/p1", "/p2", "/n3", "/n2", "/n1"]);
    assert_eq!(q.len(), 0);
}

#[test]
fn enqueue_then_dequeue_round_trip() {
    let mut q = RequestQueue::new();
    q.enqueue(req("128.143.9.9:9", "/only", 3));
    let r = q.dequeue().unwrap();
    assert_eq!(r.path, b"/only".to_vec());
    assert_eq!(r.peer_name, b"128.143.9.9:9".to_vec());
    assert_eq!(r.size, 3);
    assert!(q.dequeue().is_none());
}

#[test]
fn priority_count_drops_as_priority_requests_leave() {
    let mut q = RequestQueue::new();
    q.enqueue(req("128.143.0.1:5", "/p1", 1));
    q.enqueue(req("10.0.0.1:1", "/n1", 1));
    assert_eq!(q.dequeue().unwrap().path, b"/p1".to_vec());
    // With no priority request left, a new ordinary one goes to the front.
    q.enqueue(req("10.0.0.2:2", "/n2", 1));
    assert_eq!(q.dequeue().unwrap().path, b"/n2".to_vec());
    // A new priority request goes ahead of the ordinary ones.
    q.enqueue(req("137.54.0.2:6", "/p2", 1));
    assert_eq!(q.dequeue().unwrap().path, b"/p2".to_vec());
    assert_eq!(q.dequeue().unwrap().path, b"/n1".to_vec());
}
