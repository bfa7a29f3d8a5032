use peta::reader::{Reader, Step};
use peta::request::Request;
use peta::router::{split_segments, uri_path, Node, Router};

fn request_for(head: &[u8]) -> Request<u32> {
    let mut reader: Reader<u32> = Reader::new();
    let mut req: Request<u32> = Request::new();
    reader.receive(head);
    assert!(matches!(reader.step(&mut req), Ok(Step::Route)));
    req
}

#[test]
fn segments_skip_empty_pieces() {
    let segs = split_segments(b"/a//b/");
    assert_eq!(segs, vec![b"a".to_vec(), b"b".to_vec()]);
    assert!(split_segments(b"/").is_empty());
    assert!(split_segments(b"").is_empty());
}

#[test]
fn path_stops_at_query() {
    assert_eq!(uri_path(b"/a/b?x=1"), b"/a/b");
    assert_eq!(uri_path(b"/plain"), b"/plain");
    assert_eq!(uri_path(b"?only"), b"");
}

#[test]
fn fresh_request_routes_to_root() {
    let mut router: Router<u32> = Router::new();
    router.add("GET", "/", 1);
    let req: Request<u32> = Request::new();
    assert_eq!(router.find(&req), Some(&1));
}

#[test]
fn add_then_find() {
    let mut router: Router<u32> = Router::new();
    router.add("GET", "/", 1);
    router.add("GET", "/a/b", 2);
    router.add("POST", "/a/c", 3);
    assert_eq!(router.find(&request_for(b"GET / HTTP/1.1\r\n\r\n")), Some(&1));
    assert_eq!(router.find(&request_for(b"GET /a/b HTTP/1.1\r\n\r\n")), Some(&2));
    assert_eq!(router.find(&request_for(b"GET /a//b/?x=1 HTTP/1.1\r\n\r\n")), Some(&2));
    assert_eq!(router.find(&request_for(b"GET /a/c HTTP/1.1\r\n\r\n")), Some(&3));
    assert_eq!(router.find(&request_for(b"GET /a HTTP/1.1\r\n\r\n")), None);
    assert_eq!(router.find(&request_for(b"GET /a/b/c HTTP/1.1\r\n\r\n")), None);
    assert_eq!(router.find(&request_for(b"GET /zzz HTTP/1.1\r\n\r\n")), None);
}

#[test]
fn later_add_replaces_handler() {
    let mut router: Router<u32> = Router::new();
    router.add("GET", "/x", 1);
    router.add("GET", "/x/", 2);
    assert_eq!(router.find(&request_for(b"GET /x HTTP/1.1\r\n\r\n")), Some(&2));
}

#[test]
fn empty_router_finds_nothing() {
    let router: Router<u32> = Router::new();
    assert_eq!(router.find(&request_for(b"GET / HTTP/1.1\r\n\r\n")), None);
}

#[test]
fn node_add_child_keeps_existing_child() {
    let mut node: Node<u32> = Node::new();
    assert_eq!(node.add_child(b"a", 5), 5);
    assert_eq!(node.add_child(b"a", 9), 5);
    assert_eq!(node.add_child(b"b", 9), 9);
}

#[test]
fn shared_prefixes() {
    let mut router: Router<u32> = Router::new();
    router.add("GET", "/a/b", 1);
    router.add("GET", "/a", 2);
    router.add("GET", "/a/b/c", 3);
    assert_eq!(router.find(&request_for(b"GET /a/b HTTP/1.1\r\n\r\n")), Some(&1));
    assert_eq!(router.find(&request_for(b"GET /a HTTP/1.1\r\n\r\n")), Some(&2));
    assert_eq!(router.find(&request_for(b"GET /a/b/c HTTP/1.1\r\n\r\n")), Some(&3));
}
