use std::collections::BTreeMap;

use imgsort::discovery::{is_image, is_image_name, is_image_type, Entry, Request, Walk, IMAGE_CAP};

const PNG: [u8; 8] = [0x89, 0x50, 0x4E, 0x47, 0x0D, 0x0A, 0x1A, 0x0A];
const JPEG: [u8; 4] = [0xFF, 0xD8, 0xFF, 0xE0];

enum Node {
    Dir(Vec<String>),
    File(Vec<u8>),
}

struct Tree {
    nodes: BTreeMap<String, Node>,
}

impl Tree {
    fn new() -> Tree {
        Tree { nodes: BTreeMap::new() }
    }

    fn dir(&mut self, path: &str, children: &[&str]) {
        let names = children.iter().map(|c| c.to_string()).collect();
        self.nodes.insert(path.to_string(), Node::Dir(names));
    }

    fn file(&mut self, path: &str, bytes: &[u8]) {
        self.nodes.insert(path.to_string(), Node::File(bytes.to_vec()));
    }

    fn walk(&self, root: &str, recurse: bool) -> Vec<String> {
        let mut walk = Walk::new(root.to_string(), recurse);
        let mut req = walk.request();
        loop {
            req = match req {
                Request::List(p) => {
                    let entries = match self.nodes.get(&p) {
                        Some(Node::Dir(names)) => Some(
                            names
                                .iter()
                                .map(|n| {
                                    let path = format!("{}/{}", p, n);
                                    let is_dir = matches!(self.nodes.get(&path), Some(Node::Dir(_)));
                                    Entry { path, is_dir }
                                })
                                .collect(),
                        ),
                        _ => None,
                    };
                    walk.listed(entries)
                }
                Request::Sniff(p) => {
                    let head = match self.nodes.get(&p) {
                        Some(Node::File(b)) => Some(b.clone()),
                        _ => None,
                    };
                    walk.sniffed(head)
                }
                Request::Done => break,
            };
        }
        walk.images
    }
}

#[test]
fn content_and_extension_both_decide() {
    let mut t = Tree::new();
    t.dir("/r", &["a.png", "b.png", "c.txt"]);
    t.file("/r/a.png", &PNG);
    t.file("/r/b.png", b"just some text");
    t.file("/r/c.txt", &PNG);
    assert_eq!(t.walk("/r", false), vec!["/r/a.png".to_string()]);
}

#[test]
fn walk_stops_at_the_cap() {
    let mut t = Tree::new();
    let subs: Vec<String> = (0..6).map(|i| format!("s{}", i)).collect();
    let sub_refs: Vec<&str> = subs.iter().map(|s| s.as_str()).collect();
    t.dir("/r", &sub_refs);
    for s in &subs {
        let inner = format!("/r/{}/deeper", s);
        t.dir(&format!("/r/{}", s), &["deeper"]);
        let names: Vec<String> = (0..100).map(|i| format!("img{}.png", i)).collect();
        let refs: Vec<&str> = names.iter().map(|n| n.as_str()).collect();
        t.dir(&inner, &refs);
        for n in &names {
            t.file(&format!("{}/{}", inner, n), &PNG);
        }
    }
    let found = t.walk("/r", true);
    assert_eq!(found.len(), 500);
    assert_eq!(IMAGE_CAP, 500);
    assert_eq!(found[0], "/r/s0/deeper/img0.png");
}

#[test]
fn root_subdirectories_are_walked_without_recursion() {
    let mut t = Tree::new();
    t.dir("/r", &["x.jpg", "sub"]);
    t.file("/r/x.jpg", &JPEG);
    t.dir("/r/sub", &["y.jpeg", "deep"]);
    t.file("/r/sub/y.jpeg", &JPEG);
    t.dir("/r/sub/deep", &["z.png"]);
    t.file("/r/sub/deep/z.png", &PNG);
    assert_eq!(
        t.walk("/r", false),
        vec!["/r/x.jpg".to_string(), "/r/sub/y.jpeg".to_string()]
    );
    assert_eq!(
        t.walk("/r", true),
        vec![
            "/r/x.jpg".to_string(),
            "/r/sub/y.jpeg".to_string(),
            "/r/sub/deep/z.png".to_string()
        ]
    );
}

#[test]
fn unreadable_root_and_files_are_passed_over() {
    let mut t = Tree::new();
    assert!(t.walk("/missing", true).is_empty());
    t.dir("/r", &["gone.png", "ok.png"]);
    t.file("/r/ok.png", &PNG);
    assert_eq!(t.walk("/r", true), vec!["/r/ok.png".to_string()]);
}

#[test]
fn extension_matching_is_exact() {
    assert!(is_image_name("/a/b.png"));
    assert!(is_image_name("b.jpg"));
    assert!(is_image_name("dir.d/b.jpeg"));
    assert!(!is_image_name("b.PNG"));
    assert!(!is_image_name("/a/.png"));
    assert!(!is_image_name("/a/png"));
    assert!(!is_image_name("/a.png/b"));
    assert!(!is_image_name("b.png.txt"));
}

#[test]
fn mime_types_that_count() {
    assert!(is_image_type(&Some("image/png".to_string())));
    assert!(is_image_type(&Some("image/jpeg".to_string())));
    assert!(!is_image_type(&Some("image/gif".to_string())));
    assert!(!is_image_type(&None));
}

#[test]
fn sniffing_reads_the_bytes() {
    assert!(is_image("a.png", &PNG.to_vec()));
    assert!(is_image("a.jpg", &JPEG.to_vec()));
    assert!(!is_image("a.png", &b"GIF89a".to_vec()));
    assert!(!is_image("a.png", &Vec::new()));
    assert!(!is_image("a.txt", &PNG.to_vec()));
}

#[test]
fn roots_join_in_order_without_repeats() {
    let per_root = vec![
        vec!["/a/1.png".to_string(), "/a/2.png".to_string()],
        vec![],
        vec!["/b/3.jpg".to_string(), "/a/1.png".to_string(), "/b/3.jpg".to_string()],
    ];
    assert_eq!(
        imgsort::discovery::join_roots(per_root),
        vec!["/a/1.png".to_string(), "/a/2.png".to_string(), "/b/3.jpg".to_string()]
    );
    assert!(imgsort::discovery::join_roots(vec![]).is_empty());
}
