use chksum_core::{hash, sort_order, Action, Digest, Error, Event, Md5, Md5Digest, Traversal};

/// A file system held in memory: a file is a list of chunks, as reads would
/// return them.
enum Node {
    File { chunks: Vec<Vec<u8>>, terminal: bool },
    Dir(Vec<(Vec<u8>, Node)>),
    Broken,
}

fn file(chunks: &[&str]) -> Node {
    Node::File { chunks: chunks.iter().map(|c| c.as_bytes().to_vec()).collect(), terminal: false }
}

fn dir(entries: Vec<(&str, Node)>) -> Node {
    Node::Dir(entries.into_iter().map(|(n, node)| (n.as_bytes().to_vec(), node)).collect())
}

struct Outcome {
    result: Result<Md5Digest, Error>,
    reads: usize,
    inspected: Vec<Vec<u8>>,
}

/// Performs each action that the traversal asks for against `root`.
fn drive(root: &Node, stream: bool) -> Outcome {
    let mut h = chksum_core::default::<Md5>();
    let (mut t, mut action) = if stream { Traversal::for_stream() } else { Traversal::for_path() };
    let mut listings: Vec<&Vec<(Vec<u8>, Node)>> = Vec::new();
    let mut current: &Node = root;
    let mut next_chunk = 0usize;
    let mut reads = 0usize;
    let mut inspected = Vec::new();
    loop {
        let event = match action {
            Action::Finish(r) => {
                assert!(t.is_done());
                let result = r.map(|()| chksum_core::Hash::digest(&h));
                return Outcome { result, reads, inspected };
            }
            Action::Inspect(None) => {
                current = root;
                match current {
                    Node::Broken => Event::Failed(std::io::Error::new(std::io::ErrorKind::NotFound, "gone")),
                    Node::Dir(_) => Event::Kind { is_dir: true },
                    Node::File { .. } => Event::Kind { is_dir: false },
                }
            }
            Action::Inspect(Some(i)) => {
                let (name, node) = &listings.last().unwrap()[i];
                inspected.push(name.clone());
                current = node;
                match current {
                    Node::Broken => Event::Failed(std::io::Error::new(std::io::ErrorKind::NotFound, "gone")),
                    Node::Dir(_) => Event::Kind { is_dir: true },
                    Node::File { .. } => Event::Kind { is_dir: false },
                }
            }
            Action::List => match current {
                Node::Dir(entries) => {
                    listings.push(entries);
                    Event::Listed(entries.iter().map(|(n, _)| n.clone()).collect())
                }
                _ => unreachable!(),
            },
            Action::Open => {
                next_chunk = 0;
                match current {
                    Node::File { terminal, .. } => Event::Opened { is_terminal: *terminal },
                    _ => unreachable!(),
                }
            }
            Action::Read => {
                reads += 1;
                match current {
                    Node::File { chunks, .. } => {
                        let c = chunks.get(next_chunk).cloned().unwrap_or_default();
                        next_chunk += 1;
                        Event::Chunk(c)
                    }
                    _ => unreachable!(),
                }
            }
            Action::Leave => {
                listings.pop();
                Event::Left
            }
        };
        assert!(t.expects(&event));
        action = t.step(&mut h, event);
    }
}

fn md5(data: &str) -> Md5Digest {
    hash::<Md5, _>(data.as_bytes().to_vec())
}

#[test]
fn chunked_file_equals_hash_of_whole_content() {
    let whole = "The quick brown fox jumps over the lazy dog";
    let one = drive(&file(&[whole]), false);
    let three = drive(&file(&["The quick ", "brown fox", " jumps over the lazy dog"]), false);
    let bytes = drive(&file(&whole.split_inclusive(|_| true).collect::<Vec<_>>()), false);
    let expected = md5(whole);
    assert_eq!(expected.to_hex_lowercase(), "9e107d9d372bb6826bd81d3542a419d6");
    assert_eq!(one.result.unwrap(), expected);
    assert_eq!(three.result.unwrap(), expected);
    assert_eq!(bytes.result.unwrap(), expected);
}

#[test]
fn directory_digest_ignores_enumeration_order() {
    let first = drive(&dir(vec![("b.txt", file(&["B"])), ("a.txt", file(&["A"]))]), false);
    let second = drive(&dir(vec![("a.txt", file(&["A"])), ("b.txt", file(&["B"]))]), false);
    assert_eq!(first.inspected, vec![b"a.txt".to_vec(), b"b.txt".to_vec()]);
    assert_eq!(second.inspected, vec![b"a.txt".to_vec(), b"b.txt".to_vec()]);
    let expected = md5("AB");
    assert_eq!(first.result.unwrap(), expected);
    assert_eq!(second.result.unwrap(), expected);
}

#[test]
fn subdirectory_is_folded_in_at_its_sorted_place() {
    let tree = dir(vec![
        ("z.txt", file(&["Z"])),
        ("sub", dir(vec![("y", file(&["Y"])), ("x", file(&["X"]))])),
        ("a", file(&["A"])),
    ]);
    let out = drive(&tree, false);
    let names: Vec<Vec<u8>> = ["a", "sub", "x", "y", "z.txt"].iter().map(|n| n.as_bytes().to_vec()).collect();
    assert_eq!(out.inspected, names);
    assert_eq!(out.result.unwrap(), md5("AXYZ"));
}

#[test]
fn terminal_input_is_rejected_without_reading() {
    let tty = Node::File { chunks: vec![b"typed".to_vec()], terminal: true };
    let as_path = drive(&tty, false);
    assert!(matches!(as_path.result, Err(Error::IsTerminal)));
    assert_eq!(as_path.reads, 0);
    let as_stream = drive(&tty, true);
    assert!(matches!(as_stream.result, Err(Error::IsTerminal)));
    assert_eq!(as_stream.reads, 0);
}

#[test]
fn terminal_inside_a_directory_aborts_the_walk() {
    let tree = dir(vec![
        ("a", file(&["A"])),
        ("b", Node::File { chunks: vec![], terminal: true }),
        ("c", file(&["C"])),
    ]);
    let out = drive(&tree, false);
    assert!(matches!(out.result, Err(Error::IsTerminal)));
    assert_eq!(out.inspected, vec![b"a".to_vec(), b"b".to_vec()]);
}

#[test]
fn empty_file_has_the_empty_buffer_digest() {
    let out = drive(&file(&[]), false);
    let empty = hash::<Md5, _>(Vec::<u8>::new());
    assert_eq!(out.result.unwrap(), empty);
    assert_eq!(empty.to_hex_lowercase(), "d41d8cd98f00b204e9800998ecf8427e");
    assert_eq!(out.reads, 1);
    let stream = drive(&file(&[]), true);
    assert_eq!(stream.result.unwrap(), empty);
}

#[test]
fn empty_directory_has_the_empty_buffer_digest() {
    let out = drive(&dir(vec![]), false);
    assert_eq!(out.result.unwrap(), hash::<Md5, _>(Vec::<u8>::new()));
}

#[test]
fn stream_is_read_to_its_end() {
    let out = drive(&file(&["ab", "c"]), true);
    assert_eq!(out.result.unwrap().to_hex_lowercase(), "900150983cd24fb0d6963f7d28e17f72");
    assert_eq!(out.reads, 3);
}

#[test]
fn io_failure_stops_the_walk() {
    let tree = dir(vec![("a", file(&["A"])), ("b", Node::Broken), ("c", file(&["C"]))]);
    let out = drive(&tree, false);
    match out.result {
        Err(Error::Io(e)) => assert_eq!(e.kind(), std::io::ErrorKind::NotFound),
        _ => panic!("expected an I/O error"),
    }
    assert_eq!(out.inspected, vec![b"a".to_vec(), b"b".to_vec()]);
    assert!(matches!(drive(&Node::Broken, false).result, Err(Error::Io(_))));
}

#[test]
fn events_that_do_not_answer_are_not_expected() {
    let (t, action) = Traversal::for_path();
    assert!(matches!(action, Action::Inspect(None)));
    assert!(!t.expects(&Event::Chunk(vec![1])));
    assert!(!t.expects(&Event::Left));
    assert!(t.expects(&Event::Kind { is_dir: false }));
    let (s, action) = Traversal::for_stream();
    assert!(matches!(action, Action::Open));
    assert!(s.expects(&Event::Opened { is_terminal: false }));
    assert!(!s.expects(&Event::Listed(vec![])));
    assert!(!s.is_done());
}

#[test]
fn sort_order_ranks_names_bytewise() {
    let names: Vec<Vec<u8>> = ["b.txt", "a.txt", "a", "B", "ab"].iter().map(|n| n.as_bytes().to_vec()).collect();
    assert_eq!(sort_order(&names), vec![3, 2, 1, 4, 0]);
    assert_eq!(sort_order(&Vec::new()), Vec::<usize>::new());
}
