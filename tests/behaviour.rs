use generalized_suffix_tree::data::tree_item::Character;
use generalized_suffix_tree::matches::Matches;
use generalized_suffix_tree::suffix_node::Node;
use generalized_suffix_tree::suffix_tree::KGST;
use generalized_suffix_tree::tree_item::TreeItem;
use generalized_suffix_tree::utils::Enode;

fn chars(s: &str) -> Vec<char> {
    s.chars().collect()
}

fn offsets(m: &Matches<String>, label: &str) -> Option<Vec<usize>> {
    m.get(&label.to_string()).map(|v| {
        let mut v = v.clone();
        v.sort();
        v
    })
}

fn two_sequences() -> KGST<char, String> {
    let mut tree: KGST<char, String> = KGST::new('$');
    tree.insert("first".to_string(), chars("GATTACAGATTACAXYZGATTACAGATTACA"), &0);
    tree.insert("second".to_string(), chars("CXYZTTATAGCXYZCGTACAGACCGAA"), &0);
    tree
}

#[test]
fn hello_whole_word() {
    let mut tree: KGST<char, String> = KGST::new('$');
    tree.insert("Hello".to_string(), chars("Hello"), &0);
    let m = tree.substring_match(&chars("Hello"));
    assert_eq!(m.len(), 1);
    assert_eq!(offsets(&m, "Hello"), Some(vec![0]));
}

#[test]
fn shared_xyz_offsets() {
    let tree = two_sequences();
    let m = tree.substring_match(&chars("XYZ"));
    assert_eq!(m.len(), 2);
    assert_eq!(offsets(&m, "first"), Some(vec![14]));
    assert_eq!(offsets(&m, "second"), Some(vec![1, 11]));
}

#[test]
fn gatta_only_in_first() {
    let tree = two_sequences();
    let m = tree.substring_match(&chars("GATTA"));
    assert_eq!(m.len(), 1);
    assert_eq!(offsets(&m, "first"), Some(vec![0, 7, 17, 24]));
    assert_eq!(offsets(&m, "second"), None);
}

#[test]
fn depth_bound_cuts_long_patterns() {
    let mut tree: KGST<char, String> = KGST::new('$');
    tree.insert("alpha".to_string(), chars("abcdefghi"), &3);
    assert!(tree.substring_match(&chars("abcd")).is_empty());
    let m = tree.substring_match(&chars("abc"));
    assert_eq!(offsets(&m, "alpha"), Some(vec![0]));
    let m = tree.substring_match(&chars("ghi"));
    assert_eq!(offsets(&m, "alpha"), Some(vec![6]));
    assert!(tree.substring_match(&chars("cdef")).is_empty());
}

#[test]
fn empty_tree_knows_nothing() {
    let tree: KGST<char, String> = KGST::new('$');
    assert!(!tree.contains(&"anything".to_string()));
    assert!(tree.substring_match(&chars("anything")).is_empty());
    assert!(!tree.is_suffix(&chars("a")));
    assert_eq!(tree.num_nodes(), 1);
}

#[test]
fn every_suffix_is_a_suffix() {
    let mut tree: KGST<char, String> = KGST::new('$');
    let s = chars("mississippi");
    tree.insert("m".to_string(), s.clone(), &0);
    for i in 0..s.len() {
        assert!(tree.is_suffix(&s[i..]));
    }
    assert!(!tree.is_suffix(&chars("issi")));
    assert!(!tree.is_suffix(&chars("x")));
}

#[test]
fn every_stretch_is_found_at_its_offset() {
    let mut tree: KGST<char, String> = KGST::new('$');
    let s = chars("abracadabra");
    tree.insert("abra".to_string(), s.clone(), &0);
    for i in 0..s.len() {
        for j in i + 1..=s.len() {
            let m = tree.substring_match(&s[i..j]);
            assert!(m.contains(&"abra".to_string(), i));
        }
    }
    let m = tree.substring_match(&chars("abra"));
    assert_eq!(offsets(&m, "abra"), Some(vec![0, 7]));
}

#[test]
fn stretch_longer_than_bound_is_not_reported() {
    let mut tree: KGST<char, String> = KGST::new('$');
    tree.insert("short".to_string(), chars("banana"), &2);
    tree.insert("long".to_string(), chars("bandana"), &0);
    let m = tree.substring_match(&chars("ana"));
    assert_eq!(offsets(&m, "short"), None);
    assert_eq!(offsets(&m, "long"), Some(vec![4]));
    let m = tree.substring_match(&chars("an"));
    assert_eq!(offsets(&m, "short"), Some(vec![1, 3]));
    assert_eq!(offsets(&m, "long"), Some(vec![1, 4]));
}

#[test]
fn shared_stretch_reported_for_both() {
    let mut tree: KGST<char, String> = KGST::new('$');
    tree.insert("one".to_string(), chars("xxcatyy"), &0);
    tree.insert("two".to_string(), chars("catzz"), &0);
    let m = tree.substring_match(&chars("cat"));
    assert_eq!(offsets(&m, "one"), Some(vec![2]));
    assert_eq!(offsets(&m, "two"), Some(vec![0]));
}

#[test]
fn clear_leaves_only_the_root() {
    let mut tree = two_sequences();
    assert!(!tree.substring_match(&chars("XYZ")).is_empty());
    assert!(tree.num_nodes() > 1);
    tree.clear();
    assert_eq!(tree.num_nodes(), 1);
    assert!(tree.substring_match(&chars("XYZ")).is_empty());
    assert!(tree.substring_match(&chars("GATTA")).is_empty());
    assert!(!tree.contains(&"first".to_string()));
    tree.insert("again".to_string(), chars("XYZ"), &0);
    assert_eq!(offsets(&tree.substring_match(&chars("XYZ")), "again"), Some(vec![0]));
}

#[test]
fn empty_pattern_matches_nothing() {
    let tree = two_sequences();
    let empty: Vec<char> = Vec::new();
    assert!(tree.substring_match(&empty).is_empty());
}

#[test]
fn pattern_longer_than_everything() {
    let tree = two_sequences();
    let m = tree.substring_match(&chars("GATTACAGATTACAXYZGATTACAGATTACAGATTACA"));
    assert!(m.is_empty());
}

#[test]
fn suffix_match_needs_the_end() {
    let tree = two_sequences();
    let m = tree.suffix_match(&chars("GATTACA"));
    assert_eq!(offsets(&m, "first"), Some(vec![24]));
    assert_eq!(offsets(&m, "second"), None);
    let m = tree.suffix_match(&chars("GAA"));
    assert_eq!(offsets(&m, "second"), Some(vec![24]));
    assert!(tree.suffix_match(&chars("XYZ")).is_empty());
}

#[test]
fn pattern_with_terminator_matches_at_the_end() {
    let tree = two_sequences();
    let m = tree.substring_match(&chars("CA$"));
    assert_eq!(offsets(&m, "first"), Some(vec![29]));
}

#[test]
fn same_label_offsets_are_merged() {
    let mut tree: KGST<char, String> = KGST::new('$');
    tree.insert("dup".to_string(), chars("ab"), &0);
    tree.insert("dup".to_string(), chars("cab"), &0);
    let m = tree.substring_match(&chars("ab"));
    assert_eq!(m.len(), 1);
    assert_eq!(offsets(&m, "dup"), Some(vec![0, 1]));
}

#[test]
fn contains_sees_registered_labels() {
    let tree = two_sequences();
    assert!(tree.contains(&"first".to_string()));
    assert!(tree.contains(&"second".to_string()));
    assert!(!tree.contains(&"third".to_string()));
}

#[test]
fn registry_keeps_terminator_and_bound() {
    let mut tree: KGST<char, String> = KGST::new('#');
    tree.insert("a".to_string(), chars("xyz"), &0);
    tree.insert("b".to_string(), chars("xyz"), &2);
    tree.insert("c".to_string(), chars("xyz"), &10);
    let strings = tree.get_strings();
    assert_eq!(strings.len(), 3);
    assert_eq!(strings[0].0.get_string(), &chars("xyz#"));
    assert_eq!(strings[0].0.get_id(), "a");
    assert_eq!(strings[0].1, 4);
    assert_eq!(strings[1].1, 2);
    assert_eq!(strings[2].1, 4);
}

#[test]
fn node_depth_and_label() {
    let mut tree: KGST<char, String> = KGST::new('$');
    tree.insert("w".to_string(), chars("abab"), &0);
    let ab = tree.get_node_child(&0, &'a').expect("edge ab");
    assert_eq!(tree.get_node_depth(&0), 0);
    assert_eq!(tree.get_node_depth(&ab), 2);
    assert_eq!(tree.get_node_label(&ab), vec!['a', 'b']);
    let abab = tree.get_node_child(&ab, &'a').expect("edge ab$ below ab");
    assert_eq!(tree.get_node_depth(&abab), 5);
    assert_eq!(tree.get_node_label(&abab), vec!['a', 'b', '$']);
    assert_eq!(tree.get_node_parent(&abab), Some(ab));
    assert!(tree.get_node_child(&0, &'z').is_none());
    assert!(tree.get_node_data(&ab).contains(&(0, 0)));
    assert!(tree.get_node_data(&ab).contains(&(0, 2)));
    assert_eq!(tree.get_node_data(&0).len(), 0);
    assert_eq!(tree.root(), 0);
    assert!(tree.is_leaf(&abab));
    assert!(!tree.is_leaf(&ab));
}

#[test]
fn edges_are_compressed() {
    let mut tree: KGST<char, String> = KGST::new('$');
    tree.insert("w".to_string(), chars("abcdefgh"), &0);
    assert_eq!(tree.num_nodes(), 10);
    let a = tree.get_node_child(&0, &'a').unwrap();
    assert_eq!(tree.get_node_label(&a), chars("abcdefgh$"));
}

#[test]
fn truncated_leaf_stops_at_the_bound() {
    let mut tree: KGST<char, String> = KGST::new('$');
    tree.insert("w".to_string(), chars("abcdefgh"), &3);
    let a = tree.get_node_child(&0, &'a').unwrap();
    assert_eq!(tree.get_node_label(&a), chars("abc"));
    assert_eq!(tree.get_node_depth(&a), 3);
}

#[test]
fn walks_cover_every_node() {
    let tree = two_sequences();
    let n = tree.num_nodes();
    let mut pre = tree.iter_nodes_pre();
    let mut seen = vec![false; n];
    let mut count = 0;
    while let Some(x) = pre.next() {
        assert!(!seen[x]);
        seen[x] = true;
        count += 1;
    }
    assert_eq!(count, n);
    let mut post = tree.iter_nodes_post();
    let mut last = None;
    let mut count = 0;
    while let Some(x) = post.next() {
        last = Some(x);
        count += 1;
    }
    assert_eq!(count, n);
    assert_eq!(last, Some(0));
    let mut edges = tree.iter_edges_post();
    let total = edges.len();
    let mut count = 0;
    let mut link_edges = 0;
    while let Some((p, c)) = edges.next() {
        if tree.get_node_parent(&c) != Some(p) && c != 0 {
            assert_eq!(tree.get_suffix_link(&p), c);
            link_edges += 1;
        }
        count += 1;
    }
    assert!(link_edges > 0);
    assert_eq!(count, total);
}

#[test]
fn suffix_links_drop_the_first_symbol() {
    let mut tree: KGST<char, String> = KGST::new('$');
    tree.insert("w".to_string(), chars("abab"), &0);
    let ab = tree.get_node_child(&0, &'a').unwrap();
    let b = tree.get_node_child(&0, &'b').unwrap();
    assert_eq!(tree.get_node_label(&ab), vec!['a', 'b']);
    assert_eq!(tree.get_node_label(&b), vec!['b']);
    assert_eq!(tree.get_suffix_link(&ab), b);
    assert_eq!(tree.get_suffix_link(&b), 0);
    assert_eq!(tree.get_suffix_link(&0), 0);
}

#[test]
fn pre_order_follows_label_order() {
    let mut tree: KGST<char, String> = KGST::new('$');
    tree.insert("w".to_string(), chars("cab"), &0);
    let c = tree.get_node_child(&0, &'c').unwrap();
    let a = tree.get_node_child(&0, &'a').unwrap();
    let b = tree.get_node_child(&0, &'b').unwrap();
    let dollar = tree.get_node_child(&0, &'$').unwrap();
    let mut pre = tree.iter_nodes_pre();
    let mut order = Vec::new();
    while let Some(x) = pre.next() {
        order.push(x);
    }
    assert_eq!(order, vec![0, dollar, a, b, c]);
    let mut post = tree.iter_nodes_post();
    let mut order = Vec::new();
    while let Some(x) = post.next() {
        order.push(x);
    }
    assert_eq!(order, vec![dollar, a, b, c, 0]);
}

#[test]
fn terminator_sorts_first() {
    let t: Character<char> = Character::Terminal;
    let a: Character<char> = Character::Char('a');
    let b: Character<char> = Character::Char('b');
    assert_eq!(t.partial_cmp(&a), Some(std::cmp::Ordering::Less));
    assert_eq!(a.partial_cmp(&t), Some(std::cmp::Ordering::Greater));
    assert_eq!(a.partial_cmp(&b), Some(std::cmp::Ordering::Less));
    assert_eq!(b.partial_cmp(&a), Some(std::cmp::Ordering::Greater));
    assert_eq!(t.partial_cmp(&t), Some(std::cmp::Ordering::Equal));
    assert_eq!(a.partial_cmp(&a), Some(std::cmp::Ordering::Equal));
}

#[test]
fn euler_walk_returns_to_parent() {
    let mut tree: KGST<char, String> = KGST::new('$');
    tree.insert("w".to_string(), chars("abab"), &0);
    let mut walk = generalized_suffix_tree::iter::node_iter::EulerWalk::new(&0, tree.get_nodes());
    let mut visits = Vec::new();
    while let Some(x) = walk.next() {
        visits.push(x);
    }
    assert_eq!(visits.len(), 2 * tree.num_nodes() - 1);
    assert_eq!(visits[0], 0);
    assert_eq!(*visits.last().unwrap(), 0);
}

#[test]
fn plain_records() {
    let item: TreeItem<u8, u64> = TreeItem::new(7, vec![1, 2, 3]);
    assert_eq!(item.get_id(), &7);
    assert_eq!(item.get_string(), &vec![1, 2, 3]);
    let c: Character<u8> = Character::Char(5);
    assert!(!c.is_terminal());
    assert_eq!(c.into_inner(), Some(&5));
    let t: Character<u8> = Character::Terminal;
    assert!(t.is_terminal());
    assert_eq!(t.into_inner(), None);
    let node: Node<u8> = Node::new(vec![(1, 2)], Some(0), Some(0), 1, 3);
    assert_eq!(node.get_start(), 3);
    assert!(node.has_children());
    assert_eq!(node.get_child(&1), Some(2));
    assert_eq!(node.get_child(&9), None);
    let e: Enode<char, usize> = Enode::new(vec![('a', 1)], vec![4], Some(2), 9);
    assert_eq!(e.node_id, 9);
    assert_eq!(e.slink, Some(2));
}

#[test]
fn byte_symbols_work_too() {
    let mut tree: KGST<u8, usize> = KGST::new(0);
    tree.insert(10, b"hello".to_vec(), &0);
    tree.insert(20, b"yellow".to_vec(), &0);
    let m = tree.substring_match(b"ello");
    assert!(m.contains(&10, 1));
    assert!(m.contains(&20, 1));
    assert!(!m.contains(&10, 0));
}

#[test]
fn hello_has_eight_nodes() {
    let mut tree: KGST<char, String> = KGST::new('$');
    tree.insert("Hello".to_string(), chars("Hello"), &0);
    assert_eq!(tree.num_nodes(), 8);
    let l = tree.get_node_child(&0, &'l').unwrap();
    assert_eq!(tree.get_node_label(&l), vec!['l']);
    assert_eq!(tree.get_node(&l).get_children().len(), 2);
}

#[test]
fn string_nodes_cover_each_path() {
    let mut tree: KGST<char, String> = KGST::new('$');
    tree.insert("one".to_string(), chars("ab"), &0);
    tree.insert("two".to_string(), chars("cb"), &0);
    let b = tree.get_node_child(&0, &'b').unwrap();
    let a = tree.get_node_child(&0, &'a').unwrap();
    let c = tree.get_node_child(&0, &'c').unwrap();
    let first = tree.get_string_nodes(&0);
    let second = tree.get_string_nodes(&1);
    assert_eq!(first[0], 0);
    assert!(first.contains(&a) && first.contains(&b) && !first.contains(&c));
    assert!(second.contains(&c) && second.contains(&b) && !second.contains(&a));
    assert!(first.windows(2).all(|w| w[0] < w[1]));
}

#[test]
fn every_link_source_is_listed() {
    let mut tree: KGST<char, String> = KGST::new('$');
    tree.insert("w".to_string(), chars("abab"), &0);
    let ab = tree.get_node_child(&0, &'a').unwrap();
    let b = tree.get_node_child(&0, &'b').unwrap();
    let mut edges = tree.iter_edges_post();
    let mut found = false;
    while let Some(e) = edges.next() {
        if e == (ab, b) {
            found = true;
        }
    }
    assert!(found);
}

#[test]
fn root_yields_no_tree_edge() {
    let tree: KGST<char, String> = KGST::new('$');
    let mut edges = tree.iter_edges_post();
    assert_eq!(edges.len(), 0);
    assert_eq!(edges.next(), None);
    let mut tree: KGST<char, String> = KGST::new('$');
    tree.insert("w".to_string(), chars("ab"), &0);
    let mut edges = tree.iter_edges_post();
    let total = edges.len();
    let mut all = Vec::new();
    while let Some(e) = edges.next() {
        all.push(e);
    }
    assert!(all.iter().all(|e| e.1 != 0));
    assert_eq!(all.len(), total);
    let tree_edges = all.iter().filter(|e| tree.get_node_parent(&e.1) == Some(e.0)).count();
    assert_eq!(tree_edges, tree.num_nodes() - 1);
}
