use algolib::bellman_ford::bellman_ford;
use algolib::bellman_ford::INF;
use algolib::eratosthenes::Erathosthenes;
use algolib::floyd_warshall::floyd_warshall;
use algolib::trie_node::TrieNode;
use algolib::trie_tree::TrieTree;

#[test]
fn trie_counts_prefixes() {
    let mut t = TrieTree::new();
    t.insert(b"abc".to_vec());
    t.insert(b"abd".to_vec());
    t.insert(b"ab".to_vec());
    t.insert(b"xyz".to_vec());
    // along "ab": node a has pass 3, node b has pass 2 and stop 1
    assert_eq!(t.n_match(&b"ab".to_vec()), 3 + 3);
    // along "abc": adds node c with stop 1
    assert_eq!(t.n_match(&b"abc".to_vec()), 3 + 3 + 1);
    // missing edge stops the count
    assert_eq!(t.n_match(&b"aq".to_vec()), 3);
    assert_eq!(t.n_match(&b"q".to_vec()), 0);
    assert_eq!(t.n_match(&b"".to_vec()), 0);
}

#[test]
fn trie_node_operations() {
    let mut n = TrieNode::new();
    assert_eq!(n.n_pass(), 0);
    assert_eq!(n.n_stop(), 0);
    assert!(!n.contains_key(&7));
    assert!(n.get(&7).is_none());
    assert!(n.add_new_if_not(&7));
    assert!(!n.add_new_if_not(&7));
    assert!(n.contains_key(&7));
    assert!(n.get(&7).is_some());
    n.pass();
    n.pass();
    n.stop();
    assert_eq!(n.n_pass(), 2);
    assert_eq!(n.n_stop(), 1);
}

#[test]
fn bellman_ford_distances() {
    // 0 -> 1 (4), 0 -> 2 (1), 2 -> 1 (2), 1 -> 3 (1)
    let edges = vec![(0usize, 1usize, 4i64), (0, 2, 1), (2, 1, 2), (1, 3, 1)];
    let d = bellman_ford(4, 0, &edges, true);
    assert_eq!(d[0], 0);
    assert_eq!(d[1], 3);
    assert_eq!(d[2], 1);
    assert_eq!(d[3], 4);
    let d = bellman_ford(5, 0, &edges, true);
    assert_eq!(d[4], INF);
    // undirected: distances shrink through back edges
    let d = bellman_ford(4, 3, &edges, false);
    assert_eq!(d[3], 0);
    assert_eq!(d[1], 1);
    assert_eq!(d[0], 4);
}

#[test]
fn bellman_ford_negative_edge() {
    let edges = vec![(0usize, 1usize, 5i64), (0, 2, 2), (2, 1, -4)];
    let d = bellman_ford(3, 0, &edges, true);
    assert_eq!(d[1], -2);
}

#[test]
fn floyd_warshall_distances() {
    let edges = vec![(0usize, 1usize, 4i64), (0, 2, 1), (2, 1, 2), (1, 3, 1)];
    let d = floyd_warshall(4, &edges, true);
    assert_eq!(d[0][0], 0);
    assert_eq!(d[0][1], 3);
    assert_eq!(d[0][3], 4);
    assert_eq!(d[1][0], INF);
    let d = floyd_warshall(4, &edges, false);
    assert_eq!(d[1][0], 3);
    assert_eq!(d[3][2], 3);
}

#[test]
fn sieve_factorization() {
    let sieve = Erathosthenes::new(100);
    let f = sieve.prime_factorize(60);
    assert_eq!(f, vec![(2, 2), (3, 1), (5, 1)]);
    let f = sieve.prime_factorize(97);
    assert_eq!(f, vec![(97, 1)]);
    let f = sieve.prime_factorize(64);
    assert_eq!(f, vec![(2, 6)]);
    let f = sieve.prime_factorize(1);
    assert_eq!(f, vec![]);
}
