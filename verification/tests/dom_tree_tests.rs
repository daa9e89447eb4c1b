use lancy::analysis::DomTree;
use lancy::support::slotmap::Key;
use lancy::tir::Block;
use lancy::tir::CFG;

fn simple_cfg() -> CFG {
    // 0 -> 1 -> 2
    //      \-> 3
    let mut cfg = CFG::new(Block::new(0), 4);
    let b0 = Block::new(0);
    let b1 = Block::new(1);
    let b2 = Block::new(2);
    let b3 = Block::new(3);

    cfg.add_edge(b1, b0);
    cfg.add_edge(b2, b1);
    cfg.add_edge(b3, b1);

    cfg
}

fn diamond_cfg() -> CFG {
    //   0
    //  / \
    // 1   2
    //  \ /
    //   3
    let mut cfg = CFG::new(Block::new(0), 4);
    let b0 = Block::new(0);
    let b1 = Block::new(1);
    let b2 = Block::new(2);
    let b3 = Block::new(3);

    cfg.add_edge(b1, b0);
    cfg.add_edge(b2, b0);
    cfg.add_edge(b3, b1);
    cfg.add_edge(b3, b2);

    cfg
}

#[test]
fn test_simple_cfg_domtree() {
    let cfg = simple_cfg();
    let domtree = DomTree::build(&cfg);

    let b0 = Block::new(0);
    let b1 = Block::new(1);
    let b2 = Block::new(2);
    let b3 = Block::new(3);

    assert!(domtree.dominates(b0, b1));
    assert!(domtree.dominates(b0, b2));
    assert!(domtree.dominates(b0, b3));
    assert!(domtree.dominates(b1, b2));
    assert!(domtree.dominates(b1, b3));
    assert!(!domtree.dominates(b2, b3));
    assert!(!domtree.dominates(b3, b2));
}

#[test]
fn test_diamond_cfg_domtree() {
    let cfg = diamond_cfg();
    let domtree = DomTree::build(&cfg);

    let b0 = Block::new(0);
    let b1 = Block::new(1);
    let b2 = Block::new(2);
    let b3 = Block::new(3);

    assert!(domtree.dominates(b0, b1));
    assert!(domtree.dominates(b0, b2));
    assert!(domtree.dominates(b0, b3));
    assert!(!domtree.dominates(b1, b2));
    assert!(!domtree.dominates(b2, b1));
    assert!(!domtree.dominates(b1, b3));
    assert!(!domtree.dominates(b2, b3));
}

#[test]
fn test_self_dominance() {
    let cfg = simple_cfg();
    let domtree = DomTree::build(&cfg);

    for i in 0..4 {
        let b = Block::new(i);
        assert!(domtree.dominates(b, b));
    }
}

#[test]
fn test_linear_chain_cfg() {
    // 0 -> 1 -> 2 -> 3 -> 4
    let mut cfg = CFG::new(Block::new(0), 5);
    for i in 0..4 {
        cfg.add_edge(Block::new(i + 1), Block::new(i));
    }
    let domtree = DomTree::build(&cfg);

    for i in 0..5 {
        for j in i..5 {
            assert!(domtree.dominates(Block::new(i), Block::new(j)));
        }
    }
    for i in 0..5 {
        for j in 0..i {
            assert!(!domtree.dominates(Block::new(i), Block::new(j)));
        }
    }
}

#[test]
fn test_cfg_with_loop() {
    // 0 -> 1 -> 2 -> 3
    //      ^         |
    //      |---------|
    let mut cfg = CFG::new(Block::new(0), 4);
    cfg.add_edge(Block::new(1), Block::new(0));
    cfg.add_edge(Block::new(2), Block::new(1));
    cfg.add_edge(Block::new(3), Block::new(2));
    cfg.add_edge(Block::new(1), Block::new(3));

    let domtree = DomTree::build(&cfg);

    for i in 1..4 {
        assert!(domtree.dominates(Block::new(0), Block::new(i)));
    }
    assert!(domtree.dominates(Block::new(1), Block::new(2)));
    assert!(domtree.dominates(Block::new(1), Block::new(3)));
    assert!(domtree.dominates(Block::new(2), Block::new(3)));
    assert!(!domtree.dominates(Block::new(3), Block::new(1)));
}

#[test]
fn test_nested_loops_cfg() {
    // One outer loop 1-2-3-4-1 and one inner loop 2-3-2
    let mut cfg = CFG::new(Block::new(0), 6);
    cfg.add_edge(Block::new(1), Block::new(0));
    cfg.add_edge(Block::new(2), Block::new(1));
    cfg.add_edge(Block::new(3), Block::new(2));
    cfg.add_edge(Block::new(4), Block::new(3));
    cfg.add_edge(Block::new(5), Block::new(4));
    cfg.add_edge(Block::new(1), Block::new(4));
    cfg.add_edge(Block::new(2), Block::new(3));

    let domtree = DomTree::build(&cfg);

    for i in 1..6 {
        assert!(domtree.dominates(Block::new(0), Block::new(i)));
    }
    for i in 2..6 {
        assert!(domtree.dominates(Block::new(1), Block::new(i)));
    }
    for i in 3..6 {
        assert!(domtree.dominates(Block::new(2), Block::new(i)));
    }
    for i in 4..6 {
        assert!(domtree.dominates(Block::new(3), Block::new(i)));
    }
    assert!(domtree.dominates(Block::new(4), Block::new(5)));

    assert!(!domtree.dominates(Block::new(3), Block::new(2)));
    assert!(!domtree.dominates(Block::new(4), Block::new(1)));
}

#[test]
fn test_multiple_loops_cfg() {
    // Two loops: 1-2-3-1 and 3-4-3
    let mut cfg = CFG::new(Block::new(0), 5);
    cfg.add_edge(Block::new(1), Block::new(0));
    cfg.add_edge(Block::new(2), Block::new(1));
    cfg.add_edge(Block::new(3), Block::new(2));
    cfg.add_edge(Block::new(4), Block::new(3));
    cfg.add_edge(Block::new(1), Block::new(3));
    cfg.add_edge(Block::new(3), Block::new(4));

    let domtree = DomTree::build(&cfg);

    for i in 1..5 {
        assert!(domtree.dominates(Block::new(0), Block::new(i)));
    }
    for i in 2..5 {
        assert!(domtree.dominates(Block::new(1), Block::new(i)));
    }
    for i in 3..5 {
        assert!(domtree.dominates(Block::new(2), Block::new(i)));
    }
    assert!(domtree.dominates(Block::new(3), Block::new(4)));
    assert!(!domtree.dominates(Block::new(4), Block::new(3)));
    assert!(!domtree.dominates(Block::new(3), Block::new(1)));
}
