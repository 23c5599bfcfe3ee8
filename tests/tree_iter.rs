use vizia_scene::iter::{TreeBreadthIterator, TreeIterator};
use vizia_scene::tree::{NodeId, Tree, TreeError};

fn drain_forward(it: &mut TreeIterator, t: &Tree) -> Vec<NodeId> {
    let mut out = Vec::new();
    while let Some(x) = it.next(t) {
        out.push(x);
    }
    out
}

fn drain_backward(it: &mut TreeIterator, t: &Tree) -> Vec<NodeId> {
    let mut out = Vec::new();
    while let Some(x) = it.next_back(t) {
        out.push(x);
    }
    out
}

fn sample() -> Result<(Tree, [NodeId; 6]), TreeError> {
    let mut t = Tree::new();
    let r = NodeId::root();
    let [a, b, c, d, e] = [1, 2, 3, 4, 5].map(|i| NodeId::new(i, 0));
    t.add(a, r)?;
    t.add(b, r)?;
    t.add(c, a)?;
    t.add(d, a)?;
    t.add(e, b)?;
    Ok((t, [r, a, b, c, d, e]))
}

#[test]
fn simple_forward_backward() -> Result<(), TreeError> {
    let mut t = Tree::new();
    let r = NodeId::root();
    let [a, b, c, d, e] = [1, 2, 3, 4, 5].map(|i| NodeId::new(i, 0));
    t.add(a, r)?;
    t.add(b, r)?;
    t.add(c, a)?;
    t.add(d, a)?;
    t.add(e, b)?;
    let correct = [r, a, c, d, b, e];
    let forward = drain_forward(&mut TreeIterator::full(&t), &t);
    let backward = drain_backward(&mut TreeIterator::full(&t), &t);
    assert!(forward.iter().eq(correct.iter()));
    assert!(backward.iter().eq(correct.iter().rev()));

    // correct double-ended behavior, each item yielded only once
    let mut double = TreeIterator::full(&t);
    let mut front = Vec::new();
    let mut back = Vec::new();
    loop {
        if let Some(x) = double.next(&t) {
            front.push(x);
        }
        if let Some(x) = double.next_back(&t) {
            back.push(x);
        } else {
            break;
        }
    }
    back.reverse();
    front.append(&mut back);
    assert!(front.iter().eq(correct.iter()));

    let correct = [a, c, d];
    let forward = drain_forward(&mut TreeIterator::subtree(&t, a), &t);
    let backward = drain_backward(&mut TreeIterator::subtree(&t, a), &t);
    assert!(forward.iter().eq(correct.iter()));
    assert!(backward.iter().eq(correct.iter().rev()));
    Ok(())
}

#[test]
fn simple_forward_bfs() -> Result<(), TreeError> {
    let mut t = Tree::new();
    let r = NodeId::root();
    let [a, b, c, d, e] = [1, 2, 3, 4, 5].map(|i| NodeId::new(i, 0));
    t.add(a, r)?;
    t.add(b, r)?;
    t.add(c, a)?;
    t.add(d, a)?;
    t.add(e, b)?;
    let correct = [r, a, b, c, d, e];
    let mut forward = TreeBreadthIterator::full(&t);
    let mut got = Vec::new();
    while let Some(x) = forward.next(&t) {
        got.push(x);
    }
    assert!(got.iter().eq(correct.iter()));
    Ok(())
}

#[test]
fn backward_is_forward_reversed_for_every_start() -> Result<(), TreeError> {
    let (t, ids) = sample()?;
    for s in ids {
        let mut forward = drain_forward(&mut TreeIterator::subtree(&t, s), &t);
        let backward = drain_backward(&mut TreeIterator::subtree(&t, s), &t);
        forward.reverse();
        assert_eq!(forward, backward);
    }
    Ok(())
}

#[test]
fn cursors_meet_at_every_split() -> Result<(), TreeError> {
    let (t, _) = sample()?;
    let full = drain_forward(&mut TreeIterator::full(&t), &t);
    for k in 0..=full.len() {
        let mut it = TreeIterator::full(&t);
        let mut front = Vec::new();
        for _ in 0..k {
            front.push(it.next(&t).unwrap());
        }
        let mut back = drain_backward(&mut it, &t);
        back.reverse();
        front.append(&mut back);
        assert_eq!(front, full);
    }
    Ok(())
}

#[test]
fn breadth_first_subtree_and_depth_order() -> Result<(), TreeError> {
    let (mut t, [_, a, _, c, d, _]) = sample()?;
    let f = NodeId::new(6, 0);
    t.add(f, c)?;
    let mut it = TreeBreadthIterator::subtree(&t, a);
    let mut got = Vec::new();
    while let Some(x) = it.next(&t) {
        got.push(x);
    }
    assert_eq!(got, vec![a, c, d, f]);
    Ok(())
}

#[test]
fn missing_start_gives_empty_traversals() {
    let t = Tree::new();
    let ghost = NodeId::new(9, 0);
    assert_eq!(TreeIterator::subtree(&t, ghost).next(&t), None);
    assert_eq!(TreeBreadthIterator::subtree(&t, ghost).next(&t), None);
}

#[test]
fn add_reports_each_error() -> Result<(), TreeError> {
    let (mut t, [r, a, ..]) = sample()?;
    assert_eq!(t.add(a, r), Err(TreeError::AlreadyExists));
    assert_eq!(t.add(NodeId::root(), r), Err(TreeError::AlreadyExists));
    assert_eq!(t.add(NodeId::new(7, 0), NodeId::new(8, 0)), Err(TreeError::ParentNotFound));
    assert_eq!(t.add(NodeId::new(7, 0), NodeId::new(1, 3)), Err(TreeError::ParentNotFound));
    Ok(())
}

#[test]
fn remove_takes_whole_subtree() -> Result<(), TreeError> {
    let (mut t, [r, a, b, c, d, e]) = sample()?;
    t.remove(a)?;
    assert!(!t.contains_id(a));
    assert!(!t.contains_id(c));
    assert!(!t.contains_id(d));
    assert!(t.contains_id(b));
    let order = drain_forward(&mut TreeIterator::full(&t), &t);
    assert_eq!(order, vec![r, b, e]);
    assert_eq!(t.remove(a), Err(TreeError::NotFound));
    assert_eq!(t.remove(c), Err(TreeError::NotFound));
    assert_eq!(t.remove(NodeId::root()), Err(TreeError::NotFound));
    Ok(())
}

#[test]
fn cursor_continued_after_removal_skips_removed() -> Result<(), TreeError> {
    let (mut t, [r, a, b, _, _, e]) = sample()?;
    let mut it = TreeIterator::full(&t);
    assert_eq!(it.next(&t), Some(r));
    t.remove(a)?;
    let rest = drain_forward(&mut it, &t);
    assert_eq!(rest, vec![b, e]);
    Ok(())
}

#[test]
fn reused_slot_gets_new_generation() -> Result<(), TreeError> {
    let (mut t, [r, a, ..]) = sample()?;
    t.remove(a)?;
    let fresh = t.create(r)?;
    assert!(t.contains_id(fresh));
    assert_ne!(fresh, a);
    assert!(!t.contains_id(a));
    assert!([1, 3, 4].contains(&fresh.index));
    assert_eq!(fresh.generation, 1);
    if fresh.index == a.index {
        assert!(fresh.generation > a.generation);
    }
    assert_eq!(t.add(a, r), Err(TreeError::AlreadyExists));
    Ok(())
}

#[test]
fn create_appends_when_nothing_is_free() -> Result<(), TreeError> {
    let (mut t, [_, _, b, ..]) = sample()?;
    let n = t.create(b)?;
    assert_eq!(n, NodeId::new(6, 0));
    assert_eq!(t.parent(n), Ok(Some(b)));
    assert_eq!(t.create(NodeId::new(40, 0)), Err(TreeError::ParentNotFound));
    Ok(())
}

#[test]
fn structural_queries() -> Result<(), TreeError> {
    let (t, [r, a, b, c, d, e]) = sample()?;
    assert_eq!(t.parent(r), Ok(None));
    assert_eq!(t.parent(c), Ok(Some(a)));
    assert_eq!(t.parent(NodeId::new(3, 1)), Err(TreeError::NotFound));
    assert_eq!(t.first_child(r), Ok(Some(a)));
    assert_eq!(t.first_child(e), Ok(None));
    assert_eq!(t.next_sibling(a), Ok(Some(b)));
    assert_eq!(t.next_sibling(c), Ok(Some(d)));
    assert_eq!(t.next_sibling(d), Ok(None));
    assert_eq!(t.next_sibling(r), Ok(None));
    assert_eq!(t.first_child(NodeId::new(99, 0)), Err(TreeError::NotFound));
    Ok(())
}

#[test]
fn z_order_is_an_attribute_only() -> Result<(), TreeError> {
    let (mut t, [r, a, b, ..]) = sample()?;
    assert_eq!(t.z_order(b), Ok(0));
    t.set_z_order(b, -4)?;
    assert_eq!(t.z_order(b), Ok(-4));
    assert_eq!(t.set_z_order(NodeId::new(50, 0), 1), Err(TreeError::NotFound));
    let order = drain_forward(&mut TreeIterator::full(&t), &t);
    assert_eq!(order[0..3], [r, a, NodeId::new(3, 0)]);
    Ok(())
}
