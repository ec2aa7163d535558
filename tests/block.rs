use columns::block::{Block, BlockKind};

#[test]
fn test_default() {
    assert!(Block::default().empty());
}

#[test]
fn block_equality_ignores_flashing() {
    let mut a = Block::new(Some(BlockKind::Red));
    let b = Block::new(Some(BlockKind::Red));
    a.exploding = true;
    assert!(a == b);
    assert!(a != Block::new(Some(BlockKind::Cyan)));
    assert!(Block::new(None) != b);
}

#[test]
fn block_update_keeps_flashing() {
    let mut a = Block::new(Some(BlockKind::Yellow));
    a.exploding = true;
    a.update(None);
    assert!(a.empty());
    assert!(a.exploding);
}

#[test]
fn block_kind_from_index() {
    assert_eq!(BlockKind::from_index(1), Some(BlockKind::Yellow));
    assert_eq!(BlockKind::from_index(2), Some(BlockKind::Orange));
    assert_eq!(BlockKind::from_index(3), Some(BlockKind::Red));
    assert_eq!(BlockKind::from_index(4), Some(BlockKind::Cyan));
    assert_eq!(BlockKind::from_index(0), None);
    assert_eq!(BlockKind::from_index(5), None);
}
