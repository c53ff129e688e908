use bathtub_db::base::{BlockType, ObjKind, ObjectType};

#[test]
fn test_obj_kind() {
    for k in 0_u8..=255 {
        let kind: ObjKind = k.into();
        if k < 9 {
            assert_eq!(kind as u8, k);
        } else {
            assert_eq!(kind as u8, 9);
        }
    }
}

#[test]
fn test_blocktype() {
    for k in 0..2 {
        let ot: BlockType = BlockType::from_code(k);
        assert_eq!(ot as u8, k);
    }
    assert_eq!(BlockType::Configure as u8, 0);
    assert_eq!(BlockType::Configure, BlockType::from_code(0));
    assert_eq!(BlockType::Commit as u8, 1);
    assert_eq!(BlockType::Commit, BlockType::from_code(1));
}

#[test]
fn test_obj_kind_codes() {
    assert_eq!(ObjKind::from(0).code(), 0);
    assert_eq!(ObjKind::from(6), ObjKind::Tree);
    assert_eq!(ObjKind::from(200), ObjKind::Unknown);
    assert_eq!(ObjKind::Unknown.code(), 9);
}

#[test]
fn test_object_type_codes() {
    assert_eq!(ObjectType::from_code(0), ObjectType::Data);
    assert_eq!(ObjectType::from_code(1), ObjectType::Tree);
    assert_eq!(ObjectType::Tree.code(), 1);
    assert_eq!(BlockType::Commit.code(), 1);
}
