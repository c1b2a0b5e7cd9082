use wordcomplete::document::{DocumentStore, Edit, EditError};
use wordcomplete::position::Position;

fn pos(line: usize, character: usize) -> Position {
    Position { line, character }
}

#[test]
fn new_store_is_empty() {
    let store = DocumentStore::new();
    assert_eq!(store.snapshot(), Vec::<u8>::new());
}

#[test]
fn replace_all_overwrites() {
    let mut store = DocumentStore::new();
    store.replace_all(b"hello".to_vec());
    assert_eq!(store.snapshot(), b"hello".to_vec());
    store.replace_all(b"bye".to_vec());
    assert_eq!(store.snapshot(), b"bye".to_vec());
}

#[test]
fn snapshot_is_idempotent() {
    let mut store = DocumentStore::new();
    store.replace_all(b"some text".to_vec());
    let first = store.snapshot();
    let second = store.snapshot();
    assert_eq!(first, second);
}

#[test]
fn sequential_edits_compose() {
    let mut store = DocumentStore::new();
    store.replace_all(b"hello world".to_vec());
    let r1 = store.apply_ranged_edit(pos(0, 0), pos(0, 5), &b"HI".to_vec());
    assert_eq!(r1, Ok(()));
    assert_eq!(store.snapshot(), b"HI world".to_vec());
    let r2 = store.apply_ranged_edit(pos(0, 0), pos(0, 2), &b"Hey".to_vec());
    assert_eq!(r2, Ok(()));
    assert_eq!(store.snapshot(), b"Hey world".to_vec());
}

#[test]
fn batch_matches_manual_composition() {
    let mut manual = DocumentStore::new();
    manual.replace_all(b"hello world".to_vec());
    manual
        .apply_ranged_edit(pos(0, 0), pos(0, 5), &b"HI".to_vec())
        .unwrap();
    manual
        .apply_ranged_edit(pos(0, 0), pos(0, 2), &b"Hey".to_vec())
        .unwrap();

    let mut batched = DocumentStore::new();
    batched.replace_all(b"hello world".to_vec());
    let edits = vec![
        Edit::Ranged {
            start: pos(0, 0),
            end: pos(0, 5),
            text: b"HI".to_vec(),
        },
        Edit::Ranged {
            start: pos(0, 0),
            end: pos(0, 2),
            text: b"Hey".to_vec(),
        },
    ];
    assert_eq!(batched.apply_edits(&edits), Ok(()));
    assert_eq!(batched.snapshot(), manual.snapshot());
    assert_eq!(batched.snapshot(), b"Hey world".to_vec());
}

#[test]
fn invalid_range_is_rejected_without_corruption() {
    let mut store = DocumentStore::new();
    store.replace_all(b"hello".to_vec());
    let r = store.apply_ranged_edit(pos(0, 4), pos(0, 1), &b"X".to_vec());
    assert_eq!(r, Err(EditError::InvalidRange));
    assert_eq!(store.snapshot(), b"hello".to_vec());
}

#[test]
fn batch_stops_at_invalid_edit() {
    let mut store = DocumentStore::new();
    store.replace_all(b"hello".to_vec());
    let edits = vec![
        Edit::Ranged {
            start: pos(0, 0),
            end: pos(0, 1),
            text: b"J".to_vec(),
        },
        Edit::Ranged {
            start: pos(0, 4),
            end: pos(0, 1),
            text: b"X".to_vec(),
        },
        Edit::Full {
            text: b"never".to_vec(),
        },
    ];
    assert_eq!(store.apply_edits(&edits), Err(EditError::InvalidRange));
    assert_eq!(store.snapshot(), b"Jello".to_vec());
}

#[test]
fn full_edit_in_batch_replaces_everything() {
    let mut store = DocumentStore::new();
    store.replace_all(b"old text".to_vec());
    let edits = vec![Edit::Full {
        text: b"fresh".to_vec(),
    }];
    assert_eq!(store.apply_edits(&edits), Ok(()));
    assert_eq!(store.snapshot(), b"fresh".to_vec());
}

#[test]
fn empty_range_inserts() {
    let mut store = DocumentStore::new();
    store.replace_all(b"abcd".to_vec());
    let r = store.apply_ranged_edit(pos(0, 2), pos(0, 2), &b"XY".to_vec());
    assert_eq!(r, Ok(()));
    assert_eq!(store.snapshot(), b"abXYcd".to_vec());
}

#[test]
fn edit_on_second_line() {
    let mut store = DocumentStore::new();
    store.replace_all(b"ab\ncd".to_vec());
    let r = store.apply_ranged_edit(pos(1, 0), pos(1, 1), &b"X".to_vec());
    assert_eq!(r, Ok(()));
    assert_eq!(store.snapshot(), b"ab\nXd".to_vec());
}

#[test]
fn out_of_range_edit_clamps_to_end() {
    let mut store = DocumentStore::new();
    store.replace_all(b"abc".to_vec());
    let r = store.apply_ranged_edit(pos(0, 3), pos(5, 5), &b"!".to_vec());
    assert_eq!(r, Ok(()));
    assert_eq!(store.snapshot(), b"abc!".to_vec());
}

#[test]
fn deletion_with_empty_replacement() {
    let mut store = DocumentStore::new();
    store.replace_all(b"hello world".to_vec());
    let r = store.apply_ranged_edit(pos(0, 5), pos(0, 11), &Vec::new());
    assert_eq!(r, Ok(()));
    assert_eq!(store.snapshot(), b"hello".to_vec());
}
