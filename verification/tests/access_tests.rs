use inline_config::format::Format;
use inline_config::get::{AccessKey, KeyCons, KeyNil, SegmentPath, Select};
use inline_config::key::{Key, KeyIndex, KeyName, KeySegment, KeySegmentIndex, KeySegmentName};
use inline_config::repr::Repr;

fn sample_repr() -> Repr {
    Format::Toml
        .parse("alpha = 1\nbeta = 2\nitems = [10, 20, 30]\n")
        .unwrap()
        .compile()
}

#[test]
fn select_by_exact_key() {
    let c = sample_repr();
    let child = c.select(&Key::Name("beta".to_string())).unwrap();
    assert_eq!(*child, Repr::PosInt(2));
    assert!(c.select(&Key::Name("gamma".to_string())).is_none());
    assert!(c.select(&Key::Index(0)).is_none());
    let items = c.select(&Key::Name("items".to_string())).unwrap();
    assert_eq!(*items.select(&Key::Index(2)).unwrap(), Repr::PosInt(30));
    assert!(items.select(&Key::Index(3)).is_none());
}

#[test]
fn access_by_encoded_name_key() {
    let c = sample_repr();
    let child = c.access_name_key(&KeyName::encode("alpha")).unwrap();
    assert_eq!(*child, Repr::PosInt(1));
    assert!(c.access_name_key(&KeyName::encode("gamma")).is_none());
    assert!(c.access_name_key(&KeyName::default()).is_none());
}

#[test]
fn access_by_encoded_index_key() {
    let c = sample_repr();
    let items = c.select(&Key::Name("items".to_string())).unwrap();
    let slot = items.access_index_key(&KeyIndex::encode(1)).unwrap();
    assert_eq!(*slot, Repr::PosInt(20));
    assert!(items.access_index_key(&KeyIndex::encode(9)).is_none());
    // The table refuses index keys, the array refuses name keys.
    assert!(c.access_index_key(&KeyIndex::encode(0)).is_none());
    assert!(items.access_name_key(&KeyName::encode("alpha")).is_none());
}

#[test]
fn access_by_hash_segment_path() {
    let c = sample_repr();
    let path = SegmentPath::Cons(KeyCons {
        segment: KeySegment::Name(KeySegmentName::of("items")),
        rest: Box::new(SegmentPath::Cons(KeyCons {
            segment: KeySegment::Index(KeySegmentIndex::of(0)),
            rest: Box::new(SegmentPath::Nil(KeyNil)),
        })),
    });
    let slot = c.access_segments(&path).unwrap();
    assert_eq!(*slot, Repr::PosInt(10));
    // The empty segment path addresses the root itself.
    let root = c.access_segments(&SegmentPath::Nil(KeyNil)).unwrap();
    assert_eq!(*root, sample_repr());
    // A negative or out-of-range position selects nothing.
    let bad = SegmentPath::Cons(KeyCons {
        segment: KeySegment::Index(KeySegmentIndex::of(-1)),
        rest: Box::new(SegmentPath::Nil(KeyNil)),
    });
    assert!(c.access_segments(&bad).is_none());
}
