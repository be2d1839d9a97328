use inline_config::key::{Key, KeyIndex, KeyName, KeySegmentName, KeySym, UC};
use inline_config::path::{parse_path, Path};

fn keys_of(p: &Path) -> Vec<Key> {
    let mut out = Vec::new();
    let mut cur = p;
    loop {
        match cur {
            Path::Nil(_) => return out,
            Path::Cons(c) => {
                out.push(clone_key(&c.key));
                cur = &c.rest;
            }
        }
    }
}

fn clone_key(k: &Key) -> Key {
    match k {
        Key::Index(i) => Key::Index(*i),
        Key::Name(s) => Key::Name(s.clone()),
    }
}

#[test]
fn parse_path_dotted_and_indexed() {
    let p = parse_path("database.ports[0]").unwrap();
    assert_eq!(
        keys_of(&p),
        vec![
            Key::Name("database".to_string()),
            Key::Name("ports".to_string()),
            Key::Index(0)
        ]
    );
}

#[test]
fn parse_path_empty_is_root() {
    let p = parse_path("").unwrap();
    assert_eq!(keys_of(&p), vec![]);
    let p = parse_path("   ").unwrap();
    assert_eq!(keys_of(&p), vec![]);
}

#[test]
fn parse_path_whitespace_between_tokens() {
    let p = parse_path("  database . ports [ 2 ]  ").unwrap();
    assert_eq!(
        keys_of(&p),
        vec![
            Key::Name("database".to_string()),
            Key::Name("ports".to_string()),
            Key::Index(2)
        ]
    );
}

#[test]
fn parse_path_quoted_names() {
    let p = parse_path("\"year-of-birth\"").unwrap();
    assert_eq!(keys_of(&p), vec![Key::Name("year-of-birth".to_string())]);
    let p = parse_path("person.\"first name\"").unwrap();
    assert_eq!(
        keys_of(&p),
        vec![
            Key::Name("person".to_string()),
            Key::Name("first name".to_string())
        ]
    );
}

#[test]
fn parse_path_hyphened_bare_name() {
    let p = parse_path("pre-release.tag_2").unwrap();
    assert_eq!(
        keys_of(&p),
        vec![
            Key::Name("pre-release".to_string()),
            Key::Name("tag_2".to_string())
        ]
    );
}

#[test]
fn parse_path_rejects_malformed() {
    assert!(parse_path("database..x").is_err());
    assert!(parse_path("[").is_err());
    assert!(parse_path("a.\"unclosed").is_err());
    assert!(parse_path("a]").is_err());
    assert!(parse_path("a[b]").is_err());
    assert!(parse_path("a[1] trailing").is_err());
}

#[test]
fn parse_path_rejects_oversized_index() {
    // Far beyond what any machine word holds.
    assert!(parse_path("a[99999999999999999999999999999999]").is_err());
}

#[test]
fn from_keys_keeps_order() {
    let p = Path::from_keys(vec![Key::Name("a".to_string()), Key::Index(3)]);
    assert_eq!(keys_of(&p), vec![Key::Name("a".to_string()), Key::Index(3)]);
}

#[test]
fn encode_name_marks_identifier_characters() {
    let k = KeyName::encode("a_9");
    assert_eq!(
        k.syms,
        vec![KeySym::Chr('a'), KeySym::Chr('_'), KeySym::Chr('9')]
    );
}

#[test]
fn encode_name_escapes_other_characters() {
    let k = KeyName::encode("a-b");
    assert_eq!(
        k.syms,
        vec![
            KeySym::Chr('a'),
            KeySym::Esc(UC { codepoint: '-' as u32 }),
            KeySym::Chr('b')
        ]
    );
    // The escape keeps distinct names distinct.
    assert_ne!(KeyName::encode("a-b").syms, KeyName::encode("a_b").syms);
}

#[test]
fn encode_index_is_decimal() {
    assert_eq!(KeyIndex::encode(120).digits, vec!['1', '2', '0']);
    assert_eq!(KeyIndex::encode(0).digits, vec!['0']);
    assert_ne!(KeyIndex::encode(1).digits, KeyIndex::encode(10).digits);
    assert_eq!(KeyIndex::default().digits, vec!['0']);
}

#[test]
fn key_segment_name_is_the_fnv_digest() {
    // Known FNV-1a 64 test vectors: the offset basis for the empty name,
    // and the digest of "a".
    assert_eq!(KeySegmentName::of("").hash, 0xcbf29ce484222325);
    assert_eq!(KeySegmentName::of("a").hash, 0xaf63dc4c8601ec8c);
    assert_ne!(
        KeySegmentName::of("alpha").hash,
        KeySegmentName::of("beta").hash
    );
}
