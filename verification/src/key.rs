use vstd::prelude::*;
use vstd::std_specs::vec::vec_index;
use crate::strutil::{str_chars, spec_decimal, spec_digit_char, decimal_string};

verus! {

/// The identity of one child slot within a container: an array position or
/// a table field name.
#[derive(Debug, PartialEq)]
pub enum Key {
    Index(usize),
    Name(String),
}

/// The mathematical model of a `Key`.
#[verifier::ext_equal]
pub ghost enum SpecKey {
    Index(int),
    Name(Seq<char>),
}

impl Key {
    pub open spec fn model(self) -> SpecKey {
        match self {
            Key::Index(i) => SpecKey::Index(i as int),
            Key::Name(s) => SpecKey::Name(s@),
        }
    }
}

impl View for Key {
    type V = SpecKey;

    open spec fn view(&self) -> SpecKey {
        (*self).model()
    }
}

/// Escape marker for a character outside the identifier-safe set, carried
/// as its Unicode codepoint.
#[derive(PartialEq, Eq, Structural, Clone, Copy, Debug)]
pub struct UC {
    pub codepoint: u32,
}

/// One encoded character of a name key: an identifier-safe character as
/// itself, anything else behind the escape marker.
#[derive(PartialEq, Eq, Structural, Clone, Copy, Debug)]
pub enum KeySym {
    Chr(char),
    Esc(UC),
}

/// The character-marker encoding of a table-field name.
#[derive(Debug, PartialEq)]
pub struct KeyName {
    pub syms: Vec<KeySym>,
}

/// The digit-marker encoding of an array index: its decimal digits.
#[derive(Debug, PartialEq)]
pub struct KeyIndex {
    pub digits: Vec<char>,
}

/// Identifier-safe characters, encoded without escaping.
pub open spec fn spec_ident_char(c: char) -> bool {
    ('A' <= c && c <= 'Z') || ('a' <= c && c <= 'z') || ('0' <= c && c <= '9') || c == '_'
}

/// The encoding of one character of a name.
pub open spec fn spec_sym_of(c: char) -> KeySym {
    if spec_ident_char(c) {
        KeySym::Chr(c)
    } else {
        KeySym::Esc(UC { codepoint: c as u32 })
    }
}

/// The encoding of a whole name, character by character.
pub open spec fn spec_encode_name(s: Seq<char>) -> Seq<KeySym> {
    Seq::new(s.len(), |i: int| spec_sym_of(s[i]))
}

fn ident_char(c: char) -> (r: bool)
    ensures
        r == spec_ident_char(c),
{
    ('A' <= c && c <= 'Z') || ('a' <= c && c <= 'z') || ('0' <= c && c <= '9') || c == '_'
}

impl KeyName {
    /// Deterministic, injective encoding of a table-field name.
    pub fn encode(name: &str) -> (r: KeyName)
        ensures
            r.syms@ == spec_encode_name(name@),
    {
        let chars = str_chars(name);
        let mut syms: Vec<KeySym> = Vec::new();
        let mut i: usize = 0;
        while i < chars.len()
            invariant
                i <= chars@.len(),
                chars@ == name@,
                syms@ =~= spec_encode_name(name@).subrange(0, i as int),
            decreases chars@.len() - i,
        {
            let c = *vec_index(&chars, i);
            if ident_char(c) {
                syms.push(KeySym::Chr(c));
            } else {
                syms.push(KeySym::Esc(UC { codepoint: c as u32 }));
            }
            i = i + 1;
            proof {
                assert(syms@ =~= spec_encode_name(name@).subrange(0, i as int));
            }
        }
        proof {
            assert(syms@ =~= spec_encode_name(name@));
        }
        KeyName { syms }
    }
}

impl Default for KeyName {
    /// The encoding of the empty name.
    fn default() -> (r: KeyName)
        ensures
            r.syms@ == spec_encode_name(Seq::<char>::empty()),
    {
        proof {
            assert(Seq::<KeySym>::empty() =~= spec_encode_name(Seq::<char>::empty()));
        }
        KeyName { syms: Vec::new() }
    }
}

/// Encoder injectivity: two names with the same encoding are the same name.
/// Distinct names therefore never collide within one container.
pub proof fn lemma_encode_name_injective(a: Seq<char>, b: Seq<char>)
    requires
        spec_encode_name(a) == spec_encode_name(b),
    ensures
        a == b,
{
    assert(spec_encode_name(a).len() == a.len());
    assert(spec_encode_name(b).len() == b.len());
    assert forall|i: int| 0 <= i < a.len() implies a[i] == b[i] by {
        assert(spec_encode_name(a)[i] == spec_sym_of(a[i]));
        assert(spec_encode_name(b)[i] == spec_sym_of(b[i]));
        lemma_sym_of_injective(a[i], b[i]);
    }
    assert(a =~= b);
}

proof fn lemma_sym_of_injective(a: char, b: char)
    requires
        spec_sym_of(a) == spec_sym_of(b),
    ensures
        a == b,
{
    if !spec_ident_char(a) && !spec_ident_char(b) {
        assert(a as u32 == b as u32);
    }
}

impl KeyIndex {
    /// Deterministic, injective encoding of an array index.
    pub fn encode(index: usize) -> (r: KeyIndex)
        ensures
            r.digits@ == spec_decimal(index as nat),
    {
        let s = decimal_string(index);
        KeyIndex { digits: str_chars(s.as_str()) }
    }
}

impl Default for KeyIndex {
    /// The encoding of index zero.
    fn default() -> (r: KeyIndex)
        ensures
            r.digits@ == spec_decimal(0),
    {
        let mut digits: Vec<char> = Vec::new();
        digits.push('0');
        proof {
            assert(digits@ =~= spec_decimal(0));
        }
        KeyIndex { digits }
    }
}

/// Encoder injectivity: two indices with the same decimal rendering are the
/// same index.
pub proof fn lemma_encode_index_injective(m: nat, n: nat)
    requires
        spec_decimal(m) == spec_decimal(n),
    ensures
        m == n,
    decreases m + n,
{
    lemma_decimal_len(m);
    lemma_decimal_len(n);
    if m < 10 && n < 10 {
        assert(spec_decimal(m)[0] == spec_digit_char(m));
        assert(spec_decimal(n)[0] == spec_digit_char(n));
        lemma_digit_char_injective(m, n);
    } else if m >= 10 && n >= 10 {
        assert(spec_decimal(m) == spec_decimal(m / 10).push(spec_digit_char(m % 10)));
        assert(spec_decimal(n) == spec_decimal(n / 10).push(spec_digit_char(n % 10)));
        assert(spec_decimal(m).last() == spec_digit_char(m % 10));
        assert(spec_decimal(n).last() == spec_digit_char(n % 10));
        lemma_digit_char_injective(m % 10, n % 10);
        assert(spec_decimal(m).drop_last() =~= spec_decimal(m / 10));
        assert(spec_decimal(n).drop_last() =~= spec_decimal(n / 10));
        lemma_encode_index_injective(m / 10, n / 10);
        assert(m == 10 * (m / 10) + m % 10);
        assert(n == 10 * (n / 10) + n % 10);
    }
}

proof fn lemma_digit_char_injective(a: nat, b: nat)
    requires
        a < 10,
        b < 10,
        spec_digit_char(a) == spec_digit_char(b),
    ensures
        a == b,
{
}

proof fn lemma_decimal_len(n: nat)
    ensures
        spec_decimal(n).len() >= 1,
        n >= 10 ==> spec_decimal(n).len() >= 2,
    decreases n,
{
    if n >= 10 {
        lemma_decimal_len(n / 10);
    }
}

/// The 64-bit digest that the hash-based name encoding embeds. It depends
/// on the name's characters alone.
pub uninterp spec fn fnv1a_of(s: Seq<char>) -> u64;

/// Relies on `const_fnv1a_hash::fnv1a_hash_str_64`: the 64-bit FNV-1a
/// digest of the name's UTF-8 bytes, a function of the name alone.
#[verifier::external_body]
fn fnv1a_hash(s: &str) -> (r: u64)
    ensures
        r == fnv1a_of(s@),
{
    const_fnv1a_hash::fnv1a_hash_str_64(s)
}

/// The hash-based encoding of a table-field name. Unlike the
/// character-marker encoding it is not known to be injective: two distinct
/// names colliding on the digest is an accepted, astronomically unlikely
/// risk of this variant.
#[derive(PartialEq, Eq, Structural, Clone, Copy, Debug)]
pub struct KeySegmentName {
    pub hash: u64,
}

impl KeySegmentName {
    pub fn of(name: &str) -> (r: KeySegmentName)
        ensures
            r.hash == fnv1a_of(name@),
    {
        KeySegmentName { hash: fnv1a_hash(name) }
    }
}

/// The numeric encoding of an array position.
#[derive(PartialEq, Eq, Structural, Clone, Copy, Debug)]
pub struct KeySegmentIndex {
    pub index: isize,
}

impl KeySegmentIndex {
    pub fn of(index: isize) -> (r: KeySegmentIndex)
        ensures
            r.index == index,
    {
        KeySegmentIndex { index }
    }
}

/// A hash-encoded path segment.
#[derive(PartialEq, Eq, Structural, Clone, Copy, Debug)]
pub enum KeySegment {
    Name(KeySegmentName),
    Index(KeySegmentIndex),
}

} // verus!
