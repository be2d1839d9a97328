use vstd::prelude::*;
use vstd::std_specs::vec::vec_index;
use crate::repr::{Repr, SpecRepr, SpecReprField, repr_model_seq, repr_model_fields,
    lemma_repr_model_seq, lemma_repr_model_fields};
use crate::convert::{Target, Converted, SpecConverted, ConvertError, spec_convert,
    spec_field_index, find_field};
use crate::key::{Key, SpecKey, KeySegment, KeyName, KeyIndex, KeySym, spec_encode_name};
use crate::path::Path;
use crate::strutil::spec_decimal;

verus! {

/// What one key selects from a representation: a name key the equally
/// named table field, an index key the array slot at that position.
pub open spec fn spec_select(r: SpecRepr, k: SpecKey) -> Option<SpecRepr> {
    match (r, k) {
        (SpecRepr::Table(fields), SpecKey::Name(n)) => {
            let i = spec_field_index(fields, n);
            if i < 0 {
                None
            } else {
                Some(fields[i].value)
            }
        },
        (SpecRepr::Array(children), SpecKey::Index(i)) => if 0 <= i < children.len() {
            Some(children[i])
        } else {
            None
        },
        _ => None,
    }
}

/// The representation a whole path addresses: the empty path addresses the
/// root itself, a longer path selects its head key and follows the rest.
pub open spec fn spec_access_path(r: SpecRepr, keys: Seq<SpecKey>) -> Option<SpecRepr>
    decreases keys.len(),
{
    if keys.len() == 0 {
        Some(r)
    } else {
        match spec_select(r, keys[0]) {
            Some(c) => spec_access_path(c, keys.drop_first()),
            None => None,
        }
    }
}

/// The read operation's meaning: the value at the path, converted to the
/// requested target; `None` where the path does not resolve or no
/// conversion rule accepts the request.
pub open spec fn spec_get(r: SpecRepr, keys: Seq<SpecKey>, t: Target) -> Option<SpecConverted> {
    match spec_access_path(r, keys) {
        Some(c) => spec_convert(c, t),
        None => None,
    }
}

/// Why a read was rejected. In this design a rejected read is an error
/// value where a fully static compilation would fail the build instead.
#[derive(PartialEq, Eq, Structural, Clone, Copy, Debug)]
pub enum GetError {
    /// A key on the path selects nothing.
    NotFound,
    /// The path resolves, but the conversion resolver refuses the target.
    Conversion(ConvertError),
}

/// The capability of a representation to produce the child for one key.
pub trait Select {
    /// The model-level meaning of selecting `key` here.
    spec fn selected(&self, key: SpecKey) -> Option<SpecRepr>;

    /// The child representation at `key`, if the key selects one.
    fn select<'a>(&'a self, key: &Key) -> (r: Option<&'a Repr>)
        ensures
            (match r {
                Some(c) => self.selected(key@) == Some(c@),
                None => self.selected(key@) is None,
            }),
    ;
}

impl Select for Repr {
    open spec fn selected(&self, key: SpecKey) -> Option<SpecRepr> {
        spec_select(self@, key)
    }

    fn select<'a>(&'a self, key: &Key) -> (r: Option<&'a Repr>) {
        match (self, key) {
            (Repr::Table(fields), Key::Name(n)) => {
                proof {
                    lemma_repr_model_fields(fields@);
                }
                match find_field(fields, n.as_str()) {
                    Some(i) => Some(&vec_index(fields, i).value),
                    None => None,
                }
            },
            (Repr::Array(children), Key::Index(i)) => {
                proof {
                    lemma_repr_model_seq(children@);
                }
                if *i < children.len() {
                    Some(vec_index(children, *i))
                } else {
                    None
                }
            },
            _ => None,
        }
    }
}

/// The capability of a representation to follow a whole path.
pub trait AccessPath {
    /// The model-level meaning of following `keys` from here.
    spec fn at_path(&self, keys: Seq<SpecKey>) -> Option<SpecRepr>;

    /// The representation the path addresses, if every key on it selects.
    fn access_path<'a>(&'a self, path: &'a Path) -> (r: Option<&'a Repr>)
        ensures
            (match r {
                Some(c) => self.at_path(path@) == Some(c@),
                None => self.at_path(path@) is None,
            }),
    ;
}

impl AccessPath for Repr {
    open spec fn at_path(&self, keys: Seq<SpecKey>) -> Option<SpecRepr> {
        spec_access_path(self@, keys)
    }

    fn access_path<'a>(&'a self, path: &'a Path) -> (r: Option<&'a Repr>) {
        let mut cur: &'a Repr = self;
        let mut p: &'a Path = path;
        loop
            invariant
                spec_access_path(self@, path@) == spec_access_path(cur@, p@),
            decreases p@.len(),
        {
            match p {
                Path::Nil(_) => {
                    return Some(cur);
                },
                Path::Cons(c) => {
                    proof {
                        assert(p@ == seq![c.key@] + (*c.rest)@);
                        assert(p@[0] == c.key@);
                        assert(p@.drop_first() =~= (*c.rest)@);
                    }
                    match cur.select(&c.key) {
                        Some(nxt) => {
                            cur = nxt;
                            p = &c.rest;
                        },
                        None => {
                            return None;
                        },
                    }
                },
            }
        }
    }
}

/// The public read operation: resolve a path, then convert what it
/// addresses to the requested target.
pub trait Get {
    /// The well-formedness a configuration value must keep for reads.
    spec fn inv(&self) -> bool;

    /// The model-level meaning of a read.
    spec fn resolved(&self, keys: Seq<SpecKey>, t: Target) -> Option<SpecConverted>;

    /// The value at `path`, as `t`: returns a value exactly when the rules
    /// accept the request, and then exactly the value the rules dictate.
    fn get(&self, path: &Path, t: &Target) -> (r: Result<Converted, GetError>)
        requires
            self.inv(),
        ensures
            (r is Ok) == (self.resolved(path@, *t) is Some),
            (r matches Ok(c) ==> Some(c@) == self.resolved(path@, *t)),
    ;
}

impl Get for Repr {
    open spec fn inv(&self) -> bool {
        true
    }

    open spec fn resolved(&self, keys: Seq<SpecKey>, t: Target) -> Option<SpecConverted> {
        spec_get(self@, keys, t)
    }

    fn get(&self, path: &Path, t: &Target) -> (r: Result<Converted, GetError>) {
        match self.access_path(path) {
            Some(c) => match c.convert(t) {
                Ok(v) => Ok(v),
                Err(e) => Err(GetError::Conversion(e)),
            },
            None => Err(GetError::NotFound),
        }
    }
}

/// The position of the first field carrying the given key digest, or `-1`.
pub open spec fn spec_hash_index(fields: Seq<SpecReprField>, h: u64) -> int
    decreases fields,
{
    if fields.len() == 0 {
        -1
    } else if fields[0].hash == h {
        0
    } else {
        let r = spec_hash_index(fields.drop_first(), h);
        if r < 0 {
            -1
        } else {
            r + 1
        }
    }
}

proof fn lemma_hash_index_first(fields: Seq<SpecReprField>, h: u64, i: int)
    requires
        0 <= i < fields.len(),
        fields[i].hash == h,
        forall|k: int| 0 <= k < i ==> (#[trigger] fields[k]).hash != h,
    ensures
        spec_hash_index(fields, h) == i,
    decreases fields,
{
    if i > 0 {
        assert(fields[0].hash != h);
        assert forall|k: int|
            0 <= k < i - 1 implies (#[trigger] fields.drop_first()[k]).hash != h by {
            assert(fields.drop_first()[k] == fields[k + 1]);
        }
        lemma_hash_index_first(fields.drop_first(), h, i - 1);
    }
}

proof fn lemma_hash_index_absent(fields: Seq<SpecReprField>, h: u64)
    requires
        forall|k: int| 0 <= k < fields.len() ==> (#[trigger] fields[k]).hash != h,
    ensures
        spec_hash_index(fields, h) < 0,
    decreases fields,
{
    if fields.len() > 0 {
        assert forall|k: int|
            0 <= k < fields.drop_first().len() implies (#[trigger] fields.drop_first()[k]).hash
            != h by {
            assert(fields.drop_first()[k] == fields[k + 1]);
        }
        lemma_hash_index_absent(fields.drop_first(), h);
    }
}

/// What one hash-encoded segment selects: the first table field carrying
/// the segment's digest, or the array slot at the segment's position. The
/// digest variant is only as unambiguous as the digest itself: within one
/// table, distinct names collide with astronomically low but nonzero
/// probability, which the first-match rule settles deterministically.
pub open spec fn spec_access_segment(r: SpecRepr, seg: KeySegment) -> Option<SpecRepr> {
    match (r, seg) {
        (SpecRepr::Table(fields), KeySegment::Name(n)) => {
            let i = spec_hash_index(fields, n.hash);
            if i < 0 {
                None
            } else {
                Some(fields[i].value)
            }
        },
        (SpecRepr::Array(children), KeySegment::Index(x)) => if 0 <= x.index
            && x.index < children.len() {
            Some(children[x.index as int])
        } else {
            None
        },
        _ => None,
    }
}

/// The capability of a representation to produce the child for one
/// hash-encoded segment.
pub trait Access {
    /// The model-level meaning of following `seg` here.
    spec fn accessed(&self, seg: KeySegment) -> Option<SpecRepr>;

    /// The child representation at `seg`, if the segment selects one.
    fn access<'a>(&'a self, seg: &KeySegment) -> (r: Option<&'a Repr>)
        ensures
            (match r {
                Some(c) => self.accessed(*seg) == Some(c@),
                None => self.accessed(*seg) is None,
            }),
    ;
}

impl Access for Repr {
    open spec fn accessed(&self, seg: KeySegment) -> Option<SpecRepr> {
        spec_access_segment(self@, seg)
    }

    #[verifier::loop_isolation(false)]
    fn access<'a>(&'a self, seg: &KeySegment) -> (r: Option<&'a Repr>) {
        match (self, seg) {
            (Repr::Table(fields), KeySegment::Name(n)) => {
                proof {
                    lemma_repr_model_fields(fields@);
                }
                let ghost fm = repr_model_fields(fields@);
                let cnt = fields.len();
                let mut i: usize = 0;
                while i < cnt
                    invariant
                        i <= cnt,
                        cnt == fields@.len(),
                        fm == repr_model_fields(fields@),
                        fm.len() == cnt,
                        forall|k: int| 0 <= k < cnt ==> #[trigger] fm[k] == fields@[k]@,
                        forall|k: int| 0 <= k < i ==> (#[trigger] fm[k]).hash != n.hash,
                    decreases cnt - i,
                {
                    let f = vec_index(fields, i);
                    if f.hash == n.hash {
                        proof {
                            assert(fm[i as int].hash == n.hash);
                            lemma_hash_index_first(fm, n.hash, i as int);
                            assert(self@ == SpecRepr::Table(fm));
                            assert(*seg == KeySegment::Name(*n));
                            assert(spec_access_segment(self@, *seg) == Some(fm[i as int].value));
                            assert(f.value@ == fm[i as int].value);
                        }
                        return Some(&f.value);
                    }
                    i = i + 1;
                }
                proof {
                    lemma_hash_index_absent(fm, n.hash);
                }
                None
            },
            (Repr::Array(children), KeySegment::Index(x)) => {
                proof {
                    lemma_repr_model_seq(children@);
                }
                if x.index >= 0 && (x.index as usize) < children.len() {
                    Some(vec_index(children, x.index as usize))
                } else {
                    None
                }
            },
            _ => None,
        }
    }
}

/// The empty hash-encoded path.
#[derive(Debug, PartialEq)]
pub struct KeyNil;

/// A hash-encoded segment followed by the rest of such a path.
#[derive(Debug, PartialEq)]
pub struct KeyCons {
    pub segment: KeySegment,
    pub rest: Box<SegmentPath>,
}

/// A whole path in the hash-encoded variant, in the same two cons-list
/// forms as `Path`.
#[derive(Debug, PartialEq)]
pub enum SegmentPath {
    Nil(KeyNil),
    Cons(KeyCons),
}

impl SegmentPath {
    /// The model of the path: its segments, in order.
    pub open spec fn model(self) -> Seq<KeySegment>
        decreases self,
    {
        match self {
            SegmentPath::Nil(_) => Seq::empty(),
            SegmentPath::Cons(c) => seq![c.segment] + (*c.rest).model(),
        }
    }
}

impl View for SegmentPath {
    type V = Seq<KeySegment>;

    open spec fn view(&self) -> Seq<KeySegment> {
        (*self).model()
    }
}

/// The representation a whole hash-encoded path addresses.
pub open spec fn spec_access_segments(r: SpecRepr, segs: Seq<KeySegment>) -> Option<SpecRepr>
    decreases segs.len(),
{
    if segs.len() == 0 {
        Some(r)
    } else {
        match spec_access_segment(r, segs[0]) {
            Some(c) => spec_access_segments(c, segs.drop_first()),
            None => None,
        }
    }
}

impl Repr {
    /// The representation a hash-encoded path addresses, segment by
    /// segment; the empty path addresses the root itself.
    pub fn access_segments<'a>(&'a self, path: &'a SegmentPath) -> (r: Option<&'a Repr>)
        ensures
            (match r {
                Some(c) => spec_access_segments(self@, path@) == Some(c@),
                None => spec_access_segments(self@, path@) is None,
            }),
    {
        let mut cur: &'a Repr = self;
        let mut p: &'a SegmentPath = path;
        loop
            invariant
                spec_access_segments(self@, path@) == spec_access_segments(cur@, p@),
            decreases p@.len(),
        {
            match p {
                SegmentPath::Nil(_) => {
                    return Some(cur);
                },
                SegmentPath::Cons(c) => {
                    proof {
                        assert(p@ == seq![c.segment] + (*c.rest)@);
                        assert(p@[0] == c.segment);
                        assert(p@.drop_first() =~= (*c.rest)@);
                    }
                    match cur.access(&c.segment) {
                        Some(nxt) => {
                            cur = nxt;
                            p = &c.rest;
                        },
                        None => {
                            return None;
                        },
                    }
                },
            }
        }
    }
}

/// The position of the first field whose encoded name is `syms`, or `-1`.
pub open spec fn spec_name_key_index(fields: Seq<SpecReprField>, syms: Seq<KeySym>) -> int
    decreases fields,
{
    if fields.len() == 0 {
        -1
    } else if spec_encode_name(fields[0].name) == syms {
        0
    } else {
        let r = spec_name_key_index(fields.drop_first(), syms);
        if r < 0 {
            -1
        } else {
            r + 1
        }
    }
}

proof fn lemma_name_key_index_first(fields: Seq<SpecReprField>, syms: Seq<KeySym>, i: int)
    requires
        0 <= i < fields.len(),
        spec_encode_name(fields[i].name) == syms,
        forall|k: int| 0 <= k < i ==> spec_encode_name((#[trigger] fields[k]).name) != syms,
    ensures
        spec_name_key_index(fields, syms) == i,
    decreases fields,
{
    if i > 0 {
        assert(spec_encode_name(fields[0].name) != syms);
        assert forall|k: int|
            0 <= k < i - 1 implies spec_encode_name(
            (#[trigger] fields.drop_first()[k]).name,
        ) != syms by {
            assert(fields.drop_first()[k] == fields[k + 1]);
        }
        lemma_name_key_index_first(fields.drop_first(), syms, i - 1);
    }
}

proof fn lemma_name_key_index_absent(fields: Seq<SpecReprField>, syms: Seq<KeySym>)
    requires
        forall|k: int| 0 <= k < fields.len() ==> spec_encode_name((#[trigger] fields[k]).name)
            != syms,
    ensures
        spec_name_key_index(fields, syms) < 0,
    decreases fields,
{
    if fields.len() > 0 {
        assert forall|k: int|
            0 <= k < fields.drop_first().len() implies spec_encode_name(
            (#[trigger] fields.drop_first()[k]).name,
        ) != syms by {
            assert(fields.drop_first()[k] == fields[k + 1]);
        }
        lemma_name_key_index_absent(fields.drop_first(), syms);
    }
}

/// Agreement law: because the character-marker encoding is injective,
/// selecting by an encoded name finds exactly the field the plain name
/// finds.
pub proof fn lemma_encoded_access_agrees(fields: Seq<SpecReprField>, name: Seq<char>)
    ensures
        spec_name_key_index(fields, spec_encode_name(name)) == spec_field_index(fields, name),
    decreases fields,
{
    if fields.len() > 0 {
        if spec_encode_name(fields[0].name) == spec_encode_name(name) {
            crate::key::lemma_encode_name_injective(fields[0].name, name);
        }
        lemma_encoded_access_agrees(fields.drop_first(), name);
    }
}

fn syms_eq(a: &Vec<KeySym>, b: &Vec<KeySym>) -> (r: bool)
    ensures
        r == (a@ == b@),
{
    if a.len() != b.len() {
        proof {
            assert(a@ != b@);
        }
        return false;
    }
    let n = a.len();
    let mut i: usize = 0;
    while i < n
        invariant
            i <= n,
            n == a@.len() == b@.len(),
            forall|k: int| 0 <= k < i ==> a@[k] == b@[k],
        decreases n - i,
    {
        if *vec_index(a, i) != *vec_index(b, i) {
            proof {
                assert(a@[i as int] != b@[i as int]);
            }
            return false;
        }
        i = i + 1;
    }
    proof {
        assert(a@ =~= b@);
    }
    true
}

/// The capability of a representation to produce the child for one
/// character-marker-encoded key.
pub trait AccessKey {
    /// The model-level meaning of following an encoded name key.
    spec fn keyed_name(&self, syms: Seq<KeySym>) -> Option<SpecRepr>;

    /// The model-level meaning of following an encoded index key.
    spec fn keyed_index(&self, digits: Seq<char>) -> Option<SpecRepr>;

    /// The table field whose encoded name matches the key, if any.
    fn access_name_key<'a>(&'a self, key: &KeyName) -> (r: Option<&'a Repr>)
        ensures
            (match r {
                Some(c) => self.keyed_name(key.syms@) == Some(c@),
                None => self.keyed_name(key.syms@) is None,
            }),
    ;

    /// The array slot whose encoded position matches the key, if any.
    fn access_index_key<'a>(&'a self, key: &KeyIndex) -> (r: Option<&'a Repr>)
        ensures
            (match r {
                Some(c) => self.keyed_index(key.digits@) == Some(c@),
                None => self.keyed_index(key.digits@) is None,
            }),
    ;
}

/// The first position below `len` whose decimal rendering is `digits`, or
/// `-1`; by encoder injectivity there is at most one such position.
pub open spec fn spec_index_key_pos(len: nat, digits: Seq<char>) -> int
    decreases len,
{
    if len == 0 {
        -1
    } else {
        let r = spec_index_key_pos((len - 1) as nat, digits);
        if r >= 0 {
            r
        } else if spec_decimal((len - 1) as nat) == digits {
            len - 1
        } else {
            -1
        }
    }
}

proof fn lemma_index_key_pos_extends(k: nat, len: nat, digits: Seq<char>)
    requires
        k <= len,
        spec_index_key_pos(k, digits) >= 0,
    ensures
        spec_index_key_pos(len, digits) == spec_index_key_pos(k, digits),
    decreases len,
{
    if len > k {
        lemma_index_key_pos_extends(k, (len - 1) as nat, digits);
    }
}

/// The slot at the position whose decimal rendering is `digits`, if any.
pub open spec fn spec_index_key_slot(children: Seq<SpecRepr>, digits: Seq<char>) -> Option<
    SpecRepr,
> {
    let i = spec_index_key_pos(children.len(), digits);
    if i < 0 {
        None
    } else {
        Some(children[i])
    }
}

impl AccessKey for Repr {
    open spec fn keyed_name(&self, syms: Seq<KeySym>) -> Option<SpecRepr> {
        match self@ {
            SpecRepr::Table(fields) => {
                let i = spec_name_key_index(fields, syms);
                if i < 0 {
                    None
                } else {
                    Some(fields[i].value)
                }
            },
            _ => None,
        }
    }

    open spec fn keyed_index(&self, digits: Seq<char>) -> Option<SpecRepr> {
        match self@ {
            SpecRepr::Array(children) => spec_index_key_slot(children, digits),
            _ => None,
        }
    }

    #[verifier::loop_isolation(false)]
    fn access_name_key<'a>(&'a self, key: &KeyName) -> (r: Option<&'a Repr>) {
        match self {
            Repr::Table(fields) => {
                proof {
                    lemma_repr_model_fields(fields@);
                }
                let ghost fm = repr_model_fields(fields@);
                let cnt = fields.len();
                let mut i: usize = 0;
                while i < cnt
                    invariant
                        i <= cnt,
                        forall|k: int|
                            0 <= k < i ==> spec_encode_name((#[trigger] fm[k]).name) != key.syms@,
                    decreases cnt - i,
                {
                    let f = vec_index(fields, i);
                    let enc = crate::key::KeyName::encode(f.name.as_str());
                    if syms_eq(&enc.syms, &key.syms) {
                        proof {
                            assert(spec_encode_name(fm[i as int].name) == key.syms@);
                            lemma_name_key_index_first(fm, key.syms@, i as int);
                        }
                        return Some(&f.value);
                    }
                    i = i + 1;
                }
                proof {
                    lemma_name_key_index_absent(fm, key.syms@);
                }
                None
            },
            _ => None,
        }
    }

    #[verifier::loop_isolation(false)]
    fn access_index_key<'a>(&'a self, key: &KeyIndex) -> (r: Option<&'a Repr>) {
        match self {
            Repr::Array(children) => {
                proof {
                    lemma_repr_model_seq(children@);
                }
                let ghost ms = repr_model_seq(children@);
                let cnt = children.len();
                let mut i: usize = 0;
                while i < cnt
                    invariant
                        i <= cnt,
                        spec_index_key_pos(i as nat, key.digits@) < 0,
                    decreases cnt - i,
                {
                    let enc = KeyIndex::encode(i);
                    let mut eq = enc.digits.len() == key.digits.len();
                    let mut k: usize = 0;
                    while eq && k < enc.digits.len()
                        invariant
                            k <= enc.digits@.len(),
                            enc.digits@ == spec_decimal(i as nat),
                            eq ==> enc.digits@.len() == key.digits@.len(),
                            eq ==> forall|m: int| 0 <= m < k ==> enc.digits@[m] == key.digits@[m],
                            !eq ==> enc.digits@ != key.digits@,
                        decreases enc.digits@.len() - k,
                    {
                        if *vec_index(&enc.digits, k) != *vec_index(&key.digits, k) {
                            proof {
                                assert(enc.digits@[k as int] != key.digits@[k as int]);
                            }
                            eq = false;
                        }
                        k = k + 1;
                    }
                    if eq {
                        proof {
                            assert(enc.digits@ =~= key.digits@);
                            assert(spec_decimal(i as nat) == key.digits@);
                            assert(spec_index_key_pos((i + 1) as nat, key.digits@) == i as int);
                            lemma_index_key_pos_extends((i + 1) as nat, cnt as nat, key.digits@);
                            assert(ms.len() == children@.len());
                        }
                        return Some(vec_index(children, i));
                    }
                    i = i + 1;
                }
                proof {
                    assert(ms.len() == children@.len());
                    assert(spec_index_key_pos(ms.len(), key.digits@) < 0);
                }
                None
            },
            _ => None,
        }
    }
}

/// Empty-path law: the accessor on the empty path is the identity, so a
/// read at the root is exactly a conversion of the root representation.
pub proof fn lemma_get_root(r: SpecRepr, t: Target)
    ensures
        spec_access_path(r, Seq::<SpecKey>::empty()) == Some(r),
        spec_get(r, Seq::<SpecKey>::empty(), t) == spec_convert(r, t),
{
}

/// Several configuration declarations annotated with one shared target
/// name. A value of the shared name carries every variant's representation
/// and knows which declaration it came from.
pub struct SharedRepr {
    pub variants: Vec<Repr>,
    pub active: usize,
}

impl SharedRepr {
    /// The carried declaration index addresses one of the variants.
    pub open spec fn wf(self) -> bool {
        self.active < self.variants@.len()
    }
}

/// The meaning of a read through a shared name: the capability set is the
/// intersection of the variants' capability sets, so the read resolves
/// exactly where every variant alone would resolve it, and then yields the
/// active variant's value.
pub open spec fn spec_shared_get(
    variants: Seq<SpecRepr>,
    active: int,
    keys: Seq<SpecKey>,
    t: Target,
) -> Option<SpecConverted> {
    if forall|i: int| 0 <= i < variants.len() ==> spec_get(#[trigger] variants[i], keys, t)
        is Some {
        spec_get(variants[active], keys, t)
    } else {
        None
    }
}

impl Get for SharedRepr {
    open spec fn inv(&self) -> bool {
        self.wf()
    }

    open spec fn resolved(&self, keys: Seq<SpecKey>, t: Target) -> Option<SpecConverted> {
        spec_shared_get(repr_model_seq(self.variants@), self.active as int, keys, t)
    }

    /// Intersection-of-capabilities: the read is accepted exactly when
    /// every variant sharing the name could satisfy it, and the returned
    /// value is the active variant's.
    fn get(&self, path: &Path, t: &Target) -> (r: Result<Converted, GetError>) {
        proof {
            lemma_repr_model_seq(self.variants@);
        }
        let ghost ms = repr_model_seq(self.variants@);
        let n = self.variants.len();
        let mut i: usize = 0;
        let mut out: Option<Result<Converted, GetError>> = None;
        while i < n
            invariant
                i <= n,
                n == self.variants@.len(),
                ms == repr_model_seq(self.variants@),
                ms.len() == n,
                forall|k: int| 0 <= k < n ==> #[trigger] ms[k] == self.variants@[k]@,
                forall|k: int| 0 <= k < i ==> spec_get(#[trigger] ms[k], path@, *t) is Some,
                self.active < n,
                (match out {
                    Some(res) => {
                        &&& self.active < i
                        &&& (res matches Ok(c) && Some(c@) == spec_get(
                            ms[self.active as int],
                            path@,
                            *t,
                        ))
                    },
                    None => i <= self.active || spec_get(ms[self.active as int], path@, *t)
                        is None,
                }),
            decreases n - i,
        {
            let v = vec_index(&self.variants, i);
            match v.get(path, t) {
                Ok(c) => {
                    if i == self.active {
                        out = Some(Ok(c));
                    }
                },
                Err(e) => {
                    proof {
                        assert(spec_get(ms[i as int], path@, *t) is None);
                        assert(!(forall|k: int|
                            0 <= k < n ==> spec_get(#[trigger] ms[k], path@, *t) is Some));
                    }
                    return Err(e);
                },
            }
            i = i + 1;
        }
        match out {
            Some(res) => res,
            None => {
                // Unreachable: every variant resolved, the active one among
                // them, so the result was recorded.
                proof {
                    assert(spec_get(ms[self.active as int], path@, *t) is Some);
                    assert(false);
                }
                Err(GetError::NotFound)
            },
        }
    }
}

} // verus!
