use vstd::prelude::*;
use crate::value::{Value, SpecValue, model_seq, model_entries, lemma_model_seq, lemma_model_entries,
    spec_unique_keys};
use crate::key::{fnv1a_of, KeySegmentName};
use crate::strutil::{str_chars, spec_decimal, decimal_string, push_char, lemma_decimal_chars};
use crate::key::lemma_encode_index_injective;

verus! {

/// One named field of a compiled table representation: the source key, the
/// sanitized field identifier, the hash-encoded key, and the child.
#[derive(Debug, PartialEq)]
pub struct ReprField {
    pub name: String,
    pub ident: String,
    pub hash: u64,
    pub value: Repr,
}

/// The compiled representation of one configuration tree node. It mirrors
/// the merged `Value`, with every table field carrying its canonical key
/// encodings and a generated identifier, unique within its table.
#[derive(Debug, PartialEq)]
pub enum Repr {
    Nil,
    Boolean(bool),
    PosInt(u64),
    NegInt(i64),
    Float(String),
    Str(String),
    Array(Vec<Repr>),
    Table(Vec<ReprField>),
}

/// The model of a compiled field.
#[verifier::ext_equal]
pub ghost struct SpecReprField {
    pub name: Seq<char>,
    pub ident: Seq<char>,
    pub hash: u64,
    pub value: SpecRepr,
}

/// The model of a compiled representation.
#[verifier::ext_equal]
pub ghost enum SpecRepr {
    Nil,
    Boolean(bool),
    PosInt(u64),
    NegInt(i64),
    Float(Seq<char>),
    Str(Seq<char>),
    Array(Seq<SpecRepr>),
    Table(Seq<SpecReprField>),
}

impl ReprField {
    pub open spec fn model(self) -> SpecReprField
        decreases self,
    {
        SpecReprField {
            name: self.name@,
            ident: self.ident@,
            hash: self.hash,
            value: self.value.model(),
        }
    }
}

impl View for ReprField {
    type V = SpecReprField;

    open spec fn view(&self) -> SpecReprField {
        (*self).model()
    }
}

impl Repr {
    pub open spec fn model(self) -> SpecRepr
        decreases self,
    {
        match self {
            Repr::Nil => SpecRepr::Nil,
            Repr::Boolean(b) => SpecRepr::Boolean(b),
            Repr::PosInt(u) => SpecRepr::PosInt(u),
            Repr::NegInt(i) => SpecRepr::NegInt(i),
            Repr::Float(s) => SpecRepr::Float(s@),
            Repr::Str(s) => SpecRepr::Str(s@),
            Repr::Array(v) => SpecRepr::Array(repr_model_seq(v@)),
            Repr::Table(v) => SpecRepr::Table(repr_model_fields(v@)),
        }
    }
}

impl View for Repr {
    type V = SpecRepr;

    open spec fn view(&self) -> SpecRepr {
        (*self).model()
    }
}

/// The models of a sequence of child representations, in order.
pub open spec fn repr_model_seq(s: Seq<Repr>) -> Seq<SpecRepr>
    decreases s,
{
    if s.len() == 0 {
        Seq::empty()
    } else {
        seq![s[0].model()] + repr_model_seq(s.drop_first())
    }
}

/// The models of a sequence of compiled fields, in order.
pub open spec fn repr_model_fields(s: Seq<ReprField>) -> Seq<SpecReprField>
    decreases s,
{
    if s.len() == 0 {
        Seq::empty()
    } else {
        seq![s[0].model()] + repr_model_fields(s.drop_first())
    }
}

pub proof fn lemma_repr_model_seq(s: Seq<Repr>)
    ensures
        repr_model_seq(s).len() == s.len(),
        forall|i: int| 0 <= i < s.len() ==> #[trigger] repr_model_seq(s)[i] == s[i]@,
    decreases s,
{
    if s.len() > 0 {
        lemma_repr_model_seq(s.drop_first());
        assert forall|i: int| 0 <= i < s.len() implies #[trigger] repr_model_seq(s)[i] == s[i]@ by {
            if i > 0 {
                assert(s.drop_first()[i - 1] == s[i]);
            }
        }
    }
}

pub proof fn lemma_repr_model_fields(s: Seq<ReprField>)
    ensures
        repr_model_fields(s).len() == s.len(),
        forall|i: int| 0 <= i < s.len() ==> #[trigger] repr_model_fields(s)[i] == s[i]@,
    decreases s,
{
    if s.len() > 0 {
        lemma_repr_model_fields(s.drop_first());
        assert forall|i: int|
            0 <= i < s.len() implies #[trigger] repr_model_fields(s)[i] == s[i]@ by {
            if i > 0 {
                assert(s.drop_first()[i - 1] == s[i]);
            }
        }
    }
}

/// A character that may start a generated field identifier.
pub open spec fn spec_ident_start(c: char) -> bool {
    ('A' <= c && c <= 'Z') || ('a' <= c && c <= 'z') || c == '_'
}

/// A character that may continue a generated field identifier.
pub open spec fn spec_ident_cont(c: char) -> bool {
    spec_ident_start(c) || ('0' <= c && c <= '9')
}

/// A name that is itself usable as a field identifier.
pub open spec fn spec_is_ident(s: Seq<char>) -> bool {
    &&& s.len() > 0
    &&& spec_ident_start(s[0])
    &&& forall|k: int| 0 <= k < s.len() ==> spec_ident_cont(#[trigger] s[k])
}

/// The shape reserved for positional fallback identifiers: an underscore
/// followed by digits only (the bare underscore included).
pub open spec fn spec_fallback_shape(s: Seq<char>) -> bool {
    &&& s.len() >= 1
    &&& s[0] == '_'
    &&& forall|k: int| 1 <= k < s.len() ==> '0' <= #[trigger] s[k] && s[k] <= '9'
}

/// The identifier generated for a table field: the source key where it is
/// identifier-safe and not of the reserved fallback shape, the positional
/// fallback otherwise.
pub open spec fn spec_field_ident(name: Seq<char>, index: int) -> Seq<char> {
    if spec_is_ident(name) && !spec_fallback_shape(name) {
        name
    } else {
        seq!['_'] + spec_decimal(index as nat)
    }
}

/// The compiled representation of a merged tree. Compilation is total:
/// an absent value compiles to the absent representation.
pub open spec fn spec_compile(v: SpecValue) -> SpecRepr
    decreases v,
{
    match v {
        SpecValue::Nil => SpecRepr::Nil,
        SpecValue::Boolean(b) => SpecRepr::Boolean(b),
        SpecValue::PosInt(u) => SpecRepr::PosInt(u),
        SpecValue::NegInt(i) => SpecRepr::NegInt(i),
        SpecValue::Float(s) => SpecRepr::Float(s),
        SpecValue::Str(s) => SpecRepr::Str(s),
        SpecValue::Array(s) => SpecRepr::Array(spec_compile_seq(s)),
        SpecValue::Table(s) => SpecRepr::Table(spec_compile_entries(s)),
    }
}

/// The compiled children of an array node, in order.
pub open spec fn spec_compile_seq(s: Seq<SpecValue>) -> Seq<SpecRepr>
    decreases s,
{
    if s.len() == 0 {
        Seq::empty()
    } else {
        spec_compile_seq(s.drop_last()).push(spec_compile(s.last()))
    }
}

/// The compiled fields of a table node, in order, each carrying its
/// position-aware identifier and hash-encoded key.
pub open spec fn spec_compile_entries(s: Seq<(Seq<char>, SpecValue)>) -> Seq<SpecReprField>
    decreases s,
{
    if s.len() == 0 {
        Seq::empty()
    } else {
        spec_compile_entries(s.drop_last()).push(
            SpecReprField {
                name: s.last().0,
                ident: spec_field_ident(s.last().0, s.len() - 1),
                hash: fnv1a_of(s.last().0),
                value: spec_compile(s.last().1),
            },
        )
    }
}

pub proof fn lemma_compile_seq(s: Seq<SpecValue>)
    ensures
        spec_compile_seq(s).len() == s.len(),
        forall|i: int|
            0 <= i < s.len() ==> #[trigger] spec_compile_seq(s)[i] == spec_compile(s[i]),
    decreases s,
{
    if s.len() > 0 {
        lemma_compile_seq(s.drop_last());
        assert forall|i: int|
            0 <= i < s.len() implies #[trigger] spec_compile_seq(s)[i] == spec_compile(s[i]) by {
            if i < s.len() - 1 {
                assert(s.drop_last()[i] == s[i]);
            }
        }
    }
}

pub proof fn lemma_compile_entries(s: Seq<(Seq<char>, SpecValue)>)
    ensures
        spec_compile_entries(s).len() == s.len(),
        forall|i: int|
            0 <= i < s.len() ==> #[trigger] spec_compile_entries(s)[i] == (SpecReprField {
                name: s[i].0,
                ident: spec_field_ident(s[i].0, i),
                hash: fnv1a_of(s[i].0),
                value: spec_compile(s[i].1),
            }),
    decreases s,
{
    if s.len() > 0 {
        lemma_compile_entries(s.drop_last());
        assert forall|i: int|
            0 <= i < s.len() implies #[trigger] spec_compile_entries(s)[i] == SpecReprField {
            name: s[i].0,
            ident: spec_field_ident(s[i].0, i),
            hash: fnv1a_of(s[i].0),
            value: spec_compile(s[i].1),
        } by {
            if i < s.len() - 1 {
                assert(s.drop_last()[i] == s[i]);
            }
        }
    }
}

fn ident_start(c: char) -> (r: bool)
    ensures
        r == spec_ident_start(c),
{
    ('A' <= c && c <= 'Z') || ('a' <= c && c <= 'z') || c == '_'
}

fn ident_cont(c: char) -> (r: bool)
    ensures
        r == spec_ident_cont(c),
{
    ident_start(c) || ('0' <= c && c <= '9')
}

fn is_ident(chars: &Vec<char>) -> (r: bool)
    ensures
        r == spec_is_ident(chars@),
{
    if chars.len() == 0 {
        return false;
    }
    if !ident_start(*vstd::std_specs::vec::vec_index(chars, 0)) {
        return false;
    }
    let mut k: usize = 1;
    while k < chars.len()
        invariant
            1 <= k <= chars@.len(),
            spec_ident_start(chars@[0]),
            forall|j: int| 0 <= j < k ==> spec_ident_cont(#[trigger] chars@[j]),
        decreases chars@.len() - k,
    {
        if !ident_cont(*vstd::std_specs::vec::vec_index(chars, k)) {
            return false;
        }
        k = k + 1;
    }
    true
}

fn is_fallback_shape(chars: &Vec<char>) -> (r: bool)
    ensures
        r == spec_fallback_shape(chars@),
{
    if chars.len() == 0 {
        return false;
    }
    if *vstd::std_specs::vec::vec_index(chars, 0) != '_' {
        return false;
    }
    let mut k: usize = 1;
    while k < chars.len()
        invariant
            1 <= k <= chars@.len(),
            chars@[0] == '_',
            forall|j: int| 1 <= j < k ==> '0' <= #[trigger] chars@[j] && chars@[j] <= '9',
        decreases chars@.len() - k,
    {
        let c = *vstd::std_specs::vec::vec_index(chars, k);
        if !('0' <= c && c <= '9') {
            return false;
        }
        k = k + 1;
    }
    true
}

/// The identifier generated for the table field `name` at position `index`.
pub fn field_ident(name: &String, index: usize) -> (r: String)
    ensures
        r@ == spec_field_ident(name@, index as int),
{
    let chars = str_chars(name.as_str());
    if is_ident(&chars) && !is_fallback_shape(&chars) {
        name.clone()
    } else {
        let mut r = String::new();
        push_char(&mut r, '_');
        let digits = decimal_string(index);
        r.append(digits.as_str());
        proof {
            assert(r@ =~= seq!['_'] + spec_decimal(index as nat));
        }
        r
    }
}

proof fn lemma_fallback_is_fallback_shape(index: int)
    requires
        index >= 0,
    ensures
        spec_fallback_shape(seq!['_'] + spec_decimal(index as nat)),
{
    let s = seq!['_'] + spec_decimal(index as nat);
    lemma_decimal_chars(index as nat);
    assert(s[0] == '_');
    assert forall|k: int| 1 <= k < s.len() implies '0' <= #[trigger] s[k] && s[k] <= '9' by {
        assert(s[k] == spec_decimal(index as nat)[k - 1]);
    }
}

proof fn lemma_field_ident_distinct(a: Seq<char>, i: int, b: Seq<char>, j: int)
    requires
        a != b,
        i != j,
        i >= 0,
        j >= 0,
    ensures
        spec_field_ident(a, i) != spec_field_ident(b, j),
{
    let keep_a = spec_is_ident(a) && !spec_fallback_shape(a);
    let keep_b = spec_is_ident(b) && !spec_fallback_shape(b);
    if keep_a && !keep_b {
        lemma_fallback_is_fallback_shape(j);
    } else if !keep_a && keep_b {
        lemma_fallback_is_fallback_shape(i);
    } else if !keep_a && !keep_b {
        if spec_field_ident(a, i) == spec_field_ident(b, j) {
            assert((seq!['_'] + spec_decimal(i as nat)).drop_first() =~= spec_decimal(i as nat));
            assert((seq!['_'] + spec_decimal(j as nat)).drop_first() =~= spec_decimal(j as nat));
            lemma_encode_index_injective(i as nat, j as nat);
        }
    }
}

/// Injective naming law: within one compiled table the generated field
/// identifiers are pairwise distinct — kept source keys never collide with
/// each other nor with a positional fallback, and fallbacks never collide
/// among themselves.
pub proof fn lemma_field_idents_unique(s: Seq<(Seq<char>, SpecValue)>)
    requires
        spec_unique_keys(s),
    ensures
        forall|i: int, j: int|
            0 <= i < j < s.len() ==> #[trigger] spec_compile_entries(s)[i].ident != (
            #[trigger] spec_compile_entries(s)[j]).ident,
{
    lemma_compile_entries(s);
    assert forall|i: int, j: int|
        0 <= i < j < s.len() implies #[trigger] spec_compile_entries(s)[i].ident != (
    #[trigger] spec_compile_entries(s)[j]).ident by {
        lemma_field_ident_distinct(s[i].0, i, s[j].0, j);
    }
}

/// A tree that holds an absent value somewhere: such a tree compiles only
/// with a designated absent representation, which `compile_strict` refuses.
pub open spec fn spec_has_nil(v: SpecValue) -> bool
    decreases v,
{
    match v {
        SpecValue::Nil => true,
        SpecValue::Array(s) => spec_seq_has_nil(s),
        SpecValue::Table(s) => spec_entries_has_nil(s),
        _ => false,
    }
}

/// Whether any element of the sequence holds an absent value.
pub open spec fn spec_seq_has_nil(s: Seq<SpecValue>) -> bool
    decreases s,
{
    if s.len() == 0 {
        false
    } else {
        spec_has_nil(s[0]) || spec_seq_has_nil(s.drop_first())
    }
}

/// Whether any entry's value holds an absent value.
pub open spec fn spec_entries_has_nil(s: Seq<(Seq<char>, SpecValue)>) -> bool
    decreases s,
{
    if s.len() == 0 {
        false
    } else {
        spec_has_nil(s[0].1) || spec_entries_has_nil(s.drop_first())
    }
}

/// An unresolved absent value: every absent value must be overwritten by a
/// later source before the strict compiler accepts the tree.
#[derive(Debug, PartialEq)]
pub struct NilError;

impl Value {
    /// Compiles this tree into its representation. Compilation is total;
    /// an absent value becomes the absent representation.
    #[verifier::loop_isolation(false)]
    pub fn compile(self) -> (r: Repr)
        ensures
            r@ == spec_compile(self@),
        decreases self,
    {
        let ghost self0 = self;
        match self {
            Value::Nil => Repr::Nil,
            Value::Boolean(b) => Repr::Boolean(b),
            Value::PosInt(u) => Repr::PosInt(u),
            Value::NegInt(i) => Repr::NegInt(i),
            Value::Float(s) => Repr::Float(s),
            Value::Str(s) => Repr::Str(s),
            Value::Array(items) => {
                let ghost items0 = items;
                proof {
                    lemma_model_seq(items0@);
                    lemma_compile_seq(model_seq(items0@));
                }
                let mut out: Vec<Repr> = Vec::new();
                let mut rest = items;
                let ghost mut j: int = 0;
                proof {
                    assert(rest@ =~= items0@.skip(0));
                }
                while rest.len() > 0
                    invariant
                        0 <= j <= items0@.len(),
                        rest@ == items0@.skip(j),
                        out@.len() == j,
                        repr_model_seq(out@) =~= spec_compile_seq(model_seq(items0@)).subrange(
                            0,
                            j,
                        ),
                    decreases rest@.len(),
                {
                    let ghost out_before = out;
                    let x = rest.remove(0);
                    proof {
                        assert(x == items0@[j]);
                        assert(rest@ =~= items0@.skip(j + 1));
                        assert(decreases_to!(self0 => self0->Array_0));
                        assert(decreases_to!(items0 => items0@));
                        assert(decreases_to!(items0@ => items0@[j]));
                    }
                    let c = x.compile();
                    out.push(c);
                    proof {
                        lemma_repr_model_seq(out_before@);
                        lemma_repr_model_seq(out@);
                        assert(model_seq(items0@)[j] == x@);
                        j = j + 1;
                        assert(repr_model_seq(out@) =~= spec_compile_seq(
                            model_seq(items0@),
                        ).subrange(0, j));
                    }
                }
                proof {
                    assert(spec_compile_seq(model_seq(items0@)).subrange(
                        0,
                        items0@.len() as int,
                    ) =~= spec_compile_seq(model_seq(items0@)));
                }
                Repr::Array(out)
            },
            Value::Table(entries) => {
                let ghost entries0 = entries;
                proof {
                    lemma_model_entries(entries0@);
                    lemma_compile_entries(model_entries(entries0@));
                }
                let mut out: Vec<ReprField> = Vec::new();
                let mut rest = entries;
                proof {
                    assert(rest@ =~= entries0@.skip(0));
                }
                while rest.len() > 0
                    invariant
                        out@.len() <= entries0@.len(),
                        rest@ == entries0@.skip(out@.len() as int),
                        repr_model_fields(out@) =~= spec_compile_entries(
                            model_entries(entries0@),
                        ).subrange(0, out@.len() as int),
                    decreases rest@.len(),
                {
                    let ghost out_before = out;
                    let index = out.len();
                    let ghost j: int = index as int;
                    let (k, v) = rest.remove(0);
                    proof {
                        assert((k, v) == entries0@[j]);
                        assert(rest@ =~= entries0@.skip(j + 1));
                        assert(model_entries(entries0@)[j] == (k@, v@));
                        assert(decreases_to!(self0 => self0->Table_0));
                        assert(decreases_to!(entries0 => entries0@));
                        assert(decreases_to!(entries0@ => entries0@[j]));
                        assert(decreases_to!(entries0@[j] => entries0@[j].1));
                    }
                    let ident = field_ident(&k, index);
                    let hash = KeySegmentName::of(k.as_str()).hash;
                    let value = v.compile();
                    out.push(ReprField { name: k, ident, hash, value });
                    proof {
                        lemma_repr_model_fields(out_before@);
                        lemma_repr_model_fields(out@);
                        assert(repr_model_fields(out@) =~= spec_compile_entries(
                            model_entries(entries0@),
                        ).subrange(0, j + 1));
                    }
                }
                proof {
                    assert(spec_compile_entries(model_entries(entries0@)).subrange(
                        0,
                        entries0@.len() as int,
                    ) =~= spec_compile_entries(model_entries(entries0@)));
                }
                Repr::Table(out)
            },
        }
    }

    /// Whether the tree holds an absent value anywhere.
    #[verifier::loop_isolation(false)]
    pub fn has_nil(&self) -> (r: bool)
        ensures
            r == spec_has_nil(self@),
        decreases self,
    {
        match self {
            Value::Nil => true,
            Value::Array(items) => {
                proof {
                    lemma_model_seq(items@);
                }
                let ghost ms = model_seq(items@);
                let n = items.len();
                let mut i: usize = 0;
                proof {
                    assert(ms.skip(0) =~= ms);
                }
                while i < n
                    invariant
                        i <= n,
                        spec_seq_has_nil(ms) == spec_seq_has_nil(ms.skip(i as int)),
                    decreases n - i,
                {
                    let child = vstd::std_specs::vec::vec_index(items, i);
                    proof {
                        assert(ms.skip(i as int)[0] == ms[i as int]);
                        assert(ms.skip(i as int).drop_first() =~= ms.skip(i as int + 1));
                        assert(decreases_to!(self => *child)) by {
                            assert(decreases_to!(self => self->Array_0));
                            assert(decreases_to!(items => items@));
                            assert(decreases_to!(items@ => items@[i as int]));
                        }
                    }
                    if child.has_nil() {
                        return true;
                    }
                    i = i + 1;
                }
                proof {
                    assert(ms.skip(n as int) =~= Seq::<SpecValue>::empty());
                }
                false
            },
            Value::Table(entries) => {
                proof {
                    lemma_model_entries(entries@);
                }
                let ghost ms = model_entries(entries@);
                let n = entries.len();
                let mut i: usize = 0;
                proof {
                    assert(ms.skip(0) =~= ms);
                }
                while i < n
                    invariant
                        i <= n,
                        spec_entries_has_nil(ms) == spec_entries_has_nil(ms.skip(i as int)),
                    decreases n - i,
                {
                    let entry = vstd::std_specs::vec::vec_index(entries, i);
                    proof {
                        assert(ms.skip(i as int)[0] == ms[i as int]);
                        assert(ms.skip(i as int).drop_first() =~= ms.skip(i as int + 1));
                        assert(decreases_to!(self => entry.1)) by {
                            assert(decreases_to!(self => self->Table_0));
                            assert(decreases_to!(entries => entries@));
                            assert(decreases_to!(entries@ => entries@[i as int]));
                            assert(decreases_to!(entries@[i as int] => entries@[i as int].1));
                        }
                    }
                    if entry.1.has_nil() {
                        return true;
                    }
                    i = i + 1;
                }
                proof {
                    assert(ms.skip(n as int) =~= Seq::<(Seq<char>, SpecValue)>::empty());
                }
                false
            },
            _ => false,
        }
    }

    /// Strict compilation, for sources where every absent value must have
    /// been overwritten before the declaration is accepted: a tree holding
    /// an unresolved absent value is rejected, any other compiles as
    /// `compile` does.
    pub fn compile_strict(self) -> (r: Result<Repr, NilError>)
        ensures
            (r is Ok) == !spec_has_nil(self@),
            (r matches Ok(rep) ==> rep@ == spec_compile(self@)),
    {
        if self.has_nil() {
            Err(NilError)
        } else {
            Ok(self.compile())
        }
    }
}

} // verus!
