use vstd::prelude::*;
use vstd::std_specs::vec::vec_index;
use crate::repr::{Repr, ReprField, SpecRepr, SpecReprField, repr_model_seq, repr_model_fields,
    lemma_repr_model_seq, lemma_repr_model_fields};
use crate::strutil::str_eq;

verus! {

/// Unsigned integer target widths.
#[derive(PartialEq, Eq, Structural, Clone, Copy, Debug)]
pub enum UIntTy {
    U8,
    U16,
    U32,
    U64,
    U128,
    Usize,
}

/// Signed integer target widths.
#[derive(PartialEq, Eq, Structural, Clone, Copy, Debug)]
pub enum SIntTy {
    I8,
    I16,
    I32,
    I64,
    I128,
    Isize,
}

/// Floating-point target widths. The core carries float values opaquely
/// (as literal text or as the integer they widen from) and never computes
/// with them.
#[derive(PartialEq, Eq, Structural, Clone, Copy, Debug)]
pub enum FloatTy {
    F32,
    F64,
}

/// The two map output containers: one sorted (order irrelevant, the
/// mapping is the content) and one preserving the table's insertion order.
#[derive(PartialEq, Eq, Structural, Clone, Copy, Debug)]
pub enum MapFlavor {
    Sorted,
    Insertion,
}

/// A user-declared structure shape that opts into population from a
/// compatible representation.
#[derive(Debug, PartialEq)]
pub struct StructShape {
    pub fields: Fields,
}

/// The three shapes a declared structure may have: no fields (matches any
/// representation), positional fields (matches an array), named fields
/// (matches a table).
#[derive(Debug, PartialEq)]
pub enum Fields {
    Unit,
    Unnamed(Vec<Target>),
    Named(Vec<FieldDecl>),
}

/// One named field of a declared structure: its identifier, the source key
/// that overrides it if the key is no identifier, and the field's type.
#[derive(Debug, PartialEq)]
pub struct FieldDecl {
    pub ident: String,
    pub rename: Option<String>,
    pub target: Target,
}

/// A target type a caller may request at a path.
#[derive(Debug, PartialEq)]
pub enum Target {
    Bool,
    UInt(UIntTy),
    SInt(SIntTy),
    Float(FloatTy),
    Str,
    OwnedString,
    OptionOf(Box<Target>),
    VecOf(Box<Target>),
    MapOf(MapFlavor, Box<Target>),
    StructOf(StructShape),
}

/// A float value as the core carries it: the source literal's text, or the
/// integer it widens from. Realising the number is left to the caller.
#[derive(Debug, PartialEq)]
pub enum FloatLit {
    Lit(String),
    Pos(u64),
    Neg(i64),
}

/// A converted value: the result of resolving a representation against a
/// target type.
#[derive(Debug, PartialEq)]
pub enum Converted {
    Bool(bool),
    UInt(UIntTy, u128),
    SInt(SIntTy, i128),
    Float(FloatTy, FloatLit),
    Str(String),
    NoneOpt,
    SomeOpt(Box<Converted>),
    List(Vec<Converted>),
    MapEntries(MapFlavor, Vec<(String, Converted)>),
    StructVal(Vec<Converted>),
    Unit,
}

/// The model of a carried float.
#[verifier::ext_equal]
pub ghost enum SpecFloatLit {
    Lit(Seq<char>),
    Pos(u64),
    Neg(i64),
}

/// The model of a converted value.
#[verifier::ext_equal]
pub ghost enum SpecConverted {
    Bool(bool),
    UInt(UIntTy, u128),
    SInt(SIntTy, i128),
    Float(FloatTy, SpecFloatLit),
    Str(Seq<char>),
    NoneOpt,
    SomeOpt(Box<SpecConverted>),
    List(Seq<SpecConverted>),
    MapEntries(MapFlavor, Seq<(Seq<char>, SpecConverted)>),
    StructVal(Seq<SpecConverted>),
    Unit,
}

impl FloatLit {
    pub open spec fn model(self) -> SpecFloatLit {
        match self {
            FloatLit::Lit(s) => SpecFloatLit::Lit(s@),
            FloatLit::Pos(u) => SpecFloatLit::Pos(u),
            FloatLit::Neg(i) => SpecFloatLit::Neg(i),
        }
    }
}

impl View for FloatLit {
    type V = SpecFloatLit;

    open spec fn view(&self) -> SpecFloatLit {
        (*self).model()
    }
}

impl Converted {
    pub open spec fn model(self) -> SpecConverted
        decreases self,
    {
        match self {
            Converted::Bool(b) => SpecConverted::Bool(b),
            Converted::UInt(w, v) => SpecConverted::UInt(w, v),
            Converted::SInt(w, v) => SpecConverted::SInt(w, v),
            Converted::Float(w, f) => SpecConverted::Float(w, f@),
            Converted::Str(s) => SpecConverted::Str(s@),
            Converted::NoneOpt => SpecConverted::NoneOpt,
            Converted::SomeOpt(b) => SpecConverted::SomeOpt(Box::new((*b).model())),
            Converted::List(v) => SpecConverted::List(converted_model_seq(v@)),
            Converted::MapEntries(fl, v) => SpecConverted::MapEntries(
                fl,
                converted_model_entries(v@),
            ),
            Converted::StructVal(v) => SpecConverted::StructVal(converted_model_seq(v@)),
            Converted::Unit => SpecConverted::Unit,
        }
    }
}

impl View for Converted {
    type V = SpecConverted;

    open spec fn view(&self) -> SpecConverted {
        (*self).model()
    }
}

/// The models of a sequence of converted values, in order.
pub open spec fn converted_model_seq(s: Seq<Converted>) -> Seq<SpecConverted>
    decreases s,
{
    if s.len() == 0 {
        Seq::empty()
    } else {
        seq![s[0].model()] + converted_model_seq(s.drop_first())
    }
}

/// The models of a sequence of converted map entries, in order.
pub open spec fn converted_model_entries(s: Seq<(String, Converted)>) -> Seq<
    (Seq<char>, SpecConverted),
>
    decreases s,
{
    if s.len() == 0 {
        Seq::empty()
    } else {
        seq![(s[0].0@, s[0].1.model())] + converted_model_entries(s.drop_first())
    }
}

pub proof fn lemma_converted_model_seq(s: Seq<Converted>)
    ensures
        converted_model_seq(s).len() == s.len(),
        forall|i: int| 0 <= i < s.len() ==> #[trigger] converted_model_seq(s)[i] == s[i]@,
    decreases s,
{
    if s.len() > 0 {
        lemma_converted_model_seq(s.drop_first());
        assert forall|i: int|
            0 <= i < s.len() implies #[trigger] converted_model_seq(s)[i] == s[i]@ by {
            if i > 0 {
                assert(s.drop_first()[i - 1] == s[i]);
            }
        }
    }
}

pub proof fn lemma_converted_model_entries(s: Seq<(String, Converted)>)
    ensures
        converted_model_entries(s).len() == s.len(),
        forall|i: int|
            0 <= i < s.len() ==> #[trigger] converted_model_entries(s)[i] == (s[i].0@, s[i].1@),
    decreases s,
{
    if s.len() > 0 {
        lemma_converted_model_entries(s.drop_first());
        assert forall|i: int|
            0 <= i < s.len() implies #[trigger] converted_model_entries(s)[i] == (s[i].0@, s[
            i].1@) by {
            if i > 0 {
                assert(s.drop_first()[i - 1] == s[i]);
            }
        }
    }
}

/// Whether a target has a well-defined default value, used when an absent
/// representation is converted to it directly.
pub open spec fn spec_has_default(t: Target) -> bool {
    match t {
        Target::Bool => true,
        Target::UInt(_) => true,
        Target::SInt(_) => true,
        Target::Float(_) => true,
        Target::Str => true,
        Target::OwnedString => true,
        Target::VecOf(_) => true,
        Target::MapOf(_, _) => true,
        Target::OptionOf(_) => false,
        Target::StructOf(_) => false,
    }
}

/// The default value of a target that has one: false, zero, empty.
pub open spec fn spec_default_of(t: Target) -> SpecConverted {
    match t {
        Target::Bool => SpecConverted::Bool(false),
        Target::UInt(w) => SpecConverted::UInt(w, 0),
        Target::SInt(w) => SpecConverted::SInt(w, 0),
        Target::Float(w) => SpecConverted::Float(w, SpecFloatLit::Pos(0)),
        Target::Str => SpecConverted::Str(Seq::empty()),
        Target::OwnedString => SpecConverted::Str(Seq::empty()),
        Target::VecOf(_) => SpecConverted::List(Seq::empty()),
        Target::MapOf(fl, _) => SpecConverted::MapEntries(fl, Seq::empty()),
        _ => SpecConverted::Unit,
    }
}

/// The value of a positive integer source cast to an unsigned width.
pub open spec fn spec_cast_pos_u(u: u64, w: UIntTy) -> u128 {
    match w {
        UIntTy::U8 => (u as u8) as u128,
        UIntTy::U16 => (u as u16) as u128,
        UIntTy::U32 => (u as u32) as u128,
        UIntTy::U64 => u as u128,
        UIntTy::U128 => u as u128,
        UIntTy::Usize => (u as usize) as u128,
    }
}

/// The value of a positive integer source cast to a signed width.
pub open spec fn spec_cast_pos_i(u: u64, w: SIntTy) -> i128 {
    match w {
        SIntTy::I8 => (u as i8) as i128,
        SIntTy::I16 => (u as i16) as i128,
        SIntTy::I32 => (u as i32) as i128,
        SIntTy::I64 => (u as i64) as i128,
        SIntTy::I128 => u as i128,
        SIntTy::Isize => (u as isize) as i128,
    }
}

/// The value of a negative integer source cast to a signed width.
pub open spec fn spec_cast_neg_i(i: i64, w: SIntTy) -> i128 {
    match w {
        SIntTy::I8 => (i as i8) as i128,
        SIntTy::I16 => (i as i16) as i128,
        SIntTy::I32 => (i as i32) as i128,
        SIntTy::I64 => i as i128,
        SIntTy::I128 => i as i128,
        SIntTy::Isize => (i as isize) as i128,
    }
}

/// The source key a named structure field matches against: the declared
/// override where present, the field's own identifier otherwise.
pub open spec fn spec_effective_name(d: FieldDecl) -> Seq<char> {
    match d.rename {
        Some(s) => s@,
        None => d.ident@,
    }
}

/// The position of the first compiled field with the given source key, or
/// `-1` if the table holds none.
pub open spec fn spec_field_index(fields: Seq<SpecReprField>, name: Seq<char>) -> int
    decreases fields,
{
    if fields.len() == 0 {
        -1
    } else if fields[0].name == name {
        0
    } else {
        let r = spec_field_index(fields.drop_first(), name);
        if r < 0 {
            -1
        } else {
            r + 1
        }
    }
}

/// The conversion relation of the resolver, as one total function:
/// `Some(c)` where the representation converts to the target with result
/// `c`, `None` where no rule applies. The rules, in order: population of a
/// zero-field structure (matches anything), the absence rules for the
/// absent representation, option wrapping of any present value, the
/// primitive rules (with the signedness asymmetry), the container
/// collection rules, and structure population.
pub open spec fn spec_is_unit_struct(t: Target) -> bool {
    match t {
        Target::StructOf(sh) => sh.fields is Unit,
        _ => false,
    }
}

pub open spec fn spec_convert(r: SpecRepr, t: Target) -> Option<SpecConverted>
    decreases r, t,
{
    if spec_is_unit_struct(t) {
        Some(SpecConverted::Unit)
    } else if r is Nil {
        match t {
            Target::OptionOf(_) => Some(SpecConverted::NoneOpt),
            _ => if spec_has_default(t) {
                Some(spec_default_of(t))
            } else {
                None
            },
        }
    } else if t is OptionOf {
        match spec_convert(r, *t->OptionOf_0) {
            Some(c) => Some(SpecConverted::SomeOpt(Box::new(c))),
            None => None,
        }
    } else {
        match r {
            SpecRepr::Boolean(b) => match t {
                Target::Bool => Some(SpecConverted::Bool(b)),
                _ => None,
            },
            SpecRepr::PosInt(u) => match t {
                Target::UInt(w) => Some(SpecConverted::UInt(w, spec_cast_pos_u(u, w))),
                Target::SInt(w) => Some(SpecConverted::SInt(w, spec_cast_pos_i(u, w))),
                Target::Float(w) => Some(SpecConverted::Float(w, SpecFloatLit::Pos(u))),
                _ => None,
            },
            SpecRepr::NegInt(i) => match t {
                Target::SInt(w) => Some(SpecConverted::SInt(w, spec_cast_neg_i(i, w))),
                Target::Float(w) => Some(SpecConverted::Float(w, SpecFloatLit::Neg(i))),
                _ => None,
            },
            SpecRepr::Float(s) => match t {
                Target::Float(w) => Some(SpecConverted::Float(w, SpecFloatLit::Lit(s))),
                _ => None,
            },
            SpecRepr::Str(s) => match t {
                Target::Str => Some(SpecConverted::Str(s)),
                Target::OwnedString => Some(SpecConverted::Str(s)),
                _ => None,
            },
            SpecRepr::Array(children) => match t {
                Target::VecOf(inner) => match spec_convert_list(children, *inner) {
                    Some(cs) => Some(SpecConverted::List(cs)),
                    None => None,
                },
                Target::StructOf(sh) => match sh.fields {
                    Fields::Unnamed(ts) => if ts@.len() <= children.len() {
                        match spec_populate_positional(children, ts@) {
                            Some(cs) => Some(SpecConverted::StructVal(cs)),
                            None => None,
                        }
                    } else {
                        None
                    },
                    _ => None,
                },
                _ => None,
            },
            SpecRepr::Table(fields) => match t {
                Target::MapOf(fl, inner) => match spec_convert_entries(fields, *inner) {
                    Some(es) => Some(SpecConverted::MapEntries(fl, es)),
                    None => None,
                },
                Target::StructOf(sh) => match sh.fields {
                    Fields::Named(ds) => match spec_populate_named(fields, ds@) {
                        Some(cs) => Some(SpecConverted::StructVal(cs)),
                        None => None,
                    },
                    _ => None,
                },
                _ => None,
            },
            _ => None,
        }
    }
}

/// Every child converted to the one element target, in order; `None` if
/// any child refuses.
pub open spec fn spec_convert_list(rs: Seq<SpecRepr>, t: Target) -> Option<Seq<SpecConverted>>
    decreases rs, t,
{
    if rs.len() == 0 {
        Some(Seq::empty())
    } else {
        match (spec_convert(rs[0], t), spec_convert_list(rs.drop_first(), t)) {
            (Some(c), Some(cs)) => Some(seq![c] + cs),
            _ => None,
        }
    }
}

/// Every field's value converted to the one element target, paired with
/// the field's source key, in table order.
pub open spec fn spec_convert_entries(fields: Seq<SpecReprField>, t: Target) -> Option<
    Seq<(Seq<char>, SpecConverted)>,
>
    decreases fields, t,
{
    if fields.len() == 0 {
        Some(Seq::empty())
    } else {
        match (spec_convert(fields[0].value, t), spec_convert_entries(fields.drop_first(), t)) {
            (Some(c), Some(cs)) => Some(seq![(fields[0].name, c)] + cs),
            _ => None,
        }
    }
}

/// Positional population: the first targets matched against the array's
/// children, in order.
pub open spec fn spec_populate_positional(children: Seq<SpecRepr>, ts: Seq<Target>) -> Option<
    Seq<SpecConverted>,
>
    decreases children, ts,
{
    if ts.len() == 0 {
        Some(Seq::empty())
    } else if children.len() == 0 {
        None
    } else {
        match (spec_convert(children[0], ts[0]), spec_populate_positional(
            children.drop_first(),
            ts.drop_first(),
        )) {
            (Some(c), Some(cs)) => Some(seq![c] + cs),
            _ => None,
        }
    }
}

/// Characterization of the field index: a negative index means no field
/// carries the key, a non-negative one points at the first field that does.
pub proof fn lemma_field_index(fields: Seq<SpecReprField>, name: Seq<char>)
    ensures
        spec_field_index(fields, name) < 0 ==> forall|i: int|
            0 <= i < fields.len() ==> (#[trigger] fields[i]).name != name,
        spec_field_index(fields, name) >= 0 ==> {
            &&& spec_field_index(fields, name) < fields.len()
            &&& fields[spec_field_index(fields, name)].name == name
        },
    decreases fields,
{
    if fields.len() > 0 && fields[0].name != name {
        lemma_field_index(fields.drop_first(), name);
        if spec_field_index(fields, name) < 0 {
            assert forall|i: int|
                0 <= i < fields.len() implies (#[trigger] fields[i]).name != name by {
                if i > 0 {
                    assert(fields.drop_first()[i - 1] == fields[i]);
                }
            }
        }
    }
}

proof fn lemma_field_index_first(fields: Seq<SpecReprField>, name: Seq<char>, i: int)
    requires
        0 <= i < fields.len(),
        fields[i].name == name,
        forall|k: int| 0 <= k < i ==> (#[trigger] fields[k]).name != name,
    ensures
        spec_field_index(fields, name) == i,
    decreases fields,
{
    if i > 0 {
        assert(fields[0].name != name);
        assert forall|k: int|
            0 <= k < i - 1 implies (#[trigger] fields.drop_first()[k]).name != name by {
            assert(fields.drop_first()[k] == fields[k + 1]);
        }
        lemma_field_index_first(fields.drop_first(), name, i - 1);
    }
}

proof fn lemma_field_index_absent(fields: Seq<SpecReprField>, name: Seq<char>)
    requires
        forall|k: int| 0 <= k < fields.len() ==> (#[trigger] fields[k]).name != name,
    ensures
        spec_field_index(fields, name) < 0,
    decreases fields,
{
    if fields.len() > 0 {
        assert forall|k: int|
            0 <= k < fields.drop_first().len() implies (#[trigger] fields.drop_first()[k]).name
            != name by {
            assert(fields.drop_first()[k] == fields[k + 1]);
        }
        lemma_field_index_absent(fields.drop_first(), name);
    }
}

/// The position of the first field whose source key equals `name`, if any.
pub fn find_field(fields: &Vec<ReprField>, name: &str) -> (r: Option<usize>)
    ensures
        match r {
            Some(i) => i == spec_field_index(repr_model_fields(fields@), name@)
                && i < fields@.len(),
            None => spec_field_index(repr_model_fields(fields@), name@) < 0,
        },
{
    proof {
        lemma_repr_model_fields(fields@);
    }
    let ghost m = repr_model_fields(fields@);
    let n = fields.len();
    let mut i: usize = 0;
    while i < n
        invariant
            n == fields@.len(),
            m == repr_model_fields(fields@),
            m.len() == n,
            forall|k: int| 0 <= k < n ==> (#[trigger] m[k]).name == fields@[k].name@,
            i <= n,
            forall|k: int| 0 <= k < i ==> (#[trigger] m[k]).name != name@,
        decreases n - i,
    {
        let f = vec_index(fields, i);
        if str_eq(f.name.as_str(), name) {
            proof {
                lemma_field_index_first(m, name@, i as int);
            }
            return Some(i);
        }
        i = i + 1;
    }
    proof {
        lemma_field_index_absent(m, name@);
    }
    None
}

/// Named population: each declared field's key must be present in the
/// table and its value convertible to the declared type; the populated
/// values come in declaration order. Fields of the table that no
/// declaration names are ignored.
pub open spec fn spec_populate_named(fields: Seq<SpecReprField>, ds: Seq<FieldDecl>) -> Option<
    Seq<SpecConverted>,
>
    decreases fields, ds,
{
    if ds.len() == 0 {
        Some(Seq::empty())
    } else {
        let i = spec_field_index(fields, spec_effective_name(ds[0]));
        if i < 0 || i >= fields.len() {
            None
        } else {
            match (spec_convert(fields[i].value, ds[0].target), spec_populate_named(
                fields,
                ds.drop_first(),
            )) {
                (Some(c), Some(cs)) => Some(seq![c] + cs),
                _ => None,
            }
        }
    }
}

/// An unsigned source value within the target width's range.
pub open spec fn spec_uint_fits(u: u64, w: UIntTy) -> bool {
    match w {
        UIntTy::U8 => u <= u8::MAX as u64,
        UIntTy::U16 => u <= u16::MAX as u64,
        UIntTy::U32 => u <= u32::MAX as u64,
        UIntTy::U64 => true,
        UIntTy::U128 => true,
        UIntTy::Usize => u <= usize::MAX as u64,
    }
}

/// An unsigned source value within a signed target width's range.
pub open spec fn spec_sint_fits_pos(u: u64, w: SIntTy) -> bool {
    match w {
        SIntTy::I8 => u <= i8::MAX as u64,
        SIntTy::I16 => u <= i16::MAX as u64,
        SIntTy::I32 => u <= i32::MAX as u64,
        SIntTy::I64 => u <= i64::MAX as u64,
        SIntTy::I128 => true,
        SIntTy::Isize => u <= isize::MAX as u64,
    }
}

/// A negative source value within a signed target width's range.
pub open spec fn spec_sint_fits_neg(i: i64, w: SIntTy) -> bool {
    match w {
        SIntTy::I8 => i >= i8::MIN as i64,
        SIntTy::I16 => i >= i16::MIN as i64,
        SIntTy::I32 => i >= i32::MIN as i64,
        SIntTy::I64 => true,
        SIntTy::I128 => true,
        SIntTy::Isize => i >= isize::MIN as i64,
    }
}

/// Round-trip law, boolean and string: converting a primitive
/// representation to its own kind yields the original value.
pub proof fn lemma_roundtrip_primitive(b: bool, s: Seq<char>)
    ensures
        spec_convert(SpecRepr::Boolean(b), Target::Bool) == Some(SpecConverted::Bool(b)),
        spec_convert(SpecRepr::Str(s), Target::Str) == Some(SpecConverted::Str(s)),
        spec_convert(SpecRepr::Str(s), Target::OwnedString) == Some(SpecConverted::Str(s)),
        spec_convert(SpecRepr::Float(s), Target::Float(FloatTy::F64)) == Some(
            SpecConverted::Float(FloatTy::F64, SpecFloatLit::Lit(s)),
        ),
{
}

/// Round-trip law, unsigned: a positive integer within the target's range
/// converts to every unsigned width as exactly itself.
pub proof fn lemma_roundtrip_pos_unsigned(u: u64, w: UIntTy)
    requires
        spec_uint_fits(u, w),
    ensures
        spec_convert(SpecRepr::PosInt(u), Target::UInt(w)) == Some(
            SpecConverted::UInt(w, u as u128),
        ),
{
}

/// Round-trip law, unsigned to signed: a positive integer within a signed
/// target's range converts to it as exactly itself.
pub proof fn lemma_roundtrip_pos_signed(u: u64, w: SIntTy)
    requires
        spec_sint_fits_pos(u, w),
    ensures
        spec_convert(SpecRepr::PosInt(u), Target::SInt(w)) == Some(
            SpecConverted::SInt(w, u as i128),
        ),
{
}

/// Round-trip law, signed: a negative integer within the target's range
/// converts to every signed width as exactly itself — and to no unsigned
/// width at all, preserving the signedness asymmetry.
pub proof fn lemma_roundtrip_neg_signed(i: i64, w: SIntTy, uw: UIntTy)
    requires
        i < 0,
        spec_sint_fits_neg(i, w),
    ensures
        spec_convert(SpecRepr::NegInt(i), Target::SInt(w)) == Some(
            SpecConverted::SInt(w, i as i128),
        ),
        spec_convert(SpecRepr::NegInt(i), Target::UInt(uw)) is None,
{
}

/// Absence law: the absent representation yields the empty option for any
/// requested element type whatsoever; requested as a concrete type it
/// yields that type's default, and is rejected where the type has none.
pub proof fn lemma_absent_defaulting(t: Target)
    ensures
        spec_convert(SpecRepr::Nil, Target::OptionOf(Box::new(t))) == Some(SpecConverted::NoneOpt),
        !spec_is_unit_struct(t) && !(t is OptionOf) && spec_has_default(t) ==> spec_convert(
            SpecRepr::Nil,
            t,
        ) == Some(spec_default_of(t)),
        !spec_is_unit_struct(t) && !(t is OptionOf) && !spec_has_default(t) ==> spec_convert(
            SpecRepr::Nil,
            t,
        ) is None,
{
}

/// Presence-wrapping law: a present representation converts to an option
/// exactly as it converts to the element type, wrapped in `Some`; the two
/// option rules never fire for the same representation.
pub proof fn lemma_present_option(r: SpecRepr, t: Target)
    requires
        !(r is Nil),
    ensures
        spec_convert(r, Target::OptionOf(Box::new(t))) == (match spec_convert(r, t) {
            Some(c) => Some(SpecConverted::SomeOpt(Box::new(c))),
            None => None::<SpecConverted>,
        }),
{
}

/// Marks representations standing for a present value: the
/// presence-wrapping rule fires exactly for these, the defaulting rule
/// never.
pub trait NonNilRepr {
    /// Whether this representation stands for a present value.
    spec fn non_nil_repr(&self) -> bool;
}

impl NonNilRepr for Repr {
    open spec fn non_nil_repr(&self) -> bool {
        !(self@ is Nil)
    }
}

/// Marks targets that stand for plain data, eligible to be populated
/// inside `Some` by the presence-wrapping rule.
pub trait NonNil {
    /// Whether this target is plain data rather than an option.
    spec fn non_nil(&self) -> bool;
}

impl NonNil for Target {
    open spec fn non_nil(&self) -> bool {
        !(*self is OptionOf)
    }
}

/// Marks targets the defaulting rule may produce directly: everything but
/// an option, whose absence case is the empty option instead.
pub trait NonOption {
    /// Whether this target is no option.
    spec fn non_option(&self) -> bool;
}

impl NonOption for Target {
    open spec fn non_option(&self) -> bool {
        !(*self is OptionOf)
    }
}

/// Disjointness of the two option rules: for a present representation only
/// the presence-wrapping rule fires, for the absent one only the absence
/// rule — the two can never both apply to one representation and target.
pub proof fn lemma_option_rules_disjoint(r: &Repr, t: Target)
    ensures
        r.non_nil_repr() ==> spec_convert(r@, Target::OptionOf(Box::new(t))) == (match spec_convert(
            r@,
            t,
        ) {
            Some(c) => Some(SpecConverted::SomeOpt(Box::new(c))),
            None => None::<SpecConverted>,
        }),
        !r.non_nil_repr() ==> spec_convert(r@, Target::OptionOf(Box::new(t))) == Some(
            SpecConverted::NoneOpt,
        ),
{
}

/// Why a conversion was refused. Every error is a rejected request, never
/// a wrong value: the accessor either resolves a request exactly or
/// reports one of these.
#[derive(PartialEq, Eq, Structural, Clone, Copy, Debug)]
pub enum ConvertError {
    /// No rule relates the representation to the requested target.
    NoViableConversion,
    /// An absent value was requested as a concrete type with no default.
    NoDefault,
    /// A declared field's key is not present in the source table.
    MissingField,
    /// The declared shape does not match the representation's shape.
    ShapeMismatch,
}

fn default_of(t: &Target) -> (r: Converted)
    requires
        spec_has_default(*t),
    ensures
        r@ == spec_default_of(*t),
{
    match t {
        Target::Bool => Converted::Bool(false),
        Target::UInt(w) => Converted::UInt(*w, 0),
        Target::SInt(w) => Converted::SInt(*w, 0),
        Target::Float(w) => Converted::Float(*w, FloatLit::Pos(0)),
        Target::Str => Converted::Str(String::new()),
        Target::OwnedString => Converted::Str(String::new()),
        Target::VecOf(_) => {
            let v: Vec<Converted> = Vec::new();
            proof {
                assert(converted_model_seq(v@) =~= Seq::<SpecConverted>::empty());
            }
            Converted::List(v)
        },
        Target::MapOf(fl, _) => {
            let v: Vec<(String, Converted)> = Vec::new();
            proof {
                assert(converted_model_entries(v@) =~= Seq::<(Seq<char>, SpecConverted)>::empty());
            }
            Converted::MapEntries(*fl, v)
        },
        Target::OptionOf(_) => Converted::Unit,
        Target::StructOf(_) => Converted::Unit,
    }
}

fn cast_pos_u(u: u64, w: &UIntTy) -> (r: u128)
    ensures
        r == spec_cast_pos_u(u, *w),
{
    match w {
        UIntTy::U8 => #[verifier::truncate] (u as u8) as u128,
        UIntTy::U16 => #[verifier::truncate] (u as u16) as u128,
        UIntTy::U32 => #[verifier::truncate] (u as u32) as u128,
        UIntTy::U64 => u as u128,
        UIntTy::U128 => u as u128,
        UIntTy::Usize => #[verifier::truncate] (u as usize) as u128,
    }
}

fn cast_pos_i(u: u64, w: &SIntTy) -> (r: i128)
    ensures
        r == spec_cast_pos_i(u, *w),
{
    match w {
        SIntTy::I8 => #[verifier::truncate] (u as i8) as i128,
        SIntTy::I16 => #[verifier::truncate] (u as i16) as i128,
        SIntTy::I32 => #[verifier::truncate] (u as i32) as i128,
        SIntTy::I64 => #[verifier::truncate] (u as i64) as i128,
        SIntTy::I128 => u as i128,
        SIntTy::Isize => #[verifier::truncate] (u as isize) as i128,
    }
}

fn cast_neg_i(i: i64, w: &SIntTy) -> (r: i128)
    ensures
        r == spec_cast_neg_i(i, *w),
{
    match w {
        SIntTy::I8 => #[verifier::truncate] (i as i8) as i128,
        SIntTy::I16 => #[verifier::truncate] (i as i16) as i128,
        SIntTy::I32 => #[verifier::truncate] (i as i32) as i128,
        SIntTy::I64 => i as i128,
        SIntTy::I128 => i as i128,
        SIntTy::Isize => #[verifier::truncate] (i as isize) as i128,
    }
}

fn effective_name<'a>(d: &'a FieldDecl) -> (r: &'a String)
    ensures
        r@ == spec_effective_name(*d),
{
    match &d.rename {
        Some(s) => s,
        None => &d.ident,
    }
}

fn has_default(t: &Target) -> (r: bool)
    ensures
        r == spec_has_default(*t),
{
    match t {
        Target::Bool => true,
        Target::UInt(_) => true,
        Target::SInt(_) => true,
        Target::Float(_) => true,
        Target::Str => true,
        Target::OwnedString => true,
        Target::VecOf(_) => true,
        Target::MapOf(_, _) => true,
        Target::OptionOf(_) => false,
        Target::StructOf(_) => false,
    }
}

fn is_unit_struct(t: &Target) -> (r: bool)
    ensures
        r == spec_is_unit_struct(*t),
{
    match t {
        Target::StructOf(sh) => match &sh.fields {
            Fields::Unit => true,
            _ => false,
        },
        _ => false,
    }
}

impl Repr {
    /// Resolves this representation against a requested target type,
    /// applying the conversion rules exactly: the call returns a value
    /// precisely when a rule chain relates the two, and that value is the
    /// one the rules dictate.
    #[verifier::loop_isolation(false)]
    pub fn convert(&self, t: &Target) -> (r: Result<Converted, ConvertError>)
        ensures
            (r is Ok) == (spec_convert(self@, *t) is Some),
            r matches Ok(c) ==> Some(c@) == spec_convert(self@, *t),
            self@ is Nil && !spec_is_unit_struct(*t) && !(*t is OptionOf) && !spec_has_default(*t)
                ==> r == Err::<Converted, ConvertError>(ConvertError::NoDefault),
        decreases self, t, 1nat,
    {
        if is_unit_struct(t) {
            return Ok(Converted::Unit);
        }
        match self {
            Repr::Nil => match t {
                Target::OptionOf(_) => Ok(Converted::NoneOpt),
                _ => {
                    if has_default(t) {
                        Ok(default_of(t))
                    } else {
                        Err(ConvertError::NoDefault)
                    }
                },
            },
            _ => {
                if let Target::OptionOf(inner) = t {
                    proof {
                        assert(decreases_to!(t => t->OptionOf_0));
                    }
                    return match self.convert(&**inner) {
                        Ok(c) => Ok(Converted::SomeOpt(Box::new(c))),
                        Err(e) => Err(e),
                    };
                }
                match self {
                    Repr::Boolean(b) => match t {
                        Target::Bool => Ok(Converted::Bool(*b)),
                        _ => Err(ConvertError::NoViableConversion),
                    },
                    Repr::PosInt(u) => match t {
                        Target::UInt(w) => Ok(Converted::UInt(*w, cast_pos_u(*u, w))),
                        Target::SInt(w) => Ok(Converted::SInt(*w, cast_pos_i(*u, w))),
                        Target::Float(w) => Ok(Converted::Float(*w, FloatLit::Pos(*u))),
                        _ => Err(ConvertError::NoViableConversion),
                    },
                    Repr::NegInt(i) => match t {
                        Target::SInt(w) => Ok(Converted::SInt(*w, cast_neg_i(*i, w))),
                        Target::Float(w) => Ok(Converted::Float(*w, FloatLit::Neg(*i))),
                        _ => Err(ConvertError::NoViableConversion),
                    },
                    Repr::Float(s) => match t {
                        Target::Float(w) => Ok(Converted::Float(*w, FloatLit::Lit(s.clone()))),
                        _ => Err(ConvertError::NoViableConversion),
                    },
                    Repr::Str(s) => match t {
                        Target::Str => Ok(Converted::Str(s.clone())),
                        Target::OwnedString => Ok(Converted::Str(s.clone())),
                        _ => Err(ConvertError::NoViableConversion),
                    },
                    Repr::Array(children) => match t {
                        Target::VecOf(inner) => self.convert_array_list(children, &**inner),
                        Target::StructOf(sh) => match &sh.fields {
                            Fields::Unnamed(ts) => {
                                let r = self.convert_array_struct(children, ts);
                                proof {
                                    lemma_repr_model_seq(children@);
                                }
                                r
                            },
                            _ => Err(ConvertError::ShapeMismatch),
                        },
                        _ => Err(ConvertError::NoViableConversion),
                    },
                    Repr::Table(fields) => match t {
                        Target::MapOf(fl, inner) => self.convert_table_map(fields, *fl, &**inner),
                        Target::StructOf(sh) => match &sh.fields {
                            Fields::Named(ds) => self.convert_table_struct(fields, ds),
                            _ => Err(ConvertError::ShapeMismatch),
                        },
                        _ => Err(ConvertError::NoViableConversion),
                    },
                    Repr::Nil => Err(ConvertError::NoViableConversion),
                }
            },
        }
    }

    /// Homogeneous collection of an array's children.
    #[verifier::loop_isolation(false)]
    fn convert_array_list(&self, children: &Vec<Repr>, inner: &Target) -> (r: Result<
        Converted,
        ConvertError,
    >)
        requires
            *self matches Repr::Array(c) && c == *children,
        ensures
            (r is Ok) == (spec_convert_list(repr_model_seq(children@), *inner) is Some),
            (r matches Ok(c) ==> (spec_convert_list(repr_model_seq(children@), *inner)
                matches Some(cs) && c@ == SpecConverted::List(cs))),
        decreases self, inner, 0nat,
    {
        proof {
            lemma_repr_model_seq(children@);
        }
        let ghost ms = repr_model_seq(children@);
        let n = children.len();
        let mut out: Vec<Converted> = Vec::new();
        let mut i: usize = 0;
        proof {
            assert(ms.skip(0) =~= ms);
        }
        while i < n
            invariant
                i <= n,
                out@.len() == i,
                spec_convert_list(ms, *inner) == (match spec_convert_list(ms.skip(i as int), *inner) {
                    Some(cs) => Some(converted_model_seq(out@) + cs),
                    None => None::<Seq<SpecConverted>>,
                }),
            decreases n - i,
        {
            let child = vec_index(children, i);
            proof {
                assert(ms[i as int] == children@[i as int]@);
                assert(decreases_to!(self => *child)) by {
                    assert(decreases_to!(self => self->Array_0));
                    assert(decreases_to!(children => children@));
                    assert(decreases_to!(children@ => children@[i as int]));
                }
            }
            let ghost out_before = out@;
            match child.convert(inner) {
                Ok(c) => {
                    out.push(c);
                    proof {
                        lemma_converted_model_seq(out_before);
                        lemma_converted_model_seq(out@);
                        assert(ms.skip(i as int)[0] == ms[i as int]);
                        assert(ms.skip(i as int).drop_first() =~= ms.skip(i as int + 1));
                        if spec_convert_list(ms.skip(i as int + 1), *inner) is Some {
                            let cs = spec_convert_list(ms.skip(i as int + 1), *inner).unwrap();
                            assert(converted_model_seq(out_before) + (seq![c@] + cs)
                                =~= converted_model_seq(out@) + cs);
                        }
                    }
                    i = i + 1;
                },
                Err(e) => {
                    proof {
                        assert(ms.skip(i as int)[0] == ms[i as int]);
                    }
                    return Err(e);
                },
            }
        }
        proof {
            assert(ms.skip(n as int) =~= Seq::<SpecRepr>::empty());
            assert(converted_model_seq(out@) + Seq::<SpecConverted>::empty() =~= converted_model_seq(
                out@,
            ));
        }
        Ok(Converted::List(out))
    }

    /// Homogeneous collection of a table's fields into map entries, keyed
    /// by the source keys, in table order.
    #[verifier::loop_isolation(false)]
    fn convert_table_map(&self, fields: &Vec<ReprField>, fl: MapFlavor, inner: &Target) -> (r:
        Result<Converted, ConvertError>)
        requires
            *self matches Repr::Table(f) && f == *fields,
        ensures
            (r is Ok) == (spec_convert_entries(repr_model_fields(fields@), *inner) is Some),
            (r matches Ok(c) ==> (spec_convert_entries(repr_model_fields(fields@), *inner)
                matches Some(cs) && c@ == SpecConverted::MapEntries(fl, cs))),
        decreases self, inner, 0nat,
    {
        proof {
            lemma_repr_model_fields(fields@);
        }
        let ghost ms = repr_model_fields(fields@);
        let n = fields.len();
        let mut out: Vec<(String, Converted)> = Vec::new();
        let mut i: usize = 0;
        proof {
            assert(ms.skip(0) =~= ms);
        }
        while i < n
            invariant
                i <= n,
                out@.len() == i,
                spec_convert_entries(ms, *inner) == (match spec_convert_entries(
                    ms.skip(i as int),
                    *inner,
                ) {
                    Some(cs) => Some(converted_model_entries(out@) + cs),
                    None => None::<Seq<(Seq<char>, SpecConverted)>>,
                }),
            decreases n - i,
        {
            let field = vec_index(fields, i);
            proof {
                assert(ms[i as int] == fields@[i as int]@);
                assert(decreases_to!(self => field.value)) by {
                    assert(decreases_to!(self => self->Table_0));
                    assert(decreases_to!(fields => fields@));
                    assert(decreases_to!(fields@ => fields@[i as int]));
                    assert(decreases_to!(fields@[i as int] => fields@[i as int].value));
                }
            }
            let ghost out_before = out@;
            match field.value.convert(inner) {
                Ok(c) => {
                    out.push((field.name.clone(), c));
                    proof {
                        lemma_converted_model_entries(out_before);
                        lemma_converted_model_entries(out@);
                        assert(ms.skip(i as int)[0] == ms[i as int]);
                        assert(ms.skip(i as int).drop_first() =~= ms.skip(i as int + 1));
                        if spec_convert_entries(ms.skip(i as int + 1), *inner) is Some {
                            let cs = spec_convert_entries(ms.skip(i as int + 1), *inner).unwrap();
                            assert(converted_model_entries(out_before) + (seq![
                                (ms[i as int].name, c@),
                            ] + cs) =~= converted_model_entries(out@) + cs);
                        }
                    }
                    i = i + 1;
                },
                Err(e) => {
                    proof {
                        assert(ms.skip(i as int)[0] == ms[i as int]);
                    }
                    return Err(e);
                },
            }
        }
        proof {
            assert(ms.skip(n as int) =~= Seq::<SpecReprField>::empty());
            assert(converted_model_entries(out@) + Seq::<(Seq<char>, SpecConverted)>::empty()
                =~= converted_model_entries(out@));
        }
        Ok(Converted::MapEntries(fl, out))
    }

    /// Positional population of a declared tuple shape from an array.
    #[verifier::loop_isolation(false)]
    fn convert_array_struct(&self, children: &Vec<Repr>, ts: &Vec<Target>) -> (r: Result<
        Converted,
        ConvertError,
    >)
        requires
            *self matches Repr::Array(c) && c == *children,
        ensures
            (r is Ok) == (ts@.len() <= children@.len() && spec_populate_positional(
                repr_model_seq(children@),
                ts@,
            ) is Some),
            (r matches Ok(c) ==> (spec_populate_positional(repr_model_seq(children@), ts@)
                matches Some(cs) && c@ == SpecConverted::StructVal(cs))),
        decreases self, ts, 0nat,
    {
        proof {
            lemma_repr_model_seq(children@);
        }
        let ghost ms = repr_model_seq(children@);
        if ts.len() > children.len() {
            return Err(ConvertError::ShapeMismatch);
        }
        let n = ts.len();
        let mut out: Vec<Converted> = Vec::new();
        let mut i: usize = 0;
        proof {
            assert(ms.skip(0) =~= ms);
            assert(ts@.skip(0) =~= ts@);
        }
        while i < n
            invariant
                i <= n,
                n == ts@.len(),
                n <= children@.len(),
                out@.len() == i,
                spec_populate_positional(ms, ts@) == (match spec_populate_positional(
                    ms.skip(i as int),
                    ts@.skip(i as int),
                ) {
                    Some(cs) => Some(converted_model_seq(out@) + cs),
                    None => None::<Seq<SpecConverted>>,
                }),
            decreases n - i,
        {
            let child = vec_index(children, i);
            let tgt = vec_index(ts, i);
            proof {
                assert(ms[i as int] == children@[i as int]@);
                assert(decreases_to!(self => *child)) by {
                    assert(decreases_to!(self => self->Array_0));
                    assert(decreases_to!(children => children@));
                    assert(decreases_to!(children@ => children@[i as int]));
                }
            }
            let ghost out_before = out@;
            match child.convert(tgt) {
                Ok(c) => {
                    out.push(c);
                    proof {
                        lemma_converted_model_seq(out_before);
                        lemma_converted_model_seq(out@);
                        assert(ms.skip(i as int)[0] == ms[i as int]);
                        assert(ts@.skip(i as int)[0] == ts@[i as int]);
                        assert(ms.skip(i as int).drop_first() =~= ms.skip(i as int + 1));
                        assert(ts@.skip(i as int).drop_first() =~= ts@.skip(i as int + 1));
                        if spec_populate_positional(ms.skip(i as int + 1), ts@.skip(i as int + 1))
                            is Some {
                            let cs = spec_populate_positional(
                                ms.skip(i as int + 1),
                                ts@.skip(i as int + 1),
                            ).unwrap();
                            assert(converted_model_seq(out_before) + (seq![c@] + cs)
                                =~= converted_model_seq(out@) + cs);
                        }
                    }
                    i = i + 1;
                },
                Err(e) => {
                    proof {
                        assert(ms.skip(i as int)[0] == ms[i as int]);
                        assert(ts@.skip(i as int)[0] == ts@[i as int]);
                    }
                    return Err(e);
                },
            }
        }
        proof {
            assert(ts@.skip(n as int) =~= Seq::<Target>::empty());
            assert(converted_model_seq(out@) + Seq::<SpecConverted>::empty() =~= converted_model_seq(
                out@,
            ));
        }
        Ok(Converted::StructVal(out))
    }

    /// Named population of a declared field shape from a table.
    #[verifier::loop_isolation(false)]
    fn convert_table_struct(&self, fields: &Vec<ReprField>, ds: &Vec<FieldDecl>) -> (r: Result<
        Converted,
        ConvertError,
    >)
        requires
            *self matches Repr::Table(f) && f == *fields,
        ensures
            (r is Ok) == (spec_populate_named(repr_model_fields(fields@), ds@) is Some),
            (r matches Ok(c) ==> (spec_populate_named(repr_model_fields(fields@), ds@)
                matches Some(cs) && c@ == SpecConverted::StructVal(cs))),
        decreases self, ds, 0nat,
    {
        proof {
            lemma_repr_model_fields(fields@);
        }
        let ghost fm = repr_model_fields(fields@);
        let n = ds.len();
        let mut out: Vec<Converted> = Vec::new();
        let mut i: usize = 0;
        proof {
            assert(ds@.skip(0) =~= ds@);
        }
        while i < n
            invariant
                i <= n,
                n == ds@.len(),
                out@.len() == i,
                spec_populate_named(fm, ds@) == (match spec_populate_named(
                    fm,
                    ds@.skip(i as int),
                ) {
                    Some(cs) => Some(converted_model_seq(out@) + cs),
                    None => None::<Seq<SpecConverted>>,
                }),
            decreases n - i,
        {
            let d = vec_index(ds, i);
            let name = effective_name(d);
            proof {
                assert(ds@.skip(i as int)[0] == ds@[i as int]);
                assert(ds@.skip(i as int).drop_first() =~= ds@.skip(i as int + 1));
            }
            match find_field(fields, name.as_str()) {
                Some(fi) => {
                    let field = vec_index(fields, fi);
                    proof {
                        assert(fm[fi as int] == fields@[fi as int]@);
                        assert(decreases_to!(self => field.value)) by {
                            assert(decreases_to!(self => self->Table_0));
                            assert(decreases_to!(fields => fields@));
                            assert(decreases_to!(fields@ => fields@[fi as int]));
                            assert(decreases_to!(fields@[fi as int] => fields@[fi as int].value));
                        }
                    }
                    let ghost out_before = out@;
                    match field.value.convert(&d.target) {
                        Ok(c) => {
                            out.push(c);
                            proof {
                                lemma_converted_model_seq(out_before);
                                lemma_converted_model_seq(out@);
                                if spec_populate_named(fm, ds@.skip(i as int + 1)) is Some {
                                    let cs = spec_populate_named(
                                        fm,
                                        ds@.skip(i as int + 1),
                                    ).unwrap();
                                    assert(converted_model_seq(out_before) + (seq![c@] + cs)
                                        =~= converted_model_seq(out@) + cs);
                                }
                            }
                            i = i + 1;
                        },
                        Err(e) => {
                            return Err(e);
                        },
                    }
                },
                None => {
                    return Err(ConvertError::MissingField);
                },
            }
        }
        proof {
            assert(ds@.skip(n as int) =~= Seq::<FieldDecl>::empty());
            assert(converted_model_seq(out@) + Seq::<SpecConverted>::empty() =~= converted_model_seq(
                out@,
            ));
        }
        Ok(Converted::StructVal(out))
    }
}

/// Conversion written from the representation's side: the representation
/// produces a value of the requested target.
pub trait ConvertInto {
    /// The model-level conversion relation this type answers to.
    spec fn converted(&self, t: Target) -> Option<SpecConverted>;

    /// This value converted to `t`, exactly when the rules accept the
    /// request, with exactly the value the rules dictate.
    fn convert_into(&self, t: &Target) -> (r: Result<Converted, ConvertError>)
        ensures
            (r is Ok) == (self.converted(*t) is Some),
            (r matches Ok(c) ==> Some(c@) == self.converted(*t)),
    ;
}

impl ConvertInto for Repr {
    open spec fn converted(&self, t: Target) -> Option<SpecConverted> {
        spec_convert(self@, t)
    }

    fn convert_into(&self, t: &Target) -> (r: Result<Converted, ConvertError>) {
        self.convert(t)
    }
}

/// The same relation, driven from the target's side: a declared type
/// populates itself from a compatible representation.
pub trait ConvertFrom {
    /// The model-level conversion relation this target answers to.
    spec fn converted_from(&self, r: SpecRepr) -> Option<SpecConverted>;

    /// A value of this target populated from `repr`.
    fn convert_from(&self, repr: &Repr) -> (r: Result<Converted, ConvertError>)
        ensures
            (r is Ok) == (self.converted_from(repr@) is Some),
            (r matches Ok(c) ==> Some(c@) == self.converted_from(repr@)),
    ;
}

impl ConvertFrom for Target {
    open spec fn converted_from(&self, r: SpecRepr) -> Option<SpecConverted> {
        spec_convert(r, *self)
    }

    fn convert_from(&self, repr: &Repr) -> (r: Result<Converted, ConvertError>) {
        repr.convert(self)
    }
}

} // verus!
