use vstd::prelude::*;
use vstd::std_specs::vec::vec_index;
use crate::strutil::str_eq;

verus! {

/// The parsed, format-agnostic configuration tree.
///
/// Integers are split by sign at parse time because their compatible target
/// sets differ: an unsigned source may later narrow to signed and unsigned
/// targets alike, a negative source only to signed ones. A non-integer
/// number is carried as its literal text: the core never computes with it,
/// it only embeds it. A table keeps its fields in insertion order and, when
/// well formed, never holds the same key twice.
#[derive(Debug, PartialEq)]
pub enum Value {
    Nil,
    Boolean(bool),
    PosInt(u64),
    NegInt(i64),
    Float(String),
    Str(String),
    Array(Vec<Value>),
    Table(Vec<(String, Value)>),
}

/// The mathematical model of a `Value` tree.
#[verifier::ext_equal]
pub ghost enum SpecValue {
    Nil,
    Boolean(bool),
    PosInt(u64),
    NegInt(i64),
    Float(Seq<char>),
    Str(Seq<char>),
    Array(Seq<SpecValue>),
    Table(Seq<(Seq<char>, SpecValue)>),
}

impl Value {
    /// The model of this tree: every string becomes its character sequence,
    /// every vector its element sequence.
    pub open spec fn model(self) -> SpecValue
        decreases self,
    {
        match self {
            Value::Nil => SpecValue::Nil,
            Value::Boolean(b) => SpecValue::Boolean(b),
            Value::PosInt(u) => SpecValue::PosInt(u),
            Value::NegInt(i) => SpecValue::NegInt(i),
            Value::Float(s) => SpecValue::Float(s@),
            Value::Str(s) => SpecValue::Str(s@),
            Value::Array(v) => SpecValue::Array(model_seq(v@)),
            Value::Table(v) => SpecValue::Table(model_entries(v@)),
        }
    }
}

impl View for Value {
    type V = SpecValue;

    open spec fn view(&self) -> SpecValue {
        (*self).model()
    }
}

/// The models of a sequence of child values, in order.
pub open spec fn model_seq(s: Seq<Value>) -> Seq<SpecValue>
    decreases s,
{
    if s.len() == 0 {
        Seq::empty()
    } else {
        seq![s[0].model()] + model_seq(s.drop_first())
    }
}

/// The models of a sequence of table entries, in order.
pub open spec fn model_entries(s: Seq<(String, Value)>) -> Seq<(Seq<char>, SpecValue)>
    decreases s,
{
    if s.len() == 0 {
        Seq::empty()
    } else {
        seq![(s[0].0@, s[0].1.model())] + model_entries(s.drop_first())
    }
}

pub proof fn lemma_model_seq(s: Seq<Value>)
    ensures
        model_seq(s).len() == s.len(),
        forall|i: int| 0 <= i < s.len() ==> #[trigger] model_seq(s)[i] == s[i]@,
        forall|i: int| 0 <= i < s.len() ==> model_seq(s)[i] == (#[trigger] s[i])@,
    decreases s,
{
    if s.len() > 0 {
        lemma_model_seq(s.drop_first());
        assert forall|i: int| 0 <= i < s.len() implies model_seq(s)[i] == (#[trigger] s[i])@ by {
            if i > 0 {
                assert(s.drop_first()[i - 1] == s[i]);
            }
        }
    }
}

pub proof fn lemma_model_entries(s: Seq<(String, Value)>)
    ensures
        model_entries(s).len() == s.len(),
        forall|i: int|
            0 <= i < s.len() ==> #[trigger] model_entries(s)[i] == (s[i].0@, s[i].1@),
        forall|i: int| 0 <= i < s.len() ==> model_entries(s)[i] == ((#[trigger] s[i]).0@, s[i].1@),
    decreases s,
{
    if s.len() > 0 {
        lemma_model_entries(s.drop_first());
        assert forall|i: int| 0 <= i < s.len() implies model_entries(s)[i] == ((#[trigger] s[i]).0@,
            s[i].1@) by {
            if i > 0 {
                assert(s.drop_first()[i - 1] == s[i]);
            }
        }
    }
}

impl SpecValue {
    /// Well-formedness: a negative integer is strictly negative and every
    /// table's keys are pairwise distinct, at every depth.
    pub open spec fn wf(self) -> bool
        decreases self,
    {
        match self {
            SpecValue::NegInt(i) => i < 0,
            SpecValue::Array(s) => forall|i: int|
                0 <= i < s.len() ==> (#[trigger] s[i]).wf(),
            SpecValue::Table(s) => spec_entries_wf(s),
            _ => true,
        }
    }
}

/// Well-formedness of a table's entries: each value is well formed and the
/// keys are pairwise distinct.
pub open spec fn spec_entries_wf(s: Seq<(Seq<char>, SpecValue)>) -> bool
    decreases s,
{
    &&& forall|i: int| 0 <= i < s.len() ==> (#[trigger] s[i]).1.wf()
    &&& spec_unique_keys(s)
}

/// No key occurs twice among the entries.
pub open spec fn spec_unique_keys(s: Seq<(Seq<char>, SpecValue)>) -> bool {
    forall|i: int, j: int| 0 <= i < j < s.len() ==> (#[trigger] s[i]).0 != (#[trigger] s[j]).0
}

/// The position of the first entry with the given key, or `-1` if absent.
pub open spec fn spec_key_index(s: Seq<(Seq<char>, SpecValue)>, key: Seq<char>) -> int
    decreases s,
{
    if s.len() == 0 {
        -1
    } else if s[0].0 == key {
        0
    } else {
        let r = spec_key_index(s.drop_first(), key);
        if r < 0 {
            -1
        } else {
            r + 1
        }
    }
}

/// The value under the given key, if any.
pub open spec fn spec_lookup(s: Seq<(Seq<char>, SpecValue)>, key: Seq<char>) -> Option<SpecValue> {
    let i = spec_key_index(s, key);
    if i < 0 {
        None
    } else {
        Some(s[i].1)
    }
}

pub proof fn lemma_key_index(s: Seq<(Seq<char>, SpecValue)>, key: Seq<char>)
    ensures
        spec_key_index(s, key) < 0 ==> forall|i: int|
            0 <= i < s.len() ==> (#[trigger] s[i]).0 != key,
        spec_key_index(s, key) >= 0 ==> {
            &&& spec_key_index(s, key) < s.len()
            &&& s[spec_key_index(s, key)].0 == key
            &&& forall|i: int| 0 <= i < spec_key_index(s, key) ==> (#[trigger] s[i]).0 != key
        },
    decreases s,
{
    if s.len() > 0 && s[0].0 != key {
        lemma_key_index(s.drop_first(), key);
        assert forall|i: int|
            0 <= i < s.len() && (spec_key_index(s, key) < 0 || i < spec_key_index(
                s,
                key,
            )) implies (#[trigger] s[i]).0 != key by {
            if i > 0 {
                assert(s.drop_first()[i - 1] == s[i]);
            }
        }
    }
}

pub proof fn lemma_key_index_first(s: Seq<(Seq<char>, SpecValue)>, key: Seq<char>, i: int)
    requires
        0 <= i < s.len(),
        s[i].0 == key,
        forall|k: int| 0 <= k < i ==> (#[trigger] s[k]).0 != key,
    ensures
        spec_key_index(s, key) == i,
    decreases s,
{
    if i > 0 {
        assert(s[0].0 != key);
        assert forall|k: int| 0 <= k < i - 1 implies (#[trigger] s.drop_first()[k]).0 != key by {
            assert(s.drop_first()[k] == s[k + 1]);
        }
        lemma_key_index_first(s.drop_first(), key, i - 1);
    }
}

pub proof fn lemma_key_index_absent(s: Seq<(Seq<char>, SpecValue)>, key: Seq<char>)
    requires
        forall|k: int| 0 <= k < s.len() ==> (#[trigger] s[k]).0 != key,
    ensures
        spec_key_index(s, key) < 0,
    decreases s,
{
    if s.len() > 0 {
        assert forall|k: int|
            0 <= k < s.drop_first().len() implies (#[trigger] s.drop_first()[k]).0 != key by {
            assert(s.drop_first()[k] == s[k + 1]);
        }
        lemma_key_index_absent(s.drop_first(), key);
    }
}

/// One source tree merged over another: tables merge field by field,
/// with the new operand winning where both hold the same key; any other
/// pairing is replaced outright by the new operand.
pub open spec fn spec_merge(a: SpecValue, b: SpecValue) -> SpecValue
    decreases b,
{
    match (a, b) {
        (SpecValue::Table(x), SpecValue::Table(y)) => SpecValue::Table(spec_merge_entries(x, y)),
        (_, bb) => bb,
    }
}

/// The entries of `x` overwritten, left to right, by those of `y`.
pub open spec fn spec_merge_entries(
    x: Seq<(Seq<char>, SpecValue)>,
    y: Seq<(Seq<char>, SpecValue)>,
) -> Seq<(Seq<char>, SpecValue)>
    decreases y,
{
    if y.len() == 0 {
        x
    } else {
        spec_merge_entries(spec_merge_entry(x, y[0]), y.drop_first())
    }
}

/// One entry merged into a table's entries: an existing key is merged in
/// place, a new key is appended.
pub open spec fn spec_merge_entry(
    x: Seq<(Seq<char>, SpecValue)>,
    e: (Seq<char>, SpecValue),
) -> Seq<(Seq<char>, SpecValue)>
    decreases e,
{
    let i = spec_key_index(x, e.0);
    if i >= 0 {
        x.update(i, (e.0, spec_merge(x[i].1, e.1)))
    } else {
        x.push(e)
    }
}

/// The position of the first entry whose key equals `key`, if any.
pub fn find_key(entries: &Vec<(String, Value)>, key: &String) -> (r: Option<usize>)
    ensures
        match r {
            Some(i) => i == spec_key_index(model_entries(entries@), key@),
            None => spec_key_index(model_entries(entries@), key@) < 0,
        },
{
    proof {
        lemma_model_entries(entries@);
    }
    let ghost m = model_entries(entries@);
    let n = entries.len();
    let mut i: usize = 0;
    while i < n
        invariant
            n == entries@.len(),
            m == model_entries(entries@),
            m.len() == n,
            forall|k: int| 0 <= k < m.len() ==> (#[trigger] m[k]).0 == entries@[k].0@,
            i <= n,
            forall|k: int| 0 <= k < i ==> (#[trigger] m[k]).0 != key@,
        decreases n - i,
    {
        let e = vec_index(entries, i);
        if str_eq(e.0.as_str(), key.as_str()) {
            proof {
                lemma_key_index_first(m, key@, i as int);
            }
            return Some(i);
        }
        i = i + 1;
    }
    proof {
        lemma_key_index_absent(m, key@);
    }
    None
}

impl Value {
    /// `rhs` merged over `self`, per the overwrite rule: tables merge
    /// recursively by key, any other pairing is replaced by `rhs`.
    #[verifier::loop_isolation(false)]
    pub fn merge(self, rhs: Value) -> (r: Value)
        ensures
            r@ == spec_merge(self@, rhs@),
        decreases rhs,
    {
        let ghost rhs0 = rhs;
        match (self, rhs) {
            (Value::Table(x), Value::Table(y)) => {
                let ghost x0 = x;
                let ghost y0 = y;
                proof {
                    assert(rhs0 == Value::Table(y0));
                }
                let mut acc = x;
                let mut rest = y;
                let ghost mut j: int = 0;
                proof {
                    assert(rest@ =~= y0@.skip(0));
                }
                while rest.len() > 0
                    invariant
                        0 <= j <= y0@.len(),
                        rest@ == y0@.skip(j),
                        spec_merge_entries(model_entries(x0@), model_entries(y0@))
                            == spec_merge_entries(model_entries(acc@), model_entries(rest@)),
                        rhs0 == Value::Table(y0),
                    decreases rest@.len(),
                {
                    let ghost acc_before = acc;
                    let ghost rest_before = rest;
                    let (k, v) = rest.remove(0);
                    proof {
                        assert(rest_before@[0] == y0@.skip(j)[0]);
                        assert(y0@.skip(j)[0] == y0@[j]);
                        assert(rest@ =~= y0@.skip(j + 1));
                        lemma_model_entries(rest_before@);
                        assert(model_entries(rest_before@)[0] == (k@, v@));
                    }
                    let found = find_key(&acc, &k);
                    match found {
                        Some(i) => {
                            proof {
                                lemma_model_entries(acc_before@);
                                lemma_key_index(model_entries(acc_before@), k@);
                            }
                            let (k2, cur) = acc.remove(i);
                            proof {
                                assert(k2@ == k@);
                                // The child being merged is a component of `rhs`,
                                // so the recursion is on a smaller tree.
                                assert(decreases_to!(rhs0 => rhs0->Table_0));
                                assert(decreases_to!(y0 => y0@));
                                assert(decreases_to!(y0@ => y0@[j]));
                                assert(decreases_to!(y0@[j] => y0@[j].1));
                                assert(v == y0@[j].1);
                                assert(decreases_to!(rhs0 => v));
                            }
                            let merged = cur.merge(v);
                            acc.insert(i, (k2, merged));
                            proof {
                                let am = model_entries(acc_before@);
                                vstd::seq_lib::lemma_update_is_remove_insert(
                                    acc_before@,
                                    i as int,
                                    (k2, merged),
                                );
                                assert(acc@ =~= acc_before@.update(i as int, (k2, merged)));
                                lemma_model_entries(acc@);
                                assert(model_entries(acc@) =~= spec_merge_entry(
                                    am,
                                    (k@, v@),
                                ));
                            }
                        },
                        None => {
                            acc.push((k, v));
                            proof {
                                let am = model_entries(acc_before@);
                                lemma_model_entries(acc_before@);
                                lemma_model_entries(acc@);
                                assert(model_entries(acc@) =~= spec_merge_entry(
                                    am,
                                    (k@, v@),
                                ));
                            }
                        },
                    }
                    proof {
                        let am = model_entries(acc_before@);
                        let rm = model_entries(rest_before@);
                        lemma_model_entries(rest_before@);
                        lemma_model_entries(rest@);
                        // One unfolding of the spec fold.
                        assert(rm.drop_first() =~= model_entries(rest@));
                        assert(spec_merge_entries(am, rm) == spec_merge_entries(
                            spec_merge_entry(am, rm[0]),
                            rm.drop_first(),
                        ));
                        j = j + 1;
                    }
                }
                proof {
                    assert(rest@.len() == 0);
                    assert(model_entries(rest@) =~= Seq::<(Seq<char>, SpecValue)>::empty());
                    assert(spec_merge_entries(model_entries(acc@), model_entries(rest@))
                        == model_entries(acc@));
                }
                Value::Table(acc)
            },
            (_, b) => b,
        }
    }
}

/// An ordered sequence of source trees folded into one, later sources
/// overwriting earlier ones; the fold starts from an empty table.
pub open spec fn spec_merge_all(sources: Seq<SpecValue>) -> SpecValue
    decreases sources,
{
    if sources.len() == 0 {
        SpecValue::Table(Seq::empty())
    } else {
        spec_merge(spec_merge_all(sources.drop_last()), sources.last())
    }
}

/// Folds the given source trees, in order, into one merged tree.
pub fn merge_all(sources: Vec<Value>) -> (r: Value)
    ensures
        r@ == spec_merge_all(model_seq(sources@)),
{
    proof {
        lemma_model_seq(sources@);
    }
    let ghost s0 = sources;
    let mut acc = Value::Table(Vec::new());
    let mut i: usize = 0;
    proof {
        assert(model_entries(Seq::<(String, Value)>::empty())
            =~= Seq::<(Seq<char>, SpecValue)>::empty());
        assert(model_seq(s0@).subrange(0, 0) =~= Seq::<SpecValue>::empty());
    }
    let n = sources.len();
    let mut rest = sources;
    while i < n
        invariant
            n == s0@.len(),
            i <= n,
            rest@ == s0@.skip(i as int),
            acc@ == spec_merge_all(model_seq(s0@).subrange(0, i as int)),
            model_seq(s0@).len() == n,
            forall|k: int| 0 <= k < n ==> model_seq(s0@)[k] == (#[trigger] s0@[k])@,
        decreases n - i,
    {
        let ghost rest_before = rest;
        let v = rest.remove(0);
        proof {
            assert(rest_before@[0] == s0@.skip(i as int)[0]);
            assert(rest_before@[0] == s0@[i as int]);
            assert(rest@ =~= s0@.skip(i as int + 1));
        }
        acc = acc.merge(v);
        proof {
            let pre = model_seq(s0@).subrange(0, i as int);
            let post = model_seq(s0@).subrange(0, i as int + 1);
            assert(post.drop_last() =~= pre);
            assert(post.last() == v@);
        }
        i = i + 1;
    }
    proof {
        assert(model_seq(s0@).subrange(0, n as int) =~= model_seq(s0@));
    }
    acc
}

/// Replace law: merging any pair that is not table-on-table yields the new
/// operand unchanged, whichever shapes the two operands have.
pub proof fn lemma_merge_replaces(a: SpecValue, b: SpecValue)
    requires
        !(a is Table) || !(b is Table),
    ensures
        spec_merge(a, b) == b,
{
}

proof fn lemma_merge_entry_lookup(
    x: Seq<(Seq<char>, SpecValue)>,
    e: (Seq<char>, SpecValue),
    k: Seq<char>,
)
    ensures
        spec_lookup(spec_merge_entry(x, e), k) == if k == e.0 {
            match spec_lookup(x, e.0) {
                Some(av) => Some(spec_merge(av, e.1)),
                None => Some(e.1),
            }
        } else {
            spec_lookup(x, k)
        },
{
    let i = spec_key_index(x, e.0);
    let m = spec_merge_entry(x, e);
    lemma_key_index(x, e.0);
    lemma_key_index(x, k);
    let ik = spec_key_index(x, k);
    if i >= 0 {
        assert(m == x.update(i, (e.0, spec_merge(x[i].1, e.1))));
        if k == e.0 {
            assert forall|j: int| 0 <= j < i implies (#[trigger] m[j]).0 != k by {
                assert(m[j] == x[j]);
            }
            lemma_key_index_first(m, k, i);
        } else {
            if ik >= 0 {
                assert(ik != i);
                assert forall|j: int| 0 <= j < ik implies (#[trigger] m[j]).0 != k by {
                    if j != i {
                        assert(m[j] == x[j]);
                    }
                }
                lemma_key_index_first(m, k, ik);
                assert(m[ik] == x[ik]);
            } else {
                assert forall|j: int| 0 <= j < m.len() implies (#[trigger] m[j]).0 != k by {
                    if j != i {
                        assert(m[j] == x[j]);
                    }
                }
                lemma_key_index_absent(m, k);
            }
        }
    } else {
        assert(m == x.push(e));
        if k == e.0 {
            assert forall|j: int| 0 <= j < x.len() implies (#[trigger] m[j]).0 != k by {
                assert(m[j] == x[j]);
            }
            assert(m[x.len() as int].0 == k);
            lemma_key_index_first(m, k, x.len() as int);
        } else {
            if ik >= 0 {
                assert forall|j: int| 0 <= j < ik implies (#[trigger] m[j]).0 != k by {
                    assert(m[j] == x[j]);
                }
                assert(m[ik] == x[ik]);
                lemma_key_index_first(m, k, ik);
            } else {
                assert forall|j: int| 0 <= j < m.len() implies (#[trigger] m[j]).0 != k by {
                    if j < x.len() {
                        assert(m[j] == x[j]);
                    }
                }
                lemma_key_index_absent(m, k);
            }
        }
    }
}

proof fn lemma_merge_entries_lookup(
    x: Seq<(Seq<char>, SpecValue)>,
    y: Seq<(Seq<char>, SpecValue)>,
    k: Seq<char>,
)
    requires
        spec_unique_keys(y),
    ensures
        spec_lookup(spec_merge_entries(x, y), k) == match (spec_lookup(x, k), spec_lookup(y, k)) {
            (xa, None) => xa,
            (Some(av), Some(bv)) => Some(spec_merge(av, bv)),
            (None, Some(bv)) => Some(bv),
        },
    decreases y,
{
    if y.len() > 0 {
        let e = y[0];
        let m1 = spec_merge_entry(x, e);
        let rest = y.drop_first();
        assert forall|i: int, j: int| 0 <= i < j < rest.len() implies (#[trigger] rest[i]).0 != (
        #[trigger] rest[j]).0 by {
            assert(rest[i] == y[i + 1]);
            assert(rest[j] == y[j + 1]);
        }
        lemma_merge_entries_lookup(m1, rest, k);
        lemma_merge_entry_lookup(x, e, k);
        lemma_key_index(y, k);
        lemma_key_index(rest, k);
        if k == e.0 {
            // The head key cannot recur in the rest of `y`.
            assert forall|j: int| 0 <= j < rest.len() implies (#[trigger] rest[j]).0 != k by {
                assert(rest[j] == y[j + 1]);
            }
            lemma_key_index_absent(rest, k);
            lemma_key_index_first(y, k, 0);
        } else {
            // Looking `k` up in `y` is looking it up in the rest of `y`.
            let ir = spec_key_index(rest, k);
            if ir >= 0 {
                assert(rest[ir] == y[ir + 1]);
                assert forall|j: int| 0 <= j < ir + 1 implies (#[trigger] y[j]).0 != k by {
                    if j > 0 {
                        assert(y[j] == rest[j - 1]);
                    }
                }
                lemma_key_index_first(y, k, ir + 1);
            } else {
                assert forall|j: int| 0 <= j < y.len() implies (#[trigger] y[j]).0 != k by {
                    if j > 0 {
                        assert(y[j] == rest[j - 1]);
                    }
                }
                lemma_key_index_absent(y, k);
            }
        }
    }
}

/// Overwrite law: merging table `a` with table `b` yields, for every key
/// present in `b`, exactly `b`'s value — recursively merged where `a` also
/// holds the key — and for every key present only in `a`, exactly `a`'s
/// value.
pub proof fn lemma_merge_overwrites(a: SpecValue, b: SpecValue, k: Seq<char>)
    requires
        a is Table,
        b is Table,
        b.wf(),
    ensures
        spec_merge(a, b) is Table,
        spec_lookup(b->Table_0, k) is None ==> spec_lookup((spec_merge(a, b))->Table_0, k)
            == spec_lookup(a->Table_0, k),
        spec_lookup(b->Table_0, k) is Some ==> spec_lookup((spec_merge(a, b))->Table_0, k) == match
            spec_lookup(a->Table_0, k) {
            Some(av) => Some(spec_merge(av, spec_lookup(b->Table_0, k)->Some_0)),
            None => spec_lookup(b->Table_0, k),
        },
{
    assert(spec_entries_wf(b->Table_0)) by {
        assert(b == SpecValue::Table(b->Table_0));
    }
    lemma_merge_entries_lookup(a->Table_0, b->Table_0, k);
}

proof fn lemma_merge_entry_wf(x: Seq<(Seq<char>, SpecValue)>, e: (Seq<char>, SpecValue))
    requires
        spec_entries_wf(x),
        e.1.wf(),
    ensures
        spec_entries_wf(spec_merge_entry(x, e)),
    decreases e,
{
    let i = spec_key_index(x, e.0);
    let m = spec_merge_entry(x, e);
    lemma_key_index(x, e.0);
    if i >= 0 {
        lemma_merge_wf(x[i].1, e.1);
        assert forall|p: int, q: int| 0 <= p < q < m.len() implies (#[trigger] m[p]).0 != (
        #[trigger] m[q]).0 by {
            assert(m[p].0 == x[p].0);
            assert(m[q].0 == x[q].0);
            assert(x[p].0 != x[q].0);
        }
        assert forall|p: int| 0 <= p < m.len() implies (#[trigger] m[p]).1.wf() by {
            if p != i {
                assert(m[p] == x[p]);
            }
        }
    } else {
        assert forall|p: int, q: int| 0 <= p < q < m.len() implies (#[trigger] m[p]).0 != (
        #[trigger] m[q]).0 by {
            if q < x.len() {
                assert(m[p] == x[p]);
                assert(m[q] == x[q]);
            } else {
                assert(m[p] == x[p]);
                assert(m[q] == e);
            }
        }
        assert forall|p: int| 0 <= p < m.len() implies (#[trigger] m[p]).1.wf() by {
            if p < x.len() {
                assert(m[p] == x[p]);
            }
        }
    }
}

proof fn lemma_merge_entries_wf(x: Seq<(Seq<char>, SpecValue)>, y: Seq<(Seq<char>, SpecValue)>)
    requires
        spec_entries_wf(x),
        spec_entries_wf(y),
    ensures
        spec_entries_wf(spec_merge_entries(x, y)),
    decreases y,
{
    if y.len() > 0 {
        lemma_merge_entry_wf(x, y[0]);
        let rest = y.drop_first();
        assert forall|p: int| 0 <= p < rest.len() implies (#[trigger] rest[p]).1.wf() by {
            assert(rest[p] == y[p + 1]);
        }
        assert forall|p: int, q: int| 0 <= p < q < rest.len() implies (#[trigger] rest[p]).0 != (
        #[trigger] rest[q]).0 by {
            assert(rest[p] == y[p + 1]);
            assert(rest[q] == y[q + 1]);
        }
        lemma_merge_entries_wf(spec_merge_entry(x, y[0]), rest);
    }
}

/// Merging preserves well-formedness.
pub proof fn lemma_merge_wf(a: SpecValue, b: SpecValue)
    requires
        a.wf(),
        b.wf(),
    ensures
        spec_merge(a, b).wf(),
    decreases b,
{
    if a is Table && b is Table {
        lemma_merge_entries_wf(a->Table_0, b->Table_0);
    }
}

/// Folding well-formed sources yields a well-formed tree.
pub proof fn lemma_merge_all_wf(sources: Seq<SpecValue>)
    requires
        forall|i: int| 0 <= i < sources.len() ==> (#[trigger] sources[i]).wf(),
    ensures
        spec_merge_all(sources).wf(),
    decreases sources,
{
    if sources.len() == 0 {
        assert(spec_entries_wf(Seq::<(Seq<char>, SpecValue)>::empty()));
    } else {
        lemma_merge_all_wf(sources.drop_last());
        lemma_merge_wf(spec_merge_all(sources.drop_last()), sources.last());
    }
}

} // verus!
