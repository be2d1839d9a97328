use vstd::prelude::*;
use vstd::std_specs::vec::vec_index;
use crate::key::{Key, SpecKey};
use crate::strutil::{str_chars, substring_chars};

verus! {

/// The empty path: it addresses the root itself.
#[derive(Debug, PartialEq)]
pub struct PathNil;

/// A key followed by the rest of a path.
#[derive(Debug, PartialEq)]
pub struct PathCons {
    pub key: Key,
    pub rest: Box<Path>,
}

/// A path: an ordered sequence of keys addressing nested data, in cons-list
/// form — the empty path and "key followed by rest" are the only two forms.
#[derive(Debug, PartialEq)]
pub enum Path {
    Nil(PathNil),
    Cons(PathCons),
}

impl Path {
    /// The model of a path: its keys, in order.
    pub open spec fn model(self) -> Seq<SpecKey>
        decreases self,
    {
        match self {
            Path::Nil(_) => Seq::empty(),
            Path::Cons(c) => seq![c.key@] + (*c.rest).model(),
        }
    }

    /// The empty path.
    pub fn empty() -> (r: Path)
        ensures
            r@ == Seq::<SpecKey>::empty(),
    {
        Path::Nil(PathNil)
    }

    /// `key` followed by `rest`.
    pub fn cons(key: Key, rest: Path) -> (r: Path)
        ensures
            r@ == seq![key@] + rest@,
    {
        Path::Cons(PathCons { key, rest: Box::new(rest) })
    }

    /// The path holding the given keys, in order: the sequence right-folded
    /// into a cons chain ending in the empty path.
    pub fn from_keys(keys: Vec<Key>) -> (r: Path)
        ensures
            r@ == spec_keys_model(keys@),
    {
        let ghost keys0 = keys;
        let mut keys = keys;
        let mut p = Path::empty();
        proof {
            assert(p@ =~= spec_keys_model(keys0@).skip(keys0@.len() as int));
            assert(keys@ =~= keys0@.subrange(0, keys@.len() as int));
        }
        while keys.len() > 0
            invariant
                keys@.len() <= keys0@.len(),
                keys@ == keys0@.subrange(0, keys@.len() as int),
                p@ == spec_keys_model(keys0@).skip(keys@.len() as int),
            decreases keys@.len(),
        {
            let ghost before = keys@;
            let k = keys.pop().unwrap();
            proof {
                assert(k == keys0@[before.len() - 1]);
                assert(keys@ =~= keys0@.subrange(0, keys@.len() as int));
            }
            p = Path::cons(k, p);
            proof {
                assert(p@ =~= spec_keys_model(keys0@).skip(keys@.len() as int));
            }
        }
        proof {
            assert(p@ =~= spec_keys_model(keys0@));
        }
        p
    }
}

impl View for Path {
    type V = Seq<SpecKey>;

    open spec fn view(&self) -> Seq<SpecKey> {
        (*self).model()
    }
}

/// The models of a sequence of keys, in order.
pub open spec fn spec_keys_model(s: Seq<Key>) -> Seq<SpecKey> {
    Seq::new(s.len(), |i: int| s[i]@)
}

/// A path literal that does not follow the path grammar.
#[derive(Debug, PartialEq)]
pub struct PathError;

/// Whitespace that the path grammar ignores.
pub open spec fn spec_ws(c: char) -> bool {
    c == ' ' || c == '\t'
}

/// Characters a bare name may consist of.
pub open spec fn spec_name_char(c: char) -> bool {
    ('A' <= c && c <= 'Z') || ('a' <= c && c <= 'z') || ('0' <= c && c <= '9') || c == '_' || c
        == '-'
}

/// A decimal digit.
pub open spec fn spec_digit(c: char) -> bool {
    '0' <= c && c <= '9'
}

/// The numeric value of a digit character.
pub open spec fn spec_digit_val(c: char) -> nat {
    (c as int - '0' as int) as nat
}

/// `s` with its leading whitespace removed.
pub open spec fn spec_trim_ws(s: Seq<char>) -> Seq<char>
    decreases s.len(),
{
    if s.len() > 0 && spec_ws(s[0]) {
        spec_trim_ws(s.drop_first())
    } else {
        s
    }
}

/// The longest name-character prefix of `s`, and what follows it.
pub open spec fn spec_take_name(s: Seq<char>) -> (Seq<char>, Seq<char>)
    decreases s.len(),
{
    if s.len() > 0 && spec_name_char(s[0]) {
        let (a, b) = spec_take_name(s.drop_first());
        (seq![s[0]] + a, b)
    } else {
        (Seq::empty(), s)
    }
}

/// The longest digit prefix of `s`, and what follows it.
pub open spec fn spec_take_digits(s: Seq<char>) -> (Seq<char>, Seq<char>)
    decreases s.len(),
{
    if s.len() > 0 && spec_digit(s[0]) {
        let (a, b) = spec_take_digits(s.drop_first());
        (seq![s[0]] + a, b)
    } else {
        (Seq::empty(), s)
    }
}

/// The content of a quoted name, `s` starting right after the opening
/// quote: the characters up to the first closing quote, and what follows
/// that quote; `None` if the quote never closes.
pub open spec fn spec_take_quoted(s: Seq<char>) -> Option<(Seq<char>, Seq<char>)>
    decreases s.len(),
{
    if s.len() == 0 {
        None
    } else if s[0] == '"' {
        Some((Seq::empty(), s.drop_first()))
    } else {
        match spec_take_quoted(s.drop_first()) {
            Some((c, r)) => Some((seq![s[0]] + c, r)),
            None => None,
        }
    }
}

/// The value of a digit string, most significant digit first.
pub open spec fn spec_digits_val(ds: Seq<char>) -> nat
    decreases ds.len(),
{
    if ds.len() == 0 {
        0
    } else {
        spec_digits_val(ds.drop_last()) * 10 + spec_digit_val(ds.last())
    }
}

/// One `.name`, `."quoted name"` or `[index]` segment at the head of `t`,
/// and the input that follows it; `None` if `t` starts with no such
/// segment. An index must fit the machine's word for the path to be
/// accepted.
pub open spec fn spec_segment(t: Seq<char>) -> Option<(SpecKey, Seq<char>)> {
    if t.len() > 0 && t[0] == '.' {
        let u = spec_trim_ws(t.drop_first());
        if u.len() > 0 && spec_name_char(u[0]) {
            let (nm, rest) = spec_take_name(u);
            Some((SpecKey::Name(nm), rest))
        } else if u.len() > 0 && u[0] == '"' {
            match spec_take_quoted(u.drop_first()) {
                Some((nm, rest)) => Some((SpecKey::Name(nm), rest)),
                None => None,
            }
        } else {
            None
        }
    } else if t.len() > 0 && t[0] == '[' {
        let u = spec_trim_ws(t.drop_first());
        let (ds, rest) = spec_take_digits(u);
        if ds.len() == 0 {
            None
        } else {
            let rest2 = spec_trim_ws(rest);
            if rest2.len() > 0 && rest2[0] == ']' && spec_digits_val(ds) <= usize::MAX {
                Some((SpecKey::Index(spec_digits_val(ds) as int), rest2.drop_first()))
            } else {
                None
            }
        }
    } else {
        None
    }
}

/// Zero or more segments, then optional trailing whitespace, then the end
/// of the input.
pub open spec fn spec_parse_segments(s: Seq<char>) -> Option<Seq<SpecKey>>
    decreases s.len(),
{
    let t = spec_trim_ws(s);
    if t.len() == 0 {
        Some(Seq::empty())
    } else {
        match spec_segment(t) {
            // The length tests only justify termination: a segment always
            // consumes input and trimming never lengthens it, so the first
            // branch always applies.
            Some((k, rest)) => if rest.len() < t.len() && t.len() <= s.len() {
                match spec_parse_segments(rest) {
                    Some(ks) => Some(seq![k] + ks),
                    None => None,
                }
            } else {
                None
            },
            None => None,
        }
    }
}

/// The path grammar: optional leading whitespace, an optional bare or
/// quoted leading name, then segments; the empty input denotes the root.
/// `None` is a syntax error.
pub open spec fn spec_parse_path(s: Seq<char>) -> Option<Seq<SpecKey>> {
    let t = spec_trim_ws(s);
    if t.len() == 0 {
        Some(Seq::empty())
    } else if spec_name_char(t[0]) {
        let (nm, rest) = spec_take_name(t);
        match spec_parse_segments(rest) {
            Some(ks) => Some(seq![SpecKey::Name(nm)] + ks),
            None => None,
        }
    } else if t[0] == '"' {
        match spec_take_quoted(t.drop_first()) {
            Some((nm, rest)) => match spec_parse_segments(rest) {
                Some(ks) => Some(seq![SpecKey::Name(nm)] + ks),
                None => None,
            },
            None => None,
        }
    } else {
        spec_parse_segments(t)
    }
}

fn ws_char(c: char) -> (r: bool)
    ensures
        r == spec_ws(c),
{
    c == ' ' || c == '\t'
}

fn name_char(c: char) -> (r: bool)
    ensures
        r == spec_name_char(c),
{
    ('A' <= c && c <= 'Z') || ('a' <= c && c <= 'z') || ('0' <= c && c <= '9') || c == '_' || c
        == '-'
}

fn digit_char(c: char) -> (r: bool)
    ensures
        r == spec_digit(c),
{
    '0' <= c && c <= '9'
}

/// The first position at or after `i` that holds no whitespace.
fn trim_pos(chars: &Vec<char>, i: usize) -> (r: usize)
    requires
        i <= chars@.len(),
    ensures
        i <= r <= chars@.len(),
        chars@.skip(r as int) == spec_trim_ws(chars@.skip(i as int)),
{
    let n = chars.len();
    let mut r = i;
    while r < n && ws_char(*vec_index(chars, r))
        invariant
            i <= r <= n,
            n == chars@.len(),
            spec_trim_ws(chars@.skip(i as int)) == spec_trim_ws(chars@.skip(r as int)),
        decreases n - r,
    {
        proof {
            assert(chars@.skip(r as int).drop_first() =~= chars@.skip(r as int + 1));
        }
        r = r + 1;
    }
    proof {
        assert(spec_trim_ws(chars@.skip(r as int)) == chars@.skip(r as int));
    }
    r
}

/// The end of the longest name-character run starting at `i`.
fn name_end(chars: &Vec<char>, i: usize) -> (r: usize)
    requires
        i <= chars@.len(),
    ensures
        i <= r <= chars@.len(),
        spec_take_name(chars@.skip(i as int)).0 == chars@.subrange(i as int, r as int),
        spec_take_name(chars@.skip(i as int)).1 == chars@.skip(r as int),
{
    let n = chars.len();
    let mut r = i;
    while r < n && name_char(*vec_index(chars, r))
        invariant
            i <= r <= n,
            n == chars@.len(),
            spec_take_name(chars@.skip(i as int)).0 =~= chars@.subrange(i as int, r as int)
                + spec_take_name(chars@.skip(r as int)).0,
            spec_take_name(chars@.skip(i as int)).1 == spec_take_name(chars@.skip(r as int)).1,
        decreases n - r,
    {
        proof {
            assert(chars@.skip(r as int).drop_first() =~= chars@.skip(r as int + 1));
            assert(chars@.subrange(i as int, r as int).push(chars@[r as int]) =~= chars@.subrange(
                i as int,
                r as int + 1,
            ));
            assert(chars@.subrange(i as int, r as int) + (seq![chars@[r as int]]
                + spec_take_name(chars@.skip(r as int + 1)).0) =~= chars@.subrange(
                i as int,
                r as int + 1,
            ) + spec_take_name(chars@.skip(r as int + 1)).0);
        }
        r = r + 1;
    }
    proof {
        assert(spec_take_name(chars@.skip(r as int)).0 =~= Seq::<char>::empty());
        assert(spec_take_name(chars@.skip(r as int)).1 == chars@.skip(r as int));
        assert(chars@.subrange(i as int, r as int) + Seq::<char>::empty() =~= chars@.subrange(
            i as int,
            r as int,
        ));
    }
    r
}

/// The end of the longest digit run starting at `i`.
fn digits_end(chars: &Vec<char>, i: usize) -> (r: usize)
    requires
        i <= chars@.len(),
    ensures
        i <= r <= chars@.len(),
        spec_take_digits(chars@.skip(i as int)).0 == chars@.subrange(i as int, r as int),
        spec_take_digits(chars@.skip(i as int)).1 == chars@.skip(r as int),
{
    let n = chars.len();
    let mut r = i;
    while r < n && digit_char(*vec_index(chars, r))
        invariant
            i <= r <= n,
            n == chars@.len(),
            spec_take_digits(chars@.skip(i as int)).0 =~= chars@.subrange(i as int, r as int)
                + spec_take_digits(chars@.skip(r as int)).0,
            spec_take_digits(chars@.skip(i as int)).1 == spec_take_digits(chars@.skip(r as int)).1,
        decreases n - r,
    {
        proof {
            assert(chars@.skip(r as int).drop_first() =~= chars@.skip(r as int + 1));
            assert(chars@.subrange(i as int, r as int) + (seq![chars@[r as int]]
                + spec_take_digits(chars@.skip(r as int + 1)).0) =~= chars@.subrange(
                i as int,
                r as int + 1,
            ) + spec_take_digits(chars@.skip(r as int + 1)).0);
        }
        r = r + 1;
    }
    proof {
        assert(spec_take_digits(chars@.skip(r as int)).0 =~= Seq::<char>::empty());
        assert(chars@.subrange(i as int, r as int) + Seq::<char>::empty() =~= chars@.subrange(
            i as int,
            r as int,
        ));
    }
    r
}

/// The position of the first quote at or after `i`, if any.
fn quote_end(chars: &Vec<char>, i: usize) -> (r: Option<usize>)
    requires
        i <= chars@.len(),
    ensures
        match r {
            Some(e) => {
                &&& i <= e < chars@.len()
                &&& spec_take_quoted(chars@.skip(i as int)) == Some(
                    (chars@.subrange(i as int, e as int), chars@.skip(e as int + 1)),
                )
            },
            None => spec_take_quoted(chars@.skip(i as int)) is None,
        },
{
    let n = chars.len();
    let mut r = i;
    while r < n && *vec_index(chars, r) != '"'
        invariant
            i <= r <= n,
            n == chars@.len(),
            spec_take_quoted(chars@.skip(i as int)) == match spec_take_quoted(
                chars@.skip(r as int),
            ) {
                Some((c, rest)) => Some(
                    (chars@.subrange(i as int, r as int) + c, rest),
                ),
                None => None::<(Seq<char>, Seq<char>)>,
            },
        decreases n - r,
    {
        proof {
            assert(chars@.skip(r as int).drop_first() =~= chars@.skip(r as int + 1));
            if spec_take_quoted(chars@.skip(r as int + 1)) is Some {
                let (c, rest) = spec_take_quoted(chars@.skip(r as int + 1)).unwrap();
                assert(chars@.subrange(i as int, r as int) + (seq![chars@[r as int]] + c)
                    =~= chars@.subrange(i as int, r as int + 1) + c);
            }
        }
        r = r + 1;
    }
    if r < n {
        proof {
            assert(spec_take_quoted(chars@.skip(r as int)) == Some(
                (Seq::<char>::empty(), chars@.skip(r as int).drop_first()),
            ));
            assert(chars@.skip(r as int).drop_first() =~= chars@.skip(r as int + 1));
            assert(chars@.subrange(i as int, r as int) + Seq::<char>::empty() =~= chars@.subrange(
                i as int,
                r as int,
            ));
        }
        Some(r)
    } else {
        proof {
            assert(chars@.skip(r as int) =~= Seq::<char>::empty());
        }
        None
    }
}

proof fn lemma_digits_val_mono(ds: Seq<char>, k: int)
    requires
        0 <= k <= ds.len(),
    ensures
        spec_digits_val(ds.subrange(0, k)) <= spec_digits_val(ds),
    decreases ds.len() - k,
{
    if k == ds.len() {
        assert(ds.subrange(0, k) =~= ds);
    } else {
        assert(ds.subrange(0, ds.len() as int) =~= ds);
        let pre = ds.drop_last();
        assert(spec_digits_val(ds) == spec_digits_val(pre) * 10 + spec_digit_val(ds.last()));
        assert(spec_digits_val(pre) * 10 >= spec_digits_val(pre));
        assert(pre.subrange(0, k) =~= ds.subrange(0, k));
        lemma_digits_val_mono(pre, k);
    }
}

/// The value of the digit run `[i, e)`, where it fits the machine word.
fn digits_value(chars: &Vec<char>, i: usize, e: usize) -> (r: Option<usize>)
    requires
        i <= e <= chars@.len(),
        forall|k: int| i <= k < e ==> spec_digit(chars@[k]),
    ensures
        match r {
            Some(v) => v == spec_digits_val(chars@.subrange(i as int, e as int)),
            None => spec_digits_val(chars@.subrange(i as int, e as int)) > usize::MAX,
        },
{
    let mut val: usize = 0;
    let mut cur = i;
    proof {
        assert(chars@.subrange(i as int, i as int) =~= Seq::<char>::empty());
    }
    while cur < e
        invariant
            i <= cur <= e <= chars@.len(),
            forall|k: int| i <= k < e ==> spec_digit(chars@[k]),
            val == spec_digits_val(chars@.subrange(i as int, cur as int)),
        decreases e - cur,
    {
        let c = *vec_index(chars, cur);
        let d: usize = (c as u32 as usize) - 48;
        proof {
            assert(spec_digit(c));
            assert(d == spec_digit_val(c));
            assert(d < 10);
        }
        if val > (usize::MAX - d) / 10 {
            proof {
                let part = chars@.subrange(i as int, cur as int + 1);
                assert(part.drop_last() =~= chars@.subrange(i as int, cur as int));
                assert(part.last() == c);
                assert(spec_digits_val(part) == val * 10 + d);
                assert(val * 10 + d > usize::MAX) by (nonlinear_arith)
                    requires
                        val > (usize::MAX - d) / 10,
                        d <= usize::MAX,
                {
                }
                lemma_digits_val_mono(chars@.subrange(i as int, e as int), cur - i + 1);
                assert(chars@.subrange(i as int, e as int).subrange(0, cur - i + 1) =~= part);
            }
            return None;
        }
        proof {
            let part = chars@.subrange(i as int, cur as int + 1);
            assert(part.drop_last() =~= chars@.subrange(i as int, cur as int));
            assert(part.last() == c);
            assert(val * 10 + d <= usize::MAX) by (nonlinear_arith)
                requires
                    val <= (usize::MAX - d) / 10,
                    d <= usize::MAX,
            {
            }
        }
        val = val * 10 + d;
        cur = cur + 1;
    }
    Some(val)
}

/// One segment parsed at position `i`: the key and the position after it.
fn parse_segment(chars: &Vec<char>, i: usize) -> (r: Result<(Key, usize), PathError>)
    requires
        i <= chars@.len(),
    ensures
        match r {
            Ok((k, np)) => {
                &&& i < np <= chars@.len()
                &&& spec_segment(chars@.skip(i as int)) == Some((k@, chars@.skip(np as int)))
            },
            Err(_) => spec_segment(chars@.skip(i as int)) is None,
        },
{
    let n = chars.len();
    if i >= n {
        return Err(PathError);
    }
    let c = *vec_index(chars, i);
    proof {
        assert(chars@.skip(i as int)[0] == c);
        assert(chars@.skip(i as int).drop_first() =~= chars@.skip(i as int + 1));
    }
    if c == '.' {
        let u = trim_pos(chars, i + 1);
        if u < n {
            let h = *vec_index(chars, u);
            proof {
                assert(chars@.skip(u as int)[0] == h);
            }
            if name_char(h) {
                let e = name_end(chars, u);
                let name = substring_chars(chars, u, e);
                proof {
                    assert(spec_take_name(chars@.skip(u as int)).0.len() > 0);
                    assert(chars@.subrange(u as int, e as int).len() == e - u);
                }
                return Ok((Key::Name(name), e));
            }
            if h == '"' {
                proof {
                    assert(chars@.skip(u as int).drop_first() =~= chars@.skip(u as int + 1));
                }
                match quote_end(chars, u + 1) {
                    Some(e) => {
                        let name = substring_chars(chars, u + 1, e);
                        return Ok((Key::Name(name), e + 1));
                    },
                    None => {
                        return Err(PathError);
                    },
                }
            }
        }
        Err(PathError)
    } else if c == '[' {
        let u = trim_pos(chars, i + 1);
        let e = digits_end(chars, u);
        if e == u {
            proof {
                if u < n {
                    assert(chars@.skip(u as int)[0] == chars@[u as int]);
                    assert(chars@.subrange(u as int, u as int) =~= Seq::<char>::empty());
                    assert(!spec_digit(chars@[u as int])) by {
                        if spec_digit(chars@[u as int]) {
                            assert(spec_take_digits(chars@.skip(u as int)).0.len() > 0);
                        }
                    }
                } else {
                    assert(chars@.skip(u as int) =~= Seq::<char>::empty());
                }
            }
            return Err(PathError);
        }
        proof {
            assert forall|k: int| u <= k < e implies spec_digit(chars@[k]) by {
                let ds = spec_take_digits(chars@.skip(u as int)).0;
                lemma_take_digits_all(chars@.skip(u as int));
                assert(ds[k - u] == chars@[k]);
            }
        }
        let value = match digits_value(chars, u, e) {
            Some(v) => v,
            None => {
                return Err(PathError);
            },
        };
        let m = trim_pos(chars, e);
        if m < n {
            let t = *vec_index(chars, m);
            proof {
                assert(chars@.skip(m as int)[0] == t);
                assert(chars@.skip(m as int).drop_first() =~= chars@.skip(m as int + 1));
            }
            if t == ']' {
                return Ok((Key::Index(value), m + 1));
            }
        }
        Err(PathError)
    } else {
        Err(PathError)
    }
}

proof fn lemma_take_digits_all(s: Seq<char>)
    ensures
        spec_take_digits(s).0.len() <= s.len(),
        forall|k: int|
            0 <= k < spec_take_digits(s).0.len() ==> #[trigger] spec_take_digits(s).0[k] == s[k]
                && spec_digit(s[k]),
    decreases s.len(),
{
    if s.len() > 0 && spec_digit(s[0]) {
        lemma_take_digits_all(s.drop_first());
        assert forall|k: int|
            0 <= k < spec_take_digits(s).0.len() implies #[trigger] spec_take_digits(s).0[k] == s[k]
            && spec_digit(s[k]) by {
            if k > 0 {
                assert(spec_take_digits(s).0[k] == spec_take_digits(s.drop_first()).0[k - 1]);
                assert(s.drop_first()[k - 1] == s[k]);
            }
        }
    }
}

/// Parses a path literal: optional bare or quoted leading name, then
/// `.name`, `."quoted name"` or `[index]` segments, whitespace between
/// tokens ignored. Anything else is a syntax error.
pub fn parse_path(s: &str) -> (r: Result<Path, PathError>)
    ensures
        match r {
            Ok(p) => spec_parse_path(s@) == Some(p@),
            Err(_) => spec_parse_path(s@) is None,
        },
{
    let chars = str_chars(s);
    proof {
        assert(chars@.skip(0) =~= s@);
    }
    let n = chars.len();
    let t = trim_pos(&chars, 0);
    let mut keys: Vec<Key> = Vec::new();
    let mut pos = t;
    if t < n {
        let h = *vec_index(&chars, t);
        proof {
            assert(chars@.skip(t as int)[0] == h);
        }
        if name_char(h) {
            let e = name_end(&chars, t);
            let name = substring_chars(&chars, t, e);
            keys.push(Key::Name(name));
            pos = e;
        } else if h == '"' {
            proof {
                assert(chars@.skip(t as int).drop_first() =~= chars@.skip(t as int + 1));
            }
            match quote_end(&chars, t + 1) {
                Some(e) => {
                    let name = substring_chars(&chars, t + 1, e);
                    keys.push(Key::Name(name));
                    pos = e + 1;
                },
                None => {
                    return Err(PathError);
                },
            }
        }
    }
    // The answer is the keys read so far followed by whatever the
    // remaining segments yield.
    proof {
        lemma_parse_path_head(s@, chars@, t as int, keys@, pos as int);
    }
    loop
        invariant
            pos <= chars@.len(),
            chars@ == s@,
            spec_parse_path(s@) == match spec_parse_segments(chars@.skip(pos as int)) {
                Some(ks) => Some(spec_keys_model(keys@) + ks),
                None => None::<Seq<SpecKey>>,
            },
        decreases chars@.len() - pos,
    {
        let u = trim_pos(&chars, pos);
        proof {
            lemma_trim_ws_len(chars@.skip(pos as int));
        }
        if u >= chars.len() {
            proof {
                assert(chars@.skip(u as int) =~= Seq::<char>::empty());
                assert(spec_parse_segments(chars@.skip(pos as int)) == Some(Seq::<SpecKey>::empty()));
                assert(spec_keys_model(keys@) + Seq::<SpecKey>::empty() =~= spec_keys_model(keys@));
            }
            return Ok(Path::from_keys(keys));
        }
        let ghost tseq = spec_trim_ws(chars@.skip(pos as int));
        match parse_segment(&chars, u) {
            Ok((k, np)) => {
                proof {
                    assert(tseq == chars@.skip(u as int));
                    assert(tseq.len() > 0);
                    assert(spec_segment(tseq) == Some((k@, chars@.skip(np as int))));
                    assert(chars@.skip(np as int).len() < tseq.len());
                    assert(tseq.len() <= chars@.skip(pos as int).len());
                }
                let ghost oldkeys = keys@;
                keys.push(k);
                proof {
                    assert(spec_keys_model(keys@) =~= spec_keys_model(oldkeys) + seq![k@]);
                    if spec_parse_segments(chars@.skip(np as int)) is Some {
                        let ks = spec_parse_segments(chars@.skip(np as int)).unwrap();
                        assert((spec_keys_model(oldkeys) + (seq![k@] + ks)) =~= (spec_keys_model(
                            keys@,
                        ) + ks));
                    }
                }
                pos = np;
            },
            Err(e) => {
                proof {
                    assert(tseq.len() > 0);
                    assert(spec_segment(tseq) is None);
                    assert(spec_parse_segments(chars@.skip(pos as int)) is None);
                }
                return Err(e);
            },
        }
    }
}

/// Trimming never lengthens the input.
proof fn lemma_trim_ws_len(s: Seq<char>)
    ensures
        spec_trim_ws(s).len() <= s.len(),
    decreases s.len(),
{
    if s.len() > 0 && spec_ws(s[0]) {
        lemma_trim_ws_len(s.drop_first());
    }
}

proof fn lemma_parse_path_head(
    s: Seq<char>,
    chars: Seq<char>,
    t: int,
    keys: Seq<Key>,
    pos: int,
)
    requires
        chars == s,
        0 <= t <= chars.len(),
        chars.skip(t) == spec_trim_ws(chars.skip(0)),
        ({
            let tr = spec_trim_ws(s);
            if tr.len() == 0 {
                keys.len() == 0 && pos == t
            } else if spec_name_char(tr[0]) {
                let (nm, rest) = spec_take_name(tr);
                keys.len() == 1 && keys[0]@ == SpecKey::Name(nm) && chars.skip(pos) == rest && 0
                    <= pos <= chars.len()
            } else if tr[0] == '"' {
                match spec_take_quoted(tr.drop_first()) {
                    Some((nm, rest)) => keys.len() == 1 && keys[0]@ == SpecKey::Name(nm)
                        && chars.skip(pos) == rest && 0 <= pos <= chars.len(),
                    None => false,
                }
            } else {
                keys.len() == 0 && pos == t
            }
        }),
    ensures
        spec_parse_path(s) == match spec_parse_segments(chars.skip(pos)) {
            Some(ks) => Some(spec_keys_model(keys) + ks),
            None => None::<Seq<SpecKey>>,
        },
{
    assert(chars.skip(0) =~= s);
    let tr = spec_trim_ws(s);
    if tr.len() == 0 {
        assert(spec_parse_segments(chars.skip(pos)) == Some(Seq::<SpecKey>::empty()));
        assert(spec_keys_model(keys) + Seq::<SpecKey>::empty() =~= Seq::<SpecKey>::empty());
        assert(spec_keys_model(keys) =~= Seq::<SpecKey>::empty());
    } else if spec_name_char(tr[0]) {
        let (nm, rest) = spec_take_name(tr);
        if spec_parse_segments(rest) is Some {
            let ks = spec_parse_segments(rest).unwrap();
            assert(spec_keys_model(keys) + ks =~= seq![SpecKey::Name(nm)] + ks);
        }
    } else if tr[0] == '"' {
        let (nm, rest) = spec_take_quoted(tr.drop_first()).unwrap();
        if spec_parse_segments(rest) is Some {
            let ks = spec_parse_segments(rest).unwrap();
            assert(spec_keys_model(keys) + ks =~= seq![SpecKey::Name(nm)] + ks);
        }
    } else {
        assert(chars.skip(pos) == tr);
        if spec_parse_segments(tr) is Some {
            let ks = spec_parse_segments(tr).unwrap();
            assert(spec_keys_model(keys) + ks =~= ks);
        }
    }
}

} // verus!
