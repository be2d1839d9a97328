use vstd::prelude::*;
use vstd::std_specs::vec::vec_index;
use vstd::string::StringExecFns;
use crate::strutil::{str_chars, substring_chars, push_char, str_eq};

verus! {

/// A `$VAR` reference whose variable the given environment does not hold.
#[derive(Debug)]
pub struct EnvError {
    pub variable: String,
}

/// Characters a referenced variable's name may consist of.
pub open spec fn spec_env_char(c: char) -> bool {
    ('A' <= c && c <= 'Z') || ('a' <= c && c <= 'z') || ('0' <= c && c <= '9') || c == '_'
}

/// The longest variable-name prefix of `s`, and what follows it.
pub open spec fn spec_take_env(s: Seq<char>) -> (Seq<char>, Seq<char>)
    decreases s.len(),
{
    if s.len() > 0 && spec_env_char(s[0]) {
        let (a, b) = spec_take_env(s.drop_first());
        (seq![s[0]] + a, b)
    } else {
        (Seq::empty(), s)
    }
}

/// The value the listing holds for a variable, if any.
pub open spec fn spec_env_lookup(vars: Seq<(Seq<char>, Seq<char>)>, name: Seq<char>) -> Option<
    Seq<char>,
>
    decreases vars,
{
    if vars.len() == 0 {
        None
    } else if vars[0].0 == name {
        Some(vars[0].1)
    } else {
        spec_env_lookup(vars.drop_first(), name)
    }
}

/// `$VAR` placeholders replaced by their values, `$$` by a literal dollar;
/// a reference to a variable the listing lacks is the error, named after
/// the variable.
pub open spec fn spec_resolve_env(s: Seq<char>, vars: Seq<(Seq<char>, Seq<char>)>) -> Result<
    Seq<char>,
    Seq<char>,
>
    decreases s.len(),
{
    if s.len() == 0 {
        Ok(Seq::empty())
    } else if s[0] != '$' {
        match spec_resolve_env(s.drop_first(), vars) {
            Ok(t) => Ok(seq![s[0]] + t),
            Err(e) => Err(e),
        }
    } else if s.len() >= 2 && s[1] == '$' {
        match spec_resolve_env(s.skip(2), vars) {
            Ok(t) => Ok(seq!['$'] + t),
            Err(e) => Err(e),
        }
    } else {
        let (name, rest) = spec_take_env(s.drop_first());
        match spec_env_lookup(vars, name) {
            // The length test only justifies termination: taking the name
            // never lengthens the input, so the first branch always applies.
            Some(val) => if rest.len() < s.len() {
                match spec_resolve_env(rest, vars) {
                    Ok(t) => Ok(val + t),
                    Err(e) => Err(e),
                }
            } else {
                Err(name)
            },
            None => Err(name),
        }
    }
}

/// The models of an environment listing.
pub open spec fn spec_env_model(vars: Seq<(String, String)>) -> Seq<(Seq<char>, Seq<char>)> {
    Seq::new(vars.len(), |i: int| (vars[i].0@, vars[i].1@))
}

fn env_char(c: char) -> (r: bool)
    ensures
        r == spec_env_char(c),
{
    ('A' <= c && c <= 'Z') || ('a' <= c && c <= 'z') || ('0' <= c && c <= '9') || c == '_'
}

/// The end of the longest variable-name run starting at `i`.
fn env_name_end(chars: &Vec<char>, i: usize) -> (r: usize)
    requires
        i <= chars@.len(),
    ensures
        i <= r <= chars@.len(),
        spec_take_env(chars@.skip(i as int)).0 == chars@.subrange(i as int, r as int),
        spec_take_env(chars@.skip(i as int)).1 == chars@.skip(r as int),
{
    let n = chars.len();
    let mut r = i;
    while r < n && env_char(*vec_index(chars, r))
        invariant
            i <= r <= n,
            n == chars@.len(),
            spec_take_env(chars@.skip(i as int)).0 =~= chars@.subrange(i as int, r as int)
                + spec_take_env(chars@.skip(r as int)).0,
            spec_take_env(chars@.skip(i as int)).1 == spec_take_env(chars@.skip(r as int)).1,
        decreases n - r,
    {
        proof {
            assert(chars@.skip(r as int).drop_first() =~= chars@.skip(r as int + 1));
            assert(chars@.subrange(i as int, r as int) + (seq![chars@[r as int]] + spec_take_env(
                chars@.skip(r as int + 1),
            ).0) =~= chars@.subrange(i as int, r as int + 1) + spec_take_env(
                chars@.skip(r as int + 1),
            ).0);
        }
        r = r + 1;
    }
    proof {
        assert(spec_take_env(chars@.skip(r as int)).0 =~= Seq::<char>::empty());
        assert(chars@.subrange(i as int, r as int) + Seq::<char>::empty() =~= chars@.subrange(
            i as int,
            r as int,
        ));
    }
    r
}

proof fn lemma_env_lookup_first(vars: Seq<(Seq<char>, Seq<char>)>, name: Seq<char>, i: int)
    requires
        0 <= i < vars.len(),
        vars[i].0 == name,
        forall|k: int| 0 <= k < i ==> (#[trigger] vars[k]).0 != name,
    ensures
        spec_env_lookup(vars, name) == Some(vars[i].1),
    decreases vars,
{
    if i > 0 {
        assert(vars[0].0 != name);
        assert forall|k: int|
            0 <= k < i - 1 implies (#[trigger] vars.drop_first()[k]).0 != name by {
            assert(vars.drop_first()[k] == vars[k + 1]);
        }
        lemma_env_lookup_first(vars.drop_first(), name, i - 1);
        assert(vars.drop_first()[i - 1] == vars[i]);
    }
}

proof fn lemma_env_lookup_absent(vars: Seq<(Seq<char>, Seq<char>)>, name: Seq<char>)
    requires
        forall|k: int| 0 <= k < vars.len() ==> (#[trigger] vars[k]).0 != name,
    ensures
        spec_env_lookup(vars, name) is None,
    decreases vars,
{
    if vars.len() > 0 {
        assert forall|k: int|
            0 <= k < vars.drop_first().len() implies (#[trigger] vars.drop_first()[k]).0
            != name by {
            assert(vars.drop_first()[k] == vars[k + 1]);
        }
        lemma_env_lookup_absent(vars.drop_first(), name);
    }
}

/// The value of the first listing entry for `name`, if any.
fn env_lookup<'a>(vars: &'a Vec<(String, String)>, name: &str) -> (r: Option<&'a String>)
    ensures
        (match r {
            Some(v) => spec_env_lookup(spec_env_model(vars@), name@) == Some(v@),
            None => spec_env_lookup(spec_env_model(vars@), name@) is None,
        }),
{
    let ghost vm = spec_env_model(vars@);
    let n = vars.len();
    let mut i: usize = 0;
    while i < n
        invariant
            i <= n,
            n == vars@.len(),
            vm == spec_env_model(vars@),
            forall|k: int| 0 <= k < i ==> (#[trigger] vm[k]).0 != name@,
        decreases n - i,
    {
        let entry = vec_index(vars, i);
        if str_eq(entry.0.as_str(), name) {
            proof {
                assert(vm[i as int] == (vars@[i as int].0@, vars@[i as int].1@));
                lemma_env_lookup_first(vm, name@, i as int);
            }
            return Some(&entry.1);
        }
        proof {
            assert(vm[i as int] == (vars@[i as int].0@, vars@[i as int].1@));
        }
        i = i + 1;
    }
    proof {
        lemma_env_lookup_absent(vm, name@);
    }
    None
}

/// Resolves `$VAR` placeholders in `path` against the given environment
/// listing, with `$$` as the escape for a literal dollar; a reference to a
/// variable the listing lacks is reported by name.
pub fn resolve_env(path: &str, vars: &Vec<(String, String)>) -> (r: Result<String, EnvError>)
    ensures
        (match r {
            Ok(out) => spec_resolve_env(path@, spec_env_model(vars@)) == Ok::<Seq<char>, Seq<char>>(
                out@,
            ),
            Err(e) => spec_resolve_env(path@, spec_env_model(vars@)) == Err::<
                Seq<char>,
                Seq<char>,
            >(e.variable@),
        }),
{
    let chars = str_chars(path);
    proof {
        assert(chars@.skip(0) =~= path@);
    }
    let ghost vm = spec_env_model(vars@);
    let n = chars.len();
    let mut out = String::new();
    let mut i: usize = 0;
    while i < n
        invariant
            i <= n,
            n == chars@.len(),
            chars@ == path@,
            vm == spec_env_model(vars@),
            spec_resolve_env(path@, vm) == (match spec_resolve_env(chars@.skip(i as int), vm) {
                Ok(t) => Ok::<Seq<char>, Seq<char>>(out@ + t),
                Err(e) => Err::<Seq<char>, Seq<char>>(e),
            }),
        decreases n - i,
    {
        let c = *vec_index(&chars, i);
        proof {
            assert(chars@.skip(i as int)[0] == c);
            assert(chars@.skip(i as int).drop_first() =~= chars@.skip(i as int + 1));
        }
        if c != '$' {
            let ghost out_before = out@;
            push_char(&mut out, c);
            proof {
                if spec_resolve_env(chars@.skip(i as int + 1), vm) is Ok {
                    let t = spec_resolve_env(chars@.skip(i as int + 1), vm)->Ok_0;
                    assert(out_before + (seq![c] + t) =~= out@ + t);
                }
            }
            i = i + 1;
        } else if i + 1 < n && *vec_index(&chars, i + 1) == '$' {
            proof {
                assert(chars@.skip(i as int)[1] == chars@[i as int + 1]);
                assert(chars@.skip(i as int).skip(2) =~= chars@.skip(i as int + 2));
            }
            let ghost out_before = out@;
            push_char(&mut out, '$');
            proof {
                if spec_resolve_env(chars@.skip(i as int + 2), vm) is Ok {
                    let t = spec_resolve_env(chars@.skip(i as int + 2), vm)->Ok_0;
                    assert(out_before + (seq!['$'] + t) =~= out@ + t);
                }
            }
            i = i + 2;
        } else {
            proof {
                if i as int + 1 < n {
                    assert(chars@.skip(i as int)[1] == chars@[i as int + 1]);
                }
            }
            let e = env_name_end(&chars, i + 1);
            let name = substring_chars(&chars, i + 1, e);
            match env_lookup(vars, name.as_str()) {
                Some(val) => {
                    let ghost out_before = out@;
                    out.append(val.as_str());
                    proof {
                        assert(e > i);
                        if spec_resolve_env(chars@.skip(e as int), vm) is Ok {
                            let t = spec_resolve_env(chars@.skip(e as int), vm)->Ok_0;
                            assert(out_before + (val@ + t) =~= out@ + t);
                        }
                    }
                    i = e;
                },
                None => {
                    return Err(EnvError { variable: name });
                },
            }
        }
    }
    proof {
        assert(chars@.skip(n as int) =~= Seq::<char>::empty());
    }
    Ok(out)
}

} // verus!
