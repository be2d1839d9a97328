use vstd::prelude::*;
use vstd::std_specs::vec::vec_index;
use vstd::string::StringExecFns;
use serde_json::Value as JsonValue;
use toml::Value as TomlValue;
use crate::value::{Value, SpecValue, model_seq, lemma_model_seq, spec_merge_all, merge_all,
    lemma_merge_all_wf};
use crate::strutil::str_eq;

verus! {

/// A configuration text format the library accepts.
#[derive(PartialEq, Eq, Structural, Clone, Copy, Debug)]
pub enum Format {
    Json,
    Toml,
    Yaml,
}

/// A source text that its format's parser refused, with the parser's words.
#[derive(Debug)]
pub struct FormatError {
    pub message: String,
}

/// The declared type of a JSON value, so that the parser's tree can stand
/// in a trusted signature.
#[verifier::external_type_specification]
#[verifier::external_body]
pub struct ExJsonValue(JsonValue);

/// The declared type of a TOML value.
#[verifier::external_type_specification]
#[verifier::external_body]
pub struct ExTomlValue(TomlValue);

/// The declared type of a YAML node.
#[verifier::external_type_specification]
#[verifier::external_body]
pub struct ExYaml(yaml_rust2::Yaml);

/// What parsing a text as JSON yields: a function of the text alone.
pub uninterp spec fn json_tree(s: Seq<char>) -> Result<Value, FormatError>;

/// What parsing a text as TOML yields: a function of the text alone.
pub uninterp spec fn toml_tree(s: Seq<char>) -> Result<Value, FormatError>;

/// What parsing a text as YAML yields — one tree per document in the
/// stream — a function of the text alone.
pub uninterp spec fn yaml_docs(s: Seq<char>) -> Result<Vec<Value>, FormatError>;

/// Relies on `serde_json::Value`'s accessors, variant for variant: null
/// becomes the absent value; a number that fits `u64` comes back positive,
/// one that only fits `i64` is negative (serde yields those only below
/// zero), any other number keeps its rendered text; object keys are unique
/// because the parsed object is a map.
#[verifier::external_body]
fn morph_json(v: serde_json::Value) -> Value {
    match v {
        serde_json::Value::Null => Value::Nil,
        serde_json::Value::Bool(b) => Value::Boolean(b),
        serde_json::Value::Number(n) => n.as_u64().map(Value::PosInt).or_else(
            || n.as_i64().map(Value::NegInt),
        ).unwrap_or_else(|| Value::Float(n.to_string())),
        serde_json::Value::String(s) => Value::Str(s),
        serde_json::Value::Array(a) => Value::Array(a.into_iter().map(morph_json).collect()),
        serde_json::Value::Object(m) => Value::Table(
            m.into_iter().map(|(k, x)| (k, morph_json(x))).collect(),
        ),
    }
}

/// Relies on `serde_json::from_str`: the parsed tree — read through
/// `morph_json` — is a function of the text alone, and is well formed
/// because object keys are unique and negative integers carry their sign.
#[verifier::external_body]
fn parse_json(s: &str) -> (r: Result<Value, FormatError>)
    ensures
        r == json_tree(s@),
        (r matches Ok(v) ==> v@.wf()),
{
    match serde_json::from_str::<serde_json::Value>(s) {
        Ok(v) => Ok(morph_json(v)),
        Err(e) => Err(FormatError { message: e.to_string() }),
    }
}

/// Relies on `toml::Value`'s variants, one arm each: integers split by
/// sign, floats and datetimes keep their rendered text, table keys are
/// unique because the parsed table is a map.
#[verifier::external_body]
fn morph_toml(v: toml::Value) -> Value {
    match v {
        toml::Value::String(s) => Value::Str(s),
        toml::Value::Integer(i) => if i < 0 { Value::NegInt(i) } else { Value::PosInt(i as u64) },
        toml::Value::Float(f) => Value::Float(f.to_string()),
        toml::Value::Boolean(b) => Value::Boolean(b),
        toml::Value::Datetime(d) => Value::Str(d.to_string()),
        toml::Value::Array(a) => Value::Array(a.into_iter().map(morph_toml).collect()),
        toml::Value::Table(t) => Value::Table(
            t.into_iter().map(|(k, x)| (k, morph_toml(x))).collect(),
        ),
    }
}

/// Relies on `toml::from_str`: the parsed document — read through
/// `morph_toml` — is a function of the text alone and well formed.
#[verifier::external_body]
fn parse_toml(s: &str) -> (r: Result<Value, FormatError>)
    ensures
        r == toml_tree(s@),
        (r matches Ok(v) ==> v@.wf()),
{
    match toml::from_str::<toml::Value>(s) {
        Ok(v) => Ok(morph_toml(v)),
        Err(e) => Err(FormatError { message: e.to_string() }),
    }
}

/// The longest YAML source the library accepts, in characters. Unlike the
/// JSON and TOML parsers, the YAML loader puts no cap on block nesting, and
/// reading the loaded tree back recurses to its depth; a source of `n`
/// characters can nest at most `n / 2` levels deep, so this bound keeps
/// that recursion well within the machine stack. A longer source is
/// reported as an error before the loader is called.
pub const YAML_SOURCE_LIMIT: usize = 16384;

/// Relies on `yaml_rust2::Yaml`'s variants, one arm each: a non-integer
/// number arrives as its literal text already; an alias, an explicit null
/// and an invalid node all become the absent value; only string keys are
/// kept, so a mapping's keys stay unique. The recursion goes as deep as the
/// tree, which the caller's length bound keeps within the machine stack.
#[verifier::external_body]
fn morph_yaml(v: yaml_rust2::Yaml) -> Value {
    match v {
        yaml_rust2::Yaml::Real(s) => Value::Float(s),
        yaml_rust2::Yaml::Integer(i) => if i < 0 { Value::NegInt(i) } else { Value::PosInt(i as u64) },
        yaml_rust2::Yaml::String(s) => Value::Str(s),
        yaml_rust2::Yaml::Boolean(b) => Value::Boolean(b),
        yaml_rust2::Yaml::Array(a) => Value::Array(a.into_iter().map(morph_yaml).collect()),
        yaml_rust2::Yaml::Hash(h) => Value::Table(
            h.into_iter().filter_map(
                |(k, x)| k.into_string().map(|ks| (ks, morph_yaml(x))),
            ).collect(),
        ),
        _ => Value::Nil,
    }
}

/// Relies on `yaml_rust2::YamlLoader::load_from_str`: the document stream —
/// each document read through `morph_yaml` — is a function of the text
/// alone, and each document is well formed. The loader itself is iterative,
/// but it builds trees as deeply block-nested as the input asks, and the
/// conversion and the trees' disposal recurse to that depth: the length
/// bound keeps the call within the machine stack.
#[verifier::external_body]
fn parse_yaml(s: &str) -> (r: Result<Vec<Value>, FormatError>)
    requires
        s@.len() as int <= YAML_SOURCE_LIMIT as int,
    ensures
        r == yaml_docs(s@),
        (r matches Ok(docs) ==> forall|i: int| 0 <= i < docs@.len() ==> (#[trigger] docs@[i])@.wf()),
{
    match yaml_rust2::YamlLoader::load_from_str(s) {
        Ok(docs) => Ok(docs.into_iter().map(morph_yaml).collect()),
        Err(e) => Err(FormatError { message: e.to_string() }),
    }
}

/// The tree a source text denotes under a format, at the model level: for
/// YAML, the documents of the stream merged in order, with a source over
/// the supported length denoting nothing.
pub open spec fn spec_source_model(f: Format, s: Seq<char>) -> Option<SpecValue> {
    match f {
        Format::Json => match json_tree(s) {
            Ok(v) => Some(v@),
            Err(_) => None,
        },
        Format::Toml => match toml_tree(s) {
            Ok(v) => Some(v@),
            Err(_) => None,
        },
        Format::Yaml => if s.len() as int > YAML_SOURCE_LIMIT as int {
            None
        } else {
            match yaml_docs(s) {
                Ok(docs) => Some(spec_merge_all(model_seq(docs@))),
                Err(_) => None,
            }
        },
    }
}

impl Format {
    /// Parses one source text. A YAML stream of several documents is
    /// folded into one tree, later documents overwriting earlier ones; a
    /// YAML source over the supported length is rejected before the loader
    /// runs.
    pub fn parse(&self, s: &str) -> (r: Result<Value, FormatError>)
        ensures
            (r is Ok) == (spec_source_model(*self, s@) is Some),
            (r matches Ok(v) ==> Some(v@) == spec_source_model(*self, s@) && v@.wf()),
            (*self is Yaml && s@.len() as int > YAML_SOURCE_LIMIT as int ==> (r matches Err(e)
                && e.message@ == "YAML source exceeds the supported length"@)),
    {
        match self {
            Format::Json => parse_json(s),
            Format::Toml => parse_toml(s),
            Format::Yaml => {
                if s.unicode_len() > YAML_SOURCE_LIMIT {
                    return Err(
                        FormatError {
                            message: message_string("YAML source exceeds the supported length"),
                        },
                    );
                }
                match parse_yaml(s) {
                    Ok(docs) => {
                        proof {
                            lemma_model_seq(docs@);
                            lemma_merge_all_wf(model_seq(docs@));
                        }
                        Ok(merge_all(docs))
                    },
                    Err(e) => Err(e),
                }
            },
        }
    }

    /// The format a literal's specifier names, if any.
    pub fn from_specifier(s: &str) -> (r: Option<Format>)
        ensures
            r == spec_format_of(s@),
    {
        proof {
            reveal_strlit("json");
            reveal_strlit("toml");
            reveal_strlit("yaml");
        }
        if str_eq(s, "json") {
            Some(Format::Json)
        } else if str_eq(s, "toml") {
            Some(Format::Toml)
        } else if str_eq(s, "yaml") {
            Some(Format::Yaml)
        } else {
            None
        }
    }

    /// The format inferred from a file extension, if any.
    pub fn from_extension(s: &str) -> (r: Option<Format>)
        ensures
            r == spec_format_of_extension(s@),
    {
        proof {
            reveal_strlit("yml");
        }
        if str_eq(s, "yml") {
            Some(Format::Yaml)
        } else {
            Format::from_specifier(s)
        }
    }

    /// The format a name denotes, or an error naming the failure.
    pub fn from_str(s: &str) -> (r: Result<Format, FormatError>)
        ensures
            (r matches Ok(f) ==> spec_format_of(s@) == Some(f)),
            (r is Err) == (spec_format_of(s@) is None),
            (r matches Err(e) ==> e.message@ == "unsupported format"@),
    {
        match Format::from_specifier(s) {
            Some(f) => Ok(f),
            None => {
                proof {
                    reveal_strlit("unsupported format");
                }
                Err(FormatError { message: message_string("unsupported format") })
            },
        }
    }
}

/// The specifier-to-format table.
pub open spec fn spec_format_of(s: Seq<char>) -> Option<Format> {
    if s == "json"@ {
        Some(Format::Json)
    } else if s == "toml"@ {
        Some(Format::Toml)
    } else if s == "yaml"@ {
        Some(Format::Yaml)
    } else {
        None
    }
}

/// The extension-to-format table: the specifiers, plus the short `yml`.
pub open spec fn spec_format_of_extension(s: Seq<char>) -> Option<Format> {
    if s == "yml"@ {
        Some(Format::Yaml)
    } else {
        spec_format_of(s)
    }
}

fn message_string(s: &str) -> (r: String)
    ensures
        r@ == s@,
{
    String::from_str(s)
}

impl FormatError {
    /// The parser's message.
    pub fn message<'a>(&'a self) -> (r: &'a String)
        ensures
            r == &self.message,
    {
        &self.message
    }
}

/// A source that failed to parse, tagged with its position among the
/// declaration's sources for diagnostics.
#[derive(Debug)]
pub struct SourceError {
    pub index: usize,
    pub error: FormatError,
}

/// The models of a list of sources, in order; absent where a source does
/// not parse.
pub open spec fn spec_sources_models(ss: Seq<(Format, String)>) -> Seq<Option<SpecValue>> {
    Seq::new(ss.len(), |i: int| spec_source_model(ss[i].0, ss[i].1@))
}

/// The models of a list of sources that all parse.
pub open spec fn spec_sources_ok(ss: Seq<(Format, String)>) -> Seq<SpecValue> {
    Seq::new(ss.len(), |i: int| spec_source_model(ss[i].0, ss[i].1@).unwrap())
}

/// Parses an ordered list of sources and folds them into one merged tree,
/// later sources overwriting earlier ones; the fold starts from an empty
/// table. A source that does not parse is reported with its position, and
/// the first failing source wins.
pub fn collect_sources(sources: Vec<(Format, String)>) -> (r: Result<Value, SourceError>)
    ensures
        (r is Ok) == (forall|i: int|
            0 <= i < sources@.len() ==> (#[trigger] spec_sources_models(sources@)[i]) is Some),
        (r matches Ok(v) ==> v@ == spec_merge_all(spec_sources_ok(sources@)) && v@.wf()),
        (r matches Err(se) ==> se.index < sources@.len() && spec_sources_models(
            sources@,
        )[se.index as int] is None),
{
    let ghost ss = sources@;
    let n = sources.len();
    let mut parsed: Vec<Value> = Vec::new();
    let mut i: usize = 0;
    while i < n
        invariant
            i <= n,
            n == ss.len(),
            sources@ == ss,
            parsed@.len() == i,
            forall|k: int|
                0 <= k < i ==> (#[trigger] spec_sources_models(ss)[k]) is Some,
            forall|k: int|
                0 <= k < i ==> (#[trigger] model_seq(parsed@)[k]) == spec_sources_ok(ss)[k],
            forall|k: int| 0 <= k < i ==> (#[trigger] parsed@[k])@.wf(),
            model_seq(parsed@).len() == i,
        decreases n - i,
    {
        let src = vec_index(&sources, i);
        let ghost parsed_before = parsed@;
        match src.0.parse(src.1.as_str()) {
            Ok(v) => {
                parsed.push(v);
                proof {
                    lemma_model_seq(parsed_before);
                    lemma_model_seq(parsed@);
                    assert(spec_sources_models(ss)[i as int] == spec_source_model(
                        ss[i as int].0,
                        ss[i as int].1@,
                    ));
                }
                i = i + 1;
            },
            Err(e) => {
                proof {
                    assert(spec_sources_models(ss)[i as int] is None);
                }
                return Err(SourceError { index: i, error: e });
            },
        }
    }
    proof {
        lemma_model_seq(parsed@);
        assert(model_seq(parsed@) =~= spec_sources_ok(ss));
        assert forall|k: int| 0 <= k < model_seq(parsed@).len() implies (#[trigger] model_seq(
            parsed@,
        )[k]).wf() by {
            assert(model_seq(parsed@)[k] == parsed@[k]@);
        }
        lemma_merge_all_wf(model_seq(parsed@));
    }
    let v = merge_all(parsed);
    proof {
        assert(v@ == spec_merge_all(spec_sources_ok(ss)));
    }
    Ok(v)
}

} // verus!
