use inline_config::convert::{
    ConvertError, Converted, FieldDecl, Fields, FloatLit, MapFlavor, SIntTy, StructShape, Target,
    UIntTy,
};
use inline_config::convert::{ConvertFrom, ConvertInto};
use inline_config::env::resolve_env;
use inline_config::format::Format;
use inline_config::get::{Access, Get, GetError, Select, SharedRepr};
use inline_config::key::{KeySegment, KeySegmentName};
use inline_config::path::{parse_path, Path};
use inline_config::repr::Repr;

fn config_repr(toml: &str) -> Repr {
    Format::Toml.parse(toml).unwrap().compile()
}

fn named(fields: Vec<(&str, Option<&str>, Target)>) -> Target {
    Target::StructOf(StructShape {
        fields: Fields::Named(
            fields
                .into_iter()
                .map(|(ident, rename, target)| FieldDecl {
                    ident: ident.to_string(),
                    rename: rename.map(|s| s.to_string()),
                    target,
                })
                .collect(),
        ),
    })
}

#[test]
fn roundtrip_primitive_conversions() {
    let c = config_repr("flag = true\nsize = 5000\ntitle = \"TOML Example\"\n");
    let flag = parse_path("flag").unwrap();
    let size = parse_path("size").unwrap();
    let title = parse_path("title").unwrap();
    assert_eq!(c.get(&flag, &Target::Bool).unwrap(), Converted::Bool(true));
    assert_eq!(
        c.get(&size, &Target::UInt(UIntTy::U32)).unwrap(),
        Converted::UInt(UIntTy::U32, 5000)
    );
    assert_eq!(
        c.get(&size, &Target::UInt(UIntTy::U64)).unwrap(),
        Converted::UInt(UIntTy::U64, 5000)
    );
    assert_eq!(
        c.get(&size, &Target::SInt(SIntTy::I64)).unwrap(),
        Converted::SInt(SIntTy::I64, 5000)
    );
    assert_eq!(
        c.get(&title, &Target::OwnedString).unwrap(),
        Converted::Str("TOML Example".to_string())
    );
}

#[test]
fn numeric_cast_truncates_like_the_machine() {
    let c = config_repr("big = 300\n");
    let big = parse_path("big").unwrap();
    assert_eq!(
        c.get(&big, &Target::UInt(UIntTy::U8)).unwrap(),
        Converted::UInt(UIntTy::U8, 44)
    );
}

#[test]
fn signedness_asymmetry_is_preserved() {
    let c = config_repr("neg = -3\n");
    let neg = parse_path("neg").unwrap();
    assert_eq!(
        c.get(&neg, &Target::SInt(SIntTy::I32)).unwrap(),
        Converted::SInt(SIntTy::I32, -3)
    );
    assert_eq!(
        c.get(&neg, &Target::UInt(UIntTy::U32)).unwrap_err(),
        GetError::Conversion(ConvertError::NoViableConversion)
    );
}

#[test]
fn absence_defaulting() {
    let root = Format::Json
        .parse("{\"x\": null}")
        .unwrap()
        .compile();
    let x = parse_path("x").unwrap();
    assert_eq!(
        root.get(&x, &Target::OptionOf(Box::new(Target::UInt(UIntTy::U32))))
            .unwrap(),
        Converted::NoneOpt
    );
    assert_eq!(
        root.get(&x, &Target::UInt(UIntTy::U32)).unwrap(),
        Converted::UInt(UIntTy::U32, 0)
    );
    assert_eq!(
        root.get(&x, &Target::OwnedString).unwrap(),
        Converted::Str(String::new())
    );
    // A type with no default cannot be conjured from absence.
    let shape = named(vec![("f", None, Target::Bool)]);
    assert_eq!(
        root.get(&x, &shape).unwrap_err(),
        GetError::Conversion(ConvertError::NoDefault)
    );
}

#[test]
fn presence_wraps_in_some() {
    let c = config_repr("n = 7\n");
    let n = parse_path("n").unwrap();
    assert_eq!(
        c.get(&n, &Target::OptionOf(Box::new(Target::UInt(UIntTy::U16))))
            .unwrap(),
        Converted::SomeOpt(Box::new(Converted::UInt(UIntTy::U16, 7)))
    );
}

#[test]
fn empty_path_fetches_the_full_record() {
    let c = config_repr("age = 30\nname = \"Tom\"\n");
    let shape = named(vec![
        ("name", None, Target::OwnedString),
        ("age", None, Target::UInt(UIntTy::U32)),
    ]);
    assert_eq!(
        c.get(&Path::empty(), &shape).unwrap(),
        Converted::StructVal(vec![
            Converted::Str("Tom".to_string()),
            Converted::UInt(UIntTy::U32, 30)
        ])
    );
}

#[test]
fn homogeneous_array_collects_in_order() {
    let c = config_repr("[database]\nports = [8000, 8001, 8002]\n");
    let ports = parse_path("database.ports").unwrap();
    assert_eq!(
        c.get(&ports, &Target::VecOf(Box::new(Target::UInt(UIntTy::U32))))
            .unwrap(),
        Converted::List(vec![
            Converted::UInt(UIntTy::U32, 8000),
            Converted::UInt(UIntTy::U32, 8001),
            Converted::UInt(UIntTy::U32, 8002)
        ])
    );
}

#[test]
fn tuple_shape_populates_positionally() {
    let c = config_repr("[database]\nports = [8000, 8001, 8002]\n");
    let ports = parse_path("database.ports").unwrap();
    let shape = Target::StructOf(StructShape {
        fields: Fields::Unnamed(vec![
            Target::UInt(UIntTy::U32),
            Target::SInt(SIntTy::I64),
        ]),
    });
    // Partial coverage is allowed: two declared fields against three slots.
    assert_eq!(
        c.get(&ports, &shape).unwrap(),
        Converted::StructVal(vec![
            Converted::UInt(UIntTy::U32, 8000),
            Converted::SInt(SIntTy::I64, 8001)
        ])
    );
    let too_many = Target::StructOf(StructShape {
        fields: Fields::Unnamed(vec![
            Target::UInt(UIntTy::U32),
            Target::UInt(UIntTy::U32),
            Target::UInt(UIntTy::U32),
            Target::UInt(UIntTy::U32),
        ]),
    });
    assert_eq!(
        c.get(&ports, &too_many).unwrap_err(),
        GetError::Conversion(ConvertError::ShapeMismatch)
    );
}

#[test]
fn table_collects_into_map_entries() {
    let c = config_repr("a = 1\nb = 2\n");
    assert_eq!(
        c.get(
            &Path::empty(),
            &Target::MapOf(MapFlavor::Insertion, Box::new(Target::UInt(UIntTy::U8)))
        )
        .unwrap(),
        Converted::MapEntries(
            MapFlavor::Insertion,
            vec![
                ("a".to_string(), Converted::UInt(UIntTy::U8, 1)),
                ("b".to_string(), Converted::UInt(UIntTy::U8, 2))
            ]
        )
    );
}

#[test]
fn renamed_field_matches_the_source_key() {
    let c = Format::Json
        .parse("{\"year-of-birth\": 1984}")
        .unwrap()
        .compile();
    let shape = named(vec![(
        "year_of_birth",
        Some("year-of-birth"),
        Target::UInt(UIntTy::U32),
    )]);
    assert_eq!(
        c.get(&Path::empty(), &shape).unwrap(),
        Converted::StructVal(vec![Converted::UInt(UIntTy::U32, 1984)])
    );
}

#[test]
fn missing_field_and_missing_path_are_rejected() {
    let c = config_repr("a = 1\n");
    let shape = named(vec![("zzz", None, Target::Bool)]);
    assert_eq!(
        c.get(&Path::empty(), &shape).unwrap_err(),
        GetError::Conversion(ConvertError::MissingField)
    );
    let bad = parse_path("nope.deeper").unwrap();
    assert_eq!(c.get(&bad, &Target::Bool).unwrap_err(), GetError::NotFound);
}

#[test]
fn unit_shape_matches_anything() {
    let c = config_repr("a = 1\n");
    let unit = Target::StructOf(StructShape { fields: Fields::Unit });
    assert_eq!(c.get(&Path::empty(), &unit).unwrap(), Converted::Unit);
}

#[test]
fn float_literals_pass_through() {
    let c = Format::Json.parse("{\"pi\": 3.25}").unwrap().compile();
    let pi = parse_path("pi").unwrap();
    assert_eq!(
        c.get(&pi, &Target::Float(inline_config::convert::FloatTy::F64))
            .unwrap(),
        Converted::Float(
            inline_config::convert::FloatTy::F64,
            FloatLit::Lit("3.25".to_string())
        )
    );
}

#[test]
fn shared_name_allows_only_the_intersection() {
    let with_year = Format::Json
        .parse("{\"preferred-name\": \"Ada\", \"year-of-birth\": 1815}")
        .unwrap()
        .compile();
    let without_year = Format::Json
        .parse("{\"preferred-name\": \"Grace\"}")
        .unwrap()
        .compile();
    let shared = SharedRepr { variants: vec![with_year, without_year], active: 0 };
    let pname = parse_path("\"preferred-name\"").unwrap();
    let year = parse_path("\"year-of-birth\"").unwrap();
    // A field common to both variants resolves, to the active variant's value.
    assert_eq!(
        shared.get(&pname, &Target::OwnedString).unwrap(),
        Converted::Str("Ada".to_string())
    );
    // A field only one variant holds is rejected, although the active
    // variant holds it: the capability set is the intersection.
    assert!(shared.get(&year, &Target::UInt(UIntTy::U32)).is_err());
}

#[test]
fn compile_strict_rejects_unresolved_nil() {
    let with_nil = Format::Json.parse("{\"x\": null}").unwrap();
    assert!(with_nil.compile_strict().is_err());
    let overwritten = Format::Json
        .parse("{\"x\": null}")
        .unwrap()
        .merge(Format::Json.parse("{\"x\": 3}").unwrap());
    assert!(overwritten.compile_strict().is_ok());
}

#[test]
fn field_identifiers_fall_back_positionally() {
    let v = Format::Json
        .parse("{\"_3\": 1, \"b-c\": 2, \"good\": 3}")
        .unwrap();
    let r = v.compile();
    match r {
        Repr::Table(fields) => {
            assert_eq!(fields[0].ident, "_0");
            assert_eq!(fields[1].ident, "_1");
            assert_eq!(fields[2].ident, "good");
        }
        _ => panic!("expected a table"),
    }
}

#[test]
fn access_by_hash_segment_finds_the_field() {
    let c = config_repr("alpha = 1\nbeta = 2\n");
    let seg = KeySegment::Name(KeySegmentName::of("beta"));
    let child = c.access(&seg).unwrap();
    assert_eq!(*child, Repr::PosInt(2));
}

#[test]
fn resolve_env_substitutes_and_escapes() {
    let vars = vec![("HOME".to_string(), "/home/u".to_string())];
    assert_eq!(resolve_env("$HOME/cfg.toml", &vars).unwrap(), "/home/u/cfg.toml");
    assert_eq!(resolve_env("a$$b", &vars).unwrap(), "a$b");
    assert_eq!(resolve_env("plain", &vars).unwrap(), "plain");
    let err = resolve_env("$MISSING/x", &vars).unwrap_err();
    assert_eq!(err.variable, "MISSING");
}

#[test]
fn resolve_env_edge_cases() {
    let vars = vec![("A1_b".to_string(), "v".to_string())];
    assert_eq!(resolve_env("x$A1_b-y", &vars).unwrap(), "xv-y");
    // A dollar at the very end references the empty variable name.
    assert!(resolve_env("tail$", &vars).is_err());
    assert_eq!(resolve_env("", &vars).unwrap(), "");
}

#[test]
fn conversion_traits_agree_with_get() {
    let c = config_repr("n = 9\n");
    let n = c.select(&inline_config::key::Key::Name("n".to_string())).unwrap();
    let t = Target::UInt(UIntTy::U8);
    assert_eq!(n.convert_into(&t).unwrap(), Converted::UInt(UIntTy::U8, 9));
    assert_eq!(t.convert_from(n).unwrap(), Converted::UInt(UIntTy::U8, 9));
}
