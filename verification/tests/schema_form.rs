//! The untyped `(name, kind, opts)` schema form, read into compiler input.

use rustruct::compile::{compile, Options};
use rustruct::form::Form;
use rustruct::keys::program_keys;
use rustruct::pack::{run as pack, PackOutcome};
use rustruct::parse::{byteorder, parse_fields};
use rustruct::program::IntPrim;
use rustruct::schema::{BinOp, ByteOrder, ExprIn, TypeIn};
use rustruct::value::Value;

fn s(x: &str) -> Form {
    Form::Str(x.to_string())
}

fn i(n: i128) -> Form {
    Form::Int(n)
}

fn t(items: Vec<Form>) -> Form {
    Form::Tuple(items, "(...)".to_string())
}

fn l(items: Vec<Form>) -> Form {
    Form::List(items, "[...]".to_string())
}

fn d(pairs: Vec<(&str, Form)>) -> Form {
    Form::Dict(pairs.into_iter().map(|(k, v)| (s(k), v)).collect(), "{...}".to_string())
}

fn field(name: &str, kind: &str, opts: Form) -> Form {
    t(vec![s(name), s(kind), opts])
}

fn err(fields: Form) -> String {
    match parse_fields(&fields) {
        Err(m) => m,
        Ok(f) => panic!("expected an error, got {f:?}"),
    }
}

#[test]
fn fields_read_into_compiler_input() {
    let form = l(vec![
        field("a", "u8", d(vec![])),
        field("b", "u16", d(vec![("byteorder", s("little")), ("const", Form::Nothing)])),
        field("n", "u8", d(vec![])),
        field("data", "bytes", d(vec![("len", t(vec![s("sub"), t(vec![s("ref"), s("n")]), i(1)]))])),
    ]);
    let fields = parse_fields(&form).expect("parses");
    assert_eq!(fields.len(), 4);
    assert_eq!(fields[0].name.as_deref(), Some("a"));
    match &fields[1].ty {
        TypeIn::Int { prim, byteorder, const_ } => {
            assert_eq!(*prim, IntPrim::U16);
            assert_eq!(*byteorder, Some(ByteOrder::Little));
            assert_eq!(*const_, None);
        },
        other => panic!("{other:?}"),
    }
    match &fields[3].ty {
        TypeIn::Bytes { len: ExprIn::Bin(BinOp::Sub, a, b), max: None } => {
            assert!(matches!(**a, ExprIn::Ref(ref n) if n == "n"));
            assert!(matches!(**b, ExprIn::Imm(1)));
        },
        other => panic!("{other:?}"),
    }
    let prog = compile(&fields, &Options::default()).expect("compiles");
    let v = Value::Dict(vec![
        ("a".to_string(), Value::Int(1)),
        ("b".to_string(), Value::Int(0x0203)),
        ("data".to_string(), Value::Bytes(vec![9, 9])),
    ]);
    match pack(&prog, &v) {
        PackOutcome::Packed(b) => assert_eq!(b, vec![1, 0x03, 0x02, 3, 9, 9]),
        PackOutcome::Failed { kind, path } => panic!("{kind:?} {path}"),
    }
}

#[test]
fn an_unknown_option_is_named_with_its_field() {
    let m = err(l(vec![field("x", "u8", d(vec![("cnst", i(1))]))]));
    assert_eq!(m, "u8: unknown option 'cnst' (did you mean 'const'?) (at x)");
}

#[test]
fn a_kind_that_is_not_a_string_is_shown() {
    let m = err(l(vec![t(vec![s("x"), i(5), d(vec![])])]));
    assert_eq!(m, "unknown kind 5 (at x)");
    let m = err(l(vec![field("y", "u99", d(vec![]))]));
    assert_eq!(m, "unknown kind 'u99' (at y)");
}

#[test]
fn nested_errors_say_where_once() {
    let inner = t(vec![s("struct"), d(vec![("fields", l(vec![field("x", "u99", d(vec![]))]))])]);
    let form = l(vec![field(
        "frame",
        "struct",
        d(vec![("fields", l(vec![field("rows", "array", d(vec![("elem", inner), ("count", i(2))]))]))]),
    )]);
    assert_eq!(err(form), "unknown kind 'u99' (at frame.rows[].x)");
}

#[test]
fn a_switch_branch_is_named_by_its_tag() {
    let inner = t(vec![s("struct"), d(vec![("fields", l(vec![field("x", "u99", d(vec![]))]))])]);
    let cases = l(vec![t(vec![i(3), inner])]);
    let form = l(vec![
        field("tag", "u8", d(vec![])),
        field("body", "switch", d(vec![("on", t(vec![s("ref"), s("tag")])), ("cases", cases)])),
    ]);
    assert_eq!(err(form), "unknown kind 'u99' (at body?3.x)");
    // An option of the branch's own type is located at the field itself.
    let cases = l(vec![t(vec![i(3), t(vec![s("u8"), d(vec![("byteorder", s("native"))])])])]);
    let form = l(vec![
        field("tag", "u8", d(vec![])),
        field("body", "switch", d(vec![("on", t(vec![s("ref"), s("tag")])), ("cases", cases)])),
    ]);
    let m = err(form);
    assert!(m.starts_with("byteorder \"native\" is not supported"), "{m}");
    assert!(m.ends_with("(at body)"), "{m}");
}

#[test]
fn option_values_are_checked() {
    assert_eq!(
        err(l(vec![field("w", "bits", d(vec![("width", i(65))]))])),
        "bits: width 65 is outside 1..64 (at w)"
    );
    assert_eq!(
        err(l(vec![field("w", "bits", d(vec![("width", s("4"))]))])),
        "bits: width must be an int in 1..64 (at w)"
    );
    assert_eq!(
        err(l(vec![field("d", "bytes", d(vec![("len", Form::Bool(true))]))])),
        "bytes: len: a bool is not a length; use an int, '*', or a reference (at d)"
    );
    assert_eq!(err(l(vec![field("d", "bytes", d(vec![]))])), "bytes: len is required (at d)");
    assert_eq!(
        err(l(vec![field("a", "array", d(vec![("elem", t(vec![s("u8"), d(vec![])]))]))])),
        "array: count or until_eof is required (at a)"
    );
    assert_eq!(
        err(l(vec![field(
            "a",
            "array",
            d(vec![("elem", t(vec![s("u8"), d(vec![])])), ("count", i(1)), ("until_eof", Form::Bool(true))]),
        )])),
        "array: count and until_eof are mutually exclusive (at a)"
    );
    assert_eq!(
        err(l(vec![field("e", "bytes", d(vec![("len", t(vec![s("pow"), i(1), i(2)]))]))])),
        format!("an operator {:?} is not supported (one of add/sub/mul/div/shl/shr/and/or/xor/eq/ne/lt/le/gt/ge) (at e)", "pow")
    );
}

#[test]
fn shapes_of_the_tuple_forms() {
    assert_eq!(err(l(vec![s("x")])), "a field must be a (name, kind, opts) tuple");
    assert_eq!(err(i(3)), "fields must be an iterable of (name, kind, opts) tuples");
    assert_eq!(err(l(vec![t(vec![i(1), s("u8"), d(vec![])])])), "field name must be a str or None");
    assert_eq!(err(l(vec![field("x", "u8", l(vec![]))])), "u8: opts must be a dict (at x)");
    assert!(parse_fields(&s("")).expect("an empty string has no fields").is_empty());
    let unnamed = parse_fields(&l(vec![t(vec![Form::Nothing, s("u8"), d(vec![])])])).expect("parses");
    assert!(unnamed[0].name.is_none());
}

#[test]
fn raw_constants_and_flag_names() {
    let form = l(vec![
        field("magic", "raw", d(vec![("const", Form::Bytes(b"MZ".to_vec(), "b'MZ'".to_string()))])),
        field("m2", "raw", d(vec![("const", l(vec![i(1), i(2)]))])),
        field(
            "f",
            "flags",
            d(vec![("base", s("u8")), ("names", l(vec![t(vec![s("a"), i(1)]), t(vec![s("b"), i(2)])]))]),
        ),
    ]);
    let fields = parse_fields(&form).expect("parses");
    match &fields[0].ty {
        TypeIn::Raw { len: None, const_: Some(c) } => assert_eq!(c, b"MZ"),
        other => panic!("{other:?}"),
    }
    match &fields[1].ty {
        TypeIn::Raw { const_: Some(c), .. } => assert_eq!(c, &vec![1, 2]),
        other => panic!("{other:?}"),
    }
    match &fields[2].ty {
        TypeIn::FlagsT { base, names, rest, .. } => {
            assert_eq!(*base, IntPrim::U8);
            assert_eq!(names, &vec![("a".to_string(), 1), ("b".to_string(), 2)]);
            assert_eq!(rest, "keep");
        },
        other => panic!("{other:?}"),
    }
    assert_eq!(
        err(l(vec![field("m", "raw", d(vec![("const", l(vec![i(256)]))]))])),
        "raw: const must be bytes (at m)"
    );
}

#[test]
fn top_level_byteorders() {
    assert_eq!(byteorder("network"), Ok(ByteOrder::Big));
    assert_eq!(byteorder("little"), Ok(ByteOrder::Little));
    assert!(byteorder("native").is_err());
}

#[test]
fn a_program_lists_the_names_it_uses() {
    let form = l(vec![
        field("a", "u8", d(vec![])),
        field("s", "struct", d(vec![("fields", l(vec![field("x", "u8", d(vec![])), field("y", "u8", d(vec![]))]))])),
        field("f", "flags", d(vec![("base", s("u8")), ("names", l(vec![t(vec![s("hi"), i(1)])]))])),
    ]);
    let prog = compile(&parse_fields(&form).expect("parses"), &Options::default()).expect("compiles");
    let keys = program_keys(&prog);
    assert_eq!(keys, vec!["a", "s", "x", "y", "f", "hi", "_rest"]);
}
