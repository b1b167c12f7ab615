//! `flags`: bit masks over a decoded integer, the `rest` policy, and the
//! closed key set on pack.

#![allow(dead_code, unused_imports)]

use rustruct::compile::compile;
use rustruct::compile::Options;
use rustruct::error::Kind;
use rustruct::pack::run as pack;
use rustruct::pack::PackOutcome;
use rustruct::program::IntPrim;
use rustruct::program::Program;
use rustruct::schema::BinOp;
use rustruct::schema::ExprIn;
use rustruct::schema::FieldIn;
use rustruct::schema::TypeIn;
use rustruct::unpack::run as unpack;
use rustruct::unpack::Outcome;
use rustruct::value::Value;
use rustruct::schema::ByteOrder;


pub fn int_ty(prim: IntPrim) -> TypeIn {
    TypeIn::Int {
        prim,
        byteorder: None,
        const_: None,
    }
}

pub fn f(name: &str, ty: TypeIn) -> FieldIn {
    FieldIn::named(name, ty)
}

pub fn r(name: &str) -> ExprIn {
    ExprIn::Ref(name.to_string())
}

pub fn bin(op: BinOp, l: ExprIn, r: ExprIn) -> ExprIn {
    ExprIn::Bin(op, Box::new(l), Box::new(r))
}

pub fn build(fields: Vec<FieldIn>) -> Program {
    compile(&fields, &Options::default()).expect("compile")
}

pub fn build_with(fields: Vec<FieldIn>, opts: Options) -> Program {
    compile(&fields, &opts).expect("compile")
}

pub fn map(pairs: Vec<(&str, Value)>) -> Value {
    Value::Dict(pairs.into_iter().map(|(k, v)| (k.to_string(), v)).collect())
}

pub fn unpack_ok(prog: &Program, buf: &[u8]) -> Value {
    match unpack(prog, buf, 0, true, false) {
        Outcome::Decoded { value, .. } => value,
        other => panic!("expected Ok, got {other:?}"),
    }
}

pub fn unpack_err(prog: &Program, buf: &[u8]) -> (Kind, String) {
    match unpack(prog, buf, 0, true, false) {
        Outcome::Invalid { kind, path, .. } => (kind, path),
        other => panic!("expected Invalid, got {other:?}"),
    }
}

pub fn pack_ok(prog: &Program, v: &Value) -> Vec<u8> {
    match pack(prog, v) {
        PackOutcome::Packed(b) => b,
        PackOutcome::Failed { kind, path } => panic!("pack failed: {kind:?} at {path:?}"),
    }
}

pub fn pack_err(prog: &Program, v: &Value) -> (Kind, String) {
    match pack(prog, v) {
        PackOutcome::Failed { kind, path } => (kind, path),
        PackOutcome::Packed(_) => panic!("expected a pack error"),
    }
}

pub fn roundtrip(prog: &Program, buf: &[u8]) -> Value {
    let v = unpack_ok(prog, buf);
    let packed = pack_ok(prog, &v);
    assert_eq!(packed, buf, "pack(unpack(buf)) != buf");
    v
}

#[test]
fn flags_roundtrip() {
    let prog = build(vec![f(
        "fl",
        TypeIn::FlagsT {
            base: IntPrim::U16,
            byteorder: Some(ByteOrder::Little),
            names: vec![
                ("ack".into(), 0x0001),
                ("syn".into(), 0x0002),
                ("kind".into(), 0x00F0),
            ],
            rest: "keep".into(),
        },
    )]);
    let v = roundtrip(&prog, &[0x53, 0x01]);
    let fl = v.get("fl").unwrap();
    assert_eq!(fl.get("ack"), Some(&Value::Bool(true)));
    assert_eq!(fl.get("syn"), Some(&Value::Bool(true)));
    assert_eq!(fl.get("kind"), Some(&Value::Int(5)));
    assert_eq!(fl.get("_rest"), Some(&Value::Int(0x0100)));

    // missing keys default to 0/false; an unknown key is unknown_flag
    let packed = pack_ok(
        &prog,
        &map(vec![("fl", map(vec![("ack", Value::Bool(true))]))]),
    );
    assert_eq!(packed, [0x01, 0x00]);
    let (kind, path) = pack_err(
        &prog,
        &map(vec![("fl", map(vec![("typo", Value::Bool(true))]))]),
    );
    assert_eq!(kind, Kind::UnknownFlag);
    assert_eq!(path, "fl");
}

#[test]
fn flags_u32_little_endian() {
    let prog = build(vec![f(
        "fl",
        TypeIn::FlagsT {
            base: IntPrim::U32,
            byteorder: Some(ByteOrder::Little),
            names: vec![("low".into(), 0x0000_00FF), ("high".into(), 0xFF00_0000)],
            rest: "ignore".into(),
        },
    )]);
    let v = roundtrip(&prog, &[0x42, 0x00, 0x00, 0x80]);
    let fl = v.get("fl").unwrap();
    assert_eq!(fl.get("low"), Some(&Value::Int(0x42)));
    assert_eq!(fl.get("high"), Some(&Value::Int(0x80)));
}

#[test]
fn flags_strict_reserved_bits() {
    let prog = build(vec![f(
        "fl",
        TypeIn::FlagsT {
            base: IntPrim::U8,
            byteorder: None,
            names: vec![("a".into(), 0x01)],
            rest: "strict".into(),
        },
    )]);
    let (kind, _) = unpack_err(&prog, &[0x81]);
    assert_eq!(kind, Kind::ReservedBits);
    assert_eq!(
        unpack_ok(&prog, &[0x01]).get("fl").unwrap().get("a"),
        Some(&Value::Bool(true))
    );
}

#[test]
fn flags_ignore_policy_drops_leftover_both_ways() {
    let prog = build(vec![f(
        "fl",
        TypeIn::FlagsT {
            base: IntPrim::U8,
            byteorder: None,
            names: vec![("a".into(), 0x01)],
            rest: "ignore".into(),
        },
    )]);
    let v = unpack_ok(&prog, &[0xFF]);
    let fl = v.get("fl").unwrap();
    assert_eq!(fl.get("a"), Some(&Value::Bool(true)));
    assert_eq!(
        fl.get("_rest"),
        None,
        "ignore policy must not surface a _rest key"
    );
    // pack always writes zero for the ignored bits, regardless of the source byte
    assert_eq!(pack_ok(&prog, &v), [0x01]);
}

#[test]
fn flags_validation_errors() {
    // a non-contiguous mask
    let e = compile(
        &[f(
            "fl",
            TypeIn::FlagsT {
                base: IntPrim::U8,
                byteorder: None,
                names: vec![("a".into(), 0b101)],
                rest: "keep".into(),
            },
        )],
        &Options::default(),
    )
    .unwrap_err();
    assert!(e.msg.contains("non-contiguous"), "{}", e.msg);
    // overlap
    let e = compile(
        &[f(
            "fl",
            TypeIn::FlagsT {
                base: IntPrim::U8,
                byteorder: None,
                names: vec![("a".into(), 0b11), ("b".into(), 0b10)],
                rest: "keep".into(),
            },
        )],
        &Options::default(),
    )
    .unwrap_err();
    assert!(e.msg.contains("overlaps"), "{}", e.msg);
    // ref to flags
    let e = compile(
        &[
            f(
                "fl",
                TypeIn::FlagsT {
                    base: IntPrim::U8,
                    byteorder: None,
                    names: vec![("a".into(), 1)],
                    rest: "keep".into(),
                },
            ),
            f(
                "data",
                TypeIn::Bytes {
                    len: r("fl"),
                    max: None,
                },
            ),
        ],
        &Options::default(),
    )
    .unwrap_err();
    assert!(e.msg.contains("flags"), "{}", e.msg);
}

#[test]
fn flags_mask_out_of_base_range_is_schema_error() {
    let e = compile(
        &[f(
            "fl",
            TypeIn::FlagsT {
                base: IntPrim::U8,
                byteorder: None,
                names: vec![("a".into(), 0x100)],
                rest: "keep".into(),
            },
        )],
        &Options::default(),
    )
    .unwrap_err();
    assert!(e.msg.contains("does not fit"), "{}", e.msg);
}

#[test]
fn flags_reserved_rest_name_is_schema_error() {
    let e = compile(
        &[f(
            "fl",
            TypeIn::FlagsT {
                base: IntPrim::U8,
                byteorder: None,
                names: vec![("_rest".into(), 1)],
                rest: "keep".into(),
            },
        )],
        &Options::default(),
    )
    .unwrap_err();
    assert!(e.msg.contains("_rest"), "{}", e.msg);
}
