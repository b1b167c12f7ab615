//! The streaming contract: `parse` on a truncated buffer must always yield
//! `Incomplete` or `Ok`, never `Invalid`, with monotonic `needed`.

#![allow(dead_code, unused_imports)]

use rustruct::compile::compile;
use rustruct::compile::Options;
use rustruct::error::Kind;
use rustruct::pack::run as pack;
use rustruct::pack::PackOutcome;
use rustruct::program::IntPrim;
use rustruct::program::Program;
use rustruct::schema::BinOp;
use rustruct::schema::ExprIn;
use rustruct::schema::FieldIn;
use rustruct::schema::TypeIn;
use rustruct::unpack::run as unpack;
use rustruct::unpack::Outcome;
use rustruct::value::Value;
use rustruct::schema::CrcOverrides;
use rustruct::schema::OverIn;


pub fn int_ty(prim: IntPrim) -> TypeIn {
    TypeIn::Int {
        prim,
        byteorder: None,
        const_: None,
    }
}

pub fn f(name: &str, ty: TypeIn) -> FieldIn {
    FieldIn::named(name, ty)
}

pub fn r(name: &str) -> ExprIn {
    ExprIn::Ref(name.to_string())
}

pub fn bin(op: BinOp, l: ExprIn, r: ExprIn) -> ExprIn {
    ExprIn::Bin(op, Box::new(l), Box::new(r))
}

pub fn build(fields: Vec<FieldIn>) -> Program {
    compile(&fields, &Options::default()).expect("compile")
}

pub fn build_with(fields: Vec<FieldIn>, opts: Options) -> Program {
    compile(&fields, &opts).expect("compile")
}

pub fn map(pairs: Vec<(&str, Value)>) -> Value {
    Value::Dict(pairs.into_iter().map(|(k, v)| (k.to_string(), v)).collect())
}

pub fn unpack_ok(prog: &Program, buf: &[u8]) -> Value {
    match unpack(prog, buf, 0, true, false) {
        Outcome::Decoded { value, .. } => value,
        other => panic!("expected Ok, got {other:?}"),
    }
}

pub fn unpack_err(prog: &Program, buf: &[u8]) -> (Kind, String) {
    match unpack(prog, buf, 0, true, false) {
        Outcome::Invalid { kind, path, .. } => (kind, path),
        other => panic!("expected Invalid, got {other:?}"),
    }
}

pub fn pack_ok(prog: &Program, v: &Value) -> Vec<u8> {
    match pack(prog, v) {
        PackOutcome::Packed(b) => b,
        PackOutcome::Failed { kind, path } => panic!("pack failed: {kind:?} at {path:?}"),
    }
}

pub fn pack_err(prog: &Program, v: &Value) -> (Kind, String) {
    match pack(prog, v) {
        PackOutcome::Failed { kind, path } => (kind, path),
        PackOutcome::Packed(_) => panic!("expected a pack error"),
    }
}

pub fn roundtrip(prog: &Program, buf: &[u8]) -> Value {
    let v = unpack_ok(prog, buf);
    let packed = pack_ok(prog, &v);
    assert_eq!(packed, buf, "pack(unpack(buf)) != buf");
    v
}

#[test]
fn incomplete_invariant() {
    let body = TypeIn::StructT {
        fields: vec![f(
            "items",
            TypeIn::ArrayT {
                elem: Box::new(int_ty(IntPrim::U16)),
                count: None,
                until_eof: true,
            },
        )],
        byteorder: None,
        size: Some(r("blen")),
    };
    let prog = build(vec![
        f(
            "magic",
            TypeIn::Int {
                prim: IntPrim::U8,
                byteorder: None,
                const_: Some(0x7F),
            },
        ),
        f(
            "name",
            TypeIn::CStrT {
                max: Some(32),
                encoding: "utf-8".into(),
                errors: "strict".into(),
            },
        ),
        f("blen", int_ty(IntPrim::U8)),
        f("body", body),
        f(
            "crc",
            TypeIn::DigestT {
                algo: "crc16_ccitt".into(),
                overrides: CrcOverrides::default(),
                over: OverIn::Star,
                verify: true,
            },
        ),
    ]);
    let full = pack_ok(
        &prog,
        &map(vec![
            ("name", rustruct::value::Value::Str("stream".into())),
            (
                "body",
                map(vec![(
                    "items",
                    rustruct::value::Value::List(vec![
                        rustruct::value::Value::Int(10),
                        rustruct::value::Value::Int(20),
                        rustruct::value::Value::Int(30),
                    ]),
                )]),
            ),
        ]),
    );
    // the full buffer is valid
    roundtrip(&prog, &full);

    let mut i = 0usize;
    let mut steps = 0usize;
    while i < full.len() {
        match unpack(&prog, &full[..i], 0, false, true) {
            Outcome::Incomplete { needed } => {
                assert!(needed > 0, "needed must be positive");
                assert!(
                    i + needed <= full.len(),
                    "monotonic progress, not an overshoot"
                );
                i += needed;
            }
            Outcome::Decoded { .. } => break,
            Outcome::Invalid { kind, offset, path } => {
                panic!("a {i}-byte prefix yielded Invalid {kind:?} @{offset} {path:?}")
            }
        }
        steps += 1;
        assert!(steps < full.len() * 2, "no progress");
    }
    match unpack(&prog, &full, 0, false, true) {
        Outcome::Decoded { pos, .. } => assert_eq!(pos, full.len()),
        other => panic!("{other:?}"),
    }
}

#[test]
fn empty_buffer_is_incomplete_not_invalid() {
    let prog = build(vec![f("x", int_ty(IntPrim::U32))]);
    match unpack(&prog, &[], 0, false, true) {
        Outcome::Incomplete { needed } => assert_eq!(needed, 4),
        other => panic!("{other:?}"),
    }
}

#[test]
fn truncated_is_invalid_for_unpack() {
    let prog = build(vec![f("x", int_ty(IntPrim::U32))]);
    let (kind, _) = unpack_err(&prog, &[1, 2]);
    assert_eq!(kind, Kind::Truncated);
    match unpack(&prog, &[1, 2], 0, false, true) {
        Outcome::Incomplete { needed } => assert_eq!(needed, 2),
        other => panic!("{other:?}"),
    }
}

#[test]
fn incomplete_inside_dynamic_bytes_field() {
    let prog = build(vec![
        f("n", int_ty(IntPrim::U8)),
        f(
            "data",
            TypeIn::Bytes {
                len: r("n"),
                max: None,
            },
        ),
    ]);
    match unpack(&prog, &[5, b'a', b'b'], 0, false, true) {
        Outcome::Incomplete { needed } => assert_eq!(needed, 3),
        other => panic!("{other:?}"),
    }
}
