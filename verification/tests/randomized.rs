//! A lightweight round-trip fuzz check on a static schema — a dependency-free
//! stand-in for a proper proptest-based fuzz suite.

#![allow(dead_code, unused_imports)]

use rustruct::compile::compile;
use rustruct::compile::Options;
use rustruct::error::Kind;
use rustruct::pack::run as pack;
use rustruct::pack::PackOutcome;
use rustruct::program::IntPrim;
use rustruct::program::Program;
use rustruct::schema::BinOp;
use rustruct::schema::ExprIn;
use rustruct::schema::FieldIn;
use rustruct::schema::TypeIn;
use rustruct::unpack::run as unpack;
use rustruct::unpack::Outcome;
use rustruct::value::Value;
use rustruct::schema::ByteOrder;


pub fn int_ty(prim: IntPrim) -> TypeIn {
    TypeIn::Int {
        prim,
        byteorder: None,
        const_: None,
    }
}

pub fn f(name: &str, ty: TypeIn) -> FieldIn {
    FieldIn::named(name, ty)
}

pub fn r(name: &str) -> ExprIn {
    ExprIn::Ref(name.to_string())
}

pub fn bin(op: BinOp, l: ExprIn, r: ExprIn) -> ExprIn {
    ExprIn::Bin(op, Box::new(l), Box::new(r))
}

pub fn build(fields: Vec<FieldIn>) -> Program {
    compile(&fields, &Options::default()).expect("compile")
}

pub fn build_with(fields: Vec<FieldIn>, opts: Options) -> Program {
    compile(&fields, &opts).expect("compile")
}

pub fn map(pairs: Vec<(&str, Value)>) -> Value {
    Value::Dict(pairs.into_iter().map(|(k, v)| (k.to_string(), v)).collect())
}

pub fn unpack_ok(prog: &Program, buf: &[u8]) -> Value {
    match unpack(prog, buf, 0, true, false) {
        Outcome::Decoded { value, .. } => value,
        other => panic!("expected Ok, got {other:?}"),
    }
}

pub fn unpack_err(prog: &Program, buf: &[u8]) -> (Kind, String) {
    match unpack(prog, buf, 0, true, false) {
        Outcome::Invalid { kind, path, .. } => (kind, path),
        other => panic!("expected Invalid, got {other:?}"),
    }
}

pub fn pack_ok(prog: &Program, v: &Value) -> Vec<u8> {
    match pack(prog, v) {
        PackOutcome::Packed(b) => b,
        PackOutcome::Failed { kind, path } => panic!("pack failed: {kind:?} at {path:?}"),
    }
}

pub fn pack_err(prog: &Program, v: &Value) -> (Kind, String) {
    match pack(prog, v) {
        PackOutcome::Failed { kind, path } => (kind, path),
        PackOutcome::Packed(_) => panic!("expected a pack error"),
    }
}

pub fn roundtrip(prog: &Program, buf: &[u8]) -> Value {
    let v = unpack_ok(prog, buf);
    let packed = pack_ok(prog, &v);
    assert_eq!(packed, buf, "pack(unpack(buf)) != buf");
    v
}

#[test]
fn randomized_static_roundtrip() {
    let prog = build(vec![
        f("a", int_ty(IntPrim::U8)),
        f("b", int_ty(IntPrim::I16)),
        f(
            "c",
            TypeIn::Int {
                prim: IntPrim::U32,
                byteorder: Some(ByteOrder::Little),
                const_: None,
            },
        ),
        f("d", int_ty(IntPrim::I64)),
    ]);
    let mut state = 0x1234_5678_u64;
    let mut next = move || {
        state ^= state << 13;
        state ^= state >> 7;
        state ^= state << 17;
        state
    };
    for _ in 0..500 {
        let mut buf = Vec::new();
        for _ in 0..15 {
            buf.push(next() as u8);
        }
        let v = unpack_ok(&prog, &buf);
        assert_eq!(pack_ok(&prog, &v), buf);
    }
}

#[test]
fn randomized_dynamic_roundtrip() {
    // A length-prefixed bytes field plus a trailing checksum: exercises
    // derived-length backpatching across many random payload lengths.
    let prog = build(vec![
        f("n", int_ty(IntPrim::U8)),
        f(
            "data",
            TypeIn::Bytes {
                len: r("n"),
                max: Some(64),
            },
        ),
        f(
            "crc",
            TypeIn::DigestT {
                algo: "crc32".into(),
                overrides: rustruct::schema::CrcOverrides::default(),
                over: rustruct::schema::OverIn::Names(vec!["data".into()]),
                verify: true,
            },
        ),
    ]);
    let mut state = 0x2463_1af9_u64;
    let mut next = move || {
        state ^= state << 13;
        state ^= state >> 7;
        state ^= state << 17;
        state
    };
    for _ in 0..200 {
        let len = (next() % 40) as usize;
        let data: Vec<u8> = (0..len).map(|_| next() as u8).collect();
        let values = map(vec![("data", rustruct::value::Value::Bytes(data))]);
        let packed = pack_ok(&prog, &values);
        roundtrip(&prog, &packed);
    }
}
