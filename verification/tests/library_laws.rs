//! Concrete cases of what the library promises of all inputs.

use rustruct::compile::{compile, Options};
use rustruct::digest::{Algo, DigestVal, Hasher};
use rustruct::error::Kind;
use rustruct::options::{byteorders, check_keys, extent, int_prims, located, options, schema_path, PathSeg};
use rustruct::pack::{run as pack, run_into, PackOutcome};
use rustruct::program::{IntPrim, Op, Program};
use rustruct::schema::{BinOp, ByteOrder, ExprIn, FieldIn, OverIn, TypeIn};
use rustruct::unpack::{run as unpack, Outcome};
use rustruct::value::Value;

fn int_ty(prim: IntPrim) -> TypeIn {
    TypeIn::Int { prim, byteorder: None, const_: None }
}

fn build(fields: Vec<FieldIn>) -> Program {
    compile(&fields, &Options::default()).expect("compile")
}

fn dict(pairs: Vec<(&str, Value)>) -> Value {
    Value::Dict(pairs.into_iter().map(|(k, v)| (k.to_string(), v)).collect())
}

fn packed(prog: &Program, v: &Value) -> Vec<u8> {
    match pack(prog, v) {
        PackOutcome::Packed(b) => b,
        PackOutcome::Failed { kind, path } => panic!("pack failed: {kind:?} at {path:?}"),
    }
}

fn decoded(prog: &Program, buf: &[u8]) -> Value {
    match unpack(prog, buf, 0, true, false) {
        Outcome::Decoded { value, .. } => value,
        other => panic!("expected a value, got {other:?}"),
    }
}

#[test]
fn every_integer_type_reads_back_its_extremes() {
    for prim in [
        IntPrim::U8, IntPrim::I8, IntPrim::U16, IntPrim::I16,
        IntPrim::U32, IntPrim::I32, IntPrim::U64, IntPrim::I64,
    ] {
        let prog = build(vec![FieldIn::named("x", int_ty(prim))]);
        for v in [prim.min(), prim.max(), 0] {
            let bytes = packed(&prog, &dict(vec![("x", Value::Int(v))]));
            assert_eq!(bytes.len(), prim.width());
            assert_eq!(decoded(&prog, &bytes).get("x"), Some(&Value::Int(v)));
        }
        let (kind, _) = match pack(&prog, &dict(vec![("x", Value::Int(prim.max() + 1))])) {
            PackOutcome::Failed { kind, path } => (kind, path),
            PackOutcome::Packed(_) => panic!("out of range must fail"),
        };
        assert_eq!(kind, Kind::Range);
    }
}

#[test]
fn signed_bits_read_back_every_value() {
    let prog = build(vec![
        FieldIn::named("a", TypeIn::Bits { width: 4, signed: true }),
        FieldIn::named("b", TypeIn::Bits { width: 4, signed: false }),
    ]);
    for a in -8i128..8 {
        for b in 0i128..16 {
            let bytes = packed(&prog, &dict(vec![("a", Value::Int(a)), ("b", Value::Int(b))]));
            let v = decoded(&prog, &bytes);
            assert_eq!(v.get("a"), Some(&Value::Int(a)));
            assert_eq!(v.get("b"), Some(&Value::Int(b)));
        }
    }
}

#[test]
fn derived_length_solves_its_expression() {
    // len = 3*n - 2: packing 7 bytes must write n = 3.
    let len = ExprIn::Bin(
        BinOp::Sub,
        Box::new(ExprIn::Bin(BinOp::Mul, Box::new(ExprIn::Imm(3)), Box::new(ExprIn::Ref("n".to_string())))),
        Box::new(ExprIn::Imm(2)),
    );
    let prog = build(vec![
        FieldIn::named("n", int_ty(IntPrim::U8)),
        FieldIn::named("data", TypeIn::Bytes { len, max: None }),
    ]);
    let bytes = packed(&prog, &dict(vec![("data", Value::Bytes(b"abcdefg".to_vec()))]));
    assert_eq!(bytes, b"\x03abcdefg".to_vec());
    // 6 bytes: 3*n - 2 = 6 has no integer solution.
    match pack(&prog, &dict(vec![("data", Value::Bytes(b"abcdef".to_vec()))])) {
        PackOutcome::Failed { kind, .. } => assert_eq!(kind, Kind::Indivisible),
        PackOutcome::Packed(b) => panic!("{b:?}"),
    }
}

#[test]
fn constant_subexpressions_fold() {
    let len = ExprIn::Bin(
        BinOp::Add,
        Box::new(ExprIn::Bin(BinOp::Mul, Box::new(ExprIn::Imm(2)), Box::new(ExprIn::Imm(3)))),
        Box::new(ExprIn::Imm(1)),
    );
    let prog = build(vec![FieldIn::named("data", TypeIn::Bytes { len, max: None })]);
    assert_eq!(prog.static_size, Some(7));
    assert_eq!(prog.min_size, 7);
    let e = compile(
        &[FieldIn::named(
            "data",
            TypeIn::Bytes {
                len: ExprIn::Bin(BinOp::Div, Box::new(ExprIn::Imm(1)), Box::new(ExprIn::Imm(0))),
                max: None,
            },
        )],
        &Options::default(),
    )
    .unwrap_err();
    assert_eq!(e.msg, "division by a constant zero");
}

#[test]
fn floats_pack_to_their_ieee_bits() {
    let prog = build(vec![
        FieldIn::named("s", TypeIn::Float { is64: false, byteorder: None }),
        FieldIn::named("d", TypeIn::Float { is64: true, byteorder: Some(ByteOrder::Little) }),
    ]);
    let bytes = packed(&prog, &dict(vec![
        ("s", Value::Float(0.1f64.to_bits())),
        ("d", Value::Int(3)),
    ]));
    let mut want = 0.1f32.to_be_bytes().to_vec();
    want.extend_from_slice(&3.0f64.to_le_bytes());
    assert_eq!(bytes, want);
    let v = decoded(&prog, &bytes);
    assert_eq!(v.get("s"), Some(&Value::Float((0.1f32 as f64).to_bits())));
    assert_eq!(v.get("d"), Some(&Value::Float(3.0f64.to_bits())));
    // A huge integer rounds to the nearest double.
    let big = build(vec![FieldIn::named("d", TypeIn::Float { is64: true, byteorder: None })]);
    let b = packed(&big, &dict(vec![("d", Value::Int((1i128 << 60) + 1))]));
    assert_eq!(b, ((1u64 << 60) as f64).to_be_bytes().to_vec());
}

#[test]
fn a_nan_stays_a_nan_through_a_single_precision_field() {
    let prog = build(vec![FieldIn::named("s", TypeIn::Float { is64: false, byteorder: None })]);
    let bytes = packed(&prog, &dict(vec![("s", Value::Float(f64::NAN.to_bits()))]));
    let v = decoded(&prog, &bytes);
    match v.get("s") {
        Some(Value::Float(bits)) => assert!(f64::from_bits(*bits).is_nan()),
        other => panic!("{other:?}"),
    }
}

#[test]
fn pack_into_places_the_bytes_or_touches_nothing() {
    let prog = build(vec![FieldIn::named("x", int_ty(IntPrim::U16))]);
    let v = dict(vec![("x", Value::Int(0x1234))]);
    let mut dst = [0xAAu8; 4];
    match run_into(&prog, &v, &mut dst, 1) {
        PackOutcome::Packed(b) => assert_eq!(b, vec![0x12, 0x34]),
        other => panic!("{other:?}"),
    }
    assert_eq!(dst, [0xAA, 0x12, 0x34, 0xAA]);
    let mut small = [0u8; 2];
    match run_into(&prog, &v, &mut small, 1) {
        PackOutcome::Failed { kind, .. } => assert_eq!(kind, Kind::Buffer),
        other => panic!("{other:?}"),
    }
    assert_eq!(small, [0, 0]);
}

#[test]
fn a_root_that_is_not_a_map_is_a_type_error() {
    let prog = build(vec![FieldIn::named("x", int_ty(IntPrim::U8))]);
    match pack(&prog, &Value::Int(1)) {
        PackOutcome::Failed { kind, path } => {
            assert_eq!(kind, Kind::Type);
            assert_eq!(path, "");
        }
        other => panic!("{other:?}"),
    }
}

#[test]
fn flag_masks_never_overlap_and_miss_the_rest() {
    let prog = build(vec![FieldIn::named(
        "f",
        TypeIn::FlagsT {
            base: IntPrim::U8,
            byteorder: None,
            names: vec![("a".to_string(), 0x01), ("b".to_string(), 0x0E)],
            rest: "keep".to_string(),
        },
    )]);
    match &prog.ops[0] {
        Op::Flags { items, rest_mask, .. } => {
            assert_eq!(items[0].mask & items[1].mask, 0);
            assert_eq!(*rest_mask, 0xF0);
            assert!(items[0].is_bool);
            assert!(!items[1].is_bool);
        }
        _ => panic!("expected flags"),
    }
    let e = compile(
        &[FieldIn::named(
            "f",
            TypeIn::FlagsT {
                base: IntPrim::I8,
                byteorder: None,
                names: vec![("a".to_string(), 1)],
                rest: "keep".to_string(),
            },
        )],
        &Options::default(),
    )
    .unwrap_err();
    assert_eq!(e.msg, "flags: base must be unsigned (u8..u64)");
}

#[test]
fn an_unknown_option_gets_the_nearest_known_one() {
    let allowed = ["len", "max", "encoding", "errors"];
    assert_eq!(check_keys(&["len".to_string(), "max".to_string()], &allowed, "str"), Ok(()));
    assert_eq!(
        check_keys(&["lne".to_string()], &allowed, "str"),
        Err("str: unknown option 'lne' (did you mean 'len'?)".to_string())
    );
    assert_eq!(
        check_keys(&["zzzzzz".to_string()], &allowed, "str"),
        Err("str: unknown option 'zzzzzz'".to_string())
    );
    assert_eq!(
        check_keys(&["n".to_string()], &["on", "cases", "default"], "switch"),
        Err("switch: unknown option 'n' (did you mean 'on'?)".to_string())
    );
}

#[test]
fn the_option_table_names_every_kind() {
    let t = options();
    assert_eq!(t.len(), 14);
    assert_eq!(t[0].0.len(), 8);
    assert_eq!(t[9].1, vec!["algo", "over", "verify", "poly", "init", "xorout", "refin", "refout"]);
}

#[test]
fn extent_reads_to_the_end_or_counts() {
    assert!(matches!(extent(None, true), Ok(ExprIn::Greedy)));
    assert!(matches!(extent(Some(ExprIn::Imm(3)), false), Ok(ExprIn::Imm(3))));
    assert_eq!(
        extent(Some(ExprIn::Imm(3)), true).unwrap_err(),
        "array: count and until_eof are mutually exclusive"
    );
    assert_eq!(extent(None, false).unwrap_err(), "array: count or until_eof is required");
}

#[test]
fn paths_and_locations_in_schema_messages() {
    let segs = vec![
        PathSeg::Field("frame".to_string()),
        PathSeg::Nothing,
        PathSeg::Field("rows".to_string()),
        PathSeg::Suffix("[]".to_string()),
        PathSeg::Case(-2),
        PathSeg::Field("x".to_string()),
    ];
    assert_eq!(schema_path(&segs), "frame.rows[]?-2.x");
    assert_eq!(located("bad", "a.b"), "bad (at a.b)");
    assert_eq!(located("bad (at a.b)", "c"), "bad (at a.b)");
}

#[test]
fn closed_sets_of_the_schema_form() {
    let bo = byteorders();
    assert_eq!(bo.parse("network").ok(), Some(ByteOrder::Big));
    assert_eq!(bo.names(), vec!["big", "network", "little"]);
    let msg = bo.parse("native").unwrap_err();
    assert!(msg.starts_with("byteorder \"native\" is not supported (only"), "{msg}");
    assert_eq!(int_prims().parse("i16").ok(), Some(IntPrim::I16));
    assert_eq!(Kind::all().len(), 23);
    assert_eq!(Kind::all()[0], "truncated");
    assert_eq!(Kind::UnknownFlag.as_str(), "unknown_flag");
}

#[test]
fn quoted_names_in_messages() {
    let e = compile(
        &[FieldIn::named("a\"b", int_ty(IntPrim::U8)), FieldIn::named("a\"b", int_ty(IntPrim::U8))],
        &Options::default(),
    )
    .unwrap_err();
    assert_eq!(e.msg, "duplicate field name \"a\\\"b\" in scope");
}

#[test]
fn invalid_utf8_is_a_decode_error() {
    let prog = build(vec![FieldIn::named(
        "s",
        TypeIn::StrT { len: ExprIn::Imm(2), max: None, encoding: "utf-8".to_string(), errors: "strict".to_string() },
    )]);
    match unpack(&prog, &[0xC3, 0x28], 0, true, false) {
        Outcome::Invalid { kind, path, .. } => {
            assert_eq!(kind, Kind::Decode);
            assert_eq!(path, "s");
        }
        other => panic!("{other:?}"),
    }
    assert_eq!(decoded(&prog, "é".as_bytes()).get("s"), Some(&Value::Str("é".to_string())));
}

#[test]
fn hashes_of_known_inputs() {
    let mut h = Hasher::new(&Algo::Md5);
    h.update(b"abc");
    assert_eq!(
        h.finalize(),
        DigestVal::Bytes(vec![
            0x90, 0x01, 0x50, 0x98, 0x3c, 0xd2, 0x4f, 0xb0, 0xd6, 0x96, 0x3f, 0x7d, 0x28, 0xe1, 0x7f, 0x72
        ])
    );
    let mut h = Hasher::new(&Algo::Sha1);
    h.update(b"abc");
    let DigestVal::Bytes(b) = h.finalize() else { panic!() };
    assert_eq!(&b[..4], &[0xa9, 0x99, 0x3e, 0x36]);
    let mut h = Hasher::new(&Algo::Sha256);
    h.update_zeros(0);
    h.update(b"abc");
    let DigestVal::Bytes(b) = h.finalize() else { panic!() };
    assert_eq!(&b[..4], &[0xba, 0x78, 0x16, 0xbf]);
}

#[test]
fn the_ip_checksum_of_a_header_with_its_checksum_is_zero() {
    let hdr: [u8; 20] = [
        0x45, 0x00, 0x00, 0x73, 0x00, 0x00, 0x40, 0x00, 0x40, 0x11, 0xb8, 0x61, 0xc0, 0xa8,
        0x00, 0x01, 0xc0, 0xa8, 0x00, 0xc7,
    ];
    let mut h = Hasher::new(&Algo::IpChecksum);
    h.update(&hdr[..7]);
    h.update(&hdr[7..]);
    assert_eq!(h.finalize(), DigestVal::Int(0));
}

#[test]
fn too_deep_a_schema_is_refused_with_its_depth() {
    let mut ty = int_ty(IntPrim::U8);
    for _ in 0..65 {
        ty = TypeIn::StructT { fields: vec![FieldIn::named("x", ty)], byteorder: None, size: None };
    }
    let e = compile(&[FieldIn::named("root", ty)], &Options::default()).unwrap_err();
    assert_eq!(
        e.msg,
        "schema nests 66 structs deep, more than the 64 unpacking allows (the schema itself is the outermost one)"
    );
}

#[test]
fn a_run_of_fixed_fields_packs_back_the_bytes_it_decodes() {
    let prog = build(vec![
        FieldIn::named("a", int_ty(IntPrim::I16)),
        FieldIn::named("b", TypeIn::Int { prim: IntPrim::U32, byteorder: Some(ByteOrder::Big), const_: None }),
        FieldIn::named("c", TypeIn::Float { is64: true, byteorder: None }),
        FieldIn::named("d", TypeIn::Bool { const_: None }),
        FieldIn::named("e", TypeIn::Raw { len: Some(3), const_: None }),
        FieldIn::named("f", TypeIn::Float { is64: false, byteorder: None }),
    ]);
    let buf: Vec<u8> = vec![
        0xfe, 0xff, 0x01, 0x02, 0x03, 0x04, 0x18, 0x2d, 0x44, 0x54, 0xfb, 0x21, 0x09, 0x40,
        0x01, 0xaa, 0xbb, 0xcc, 0x00, 0x00, 0xc0, 0x3f,
    ];
    let v = decoded(&prog, &buf);
    assert_eq!(v.get("a"), Some(&Value::Int(-257)));
    assert_eq!(v.get("b"), Some(&Value::Int(0x01020304)));
    assert_eq!(packed(&prog, &v), buf);
    // A bool byte of 2 decodes to true and packs back as 1.
    let mut other = buf.clone();
    other[14] = 2;
    let again = packed(&prog, &decoded(&prog, &other));
    assert_eq!(again[14], 1);
}

#[test]
fn every_flags_word_packs_back() {
    let flags = |rest: &str| {
        build(vec![FieldIn::named(
            "f",
            TypeIn::FlagsT {
                base: IntPrim::U16,
                byteorder: None,
                names: vec![("a".to_string(), 0x1), ("b".to_string(), 0x6), ("c".to_string(), 0xF0)],
                rest: rest.to_string(),
            },
        )])
    };
    let keep = flags("keep");
    let ignore = flags("ignore");
    for w in (0u32..=0xFFFF).step_by(7) {
        let buf = (w as u16).to_be_bytes().to_vec();
        assert_eq!(packed(&keep, &decoded(&keep, &buf)), buf);
        // Dropped leftover bits do not come back.
        let again = packed(&ignore, &decoded(&ignore, &buf));
        assert_eq!(u16::from_be_bytes([again[0], again[1]]) as u32, w & 0xF7);
    }
}

#[test]
fn single_precision_fields_pack_back_all_but_signalling_nans() {
    let prog = build(vec![FieldIn::named("x", TypeIn::Float { is64: false, byteorder: None })]);
    let mut bits: u32 = 0;
    loop {
        let buf = bits.to_be_bytes().to_vec();
        let again = packed(&prog, &decoded(&prog, &buf));
        let exp = (bits >> 23) & 0xFF;
        let frac = bits & 0x7F_FFFF;
        if exp == 0xFF && frac != 0 && frac < 0x40_0000 {
            // A signalling NaN comes back quiet.
            assert_eq!(u32::from_be_bytes([again[0], again[1], again[2], again[3]]), bits | 0x40_0000);
        } else {
            assert_eq!(again, buf);
        }
        match bits.checked_add(0x0001_0203) {
            Some(b) => bits = b,
            None => break,
        }
    }
    for special in [0x7F80_0001u32, 0xFFBF_FFFF, 0x7FC0_0000, 0x0000_0001, 0x8000_0000, 0x7F7F_FFFF] {
        let buf = special.to_be_bytes().to_vec();
        let again = packed(&prog, &decoded(&prog, &buf));
        let frac = special & 0x7F_FFFF;
        if (special >> 23) & 0xFF == 0xFF && frac != 0 && frac < 0x40_0000 {
            assert_eq!(u32::from_be_bytes([again[0], again[1], again[2], again[3]]), special | 0x40_0000);
        } else {
            assert_eq!(again, buf);
        }
    }
}

#[test]
fn a_prefix_of_a_static_record_asks_for_exactly_what_is_missing() {
    let prog = build(vec![
        FieldIn::named("a", int_ty(IntPrim::U16)),
        FieldIn::named("b", int_ty(IntPrim::U32)),
    ]);
    let full = vec![1u8, 2, 3, 4, 5, 6];
    for i in 0..full.len() {
        match unpack(&prog, &full[..i], 0, false, true) {
            Outcome::Incomplete { needed } => assert_eq!(needed, full.len() - i),
            other => panic!("{i}: {other:?}"),
        }
        match unpack(&prog, &full[..i], 0, false, false) {
            Outcome::Invalid { kind, offset, .. } => {
                assert_eq!(kind, Kind::Truncated);
                assert_eq!(offset, i);
            },
            other => panic!("{i}: {other:?}"),
        }
    }
    assert!(matches!(unpack(&prog, &full, 0, true, true), Outcome::Decoded { pos: 6, .. }));
}

fn cstr_ty(max: usize) -> TypeIn {
    TypeIn::CStrT { max: Some(max), encoding: "utf-8".to_string(), errors: "strict".to_string() }
}

#[test]
fn a_prefix_of_a_dynamic_buffer_asks_for_more_or_decodes_alike() {
    let body = TypeIn::StructT {
        fields: vec![FieldIn::named(
            "items",
            TypeIn::ArrayT { elem: Box::new(int_ty(IntPrim::U16)), count: None, until_eof: true },
        )],
        byteorder: None,
        size: Some(ExprIn::Ref("blen".to_string())),
    };
    let prog = build(vec![
        FieldIn::named("tag", TypeIn::Int { prim: IntPrim::U8, byteorder: None, const_: Some(0x7F) }),
        FieldIn::named("name", cstr_ty(16)),
        FieldIn::named("n", int_ty(IntPrim::U8)),
        FieldIn::named("data", TypeIn::Bytes { len: ExprIn::Ref("n".to_string()), max: None }),
        FieldIn::named("blen", int_ty(IntPrim::U8)),
        FieldIn::named("body", body),
        FieldIn::named("tail", int_ty(IntPrim::U32)),
    ]);
    let full = packed(&prog, &dict(vec![
        ("name", Value::Str("abc".to_string())),
        ("data", Value::Bytes(vec![9, 8, 7])),
        ("body", dict(vec![("items", Value::List(vec![Value::Int(1), Value::Int(2)]))])),
        ("tail", Value::Int(0x0102_0304)),
    ]));
    let whole = match unpack(&prog, &full, 0, false, true) {
        Outcome::Decoded { value, pos } => (value, pos),
        other => panic!("{other:?}"),
    };
    assert_eq!(whole.1, full.len());
    for i in 0..=full.len() {
        match unpack(&prog, &full[..i], 0, false, true) {
            Outcome::Incomplete { needed } => {
                assert!(needed > 0);
                assert!(i + needed <= full.len());
            },
            Outcome::Decoded { value, pos } => {
                assert_eq!(pos, whole.1);
                assert_eq!(value, whole.0);
            },
            Outcome::Invalid { kind, offset, path } => panic!("{i}: {kind:?} at {offset} {path:?}"),
        }
    }
}

#[test]
fn packing_what_was_read_gives_the_bytes_back() {
    let pair = TypeIn::StructT {
        fields: vec![
            FieldIn::named("k", int_ty(IntPrim::U8)),
            FieldIn::named("v", cstr_ty(8)),
        ],
        byteorder: None,
        size: None,
    };
    let prog = build(vec![
        FieldIn::named("label", TypeIn::StrT {
            len: ExprIn::Imm(3),
            max: None,
            encoding: "latin-1".to_string(),
            errors: "strict".to_string(),
        }),
        FieldIn::named("pairs", TypeIn::ArrayT { elem: Box::new(pair), count: Some(ExprIn::Imm(2)), until_eof: false }),
        FieldIn::named("x", TypeIn::Float { is64: true, byteorder: Some(ByteOrder::Little) }),
        FieldIn::named("rest", TypeIn::ArrayT { elem: Box::new(int_ty(IntPrim::I16)), count: None, until_eof: true }),
    ]);
    let buf: Vec<u8> = vec![
        b'x', 0xE9, b'z',
        1, b'a', b'b', 0,
        2, 0,
        0x18, 0x2D, 0x44, 0x54, 0xFB, 0x21, 0x09, 0x40,
        0xFF, 0x7F, 0x00, 0x80,
    ];
    let v = decoded(&prog, &buf);
    assert_eq!(packed(&prog, &v), buf);
}

#[test]
fn fields_that_depend_on_nothing_around_them_always_compile() {
    let prog = build(vec![
        FieldIn::named("a", int_ty(IntPrim::U8)),
        FieldIn::named("s", TypeIn::CStrT { max: None, encoding: "utf-8".into(), errors: "strict".into() }),
        FieldIn::named(
            "fl",
            TypeIn::FlagsT {
                base: IntPrim::U16,
                byteorder: Some(ByteOrder::Little),
                names: vec![("ack".into(), 0x0001), ("kind".into(), 0x00F0)],
                rest: "strict".into(),
            },
        ),
    ]);
    assert_eq!(prog.ops.len(), 3);
    assert!(matches!(prog.ops[0], Op::Fixed { .. }));
    assert!(matches!(prog.ops[1], Op::CStr { .. }));
    match &prog.ops[2] {
        Op::Flags { rest, be, rest_mask, .. } => {
            assert!(matches!(rest, rustruct::program::RestPolicy::Strict));
            assert!(!*be);
            assert_eq!(*rest_mask, 0xFF0E);
        },
        _ => panic!("expected a flags op"),
    }
}

#[test]
fn a_repeated_name_after_plain_fields_is_refused_by_name() {
    let fields = vec![
        FieldIn::named("x", int_ty(IntPrim::U8)),
        FieldIn::named("y", TypeIn::CStrT { max: None, encoding: "ascii".into(), errors: "strict".into() }),
        FieldIn::named("x", int_ty(IntPrim::U16)),
    ];
    match compile(&fields, &Options::default()) {
        Err(e) => assert_eq!(e.msg, "duplicate field name \"x\" in scope"),
        Ok(_) => panic!("expected a schema error"),
    }
}

#[test]
fn a_length_over_two_fields_or_a_later_field_is_refused() {
    let two = vec![
        FieldIn::named("a", int_ty(IntPrim::U8)),
        FieldIn::named("b", int_ty(IntPrim::U8)),
        FieldIn::named("d", TypeIn::Bytes {
            len: ExprIn::Bin(BinOp::Add, Box::new(ExprIn::Ref("a".into())), Box::new(ExprIn::Ref("b".into()))),
            max: None,
        }),
    ];
    match compile(&two, &Options::default()) {
        Err(e) => assert_eq!(e.msg, "bytes.len: expression is not invertible (must have the form a*ref + b)"),
        Ok(_) => panic!("expected a schema error"),
    }
    let later = vec![
        FieldIn::named("d", TypeIn::Bytes { len: ExprIn::Ref("n".into()), max: None }),
        FieldIn::named("n", int_ty(IntPrim::U8)),
    ];
    match compile(&later, &Options::default()) {
        Err(e) => assert!(e.msg.starts_with("unknown name \"n\" in ref")),
        Ok(_) => panic!("expected a schema error"),
    }
}

#[test]
fn a_trailing_length_reads_its_field_through_one_register() {
    let opts = Options { max_default: 1000, ..Options::default() };
    let fields = vec![
        FieldIn::named("n", int_ty(IntPrim::U8)),
        FieldIn::named("data", TypeIn::Bytes { len: ExprIn::Ref("n".into()), max: None }),
    ];
    let prog = compile(&fields, &opts).expect("compile");
    assert_eq!(prog.nregs, 1);
    assert_eq!(prog.ops.len(), 2);
    match &prog.ops[0] {
        Op::Fixed { items, .. } => {
            assert_eq!(items[0].reg, Some(0));
            assert!(matches!(items[0].kind, rustruct::program::FixKind::Int { derived: true, .. }));
        },
        _ => panic!("expected a fixed run"),
    }
    match &prog.ops[1] {
        Op::Bytes { len: rustruct::program::LenSrc::Expr { expr, inv: Some(iv) }, max, .. } => {
            assert_eq!(*max, 1000);
            assert_eq!(expr.0.len(), 1);
            assert!(matches!(expr.0[0], rustruct::expr::Ins::Reg(r) if r.up == 0 && r.idx == 0));
            assert_eq!((iv.reg.up, iv.reg.idx, iv.a, iv.b), (0, 0, 1, 0));
        },
        _ => panic!("expected a bytes op whose length reads a register"),
    }
    assert_eq!(packed(&prog, &dict(vec![("n", Value::Int(99)), ("data", Value::Bytes(b"xy".to_vec()))])), b"\x02xy".to_vec());
}

#[test]
fn an_array_of_scalars_compiles_to_its_element_op() {
    let opts = Options { max_count: 77, ..Options::default() };
    let fields = vec![
        FieldIn::named("a", int_ty(IntPrim::U8)),
        FieldIn::named("xs", TypeIn::ArrayT {
            elem: Box::new(TypeIn::Int { prim: IntPrim::U16, byteorder: Some(ByteOrder::Little), const_: None }),
            count: Some(ExprIn::Imm(3)),
            until_eof: false,
        }),
        FieldIn::named("rest", TypeIn::ArrayT { elem: Box::new(TypeIn::Bool { const_: None }), count: None, until_eof: true }),
    ];
    let prog = compile(&fields, &opts).expect("compile");
    assert_eq!(prog.ops.len(), 3);
    match &prog.ops[1] {
        Op::Array { count: rustruct::program::CountSrc::Expr { expr, inv: None }, max_count, elem, .. } => {
            assert_eq!(*max_count, 77);
            assert_eq!(expr.0.len(), 1);
            assert!(matches!(expr.0[0], rustruct::expr::Ins::Imm(3)));
            match &**elem {
                Op::Fixed { width, items } => {
                    assert_eq!(*width, 2);
                    assert_eq!(items.len(), 1);
                    assert!(matches!(items[0].kind,
                        rustruct::program::FixKind::Int { prim: IntPrim::U16, be: false, expected: None, derived: false }));
                },
                _ => panic!("expected one fixed item as the element"),
            }
        },
        _ => panic!("expected an array op with a constant count"),
    }
    match &prog.ops[2] {
        Op::Array { count: rustruct::program::CountSrc::UntilEof, elem, .. } => {
            assert!(matches!(&**elem, Op::Fixed { width: 1, .. }));
        },
        _ => panic!("expected an array read to the end"),
    }
    let v = decoded(&prog, &[9, 1, 0, 2, 0, 3, 0, 1, 0]);
    assert_eq!(packed(&prog, &v), vec![9, 1, 0, 2, 0, 3, 0, 1, 0]);
}

#[test]
fn an_array_element_refusal_is_the_elements_own() {
    let fields = vec![FieldIn::named("xs", TypeIn::ArrayT {
        elem: Box::new(TypeIn::Int { prim: IntPrim::U8, byteorder: None, const_: Some(300) }),
        count: Some(ExprIn::Imm(2)),
        until_eof: false,
    })];
    match compile(&fields, &Options::default()) {
        Err(e) => assert_eq!(e.msg, "const 300 is out of range for U8"),
        Ok(_) => panic!("expected a schema error"),
    }
}

fn digest_field(name: &str, algo: &str, over: rustruct::schema::OverIn) -> FieldIn {
    FieldIn::named(name, TypeIn::DigestT {
        algo: algo.to_string(),
        overrides: rustruct::schema::CrcOverrides::default(),
        over,
        verify: true,
    })
}

#[test]
fn digest_fields_refuse_unknown_algorithms_and_bad_lists() {
    let cases: Vec<(Vec<FieldIn>, &str)> = vec![
        (vec![FieldIn::named("a", int_ty(IntPrim::U8)), digest_field("d", "crc99", OverIn::Star)], "digest: unknown algo \"crc99\""),
        (vec![FieldIn::named("a", int_ty(IntPrim::U8)), digest_field("d", "crc32", OverIn::Names(vec![]))], "digest: empty over"),
        (
            vec![FieldIn::named("a", int_ty(IntPrim::U8)), digest_field("d", "crc32", OverIn::Names(vec!["a".into(), "a".into()]))],
            "digest: duplicate \"a\" in over",
        ),
        (
            vec![FieldIn::named("a", int_ty(IntPrim::U8)), digest_field("d", "crc32", OverIn::Names(vec!["d".into()]))],
            "digest: a digest field cannot list itself by name in over",
        ),
    ];
    for (fields, msg) in cases {
        match compile(&fields, &Options::default()) {
            Err(e) => assert_eq!(e.msg, msg),
            Ok(_) => panic!("expected a schema error: {msg}"),
        }
    }
}

#[test]
fn a_prefix_of_a_buffer_ending_in_greedy_bytes_decodes_or_asks_for_more() {
    let prog = build(vec![
        FieldIn::named("n", int_ty(IntPrim::U16)),
        FieldIn::named("rest", TypeIn::Bytes { len: ExprIn::Greedy, max: None }),
    ]);
    let full = vec![0, 5, 1, 2, 3];
    assert!(matches!(unpack(&prog, &full, 0, false, true), Outcome::Decoded { pos: 5, .. }));
    for i in 0..=full.len() {
        match unpack(&prog, &full[..i], 0, false, true) {
            Outcome::Incomplete { needed } => {
                assert!(i < 2);
                assert_eq!(needed, 2 - i);
            },
            Outcome::Decoded { value, pos } => {
                assert_eq!(pos, i);
                assert_eq!(value, dict(vec![("n", Value::Int(5)), ("rest", Value::Bytes(full[2..i].to_vec()))]));
            },
            Outcome::Invalid { kind, offset, path } => panic!("{i}: {kind:?} at {offset} {path:?}"),
        }
    }
}

#[test]
fn a_length_expression_has_one_linear_form() {
    let e = ExprIn::Bin(BinOp::Sub, Box::new(ExprIn::Imm(10)), Box::new(ExprIn::Ref("r".into())));
    let lin = rustruct::compile::linear(&e).expect("linear");
    let (name, a) = lin.ref_.expect("a field");
    assert_eq!((name.as_str(), a, lin.b), ("r", -1, 10));
    let k = ExprIn::Bin(BinOp::Mul, Box::new(ExprIn::Imm(3)), Box::new(ExprIn::Imm(4)));
    let lin = rustruct::compile::linear(&k).expect("linear");
    assert!(lin.ref_.is_none());
    assert_eq!(lin.b, 12);
    let two = ExprIn::Bin(BinOp::Mul, Box::new(ExprIn::Ref("a".into())), Box::new(ExprIn::Ref("b".into())));
    assert!(rustruct::compile::linear(&two).is_none());
}

#[test]
fn constants_fold_as_expressions_evaluate() {
    assert_eq!(rustruct::compile::apply_const(BinOp::Add, 2, 3).ok(), Some(5));
    assert_eq!(rustruct::compile::apply_const(BinOp::Shl, 1, 4).ok(), Some(16));
    match rustruct::compile::apply_const(BinOp::Div, 1, 0) {
        Err(e) => assert_eq!(e.msg, "division by a constant zero"),
        Ok(v) => panic!("expected an error, got {v}"),
    }
    match rustruct::compile::apply_const(BinOp::Add, i64::MAX, 1) {
        Err(e) => assert_eq!(e.msg, "i64 overflow in a constant subexpression"),
        Ok(v) => panic!("expected an error, got {v}"),
    }
}

#[test]
fn an_entry_no_field_reads_changes_nothing_packed() {
    let prog = build(vec![
        FieldIn::named("a", int_ty(IntPrim::U8)),
        FieldIn::named("s", TypeIn::CStrT { max: None, encoding: "ascii".into(), errors: "strict".into() }),
    ]);
    let v = dict(vec![("a", Value::Int(7)), ("s", Value::Str("hi".into()))]);
    let w = dict(vec![("a", Value::Int(7)), ("s", Value::Str("hi".into())), ("zz", Value::Unsupported)]);
    assert_eq!(packed(&prog, &w), packed(&prog, &v));
    assert_eq!(packed(&prog, &v), vec![7, b'h', b'i', 0]);
    let bad = dict(vec![("a", Value::Int(700))]);
    let bad_w = dict(vec![("a", Value::Int(700)), ("zz", Value::Int(1))]);
    match (pack(&prog, &bad), pack(&prog, &bad_w)) {
        (PackOutcome::Failed { kind: k1, path: p1 }, PackOutcome::Failed { kind: k2, path: p2 }) => {
            assert_eq!(k1, k2);
            assert_eq!(p1, p2);
        },
        _ => panic!("expected both to fail"),
    }
}

#[test]
fn a_prefix_of_a_buffer_ending_in_an_open_array_decodes_or_asks_for_more() {
    let prog = build(vec![
        FieldIn::named("n", int_ty(IntPrim::U8)),
        FieldIn::named("xs", TypeIn::ArrayT { elem: Box::new(int_ty(IntPrim::U16)), count: None, until_eof: true }),
    ]);
    let full = vec![1, 0, 1, 0, 2];
    assert!(matches!(unpack(&prog, &full, 0, false, true), Outcome::Decoded { pos: 5, .. }));
    let expected: Vec<Option<usize>> = vec![Some(1), None, Some(1), None, Some(1), None];
    for i in 0..=full.len() {
        match unpack(&prog, &full[..i], 0, false, true) {
            Outcome::Incomplete { needed } => assert_eq!(Some(needed), expected[i]),
            Outcome::Decoded { pos, .. } => {
                assert_eq!(expected[i], None);
                assert_eq!(pos, i);
            },
            Outcome::Invalid { kind, offset, path } => panic!("{i}: {kind:?} at {offset} {path:?}"),
        }
    }
}
