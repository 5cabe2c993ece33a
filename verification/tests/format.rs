//! End-to-end checks of the wire format: canonical defaults, building,
//! verifying, and random access.

use molecule::ast::{Ast, RawAst, RawFieldDecl, RawTopDecl, TopDecl};
use molecule::builder::{
    build_array, build_dyn_vec, build_fix_vec, build_struct, build_table, build_union,
    dynvec_expected_length, fixvec_expected_length, table_expected_length, union_expected_length,
};
use molecule::decode::{
    array_nth, dynvec_get, dynvec_len, fixvec_get, fixvec_len, option_inner, struct_field,
    table_field, table_field_count, union_item,
};
use molecule::defaults::default_content;
use molecule::error::VerificationError;
use molecule::verify::{peek_length, verify};

fn field(name: &str, typ: &str) -> RawFieldDecl {
    RawFieldDecl { name: name.to_string(), typ: typ.to_string() }
}

/// The schema used throughout: fixed arrays, a struct, both vector kinds,
/// a union, an option, and two nested tables.
fn schema() -> RawAst {
    RawAst {
        decls: vec![
            RawTopDecl::Array { name: "byte2".to_string(), typ: "byte".to_string(), length: 2 },
            RawTopDecl::Array { name: "byte3".to_string(), typ: "byte".to_string(), length: 3 },
            RawTopDecl::Array { name: "word".to_string(), typ: "byte".to_string(), length: 2 },
            RawTopDecl::Array { name: "word2".to_string(), typ: "word".to_string(), length: 2 },
            RawTopDecl::Array { name: "byte3x3".to_string(), typ: "byte3".to_string(), length: 3 },
            RawTopDecl::Vector { name: "bytes".to_string(), typ: "byte".to_string() },
            RawTopDecl::Vector { name: "bytes_vec".to_string(), typ: "bytes".to_string() },
            RawTopDecl::Struct {
                name: "struct_a".to_string(),
                fields: vec![
                    field("f1", "byte"),
                    field("f2", "byte"),
                    field("f3", "byte2"),
                    field("f4", "byte2"),
                ],
            },
            RawTopDecl::Table {
                name: "table5".to_string(),
                fields: vec![
                    field("f1", "byte"),
                    field("f2", "word2"),
                    field("f3", "struct_a"),
                    field("f4", "bytes"),
                    field("f5", "bytes_vec"),
                ],
            },
            RawTopDecl::Table {
                name: "table6".to_string(),
                fields: vec![
                    field("f1", "byte"),
                    field("f2", "word2"),
                    field("f3", "struct_a"),
                    field("f4", "bytes"),
                    field("f5", "bytes_vec"),
                    field("f6", "table5"),
                ],
            },
            RawTopDecl::Union {
                name: "union_a".to_string(),
                items: vec!["byte".to_string(), "word".to_string()],
            },
            RawTopDecl::Option_ { name: "byte_opt".to_string(), typ: "byte".to_string() },
            RawTopDecl::Table {
                name: "table1".to_string(),
                fields: vec![field("f1", "byte")],
            },
        ],
    }
}

fn resolved() -> Ast {
    Ast::new(&schema()).expect("the schema resolves")
}

fn idx(ast: &Ast, name: &str) -> usize {
    for k in 0..ast.decls.len() {
        if ast.decls[k].name() == name {
            return k;
        }
    }
    panic!("no declaration named {}", name);
}

#[test]
fn byte3_default_is_three_zeros() {
    let ast = resolved();
    let i = idx(&ast, "byte3");
    assert_eq!(default_content(&ast, i), vec![0u8, 0, 0]);
}

#[test]
fn word2_default_is_four_zeros() {
    let ast = resolved();
    let i = idx(&ast, "word2");
    let d = default_content(&ast, i);
    assert_eq!(d, vec![0u8, 0, 0, 0]);
    match &ast.decls[i] {
        TopDecl::Array { item_size, item_padding, item_count, .. } => {
            assert_eq!(*item_size, 2);
            assert_eq!(*item_padding, 0);
            assert_eq!(*item_count, 2);
        }
        _ => panic!("word2 should be an array"),
    }
}

#[test]
fn byte3x3_default_has_interior_padding() {
    let ast = resolved();
    let i = idx(&ast, "byte3x3");
    match &ast.decls[i] {
        TopDecl::Array { item_size, item_padding, .. } => {
            assert_eq!(*item_size, 3);
            assert_eq!(*item_padding, 1);
        }
        _ => panic!("byte3x3 should be an array"),
    }
    assert_eq!(ast.total_size(i), Some(11));
    assert_eq!(default_content(&ast, i), vec![0u8; 11]);
}

#[test]
fn bytes_vec_default_is_empty_header() {
    let ast = resolved();
    let i = idx(&ast, "bytes_vec");
    assert_eq!(default_content(&ast, i), vec![8u8, 0, 0, 0, 0, 0, 0, 0]);
}

#[test]
fn bytes_vec_with_one_empty_bytes() {
    let ast = resolved();
    let bv = idx(&ast, "bytes_vec");
    let bytes_i = idx(&ast, "bytes");
    let one_empty = default_content(&ast, bytes_i);
    assert_eq!(one_empty, vec![0u8, 0, 0, 0]);
    let built = build_dyn_vec(&ast, bv, &vec![one_empty.clone()]);
    assert_eq!(
        built,
        vec![0x10u8, 0, 0, 0, 0x01, 0, 0, 0, 0x0c, 0, 0, 0, 0, 0, 0, 0]
    );
    assert!(verify(&ast, bv, &built, false).is_ok());
    assert_eq!(dynvec_len(&ast, bv, &built), 1);
    assert_eq!(dynvec_get(&ast, bv, &built, 0), Some(&one_empty[..]));
    assert_eq!(dynvec_get(&ast, bv, &built, 1), None);
}

#[test]
fn table6_default_vector() {
    let ast = resolved();
    let t6 = idx(&ast, "table6");
    let t5 = idx(&ast, "table5");
    let d = default_content(&ast, t6);
    assert_eq!(d.len(), 108);
    assert_eq!(&d[0..4], &[0x6c, 0, 0, 0]);
    assert_eq!(&d[4..8], &[0x06, 0, 0, 0]);
    // The offset slot of the sixth field points at 0x38, where the nested
    // table's own header begins.
    assert_eq!(&d[28..32], &[0x38, 0, 0, 0]);
    let t5_default = default_content(&ast, t5);
    assert_eq!(t5_default.len(), 52);
    assert_eq!(&d[0x38..], &t5_default[..]);
    assert!(verify(&ast, t6, &d, false).is_ok());
    let f6 = table_field(&ast, t6, &d, 5);
    assert_eq!(f6, &t5_default[..]);
}

#[test]
fn union_default_selects_first_item() {
    let ast = resolved();
    let u = idx(&ast, "union_a");
    let d = default_content(&ast, u);
    assert_eq!(d, vec![9u8, 0, 0, 0, 0, 0, 0, 0, 0]);
    assert!(verify(&ast, u, &d, false).is_ok());
}

#[test]
fn every_default_verifies() {
    let ast = resolved();
    for i in 0..ast.decls.len() {
        let d = default_content(&ast, i);
        assert!(
            verify(&ast, i, &d, false).is_ok(),
            "default of {} should verify",
            ast.decls[i].name()
        );
        assert!(verify(&ast, i, &d, true).is_ok());
    }
}

#[test]
fn peek_length_of_verified_slice_is_its_length() {
    let ast = resolved();
    for name in ["byte3", "word2", "bytes", "bytes_vec", "table5", "table6", "union_a"] {
        let i = idx(&ast, name);
        let d = default_content(&ast, i);
        assert_eq!(peek_length(&ast, i, &d), Ok(d.len()));
    }
    let t6 = idx(&ast, "table6");
    assert!(peek_length(&ast, t6, &[1u8, 2]).is_err());
}

#[test]
fn build_and_read_back_a_populated_table() {
    let ast = resolved();
    let t5 = idx(&ast, "table5");
    let w2 = idx(&ast, "word2");
    let sa = idx(&ast, "struct_a");
    let by = idx(&ast, "bytes");
    let bv = idx(&ast, "bytes_vec");
    let w = idx(&ast, "word");

    let f1 = vec![7u8];
    let f2 = build_array(&ast, w2, &vec![vec![1u8, 2], vec![3u8, 4]]);
    assert_eq!(f2, vec![1, 2, 3, 4]);
    let f3 = build_struct(&ast, sa, &vec![vec![9u8], vec![8u8], vec![1u8, 1], vec![2u8, 2]]);
    assert_eq!(f3, vec![9, 8, 1, 1, 2, 2]);
    let f4 = build_fix_vec(&ast, by, &vec![vec![0xaau8], vec![0xbbu8], vec![0xccu8]]);
    assert_eq!(f4, vec![3, 0, 0, 0, 0xaa, 0xbb, 0xcc]);
    let inner1 = build_fix_vec(&ast, by, &vec![vec![1u8]]);
    let inner2 = build_fix_vec(&ast, by, &vec![]);
    assert_eq!(inner2, vec![0, 0, 0, 0]);
    let f5 = build_dyn_vec(&ast, bv, &vec![inner1.clone(), inner2.clone()]);
    assert!(verify(&ast, bv, &f5, false).is_ok());

    let children = vec![f1.clone(), f2.clone(), f3.clone(), f4.clone(), f5.clone()];
    assert_eq!(table_expected_length(&ast, t5, &children), Some(76));
    let built = build_table(&ast, t5, &children);
    assert!(verify(&ast, t5, &built, false).is_ok());
    assert_eq!(table_field_count(&ast, t5, &built), 5);
    assert_eq!(table_field(&ast, t5, &built, 0), &f1[..]);
    assert_eq!(table_field(&ast, t5, &built, 1), &f2[..]);
    assert_eq!(table_field(&ast, t5, &built, 2), &f3[..]);
    assert_eq!(table_field(&ast, t5, &built, 3), &f4[..]);
    assert_eq!(table_field(&ast, t5, &built, 4), &f5[..]);

    // Random access into the components.
    assert_eq!(array_nth(&ast, w2, &f2, 1), &[3u8, 4][..]);
    let word_item = array_nth(&ast, w2, &f2, 0);
    assert!(verify(&ast, w, word_item, false).is_ok());
    assert_eq!(struct_field(&ast, sa, &f3, 2), &[1u8, 1][..]);
    assert_eq!(fixvec_len(&ast, by, &f4), 3);
    assert_eq!(fixvec_get(&ast, by, &f4, 1), Some(&[0xbbu8][..]));
    assert_eq!(fixvec_get(&ast, by, &f4, 3), None);
    assert_eq!(dynvec_get(&ast, bv, &f5, 0), Some(&inner1[..]));
    assert_eq!(dynvec_get(&ast, bv, &f5, 1), Some(&inner2[..]));
}

#[test]
fn union_roundtrip_and_unknown_tag() {
    let ast = resolved();
    let u = idx(&ast, "union_a");
    let inner = vec![5u8, 6];
    assert_eq!(union_expected_length(inner.len()), Some(10));
    let built = build_union(&ast, u, 1, &inner);
    assert_eq!(built, vec![10, 0, 0, 0, 1, 0, 0, 0, 5, 6]);
    assert!(verify(&ast, u, &built, false).is_ok());
    let (tag, body) = union_item(&ast, u, &built);
    assert_eq!(tag, 1);
    assert_eq!(body, &inner[..]);

    let bad = vec![9u8, 0, 0, 0, 9, 0, 0, 0, 5];
    match verify(&ast, u, &bad, false) {
        Err(VerificationError::UnknownItem(_, max, seen)) => {
            assert_eq!(max, 2);
            assert_eq!(seen, 9);
        }
        other => panic!("expected an unknown-item error, got {:?}", other),
    }
}

#[test]
fn option_inner_distinguishes_none_and_some() {
    let ast = resolved();
    let o = idx(&ast, "byte_opt");
    assert!(verify(&ast, o, &[], false).is_ok());
    assert_eq!(option_inner(&ast, o, &[]), None);
    let some = vec![0x7fu8];
    assert!(verify(&ast, o, &some, false).is_ok());
    assert_eq!(option_inner(&ast, o, &some), Some(&some[..]));
    assert!(verify(&ast, o, &[1u8, 2], false).is_err());
}

#[test]
fn verifier_rejects_nonzero_padding() {
    let ast = resolved();
    let i = idx(&ast, "byte3x3");
    let mut d = default_content(&ast, i);
    d[3] = 1;
    match verify(&ast, i, &d, false) {
        Err(VerificationError::BytesNotPadded(_)) => {}
        other => panic!("expected a padding error, got {:?}", other),
    }
}

#[test]
fn verifier_rejects_wrong_total_size() {
    let ast = resolved();
    let i = idx(&ast, "bytes_vec");
    let d = vec![9u8, 0, 0, 0, 0, 0, 0, 0];
    match verify(&ast, i, &d, false) {
        Err(VerificationError::TotalSizeNotMatch(_, expected, actual)) => {
            assert_eq!(expected, 9);
            assert_eq!(actual, 8);
        }
        other => panic!("expected a total-size error, got {:?}", other),
    }
    let short = vec![1u8];
    match verify(&ast, i, &short, false) {
        Err(VerificationError::HeaderIsBroken(_, expected, actual)) => {
            assert_eq!(expected, 8);
            assert_eq!(actual, 1);
        }
        other => panic!("expected a header error, got {:?}", other),
    }
}

#[test]
fn verifier_rejects_descending_offsets() {
    let ast = resolved();
    let bv = idx(&ast, "bytes_vec");
    // total 24, two items, offsets out of order.
    let bad = vec![
        24u8, 0, 0, 0, 2, 0, 0, 0, 20, 0, 0, 0, 16, 0, 0, 0, 0, 0, 0, 0, 0, 0, 0, 0,
    ];
    match verify(&ast, bv, &bad, false) {
        Err(VerificationError::OffsetsNotMatch(_)) => {}
        other => panic!("expected an offsets error, got {:?}", other),
    }
}

#[test]
fn forward_compatibility_tolerates_appended_fields() {
    let ast = resolved();
    let t1 = idx(&ast, "table1");
    let plain = build_table(&ast, t1, &vec![vec![7u8]]);
    assert_eq!(plain, vec![13, 0, 0, 0, 1, 0, 0, 0, 12, 0, 0, 0, 7]);
    assert!(verify(&ast, t1, &plain, false).is_ok());

    // The same value with one unknown field appended on the wire.
    let extended = vec![
        18u8, 0, 0, 0, 2, 0, 0, 0, 16, 0, 0, 0, 17, 0, 0, 0, 7, 9,
    ];
    assert!(verify(&ast, t1, &extended, true).is_ok());
    match verify(&ast, t1, &extended, false) {
        Err(VerificationError::FieldCountNotMatch(_, schema, wire)) => {
            assert_eq!(schema, 1);
            assert_eq!(wire, 2);
        }
        other => panic!("expected a field-count error, got {:?}", other),
    }
    match verify(&ast, t1, &[12u8, 0, 0, 0, 0, 0, 0, 0, 0, 0, 0, 0], false) {
        Err(VerificationError::FieldCountNotMatch(_, schema, wire)) => {
            assert_eq!(schema, 1);
            assert_eq!(wire, 0);
        }
        other => panic!("expected a field-count error, got {:?}", other),
    }

    // The declared field reads back the same from both serializations.
    assert_eq!(table_field(&ast, t1, &plain, 0), &[7u8][..]);
    assert_eq!(table_field(&ast, t1, &extended, 0), &[7u8][..]);
    assert_eq!(table_field_count(&ast, t1, &extended), 2);
}

#[test]
fn option_table_field_defaults_collide_with_padding() {
    // A none option consumes no bytes and is preceded by no padding, so its
    // recorded offset lands where the next field's padding begins.  The
    // verifier then reads that padding as option content and the claimed
    // extent overruns the next field's offset: the canonical default of
    // such a table is rejected.  The default-verifies law in the library is
    // stated for schemas without option-typed table fields for exactly this
    // reason.
    let raw = RawAst {
        decls: vec![
            RawTopDecl::Array { name: "byte3".to_string(), typ: "byte".to_string(), length: 3 },
            RawTopDecl::Option_ { name: "byte3_opt".to_string(), typ: "byte3".to_string() },
            RawTopDecl::Array { name: "word".to_string(), typ: "byte".to_string(), length: 2 },
            RawTopDecl::Array { name: "word2".to_string(), typ: "word".to_string(), length: 2 },
            RawTopDecl::Table {
                name: "t".to_string(),
                fields: vec![field("f0", "byte"), field("f1", "byte3_opt"), field("f2", "word2")],
            },
        ],
    };
    let ast = Ast::new(&raw).unwrap();
    let t = ast.order[4];
    let d = default_content(&ast, t);
    assert_eq!(d.len(), 26);
    assert!(verify(&ast, t, &d, false).is_err());
}

#[test]
fn decoded_offsets_are_aligned() {
    // Every component offset the decoder computes for fixed-size children
    // is a multiple of the child's alignment.
    let ast = resolved();
    let t5 = idx(&ast, "table5");
    let d = default_content(&ast, t5);
    assert!(verify(&ast, t5, &d, false).is_ok());
    let aligns: Vec<usize> = match &ast.decls[t5] {
        TopDecl::Table { field_alignments, .. } => {
            field_alignments.iter().map(|a| a.as_usize()).collect()
        }
        _ => panic!("table5 should be a table"),
    };
    for j in 0..5 {
        let field_bytes = table_field(&ast, t5, &d, j);
        if !field_bytes.is_empty() {
            let off = field_bytes.as_ptr() as usize - d.as_ptr() as usize;
            assert_eq!(off % aligns[j], 0, "field {} starts misaligned", j);
        }
    }
    // Array items inside a field start at multiples of the item alignment.
    let b33 = idx(&ast, "byte3x3");
    let arr = default_content(&ast, b33);
    for j in 0..3 {
        let item = array_nth(&ast, b33, &arr, j);
        let off = item.as_ptr() as usize - arr.as_ptr() as usize;
        assert_eq!(off % 4, 0);
    }
}

#[test]
fn expected_lengths_match_built_lengths() {
    let ast = resolved();
    let by = idx(&ast, "bytes");
    let bv = idx(&ast, "bytes_vec");
    let items = vec![
        build_fix_vec(&ast, by, &vec![vec![1u8], vec![2u8]]),
        build_fix_vec(&ast, by, &vec![]),
    ];
    let expected = dynvec_expected_length(&ast, bv, &items).unwrap();
    let built = build_dyn_vec(&ast, bv, &items);
    assert_eq!(built.len(), expected);
    assert_eq!(fixvec_expected_length(&ast, by, 2), Some(4 + 2));
    assert_eq!(fixvec_expected_length(&ast, by, 0), Some(4));
    let t6 = idx(&ast, "table6");
    let t6_fields: Vec<Vec<u8>> = (0..6)
        .map(|j| {
            let child = match &ast.decls[t6] {
                TopDecl::Table { fields, .. } => fields[j].typ,
                _ => unreachable!(),
            };
            default_content(&ast, child)
        })
        .collect();
    assert_eq!(table_expected_length(&ast, t6, &t6_fields), Some(108));
    let built6 = build_table(&ast, t6, &t6_fields);
    assert_eq!(built6, default_content(&ast, t6));
}

#[test]
fn peek_length_of_options_and_prefixes() {
    let ast = resolved();
    let o = idx(&ast, "byte_opt");
    assert_eq!(peek_length(&ast, o, &[]), Ok(0));
    assert_eq!(peek_length(&ast, o, &[9]), Ok(1));
    // A verified slice's peeked prefix is the whole slice, which verifies.
    let t5 = idx(&ast, "table5");
    let d = default_content(&ast, t5);
    let n = peek_length(&ast, t5, &d).unwrap();
    assert!(verify(&ast, t5, &d[..n], false).is_ok());
}
