//! Checks of the resolver's error surface, the resolved-declaration
//! queries, and the shared primitives.

use molecule::ast::{Ast, RawAst, RawFieldDecl, RawTopDecl};
use molecule::entity::{hex_repr_of, Entity, Molecule, Reader};
use molecule::error::SchemaError;
use molecule::{
    check_padding, create_content, pack_number, read_number_at, unpack_number, write_padding,
    Alignment,
};

fn field(name: &str, typ: &str) -> RawFieldDecl {
    RawFieldDecl { name: name.to_string(), typ: typ.to_string() }
}

fn one(decl: RawTopDecl) -> RawAst {
    RawAst { decls: vec![decl] }
}

#[test]
fn reserved_names_are_rejected() {
    let raw = one(RawTopDecl::Option_ { name: "byte".to_string(), typ: "byte".to_string() });
    match Ast::new(&raw) {
        Err(SchemaError::NameReserved(n)) => assert_eq!(n, "byte"),
        other => panic!("expected a reserved-name error, got {:?}", other),
    }
    let raw = one(RawTopDecl::Option_ { name: "Byte".to_string(), typ: "byte".to_string() });
    assert!(matches!(Ast::new(&raw), Err(SchemaError::NameReserved(_))));
}

#[test]
fn duplicated_names_are_rejected() {
    let raw = RawAst {
        decls: vec![
            RawTopDecl::Option_ { name: "dup".to_string(), typ: "byte".to_string() },
            RawTopDecl::Vector { name: "dup".to_string(), typ: "byte".to_string() },
        ],
    };
    match Ast::new(&raw) {
        Err(SchemaError::NameDuplicated(n)) => assert_eq!(n, "dup"),
        other => panic!("expected a duplicated-name error, got {:?}", other),
    }
}

#[test]
fn dangling_references_are_reported() {
    let raw = one(RawTopDecl::Option_ { name: "o".to_string(), typ: "missing".to_string() });
    match Ast::new(&raw) {
        Err(SchemaError::UnresolvedTypes(names)) => assert_eq!(names, vec!["o".to_string()]),
        other => panic!("expected an unresolved-types error, got {:?}", other),
    }
}

#[test]
fn cycles_are_reported() {
    let raw = RawAst {
        decls: vec![
            RawTopDecl::Option_ { name: "a".to_string(), typ: "b".to_string() },
            RawTopDecl::Option_ { name: "b".to_string(), typ: "a".to_string() },
        ],
    };
    match Ast::new(&raw) {
        Err(SchemaError::UnresolvedTypes(names)) => {
            assert_eq!(names, vec!["a".to_string(), "b".to_string()])
        }
        other => panic!("expected an unresolved-types error, got {:?}", other),
    }
}

#[test]
fn empty_union_is_rejected() {
    let raw = one(RawTopDecl::Union { name: "u".to_string(), items: vec![] });
    assert!(matches!(Ast::new(&raw), Err(SchemaError::EmptyUnion(_))));
}

#[test]
fn empty_array_is_rejected() {
    let raw = one(RawTopDecl::Array { name: "a".to_string(), typ: "byte".to_string(), length: 0 });
    assert!(matches!(Ast::new(&raw), Err(SchemaError::EmptyArray(_))));
}

#[test]
fn empty_struct_is_rejected() {
    let raw = one(RawTopDecl::Struct { name: "s".to_string(), fields: vec![] });
    assert!(matches!(Ast::new(&raw), Err(SchemaError::ZeroSizeStruct(_))));
}

#[test]
fn variable_size_struct_field_is_rejected() {
    let raw = RawAst {
        decls: vec![
            RawTopDecl::Vector { name: "v".to_string(), typ: "byte".to_string() },
            RawTopDecl::Struct { name: "s".to_string(), fields: vec![field("f", "v")] },
        ],
    };
    match Ast::new(&raw) {
        Err(SchemaError::InnerNotFixedSize(parent, inner)) => {
            assert_eq!(parent, "s");
            assert_eq!(inner, "f");
        }
        other => panic!("expected an inner-not-fixed error, got {:?}", other),
    }
}

#[test]
fn resolved_queries_expose_layout_metadata() {
    let raw = RawAst {
        decls: vec![
            RawTopDecl::Array { name: "b3".to_string(), typ: "byte".to_string(), length: 3 },
            RawTopDecl::Vector { name: "v".to_string(), typ: "b3".to_string() },
            RawTopDecl::Table { name: "t".to_string(), fields: vec![field("f", "v")] },
        ],
    };
    let ast = Ast::new(&raw).unwrap();
    assert_eq!(ast.len(), 4);
    assert_eq!(ast.order.len(), 3);
    let b3 = ast.order[0];
    let v = ast.order[1];
    let t = ast.order[2];
    assert_eq!(ast.decl(b3).name(), "b3");
    assert!(!ast.decl(b3).is_atom());
    assert!(ast.decl(0).is_atom());
    assert_eq!(ast.decl(b3).kind_name(), "Array");
    assert_eq!(ast.decl(v).kind_name(), "FixVec");
    assert_eq!(ast.decl(t).kind_name(), "Table");
    assert_eq!(ast.total_size(b3), Some(3));
    assert_eq!(ast.total_size(v), None);
    assert_eq!(ast.decl(b3).alignment(), Alignment::Byte4);
    assert_eq!(ast.decl(t).alignment(), Alignment::Byte8);
    assert_eq!(ast.decl(v).children(), vec![b3]);
    assert_eq!(ast.decl(t).children(), vec![v]);
    assert_eq!(ast.decl(0).children(), Vec::<usize>::new());
}

#[test]
fn alignment_arithmetic_matches_the_rules() {
    assert_eq!(Alignment::for_size(1), Alignment::Byte1);
    assert_eq!(Alignment::for_size(2), Alignment::Byte2);
    assert_eq!(Alignment::for_size(3), Alignment::Byte4);
    assert_eq!(Alignment::for_size(4), Alignment::Byte4);
    assert_eq!(Alignment::for_size(5), Alignment::Byte8);
    assert_eq!(Alignment::Byte4.calc_padding(6), 2);
    assert_eq!(Alignment::Byte4.calc_padding(8), 0);
    assert_eq!(Alignment::Byte8.calc_full_size(13), 16);
    assert_eq!(Alignment::Byte2.as_usize(), 2);
    assert_eq!(Alignment::Byte1.max_with(Alignment::Byte8), Alignment::Byte8);
}

#[test]
fn number_codec_is_little_endian() {
    let packed = pack_number(0x0102_03ff);
    assert_eq!(packed, vec![0xff, 3, 2, 1]);
    assert_eq!(unpack_number(&packed), 0x0102_03ff);
    assert_eq!(read_number_at(&[9, 0xff, 3, 2, 1], 1), 0x0102_03ff);
}

#[test]
fn padding_helpers_write_and_check_zeros() {
    let mut buf = create_content(16);
    assert!(buf.is_empty());
    write_padding(&mut buf, 3);
    assert_eq!(buf, vec![0u8, 0, 0]);
    assert!(check_padding(&buf));
    buf.push(1);
    assert!(!check_padding(&buf));
    assert!(check_padding(&[]));
}

#[test]
fn hex_spelling_is_lowercase_pairs() {
    assert_eq!(hex_repr_of(&[0x00, 0xff, 0x1a]), "00ff1a");
    assert_eq!(hex_repr_of(&[]), "");
}

#[test]
fn atom_entities_verify_single_bytes() {
    let e = Entity::<u8>::from_slice(&[5]).unwrap();
    assert_eq!(e.as_slice(), &[5u8][..]);
    assert_eq!(e.as_reader().as_slice(), &[5u8][..]);
    assert_eq!(e.hex_repr(), "05");
    assert!(Entity::<u8>::from_slice(&[1, 2]).is_err());
    assert!(Entity::<u8>::from_slice(&[]).is_err());
    let r = Reader::<u8>::from_slice(&[9]).unwrap();
    assert_eq!(r.to_entity().as_slice(), &[9u8][..]);
    assert!(<u8 as Molecule>::verify(&[1]).is_ok());
    assert!(<u8 as Molecule>::verify(&[1, 2]).is_err());
}

#[test]
fn oversized_arrays_are_rejected() {
    let raw = RawAst {
        decls: vec![
            RawTopDecl::Array {
                name: "big".to_string(),
                typ: "byte".to_string(),
                length: 0x8000_0000,
            },
            RawTopDecl::Array { name: "big2".to_string(), typ: "big".to_string(), length: 2 },
        ],
    };
    match Ast::new(&raw) {
        Err(SchemaError::SizeOverflow(n)) => assert_eq!(n, "big2"),
        other => panic!("expected a size-overflow error, got {:?}", other),
    }
}
