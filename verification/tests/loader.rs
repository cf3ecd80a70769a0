//! Loading a container index: forwarder resolution, anonymous naming, and
//! the name lookup.

use resym::pdb_file::PdbFile;
use resym::pdb_types::{
    Member, PrimitiveKind, PrimitiveReconstructionFlavor, TypeKind, TypeRecord, TypeRef,
    is_unnamed_type,
};

fn record(index: u32, kind: TypeKind, name: &str, forward: bool) -> TypeRecord {
    TypeRecord {
        index,
        kind,
        name: name.to_string(),
        unique_name: None,
        is_forward_reference: forward,
        base_types: Vec::new(),
        members: Vec::new(),
        underlying: PrimitiveKind::I32,
        enumerators: Vec::new(),
    }
}

fn member(name: &str, type_ref: TypeRef) -> Member {
    Member {
        name: name.to_string(),
        type_ref,
        access: None,
    }
}

#[test]
fn forwarder_resolves_to_complete_definition() {
    let fwd = record(5, TypeKind::Class, "Foo", true);
    let mut complete = record(42, TypeKind::Class, "Foo", false);
    complete
        .members
        .push(member("x", TypeRef::Primitive(PrimitiveKind::U32)));
    let pdb_file = PdbFile::from_records("demo.pdb".to_string(), 0, vec![fwd, complete]);
    assert_eq!(pdb_file.dereference_forwarder(5), 42);
    assert_eq!(pdb_file.dereference_forwarder(42), 42);
    // an index with no forwarder entry comes back unchanged
    assert_eq!(pdb_file.dereference_forwarder(7), 7);
}

#[test]
fn reconstruction_through_forwarder_matches_direct() {
    let fwd = record(5, TypeKind::Class, "Foo", true);
    let mut complete = record(42, TypeKind::Class, "Foo", false);
    complete
        .members
        .push(member("x", TypeRef::Primitive(PrimitiveKind::U32)));
    let pdb_file = PdbFile::from_records("demo.pdb".to_string(), 0, vec![fwd, complete]);
    let flavor = PrimitiveReconstructionFlavor::Portable;
    let via_fwd = pdb_file
        .reconstruct_type_by_type_index(5, flavor, false, false, false)
        .unwrap();
    let direct = pdb_file
        .reconstruct_type_by_type_index(42, flavor, false, false, false)
        .unwrap();
    assert_eq!(via_fwd, direct);
    assert_eq!(via_fwd, "class Foo {\n  uint32_t x;\n};\n");
}

#[test]
fn unmatched_forwarder_is_dropped_and_renders_incomplete() {
    let fwd = record(5, TypeKind::Class, "Orphan", true);
    let pdb_file = PdbFile::from_records("demo.pdb".to_string(), 0, vec![fwd]);
    // the forwarder map dropped the unmatched entry
    assert_eq!(pdb_file.dereference_forwarder(5), 5);
    // rendering it shows an opaque forward declaration
    let text = pdb_file
        .reconstruct_type_by_type_index(
            5,
            PrimitiveReconstructionFlavor::Portable,
            false,
            false,
            false,
        )
        .unwrap();
    assert_eq!(text, "class Orphan;\n");
}

#[test]
fn complete_type_list_keeps_insertion_order_and_synthesizes_names() {
    let a = record(16, TypeKind::Class, "Alpha", false);
    let anon = record(17, TypeKind::Union, "<unnamed-tag>", false);
    let b = record(18, TypeKind::Enumeration, "Beta", false);
    let other = record(19, TypeKind::Other, "ignored", false);
    let pdb_file = PdbFile::from_records("demo.pdb".to_string(), 0, vec![a, anon, b, other]);
    let names: Vec<String> = pdb_file
        .complete_type_list
        .iter()
        .map(|p| p.0.clone())
        .collect();
    assert_eq!(names, vec!["Alpha", "_unnamed_17", "Beta"]);
    let indices: Vec<u32> = pdb_file.complete_type_list.iter().map(|p| p.1).collect();
    assert_eq!(indices, vec![16, 17, 18]);
}

#[test]
fn is_unnamed_type_recognizes_anonymous_tags() {
    assert!(is_unnamed_type(""));
    assert!(is_unnamed_type("<unnamed-tag>"));
    assert!(is_unnamed_type("<anonymous-tag>"));
    assert!(is_unnamed_type("__unnamed"));
    assert!(!is_unnamed_type("Foo"));
}

#[test]
fn lookup_by_name_and_unique_name() {
    let mut a = record(16, TypeKind::Class, "Alpha", false);
    a.unique_name = Some(".?AUAlpha@@".to_string());
    let fwd = record(17, TypeKind::Class, "Alpha", true);
    let pdb_file = PdbFile::from_records("demo.pdb".to_string(), 0, vec![a, fwd]);
    assert_eq!(pdb_file.lookup_type_index("Alpha"), Some(16));
    assert_eq!(pdb_file.lookup_type_index(".?AUAlpha@@"), Some(16));
    assert_eq!(pdb_file.lookup_type_index("Missing"), None);
}
