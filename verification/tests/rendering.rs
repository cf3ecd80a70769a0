//! Exact rendered text: flavors, access specifiers, wrapper types, the
//! header, and the dependency closure.

use resym::error::ResymError;
use resym::pdb_file::PdbFile;
use resym::pdb_types::{
    AccessSpecifier, Enumerator, Member, PrimitiveKind, PrimitiveReconstructionFlavor, TypeKind,
    TypeRecord, TypeRef,
};

fn record(index: u32, kind: TypeKind, name: &str) -> TypeRecord {
    TypeRecord {
        index,
        kind,
        name: name.to_string(),
        unique_name: None,
        is_forward_reference: false,
        base_types: Vec::new(),
        members: Vec::new(),
        underlying: PrimitiveKind::I32,
        enumerators: Vec::new(),
    }
}

fn member(name: &str, type_ref: TypeRef, access: Option<AccessSpecifier>) -> Member {
    Member {
        name: name.to_string(),
        type_ref,
        access,
    }
}

#[test]
fn class_with_bases_members_and_wrappers() {
    let base = record(16, TypeKind::Class, "Base");
    let mut node = record(17, TypeKind::Class, "Node");
    node.base_types.push(16);
    node.members.push(member(
        "next",
        TypeRef::Pointer(Box::new(TypeRef::Named(17))),
        Some(AccessSpecifier::Public),
    ));
    node.members.push(member(
        "tag",
        TypeRef::Constant(Box::new(TypeRef::Primitive(PrimitiveKind::Char))),
        Some(AccessSpecifier::Private),
    ));
    node.members.push(member(
        "buf",
        TypeRef::Array(Box::new(TypeRef::Primitive(PrimitiveKind::U8)), 16),
        None,
    ));
    let pdb_file = PdbFile::from_records("demo.pdb".to_string(), 0, vec![base, node]);
    let text = pdb_file
        .reconstruct_type_by_type_index(
            17,
            PrimitiveReconstructionFlavor::Portable,
            false,
            false,
            true,
        )
        .unwrap();
    assert_eq!(
        text,
        "class Node : Base {\n  public: Node* next;\n  private: const char tag;\n  uint8_t buf[16];\n};\n"
    );
    // without the flag the access annotations disappear
    let plain = pdb_file
        .reconstruct_type_by_type_index(
            17,
            PrimitiveReconstructionFlavor::Portable,
            false,
            false,
            false,
        )
        .unwrap();
    assert_eq!(
        plain,
        "class Node : Base {\n  Node* next;\n  const char tag;\n  uint8_t buf[16];\n};\n"
    );
}

#[test]
fn primitive_flavors_differ() {
    let mut rec = record(16, TypeKind::Class, "Holder");
    rec.members.push(member(
        "v",
        TypeRef::Primitive(PrimitiveKind::U32),
        None,
    ));
    let pdb_file = PdbFile::from_records("demo.pdb".to_string(), 0, vec![rec]);
    let portable = pdb_file
        .reconstruct_type_by_type_index(
            16,
            PrimitiveReconstructionFlavor::Portable,
            false,
            false,
            false,
        )
        .unwrap();
    let microsoft = pdb_file
        .reconstruct_type_by_type_index(
            16,
            PrimitiveReconstructionFlavor::Microsoft,
            false,
            false,
            false,
        )
        .unwrap();
    let raw = pdb_file
        .reconstruct_type_by_type_index(
            16,
            PrimitiveReconstructionFlavor::Raw,
            false,
            false,
            false,
        )
        .unwrap();
    assert_eq!(portable, "class Holder {\n  uint32_t v;\n};\n");
    assert_eq!(microsoft, "class Holder {\n  unsigned int v;\n};\n");
    assert_eq!(raw, "class Holder {\n  ulong v;\n};\n");
}

#[test]
fn enumeration_renders_underlying_type_and_values() {
    let mut color = record(16, TypeKind::Enumeration, "Color");
    color.underlying = PrimitiveKind::U8;
    color.enumerators.push(Enumerator {
        name: "Red".to_string(),
        value: 0,
    });
    color.enumerators.push(Enumerator {
        name: "Dark".to_string(),
        value: -2,
    });
    let pdb_file = PdbFile::from_records("demo.pdb".to_string(), 0, vec![color]);
    let text = pdb_file
        .reconstruct_type_by_type_index(
            16,
            PrimitiveReconstructionFlavor::Portable,
            false,
            false,
            false,
        )
        .unwrap();
    assert_eq!(text, "enum Color : uint8_t {\n  Red = 0,\n  Dark = -2,\n};\n");
}

#[test]
fn header_names_the_container_path() {
    let mut rec = record(16, TypeKind::Class, "Holder");
    rec.members
        .push(member("v", TypeRef::Primitive(PrimitiveKind::Bool), None));
    let pdb_file = PdbFile::from_records("input.pdb".to_string(), 0, vec![rec]);
    let text = pdb_file
        .reconstruct_type_by_type_index(
            16,
            PrimitiveReconstructionFlavor::Portable,
            true,
            false,
            false,
        )
        .unwrap();
    assert_eq!(text, "// input.pdb\n\nclass Holder {\n  bool v;\n};\n");
}

#[test]
fn closure_appends_dependencies_before_the_requested_type() {
    // Leaf is referenced by Mid, Mid by Top; processing is highest-first.
    let mut leaf = record(16, TypeKind::Class, "Leaf");
    leaf.members
        .push(member("v", TypeRef::Primitive(PrimitiveKind::I32), None));
    let mut mid = record(17, TypeKind::Class, "Mid");
    mid.members
        .push(member("leaf", TypeRef::Named(16), None));
    let mut top = record(18, TypeKind::Class, "Top");
    top.members.push(member("mid", TypeRef::Named(17), None));
    let pdb_file = PdbFile::from_records("demo.pdb".to_string(), 0, vec![leaf, mid, top]);
    let flavor = PrimitiveReconstructionFlavor::Portable;
    let alone = pdb_file
        .reconstruct_type_by_type_index(18, flavor, false, false, false)
        .unwrap();
    assert_eq!(alone, "class Top {\n  Mid mid;\n};\n");
    let with_deps = pdb_file
        .reconstruct_type_by_type_index(18, flavor, false, true, false)
        .unwrap();
    // dependencies in processing order (17 first, which pulls in 16), then
    // the requested type verbatim at the end
    assert_eq!(
        with_deps,
        "class Mid {\n  Leaf leaf;\n};\nclass Leaf {\n  int32_t v;\n};\nclass Top {\n  Mid mid;\n};\n"
    );
    assert!(with_deps.ends_with(&alone));
}

#[test]
fn closure_visits_mutual_references_once_each() {
    let mut a = record(16, TypeKind::Class, "A");
    a.members.push(member(
        "b",
        TypeRef::Pointer(Box::new(TypeRef::Named(17))),
        None,
    ));
    let mut b = record(17, TypeKind::Class, "B");
    b.members.push(member(
        "a",
        TypeRef::Pointer(Box::new(TypeRef::Named(16))),
        None,
    ));
    let pdb_file = PdbFile::from_records("demo.pdb".to_string(), 0, vec![a, b]);
    let text = pdb_file
        .reconstruct_type_by_type_index(
            16,
            PrimitiveReconstructionFlavor::Portable,
            false,
            true,
            false,
        )
        .unwrap();
    assert_eq!(text, "class B {\n  A* a;\n};\nclass A {\n  B* b;\n};\n");
}

#[test]
fn reconstruction_is_idempotent() {
    let mut a = record(16, TypeKind::Class, "A");
    a.members.push(member("b", TypeRef::Named(17), None));
    let mut b = record(17, TypeKind::Class, "B");
    b.members
        .push(member("v", TypeRef::Primitive(PrimitiveKind::I64), None));
    let pdb_file = PdbFile::from_records("demo.pdb".to_string(), 0, vec![a, b]);
    let first = pdb_file
        .reconstruct_type_by_type_index(
            16,
            PrimitiveReconstructionFlavor::Portable,
            true,
            true,
            true,
        )
        .unwrap();
    let second = pdb_file
        .reconstruct_type_by_type_index(
            16,
            PrimitiveReconstructionFlavor::Portable,
            true,
            true,
            true,
        )
        .unwrap();
    assert_eq!(first, second);
}

#[test]
fn unresolvable_index_fails_with_render_error() {
    let rec = record(16, TypeKind::Class, "Holder");
    let pdb_file = PdbFile::from_records("demo.pdb".to_string(), 0, vec![rec]);
    let err = pdb_file
        .reconstruct_type_by_type_index(
            99,
            PrimitiveReconstructionFlavor::Portable,
            false,
            false,
            false,
        )
        .unwrap_err();
    assert!(matches!(err, ResymError::RenderFailed(99)));
    assert_eq!(err.message(), "failed to resolve type index 99");
}

#[test]
fn by_name_reconstruction_and_not_found() {
    let mut rec = record(16, TypeKind::Class, "Holder");
    rec.members
        .push(member("v", TypeRef::Primitive(PrimitiveKind::I16), None));
    let pdb_file = PdbFile::from_records("demo.pdb".to_string(), 0, vec![rec]);
    let text = pdb_file
        .reconstruct_type_by_name(
            "Holder",
            PrimitiveReconstructionFlavor::Portable,
            false,
            false,
            false,
        )
        .unwrap();
    assert_eq!(text, "class Holder {\n  int16_t v;\n};\n");
    let err = pdb_file
        .reconstruct_type_by_name(
            "Absent",
            PrimitiveReconstructionFlavor::Portable,
            false,
            false,
            false,
        )
        .unwrap_err();
    assert!(matches!(err, ResymError::TypeNotFound));
}
