//! Filtering, merged lists, the index-list component, and the backend's
//! command/result round trips.

use resym::backend::{Backend, BackendCommand};
use resym::error::ResymError;
use resym::filtering::{filter_type_list, merge_type_lists};
use resym::frontend::FrontendCommand;
use resym::index_list::{IndexListComponent, IndexListOrdering};
use resym::pdb_types::{
    Member, PrimitiveKind, PrimitiveReconstructionFlavor, TypeKind, TypeRecord, TypeRef,
};
use resym::diffing::DiffChange;

fn record(index: u32, kind: TypeKind, name: &str) -> TypeRecord {
    TypeRecord {
        index,
        kind,
        name: name.to_string(),
        unique_name: None,
        is_forward_reference: false,
        base_types: Vec::new(),
        members: Vec::new(),
        underlying: PrimitiveKind::I32,
        enumerators: Vec::new(),
    }
}

fn named_list(entries: &[(&str, u32)]) -> Vec<(String, u32)> {
    entries.iter().map(|(n, i)| (n.to_string(), *i)).collect()
}

#[test]
fn case_insensitive_filter_keeps_relative_order() {
    let list = named_list(&[("Foo", 1), ("foobar", 2), ("Bar", 3)]);
    let filtered = filter_type_list(&list, "Foo", true, false).unwrap();
    let names: Vec<&str> = filtered.iter().map(|p| p.0.as_str()).collect();
    assert_eq!(names, vec!["Foo", "foobar"]);
}

#[test]
fn case_sensitive_filter_is_exact() {
    let list = named_list(&[("Foo", 1), ("foobar", 2), ("Bar", 3)]);
    let filtered = filter_type_list(&list, "Foo", false, false).unwrap();
    let names: Vec<&str> = filtered.iter().map(|p| p.0.as_str()).collect();
    assert_eq!(names, vec!["Foo"]);
}

#[test]
fn empty_pattern_keeps_everything() {
    let list = named_list(&[("Foo", 1), ("Bar", 2)]);
    let filtered = filter_type_list(&list, "", false, false).unwrap();
    assert_eq!(filtered.len(), 2);
}

#[test]
fn regex_filter_anchors_and_invalid_pattern() {
    let list = named_list(&[("Foo", 1), ("foobar", 2), ("Bar", 3)]);
    let filtered = filter_type_list(&list, "^[Ff]oo", false, true).unwrap();
    let names: Vec<&str> = filtered.iter().map(|p| p.0.as_str()).collect();
    assert_eq!(names, vec!["Foo", "foobar"]);
    let err = filter_type_list(&list, "(", false, true).unwrap_err();
    assert!(matches!(err, ResymError::InvalidRegex));
}

#[test]
fn merged_lists_deduplicate_by_display_name() {
    let a = named_list(&[("Shared", 1), ("OnlyA", 2)]);
    let b = named_list(&[("Shared", 9)]);
    let merged = merge_type_lists(&a, &b);
    let names: Vec<&str> = merged.iter().map(|p| p.0.as_str()).collect();
    assert_eq!(names, vec!["Shared", "OnlyA"]);
    // the first occurrence wins, index included
    assert_eq!(merged[0].1, 1);
}

#[test]
fn index_list_component_orders_alphabetically() {
    let mut list: IndexListComponent<u32> = IndexListComponent::new(IndexListOrdering::Alphabetical);
    list.update_index_list(named_list(&[("b", 2), ("a", 1), ("c", 3)]));
    assert_eq!(list.len(), 3);
    assert_eq!(list.entry_at(0).0, "a");
    assert_eq!(list.entry_at(1).0, "b");
    assert_eq!(list.entry_at(2).0, "c");
    assert_eq!(list.selected_row(), usize::MAX);
    list.select_row(1);
    assert_eq!(list.selected_row(), 1);
}

#[test]
fn index_list_component_unordered_keeps_input() {
    let mut list: IndexListComponent<u32> = IndexListComponent::new(IndexListOrdering::Unordered);
    list.update_index_list(named_list(&[("b", 2), ("a", 1)]));
    assert_eq!(list.entry_at(0).0, "b");
    assert_eq!(list.entry_at(1).0, "a");
}

fn holder_records() -> Vec<TypeRecord> {
    let mut rec = record(16, TypeKind::Class, "Holder");
    rec.members.push(Member {
        name: "v".to_string(),
        type_ref: TypeRef::Primitive(PrimitiveKind::U32),
        access: None,
    });
    vec![rec]
}

#[test]
fn backend_load_filter_reconstruct_flow() {
    let mut backend = Backend::new();
    let r = backend.process_command(BackendCommand::LoadPDB(
        0,
        "demo.pdb".to_string(),
        0,
        holder_records(),
    ));
    assert!(matches!(r, FrontendCommand::LoadPDBResult(Ok(0))));

    let r = backend.process_command(BackendCommand::UpdateTypeFilter(
        0,
        "hold".to_string(),
        true,
        false,
    ));
    match r {
        FrontendCommand::UpdateFilteredTypes(list) => {
            assert_eq!(list.len(), 1);
            assert_eq!(list[0], ("Holder".to_string(), 16));
        }
        _ => panic!("expected a filtered list"),
    }

    let r = backend.process_command(BackendCommand::ReconstructTypeByIndex(
        0,
        16,
        PrimitiveReconstructionFlavor::Portable,
        false,
        false,
        false,
    ));
    match r {
        FrontendCommand::ReconstructTypeResult(Ok(text)) => {
            assert_eq!(text, "class Holder {\n  uint32_t v;\n};\n");
        }
        _ => panic!("expected a reconstruction"),
    }
}

#[test]
fn backend_rejects_bad_slots_and_empty_slots() {
    let mut backend = Backend::new();
    let r = backend.process_command(BackendCommand::ReconstructTypeByIndex(
        7,
        16,
        PrimitiveReconstructionFlavor::Portable,
        false,
        false,
        false,
    ));
    assert!(matches!(
        r,
        FrontendCommand::ReconstructTypeResult(Err(ResymError::InvalidSlot(7)))
    ));
    let r = backend.process_command(BackendCommand::ReconstructTypeByIndex(
        0,
        16,
        PrimitiveReconstructionFlavor::Portable,
        false,
        false,
        false,
    ));
    assert!(matches!(
        r,
        FrontendCommand::ReconstructTypeResult(Err(ResymError::SlotEmpty(0)))
    ));
    assert_eq!(
        ResymError::SlotEmpty(0).message(),
        "no container loaded in slot 0"
    );
}

#[test]
fn backend_load_rejects_duplicate_indices() {
    let mut backend = Backend::new();
    let dup = vec![
        record(16, TypeKind::Class, "A"),
        record(16, TypeKind::Class, "B"),
    ];
    let r = backend.process_command(BackendCommand::LoadPDB(0, "demo.pdb".to_string(), 0, dup));
    assert!(matches!(
        r,
        FrontendCommand::LoadPDBResult(Err(ResymError::LoadFailed(_)))
    ));
}

#[test]
fn backend_merged_filter_and_diff_by_name() {
    let mut backend = Backend::new();
    let mut rec_a = record(16, TypeKind::Class, "Shared");
    rec_a.members.push(Member {
        name: "v".to_string(),
        type_ref: TypeRef::Primitive(PrimitiveKind::U32),
        access: None,
    });
    let only_a = record(17, TypeKind::Class, "OnlyA");
    let mut rec_b = record(16, TypeKind::Class, "Shared");
    rec_b.members.push(Member {
        name: "v".to_string(),
        type_ref: TypeRef::Primitive(PrimitiveKind::U64),
        access: None,
    });
    backend.process_command(BackendCommand::LoadPDB(
        0,
        "a.pdb".to_string(),
        0,
        vec![rec_a, only_a],
    ));
    backend.process_command(BackendCommand::LoadPDB(
        1,
        "b.pdb".to_string(),
        0,
        vec![rec_b],
    ));

    let r = backend.process_command(BackendCommand::UpdateTypeFilterMerged(
        vec![0, 1],
        String::new(),
        false,
        false,
    ));
    match r {
        FrontendCommand::UpdateFilteredTypes(list) => {
            let names: Vec<&str> = list.iter().map(|p| p.0.as_str()).collect();
            assert_eq!(names, vec!["Shared", "OnlyA"]);
        }
        _ => panic!("expected a filtered list"),
    }

    let r = backend.process_command(BackendCommand::DiffTypeByName(
        0,
        1,
        "Shared".to_string(),
        PrimitiveReconstructionFlavor::Portable,
        false,
        false,
        false,
    ));
    match r {
        FrontendCommand::DiffTypeResult(Ok(diffed)) => {
            let kinds: Vec<DiffChange> = diffed.metadata.iter().map(|e| e.1).collect();
            assert_eq!(
                kinds,
                vec![
                    DiffChange::Unchanged,
                    DiffChange::ModifiedPair,
                    DiffChange::Unchanged,
                    DiffChange::Unchanged,
                ]
            );
            assert_eq!(
                diffed.data,
                "class Shared {\n  uint32_t v;\n  uint64_t v;\n};\n"
            );
        }
        _ => panic!("expected a diff"),
    }

    let r = backend.process_command(BackendCommand::DiffTypeByName(
        0,
        1,
        "OnlyA".to_string(),
        PrimitiveReconstructionFlavor::Portable,
        false,
        false,
        false,
    ));
    assert!(matches!(
        r,
        FrontendCommand::DiffTypeResult(Err(ResymError::TypeNotFound))
    ));

    let r = backend.process_command(BackendCommand::UnloadPDB(1));
    assert!(matches!(r, FrontendCommand::LoadPDBResult(Ok(1))));
    let r = backend.process_command(BackendCommand::DiffTypeByName(
        0,
        1,
        "Shared".to_string(),
        PrimitiveReconstructionFlavor::Portable,
        false,
        false,
        false,
    ));
    assert!(matches!(
        r,
        FrontendCommand::DiffTypeResult(Err(ResymError::SlotEmpty(1)))
    ));
}
