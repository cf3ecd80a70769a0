//! The slot registry and command dispatcher: at most two loaded containers,
//! one command in, exactly one result out. The queues and worker threads
//! that feed this dispatcher live outside the library; every decision they
//! relay goes through `process_command`.

use vstd::prelude::*;
use crate::pdb_file::{PdbFile, unique_indices, find_by_name, spec_reconstruct, list_view};
use crate::pdb_types::{TypeRecord, PrimitiveReconstructionFlavor};
use crate::filtering::{
    filter_type_list, merge_type_lists, entry_matches, regex_pattern_valid, dedupe_by_name,
};
use crate::frontend::{FrontendCommand, TypeList};
use crate::diffing::{diff_type_by_name, spec_diff_entries, spec_diff_merged};
use crate::sync_maps::index_map_entries;
use crate::error::ResymError;

verus! {

/// Identifier of one container binding: 0 is the primary slot, 1 the
/// comparison target.
pub type PDBSlot = usize;

/// The number of slots the backend holds.
pub const SLOT_COUNT: usize = 2;

/// One request to the backend, carrying everything the operation needs.
pub enum BackendCommand {
    /// Binds an already-decoded container to a slot: path, machine type and
    /// the decoded records.
    LoadPDB(PDBSlot, String, u16, Vec<TypeRecord>),
    UnloadPDB(PDBSlot),
    /// Pattern, case-insensitive flag, regular-expression flag.
    UpdateTypeFilter(PDBSlot, String, bool, bool),
    UpdateTypeFilterMerged(Vec<PDBSlot>, String, bool, bool),
    /// Index, flavor, print header, reconstruct dependencies, print access
    /// specifiers.
    ReconstructTypeByIndex(PDBSlot, u32, PrimitiveReconstructionFlavor, bool, bool, bool),
    DiffTypeByName(PDBSlot, PDBSlot, String, PrimitiveReconstructionFlavor, bool, bool, bool),
}

/// The union of the named slots' complete-type lists, deduplicated by
/// display name after each union step.
pub open spec fn merged_lists(
    slots: Seq<Option<PdbFile>>,
    req: Seq<usize>,
    acc: Seq<(Seq<char>, u32)>,
) -> Seq<(Seq<char>, u32)>
    decreases req.len(),
{
    if req.len() == 0 {
        acc
    } else {
        let s = req[0];
        let acc2 = if s < slots.len() && slots[s as int] is Some {
            dedupe_by_name(
                acc + list_view(slots[s as int].unwrap().complete_type_list@),
                Set::empty(),
            )
        } else {
            acc
        };
        merged_lists(slots, req.drop_first(), acc2)
    }
}

/// The slot registry.
pub struct Backend {
    pub slots: Vec<Option<PdbFile>>,
}

impl Backend {
    /// Both slots exist and every loaded container is well formed.
    pub open spec fn wf(&self) -> bool {
        &&& self.slots@.len() == SLOT_COUNT
        &&& forall|s: int|
            0 <= s < self.slots@.len() ==> (#[trigger] self.slots@[s] matches Some(p) ==> p.wf())
    }

    /// A backend with both slots empty.
    pub fn new() -> (r: Backend)
        ensures
            r.wf(),
            forall|s: int| 0 <= s < r.slots@.len() ==> r.slots@[s] is None,
    {
        let mut slots: Vec<Option<PdbFile>> = Vec::new();
        slots.push(None);
        slots.push(None);
        Backend { slots }
    }

    /// Executes one command to completion and produces its single result.
    /// No failure of one command touches the other slot or ends the
    /// backend: every error comes back as a value on the result channel.
    #[verifier::loop_isolation(false)]
    pub fn process_command(&mut self, cmd: BackendCommand) -> (r: FrontendCommand)
        requires
            old(self).wf(),
        ensures
            final(self).wf(),
            ({
                let os = old(self).slots@;
                let fs = final(self).slots@;
                match cmd {
                    BackendCommand::LoadPDB(slot, path, mt, records) => if slot >= 2 {
                        fs == os && r == FrontendCommand::LoadPDBResult(
                            Err(ResymError::InvalidSlot(slot)),
                        )
                    } else if !unique_indices(records@) {
                        fs == os && (r matches FrontendCommand::LoadPDBResult(res)
                            && res matches Err(e) && e is LoadFailed)
                    } else {
                        &&& (fs[slot as int] matches Some(p) && p.wf() && p.records@ == records@
                            && p.file_path@ == path@ && p.machine_type == mt)
                        &&& (forall|k: int|
                            0 <= k < os.len() && k != slot ==> fs[k] == os[k])
                        &&& r == FrontendCommand::LoadPDBResult(Ok::<usize, ResymError>(slot))
                    },
                    BackendCommand::UnloadPDB(slot) => if slot >= 2 {
                        fs == os && r == FrontendCommand::LoadPDBResult(
                            Err(ResymError::InvalidSlot(slot)),
                        )
                    } else {
                        &&& fs[slot as int] is None
                        &&& (forall|k: int|
                            0 <= k < os.len() && k != slot ==> fs[k] == os[k])
                        &&& r == FrontendCommand::LoadPDBResult(Ok::<usize, ResymError>(slot))
                    },
                    BackendCommand::UpdateTypeFilter(slot, pattern, ci, re) => fs == os && (
                    if slot >= 2 || os[slot as int] is None || (re && !regex_pattern_valid(
                        pattern@,
                    )) {
                        r matches FrontendCommand::UpdateFilteredTypes(v) && v@.len() == 0
                    } else {
                        r matches FrontendCommand::UpdateFilteredTypes(v) && list_view(v@)
                            == list_view(
                            os[slot as int].unwrap().complete_type_list@,
                        ).filter((|e: (Seq<char>, u32)| entry_matches(e.0, pattern@, ci, re)))
                    }),
                    BackendCommand::UpdateTypeFilterMerged(req, pattern, ci, re) => fs == os
                        && (if re && !regex_pattern_valid(pattern@) {
                        r matches FrontendCommand::UpdateFilteredTypes(v) && v@.len() == 0
                    } else {
                        r matches FrontendCommand::UpdateFilteredTypes(v) && list_view(v@)
                            == merged_lists(os, req@, Seq::empty()).filter(
                            (|e: (Seq<char>, u32)| entry_matches(e.0, pattern@, ci, re)),
                        )
                    }),
                    BackendCommand::ReconstructTypeByIndex(slot, ti, flavor, h, d, ac) => fs == os
                        && (if slot >= 2 {
                        r == FrontendCommand::ReconstructTypeResult(
                            Err(ResymError::InvalidSlot(slot)),
                        )
                    } else if os[slot as int] is None {
                        r == FrontendCommand::ReconstructTypeResult(
                            Err(ResymError::SlotEmpty(slot)),
                        )
                    } else {
                        let p = os[slot as int].unwrap();
                        let sr = spec_reconstruct(
                            p.records@,
                            index_map_entries(p.forwarder_to_complete_type),
                            flavor,
                            ac,
                            h,
                            d,
                            ti,
                            p.file_path@,
                        );
                        &&& (r matches FrontendCommand::ReconstructTypeResult(res) && (sr is Some
                            <==> res is Ok))
                        &&& (r matches FrontendCommand::ReconstructTypeResult(res)
                            && (res matches Ok(s) ==> s@ == sr.unwrap()))
                    }),
                    BackendCommand::DiffTypeByName(sa, sb, name, flavor, h, d, ac) => fs == os && (
                    if sa >= 2 || sb >= 2 {
                        r matches FrontendCommand::DiffTypeResult(res) && res matches Err(e)
                            && e is InvalidSlot
                    } else if os[sa as int] is None || os[sb as int] is None {
                        r matches FrontendCommand::DiffTypeResult(res) && res matches Err(e)
                            && e is SlotEmpty
                    } else {
                        let pa = os[sa as int].unwrap();
                        let pb = os[sb as int].unwrap();
                        let ia = find_by_name(pa.records@, name@);
                        let ib = find_by_name(pb.records@, name@);
                        let ta = spec_reconstruct(
                            pa.records@,
                            index_map_entries(pa.forwarder_to_complete_type),
                            flavor,
                            ac,
                            h,
                            d,
                            ia.unwrap(),
                            pa.file_path@,
                        );
                        let tb = spec_reconstruct(
                            pb.records@,
                            index_map_entries(pb.forwarder_to_complete_type),
                            flavor,
                            ac,
                            h,
                            d,
                            ib.unwrap(),
                            pb.file_path@,
                        );
                        &&& (r matches FrontendCommand::DiffTypeResult(res) && (res matches Err(e)
                            ==> (e is TypeNotFound || e is RenderFailed)))
                        &&& (ia is None ==> r == FrontendCommand::DiffTypeResult(
                            Err(ResymError::TypeNotFound),
                        ))
                        &&& (ia is Some && ib is Some && ta is Some && tb is Some ==> (
                        r matches FrontendCommand::DiffTypeResult(res) && res matches Ok(dt)
                            && dt.metadata@ == spec_diff_entries(ta.unwrap(), tb.unwrap())
                            && dt.data@ == spec_diff_merged(ta.unwrap(), tb.unwrap())))
                    }),
                }
            }),
    {
        match cmd {
            BackendCommand::LoadPDB(slot, path, mt, records) => {
                if slot >= SLOT_COUNT {
                    return FrontendCommand::LoadPDBResult(Err(ResymError::InvalidSlot(slot)));
                }
                if !indices_unique(&records) {
                    return FrontendCommand::LoadPDBResult(
                        Err(
                            ResymError::LoadFailed(
                                "duplicate type index in container".to_owned(),
                            ),
                        ),
                    );
                }
                // the new index is fully built before the old one is dropped
                let loaded = PdbFile::from_records(path, mt, records);
                self.slots[slot] = Some(loaded);
                FrontendCommand::LoadPDBResult(Ok(slot))
            },
            BackendCommand::UnloadPDB(slot) => {
                if slot >= SLOT_COUNT {
                    return FrontendCommand::LoadPDBResult(Err(ResymError::InvalidSlot(slot)));
                }
                self.slots[slot] = None;
                FrontendCommand::LoadPDBResult(Ok(slot))
            },
            BackendCommand::UpdateTypeFilter(slot, pattern, ci, re) => {
                if slot >= SLOT_COUNT {
                    return FrontendCommand::UpdateFilteredTypes(Vec::new());
                }
                match &self.slots[slot] {
                    None => FrontendCommand::UpdateFilteredTypes(Vec::new()),
                    Some(pdb_file) => {
                        match filter_type_list(
                            &pdb_file.complete_type_list,
                            pattern.as_str(),
                            ci,
                            re,
                        ) {
                            Ok(v) => FrontendCommand::UpdateFilteredTypes(v),
                            Err(_e) => FrontendCommand::UpdateFilteredTypes(Vec::new()),
                        }
                    },
                }
            },
            BackendCommand::UpdateTypeFilterMerged(req, pattern, ci, re) => {
                let mut acc: TypeList = Vec::new();
                let nr = req.len();
                proof {
                    assert(req@.skip(0) =~= req@);
                    assert(list_view(acc@) =~= Seq::<(Seq<char>, u32)>::empty());
                }
                for i in 0..nr
                    invariant
                        nr == req@.len(),
                        merged_lists(self.slots@, req@, Seq::empty()) == merged_lists(
                            self.slots@,
                            req@.skip(i as int),
                            list_view(acc@),
                        ),
                {
                    proof {
                        let sp = req@.skip(i as int);
                        assert(sp[0] == req@[i as int]);
                        assert(sp.drop_first() =~= req@.skip(i as int + 1));
                    }
                    let s = req[i];
                    if s < SLOT_COUNT {
                        match &self.slots[s] {
                            Some(pdb_file) => {
                                acc = merge_type_lists(&acc, &pdb_file.complete_type_list);
                            },
                            None => (),
                        }
                    }
                }
                proof {
                    assert(req@.skip(nr as int).len() == 0);
                }
                match filter_type_list(&acc, pattern.as_str(), ci, re) {
                    Ok(v) => FrontendCommand::UpdateFilteredTypes(v),
                    Err(_e) => FrontendCommand::UpdateFilteredTypes(Vec::new()),
                }
            },
            BackendCommand::ReconstructTypeByIndex(slot, ti, flavor, h, d, ac) => {
                if slot >= SLOT_COUNT {
                    return FrontendCommand::ReconstructTypeResult(
                        Err(ResymError::InvalidSlot(slot)),
                    );
                }
                match &self.slots[slot] {
                    None => FrontendCommand::ReconstructTypeResult(
                        Err(ResymError::SlotEmpty(slot)),
                    ),
                    Some(pdb_file) => FrontendCommand::ReconstructTypeResult(
                        pdb_file.reconstruct_type_by_type_index(ti, flavor, h, d, ac),
                    ),
                }
            },
            BackendCommand::DiffTypeByName(sa, sb, name, flavor, h, d, ac) => {
                if sa >= SLOT_COUNT {
                    return FrontendCommand::DiffTypeResult(Err(ResymError::InvalidSlot(sa)));
                }
                if sb >= SLOT_COUNT {
                    return FrontendCommand::DiffTypeResult(Err(ResymError::InvalidSlot(sb)));
                }
                if self.slots[sa].is_none() {
                    return FrontendCommand::DiffTypeResult(Err(ResymError::SlotEmpty(sa)));
                }
                if self.slots[sb].is_none() {
                    return FrontendCommand::DiffTypeResult(Err(ResymError::SlotEmpty(sb)));
                }
                match (&self.slots[sa], &self.slots[sb]) {
                    (Some(pdb_from), Some(pdb_to)) => FrontendCommand::DiffTypeResult(
                        diff_type_by_name(
                            pdb_from,
                            pdb_to,
                            name.as_str(),
                            flavor,
                            h,
                            d,
                            ac,
                        ),
                    ),
                    _ => FrontendCommand::DiffTypeResult(Err(ResymError::SlotEmpty(sa))),
                }
            },
        }
    }
}

/// Record indices are pairwise distinct.
fn indices_unique(records: &Vec<TypeRecord>) -> (r: bool)
    ensures
        r == unique_indices(records@),
{
    let n = records.len();
    for i in 0..n
        invariant
            n == records@.len(),
            forall|i2: int, j2: int|
                0 <= i2 < j2 < records@.len() && i2 < i ==> records@[i2].index
                    != records@[j2].index,
    {
        for j in (i + 1)..n
            invariant
                n == records@.len(),
                i < n,
                forall|i2: int, j2: int|
                    0 <= i2 < j2 < records@.len() && i2 < i ==> records@[i2].index
                        != records@[j2].index,
                forall|j2: int| i < j2 < j ==> records@[i as int].index != records@[j2].index,
        {
            if records[i].index == records[j].index {
                return false;
            }
        }
    }
    true
}

} // verus!
