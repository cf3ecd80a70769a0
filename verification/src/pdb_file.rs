//! One loaded container: the record list, the complete-type list, and the
//! forwarder map, together with the reconstruction entry points that drive
//! the renderer and the dependency closure.

use vstd::prelude::*;
use crate::pdb_types::{
    TypeRecord, TypeKind, PrimitiveReconstructionFlavor, TypeSet, display_name_spec, display_name,
    sorted_unique, sorted_insert, max_excluding, lemma_sorted_insert_props, lemma_sorted_unique_len,
    lemma_max_excluding_props, spec_render, render_type, resolve_fwd, find_record,
};
use crate::sync_maps::{
    index_map_entries, index_map_new, index_map_insert, name_map_entries, name_map_new,
    name_map_insert, name_map_get,
};
use crate::error::ResymError;
use crate::strings::str_eq;

verus! {

// ---------------------------------------------------------------------------
// The index a load pass builds
// ---------------------------------------------------------------------------

/// The record kinds the loader indexes.
pub open spec fn is_aggregate_kind(k: TypeKind) -> bool {
    k is Class || k is Union || k is Enumeration
}

/// View of a name/index list as mathematical pairs.
pub open spec fn list_view(v: Seq<(String, u32)>) -> Seq<(Seq<char>, u32)> {
    v.map_values(|p: (String, u32)| (p.0@, p.1))
}

/// The ordered (display name, index) list of every complete aggregate or
/// enumeration record, in stream order.
pub open spec fn complete_list_of(records: Seq<TypeRecord>) -> Seq<(Seq<char>, u32)>
    decreases records.len(),
{
    if records.len() == 0 {
        Seq::empty()
    } else {
        let r = records.last();
        complete_list_of(records.drop_last()) + (if is_aggregate_kind(r.kind)
            && !r.is_forward_reference {
            seq![(display_name_spec(r.name@, r.index), r.index)]
        } else {
            Seq::empty()
        })
    }
}

/// The raw-name lookup the load pass builds: every complete aggregate or
/// enumeration record under its decoded name, later records winning.
pub open spec fn name_map_of(records: Seq<TypeRecord>) -> Map<Seq<char>, u32>
    decreases records.len(),
{
    if records.len() == 0 {
        Map::empty()
    } else {
        let m = name_map_of(records.drop_last());
        let r = records.last();
        if is_aggregate_kind(r.kind) && !r.is_forward_reference {
            m.insert(r.name@, r.index)
        } else {
            m
        }
    }
}

/// The pending forwarders: (decoded name, index) of every forward-declared
/// aggregate or enumeration record, in stream order.
pub open spec fn forwarders_of(records: Seq<TypeRecord>) -> Seq<(Seq<char>, u32)>
    decreases records.len(),
{
    if records.len() == 0 {
        Seq::empty()
    } else {
        let r = records.last();
        forwarders_of(records.drop_last()) + (if is_aggregate_kind(r.kind)
            && r.is_forward_reference {
            seq![(r.name@, r.index)]
        } else {
            Seq::empty()
        })
    }
}

/// Resolution of the pending forwarders against the name lookup: matched
/// ones point at their complete definition, unmatched ones are dropped.
pub open spec fn fwd_resolve_all(nm: Map<Seq<char>, u32>, fs: Seq<(Seq<char>, u32)>) -> Map<
    u32,
    u32,
>
    decreases fs.len(),
{
    if fs.len() == 0 {
        Map::empty()
    } else {
        let m = fwd_resolve_all(nm, fs.drop_last());
        let f = fs.last();
        if nm.dom().contains(f.0) {
            m.insert(f.1, nm[f.0])
        } else {
            m
        }
    }
}

/// The forwarder map a load pass leaves behind.
pub open spec fn forwarder_map_of(records: Seq<TypeRecord>) -> Map<u32, u32> {
    fwd_resolve_all(name_map_of(records), forwarders_of(records))
}

/// Record indices are distinct within one container.
pub open spec fn unique_indices(records: Seq<TypeRecord>) -> bool {
    forall|i: int, j: int|
        0 <= i < j < records.len() ==> records[i].index != records[j].index
}

// ---------------------------------------------------------------------------
// Name lookup
// ---------------------------------------------------------------------------

/// A complete aggregate or enumeration record answering to `n` by decoded
/// name or unique name.
pub open spec fn matches_name(r: TypeRecord, n: Seq<char>) -> bool {
    &&& is_aggregate_kind(r.kind)
    &&& !r.is_forward_reference
    &&& (r.name@ == n || (r.unique_name matches Some(u) && u@ == n))
}

/// The index the single name pass settles on: the last matching complete
/// record, if any.
pub open spec fn find_by_name(records: Seq<TypeRecord>, n: Seq<char>) -> Option<u32>
    decreases records.len(),
{
    if records.len() == 0 {
        None
    } else if matches_name(records.last(), n) {
        Some(records.last().index)
    } else {
        find_by_name(records.drop_last(), n)
    }
}

// ---------------------------------------------------------------------------
// The dependency closure
// ---------------------------------------------------------------------------

/// Folds a list of indices into an already-sorted set.
pub open spec fn insert_all(acc: Seq<u32>, s: Seq<u32>) -> Seq<u32>
    decreases s.len(),
{
    if s.len() == 0 {
        acc
    } else {
        insert_all(sorted_insert(acc, s[0]), s.drop_first())
    }
}

/// The dependency text the closure loop accumulates: repeatedly render the
/// numerically greatest needed index not yet processed, merge what it
/// references into the needed set, and move it to the processed set. `None`
/// when some needed index resolves to no record.
pub open spec fn closure_text(
    records: Seq<TypeRecord>,
    fwd: Map<u32, u32>,
    f: PrimitiveReconstructionFlavor,
    ac: bool,
    needed: Seq<u32>,
    processed: Seq<u32>,
) -> Option<Seq<char>>
    decreases 0x1_0000_0000 - processed.len() when sorted_unique(processed) via closure_text_decreases
{
    match max_excluding(needed, processed) {
        None => Some(Seq::empty()),
        Some(m) => match spec_render(records, fwd, f, ac, m) {
            None => None,
            Some(tr) => match closure_text(
                records,
                fwd,
                f,
                ac,
                insert_all(needed, tr.1),
                sorted_insert(processed, m),
            ) {
                None => None,
                Some(rest) => Some(tr.0 + rest),
            },
        },
    }
}

#[via_fn]
proof fn closure_text_decreases(
    records: Seq<TypeRecord>,
    fwd: Map<u32, u32>,
    f: PrimitiveReconstructionFlavor,
    ac: bool,
    needed: Seq<u32>,
    processed: Seq<u32>,
) {
    lemma_max_excluding_props(needed, processed);
    if max_excluding(needed, processed) is Some {
        let m = max_excluding(needed, processed).unwrap();
        lemma_sorted_insert_props(processed, m);
        lemma_sorted_unique_len(sorted_insert(processed, m));
    }
}

/// The optional comment header above a reconstruction.
pub open spec fn header_text(path: Seq<char>) -> Seq<char> {
    "// "@ + path + "\n\n"@
}

pub open spec fn opt_header(h: bool, path: Seq<char>) -> Seq<char> {
    if h {
        header_text(path)
    } else {
        Seq::empty()
    }
}

/// What reconstruction of one index produces: the rendered type alone, or
/// the dependency texts followed by it; `None` when an index resolves to no
/// record.
pub open spec fn spec_reconstruct(
    records: Seq<TypeRecord>,
    fwd: Map<u32, u32>,
    f: PrimitiveReconstructionFlavor,
    ac: bool,
    header: bool,
    deps: bool,
    idx: u32,
    path: Seq<char>,
) -> Option<Seq<char>> {
    match spec_render(records, fwd, f, ac, idx) {
        None => None,
        Some(tr) => if !deps {
            Some(opt_header(header, path) + tr.0)
        } else {
            match closure_text(
                records,
                fwd,
                f,
                ac,
                tr.1,
                sorted_insert(Seq::empty(), idx),
            ) {
                None => None,
                Some(dep_text) => Some(opt_header(header, path) + dep_text + tr.0),
            }
        },
    }
}

fn build_header(h: bool, path: &str) -> (r: String)
    ensures
        r@ == opt_header(h, path@),
{
    if h {
        let mut s = "// ".to_owned();
        s.append(path);
        s.append("\n\n");
        s
    } else {
        String::new()
    }
}

// ---------------------------------------------------------------------------
// PdbFile
// ---------------------------------------------------------------------------

/// One loaded container, indexed once: the decoded records, the ordered list
/// of complete types, and the forwarder map shared read-only with renderer
/// invocations.
pub struct PdbFile {
    pub complete_type_list: Vec<(String, u32)>,
    pub forwarder_to_complete_type: dashmap::DashMap<u32, u32>,
    pub machine_type: u16,
    pub file_path: String,
    pub records: Vec<TypeRecord>,
}

impl PdbFile {
    /// The load invariant: the list and the forwarder map are exactly what
    /// one pass over the records builds.
    pub open spec fn wf(&self) -> bool {
        &&& unique_indices(self.records@)
        &&& list_view(self.complete_type_list@) == complete_list_of(self.records@)
        &&& index_map_entries(self.forwarder_to_complete_type) == forwarder_map_of(self.records@)
    }

    /// Indexes a decoded container: builds the complete-type list and
    /// resolves every pending forwarder against the name lookup.
    pub fn from_records(file_path: String, machine_type: u16, records: Vec<TypeRecord>) -> (r:
        PdbFile)
        requires
            unique_indices(records@),
        ensures
            r.wf(),
            r.records@ == records@,
            r.file_path@ == file_path@,
            r.machine_type == machine_type,
    {
        let mut pdb_file = PdbFile {
            complete_type_list: Vec::new(),
            forwarder_to_complete_type: index_map_new(),
            machine_type,
            file_path,
            records,
        };
        pdb_file.load_symbols();
        pdb_file
    }

    /// The single pass of the loader: complete aggregates and enumerations
    /// go to the list and the name lookup, forward references are stashed
    /// and then resolved against the finished lookup.
    fn load_symbols(&mut self)
        requires
            old(self).complete_type_list@.len() == 0,
            index_map_entries(old(self).forwarder_to_complete_type) =~= Map::empty(),
        ensures
            final(self).records@ == old(self).records@,
            final(self).file_path@ == old(self).file_path@,
            final(self).machine_type == old(self).machine_type,
            list_view(final(self).complete_type_list@) == complete_list_of(old(self).records@),
            index_map_entries(final(self).forwarder_to_complete_type) == forwarder_map_of(
                old(self).records@,
            ),
    {
        let mut complete_symbol_map = name_map_new();
        let mut forwarders: Vec<(String, u32)> = Vec::new();
        let n = self.records.len();
        proof {
            assert(self.records@.take(0) =~= Seq::<TypeRecord>::empty());
            assert(list_view(self.complete_type_list@) =~= Seq::<(Seq<char>, u32)>::empty());
            assert(list_view(forwarders@) =~= Seq::<(Seq<char>, u32)>::empty());
        }
        for i in 0..n
            invariant
                n == self.records@.len(),
                self.records@ == old(self).records@,
                self.file_path@ == old(self).file_path@,
                self.machine_type == old(self).machine_type,
                index_map_entries(self.forwarder_to_complete_type) =~= Map::empty(),
                list_view(self.complete_type_list@) == complete_list_of(
                    self.records@.take(i as int),
                ),
                name_map_entries(complete_symbol_map) == name_map_of(self.records@.take(i as int)),
                list_view(forwarders@) == forwarders_of(self.records@.take(i as int)),
        {
            let ghost pre_list = self.complete_type_list@;
            let ghost pre_fwds = forwarders@;
            let is_aggregate = matches!(
                self.records[i].kind,
                TypeKind::Class | TypeKind::Union | TypeKind::Enumeration
            );
            if is_aggregate {
                if self.records[i].is_forward_reference {
                    let nm = self.records[i].name.clone();
                    let ti = self.records[i].index;
                    forwarders.push((nm, ti));
                } else {
                    let nm = self.records[i].name.clone();
                    let ti = self.records[i].index;
                    name_map_insert(&mut complete_symbol_map, nm, ti);
                    let disp = display_name(self.records[i].name.as_str(), ti);
                    self.complete_type_list.push((disp, ti));
                }
            }
            proof {
                let rs = self.records@;
                assert(rs.take(i + 1).drop_last() =~= rs.take(i as int));
                assert(rs.take(i + 1).last() == rs[i as int]);
                assert(list_view(self.complete_type_list@) =~= complete_list_of(rs.take(i + 1)))
                    by {
                    if self.complete_type_list@ != pre_list {
                        assert(list_view(self.complete_type_list@) =~= list_view(pre_list).push(
                            (
                                display_name_spec(rs[i as int].name@, rs[i as int].index),
                                rs[i as int].index,
                            ),
                        ));
                    } else {
                        assert(list_view(self.complete_type_list@) =~= list_view(pre_list));
                    }
                }
                assert(list_view(forwarders@) =~= forwarders_of(rs.take(i + 1))) by {
                    if forwarders@ != pre_fwds {
                        assert(list_view(forwarders@) =~= list_view(pre_fwds).push(
                            (rs[i as int].name@, rs[i as int].index),
                        ));
                    } else {
                        assert(list_view(forwarders@) =~= list_view(pre_fwds));
                    }
                }
            }
        }
        proof {
            assert(self.records@.take(n as int) =~= self.records@);
        }
        // Resolve the stashed forwarders against the now-immutable lookup.
        let nf = forwarders.len();
        proof {
            assert(list_view(forwarders@).take(0) =~= Seq::<(Seq<char>, u32)>::empty());
        }
        for j in 0..nf
            invariant
                nf == forwarders@.len(),
                self.records@ == old(self).records@,
                self.file_path@ == old(self).file_path@,
                self.machine_type == old(self).machine_type,
                list_view(self.complete_type_list@) == complete_list_of(self.records@),
                name_map_entries(complete_symbol_map) == name_map_of(self.records@),
                list_view(forwarders@) == forwarders_of(self.records@),
                index_map_entries(self.forwarder_to_complete_type) == fwd_resolve_all(
                    name_map_of(self.records@),
                    list_view(forwarders@).take(j as int),
                ),
        {
            let ghost fv = list_view(forwarders@);
            match name_map_get(&complete_symbol_map, forwarders[j].0.as_str()) {
                Some(complete_type_index) => {
                    let fi = forwarders[j].1;
                    index_map_insert(
                        &mut self.forwarder_to_complete_type,
                        fi,
                        complete_type_index,
                    );
                },
                None => (),
            }
            proof {
                assert(fv.take(j + 1).drop_last() =~= fv.take(j as int));
                assert(fv.take(j + 1).last() == fv[j as int]);
                assert(fv[j as int] == (forwarders@[j as int].0@, forwarders@[j as int].1));
                assert(index_map_entries(self.forwarder_to_complete_type) =~= fwd_resolve_all(
                    name_map_of(self.records@),
                    fv.take(j + 1),
                ));
            }
        }
        proof {
            assert(list_view(forwarders@).take(nf as int) =~= list_view(forwarders@));
        }
    }

    /// Dereferences a forward declaration to its complete definition; an
    /// index with no forwarder entry comes back unchanged.
    pub fn dereference_forwarder(&self, idx: u32) -> (r: u32)
        ensures
            r == resolve_fwd(index_map_entries(self.forwarder_to_complete_type), idx),
    {
        crate::pdb_types::resolve_forwarder(&self.forwarder_to_complete_type, idx)
    }

    /// Looks a complete type up by decoded name or unique name, as the
    /// single name pass does.
    pub fn lookup_type_index(&self, name: &str) -> (r: Option<u32>)
        ensures
            r == find_by_name(self.records@, name@),
    {
        let n = self.records.len();
        let mut found: Option<u32> = None;
        proof {
            assert(self.records@.take(0) =~= Seq::<TypeRecord>::empty());
        }
        for i in 0..n
            invariant
                n == self.records@.len(),
                found == find_by_name(self.records@.take(i as int), name@),
        {
            let rec = &self.records[i];
            let is_aggregate = matches!(
                rec.kind,
                TypeKind::Class | TypeKind::Union | TypeKind::Enumeration
            );
            if is_aggregate && !rec.is_forward_reference {
                if str_eq(rec.name.as_str(), name) {
                    found = Some(rec.index);
                } else {
                    match &rec.unique_name {
                        Some(u) => {
                            if str_eq(u.as_str(), name) {
                                found = Some(rec.index);
                            }
                        },
                        None => (),
                    }
                }
            }
            proof {
                let rs = self.records@;
                assert(rs.take(i + 1).drop_last() =~= rs.take(i as int));
                assert(rs.take(i + 1).last() == rs[i as int]);
            }
        }
        proof {
            assert(self.records@.take(n as int) =~= self.records@);
        }
        found
    }

    /// Reconstructs the type of one index: the rendered type, preceded by
    /// the definitions of everything it transitively references when
    /// `reconstruct_dependencies` is set, and by the file header when
    /// `print_header` is set.
    pub fn reconstruct_type_by_type_index(
        &self,
        type_index: u32,
        flavor: PrimitiveReconstructionFlavor,
        print_header: bool,
        reconstruct_dependencies: bool,
        print_access_specifiers: bool,
    ) -> (r: Result<String, ResymError>)
        ensures
            ({
                let sr = spec_reconstruct(
                    self.records@,
                    index_map_entries(self.forwarder_to_complete_type),
                    flavor,
                    print_access_specifiers,
                    print_header,
                    reconstruct_dependencies,
                    type_index,
                    self.file_path@,
                );
                &&& (sr is Some <==> r is Ok)
                &&& (r matches Ok(s) ==> s@ == sr.unwrap())
                &&& (r matches Err(e) ==> e is RenderFailed)
            }),
    {
        self.reconstruct_type_by_type_index_internal(
            type_index,
            flavor,
            print_header,
            reconstruct_dependencies,
            print_access_specifiers,
        )
    }

    #[verifier::loop_isolation(false)]
    fn reconstruct_type_by_type_index_internal(
        &self,
        type_index: u32,
        flavor: PrimitiveReconstructionFlavor,
        print_header: bool,
        reconstruct_dependencies: bool,
        print_access_specifiers: bool,
    ) -> (r: Result<String, ResymError>)
        ensures
            ({
                let sr = spec_reconstruct(
                    self.records@,
                    index_map_entries(self.forwarder_to_complete_type),
                    flavor,
                    print_access_specifiers,
                    print_header,
                    reconstruct_dependencies,
                    type_index,
                    self.file_path@,
                );
                &&& (sr is Some <==> r is Ok)
                &&& (r matches Ok(s) ==> s@ == sr.unwrap())
                &&& (r matches Err(e) ==> e is RenderFailed)
            }),
    {
        let ghost gfwd = index_map_entries(self.forwarder_to_complete_type);
        let first = render_type(
            &self.records,
            &self.forwarder_to_complete_type,
            flavor,
            print_access_specifiers,
            type_index,
        );
        match first {
            Err(e) => Err(e),
            Ok((text, refs)) => {
                if !reconstruct_dependencies {
                    let mut out = build_header(print_header, self.file_path.as_str());
                    out.append(text.as_str());
                    Ok(out)
                } else {
                    let ghost init_needed = refs@;
                    let ghost init_processed = sorted_insert(Seq::<u32>::empty(), type_index);
                    let mut needed = refs;
                    let mut processed = TypeSet::new();
                    processed.insert(type_index);
                    let mut dep_text = String::new();
                    proof {
                        assert(dep_text@ + closure_text(
                            self.records@,
                            gfwd,
                            flavor,
                            print_access_specifiers,
                            needed@,
                            processed@,
                        ).unwrap() =~= closure_text(
                            self.records@,
                            gfwd,
                            flavor,
                            print_access_specifiers,
                            needed@,
                            processed@,
                        ).unwrap());
                    }
                    loop
                        invariant
                            needed.wf(),
                            processed.wf(),
                            ({
                                let init = closure_text(
                                    self.records@,
                                    gfwd,
                                    flavor,
                                    print_access_specifiers,
                                    init_needed,
                                    init_processed,
                                );
                                let cur = closure_text(
                                    self.records@,
                                    gfwd,
                                    flavor,
                                    print_access_specifiers,
                                    needed@,
                                    processed@,
                                );
                                &&& (init is Some <==> cur is Some)
                                &&& (cur matches Some(rest) ==> init == Some(dep_text@ + rest))
                            }),
                            gfwd == index_map_entries(self.forwarder_to_complete_type),
                        decreases 0x1_0000_0000 - processed@.len(),
                    {
                        proof {
                            lemma_sorted_unique_len(processed@);
                            lemma_max_excluding_props(needed@, processed@);
                        }
                        let m_opt = needed.max_not_in(&processed);
                        match m_opt {
                            None => {
                                proof {
                                    assert(closure_text(
                                        self.records@,
                                        gfwd,
                                        flavor,
                                        print_access_specifiers,
                                        needed@,
                                        processed@,
                                    ) == Some(Seq::<char>::empty()));
                                    assert(dep_text@ + Seq::<char>::empty() =~= dep_text@);
                                    assert(closure_text(
                                        self.records@,
                                        gfwd,
                                        flavor,
                                        print_access_specifiers,
                                        init_needed,
                                        init_processed,
                                    ) == Some(dep_text@));
                                }
                                let mut out = build_header(print_header, self.file_path.as_str());
                                out.append(dep_text.as_str());
                                out.append(text.as_str());
                                proof {
                                    let fwdm = index_map_entries(self.forwarder_to_complete_type);
                                    let sren = spec_render(
                                        self.records@,
                                        fwdm,
                                        flavor,
                                        print_access_specifiers,
                                        type_index,
                                    );
                                    assert(sren matches Some(tr) && tr.0 == text@ && tr.1
                                        == init_needed);
                                    let sr = spec_reconstruct(
                                        self.records@,
                                        fwdm,
                                        flavor,
                                        print_access_specifiers,
                                        print_header,
                                        reconstruct_dependencies,
                                        type_index,
                                        self.file_path@,
                                    );
                                    assert(sr == Some(
                                        opt_header(print_header, self.file_path@) + dep_text@
                                            + text@,
                                    ));
                                }
                                return Ok(out);
                            },
                            Some(m) => {
                                let dep = render_type(
                                    &self.records,
                                    &self.forwarder_to_complete_type,
                                    flavor,
                                    print_access_specifiers,
                                    m,
                                );
                                match dep {
                                    Err(e) => {
                                        proof {
                                            assert(spec_render(
                                                self.records@,
                                                gfwd,
                                                flavor,
                                                print_access_specifiers,
                                                m,
                                            ) is None);
                                            assert(closure_text(
                                                self.records@,
                                                gfwd,
                                                flavor,
                                                print_access_specifiers,
                                                needed@,
                                                processed@,
                                            ) is None);
                                            let fwdm = index_map_entries(
                                                self.forwarder_to_complete_type,
                                            );
                                            let sren = spec_render(
                                                self.records@,
                                                fwdm,
                                                flavor,
                                                print_access_specifiers,
                                                type_index,
                                            );
                                            assert(sren matches Some(tr) && tr.1 == init_needed);
                                            let sr = spec_reconstruct(
                                                self.records@,
                                                fwdm,
                                                flavor,
                                                print_access_specifiers,
                                                print_header,
                                                reconstruct_dependencies,
                                                type_index,
                                                self.file_path@,
                                            );
                                            assert(sr is None);
                                        }
                                        return Err(e);
                                    },
                                    Ok((t, refs2)) => {
                                        let ghost pre_needed = needed@;
                                        let ghost pre_processed = processed@;
                                        let ghost pre_dep = dep_text@;
                                        dep_text.append(t.as_str());
                                        // merge what the dependency references
                                        let nr = refs2.len();
                                        proof {
                                            assert(refs2@.skip(0) =~= refs2@);
                                        }
                                        let mut k: usize = 0;
                                        while k < nr
                                            invariant
                                                nr == refs2@.len(),
                                                k <= nr,
                                                needed.wf(),
                                                insert_all(pre_needed, refs2@) == insert_all(
                                                    needed@,
                                                    refs2@.skip(k as int),
                                                ),
                                            decreases nr - k,
                                        {
                                            proof {
                                                let sp = refs2@.skip(k as int);
                                                assert(sp[0] == refs2@[k as int]);
                                                assert(sp.drop_first() =~= refs2@.skip(
                                                    k as int + 1,
                                                ));
                                            }
                                            needed.insert(refs2.get_at(k));
                                            k = k + 1;
                                        }
                                        proof {
                                            assert(refs2@.skip(nr as int).len() == 0);
                                        }
                                        processed.insert(m);
                                        proof {
                                            lemma_sorted_insert_props(pre_processed, m);
                                            lemma_sorted_unique_len(processed@);
                                            let cur_pre = closure_text(
                                                self.records@,
                                                gfwd,
                                                flavor,
                                                print_access_specifiers,
                                                pre_needed,
                                                pre_processed,
                                            );
                                            let cur = closure_text(
                                                self.records@,
                                                gfwd,
                                                flavor,
                                                print_access_specifiers,
                                                needed@,
                                                processed@,
                                            );
                                            assert(max_excluding(pre_needed, pre_processed)
                                                == Some(m));
                                            assert(spec_render(
                                                self.records@,
                                                gfwd,
                                                flavor,
                                                print_access_specifiers,
                                                m,
                                            ) == Some((t@, refs2@)));
                                            assert(needed@ == insert_all(pre_needed, refs2@));
                                            assert(processed@ == sorted_insert(pre_processed, m));
                                            assert(cur_pre == (match cur {
                                                None => None::<Seq<char>>,
                                                Some(rest) => Some(t@ + rest),
                                            }));
                                            if cur is Some {
                                                let rest = cur.unwrap();
                                                assert(pre_dep + (t@ + rest) =~= dep_text@ + rest);
                                            }
                                        }
                                    },
                                }
                            },
                        }
                    }
                }
            },
        }
    }

    /// Reconstructs a type found by decoded name or unique name: one pass
    /// over the records settles the index, then reconstruction proceeds as
    /// by index. Fails with `TypeNotFound` exactly when no complete record
    /// matches.
    pub fn reconstruct_type_by_name(
        &self,
        name: &str,
        flavor: PrimitiveReconstructionFlavor,
        print_header: bool,
        reconstruct_dependencies: bool,
        print_access_specifiers: bool,
    ) -> (r: Result<String, ResymError>)
        ensures
            find_by_name(self.records@, name@) is None ==> r == Err::<String, ResymError>(
                ResymError::TypeNotFound,
            ),
            ({
                find_by_name(self.records@, name@) matches Some(idx) ==> {
                    let sr = spec_reconstruct(
                        self.records@,
                        index_map_entries(self.forwarder_to_complete_type),
                        flavor,
                        print_access_specifiers,
                        print_header,
                        reconstruct_dependencies,
                        idx,
                        self.file_path@,
                    );
                    &&& (sr is Some <==> r is Ok)
                    &&& (r matches Ok(s) ==> s@ == sr.unwrap())
                    &&& (r matches Err(e) ==> e is RenderFailed)
                }
            }),
    {
        match self.lookup_type_index(name) {
            None => Err(ResymError::TypeNotFound),
            Some(idx) => self.reconstruct_type_by_type_index_internal(
                idx,
                flavor,
                print_header,
                reconstruct_dependencies,
                print_access_specifiers,
            ),
        }
    }
}

// ---------------------------------------------------------------------------
// Laws of the loaded index and of reconstruction
// ---------------------------------------------------------------------------

proof fn lemma_name_map_values(records: Seq<TypeRecord>, n: Seq<char>)
    requires
        name_map_of(records).dom().contains(n),
    ensures
        exists|i: int|
            0 <= i < records.len() && is_aggregate_kind(#[trigger] records[i].kind)
                && !records[i].is_forward_reference && records[i].name@ == n && records[i].index
                == name_map_of(records)[n],
    decreases records.len(),
{
    let r = records.last();
    if records.len() > 0 && is_aggregate_kind(r.kind) && !r.is_forward_reference && r.name@
        == n {
        assert(records[records.len() - 1] == r);
    } else {
        lemma_name_map_values(records.drop_last(), n);
        let i = choose|i: int|
            0 <= i < records.drop_last().len() && is_aggregate_kind(
                #[trigger] records.drop_last()[i].kind,
            ) && !records.drop_last()[i].is_forward_reference && records.drop_last()[i].name@ == n
                && records.drop_last()[i].index == name_map_of(records.drop_last())[n];
        assert(records[i] == records.drop_last()[i]);
    }
}

proof fn lemma_complete_in_list(records: Seq<TypeRecord>, i: int)
    requires
        0 <= i < records.len(),
        is_aggregate_kind(records[i].kind),
        !records[i].is_forward_reference,
    ensures
        exists|k: int|
            0 <= k < complete_list_of(records).len() && #[trigger] complete_list_of(records)[k].1
                == records[i].index,
    decreases records.len(),
{
    let cl = complete_list_of(records);
    if i == records.len() - 1 {
        assert(cl[cl.len() - 1].1 == records[i].index);
    } else {
        assert(records.drop_last()[i] == records[i]);
        lemma_complete_in_list(records.drop_last(), i);
        let k = choose|k: int|
            0 <= k < complete_list_of(records.drop_last()).len() && #[trigger] complete_list_of(
                records.drop_last(),
            )[k].1 == records.drop_last()[i].index;
        assert(cl[k].1 == records[i].index);
    }
}

proof fn lemma_fwd_resolve_entries(nm: Map<Seq<char>, u32>, fs: Seq<(Seq<char>, u32)>, k: u32)
    requires
        fwd_resolve_all(nm, fs).dom().contains(k),
    ensures
        exists|i: int|
            0 <= i < fs.len() && (#[trigger] fs[i]).1 == k && nm.dom().contains(fs[i].0)
                && nm[fs[i].0] == fwd_resolve_all(nm, fs)[k],
    decreases fs.len(),
{
    let f = fs.last();
    if fs.len() > 0 && nm.dom().contains(f.0) && f.1 == k {
        assert(fs[fs.len() - 1] == f);
    } else {
        lemma_fwd_resolve_entries(nm, fs.drop_last(), k);
        let i = choose|i: int|
            0 <= i < fs.drop_last().len() && (#[trigger] fs.drop_last()[i]).1 == k
                && nm.dom().contains(fs.drop_last()[i].0) && nm[fs.drop_last()[i].0]
                == fwd_resolve_all(nm, fs.drop_last())[k];
        assert(fs[i] == fs.drop_last()[i]);
    }
}

proof fn lemma_forwarders_are_fwd(records: Seq<TypeRecord>, i: int)
    requires
        0 <= i < forwarders_of(records).len(),
    ensures
        exists|j: int|
            0 <= j < records.len() && is_aggregate_kind(#[trigger] records[j].kind)
                && records[j].is_forward_reference && records[j].index == forwarders_of(
                records,
            )[i].1,
    decreases records.len(),
{
    let fs = forwarders_of(records);
    let r = records.last();
    if records.len() > 0 && is_aggregate_kind(r.kind) && r.is_forward_reference && i == fs.len()
        - 1 {
        assert(records[records.len() - 1] == r);
        assert(fs[i].1 == r.index);
    } else {
        assert(i < forwarders_of(records.drop_last()).len());
        lemma_forwarders_are_fwd(records.drop_last(), i);
        let j = choose|j: int|
            0 <= j < records.drop_last().len() && is_aggregate_kind(
                #[trigger] records.drop_last()[j].kind,
            ) && records.drop_last()[j].is_forward_reference && records.drop_last()[j].index
                == forwarders_of(records.drop_last())[i].1;
        assert(records[j] == records.drop_last()[j]);
        assert(fs[i] == forwarders_of(records.drop_last())[i]);
    }
}

/// Under distinct indices, looking an index up finds exactly that record.
pub proof fn lemma_find_record_unique(records: Seq<TypeRecord>, j: int)
    requires
        unique_indices(records),
        0 <= j < records.len(),
    ensures
        find_record(records, records[j].index) == Some(records[j]),
    decreases records.len(),
{
    if records[0].index == records[j].index {
        assert(j == 0);
    } else {
        let d = records.drop_first();
        assert(unique_indices(d)) by {
            assert forall|a: int, b: int| 0 <= a < b < d.len() implies d[a].index
                != d[b].index by {
                assert(d[a] == records[a + 1] && d[b] == records[b + 1]);
            }
        }
        assert(d[j - 1] == records[j]);
        lemma_find_record_unique(d, j - 1);
    }
}

/// Law: in a loaded container, every forwarder-map entry leads from a
/// forward-declared record to the index of a complete record that stands in
/// the complete-type list; no entry's target is itself forward-declared.
pub proof fn lemma_forwarder_targets_complete(pf: &PdbFile)
    requires
        pf.wf(),
    ensures
        forall|k: u32|
            #[trigger] index_map_entries(pf.forwarder_to_complete_type).dom().contains(k) ==> {
                let v = index_map_entries(pf.forwarder_to_complete_type)[k];
                &&& exists|p: int|
                    0 <= p < list_view(pf.complete_type_list@).len() && (#[trigger] list_view(
                        pf.complete_type_list@,
                    )[p]).1 == v
                &&& (find_record(pf.records@, v) matches Some(r) && !r.is_forward_reference
                    && is_aggregate_kind(r.kind))
                &&& (find_record(pf.records@, k) matches Some(rf) && rf.is_forward_reference)
            },
{
    let records = pf.records@;
    let entries = index_map_entries(pf.forwarder_to_complete_type);
    let nm = name_map_of(records);
    let fs = forwarders_of(records);
    assert forall|k: u32| #[trigger] entries.dom().contains(k) implies {
        let v = entries[k];
        &&& exists|p: int|
            0 <= p < list_view(pf.complete_type_list@).len() && (#[trigger] list_view(
                pf.complete_type_list@,
            )[p]).1 == v
        &&& (find_record(records, v) matches Some(r) && !r.is_forward_reference
            && is_aggregate_kind(r.kind))
        &&& (find_record(records, k) matches Some(rf) && rf.is_forward_reference)
    } by {
        let v = entries[k];
        lemma_fwd_resolve_entries(nm, fs, k);
        let fi = choose|i: int|
            0 <= i < fs.len() && (#[trigger] fs[i]).1 == k && nm.dom().contains(fs[i].0)
                && nm[fs[i].0] == fwd_resolve_all(nm, fs)[k];
        lemma_name_map_values(records, fs[fi].0);
        let ci = choose|i: int|
            0 <= i < records.len() && is_aggregate_kind(#[trigger] records[i].kind)
                && !records[i].is_forward_reference && records[i].name@ == fs[fi].0
                && records[i].index == nm[fs[fi].0];
        assert(records[ci].index == v);
        lemma_complete_in_list(records, ci);
        lemma_find_record_unique(records, ci);
        lemma_forwarders_are_fwd(records, fi);
        let rj = choose|j: int|
            0 <= j < records.len() && is_aggregate_kind(#[trigger] records[j].kind)
                && records[j].is_forward_reference && records[j].index == forwarders_of(
                records,
            )[fi].1;
        lemma_find_record_unique(records, rj);
    }
}

/// Law: without dependencies a reconstruction is exactly the one rendered
/// block; with them it always ends with exactly that block.
pub proof fn lemma_reconstruct_shape(
    records: Seq<TypeRecord>,
    fwd: Map<u32, u32>,
    f: PrimitiveReconstructionFlavor,
    ac: bool,
    idx: u32,
    path: Seq<char>,
)
    ensures
        spec_reconstruct(records, fwd, f, ac, false, false, idx, path) matches Some(t) ==> t
            == spec_render(records, fwd, f, ac, idx).unwrap().0,
        spec_reconstruct(records, fwd, f, ac, false, true, idx, path) matches Some(t) ==> exists|
            p: Seq<char>,
        | t == #[trigger] (p + spec_render(records, fwd, f, ac, idx).unwrap().0),
{
    if spec_reconstruct(records, fwd, f, ac, false, false, idx, path) is Some {
        let tr = spec_render(records, fwd, f, ac, idx).unwrap();
        assert(Seq::<char>::empty() + tr.0 =~= tr.0);
    }
    if spec_reconstruct(records, fwd, f, ac, false, true, idx, path) is Some {
        let t = spec_reconstruct(records, fwd, f, ac, false, true, idx, path).unwrap();
        let tr = spec_render(records, fwd, f, ac, idx).unwrap();
        let dep = closure_text(
            records,
            fwd,
            f,
            ac,
            tr.1,
            sorted_insert(Seq::empty(), idx),
        ).unwrap();
        assert(t == (Seq::<char>::empty() + dep) + tr.0);
    }
}

/// Law: reconstruction is a function of the container and the request
/// alone, so repeating it against an unmodified slot yields identical text.
pub proof fn lemma_reconstruct_idempotent(
    records: Seq<TypeRecord>,
    fwd: Map<u32, u32>,
    f: PrimitiveReconstructionFlavor,
    ac: bool,
    header: bool,
    deps: bool,
    idx: u32,
    path: Seq<char>,
    t1: Seq<char>,
    t2: Seq<char>,
)
    requires
        Some(t1) == spec_reconstruct(records, fwd, f, ac, header, deps, idx, path),
        Some(t2) == spec_reconstruct(records, fwd, f, ac, header, deps, idx, path),
    ensures
        t1 == t2,
{
}

/// Law: the closure loop only ever selects an index it has not processed,
/// so each reachable index is rendered as a dependency at most once; that
/// the loop ends at all is the decreases measure of `closure_text`.
pub proof fn lemma_closure_selects_fresh(needed: Seq<u32>, processed: Seq<u32>)
    ensures
        max_excluding(needed, processed) matches Some(m) ==> needed.contains(m)
            && !processed.contains(m),
{
    lemma_max_excluding_props(needed, processed);
}

} // verus!
