//! The decoded type model and the renderer: one record per type index, a
//! sorted set of type indices, and the functions that turn one record into
//! C-family source text together with the indices that text references.

use vstd::prelude::*;
use crate::strings::{dec_digits, int_text, contains_pattern, u64_to_string, i64_to_string};
use crate::sync_maps::{index_map_entries, index_map_get};
use crate::error::ResymError;

verus! {

// ---------------------------------------------------------------------------
// Data model
// ---------------------------------------------------------------------------

#[derive(Clone, Copy, Debug, PartialEq, Eq, Structural)]
pub enum TypeKind {
    Class,
    Union,
    Enumeration,
    Other,
}

#[derive(Clone, Copy, Debug, PartialEq, Eq, Structural)]
pub enum AccessSpecifier {
    Public,
    Protected,
    Private,
}

#[derive(Clone, Copy, Debug, PartialEq, Eq, Structural)]
pub enum PrimitiveKind {
    Void,
    Bool,
    Char,
    UChar,
    WChar,
    I8,
    U8,
    I16,
    U16,
    I32,
    U32,
    I64,
    U64,
    Float,
    Double,
}

#[derive(Clone, Copy, Debug, PartialEq, Eq, Structural)]
pub enum PrimitiveReconstructionFlavor {
    Portable,
    Microsoft,
    Raw,
}

/// How a member refers to a type: a built-in scalar, another record by
/// index, or a wrapper applied at the point of use.
#[derive(Debug)]
pub enum TypeRef {
    Primitive(PrimitiveKind),
    Named(u32),
    Pointer(Box<TypeRef>),
    Array(Box<TypeRef>, u64),
    Constant(Box<TypeRef>),
}

#[derive(Debug)]
pub struct Member {
    pub name: String,
    pub type_ref: TypeRef,
    pub access: Option<AccessSpecifier>,
}

#[derive(Debug)]
pub struct Enumerator {
    pub name: String,
    pub value: i64,
}

/// The decoded payload of one type record.
#[derive(Debug)]
pub struct TypeRecord {
    pub index: u32,
    pub kind: TypeKind,
    pub name: String,
    pub unique_name: Option<String>,
    pub is_forward_reference: bool,
    pub base_types: Vec<u32>,
    pub members: Vec<Member>,
    pub underlying: PrimitiveKind,
    pub enumerators: Vec<Enumerator>,
}

// ---------------------------------------------------------------------------
// Anonymous tags and display names
// ---------------------------------------------------------------------------

/// A decoded name that denotes an anonymous tag.
pub open spec fn is_unnamed_spec(n: Seq<char>) -> bool {
    ||| n.len() == 0
    ||| contains_pattern(n, "<unnamed-"@, false)
    ||| contains_pattern(n, "<anonymous-"@, false)
    ||| contains_pattern(n, "__unnamed"@, false)
}

/// Whether a decoded type name denotes an anonymous tag.
pub fn is_unnamed_type(name: &str) -> (r: bool)
    ensures
        r == is_unnamed_spec(name@),
{
    if name.unicode_len() == 0 {
        return true;
    }
    if crate::strings::str_contains(name, "<unnamed-", false) {
        return true;
    }
    if crate::strings::str_contains(name, "<anonymous-", false) {
        return true;
    }
    crate::strings::str_contains(name, "__unnamed", false)
}

/// The stable label a type is listed and rendered under: its own name, or a
/// synthetic one derived from its index for anonymous tags.
pub open spec fn display_name_spec(n: Seq<char>, idx: u32) -> Seq<char> {
    if is_unnamed_spec(n) {
        "_unnamed_"@ + dec_digits(idx as nat)
    } else {
        n
    }
}

/// Renders the display name for a record's name and index.
pub fn display_name(n: &str, idx: u32) -> (r: String)
    ensures
        r@ == display_name_spec(n@, idx),
{
    if is_unnamed_type(n) {
        let mut s = "_unnamed_".to_owned();
        s.append(u64_to_string(idx as u64).as_str());
        s
    } else {
        n.to_owned()
    }
}

// ---------------------------------------------------------------------------
// TypeSet: a sorted set of type indices
// ---------------------------------------------------------------------------

/// Strictly increasing, hence duplicate-free.
pub open spec fn sorted_unique(s: Seq<u32>) -> bool {
    forall|i: int, j: int| 0 <= i < j < s.len() ==> s[i] < s[j]
}

/// Number of leading elements smaller than `x`: where `x` goes.
pub open spec fn insert_pos(s: Seq<u32>, x: u32) -> int
    decreases s.len(),
{
    if s.len() == 0 {
        0
    } else if s[0] < x {
        1 + insert_pos(s.drop_first(), x)
    } else {
        0
    }
}

/// Set insertion keeping the sequence sorted; no change when present.
pub open spec fn sorted_insert(s: Seq<u32>, x: u32) -> Seq<u32> {
    let p = insert_pos(s, x);
    if p < s.len() && s[p] == x {
        s
    } else {
        s.insert(p, x)
    }
}

proof fn lemma_insert_pos_props(s: Seq<u32>, x: u32)
    ensures
        0 <= insert_pos(s, x) <= s.len(),
        forall|j: int| 0 <= j < insert_pos(s, x) ==> s[j] < x,
        sorted_unique(s) && insert_pos(s, x) < s.len() ==> s[insert_pos(s, x)] >= x,
    decreases s.len(),
{
    if s.len() == 0 {
    } else if s[0] < x {
        let d = s.drop_first();
        lemma_insert_pos_props(d, x);
        assert(d.len() == s.len() - 1);
        assert forall|j: int| 0 <= j < insert_pos(s, x) implies s[j] < x by {
            if j > 0 {
                assert(s[j] == d[j - 1]);
            }
        }
        if sorted_unique(s) && insert_pos(s, x) < s.len() {
            assert(sorted_unique(d)) by {
                assert forall|i: int, j2: int| 0 <= i < j2 < d.len() implies d[i] < d[j2] by {
                    assert(d[i] == s[i + 1] && d[j2] == s[j2 + 1]);
                }
            }
            assert(s[insert_pos(s, x)] == d[insert_pos(d, x)]);
        }
    }
}

/// What `sorted_insert` does, stated over the result's order, members and
/// length.
pub proof fn lemma_sorted_insert_props(s: Seq<u32>, x: u32)
    requires
        sorted_unique(s),
    ensures
        sorted_unique(sorted_insert(s, x)),
        forall|y: u32| sorted_insert(s, x).contains(y) <==> (s.contains(y) || y == x),
        sorted_insert(s, x).len() == s.len() + (if s.contains(x) {
            0int
        } else {
            1int
        }),
        s.contains(x) ==> sorted_insert(s, x) == s,
{
    lemma_insert_pos_props(s, x);
    let p = insert_pos(s, x);
    if p < s.len() && s[p] == x {
        assert(s.contains(x));
        assert forall|y: u32| sorted_insert(s, x).contains(y) implies (s.contains(y) || y
            == x) by {}
    } else {
        let t = s.insert(p, x);
        assert(t.len() == s.len() + 1);
        assert(forall|j: int| 0 <= j < p ==> t[j] == s[j]);
        assert(t[p] == x);
        assert(forall|j: int| p < j < t.len() ==> t[j] == s[j - 1]);
        // x is not in s here: at indices below p the elements are smaller,
        // at p and above they are at least s[p] > x or do not exist.
        assert(!s.contains(x)) by {
            if s.contains(x) {
                let i = choose|i: int| 0 <= i < s.len() && s[i] == x;
                if i < p {
                    assert(s[i] < x);
                } else if i > p {
                    assert(s[p] < s[i]);
                    assert(s[p] >= x);
                }
            }
        }
        assert(sorted_unique(t)) by {
            assert forall|i: int, j: int| 0 <= i < j < t.len() implies t[i] < t[j] by {
                if j < p {
                } else if i < p && j == p {
                    assert(t[i] == s[i] && s[i] < x);
                } else if i < p && j > p {
                    assert(t[j] == s[j - 1]);
                    if j - 1 == p - 1 + 1 - 1 {
                    }
                    if j - 1 >= p {
                        assert(s[p] >= x);
                        if j - 1 == p {
                            assert(s[i] < x && x < s[p] || s[p] == x);
                            assert(s[p] != x);
                        } else {
                            assert(s[p] < s[j - 1]);
                        }
                    }
                } else if i == p {
                    assert(t[j] == s[j - 1]);
                    assert(j - 1 >= p);
                    if j - 1 == p {
                        assert(s[p] >= x && s[p] != x);
                    } else {
                        assert(s[p] >= x && s[p] != x);
                        assert(s[p] < s[j - 1]);
                    }
                } else {
                    assert(t[i] == s[i - 1] && t[j] == s[j - 1]);
                }
            }
        }
        assert forall|y: u32| sorted_insert(s, x).contains(y) implies (s.contains(y) || y
            == x) by {
            let i = choose|i: int| 0 <= i < t.len() && t[i] == y;
            if i < p {
                assert(s[i] == y);
            } else if i > p {
                assert(s[i - 1] == y);
            }
        }
        assert forall|y: u32| (s.contains(y) || y == x) implies sorted_insert(s, x).contains(
            y,
        ) by {
            if y == x {
                assert(t[p] == y);
            } else {
                let i = choose|i: int| 0 <= i < s.len() && s[i] == y;
                if i < p {
                    assert(t[i] == y);
                } else {
                    assert(t[i + 1] == y);
                }
            }
        }
    }
}

/// A strictly increasing sequence of 32-bit values cannot be longer than the
/// value space.
pub proof fn lemma_sorted_unique_len(s: Seq<u32>)
    requires
        sorted_unique(s),
    ensures
        s.len() <= 0x1_0000_0000,
{
    if s.len() > 1 {
        lemma_sorted_lower(s, s.len() as int - 1);
        assert(s[s.len() - 1] >= s[0] + s.len() - 1);
        assert(s[s.len() - 1] <= 0xFFFF_FFFFu32);
    }
}

proof fn lemma_sorted_lower(s: Seq<u32>, i: int)
    requires
        sorted_unique(s),
        0 <= i < s.len(),
    ensures
        s[i] >= s[0] + i,
    decreases i,
{
    if i > 0 {
        lemma_sorted_lower(s, i - 1);
        assert(s[i - 1] < s[i]);
    }
}

/// The greatest element of `n` that `p` does not hold, scanning a sorted
/// sequence from its top.
pub open spec fn max_excluding(n: Seq<u32>, p: Seq<u32>) -> Option<u32>
    decreases n.len(),
{
    if n.len() == 0 {
        None
    } else if !p.contains(n.last()) {
        Some(n.last())
    } else {
        max_excluding(n.drop_last(), p)
    }
}

/// Whatever `max_excluding` selects is in `n` and not in `p`.
pub proof fn lemma_max_excluding_props(n: Seq<u32>, p: Seq<u32>)
    ensures
        max_excluding(n, p) matches Some(m) ==> n.contains(m) && !p.contains(m),
        max_excluding(n, p) is None ==> forall|y: u32| n.contains(y) ==> p.contains(y),
    decreases n.len(),
{
    if n.len() == 0 {
    } else if !p.contains(n.last()) {
        assert(n.contains(n.last()));
    } else {
        lemma_max_excluding_props(n.drop_last(), p);
        if max_excluding(n, p) is Some {
            let m = max_excluding(n, p).unwrap();
            let d = n.drop_last();
            assert(d.contains(m));
            let i = choose|i: int| 0 <= i < d.len() && d[i] == m;
            assert(n[i] == m);
        } else {
            assert forall|y: u32| n.contains(y) implies p.contains(y) by {
                let i = choose|i: int| 0 <= i < n.len() && n[i] == y;
                if i < n.len() - 1 {
                    assert(n.drop_last()[i] == y);
                }
            }
        }
    }
}

/// Folds a list of indices into a sorted set, skipping two excluded values.
pub open spec fn insert_all_except(acc: Seq<u32>, s: Seq<u32>, e1: u32, e2: u32) -> Seq<u32>
    decreases s.len(),
{
    if s.len() == 0 {
        acc
    } else {
        insert_all_except(
            if s[0] != e1 && s[0] != e2 {
                sorted_insert(acc, s[0])
            } else {
                acc
            },
            s.drop_first(),
            e1,
            e2,
        )
    }
}

/// The fold keeps the set sorted.
pub proof fn lemma_insert_all_except_sorted(acc: Seq<u32>, s: Seq<u32>, e1: u32, e2: u32)
    requires
        sorted_unique(acc),
    ensures
        sorted_unique(insert_all_except(acc, s, e1, e2)),
    decreases s.len(),
{
    if s.len() > 0 {
        if s[0] != e1 && s[0] != e2 {
            lemma_sorted_insert_props(acc, s[0]);
            lemma_insert_all_except_sorted(sorted_insert(acc, s[0]), s.drop_first(), e1, e2);
        } else {
            lemma_insert_all_except_sorted(acc, s.drop_first(), e1, e2);
        }
    }
}

/// An ordered set of type indices, the working state of the dependency
/// closure: a strictly sorted vector.
pub struct TypeSet {
    v: Vec<u32>,
}

impl View for TypeSet {
    type V = Seq<u32>;

    closed spec fn view(&self) -> Seq<u32> {
        self.v@
    }
}

impl TypeSet {
    pub open spec fn wf(&self) -> bool {
        sorted_unique(self@)
    }

    pub fn new() -> (r: TypeSet)
        ensures
            r@ == Seq::<u32>::empty(),
            r.wf(),
    {
        TypeSet { v: Vec::new() }
    }

    pub fn len(&self) -> (r: usize)
        ensures
            r == self@.len(),
    {
        self.v.len()
    }

    /// The element at one position of the sorted sequence.
    pub fn get_at(&self, i: usize) -> (r: u32)
        requires
            i < self@.len(),
        ensures
            r == self@[i as int],
    {
        self.v[i]
    }

    pub fn contains(&self, x: u32) -> (r: bool)
        ensures
            r == self@.contains(x),
    {
        let n = self.v.len();
        for i in 0..n
            invariant
                n == self@.len(),
                forall|j: int| 0 <= j < i ==> self@[j] != x,
        {
            if self.v[i] == x {
                return true;
            }
        }
        false
    }

    pub fn insert(&mut self, x: u32)
        requires
            old(self).wf(),
        ensures
            final(self)@ == sorted_insert(old(self)@, x),
            final(self).wf(),
    {
        proof {
            lemma_insert_pos_props(self@, x);
            lemma_sorted_insert_props(self@, x);
            assert(self@.skip(0) =~= self@);
        }
        let n = self.v.len();
        let mut p: usize = 0;
        while p < n && self.v[p] < x
            invariant
                n == self@.len(),
                p <= n,
                forall|j: int| 0 <= j < p ==> self@[j] < x,
                insert_pos(self@, x) == p + insert_pos(self@.skip(p as int), x),
            decreases n - p,
        {
            proof {
                let sp = self@.skip(p as int);
                assert(sp[0] == self@[p as int]);
                assert(sp.drop_first() =~= self@.skip(p as int + 1));
            }
            p = p + 1;
        }
        proof {
            let sp = self@.skip(p as int);
            if p < n {
                assert(sp[0] == self@[p as int]);
                assert(insert_pos(sp, x) == 0);
            } else {
                assert(sp.len() == 0);
            }
            assert(insert_pos(self@, x) == p);
        }
        if p < n && self.v[p] == x {
            return ;
        }
        self.v.insert(p, x);
    }

    /// The numerically greatest element of `self` that `other` does not
    /// hold, if any.
    pub fn max_not_in(&self, other: &TypeSet) -> (r: Option<u32>)
        ensures
            r == max_excluding(self@, other@),
    {
        let n = self.v.len();
        let mut i: usize = n;
        proof {
            assert(self@.take(n as int) =~= self@);
        }
        while i > 0
            invariant
                n == self@.len(),
                i <= n,
                max_excluding(self@, other@) == max_excluding(self@.take(i as int), other@),
            decreases i,
        {
            let c = self.v[i - 1];
            proof {
                let t = self@.take(i as int);
                assert(t.last() == self@[i - 1]);
                assert(t.drop_last() =~= self@.take(i as int - 1));
            }
            if !other.contains(c) {
                return Some(c);
            }
            i = i - 1;
        }
        proof {
            assert(self@.take(0) =~= Seq::<u32>::empty());
        }
        None
    }
}

// ---------------------------------------------------------------------------
// Resolution and record lookup
// ---------------------------------------------------------------------------

/// Follows the forwarder map once: a forward declaration's index becomes the
/// index of its complete definition, any other index stays itself.
pub open spec fn resolve_fwd(fwd: Map<u32, u32>, idx: u32) -> u32 {
    if fwd.dom().contains(idx) {
        fwd[idx]
    } else {
        idx
    }
}

/// The first record carrying the given index.
pub open spec fn find_record(records: Seq<TypeRecord>, idx: u32) -> Option<TypeRecord>
    decreases records.len(),
{
    if records.len() == 0 {
        None
    } else if records[0].index == idx {
        Some(records[0])
    } else {
        find_record(records.drop_first(), idx)
    }
}

/// Exec forwarder resolution against the shared map.
pub fn resolve_forwarder(fwd: &dashmap::DashMap<u32, u32>, idx: u32) -> (r: u32)
    ensures
        r == resolve_fwd(index_map_entries(*fwd), idx),
{
    match index_map_get(fwd, idx) {
        Some(c) => c,
        None => idx,
    }
}

proof fn lemma_find_skip(records: Seq<TypeRecord>, idx: u32, i: int)
    requires
        0 <= i < records.len(),
    ensures
        records[i].index == idx ==> find_record(records.skip(i), idx) == Some(records[i]),
        records[i].index != idx ==> find_record(records.skip(i), idx) == find_record(
            records.skip(i + 1),
            idx,
        ),
{
    let sp = records.skip(i);
    assert(sp[0] == records[i]);
    assert(sp.drop_first() =~= records.skip(i + 1));
}

/// Position of the first record carrying `idx`, if any.
pub fn find_record_pos(records: &Vec<TypeRecord>, idx: u32) -> (r: Option<usize>)
    ensures
        r is None ==> find_record(records@, idx) is None,
        r matches Some(p) ==> p < records@.len() && find_record(records@, idx) == Some(
            records@[p as int],
        ),
{
    let n = records.len();
    proof {
        assert(records@.skip(0) =~= records@);
    }
    let mut i: usize = 0;
    while i < n
        invariant
            n == records@.len(),
            i <= n,
            find_record(records@, idx) == find_record(records@.skip(i as int), idx),
        decreases n - i,
    {
        proof {
            lemma_find_skip(records@, idx, i as int);
        }
        if records[i].index == idx {
            return Some(i);
        }
        i = i + 1;
    }
    proof {
        assert(records@.skip(n as int).len() == 0);
    }
    None
}

// ---------------------------------------------------------------------------
// Names of primitives, tags and referenced types
// ---------------------------------------------------------------------------

/// The name a built-in scalar is rendered under, by flavor.
pub open spec fn prim_name(p: PrimitiveKind, f: PrimitiveReconstructionFlavor) -> Seq<char> {
    match p {
        PrimitiveKind::Void => "void"@,
        PrimitiveKind::Bool => "bool"@,
        PrimitiveKind::Char => "char"@,
        PrimitiveKind::Float => "float"@,
        PrimitiveKind::Double => "double"@,
        PrimitiveKind::UChar => match f {
            PrimitiveReconstructionFlavor::Portable => "unsigned char"@,
            PrimitiveReconstructionFlavor::Microsoft => "unsigned char"@,
            PrimitiveReconstructionFlavor::Raw => "uchar"@,
        },
        PrimitiveKind::WChar => match f {
            PrimitiveReconstructionFlavor::Portable => "wchar_t"@,
            PrimitiveReconstructionFlavor::Microsoft => "wchar_t"@,
            PrimitiveReconstructionFlavor::Raw => "wchar"@,
        },
        PrimitiveKind::I8 => match f {
            PrimitiveReconstructionFlavor::Portable => "int8_t"@,
            PrimitiveReconstructionFlavor::Microsoft => "__int8"@,
            PrimitiveReconstructionFlavor::Raw => "i8"@,
        },
        PrimitiveKind::U8 => match f {
            PrimitiveReconstructionFlavor::Portable => "uint8_t"@,
            PrimitiveReconstructionFlavor::Microsoft => "unsigned __int8"@,
            PrimitiveReconstructionFlavor::Raw => "u8"@,
        },
        PrimitiveKind::I16 => match f {
            PrimitiveReconstructionFlavor::Portable => "int16_t"@,
            PrimitiveReconstructionFlavor::Microsoft => "__int16"@,
            PrimitiveReconstructionFlavor::Raw => "short"@,
        },
        PrimitiveKind::U16 => match f {
            PrimitiveReconstructionFlavor::Portable => "uint16_t"@,
            PrimitiveReconstructionFlavor::Microsoft => "unsigned __int16"@,
            PrimitiveReconstructionFlavor::Raw => "ushort"@,
        },
        PrimitiveKind::I32 => match f {
            PrimitiveReconstructionFlavor::Portable => "int32_t"@,
            PrimitiveReconstructionFlavor::Microsoft => "int"@,
            PrimitiveReconstructionFlavor::Raw => "long"@,
        },
        PrimitiveKind::U32 => match f {
            PrimitiveReconstructionFlavor::Portable => "uint32_t"@,
            PrimitiveReconstructionFlavor::Microsoft => "unsigned int"@,
            PrimitiveReconstructionFlavor::Raw => "ulong"@,
        },
        PrimitiveKind::I64 => match f {
            PrimitiveReconstructionFlavor::Portable => "int64_t"@,
            PrimitiveReconstructionFlavor::Microsoft => "__int64"@,
            PrimitiveReconstructionFlavor::Raw => "quad"@,
        },
        PrimitiveKind::U64 => match f {
            PrimitiveReconstructionFlavor::Portable => "uint64_t"@,
            PrimitiveReconstructionFlavor::Microsoft => "unsigned __int64"@,
            PrimitiveReconstructionFlavor::Raw => "uquad"@,
        },
    }
}

fn prim_name_exec(p: PrimitiveKind, f: PrimitiveReconstructionFlavor) -> (r: &'static str)
    ensures
        r@ == prim_name(p, f),
{
    match p {
        PrimitiveKind::Void => "void",
        PrimitiveKind::Bool => "bool",
        PrimitiveKind::Char => "char",
        PrimitiveKind::Float => "float",
        PrimitiveKind::Double => "double",
        PrimitiveKind::UChar => match f {
            PrimitiveReconstructionFlavor::Portable => "unsigned char",
            PrimitiveReconstructionFlavor::Microsoft => "unsigned char",
            PrimitiveReconstructionFlavor::Raw => "uchar",
        },
        PrimitiveKind::WChar => match f {
            PrimitiveReconstructionFlavor::Portable => "wchar_t",
            PrimitiveReconstructionFlavor::Microsoft => "wchar_t",
            PrimitiveReconstructionFlavor::Raw => "wchar",
        },
        PrimitiveKind::I8 => match f {
            PrimitiveReconstructionFlavor::Portable => "int8_t",
            PrimitiveReconstructionFlavor::Microsoft => "__int8",
            PrimitiveReconstructionFlavor::Raw => "i8",
        },
        PrimitiveKind::U8 => match f {
            PrimitiveReconstructionFlavor::Portable => "uint8_t",
            PrimitiveReconstructionFlavor::Microsoft => "unsigned __int8",
            PrimitiveReconstructionFlavor::Raw => "u8",
        },
        PrimitiveKind::I16 => match f {
            PrimitiveReconstructionFlavor::Portable => "int16_t",
            PrimitiveReconstructionFlavor::Microsoft => "__int16",
            PrimitiveReconstructionFlavor::Raw => "short",
        },
        PrimitiveKind::U16 => match f {
            PrimitiveReconstructionFlavor::Portable => "uint16_t",
            PrimitiveReconstructionFlavor::Microsoft => "unsigned __int16",
            PrimitiveReconstructionFlavor::Raw => "ushort",
        },
        PrimitiveKind::I32 => match f {
            PrimitiveReconstructionFlavor::Portable => "int32_t",
            PrimitiveReconstructionFlavor::Microsoft => "int",
            PrimitiveReconstructionFlavor::Raw => "long",
        },
        PrimitiveKind::U32 => match f {
            PrimitiveReconstructionFlavor::Portable => "uint32_t",
            PrimitiveReconstructionFlavor::Microsoft => "unsigned int",
            PrimitiveReconstructionFlavor::Raw => "ulong",
        },
        PrimitiveKind::I64 => match f {
            PrimitiveReconstructionFlavor::Portable => "int64_t",
            PrimitiveReconstructionFlavor::Microsoft => "__int64",
            PrimitiveReconstructionFlavor::Raw => "quad",
        },
        PrimitiveKind::U64 => match f {
            PrimitiveReconstructionFlavor::Portable => "uint64_t",
            PrimitiveReconstructionFlavor::Microsoft => "unsigned __int64",
            PrimitiveReconstructionFlavor::Raw => "uquad",
        },
    }
}

/// The keyword a tag kind is declared with; empty for records the renderer
/// skips.
pub open spec fn tag_keyword(k: TypeKind) -> Seq<char> {
    match k {
        TypeKind::Class => "class"@,
        TypeKind::Union => "union"@,
        TypeKind::Enumeration => "enum"@,
        TypeKind::Other => Seq::empty(),
    }
}

fn tag_keyword_exec(k: TypeKind) -> (r: &'static str)
    ensures
        r@ == tag_keyword(k),
{
    proof {
        reveal_strlit("");
        assert(""@ =~= Seq::<char>::empty());
    }
    match k {
        TypeKind::Class => "class",
        TypeKind::Union => "union",
        TypeKind::Enumeration => "enum",
        TypeKind::Other => "",
    }
}

/// The name another record is referred to by, through the forwarder map; a
/// reference that resolves to no record is labelled like an anonymous tag.
pub open spec fn type_name_of(records: Seq<TypeRecord>, fwd: Map<u32, u32>, i: u32) -> Seq<
    char,
> {
    let rr = resolve_fwd(fwd, i);
    match find_record(records, rr) {
        Some(r) => display_name_spec(r.name@, rr),
        None => "_unnamed_"@ + dec_digits(rr as nat),
    }
}

fn type_name_exec(records: &Vec<TypeRecord>, fwd: &dashmap::DashMap<u32, u32>, i: u32) -> (r:
    String)
    ensures
        r@ == type_name_of(records@, index_map_entries(*fwd), i),
{
    let rr = resolve_forwarder(fwd, i);
    match find_record_pos(records, rr) {
        Some(p) => display_name(records[p].name.as_str(), rr),
        None => {
            let mut s = "_unnamed_".to_owned();
            s.append(u64_to_string(rr as u64).as_str());
            s
        },
    }
}

// ---------------------------------------------------------------------------
// Rendering of member type references
// ---------------------------------------------------------------------------

/// Text standing before a member's name: the base type name with pointer and
/// const decorations.
pub open spec fn ref_prefix(
    records: Seq<TypeRecord>,
    fwd: Map<u32, u32>,
    f: PrimitiveReconstructionFlavor,
    t: TypeRef,
) -> Seq<char>
    decreases t,
{
    match t {
        TypeRef::Primitive(p) => prim_name(p, f),
        TypeRef::Named(i) => type_name_of(records, fwd, i),
        TypeRef::Pointer(inner) => ref_prefix(records, fwd, f, *inner) + "*"@,
        TypeRef::Array(inner, n) => ref_prefix(records, fwd, f, *inner),
        TypeRef::Constant(inner) => "const "@ + ref_prefix(records, fwd, f, *inner),
    }
}

/// Text standing after a member's name: the array extents.
pub open spec fn ref_suffix(t: TypeRef) -> Seq<char>
    decreases t,
{
    match t {
        TypeRef::Primitive(p) => Seq::empty(),
        TypeRef::Named(i) => Seq::empty(),
        TypeRef::Pointer(inner) => ref_suffix(*inner),
        TypeRef::Array(inner, n) => "["@ + dec_digits(n as nat) + "]"@ + ref_suffix(*inner),
        TypeRef::Constant(inner) => ref_suffix(*inner),
    }
}

/// The indices of named types a reference ultimately mentions.
pub open spec fn typeref_named(t: TypeRef) -> Seq<u32>
    decreases t,
{
    match t {
        TypeRef::Primitive(p) => Seq::empty(),
        TypeRef::Named(i) => seq![i],
        TypeRef::Pointer(inner) => typeref_named(*inner),
        TypeRef::Array(inner, n) => typeref_named(*inner),
        TypeRef::Constant(inner) => typeref_named(*inner),
    }
}

fn typeref_prefix_exec(
    records: &Vec<TypeRecord>,
    fwd: &dashmap::DashMap<u32, u32>,
    f: PrimitiveReconstructionFlavor,
    t: &TypeRef,
) -> (r: String)
    ensures
        r@ == ref_prefix(records@, index_map_entries(*fwd), f, *t),
    decreases t,
{
    match t {
        TypeRef::Primitive(p) => prim_name_exec(*p, f).to_owned(),
        TypeRef::Named(i) => type_name_exec(records, fwd, *i),
        TypeRef::Pointer(inner) => {
            let mut s = typeref_prefix_exec(records, fwd, f, &**inner);
            s.append("*");
            s
        },
        TypeRef::Array(inner, _n) => typeref_prefix_exec(records, fwd, f, &**inner),
        TypeRef::Constant(inner) => {
            let mut s = "const ".to_owned();
            s.append(typeref_prefix_exec(records, fwd, f, &**inner).as_str());
            s
        },
    }
}

fn typeref_suffix_exec(t: &TypeRef) -> (r: String)
    ensures
        r@ == ref_suffix(*t),
    decreases t,
{
    match t {
        TypeRef::Primitive(_p) => String::new(),
        TypeRef::Named(_i) => String::new(),
        TypeRef::Pointer(inner) => typeref_suffix_exec(&**inner),
        TypeRef::Array(inner, n) => {
            let mut s = "[".to_owned();
            s.append(u64_to_string(*n).as_str());
            s.append("]");
            s.append(typeref_suffix_exec(&**inner).as_str());
            s
        },
        TypeRef::Constant(inner) => typeref_suffix_exec(&**inner),
    }
}

fn collect_typeref_named(t: &TypeRef, out: &mut Vec<u32>)
    ensures
        final(out)@ == old(out)@ + typeref_named(*t),
    decreases t,
{
    match t {
        TypeRef::Primitive(_p) => {
            proof {
                assert(out@ + Seq::<u32>::empty() =~= out@);
            }
        },
        TypeRef::Named(i) => {
            out.push(*i);
            proof {
                assert(out@ =~= old(out)@ + seq![*i]);
            }
        },
        TypeRef::Pointer(inner) => collect_typeref_named(&**inner, out),
        TypeRef::Array(inner, _n) => collect_typeref_named(&**inner, out),
        TypeRef::Constant(inner) => collect_typeref_named(&**inner, out),
    }
}

// ---------------------------------------------------------------------------
// Record text
// ---------------------------------------------------------------------------

/// The access annotation standing before a member, when requested.
pub open spec fn access_text(flag: bool, a: Option<AccessSpecifier>) -> Seq<char> {
    if flag && a is Some {
        match a.unwrap() {
            AccessSpecifier::Public => "public: "@,
            AccessSpecifier::Protected => "protected: "@,
            AccessSpecifier::Private => "private: "@,
        }
    } else {
        Seq::empty()
    }
}

/// One member declaration line.
pub open spec fn member_line(
    records: Seq<TypeRecord>,
    fwd: Map<u32, u32>,
    f: PrimitiveReconstructionFlavor,
    ac: bool,
    m: Member,
) -> Seq<char> {
    "  "@ + access_text(ac, m.access) + ref_prefix(records, fwd, f, m.type_ref) + " "@ + m.name@
        + ref_suffix(m.type_ref) + ";\n"@
}

/// All member lines, in declaration order.
pub open spec fn members_text(
    records: Seq<TypeRecord>,
    fwd: Map<u32, u32>,
    f: PrimitiveReconstructionFlavor,
    ac: bool,
    ms: Seq<Member>,
) -> Seq<char>
    decreases ms.len(),
{
    if ms.len() == 0 {
        Seq::empty()
    } else {
        members_text(records, fwd, f, ac, ms.drop_last()) + member_line(
            records,
            fwd,
            f,
            ac,
            ms.last(),
        )
    }
}

/// The base type names joined with commas.
pub open spec fn base_list(records: Seq<TypeRecord>, fwd: Map<u32, u32>, bs: Seq<u32>) -> Seq<
    char,
>
    decreases bs.len(),
{
    if bs.len() == 0 {
        Seq::empty()
    } else if bs.len() == 1 {
        type_name_of(records, fwd, bs[0])
    } else {
        base_list(records, fwd, bs.drop_last()) + ", "@ + type_name_of(records, fwd, bs.last())
    }
}

/// The ` : Base1, Base2` clause, empty without bases.
pub open spec fn bases_suffix(records: Seq<TypeRecord>, fwd: Map<u32, u32>, bs: Seq<u32>) -> Seq<
    char,
> {
    if bs.len() == 0 {
        Seq::empty()
    } else {
        " : "@ + base_list(records, fwd, bs)
    }
}

/// One enumerator line.
pub open spec fn enum_line(e: Enumerator) -> Seq<char> {
    "  "@ + e.name@ + " = "@ + int_text(e.value as int) + ",\n"@
}

/// All enumerator lines, in declaration order.
pub open spec fn enums_text(es: Seq<Enumerator>) -> Seq<char>
    decreases es.len(),
{
    if es.len() == 0 {
        Seq::empty()
    } else {
        enums_text(es.drop_last()) + enum_line(es.last())
    }
}

/// The source text one record renders to: a full block for complete
/// aggregates and enumerations, a bare forward declaration for an unresolved
/// forward reference, nothing for other records.
pub open spec fn record_text(
    records: Seq<TypeRecord>,
    fwd: Map<u32, u32>,
    f: PrimitiveReconstructionFlavor,
    ac: bool,
    r: TypeRecord,
) -> Seq<char> {
    if r.kind is Other {
        Seq::empty()
    } else if r.is_forward_reference {
        tag_keyword(r.kind) + " "@ + display_name_spec(r.name@, r.index) + ";\n"@
    } else if r.kind is Enumeration {
        "enum "@ + display_name_spec(r.name@, r.index) + " : "@ + prim_name(r.underlying, f)
            + " {\n"@ + enums_text(r.enumerators@) + "};\n"@
    } else {
        tag_keyword(r.kind) + " "@ + display_name_spec(r.name@, r.index) + bases_suffix(
            records,
            fwd,
            r.base_types@,
        ) + " {\n"@ + members_text(records, fwd, f, ac, r.members@) + "};\n"@
    }
}

/// The indices a record's tag-specific fields reference, raw and in
/// declaration order: base types first, then member types.
pub open spec fn record_raw_refs(r: TypeRecord) -> Seq<u32> {
    if (r.kind is Class || r.kind is Union) && !r.is_forward_reference {
        r.base_types@ + members_named(r.members@)
    } else {
        Seq::empty()
    }
}

/// The named indices of all members, concatenated.
pub open spec fn members_named(ms: Seq<Member>) -> Seq<u32>
    decreases ms.len(),
{
    if ms.len() == 0 {
        Seq::empty()
    } else {
        members_named(ms.drop_last()) + typeref_named(ms.last().type_ref)
    }
}

/// The ordered set of indices a rendered record references, excluding the
/// requested and the resolved index of the type itself.
pub open spec fn record_refs(r: TypeRecord, e1: u32, e2: u32) -> Seq<u32> {
    insert_all_except(Seq::empty(), record_raw_refs(r), e1, e2)
}

/// What rendering one index produces: `None` when the index resolves to no
/// record at all, else the record's text and the ordered set of indices it
/// references.
pub open spec fn spec_render(
    records: Seq<TypeRecord>,
    fwd: Map<u32, u32>,
    f: PrimitiveReconstructionFlavor,
    ac: bool,
    idx: u32,
) -> Option<(Seq<char>, Seq<u32>)> {
    let rr = resolve_fwd(fwd, idx);
    match find_record(records, rr) {
        None => None,
        Some(r) => Some((record_text(records, fwd, f, ac, r), record_refs(r, idx, rr))),
    }
}

fn build_member_line(
    records: &Vec<TypeRecord>,
    fwd: &dashmap::DashMap<u32, u32>,
    f: PrimitiveReconstructionFlavor,
    ac: bool,
    m: &Member,
) -> (r: String)
    ensures
        r@ == member_line(records@, index_map_entries(*fwd), f, ac, *m),
{
    let mut s = "  ".to_owned();
    if ac {
        match m.access {
            Some(AccessSpecifier::Public) => s.append("public: "),
            Some(AccessSpecifier::Protected) => s.append("protected: "),
            Some(AccessSpecifier::Private) => s.append("private: "),
            None => (),
        }
    }
    s.append(typeref_prefix_exec(records, fwd, f, &m.type_ref).as_str());
    s.append(" ");
    s.append(m.name.as_str());
    s.append(typeref_suffix_exec(&m.type_ref).as_str());
    s.append(";\n");
    proof {
        assert(s@ =~= member_line(records@, index_map_entries(*fwd), f, ac, *m));
    }
    s
}

fn build_enum_line(e: &Enumerator) -> (r: String)
    ensures
        r@ == enum_line(*e),
{
    let mut s = "  ".to_owned();
    s.append(e.name.as_str());
    s.append(" = ");
    s.append(i64_to_string(e.value).as_str());
    s.append(",\n");
    s
}

/// Renders one record to text.
fn render_record(
    records: &Vec<TypeRecord>,
    fwd: &dashmap::DashMap<u32, u32>,
    f: PrimitiveReconstructionFlavor,
    ac: bool,
    rec: &TypeRecord,
) -> (r: String)
    ensures
        r@ == record_text(records@, index_map_entries(*fwd), f, ac, *rec),
{
    let ghost gfwd = index_map_entries(*fwd);
    match rec.kind {
        TypeKind::Other => String::new(),
        _ => {
            if rec.is_forward_reference {
                let mut s = tag_keyword_exec(rec.kind).to_owned();
                s.append(" ");
                s.append(display_name(rec.name.as_str(), rec.index).as_str());
                s.append(";\n");
                s
            } else if matches!(rec.kind, TypeKind::Enumeration) {
                let mut s = "enum ".to_owned();
                s.append(display_name(rec.name.as_str(), rec.index).as_str());
                s.append(" : ");
                s.append(prim_name_exec(rec.underlying, f));
                s.append(" {\n");
                let ghost head = s@;
                let n = rec.enumerators.len();
                proof {
                    assert(rec.enumerators@.take(0) =~= Seq::<Enumerator>::empty());
                    assert(s@ =~= head + enums_text(rec.enumerators@.take(0)));
                }
                for i in 0..n
                    invariant
                        n == rec.enumerators@.len(),
                        s@ == head + enums_text(rec.enumerators@.take(i as int)),
                {
                    let line = build_enum_line(&rec.enumerators[i]);
                    s.append(line.as_str());
                    proof {
                        let es = rec.enumerators@;
                        assert(es.take(i + 1).drop_last() =~= es.take(i as int));
                        assert(es.take(i + 1).last() == es[i as int]);
                        assert(s@ =~= head + enums_text(es.take(i + 1)));
                    }
                }
                proof {
                    assert(rec.enumerators@.take(n as int) =~= rec.enumerators@);
                }
                s.append("};\n");
                s
            } else {
                let mut s = tag_keyword_exec(rec.kind).to_owned();
                s.append(" ");
                s.append(display_name(rec.name.as_str(), rec.index).as_str());
                let ghost head0 = s@;
                let nb = rec.base_types.len();
                if nb > 0 {
                    s.append(" : ");
                    let ghost bhead = s@;
                    for i in 0..nb
                        invariant
                            nb == rec.base_types@.len(),
                            nb > 0,
                            bhead == head0 + " : "@,
                            s@ == (if i == 0 {
                                bhead
                            } else {
                                bhead + base_list(records@, gfwd, rec.base_types@.take(i as int))
                            }),
                            gfwd == index_map_entries(*fwd),
                    {
                        if i > 0 {
                            s.append(", ");
                        }
                        let nm = type_name_exec(records, fwd, rec.base_types[i]);
                        s.append(nm.as_str());
                        proof {
                            let bs = rec.base_types@;
                            assert(bs.take(i + 1).drop_last() =~= bs.take(i as int));
                            assert(bs.take(i + 1).last() == bs[i as int]);
                            if i == 0 {
                                assert(bs.take(1).len() == 1);
                                assert(bs.take(1)[0] == bs[0]);
                                assert(s@ =~= bhead + base_list(records@, gfwd, bs.take(1)));
                            } else {
                                assert(s@ =~= bhead + base_list(records@, gfwd, bs.take(i + 1)));
                            }
                        }
                    }
                    proof {
                        assert(rec.base_types@.take(nb as int) =~= rec.base_types@);
                        assert(s@ =~= head0 + bases_suffix(records@, gfwd, rec.base_types@));
                    }
                } else {
                    proof {
                        assert(s@ =~= head0 + bases_suffix(records@, gfwd, rec.base_types@));
                    }
                }
                s.append(" {\n");
                let ghost head = head0 + bases_suffix(records@, gfwd, rec.base_types@) + " {\n"@;
                proof {
                    assert(s@ =~= head);
                    assert(rec.members@.take(0) =~= Seq::<Member>::empty());
                    assert(s@ =~= head + members_text(records@, gfwd, f, ac, rec.members@.take(0)));
                }
                let nm = rec.members.len();
                for i in 0..nm
                    invariant
                        nm == rec.members@.len(),
                        s@ == head + members_text(records@, gfwd, f, ac, rec.members@.take(i as int)),
                        gfwd == index_map_entries(*fwd),
                {
                    let line = build_member_line(records, fwd, f, ac, &rec.members[i]);
                    s.append(line.as_str());
                    proof {
                        let ms = rec.members@;
                        assert(ms.take(i + 1).drop_last() =~= ms.take(i as int));
                        assert(ms.take(i + 1).last() == ms[i as int]);
                        assert(s@ =~= head + members_text(records@, gfwd, f, ac, ms.take(i + 1)));
                    }
                }
                proof {
                    assert(rec.members@.take(nm as int) =~= rec.members@);
                }
                s.append("};\n");
                proof {
                    assert(s@ =~= record_text(records@, gfwd, f, ac, *rec));
                }
                s
            }
        },
    }
}

/// Renders the type behind `idx`: resolves it through the forwarder map,
/// fails only when no record carries the resolved index, and otherwise
/// returns the record's text together with the ordered set of type indices
/// the text references.
pub fn render_type(
    records: &Vec<TypeRecord>,
    fwd: &dashmap::DashMap<u32, u32>,
    f: PrimitiveReconstructionFlavor,
    ac: bool,
    idx: u32,
) -> (r: Result<(String, TypeSet), ResymError>)
    ensures
        spec_render(records@, index_map_entries(*fwd), f, ac, idx) is None <==> r is Err,
        r is Err ==> r == Err::<(String, TypeSet), ResymError>(
            ResymError::RenderFailed(resolve_fwd(index_map_entries(*fwd), idx)),
        ),
        r matches Ok(v) ==> {
            &&& v.0@ == spec_render(records@, index_map_entries(*fwd), f, ac, idx).unwrap().0
            &&& v.1@ == spec_render(records@, index_map_entries(*fwd), f, ac, idx).unwrap().1
            &&& v.1.wf()
        },
{
    let ghost gfwd = index_map_entries(*fwd);
    let rr = resolve_forwarder(fwd, idx);
    match find_record_pos(records, rr) {
        None => Err(ResymError::RenderFailed(rr)),
        Some(p) => {
            let rec = &records[p];
            let text = render_record(records, fwd, f, ac, rec);
            let mut raw: Vec<u32> = Vec::new();
            let is_aggregate = matches!(rec.kind, TypeKind::Class | TypeKind::Union);
            if is_aggregate && !rec.is_forward_reference {
                let nb = rec.base_types.len();
                for i in 0..nb
                    invariant
                        nb == rec.base_types@.len(),
                        raw@ == rec.base_types@.take(i as int),
                {
                    raw.push(rec.base_types[i]);
                    proof {
                        assert(raw@ =~= rec.base_types@.take(i + 1));
                    }
                }
                proof {
                    assert(rec.base_types@.take(nb as int) =~= rec.base_types@);
                    assert(members_named(rec.members@.take(0)) =~= Seq::<u32>::empty());
                    assert(raw@ =~= rec.base_types@ + members_named(rec.members@.take(0)));
                }
                let nm = rec.members.len();
                for i in 0..nm
                    invariant
                        nm == rec.members@.len(),
                        raw@ == rec.base_types@ + members_named(rec.members@.take(i as int)),
                {
                    collect_typeref_named(&rec.members[i].type_ref, &mut raw);
                    proof {
                        let ms = rec.members@;
                        assert(ms.take(i + 1).drop_last() =~= ms.take(i as int));
                        assert(ms.take(i + 1).last() == ms[i as int]);
                        assert(raw@ =~= rec.base_types@ + members_named(ms.take(i + 1)));
                    }
                }
                proof {
                    assert(rec.members@.take(nm as int) =~= rec.members@);
                    assert(raw@ =~= record_raw_refs(*rec));
                }
            } else {
                proof {
                    assert(raw@ =~= record_raw_refs(*rec));
                }
            }
            let mut refs = TypeSet::new();
            let nr = raw.len();
            proof {
                assert(raw@.skip(0) =~= raw@);
            }
            let mut k: usize = 0;
            while k < nr
                invariant
                    nr == raw@.len(),
                    k <= nr,
                    refs.wf(),
                    record_refs(*rec, idx, rr) == insert_all_except(
                        refs@,
                        raw@.skip(k as int),
                        idx,
                        rr,
                    ),
                decreases nr - k,
            {
                proof {
                    let sp = raw@.skip(k as int);
                    assert(sp[0] == raw@[k as int]);
                    assert(sp.drop_first() =~= raw@.skip(k as int + 1));
                }
                let x = raw[k];
                if x != idx && x != rr {
                    refs.insert(x);
                }
                k = k + 1;
            }
            proof {
                assert(raw@.skip(nr as int).len() == 0);
            }
            Ok((text, refs))
        },
    }
}

} // verus!
