//! A selectable list of (name, index) rows, optionally kept in alphabetical
//! order. The drawing of the list is a caller concern; the state and the
//! ordering guarantee live here.

use vstd::prelude::*;
use crate::strings::{lex_lt, str_lex_lt};
use vstd::multiset::Multiset;

verus! {

broadcast use vstd::seq_lib::group_to_multiset_ensures;

pub enum IndexListOrdering {
    /// Doesn't respect any particular order
    Unordered,
    /// Orders types alphabetically
    Alphabetical,
}

/// Non-decreasing by name in the lexicographic order.
pub open spec fn sorted_by_name<I>(s: Seq<(String, I)>) -> bool {
    forall|i: int, j: int| 0 <= i < j < s.len() ==> !lex_lt(#[trigger] s[j].0@, #[trigger] s[i].0@)
}

pub struct IndexListComponent<I: Copy> {
    index_list: Vec<(String, I)>,
    selected_row: usize,
    list_ordering: IndexListOrdering,
}

impl<I: Copy> IndexListComponent<I> {
    pub fn new(ordering: IndexListOrdering) -> (r: IndexListComponent<I>)
        ensures
            r.entries_view().len() == 0,
            r.selected_row_view() == usize::MAX,
    {
        IndexListComponent {
            index_list: Vec::new(),
            selected_row: usize::MAX,
            list_ordering: ordering,
        }
    }

    /// The rows as the caller sees them.
    pub closed spec fn entries_view(&self) -> Seq<(String, I)> {
        self.index_list@
    }

    pub closed spec fn selected_row_view(&self) -> usize {
        self.selected_row
    }

    pub closed spec fn ordering_is_alphabetical(&self) -> bool {
        self.list_ordering is Alphabetical
    }

    /// Replaces the rows and clears the selection; under the alphabetical
    /// ordering the new rows are sorted by name, keeping the same multiset
    /// of rows.
    pub fn update_index_list(&mut self, index_list: Vec<(String, I)>)
        ensures
            final(self).selected_row_view() == usize::MAX,
            final(self).ordering_is_alphabetical() == old(self).ordering_is_alphabetical(),
            !old(self).ordering_is_alphabetical() ==> final(self).entries_view()
                == index_list@,
            old(self).ordering_is_alphabetical() ==> sorted_by_name(final(self).entries_view())
                && final(self).entries_view().to_multiset() == index_list@.to_multiset(),
    {
        self.selected_row = usize::MAX;
        match self.list_ordering {
            IndexListOrdering::Unordered => {
                self.index_list = index_list;
            },
            IndexListOrdering::Alphabetical => {
                self.index_list = sort_by_name(index_list);
            },
        }
    }

    /// The number of rows.
    pub fn len(&self) -> (r: usize)
        ensures
            r == self.entries_view().len(),
    {
        self.index_list.len()
    }

    /// One row.
    pub fn entry_at(&self, row: usize) -> (r: &(String, I))
        requires
            row < self.entries_view().len(),
        ensures
            *r == self.entries_view()[row as int],
    {
        &self.index_list[row]
    }

    pub fn selected_row(&self) -> (r: usize)
        ensures
            r == self.selected_row_view(),
    {
        self.selected_row
    }

    /// Marks one row selected.
    pub fn select_row(&mut self, row: usize)
        ensures
            final(self).selected_row_view() == row,
            final(self).entries_view() == old(self).entries_view(),
            final(self).ordering_is_alphabetical() == old(self).ordering_is_alphabetical(),
    {
        self.selected_row = row;
    }
}

impl<I: Copy> Default for IndexListComponent<I> {
    fn default() -> (r: IndexListComponent<I>)
        ensures
            r.entries_view().len() == 0,
            r.selected_row_view() == usize::MAX,
    {
        IndexListComponent::new(IndexListOrdering::Unordered)
    }
}

/// Selection sort by name: repeatedly moves a minimal remaining row over.
#[verifier::loop_isolation(false)]
fn sort_by_name<I: Copy>(list: Vec<(String, I)>) -> (r: Vec<(String, I)>)
    ensures
        sorted_by_name(r@),
        r@.to_multiset() == list@.to_multiset(),
{
    let ghost orig = list@;
    let mut src = list;
    let mut out: Vec<(String, I)> = Vec::new();
    while src.len() > 0
        invariant
            sorted_by_name(out@),
            out@.to_multiset().add(src@.to_multiset()) == orig.to_multiset(),
            forall|a: int, b: int|
                0 <= a < out@.len() && 0 <= b < src@.len() ==> !lex_lt(
                    #[trigger] src@[b].0@,
                    #[trigger] out@[a].0@,
                ),
        decreases src.len(),
    {
        // find a minimal remaining name
        let n = src.len();
        let mut mi: usize = 0;
        proof {
            crate::strings::lemma_lex_asym(src@[0].0@, src@[0].0@);
        }
        for k in 1..n
            invariant
                n == src@.len(),
                mi < n,
                forall|k2: int| 0 <= k2 < k ==> !lex_lt(#[trigger] src@[k2].0@, src@[mi as int].0@),
        {
            let ghost pre_mi = mi as int;
            let took = str_lex_lt(src[k].0.as_str(), src[mi].0.as_str());
            if took {
                mi = k;
            }
            proof {
                assert forall|k2: int| 0 <= k2 < k + 1 implies !lex_lt(
                    #[trigger] src@[k2].0@,
                    src@[mi as int].0@,
                ) by {
                    if took {
                        if k2 == k {
                            crate::strings::lemma_lex_asym(src@[k2].0@, src@[k2].0@);
                        } else if lex_lt(src@[k2].0@, src@[k as int].0@) {
                            crate::strings::lemma_lex_trans(
                                src@[k2].0@,
                                src@[k as int].0@,
                                src@[pre_mi].0@,
                            );
                        }
                    }
                }
            }
        }
        proof {
            assert(forall|k2: int|
                0 <= k2 < src@.len() ==> !lex_lt(#[trigger] src@[k2].0@, src@[mi as int].0@));
        }
        let ghost pre_out = out@;
        let ghost pre_src = src@;
        let e = src.remove(mi);
        out.push(e);
        proof {
            assert(pre_src[mi as int] == e);
            assert(pre_src.to_multiset().contains(e));
            assert(out@.to_multiset() =~= pre_out.to_multiset().insert(e));
            assert(src@.to_multiset() =~= pre_src.to_multiset().remove(e));
            assert(out@.to_multiset().add(src@.to_multiset()) =~= pre_out.to_multiset().add(
                pre_src.to_multiset(),
            ));
            assert forall|a: int, b: int|
                0 <= a < out@.len() && 0 <= b < src@.len() implies !lex_lt(
                #[trigger] src@[b].0@,
                #[trigger] out@[a].0@,
            ) by {
                let old_b = if b < mi {
                    b
                } else {
                    b + 1
                };
                assert(src@[b] == pre_src[old_b]);
                assert(0 <= old_b < pre_src.len());
                if a < pre_out.len() {
                    assert(out@[a] == pre_out[a]);
                    assert(!lex_lt(pre_src[old_b].0@, pre_out[a].0@));
                } else {
                    assert(out@[a] == e);
                    assert(!lex_lt(pre_src[old_b].0@, pre_src[mi as int].0@));
                }
            }
            assert(sorted_by_name(out@)) by {
                assert forall|a: int, b: int| 0 <= a < b < out@.len() implies !lex_lt(
                    #[trigger] out@[b].0@,
                    #[trigger] out@[a].0@,
                ) by {
                    if b < out@.len() - 1 {
                        assert(out@[a] == pre_out[a] && out@[b] == pre_out[b]);
                        assert(!lex_lt(pre_out[b].0@, pre_out[a].0@));
                    } else {
                        assert(out@[b] == e);
                        assert(out@[a] == pre_out[a]);
                        assert(!lex_lt(pre_src[mi as int].0@, pre_out[a].0@));
                    }
                }
            }
        }
    }
    proof {
        assert(src@.to_multiset() =~= Multiset::<(String, I)>::empty());
        assert(out@.to_multiset() =~= orig.to_multiset());
    }
    out
}

} // verus!
