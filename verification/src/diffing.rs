//! The diff engine: aligns two texts line by line along a longest common
//! subsequence, classifies every output line, pairs replaced lines, and
//! renders the merged text used for display.

use vstd::prelude::*;
use crate::strings::{split_lines, split_lines_exec, lex_lt, str_eq, str_lex_lt};
use crate::pdb_file::{PdbFile, find_by_name, spec_reconstruct};
use crate::pdb_types::PrimitiveReconstructionFlavor;
use crate::sync_maps::index_map_entries;
use crate::error::ResymError;

verus! {

/// Classification of one aligned output line.
#[derive(Clone, Copy, Debug, PartialEq, Eq, Structural)]
pub enum DiffChange {
    Unchanged,
    Added,
    Removed,
    ModifiedPair,
}

/// One aligned line: originating old line number (absent when inserted),
/// originating new line number (absent when deleted), and its kind.
pub type DiffEntry = ((Option<usize>, Option<usize>), DiffChange);

/// The outcome of one diff request: per-line metadata and the merged text.
#[derive(Debug)]
pub struct DiffedType {
    pub metadata: Vec<DiffEntry>,
    pub data: String,
}

/// The lines of a text, as character sequences.
pub open spec fn lines_view(v: Seq<String>) -> Seq<Seq<char>> {
    v.map_values(|s: String| s@)
}

// ---------------------------------------------------------------------------
// Longest common subsequence
// ---------------------------------------------------------------------------

/// Length of a longest common subsequence of two line sequences.
pub open spec fn lcs(a: Seq<Seq<char>>, b: Seq<Seq<char>>) -> nat
    decreases a.len() + b.len(),
{
    if a.len() == 0 || b.len() == 0 {
        0
    } else if a[0] == b[0] {
        1 + lcs(a.drop_first(), b.drop_first())
    } else {
        let l1 = lcs(a.drop_first(), b);
        let l2 = lcs(a, b.drop_first());
        if l1 > l2 {
            l1
        } else {
            l2
        }
    }
}

/// A common subsequence is no longer than either side.
pub proof fn lemma_lcs_bound(a: Seq<Seq<char>>, b: Seq<Seq<char>>)
    ensures
        lcs(a, b) <= a.len(),
        lcs(a, b) <= b.len(),
    decreases a.len() + b.len(),
{
    if a.len() == 0 || b.len() == 0 {
    } else if a[0] == b[0] {
        lemma_lcs_bound(a.drop_first(), b.drop_first());
    } else {
        lemma_lcs_bound(a.drop_first(), b);
        lemma_lcs_bound(a, b.drop_first());
    }
}

/// Unfolds `lcs` on the suffixes starting at `(i, j)`.
proof fn lemma_lcs_skip(a: Seq<Seq<char>>, b: Seq<Seq<char>>, i: int, j: int)
    requires
        0 <= i <= a.len(),
        0 <= j <= b.len(),
    ensures
        i == a.len() || j == b.len() ==> lcs(a.skip(i), b.skip(j)) == 0,
        i < a.len() && j < b.len() && a[i] == b[j] ==> lcs(a.skip(i), b.skip(j)) == 1 + lcs(
            a.skip(i + 1),
            b.skip(j + 1),
        ),
        i < a.len() && j < b.len() && a[i] != b[j] ==> lcs(a.skip(i), b.skip(j)) == (if lcs(
            a.skip(i + 1),
            b.skip(j),
        ) > lcs(a.skip(i), b.skip(j + 1)) {
            lcs(a.skip(i + 1), b.skip(j))
        } else {
            lcs(a.skip(i), b.skip(j + 1))
        }),
{
    let sa = a.skip(i);
    let sb = b.skip(j);
    if i == a.len() || j == b.len() {
        assert(sa.len() == 0 || sb.len() == 0);
    } else {
        assert(sa[0] == a[i]);
        assert(sb[0] == b[j]);
        assert(sa.drop_first() =~= a.skip(i + 1));
        assert(sb.drop_first() =~= b.skip(j + 1));
    }
}

/// The dynamic-programming table: entry `(i, j)` holds the subsequence
/// length of the two suffixes starting there.
fn lcs_table(a: &Vec<String>, b: &Vec<String>) -> (dp: Vec<Vec<usize>>)
    ensures
        dp@.len() == a@.len() + 1,
        forall|i: int| 0 <= i <= a@.len() ==> #[trigger] dp@[i]@.len() == b@.len() + 1,
        forall|i: int, j: int|
            0 <= i <= a@.len() && 0 <= j <= b@.len() ==> #[trigger] dp@[i]@[j] == lcs(
                lines_view(a@).skip(i),
                lines_view(b@).skip(j),
            ),
{
    let ghost av = lines_view(a@);
    let ghost bv = lines_view(b@);
    let n = a.len();
    let m = b.len();
    let mut dp: Vec<Vec<usize>> = Vec::new();
    // the bottom row: everything against the empty suffix
    let mut bottom: Vec<usize> = Vec::new();
    for j in 0..m
        invariant
            bottom@.len() == j,
            forall|k: int| 0 <= k < j ==> bottom@[k] == 0,
    {
        bottom.push(0);
    }
    bottom.push(0);
    dp.push(bottom);
    proof {
        assert forall|j: int| 0 <= j <= bv.len() implies lcs(av.skip(n as int), bv.skip(j))
            == 0 by {
            lemma_lcs_skip(av, bv, n as int, j);
        }
        assert(av.len() == n && bv.len() == m);
    }
    let mut i: usize = n;
    while i > 0
        invariant
            n == av.len(),
            m == bv.len(),
            av == lines_view(a@),
            bv == lines_view(b@),
            i <= n,
            dp@.len() == n + 1 - i,
            forall|r: int| 0 <= r < dp@.len() ==> #[trigger] dp@[r]@.len() == m + 1,
            forall|r: int, j: int|
                0 <= r < dp@.len() && 0 <= j <= m ==> #[trigger] dp@[r]@[j] == lcs(
                    av.skip(i + r),
                    bv.skip(j),
                ),
        decreases i,
    {
        let row_i = i - 1;
        let mut row: Vec<usize> = Vec::new();
        // the right edge: against the empty suffix of `b`
        row.push(0);
        proof {
            lemma_lcs_skip(av, bv, row_i as int, m as int);
        }
        // build the rest of the row from right to left
        let mut j: usize = m;
        while j > 0
            invariant
                n == av.len(),
                m == bv.len(),
                av == lines_view(a@),
                bv == lines_view(b@),
                row_i == i - 1,
                1 <= i <= n,
                j <= m,
                dp@.len() == n + 1 - i,
                forall|r: int| 0 <= r < dp@.len() ==> #[trigger] dp@[r]@.len() == m + 1,
                forall|r: int, j2: int|
                    0 <= r < dp@.len() && 0 <= j2 <= m ==> #[trigger] dp@[r]@[j2] == lcs(
                        av.skip(i + r),
                        bv.skip(j2),
                    ),
                row@.len() == m + 1 - j,
                forall|k: int| 0 <= k < row@.len() ==> #[trigger] row@[k] == lcs(
                    av.skip(row_i as int),
                    bv.skip(j + k),
                ),
            decreases j,
        {
            let cur_j = j - 1;
            proof {
                lemma_lcs_skip(av, bv, row_i as int, cur_j as int);
                lemma_lcs_bound(av.skip(row_i + 1), bv.skip(cur_j as int));
                lemma_lcs_bound(av.skip(row_i as int), bv.skip(cur_j + 1));
                lemma_lcs_bound(av.skip(row_i + 1), bv.skip(cur_j + 1));
                assert(av.skip(row_i + 1).len() == n - row_i - 1);
            }
            let v: usize = if str_eq(a[row_i].as_str(), b[cur_j].as_str()) {
                proof {
                    assert(av[row_i as int] == a@[row_i as int]@);
                    assert(bv[cur_j as int] == b@[cur_j as int]@);
                }
                1 + dp[0][cur_j + 1]
            } else {
                proof {
                    assert(av[row_i as int] == a@[row_i as int]@);
                    assert(bv[cur_j as int] == b@[cur_j as int]@);
                }
                let down = dp[0][cur_j];
                let right = row[0];
                if down > right {
                    down
                } else {
                    right
                }
            };
            let ghost pre_row = row@;
            row.insert(0, v);
            proof {
                assert forall|k: int| 0 <= k < row@.len() implies #[trigger] row@[k] == lcs(
                    av.skip(row_i as int),
                    bv.skip(cur_j + k),
                ) by {
                    if k > 0 {
                        assert(row@[k] == pre_row[k - 1]);
                        assert(pre_row[k - 1] == lcs(av.skip(row_i as int), bv.skip(j + (k - 1))));
                    }
                }
            }
            j = j - 1;
        }
        dp.insert(0, row);
        i = i - 1;
    }
    proof {
        assert forall|i2: int, j2: int|
            0 <= i2 <= a@.len() && 0 <= j2 <= b@.len() implies #[trigger] dp@[i2]@[j2] == lcs(
            lines_view(a@).skip(i2),
            lines_view(b@).skip(j2),
        ) by {
            assert(dp@[i2]@[j2] == lcs(av.skip(0 + i2), bv.skip(j2)));
        }
    }
    dp
}

// ---------------------------------------------------------------------------
// Backtracking along the table
// ---------------------------------------------------------------------------

/// The tie-breaking rule when both directions preserve the subsequence
/// length: prefer the longer remaining side, then the lexicographically
/// smaller line. Antisymmetric, so diffing the two texts in either order
/// yields mirrored alignments.
pub open spec fn take_removed(a: Seq<Seq<char>>, b: Seq<Seq<char>>, i: int, j: int) -> bool {
    let lr = lcs(a.skip(i + 1), b.skip(j));
    let la = lcs(a.skip(i), b.skip(j + 1));
    if lr != la {
        lr > la
    } else if a.len() - i != b.len() - j {
        a.len() - i > b.len() - j
    } else {
        lex_lt(a[i], b[j])
    }
}

/// The raw alignment: unchanged, removed and added lines in output order,
/// walking both line sequences from the front along an optimal path.
pub open spec fn backtrack(a: Seq<Seq<char>>, b: Seq<Seq<char>>, i: int, j: int) -> Seq<
    DiffEntry,
>
    decreases a.len() - i + b.len() - j when 0 <= i <= a.len() && 0 <= j <= b.len()
{
    if i >= a.len() && j >= b.len() {
        Seq::empty()
    } else if j >= b.len() {
        seq![((Some(i as usize), None::<usize>), DiffChange::Removed)] + backtrack(a, b, i + 1, j)
    } else if i >= a.len() {
        seq![((None::<usize>, Some(j as usize)), DiffChange::Added)] + backtrack(a, b, i, j + 1)
    } else if a[i] == b[j] {
        seq![((Some(i as usize), Some(j as usize)), DiffChange::Unchanged)] + backtrack(
            a,
            b,
            i + 1,
            j + 1,
        )
    } else if take_removed(a, b, i, j) {
        seq![((Some(i as usize), None::<usize>), DiffChange::Removed)] + backtrack(a, b, i + 1, j)
    } else {
        seq![((None::<usize>, Some(j as usize)), DiffChange::Added)] + backtrack(a, b, i, j + 1)
    }
}

/// Entry validity: line numbers present as the kind demands and within the
/// two line counts; the raw alignment never emits pairs.
pub open spec fn entry_valid(e: DiffEntry, n: int, m: int) -> bool {
    match e.1 {
        DiffChange::Unchanged => (e.0.0 matches Some(o) && o < n) && (e.0.1 matches Some(w) && w
            < m),
        DiffChange::Removed => (e.0.0 matches Some(o) && o < n) && e.0.1 is None,
        DiffChange::Added => e.0.0 is None && (e.0.1 matches Some(w) && w < m),
        DiffChange::ModifiedPair => (e.0.0 matches Some(o) && o < n) && (e.0.1 matches Some(w)
            && w < m),
    }
}

/// All entries valid against the two line counts, none of them a pair.
pub open spec fn entries_valid(es: Seq<DiffEntry>, n: int, m: int) -> bool {
    forall|k: int|
        0 <= k < es.len() ==> #[trigger] entry_valid(es[k], n, m) && !(es[k].1 is ModifiedPair)
}

/// The exec walk along the finished table, mirroring `backtrack` decision
/// for decision.
#[verifier::rlimit(60)]
#[verifier::loop_isolation(false)]
fn backtrack_exec(a: &Vec<String>, b: &Vec<String>) -> (out: Vec<DiffEntry>)
    ensures
        out@ == backtrack(lines_view(a@), lines_view(b@), 0, 0),
        entries_valid(out@, a@.len() as int, b@.len() as int),
{
    let ghost av = lines_view(a@);
    let ghost bv = lines_view(b@);
    let dp = lcs_table(a, b);
    let n = a.len();
    let m = b.len();
    let mut out: Vec<DiffEntry> = Vec::new();
    let mut i: usize = 0;
    let mut j: usize = 0;
    proof {
        assert(av.len() == n && bv.len() == m);
    }
    while i < n || j < m
        invariant
            i <= n,
            j <= m,
            backtrack(av, bv, 0, 0) == out@ + backtrack(av, bv, i as int, j as int),
            entries_valid(out@, n as int, m as int),
        decreases n - i + m - j,
    {
        let ghost pre_i = i as int;
        let ghost pre_j = j as int;
        let ghost pre_out = out@;
        let e: DiffEntry;
        if j == m {
            e = ((Some(i), None), DiffChange::Removed);
            i = i + 1;
            proof {
                assert(e == ((Some(pre_i as usize), None::<usize>), DiffChange::Removed));
                assert(backtrack(av, bv, pre_i, pre_j) == seq![e] + backtrack(
                    av,
                    bv,
                    i as int,
                    j as int,
                ));
            }
        } else if i == n {
            e = ((None, Some(j)), DiffChange::Added);
            j = j + 1;
            proof {
                assert(e == ((None::<usize>, Some(pre_j as usize)), DiffChange::Added));
                assert(backtrack(av, bv, pre_i, pre_j) == seq![e] + backtrack(
                    av,
                    bv,
                    i as int,
                    j as int,
                ));
            }
        } else if str_eq(a[i].as_str(), b[j].as_str()) {
            proof {
                assert(av[i as int] == a@[i as int]@);
                assert(bv[j as int] == b@[j as int]@);
            }
            e = ((Some(i), Some(j)), DiffChange::Unchanged);
            i = i + 1;
            j = j + 1;
            proof {
                assert(av[pre_i] == bv[pre_j]);
                assert(backtrack(av, bv, pre_i, pre_j) == seq![e] + backtrack(
                    av,
                    bv,
                    i as int,
                    j as int,
                ));
            }
        } else {
            proof {
                assert(av[i as int] == a@[i as int]@);
                assert(bv[j as int] == b@[j as int]@);
            }
            let lr = dp[i + 1][j];
            let la = dp[i][j + 1];
            let rem: bool = if lr != la {
                lr > la
            } else if n - i != m - j {
                n - i > m - j
            } else {
                str_lex_lt(a[i].as_str(), b[j].as_str())
            };
            proof {
                assert(rem == take_removed(av, bv, i as int, j as int));
            }
            if rem {
                e = ((Some(i), None), DiffChange::Removed);
                i = i + 1;
            } else {
                e = ((None, Some(j)), DiffChange::Added);
                j = j + 1;
            }
            proof {
                assert(av[pre_i] != bv[pre_j]);
                assert(backtrack(av, bv, pre_i, pre_j) == seq![e] + backtrack(
                    av,
                    bv,
                    i as int,
                    j as int,
                ));
            }
        }
        out.push(e);
        proof {
            assert(backtrack(av, bv, pre_i, pre_j) == seq![e] + backtrack(
                av,
                bv,
                i as int,
                j as int,
            ));
            assert(out@ + backtrack(av, bv, i as int, j as int) =~= pre_out + backtrack(
                av,
                bv,
                pre_i,
                pre_j,
            ));
            assert(!(e.1 is ModifiedPair));
            assert(entry_valid(e, n as int, m as int));
            assert forall|k: int| 0 <= k < out@.len() implies #[trigger] entry_valid(
                out@[k],
                n as int,
                m as int,
            ) && !(out@[k].1 is ModifiedPair) by {
                if k < out@.len() - 1 {
                    assert(entry_valid(pre_out[k], n as int, m as int));
                    assert(out@[k] == pre_out[k]);
                } else {
                    assert(out@[k] == e);
                }
            }
            assert(entries_valid(out@, n as int, m as int));
        }
    }
    proof {
        assert(backtrack(av, bv, n as int, m as int) == Seq::<DiffEntry>::empty());
        assert(out@ + Seq::<DiffEntry>::empty() =~= out@);
        assert(n as int == a@.len() as int && m as int == b@.len() as int);
    }
    out
}

// ---------------------------------------------------------------------------
// Pairing removed and added lines of one changed region
// ---------------------------------------------------------------------------

/// Pairs the pending removed and added lines of one changed region: the
/// k-th removal and the k-th insertion become one modified pair; leftovers
/// stay as they are.
pub open spec fn flush_run(rs: Seq<DiffEntry>, adds: Seq<DiffEntry>) -> Seq<DiffEntry>
    decreases rs.len() + adds.len(),
{
    if rs.len() > 0 && adds.len() > 0 {
        seq![((rs[0].0.0, adds[0].0.1), DiffChange::ModifiedPair)] + flush_run(
            rs.drop_first(),
            adds.drop_first(),
        )
    } else {
        rs + adds
    }
}

/// One pass over the raw alignment: buffers removals and insertions of the
/// current changed region and flushes them as pairs at every unchanged line
/// and at the end.
pub open spec fn pair_stream(
    s: Seq<DiffEntry>,
    rs: Seq<DiffEntry>,
    adds: Seq<DiffEntry>,
) -> Seq<DiffEntry>
    decreases s.len(),
{
    if s.len() == 0 {
        flush_run(rs, adds)
    } else if s[0].1 is Unchanged {
        flush_run(rs, adds) + seq![s[0]] + pair_stream(s.drop_first(), Seq::empty(), Seq::empty())
    } else if s[0].1 is Removed {
        pair_stream(s.drop_first(), rs.push(s[0]), adds)
    } else {
        pair_stream(s.drop_first(), rs, adds.push(s[0]))
    }
}

/// The paired alignment.
pub open spec fn pair_entries(s: Seq<DiffEntry>) -> Seq<DiffEntry> {
    pair_stream(s, Seq::empty(), Seq::empty())
}

/// Appends the pairing of one finished region.
#[verifier::rlimit(60)]
#[verifier::loop_isolation(false)]
fn flush_into(out: &mut Vec<DiffEntry>, rs: &Vec<DiffEntry>, adds: &Vec<DiffEntry>)
    ensures
        final(out)@ == old(out)@ + flush_run(rs@, adds@),
{
    let nr = rs.len();
    let na = adds.len();
    let np = if nr < na {
        nr
    } else {
        na
    };
    let mut k: usize = 0;
    proof {
        assert(rs@.skip(0) =~= rs@);
        assert(adds@.skip(0) =~= adds@);
    }
    while k < np
        invariant
            k <= np,
            out@ + flush_run(rs@.skip(k as int), adds@.skip(k as int)) == old(out)@ + flush_run(
                rs@,
                adds@,
            ),
        decreases np - k,
    {
        proof {
            let sr = rs@.skip(k as int);
            let sa = adds@.skip(k as int);
            assert(sr[0] == rs@[k as int]);
            assert(sa[0] == adds@[k as int]);
            assert(sr.drop_first() =~= rs@.skip(k as int + 1));
            assert(sa.drop_first() =~= adds@.skip(k as int + 1));
        }
        let e: DiffEntry = ((rs[k].0.0, adds[k].0.1), DiffChange::ModifiedPair);
        out.push(e);
        proof {
            assert(out@ + flush_run(rs@.skip(k + 1), adds@.skip(k + 1)) =~= old(out)@ + flush_run(
                rs@,
                adds@,
            ));
        }
        k = k + 1;
    }
    // leftovers of the longer side
    let mut k2: usize = np;
    while k2 < nr
        invariant
            np <= k2 <= nr,
            out@ + flush_run(rs@.skip(k2 as int), adds@.skip(np as int)) == old(out)@ + flush_run(
                rs@,
                adds@,
            ),
        decreases nr - k2,
    {
        proof {
            let sr = rs@.skip(k2 as int);
            assert(sr[0] == rs@[k2 as int]);
            assert(sr.drop_first() =~= rs@.skip(k2 as int + 1));
            assert(flush_run(sr, adds@.skip(np as int)) =~= sr + adds@.skip(np as int));
        }
        out.push(rs[k2]);
        proof {
            let sr2 = rs@.skip(k2 as int + 1);
            assert(flush_run(sr2, adds@.skip(np as int)) =~= sr2 + adds@.skip(np as int));
            assert(out@ + (sr2 + adds@.skip(np as int)) =~= old(out)@ + flush_run(rs@, adds@));
        }
        k2 = k2 + 1;
    }
    let mut k3: usize = np;
    while k3 < na
        invariant
            np <= k3 <= na,
            rs@.skip(nr as int).len() == 0,
            out@ + flush_run(rs@.skip(nr as int), adds@.skip(k3 as int)) == old(out)@ + flush_run(
                rs@,
                adds@,
            ),
        decreases na - k3,
    {
        proof {
            let sa = adds@.skip(k3 as int);
            assert(sa[0] == adds@[k3 as int]);
            assert(sa.drop_first() =~= adds@.skip(k3 as int + 1));
            assert(flush_run(rs@.skip(nr as int), sa) =~= sa);
        }
        out.push(adds[k3]);
        proof {
            let sa2 = adds@.skip(k3 as int + 1);
            assert(flush_run(rs@.skip(nr as int), sa2) =~= sa2);
            assert(out@ + sa2 =~= old(out)@ + flush_run(rs@, adds@));
        }
        k3 = k3 + 1;
    }
    proof {
        assert(rs@.skip(nr as int).len() == 0 && adds@.skip(na as int).len() == 0);
        assert(flush_run(rs@.skip(nr as int), adds@.skip(na as int)) =~= Seq::<
            DiffEntry,
        >::empty());
        assert(out@ + Seq::<DiffEntry>::empty() =~= out@);
    }
}

/// The exec pairing pass.
#[verifier::loop_isolation(false)]
fn pair_entries_exec(entries: &Vec<DiffEntry>) -> (out: Vec<DiffEntry>)
    ensures
        out@ == pair_entries(entries@),
{
    let n = entries.len();
    let mut out: Vec<DiffEntry> = Vec::new();
    let mut pending_removed: Vec<DiffEntry> = Vec::new();
    let mut pending_added: Vec<DiffEntry> = Vec::new();
    proof {
        assert(entries@.skip(0) =~= entries@);
    }
    let mut i: usize = 0;
    while i < n
        invariant
            i <= n,
            n == entries@.len(),
            pair_entries(entries@) == out@ + pair_stream(
                entries@.skip(i as int),
                pending_removed@,
                pending_added@,
            ),
        decreases n - i,
    {
        proof {
            let sp = entries@.skip(i as int);
            assert(sp[0] == entries@[i as int]);
            assert(sp.drop_first() =~= entries@.skip(i as int + 1));
        }
        let e = entries[i];
        match e.1 {
            DiffChange::Unchanged => {
                flush_into(&mut out, &pending_removed, &pending_added);
                out.push(e);
                pending_removed = Vec::new();
                pending_added = Vec::new();
                proof {
                    assert(pair_entries(entries@) == out@ + pair_stream(
                        entries@.skip(i as int + 1),
                        pending_removed@,
                        pending_added@,
                    ));
                }
            },
            DiffChange::Removed => {
                pending_removed.push(e);
            },
            _ => {
                pending_added.push(e);
            },
        }
        i = i + 1;
    }
    flush_into(&mut out, &pending_removed, &pending_added);
    proof {
        assert(entries@.skip(n as int).len() == 0);
    }
    out
}

// ---------------------------------------------------------------------------
// Validity through the pairing pass
// ---------------------------------------------------------------------------

/// Every buffered entry of one kind.
pub open spec fn all_kind(es: Seq<DiffEntry>, k: DiffChange) -> bool {
    forall|i: int| 0 <= i < es.len() ==> es[i].1 == k
}

proof fn lemma_flush_run_valid(rs: Seq<DiffEntry>, adds: Seq<DiffEntry>, n: int, m: int)
    requires
        all_kind(rs, DiffChange::Removed),
        all_kind(adds, DiffChange::Added),
        forall|i: int| 0 <= i < rs.len() ==> entry_valid(#[trigger] rs[i], n, m),
        forall|i: int| 0 <= i < adds.len() ==> entry_valid(#[trigger] adds[i], n, m),
    ensures
        forall|i: int|
            0 <= i < flush_run(rs, adds).len() ==> entry_valid(
                #[trigger] flush_run(rs, adds)[i],
                n,
                m,
            ),
    decreases rs.len() + adds.len(),
{
    if rs.len() > 0 && adds.len() > 0 {
        assert(entry_valid(rs[0], n, m));
        assert(entry_valid(adds[0], n, m));
        assert(rs.drop_first().len() == rs.len() - 1);
        assert(adds.drop_first().len() == adds.len() - 1);
        assert forall|i: int| 0 <= i < rs.drop_first().len() implies entry_valid(
            #[trigger] rs.drop_first()[i],
            n,
            m,
        ) && rs.drop_first()[i].1 == DiffChange::Removed by {
            assert(rs.drop_first()[i] == rs[i + 1]);
        }
        assert forall|i: int| 0 <= i < adds.drop_first().len() implies entry_valid(
            #[trigger] adds.drop_first()[i],
            n,
            m,
        ) && adds.drop_first()[i].1 == DiffChange::Added by {
            assert(adds.drop_first()[i] == adds[i + 1]);
        }
        lemma_flush_run_valid(rs.drop_first(), adds.drop_first(), n, m);
        let head = ((rs[0].0.0, adds[0].0.1), DiffChange::ModifiedPair);
        assert(entry_valid(head, n, m));
        assert forall|i: int| 0 <= i < flush_run(rs, adds).len() implies entry_valid(
            #[trigger] flush_run(rs, adds)[i],
            n,
            m,
        ) by {
            if i > 0 {
                assert(flush_run(rs, adds)[i] == flush_run(rs.drop_first(), adds.drop_first())[i
                    - 1]);
            }
        }
    } else {
        assert forall|i: int| 0 <= i < flush_run(rs, adds).len() implies entry_valid(
            #[trigger] flush_run(rs, adds)[i],
            n,
            m,
        ) by {
            if i < rs.len() {
                assert(flush_run(rs, adds)[i] == rs[i]);
            } else {
                assert(flush_run(rs, adds)[i] == adds[i - rs.len()]);
            }
        }
    }
}

/// Pairing preserves entry validity.
proof fn lemma_pair_stream_valid(
    s: Seq<DiffEntry>,
    rs: Seq<DiffEntry>,
    adds: Seq<DiffEntry>,
    n: int,
    m: int,
)
    requires
        entries_valid(s, n, m),
        all_kind(rs, DiffChange::Removed),
        all_kind(adds, DiffChange::Added),
        forall|i: int| 0 <= i < rs.len() ==> entry_valid(#[trigger] rs[i], n, m),
        forall|i: int| 0 <= i < adds.len() ==> entry_valid(#[trigger] adds[i], n, m),
    ensures
        forall|i: int|
            0 <= i < pair_stream(s, rs, adds).len() ==> entry_valid(
                #[trigger] pair_stream(s, rs, adds)[i],
                n,
                m,
            ),
    decreases s.len(),
{
    if s.len() == 0 {
        lemma_flush_run_valid(rs, adds, n, m);
    } else {
        assert(entry_valid(s[0], n, m));
        assert(entries_valid(s.drop_first(), n, m)) by {
            assert forall|i: int| 0 <= i < s.drop_first().len() implies #[trigger] entry_valid(
                s.drop_first()[i],
                n,
                m,
            ) && !(s.drop_first()[i].1 is ModifiedPair) by {
                assert(s.drop_first()[i] == s[i + 1]);
                assert(entry_valid(s[i + 1], n, m));
            }
        }
        if s[0].1 is Unchanged {
            lemma_flush_run_valid(rs, adds, n, m);
            lemma_pair_stream_valid(s.drop_first(), Seq::empty(), Seq::empty(), n, m);
            let whole = pair_stream(s, rs, adds);
            let fr = flush_run(rs, adds);
            let rest = pair_stream(s.drop_first(), Seq::empty(), Seq::empty());
            assert(whole == fr + seq![s[0]] + rest);
            assert forall|i: int| 0 <= i < whole.len() implies entry_valid(
                #[trigger] whole[i],
                n,
                m,
            ) by {
                if i < fr.len() {
                    assert(whole[i] == fr[i]);
                } else if i == fr.len() {
                    assert(whole[i] == s[0]);
                } else {
                    assert(whole[i] == rest[i - fr.len() - 1]);
                }
            }
        } else if s[0].1 is Removed {
            assert forall|i: int| 0 <= i < rs.push(s[0]).len() implies entry_valid(
                #[trigger] rs.push(s[0])[i],
                n,
                m,
            ) && rs.push(s[0])[i].1 == DiffChange::Removed by {
                if i < rs.len() {
                    assert(rs.push(s[0])[i] == rs[i]);
                }
            }
            lemma_pair_stream_valid(s.drop_first(), rs.push(s[0]), adds, n, m);
            assert(pair_stream(s, rs, adds) == pair_stream(s.drop_first(), rs.push(s[0]), adds));
        } else {
            assert(s[0].1 is Added);
            assert forall|i: int| 0 <= i < adds.push(s[0]).len() implies entry_valid(
                #[trigger] adds.push(s[0])[i],
                n,
                m,
            ) && adds.push(s[0])[i].1 == DiffChange::Added by {
                if i < adds.len() {
                    assert(adds.push(s[0])[i] == adds[i]);
                }
            }
            lemma_pair_stream_valid(s.drop_first(), rs, adds.push(s[0]), n, m);
            assert(pair_stream(s, rs, adds) == pair_stream(s.drop_first(), rs, adds.push(s[0])));
        }
    }
}

// ---------------------------------------------------------------------------
// The merged text
// ---------------------------------------------------------------------------

/// What one aligned entry shows in the merged text: the line itself, or
/// both sides of a modified pair.
pub open spec fn entry_text(ol: Seq<Seq<char>>, nl: Seq<Seq<char>>, e: DiffEntry) -> Seq<char> {
    match e.1 {
        DiffChange::Unchanged => ol[e.0.0.unwrap() as int],
        DiffChange::Removed => ol[e.0.0.unwrap() as int],
        DiffChange::Added => nl[e.0.1.unwrap() as int],
        DiffChange::ModifiedPair => ol[e.0.0.unwrap() as int] + seq!['\n'] + nl[e.0.1.unwrap()
            as int],
    }
}

/// The merged rendering: one line per entry (two for a pair), joined with
/// newlines.
pub open spec fn merged_text(ol: Seq<Seq<char>>, nl: Seq<Seq<char>>, es: Seq<DiffEntry>) -> Seq<
    char,
>
    decreases es.len(),
{
    if es.len() == 0 {
        Seq::empty()
    } else if es.len() == 1 {
        entry_text(ol, nl, es[0])
    } else {
        entry_text(ol, nl, es[0]) + seq!['\n'] + merged_text(ol, nl, es.drop_first())
    }
}

proof fn lemma_merged_snoc(ol: Seq<Seq<char>>, nl: Seq<Seq<char>>, es: Seq<DiffEntry>, e: DiffEntry)
    ensures
        merged_text(ol, nl, es.push(e)) == (if es.len() == 0 {
            entry_text(ol, nl, e)
        } else {
            merged_text(ol, nl, es) + seq!['\n'] + entry_text(ol, nl, e)
        }),
    decreases es.len(),
{
    let p = es.push(e);
    if es.len() == 0 {
        assert(p.len() == 1 && p[0] == e);
    } else {
        assert(p[0] == es[0]);
        assert(p.drop_first() =~= es.drop_first().push(e));
        lemma_merged_snoc(ol, nl, es.drop_first(), e);
        if es.len() == 1 {
            assert(merged_text(ol, nl, p.drop_first()) == entry_text(ol, nl, e));
        } else {
            assert(entry_text(ol, nl, es[0]) + seq!['\n'] + (merged_text(ol, nl, es.drop_first())
                + seq!['\n'] + entry_text(ol, nl, e)) =~= (entry_text(ol, nl, es[0]) + seq!['\n']
                + merged_text(ol, nl, es.drop_first())) + seq!['\n'] + entry_text(ol, nl, e));
        }
    }
}

fn entry_text_exec(ol: &Vec<String>, nl: &Vec<String>, e: &DiffEntry) -> (r: String)
    requires
        entry_valid(*e, ol@.len() as int, nl@.len() as int),
    ensures
        r@ == entry_text(lines_view(ol@), lines_view(nl@), *e),
{
    proof {
        assert forall|k: int| 0 <= k < ol@.len() implies #[trigger] lines_view(ol@)[k]
            == ol@[k]@ by {}
        assert forall|k: int| 0 <= k < nl@.len() implies #[trigger] lines_view(nl@)[k]
            == nl@[k]@ by {}
    }
    match e.1 {
        DiffChange::Unchanged => {
            let o = e.0.0.unwrap();
            ol[o].as_str().to_owned()
        },
        DiffChange::Removed => {
            let o = e.0.0.unwrap();
            ol[o].as_str().to_owned()
        },
        DiffChange::Added => {
            let w = e.0.1.unwrap();
            nl[w].as_str().to_owned()
        },
        DiffChange::ModifiedPair => {
            let o = e.0.0.unwrap();
            let w = e.0.1.unwrap();
            let mut t = ol[o].as_str().to_owned();
            t.append("\n");
            proof {
                reveal_strlit("\n");
                assert("\n"@ =~= seq!['\n']);
            }
            t.append(nl[w].as_str());
            t
        },
    }
}

#[verifier::loop_isolation(false)]
fn build_merged(ol: &Vec<String>, nl: &Vec<String>, es: &Vec<DiffEntry>) -> (r: String)
    requires
        forall|i: int|
            0 <= i < es@.len() ==> entry_valid(#[trigger] es@[i], ol@.len() as int, nl@.len() as int),
    ensures
        r@ == merged_text(lines_view(ol@), lines_view(nl@), es@),
{
    let ghost olv = lines_view(ol@);
    let ghost nlv = lines_view(nl@);
    let n = es.len();
    let mut r = String::new();
    proof {
        assert(es@.take(0) =~= Seq::<DiffEntry>::empty());
    }
    for i in 0..n
        invariant
            n == es@.len(),
            r@ == merged_text(olv, nlv, es@.take(i as int)),
    {
        if i > 0 {
            r.append("\n");
            proof {
                reveal_strlit("\n");
                assert("\n"@ =~= seq!['\n']);
            }
        }
        let t = entry_text_exec(ol, nl, &es[i]);
        r.append(t.as_str());
        proof {
            assert(es@.take(i + 1).drop_last() =~= es@.take(i as int));
            assert(es@.take(i + 1) =~= es@.take(i as int).push(es@[i as int]));
            lemma_merged_snoc(olv, nlv, es@.take(i as int), es@[i as int]);
        }
    }
    proof {
        assert(es@.take(n as int) =~= es@);
    }
    r
}

// ---------------------------------------------------------------------------
// The public diff operation
// ---------------------------------------------------------------------------

/// The aligned entries a diff of two texts produces.
pub open spec fn spec_diff_entries(old_text: Seq<char>, new_text: Seq<char>) -> Seq<DiffEntry> {
    pair_entries(backtrack(split_lines(old_text), split_lines(new_text), 0, 0))
}

/// The merged rendering a diff of two texts produces.
pub open spec fn spec_diff_merged(old_text: Seq<char>, new_text: Seq<char>) -> Seq<char> {
    merged_text(
        split_lines(old_text),
        split_lines(new_text),
        spec_diff_entries(old_text, new_text),
    )
}

/// Aligns two texts line by line: every output entry names the old and new
/// line it came from and its change kind, and the merged text shows
/// unchanged lines once and changed regions from both sides.
pub fn diff_texts(old_text: &str, new_text: &str) -> (r: DiffedType)
    ensures
        r.metadata@ == spec_diff_entries(old_text@, new_text@),
        r.data@ == spec_diff_merged(old_text@, new_text@),
{
    let ol = split_lines_exec(old_text);
    let nl = split_lines_exec(new_text);
    proof {
        assert(lines_view(ol@) =~= split_lines(old_text@));
        assert(lines_view(nl@) =~= split_lines(new_text@));
    }
    let raw = backtrack_exec(&ol, &nl);
    let paired = pair_entries_exec(&raw);
    proof {
        lemma_pair_stream_valid(
            raw@,
            Seq::empty(),
            Seq::empty(),
            ol@.len() as int,
            nl@.len() as int,
        );
    }
    let data = build_merged(&ol, &nl, &paired);
    DiffedType { metadata: paired, data }
}

/// Reconstructs the same name from both containers independently and
/// aligns the two texts. Fails with `TypeNotFound` when either container
/// lacks the name, the first container deciding first.
pub fn diff_type_by_name(
    pdb_file_from: &PdbFile,
    pdb_file_to: &PdbFile,
    name: &str,
    flavor: PrimitiveReconstructionFlavor,
    print_header: bool,
    reconstruct_dependencies: bool,
    print_access_specifiers: bool,
) -> (r: Result<DiffedType, ResymError>)
    ensures
        ({
            let ia = find_by_name(pdb_file_from.records@, name@);
            let ib = find_by_name(pdb_file_to.records@, name@);
            let ta = spec_reconstruct(
                pdb_file_from.records@,
                index_map_entries(pdb_file_from.forwarder_to_complete_type),
                flavor,
                print_access_specifiers,
                print_header,
                reconstruct_dependencies,
                ia.unwrap(),
                pdb_file_from.file_path@,
            );
            let tb = spec_reconstruct(
                pdb_file_to.records@,
                index_map_entries(pdb_file_to.forwarder_to_complete_type),
                flavor,
                print_access_specifiers,
                print_header,
                reconstruct_dependencies,
                ib.unwrap(),
                pdb_file_to.file_path@,
            );
            &&& (ia is None ==> r == Err::<DiffedType, ResymError>(ResymError::TypeNotFound))
            &&& (ia is Some && ib is None && ta is Some ==> r == Err::<DiffedType, ResymError>(
                ResymError::TypeNotFound,
            ))
            &&& (r matches Err(e) ==> e is TypeNotFound || e is RenderFailed)
            &&& (ia is Some && ib is Some && ta is Some && tb is Some ==> (r matches Ok(d)
                && d.metadata@ == spec_diff_entries(ta.unwrap(), tb.unwrap()) && d.data@
                == spec_diff_merged(ta.unwrap(), tb.unwrap())))
        }),
{
    let text_from = match pdb_file_from.reconstruct_type_by_name(
        name,
        flavor,
        print_header,
        reconstruct_dependencies,
        print_access_specifiers,
    ) {
        Ok(t) => t,
        Err(e) => {
            return Err(e);
        },
    };
    let text_to = match pdb_file_to.reconstruct_type_by_name(
        name,
        flavor,
        print_header,
        reconstruct_dependencies,
        print_access_specifiers,
    ) {
        Ok(t) => t,
        Err(e) => {
            return Err(e);
        },
    };
    Ok(diff_texts(text_from.as_str(), text_to.as_str()))
}

// ---------------------------------------------------------------------------
// Laws of the diff
// ---------------------------------------------------------------------------

proof fn lemma_backtrack_diag(l: Seq<Seq<char>>, i: int)
    requires
        0 <= i <= l.len(),
    ensures
        backtrack(l, l, i, i).len() == l.len() - i,
        forall|k: int|
            0 <= k < l.len() - i ==> #[trigger] backtrack(l, l, i, i)[k] == (
                (Some((i + k) as usize), Some((i + k) as usize)),
                DiffChange::Unchanged,
            ),
    decreases l.len() - i,
{
    if i < l.len() {
        lemma_backtrack_diag(l, i + 1);
        let whole = backtrack(l, l, i, i);
        let head: DiffEntry = ((Some(i as usize), Some(i as usize)), DiffChange::Unchanged);
        assert(whole == seq![head] + backtrack(l, l, i + 1, i + 1));
        assert forall|k: int| 0 <= k < l.len() - i implies #[trigger] whole[k] == (
            (Some((i + k) as usize), Some((i + k) as usize)),
            DiffChange::Unchanged,
        ) by {
            if k > 0 {
                assert(whole[k] == backtrack(l, l, i + 1, i + 1)[k - 1]);
            }
        }
    }
}

proof fn lemma_pair_unchanged(es: Seq<DiffEntry>)
    requires
        forall|k: int| 0 <= k < es.len() ==> (#[trigger] es[k]).1 is Unchanged,
    ensures
        pair_stream(es, Seq::empty(), Seq::empty()) == es,
    decreases es.len(),
{
    if es.len() == 0 {
        assert(pair_stream(es, Seq::empty(), Seq::empty()) =~= es);
    } else {
        assert(es[0].1 is Unchanged);
        assert forall|k: int| 0 <= k < es.drop_first().len() implies (#[trigger] es.drop_first()[
            k
        ]).1 is Unchanged by {
            assert(es.drop_first()[k] == es[k + 1]);
        }
        lemma_pair_unchanged(es.drop_first());
        assert(flush_run(Seq::empty(), Seq::empty()) =~= Seq::<DiffEntry>::empty());
        assert(pair_stream(es, Seq::empty(), Seq::empty()) =~= es);
    }
}

proof fn lemma_merged_unchanged(l: Seq<Seq<char>>, es: Seq<DiffEntry>, ofs: int)
    requires
        0 <= ofs <= l.len(),
        es.len() == l.len() - ofs,
        forall|k: int|
            0 <= k < es.len() ==> #[trigger] es[k] == (
                (Some((ofs + k) as usize), Some((ofs + k) as usize)),
                DiffChange::Unchanged,
            ),
        l.len() <= usize::MAX,
    ensures
        merged_text(l, l, es) == crate::strings::join_lines(l.skip(ofs)),
    decreases es.len(),
{
    let sk = l.skip(ofs);
    if es.len() == 0 {
        assert(sk.len() == 0);
    } else if es.len() == 1 {
        assert(es[0] == ((Some(ofs as usize), Some(ofs as usize)), DiffChange::Unchanged));
        assert(entry_text(l, l, es[0]) == l[ofs]);
        assert(sk.len() == 1);
        assert(sk[0] == l[ofs]);
    } else {
        assert(es[0] == ((Some(ofs as usize), Some(ofs as usize)), DiffChange::Unchanged));
        assert(entry_text(l, l, es[0]) == l[ofs]);
        assert forall|k: int| 0 <= k < es.drop_first().len() implies #[trigger] es.drop_first()[k]
            == ((Some((ofs + 1 + k) as usize), Some((ofs + 1 + k) as usize)),
            DiffChange::Unchanged,
        ) by {
            assert(es.drop_first()[k] == es[k + 1]);
        }
        lemma_merged_unchanged(l, es.drop_first(), ofs + 1);
        assert(sk[0] == l[ofs]);
        assert(sk.drop_first() =~= l.skip(ofs + 1));
        assert(crate::strings::join_lines(sk) == sk[0] + seq!['\n'] + crate::strings::join_lines(
            sk.drop_first(),
        ));
    }
}

/// Law: diffing a text against itself yields only unchanged entries, one
/// per line, and a merged text equal to the text itself.
pub proof fn lemma_diff_self(t: Seq<char>)
    requires
        t.len() + 1 <= usize::MAX,
    ensures
        forall|k: int|
            0 <= k < spec_diff_entries(t, t).len() ==> (#[trigger] spec_diff_entries(t, t)[k]).1
                is Unchanged,
        spec_diff_merged(t, t) == t,
{
    let l = split_lines(t);
    crate::strings::lemma_split_join(t);
    crate::strings::lemma_split_len(t);
    lemma_backtrack_diag(l, 0);
    let bt = backtrack(l, l, 0, 0);
    assert forall|k: int| 0 <= k < bt.len() implies (#[trigger] bt[k]).1 is Unchanged by {
        assert(bt[k] == ((Some(k as usize), Some(k as usize)), DiffChange::Unchanged));
    }
    lemma_pair_unchanged(bt);
    assert(spec_diff_entries(t, t) == bt);
    lemma_merged_unchanged(l, bt, 0);
    assert(l.skip(0) =~= l);
}

// ---------------------------------------------------------------------------
// Symmetry of the diff
// ---------------------------------------------------------------------------

/// Swapping the two texts swaps additions and removals.
pub open spec fn mirror_kind(k: DiffChange) -> DiffChange {
    match k {
        DiffChange::Unchanged => DiffChange::Unchanged,
        DiffChange::Added => DiffChange::Removed,
        DiffChange::Removed => DiffChange::Added,
        DiffChange::ModifiedPair => DiffChange::ModifiedPair,
    }
}

/// One entry with the old and new roles swapped.
pub open spec fn mirror_entry(e: DiffEntry) -> DiffEntry {
    ((e.0.1, e.0.0), mirror_kind(e.1))
}

pub open spec fn mirror_entries(es: Seq<DiffEntry>) -> Seq<DiffEntry> {
    es.map_values(|e: DiffEntry| mirror_entry(e))
}

proof fn lemma_mirror_cons(e: DiffEntry, s: Seq<DiffEntry>)
    ensures
        mirror_entries(seq![e] + s) == seq![mirror_entry(e)] + mirror_entries(s),
{
    assert(mirror_entries(seq![e] + s) =~= seq![mirror_entry(e)] + mirror_entries(s));
}

proof fn lemma_mirror_push(s: Seq<DiffEntry>, e: DiffEntry)
    ensures
        mirror_entries(s.push(e)) == mirror_entries(s).push(mirror_entry(e)),
{
    assert(mirror_entries(s.push(e)) =~= mirror_entries(s).push(mirror_entry(e)));
}

proof fn lemma_mirror_concat(x: Seq<DiffEntry>, y: Seq<DiffEntry>)
    ensures
        mirror_entries(x + y) == mirror_entries(x) + mirror_entries(y),
{
    assert(mirror_entries(x + y) =~= mirror_entries(x) + mirror_entries(y));
}

proof fn lemma_mirror_drop_first(s: Seq<DiffEntry>)
    requires
        s.len() > 0,
    ensures
        mirror_entries(s.drop_first()) == mirror_entries(s).drop_first(),
{
    assert(mirror_entries(s.drop_first()) =~= mirror_entries(s).drop_first());
}

/// The subsequence length does not depend on the order of the two sides.
pub proof fn lemma_lcs_sym(a: Seq<Seq<char>>, b: Seq<Seq<char>>)
    ensures
        lcs(a, b) == lcs(b, a),
    decreases a.len() + b.len(),
{
    if a.len() == 0 || b.len() == 0 {
    } else if a[0] == b[0] {
        lemma_lcs_sym(a.drop_first(), b.drop_first());
    } else {
        lemma_lcs_sym(a.drop_first(), b);
        lemma_lcs_sym(a, b.drop_first());
    }
}

proof fn lemma_backtrack_mirror(a: Seq<Seq<char>>, b: Seq<Seq<char>>, i: int, j: int)
    requires
        0 <= i <= a.len(),
        0 <= j <= b.len(),
    ensures
        backtrack(b, a, j, i) == mirror_entries(backtrack(a, b, i, j)),
    decreases a.len() - i + b.len() - j,
{
    if i >= a.len() && j >= b.len() {
        assert(mirror_entries(backtrack(a, b, i, j)) =~= Seq::<DiffEntry>::empty());
    } else if j >= b.len() {
        let e: DiffEntry = ((Some(i as usize), None), DiffChange::Removed);
        lemma_backtrack_mirror(a, b, i + 1, j);
        lemma_mirror_cons(e, backtrack(a, b, i + 1, j));
        assert(backtrack(b, a, j, i) == seq![((None::<usize>, Some(i as usize)),
            DiffChange::Added,
        )] + backtrack(b, a, j, i + 1));
    } else if i >= a.len() {
        let e: DiffEntry = ((None, Some(j as usize)), DiffChange::Added);
        lemma_backtrack_mirror(a, b, i, j + 1);
        lemma_mirror_cons(e, backtrack(a, b, i, j + 1));
        assert(backtrack(b, a, j, i) == seq![((Some(j as usize), None::<usize>),
            DiffChange::Removed,
        )] + backtrack(b, a, j + 1, i));
    } else if a[i] == b[j] {
        let e: DiffEntry = ((Some(i as usize), Some(j as usize)), DiffChange::Unchanged);
        lemma_backtrack_mirror(a, b, i + 1, j + 1);
        lemma_mirror_cons(e, backtrack(a, b, i + 1, j + 1));
        assert(b[j] == a[i]);
        assert(backtrack(b, a, j, i) == seq![((Some(j as usize), Some(i as usize)),
            DiffChange::Unchanged,
        )] + backtrack(b, a, j + 1, i + 1));
    } else {
        // the tie-breaking chain flips exactly under the swap
        lemma_lcs_sym(a.skip(i + 1), b.skip(j));
        lemma_lcs_sym(a.skip(i), b.skip(j + 1));
        crate::strings::lemma_lex_total(a[i], b[j]);
        assert(take_removed(b, a, j, i) == !take_removed(a, b, i, j));
        if take_removed(a, b, i, j) {
            let e: DiffEntry = ((Some(i as usize), None), DiffChange::Removed);
            lemma_backtrack_mirror(a, b, i + 1, j);
            lemma_mirror_cons(e, backtrack(a, b, i + 1, j));
            assert(backtrack(b, a, j, i) == seq![((None::<usize>, Some(i as usize)),
                DiffChange::Added,
            )] + backtrack(b, a, j, i + 1));
        } else {
            let e: DiffEntry = ((None, Some(j as usize)), DiffChange::Added);
            lemma_backtrack_mirror(a, b, i, j + 1);
            lemma_mirror_cons(e, backtrack(a, b, i, j + 1));
            assert(backtrack(b, a, j, i) == seq![((Some(j as usize), None::<usize>),
                DiffChange::Removed,
            )] + backtrack(b, a, j + 1, i));
        }
    }
}

proof fn lemma_flush_mirror(rs: Seq<DiffEntry>, adds: Seq<DiffEntry>)
    ensures
        flush_run(mirror_entries(adds), mirror_entries(rs)) == mirror_entries(
            flush_run(rs, adds),
        ),
    decreases rs.len() + adds.len(),
{
    let rs_m = mirror_entries(rs);
    let adds_m = mirror_entries(adds);
    if rs.len() > 0 && adds.len() > 0 {
        lemma_flush_mirror(rs.drop_first(), adds.drop_first());
        lemma_mirror_drop_first(rs);
        lemma_mirror_drop_first(adds);
        let head: DiffEntry = ((rs[0].0.0, adds[0].0.1), DiffChange::ModifiedPair);
        lemma_mirror_cons(head, flush_run(rs.drop_first(), adds.drop_first()));
        assert(adds_m[0] == mirror_entry(adds[0]));
        assert(rs_m[0] == mirror_entry(rs[0]));
        assert(flush_run(adds_m, rs_m) == seq![((adds_m[0].0.0, rs_m[0].0.1),
            DiffChange::ModifiedPair,
        )] + flush_run(adds_m.drop_first(), rs_m.drop_first()));
        assert(((adds_m[0].0.0, rs_m[0].0.1), DiffChange::ModifiedPair) == mirror_entry(head));
    } else {
        lemma_mirror_concat(rs, adds);
        assert(flush_run(adds_m, rs_m) == adds_m + rs_m);
        if rs.len() == 0 {
            assert(rs_m.len() == 0);
            assert(adds_m + rs_m =~= rs_m + adds_m);
        } else {
            assert(adds_m.len() == 0);
            assert(adds_m + rs_m =~= rs_m + adds_m);
        }
    }
}

proof fn lemma_pair_stream_mirror(s: Seq<DiffEntry>, rs: Seq<DiffEntry>, adds: Seq<DiffEntry>)
    requires
        forall|k: int| 0 <= k < s.len() ==> !((#[trigger] s[k]).1 is ModifiedPair),
    ensures
        pair_stream(mirror_entries(s), mirror_entries(adds), mirror_entries(rs))
            == mirror_entries(pair_stream(s, rs, adds)),
    decreases s.len(),
{
    let s_m = mirror_entries(s);
    let rs_m = mirror_entries(rs);
    let adds_m = mirror_entries(adds);
    if s.len() == 0 {
        assert(s_m.len() == 0);
        lemma_flush_mirror(rs, adds);
    } else {
        assert(s_m[0] == mirror_entry(s[0]));
        lemma_mirror_drop_first(s);
        assert forall|k: int| 0 <= k < s.drop_first().len() implies !((#[trigger] s.drop_first()[
            k
        ]).1 is ModifiedPair) by {
            assert(s.drop_first()[k] == s[k + 1]);
        }
        if s[0].1 is Unchanged {
            lemma_flush_mirror(rs, adds);
            lemma_pair_stream_mirror(s.drop_first(), Seq::empty(), Seq::empty());
            assert(mirror_entries(Seq::empty()) =~= Seq::<DiffEntry>::empty());
            lemma_mirror_concat(flush_run(rs, adds), seq![s[0]]);
            lemma_mirror_concat(
                flush_run(rs, adds) + seq![s[0]],
                pair_stream(s.drop_first(), Seq::empty(), Seq::empty()),
            );
            assert(mirror_entries(seq![s[0]]) =~= seq![mirror_entry(s[0])]);
            assert(s_m[0].1 is Unchanged);
            assert(pair_stream(s_m, adds_m, rs_m) == flush_run(adds_m, rs_m) + seq![s_m[0]]
                + pair_stream(s_m.drop_first(), Seq::empty(), Seq::empty()));
        } else if s[0].1 is Removed {
            lemma_pair_stream_mirror(s.drop_first(), rs.push(s[0]), adds);
            lemma_mirror_push(rs, s[0]);
            assert(s_m[0].1 is Added);
            assert(pair_stream(s_m, adds_m, rs_m) == pair_stream(
                s_m.drop_first(),
                adds_m,
                rs_m.push(s_m[0]),
            ));
        } else {
            assert(s[0].1 is Added);
            lemma_pair_stream_mirror(s.drop_first(), rs, adds.push(s[0]));
            lemma_mirror_push(adds, s[0]);
            assert(s_m[0].1 is Removed);
            assert(pair_stream(s_m, adds_m, rs_m) == pair_stream(
                s_m.drop_first(),
                adds_m.push(s_m[0]),
                rs_m,
            ));
        }
    }
}

proof fn lemma_backtrack_no_pairs(a: Seq<Seq<char>>, b: Seq<Seq<char>>, i: int, j: int)
    requires
        0 <= i <= a.len(),
        0 <= j <= b.len(),
    ensures
        forall|k: int|
            0 <= k < backtrack(a, b, i, j).len() ==> !((#[trigger] backtrack(a, b, i, j)[k]).1
                is ModifiedPair),
    decreases a.len() - i + b.len() - j,
{
    if i >= a.len() && j >= b.len() {
    } else {
        let whole = backtrack(a, b, i, j);
        if j >= b.len() {
            lemma_backtrack_no_pairs(a, b, i + 1, j);
            assert forall|k: int| 0 <= k < whole.len() implies !((#[trigger] whole[k]).1
                is ModifiedPair) by {
                if k > 0 {
                    assert(whole[k] == backtrack(a, b, i + 1, j)[k - 1]);
                }
            }
        } else if i >= a.len() {
            lemma_backtrack_no_pairs(a, b, i, j + 1);
            assert forall|k: int| 0 <= k < whole.len() implies !((#[trigger] whole[k]).1
                is ModifiedPair) by {
                if k > 0 {
                    assert(whole[k] == backtrack(a, b, i, j + 1)[k - 1]);
                }
            }
        } else if a[i] == b[j] {
            lemma_backtrack_no_pairs(a, b, i + 1, j + 1);
            assert forall|k: int| 0 <= k < whole.len() implies !((#[trigger] whole[k]).1
                is ModifiedPair) by {
                if k > 0 {
                    assert(whole[k] == backtrack(a, b, i + 1, j + 1)[k - 1]);
                }
            }
        } else if take_removed(a, b, i, j) {
            lemma_backtrack_no_pairs(a, b, i + 1, j);
            assert forall|k: int| 0 <= k < whole.len() implies !((#[trigger] whole[k]).1
                is ModifiedPair) by {
                if k > 0 {
                    assert(whole[k] == backtrack(a, b, i + 1, j)[k - 1]);
                }
            }
        } else {
            lemma_backtrack_no_pairs(a, b, i, j + 1);
            assert forall|k: int| 0 <= k < whole.len() implies !((#[trigger] whole[k]).1
                is ModifiedPair) by {
                if k > 0 {
                    assert(whole[k] == backtrack(a, b, i, j + 1)[k - 1]);
                }
            }
        }
    }
}

/// Law: diffing the two texts in the other order yields the mirrored
/// alignment entry for entry: old and new line numbers swap, additions and
/// removals swap, unchanged lines and modified pairs stay. In particular
/// both runs carry the same multiset of change kinds with the roles
/// swapped.
pub proof fn lemma_diff_symmetry(old_text: Seq<char>, new_text: Seq<char>)
    ensures
        spec_diff_entries(new_text, old_text) == mirror_entries(
            spec_diff_entries(old_text, new_text),
        ),
{
    let la = split_lines(old_text);
    let lb = split_lines(new_text);
    lemma_backtrack_mirror(la, lb, 0, 0);
    lemma_backtrack_no_pairs(la, lb, 0, 0);
    lemma_pair_stream_mirror(backtrack(la, lb, 0, 0), Seq::empty(), Seq::empty());
    assert(mirror_entries(Seq::empty()) =~= Seq::<DiffEntry>::empty());
}

} // verus!
