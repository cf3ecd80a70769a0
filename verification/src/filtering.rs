//! Filtering of the complete-type list: plain substring search, optionally
//! ASCII-case-insensitive, or a regular expression matched through the
//! `regex` crate; and the name-deduplicating union of two slots' lists.

use vstd::prelude::*;
use crate::strings::contains_pattern;
use crate::pdb_file::list_view;
use crate::error::ResymError;

verus! {

/// Whether a pattern compiles as a regular expression. Decided by
/// `regex::Regex::new`, a function of the pattern alone.
pub uninterp spec fn regex_pattern_valid(p: Seq<char>) -> bool;

/// Whether a regular expression matches somewhere in a text. Decided by
/// `regex::Regex::is_match`, a function of pattern and text alone.
pub uninterp spec fn regex_match(p: Seq<char>, t: Seq<char>) -> bool;

/// Relies on regex::Regex::new and regex::Regex::is_match: compiling
/// depends on the pattern alone, matching on pattern and text alone.
#[verifier::external_body]
fn regex_is_match(pattern: &str, text: &str) -> (r: Option<bool>)
    ensures
        r is Some <==> regex_pattern_valid(pattern@),
        r matches Some(b) ==> b == regex_match(pattern@, text@),
{
    match regex::Regex::new(pattern) {
        Ok(re) => Some(re.is_match(text)),
        Err(_) => None,
    }
}

/// Whether one list entry passes the filter.
pub open spec fn entry_matches(
    name: Seq<char>,
    pattern: Seq<char>,
    case_insensitive: bool,
    use_regex: bool,
) -> bool {
    if use_regex {
        regex_match(pattern, name)
    } else {
        contains_pattern(name, pattern, case_insensitive)
    }
}

/// Keeps the entries whose display name matches the pattern, in their
/// original relative order. An invalid regular expression is the one error.
#[verifier::loop_isolation(false)]
pub fn filter_type_list(
    list: &Vec<(String, u32)>,
    pattern: &str,
    case_insensitive: bool,
    use_regex: bool,
) -> (r: Result<Vec<(String, u32)>, ResymError>)
    ensures
        (r is Err <==> use_regex && !regex_pattern_valid(pattern@)),
        r is Err ==> r == Err::<Vec<(String, u32)>, ResymError>(ResymError::InvalidRegex),
        r matches Ok(v) ==> list_view(v@) == list_view(list@).filter(
            (|e: (Seq<char>, u32)|
                entry_matches(e.0, pattern@, case_insensitive, use_regex)),
        ),
{
    let ghost pred = (|e: (Seq<char>, u32)|
        entry_matches(e.0, pattern@, case_insensitive, use_regex));
    if use_regex {
        // probe the pattern once, so an invalid one fails regardless of the
        // list's contents
        if regex_is_match(pattern, "").is_none() {
            return Err(ResymError::InvalidRegex);
        }
    }
    let n = list.len();
    let mut out: Vec<(String, u32)> = Vec::new();
    proof {
        reveal(Seq::filter);
        assert(list_view(list@.take(0)) =~= Seq::<(Seq<char>, u32)>::empty());
        assert(list_view(out@) =~= list_view(list@.take(0)).filter(pred));
    }
    for i in 0..n
        invariant
            n == list@.len(),
            use_regex ==> regex_pattern_valid(pattern@),
            list_view(out@) == list_view(list@.take(i as int)).filter(pred),
    {
        let name = list[i].0.as_str();
        let matched: bool = if use_regex {
            match regex_is_match(pattern, name) {
                Some(b) => b,
                None => false,
            }
        } else {
            crate::strings::str_contains(name, pattern, case_insensitive)
        };
        let ghost pre_out = out@;
        if matched {
            out.push((list[i].0.clone(), list[i].1));
        }
        proof {
            reveal(Seq::filter);
            let pair = (list@[i as int].0@, list@[i as int].1);
            let lv = list_view(list@.take(i + 1));
            assert(list@.take(i + 1).drop_last() =~= list@.take(i as int));
            assert(lv.drop_last() =~= list_view(list@.take(i as int)));
            assert(lv.last() == pair);
            assert(pred(pair) == entry_matches(pair.0, pattern@, case_insensitive, use_regex));
            assert(matched == pred(pair));
            assert(lv.filter(pred) == (if pred(pair) {
                list_view(list@.take(i as int)).filter(pred).push(pair)
            } else {
                list_view(list@.take(i as int)).filter(pred)
            }));
            if matched {
                assert(list_view(out@) =~= list_view(pre_out).push(pair));
            }
            assert(list_view(out@) =~= list_view(list@.take(i + 1)).filter(pred));
        }
    }
    proof {
        assert(list@.take(n as int) =~= list@);
    }
    Ok(out)
}

// ---------------------------------------------------------------------------
// Merging two slots' lists for comparison mode
// ---------------------------------------------------------------------------

/// The display names a list holds.
pub open spec fn names_set(s: Seq<(Seq<char>, u32)>) -> Set<Seq<char>> {
    Set::new(|n: Seq<char>| exists|i: int| 0 <= i < s.len() && s[i].0 == n)
}

/// Keeps the first entry under each display name, dropping later ones.
pub open spec fn dedupe_by_name(s: Seq<(Seq<char>, u32)>, seen: Set<Seq<char>>) -> Seq<
    (Seq<char>, u32),
>
    decreases s.len(),
{
    if s.len() == 0 {
        Seq::empty()
    } else if seen.contains(s[0].0) {
        dedupe_by_name(s.drop_first(), seen)
    } else {
        seq![s[0]] + dedupe_by_name(s.drop_first(), seen.insert(s[0].0))
    }
}

fn contains_name(v: &Vec<(String, u32)>, name: &str) -> (r: bool)
    ensures
        r == names_set(list_view(v@)).contains(name@),
{
    let n = v.len();
    for i in 0..n
        invariant
            n == v@.len(),
            forall|k: int| 0 <= k < i ==> v@[k].0@ != name@,
    {
        if crate::strings::str_eq(v[i].0.as_str(), name) {
            proof {
                assert(list_view(v@)[i as int].0 == name@);
            }
            return true;
        }
    }
    proof {
        assert forall|k: int| 0 <= k < list_view(v@).len() implies list_view(v@)[k].0
            != name@ by {
            assert(list_view(v@)[k].0 == v@[k].0@);
        }
    }
    false
}

/// Unions two complete-type lists for side-by-side comparison, keeping each
/// display name once: the first list's entries first, then the second's
/// whose names are new.
#[verifier::loop_isolation(false)]
pub fn merge_type_lists(a: &Vec<(String, u32)>, b: &Vec<(String, u32)>) -> (r: Vec<
    (String, u32),
>)
    ensures
        list_view(r@) == dedupe_by_name(
            list_view(a@) + list_view(b@),
            Set::<Seq<char>>::empty(),
        ),
{
    let ghost full = list_view(a@) + list_view(b@);
    let mut out: Vec<(String, u32)> = Vec::new();
    proof {
        assert(full.skip(0) =~= full);
        assert(names_set(list_view(out@)) =~= Set::<Seq<char>>::empty());
    }
    let na = a.len();
    for i in 0..na
        invariant
            na == a@.len(),
            full == list_view(a@) + list_view(b@),
            dedupe_by_name(full, Set::empty()) == list_view(out@) + dedupe_by_name(
                full.skip(i as int),
                names_set(list_view(out@)),
            ),
    {
        merge_step(&mut out, a, i, Ghost(full), Ghost(i as int));
    }
    let nb = b.len();
    for j in 0..nb
        invariant
            nb == b@.len(),
            na == a@.len(),
            full == list_view(a@) + list_view(b@),
            dedupe_by_name(full, Set::empty()) == list_view(out@) + dedupe_by_name(
                full.skip(na + j),
                names_set(list_view(out@)),
            ),
    {
        merge_step(&mut out, b, j, Ghost(full), Ghost(na + j));
    }
    proof {
        assert(full.skip(na + nb).len() == 0);
        assert(list_view(out@) + Seq::<(Seq<char>, u32)>::empty() =~= list_view(out@));
    }
    out
}

/// One step of the union: appends the entry unless its name is present.
#[verifier::loop_isolation(false)]
fn merge_step(
    out: &mut Vec<(String, u32)>,
    src: &Vec<(String, u32)>,
    i: usize,
    full: Ghost<Seq<(Seq<char>, u32)>>,
    pos: Ghost<int>,
)
    requires
        i < src@.len(),
        0 <= pos@ < full@.len(),
        full@[pos@] == (src@[i as int].0@, src@[i as int].1),
        dedupe_by_name(full@, Set::empty()) == list_view(old(out)@) + dedupe_by_name(
            full@.skip(pos@),
            names_set(list_view(old(out)@)),
        ),
    ensures
        dedupe_by_name(full@, Set::empty()) == list_view(final(out)@) + dedupe_by_name(
            full@.skip(pos@ + 1),
            names_set(list_view(final(out)@)),
        ),
{
    proof {
        let sp = full@.skip(pos@);
        assert(sp[0] == full@[pos@]);
        assert(sp.drop_first() =~= full@.skip(pos@ + 1));
    }
    let present = contains_name(out, src[i].0.as_str());
    let ghost pre_out = out@;
    if !present {
        out.push((src[i].0.clone(), src[i].1));
        proof {
            assert(list_view(out@) =~= list_view(pre_out).push(
                (src@[i as int].0@, src@[i as int].1),
            ));
            assert(names_set(list_view(out@)) =~= names_set(list_view(pre_out)).insert(
                src@[i as int].0@,
            )) by {
                let lv = list_view(out@);
                let pv = list_view(pre_out);
                assert forall|n: Seq<char>|
                    names_set(lv).contains(n) == names_set(pv).insert(
                        src@[i as int].0@,
                    ).contains(n) by {
                    if names_set(lv).contains(n) {
                        let k = choose|k: int| 0 <= k < lv.len() && lv[k].0 == n;
                        if k < pv.len() {
                            assert(pv[k].0 == n);
                        }
                    }
                    if names_set(pv).contains(n) {
                        let k = choose|k: int| 0 <= k < pv.len() && pv[k].0 == n;
                        assert(lv[k].0 == n);
                    }
                    if n == src@[i as int].0@ {
                        assert(lv[lv.len() - 1].0 == n);
                    }
                }
            }
            assert(list_view(out@) + dedupe_by_name(
                full@.skip(pos@ + 1),
                names_set(list_view(out@)),
            ) =~= list_view(pre_out) + (seq![full@[pos@]] + dedupe_by_name(
                full@.skip(pos@ + 1),
                names_set(list_view(pre_out)).insert(full@[pos@].0),
            )));
        }
    }
}

} // verus!
