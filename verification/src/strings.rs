//! Small verified text utilities shared by the renderer, the filter and the
//! diff engine: decimal rendering of integers, lexicographic ordering,
//! substring search with optional ASCII case folding, and line splitting.

use vstd::prelude::*;

verus! {

// ---------------------------------------------------------------------------
// Decimal rendering
// ---------------------------------------------------------------------------

pub open spec fn digit_char(d: int) -> char {
    if d == 0 {
        '0'
    } else if d == 1 {
        '1'
    } else if d == 2 {
        '2'
    } else if d == 3 {
        '3'
    } else if d == 4 {
        '4'
    } else if d == 5 {
        '5'
    } else if d == 6 {
        '6'
    } else if d == 7 {
        '7'
    } else if d == 8 {
        '8'
    } else {
        '9'
    }
}

/// The usual decimal rendering of `n`, most significant digit first.
pub open spec fn dec_digits(n: nat) -> Seq<char>
    decreases n,
{
    if n < 10 {
        seq![digit_char(n as int)]
    } else {
        dec_digits(n / 10).push(digit_char((n % 10) as int))
    }
}

/// Decimal rendering of a signed value: a leading minus sign for negatives.
pub open spec fn int_text(v: int) -> Seq<char> {
    if v < 0 {
        seq!['-'] + dec_digits((-v) as nat)
    } else {
        dec_digits(v as nat)
    }
}

fn digit_str(d: u64) -> (r: &'static str)
    requires
        d < 10,
    ensures
        r@ == seq![digit_char(d as int)],
{
    proof {
        reveal_strlit("0");
        reveal_strlit("1");
        reveal_strlit("2");
        reveal_strlit("3");
        reveal_strlit("4");
        reveal_strlit("5");
        reveal_strlit("6");
        reveal_strlit("7");
        reveal_strlit("8");
        reveal_strlit("9");
        assert("0"@ =~= seq![digit_char(0)]);
        assert("1"@ =~= seq![digit_char(1)]);
        assert("2"@ =~= seq![digit_char(2)]);
        assert("3"@ =~= seq![digit_char(3)]);
        assert("4"@ =~= seq![digit_char(4)]);
        assert("5"@ =~= seq![digit_char(5)]);
        assert("6"@ =~= seq![digit_char(6)]);
        assert("7"@ =~= seq![digit_char(7)]);
        assert("8"@ =~= seq![digit_char(8)]);
        assert("9"@ =~= seq![digit_char(9)]);
    }
    match d {
        0 => "0",
        1 => "1",
        2 => "2",
        3 => "3",
        4 => "4",
        5 => "5",
        6 => "6",
        7 => "7",
        8 => "8",
        _ => "9",
    }
}

pub fn u64_to_string(n: u64) -> (r: String)
    ensures
        r@ == dec_digits(n as nat),
    decreases n,
{
    if n < 10 {
        digit_str(n).to_owned()
    } else {
        let mut r = u64_to_string(n / 10);
        r.append(digit_str(n % 10));
        r
    }
}

pub fn i64_to_string(v: i64) -> (r: String)
    ensures
        r@ == int_text(v as int),
{
    if v >= 0 {
        u64_to_string(v as u64)
    } else {
        let mag: u64 = (-(v as i128)) as u64;
        let mut r = "-".to_owned();
        proof {
            reveal_strlit("-");
            assert("-"@ =~= seq!['-']);
        }
        let digits = u64_to_string(mag);
        r.append(digits.as_str());
        r
    }
}

// ---------------------------------------------------------------------------
// Comparison and equality
// ---------------------------------------------------------------------------

/// Strict lexicographic order on character sequences, by code point.
pub open spec fn lex_lt(a: Seq<char>, b: Seq<char>) -> bool
    decreases a.len(),
{
    if b.len() == 0 {
        false
    } else if a.len() == 0 {
        true
    } else if a[0] != b[0] {
        (a[0] as u32) < (b[0] as u32)
    } else {
        lex_lt(a.drop_first(), b.drop_first())
    }
}

proof fn lemma_head_tail_eq(a: Seq<char>, b: Seq<char>)
    requires
        a.len() > 0,
        b.len() > 0,
        a[0] == b[0],
        a.drop_first() == b.drop_first(),
    ensures
        a == b,
{
    assert(a.drop_first().len() == b.drop_first().len());
    assert(a.drop_first().len() == a.len() - 1);
    assert(b.drop_first().len() == b.len() - 1);
    assert forall|i: int| 0 <= i < a.len() implies a[i] == b[i] by {
        if i > 0 {
            assert(a[i] == a.drop_first()[i - 1]);
            assert(b[i] == b.drop_first()[i - 1]);
        }
    }
    assert(a =~= b);
}

/// Two sequences always compare one way, the other, or are equal.
pub proof fn lemma_lex_connex(a: Seq<char>, b: Seq<char>)
    ensures
        lex_lt(a, b) || lex_lt(b, a) || a == b,
    decreases a.len(),
{
    if b.len() == 0 {
        if a.len() == 0 {
            assert(a =~= b);
        } else {
            assert(lex_lt(b, a));
        }
    } else if a.len() == 0 {
        assert(lex_lt(a, b));
    } else if a[0] != b[0] {
        assert((a[0] as u32) != (b[0] as u32)) by {
            vstd::utf8::char_u32_cast(a[0], a[0] as u32);
            vstd::utf8::char_u32_cast(b[0], b[0] as u32);
        }
        assert(lex_lt(a, b) == ((a[0] as u32) < (b[0] as u32)));
        assert(lex_lt(b, a) == ((b[0] as u32) < (a[0] as u32)));
    } else {
        lemma_lex_connex(a.drop_first(), b.drop_first());
        assert(lex_lt(a, b) == lex_lt(a.drop_first(), b.drop_first()));
        assert(lex_lt(b, a) == lex_lt(b.drop_first(), a.drop_first()));
        if a.drop_first() == b.drop_first() {
            lemma_head_tail_eq(a, b);
        }
    }
}

/// The order is strict: no two sequences compare below each other.
pub proof fn lemma_lex_asym(a: Seq<char>, b: Seq<char>)
    ensures
        !(lex_lt(a, b) && lex_lt(b, a)),
    decreases a.len(),
{
    if b.len() == 0 || a.len() == 0 {
    } else if a[0] != b[0] {
    } else {
        lemma_lex_asym(a.drop_first(), b.drop_first());
    }
}

/// The order is transitive.
pub proof fn lemma_lex_trans(a: Seq<char>, b: Seq<char>, c: Seq<char>)
    requires
        lex_lt(a, b),
        lex_lt(b, c),
    ensures
        lex_lt(a, c),
    decreases a.len() + b.len() + c.len(),
{
    if c.len() == 0 || b.len() == 0 {
    } else if a.len() == 0 {
    } else {
        let ua = a[0] as u32;
        let ub = b[0] as u32;
        let uc = c[0] as u32;
        vstd::utf8::char_u32_cast(a[0], ua);
        vstd::utf8::char_u32_cast(b[0], ub);
        vstd::utf8::char_u32_cast(c[0], uc);
        if a[0] != b[0] && b[0] != c[0] {
            assert(ua < ub && ub < uc);
            assert(a[0] != c[0]);
        } else if a[0] == b[0] && b[0] != c[0] {
            assert(ua == ub && ub < uc);
            assert(a[0] != c[0]);
        } else if a[0] != b[0] && b[0] == c[0] {
            assert(ua < ub && ub == uc);
            assert(a[0] != c[0]);
        } else {
            lemma_lex_trans(a.drop_first(), b.drop_first(), c.drop_first());
        }
    }
}

/// The order is total: two distinct sequences compare one way or the other.
pub proof fn lemma_lex_total(a: Seq<char>, b: Seq<char>)
    ensures
        a != b ==> (lex_lt(a, b) <==> !lex_lt(b, a)),
{
    lemma_lex_connex(a, b);
    lemma_lex_asym(a, b);
}

/// Character equality comparison for exec code, through code points.
fn char_eq(a: char, b: char) -> (r: bool)
    ensures
        r == (a == b),
{
    a as u32 == b as u32
}

/// Equality of two string slices, decided character by character.
pub fn str_eq(a: &str, b: &str) -> (r: bool)
    ensures
        r == (a@ == b@),
{
    let alen = a.unicode_len();
    let blen = b.unicode_len();
    if alen != blen {
        assert(a@ != b@);
        return false;
    }
    for i in 0..alen
        invariant
            alen == a@.len(),
            alen == b@.len(),
            forall|k: int| 0 <= k < i ==> a@[k] == b@[k],
    {
        if !char_eq(a.get_char(i), b.get_char(i)) {
            assert(a@ != b@);
            return false;
        }
    }
    proof {
        assert(a@ =~= b@);
    }
    true
}

/// Exec lexicographic comparison agreeing with `lex_lt`.
pub fn str_lex_lt(a: &str, b: &str) -> (r: bool)
    ensures
        r == lex_lt(a@, b@),
{
    let alen = a.unicode_len();
    let blen = b.unicode_len();
    let mut i: usize = 0;
    proof {
        assert(a@.skip(0) =~= a@);
        assert(b@.skip(0) =~= b@);
    }
    loop
        invariant
            alen == a@.len(),
            blen == b@.len(),
            i <= alen,
            i <= blen,
            lex_lt(a@, b@) == lex_lt(a@.skip(i as int), b@.skip(i as int)),
        decreases alen - i,
    {
        proof {
            lemma_lex_skip_step(a@, b@, i as int);
        }
        if i == blen {
            return false;
        }
        if i == alen {
            return true;
        }
        let ca = a.get_char(i);
        let cb = b.get_char(i);
        if !char_eq(ca, cb) {
            return (ca as u32) < (cb as u32);
        }
        i = i + 1;
    }
}

/// Unfolds `lex_lt` on the suffixes starting at `i` by one character.
proof fn lemma_lex_skip_step(a: Seq<char>, b: Seq<char>, i: int)
    requires
        0 <= i <= a.len(),
        0 <= i <= b.len(),
    ensures
        i == b.len() ==> !lex_lt(a.skip(i), b.skip(i)),
        i == a.len() && i < b.len() ==> lex_lt(a.skip(i), b.skip(i)),
        i < a.len() && i < b.len() && a[i] != b[i] ==> lex_lt(a.skip(i), b.skip(i)) == ((a[i]
            as u32) < (b[i] as u32)),
        i < a.len() && i < b.len() && a[i] == b[i] ==> lex_lt(a.skip(i), b.skip(i)) == lex_lt(
            a.skip(i + 1),
            b.skip(i + 1),
        ),
{
    let sa = a.skip(i);
    let sb = b.skip(i);
    if i == b.len() {
        assert(sb.len() == 0);
    } else if i == a.len() {
        assert(sa.len() == 0 && sb.len() > 0);
    } else {
        assert(sa[0] == a[i]);
        assert(sb[0] == b[i]);
        assert(sa.drop_first() =~= a.skip(i + 1));
        assert(sb.drop_first() =~= b.skip(i + 1));
    }
}

// ---------------------------------------------------------------------------
// Substring search with optional ASCII case folding
// ---------------------------------------------------------------------------

/// Maps an upper-case ASCII code point to its lower-case counterpart.
pub open spec fn fold_code(u: u32) -> int {
    if 65 <= u <= 90 {
        u + 32
    } else {
        u as int
    }
}

/// Character equivalence: exact, or equal up to ASCII case when `ci` is set.
pub open spec fn chars_equiv(a: char, b: char, ci: bool) -> bool {
    if ci {
        fold_code(a as u32) == fold_code(b as u32)
    } else {
        a == b
    }
}

/// The pattern `p` occurs in `n` starting at position `k`.
pub open spec fn match_at(n: Seq<char>, p: Seq<char>, k: int, ci: bool) -> bool {
    &&& 0 <= k
    &&& k + p.len() <= n.len()
    &&& forall|t: int| 0 <= t < p.len() ==> chars_equiv(n[k + t], p[t], ci)
}

/// The pattern `p` occurs somewhere in `n`.
pub open spec fn contains_pattern(n: Seq<char>, p: Seq<char>, ci: bool) -> bool {
    exists|k: int| match_at(n, p, k, ci)
}

fn chars_equiv_exec(a: char, b: char, ci: bool) -> (r: bool)
    ensures
        r == chars_equiv(a, b, ci),
{
    if ci {
        let ua = a as u32;
        let ub = b as u32;
        let fa: u64 = if 65 <= ua && ua <= 90 {
            ua as u64 + 32
        } else {
            ua as u64
        };
        let fb: u64 = if 65 <= ub && ub <= 90 {
            ub as u64 + 32
        } else {
            ub as u64
        };
        fa == fb
    } else {
        char_eq(a, b)
    }
}

/// One candidate position, checked character by character.
fn match_at_exec(name: &str, pattern: &str, k: usize, ci: bool) -> (r: bool)
    requires
        k + pattern@.len() <= name@.len(),
    ensures
        r == match_at(name@, pattern@, k as int, ci),
{
    let plen = pattern.unicode_len();
    let nlen = name.unicode_len();
    for t in 0..plen
        invariant
            nlen == name@.len(),
            plen == pattern@.len(),
            k + plen <= name@.len(),
            forall|t2: int| 0 <= t2 < t ==> chars_equiv(name@[k + t2], pattern@[t2], ci),
    {
        if !chars_equiv_exec(name.get_char(k + t), pattern.get_char(t), ci) {
            assert(!match_at(name@, pattern@, k as int, ci));
            return false;
        }
    }
    true
}

/// Substring search: does `pattern` occur in `name`, optionally ignoring
/// ASCII case?
pub fn str_contains(name: &str, pattern: &str, case_insensitive: bool) -> (r: bool)
    ensures
        r == contains_pattern(name@, pattern@, case_insensitive),
{
    let nlen = name.unicode_len();
    let plen = pattern.unicode_len();
    if plen > nlen {
        assert(!contains_pattern(name@, pattern@, case_insensitive));
        return false;
    }
    let mut k: usize = 0;
    while k <= nlen - plen
        invariant
            nlen == name@.len(),
            plen == pattern@.len(),
            plen <= nlen,
            k <= nlen - plen + 1,
            forall|k2: int| 0 <= k2 < k ==> !match_at(name@, pattern@, k2, case_insensitive),
        decreases nlen + 1 - plen - k,
    {
        if match_at_exec(name, pattern, k, case_insensitive) {
            return true;
        }
        k = k + 1;
    }
    proof {
        assert forall|k2: int| !match_at(name@, pattern@, k2, case_insensitive) by {
            if 0 <= k2 && k2 + plen <= nlen {
                assert(k2 < k);
            }
        }
    }
    false
}

// ---------------------------------------------------------------------------
// Line splitting and joining
// ---------------------------------------------------------------------------

/// Splits a text on `'\n'`; every text splits into at least one line, and
/// `join_lines` is its exact inverse.
pub open spec fn split_lines(t: Seq<char>) -> Seq<Seq<char>>
    decreases t.len(),
{
    if t.len() == 0 {
        seq![Seq::empty()]
    } else if t[0] == '\n' {
        seq![Seq::empty()] + split_lines(t.drop_first())
    } else {
        let rest = split_lines(t.drop_first());
        seq![seq![t[0]] + rest[0]] + rest.drop_first()
    }
}

/// Joins lines back with `'\n'` separators.
pub open spec fn join_lines(ls: Seq<Seq<char>>) -> Seq<char>
    decreases ls.len(),
{
    if ls.len() == 0 {
        Seq::empty()
    } else if ls.len() == 1 {
        ls[0]
    } else {
        ls[0] + seq!['\n'] + join_lines(ls.drop_first())
    }
}

/// A text splits into at least one line.
pub proof fn lemma_split_nonempty(t: Seq<char>)
    ensures
        split_lines(t).len() >= 1,
    decreases t.len(),
{
    if t.len() == 0 {
    } else if t[0] == '\n' {
    } else {
        lemma_split_nonempty(t.drop_first());
    }
}

/// A text of `n` characters has at most `n + 1` lines.
pub proof fn lemma_split_len(t: Seq<char>)
    ensures
        split_lines(t).len() <= t.len() + 1,
    decreases t.len(),
{
    if t.len() == 0 {
    } else if t[0] == '\n' {
        lemma_split_len(t.drop_first());
    } else {
        lemma_split_len(t.drop_first());
        lemma_split_nonempty(t.drop_first());
    }
}

/// Splitting then joining gives the text back.
pub proof fn lemma_split_join(t: Seq<char>)
    ensures
        join_lines(split_lines(t)) == t,
    decreases t.len(),
{
    if t.len() == 0 {
        assert(join_lines(split_lines(t)) =~= t);
    } else if t[0] == '\n' {
        lemma_split_join(t.drop_first());
        lemma_split_nonempty(t.drop_first());
        let rest = split_lines(t.drop_first());
        let all = seq![Seq::<char>::empty()] + rest;
        assert(all.drop_first() =~= rest);
        assert(all.len() >= 2);
        assert(join_lines(all) == Seq::<char>::empty() + seq!['\n'] + join_lines(rest));
        assert(Seq::<char>::empty() + seq!['\n'] + t.drop_first() =~= t);
    } else {
        lemma_split_join(t.drop_first());
        lemma_split_nonempty(t.drop_first());
        let rest = split_lines(t.drop_first());
        let all = seq![seq![t[0]] + rest[0]] + rest.drop_first();
        if rest.len() == 1 {
            assert(all.len() == 1);
            assert(join_lines(all) == seq![t[0]] + rest[0]);
            assert(join_lines(rest) == rest[0]);
            assert(seq![t[0]] + rest[0] =~= t);
        } else {
            assert(all.len() >= 2);
            assert(all.drop_first() =~= rest.drop_first());
            assert(join_lines(all) == all[0] + seq!['\n'] + join_lines(rest.drop_first()));
            assert(join_lines(rest) == rest[0] + seq!['\n'] + join_lines(rest.drop_first()));
            assert(all[0] + seq!['\n'] + join_lines(rest.drop_first()) =~= seq![t[0]] + (rest[0]
                + seq!['\n'] + join_lines(rest.drop_first())));
            assert(seq![t[0]] + join_lines(rest) =~= t);
        }
    }
}

/// When a text's first newline sits at position `i`, `split_lines` peels the
/// prefix before it off as the first line.
proof fn lemma_split_at_newline(t: Seq<char>, i: int)
    requires
        0 <= i < t.len(),
        t[i] == '\n',
        forall|j: int| 0 <= j < i ==> t[j] != '\n',
    ensures
        split_lines(t) == seq![t.take(i)] + split_lines(t.skip(i + 1)),
    decreases i,
{
    if i == 0 {
        assert(t.take(0) =~= Seq::<char>::empty());
        assert(t.skip(1) =~= t.drop_first());
        assert(split_lines(t) =~= seq![t.take(0)] + split_lines(t.skip(1)));
    } else {
        let d = t.drop_first();
        assert(d.len() == t.len() - 1);
        assert(d[i - 1] == '\n');
        assert forall|j: int| 0 <= j < i - 1 implies d[j] != '\n' by {
            assert(d[j] == t[j + 1]);
        }
        lemma_split_at_newline(d, i - 1);
        let rest = split_lines(d.skip(i));
        lemma_split_nonempty(d.skip(i));
        assert(split_lines(d) == seq![d.take(i - 1)] + rest);
        assert((seq![d.take(i - 1)] + rest)[0] == d.take(i - 1));
        assert((seq![d.take(i - 1)] + rest).drop_first() =~= rest);
        assert(seq![t[0]] + d.take(i - 1) =~= t.take(i));
        assert(d.skip(i) =~= t.skip(i + 1));
        assert(split_lines(t) == seq![seq![t[0]] + d.take(i - 1)] + rest);
        assert(seq![seq![t[0]] + d.take(i - 1)] + rest =~= seq![t.take(i)] + split_lines(
            t.skip(i + 1),
        ));
    }
}

/// A text without newlines is a single line.
proof fn lemma_split_no_newline(t: Seq<char>)
    requires
        forall|j: int| 0 <= j < t.len() ==> t[j] != '\n',
    ensures
        split_lines(t) == seq![t],
    decreases t.len(),
{
    if t.len() == 0 {
        assert(t =~= Seq::<char>::empty());
        assert(split_lines(t) =~= seq![t]);
    } else {
        let d = t.drop_first();
        assert(d.len() == t.len() - 1);
        assert forall|j: int| 0 <= j < d.len() implies d[j] != '\n' by {
            assert(d[j] == t[j + 1]);
        }
        lemma_split_no_newline(d);
        assert(split_lines(d).drop_first() =~= Seq::<Seq<char>>::empty());
        assert(seq![t[0]] + d =~= t);
        assert(split_lines(t) =~= seq![t]);
    }
}

/// Exec splitting of a string into its lines.
pub fn split_lines_exec(t: &str) -> (r: Vec<String>)
    ensures
        r@.map_values(|s: String| s@) == split_lines(t@),
{
    let len = t.unicode_len();
    let mut out: Vec<String> = Vec::new();
    let mut start: usize = 0;
    let mut i: usize = 0;
    proof {
        assert(t@.skip(0) =~= t@);
        assert(split_lines(t@) =~= out@.map_values(|s: String| s@) + split_lines(t@.skip(0)));
    }
    loop
        invariant
            len == t@.len(),
            start <= i <= len,
            forall|j: int| start <= j < i ==> t@[j] != '\n',
            split_lines(t@) == out@.map_values(|s: String| s@) + split_lines(
                t@.skip(start as int),
            ),
        decreases len - i,
    {
        if i == len {
            let line = t.substring_char(start, i);
            out.push(line.to_owned());
            proof {
                let suffix = t@.skip(start as int);
                assert forall|j: int| 0 <= j < suffix.len() implies suffix[j] != '\n' by {
                    assert(suffix[j] == t@[j + start]);
                }
                lemma_split_no_newline(suffix);
                lemma_map_push(out@.drop_last(), out@.last());
                assert(line@ =~= suffix);
                assert(out@.map_values(|s: String| s@) =~= out@.drop_last().map_values(
                    |s: String| s@,
                ) + seq![suffix]);
                assert(split_lines(t@) =~= out@.map_values(|s: String| s@));
            }
            return out;
        }
        let c = t.get_char(i);
        if c as u32 == '\n' as u32 {
            assert(c == '\n');
            let line = t.substring_char(start, i);
            proof {
                let suffix = t@.skip(start as int);
                assert(suffix[i - start] == '\n');
                assert forall|j: int| 0 <= j < i - start implies suffix[j] != '\n' by {
                    assert(suffix[j] == t@[j + start]);
                }
                lemma_split_at_newline(suffix, i - start);
                assert(suffix.take(i - start) =~= t@.subrange(start as int, i as int));
                assert(suffix.skip(i - start + 1) =~= t@.skip(i + 1));
            }
            out.push(line.to_owned());
            proof {
                lemma_map_push(out@.drop_last(), out@.last());
                assert(out@.map_values(|s: String| s@) =~= out@.drop_last().map_values(
                    |s: String| s@,
                ) + seq![t@.subrange(start as int, i as int)]);
                assert(split_lines(t@) =~= out@.map_values(|s: String| s@) + split_lines(
                    t@.skip(i + 1),
                ));
            }
            start = i + 1;
        }
        i = i + 1;
    }
}

proof fn lemma_map_push(s: Seq<String>, x: String)
    ensures
        s.push(x).map_values(|q: String| q@) =~= s.map_values(|q: String| q@).push(x@),
{
}

} // verus!
