//! Verified text rewriting: global literal replacement and global rewriting
//! of delimited placeholder tokens, the two primitives of the placeholder
//! substitution engine.

use vstd::prelude::*;

verus! {

/// Pattern `p` occurs in `t` starting at index `i`.
pub open spec fn occurs_at(t: Seq<char>, p: Seq<char>, i: int) -> bool {
    0 <= i && i + p.len() <= t.len() && t.subrange(i, i + p.len()) == p
}

/// Pattern `p` occurs somewhere in `t`.
pub open spec fn contains_pat(t: Seq<char>, p: Seq<char>) -> bool {
    exists|i: int| occurs_at(t, p, i)
}

/// Index of the first occurrence of a non-empty pattern `p` in `t` at or
/// after index `from`; `None` when `p` is empty or does not occur there.
pub open spec fn first_occurrence(t: Seq<char>, p: Seq<char>, from: nat) -> Option<int>
    decreases t.len() - from,
{
    if p.len() == 0 || from + p.len() > t.len() {
        None
    } else if occurs_at(t, p, from as int) {
        Some(from as int)
    } else {
        first_occurrence(t, p, from + 1)
    }
}

/// `first_occurrence` returns the least index at or after `from` where `p`
/// occurs, and `None` exactly when there is no such index.
pub proof fn lemma_first_occurrence(t: Seq<char>, p: Seq<char>, from: nat)
    requires
        p.len() > 0,
    ensures
        match first_occurrence(t, p, from) {
            Some(j) => from <= j && occurs_at(t, p, j) && forall|k: int|
                from <= k < j ==> !occurs_at(t, p, k),
            None => forall|k: int| from <= k ==> !occurs_at(t, p, k),
        },
    decreases t.len() - from,
{
    if from + p.len() > t.len() {
        assert forall|k: int| from <= k implies !occurs_at(t, p, k) by {}
    } else if occurs_at(t, p, from as int) {
    } else {
        lemma_first_occurrence(t, p, from + 1);
    }
}

/// Every occurrence of the non-empty pattern `pat` in `t`, scanned left to
/// right without overlap, replaced by `rep`; `t` unchanged when `pat` is
/// empty.
pub open spec fn replace_all(t: Seq<char>, pat: Seq<char>, rep: Seq<char>) -> Seq<char>
    decreases t.len(),
{
    if pat.len() == 0 || t.len() == 0 {
        t
    } else if occurs_at(t, pat, 0) {
        rep + replace_all(t.skip(pat.len() as int), pat, rep)
    } else {
        seq![t[0]] + replace_all(t.skip(1), pat, rep)
    }
}

/// A template fragment with every `%` replaced by the component name.
pub open spec fn instantiate(tmpl: Seq<char>, name: Seq<char>) -> Seq<char> {
    replace_all(tmpl, seq!['%'], name)
}

/// A placeholder token starts at the beginning of `t`: the opening delimiter,
/// then a name of at least one character, then (the first later occurrence
/// of) the closing delimiter.
pub open spec fn token_at_start(t: Seq<char>, open_d: Seq<char>, close_d: Seq<char>) -> bool {
    &&& open_d.len() > 0
    &&& close_d.len() > 0
    &&& occurs_at(t, open_d, 0)
    &&& first_occurrence(t, close_d, (open_d.len() + 1) as nat) is Some
}

/// Every placeholder token `open_d name close_d` in `t`, scanned left to
/// right, replaced by `tmpl` instantiated with the captured name. The name
/// is the non-empty run of characters between the opening delimiter and the
/// first closing delimiter after at least one name character.
pub open spec fn rewrite_tokens(
    t: Seq<char>,
    open_d: Seq<char>,
    close_d: Seq<char>,
    tmpl: Seq<char>,
) -> Seq<char>
    decreases t.len(),
        via rewrite_tokens_decreases
{
    if t.len() == 0 {
        t
    } else if token_at_start(t, open_d, close_d) {
        let j = first_occurrence(t, close_d, (open_d.len() + 1) as nat)->0;
        let name = t.subrange(open_d.len() as int, j);
        instantiate(tmpl, name) + rewrite_tokens(
            t.skip(j + close_d.len()),
            open_d,
            close_d,
            tmpl,
        )
    } else {
        seq![t[0]] + rewrite_tokens(t.skip(1), open_d, close_d, tmpl)
    }
}

#[via_fn]
proof fn rewrite_tokens_decreases(
    t: Seq<char>,
    open_d: Seq<char>,
    close_d: Seq<char>,
    tmpl: Seq<char>,
) {
    if t.len() > 0 && token_at_start(t, open_d, close_d) {
        lemma_first_occurrence(t, close_d, (open_d.len() + 1) as nat);
    }
}

/// Occurrences in a suffix of `t` are occurrences in `t`, shifted.
pub proof fn lemma_occurs_shift(t: Seq<char>, p: Seq<char>, m: int, k: int)
    requires
        0 <= m <= t.len(),
        0 <= k,
    ensures
        occurs_at(t.skip(m), p, k) <==> occurs_at(t, p, m + k),
{
    if k + p.len() <= t.len() - m {
        assert(t.skip(m).subrange(k, k + p.len()) =~= t.subrange(m + k, m + k + p.len()));
    }
}

/// `first_occurrence` on a suffix of `t` is `first_occurrence` on `t`,
/// shifted.
pub proof fn lemma_first_occurrence_shift(t: Seq<char>, p: Seq<char>, m: nat, from: nat)
    requires
        m <= t.len(),
        p.len() > 0,
    ensures
        first_occurrence(t.skip(m as int), p, from) == match first_occurrence(
            t,
            p,
            (m + from) as nat,
        ) {
            Some(j) => Some(j - m),
            None => None::<int>,
        },
    decreases t.len() - m - from,
{
    lemma_occurs_shift(t, p, m as int, from as int);
    if from + p.len() > t.len() - m {
    } else if occurs_at(t, p, (m + from) as int) {
    } else {
        lemma_first_occurrence_shift(t, p, m, from + 1);
    }
}

/// Character-for-character string equality.
pub fn str_eq(a: &str, b: &str) -> (r: bool)
    ensures
        r == (a@ == b@),
{
    let alen: usize = a.unicode_len();
    let blen: usize = b.unicode_len();
    if alen != blen {
        return false;
    }
    let mut k: usize = 0;
    while k < alen
        invariant
            k <= alen,
            alen == a@.len(),
            alen == b@.len(),
            forall|q: int| 0 <= q < k ==> a@[q] == b@[q],
        decreases alen - k,
    {
        if a.get_char(k) != b.get_char(k) {
            return false;
        }
        k += 1;
    }
    proof {
        assert(a@ =~= b@);
    }
    true
}

/// Whether pattern `p` occurs in `t` at character index `i`.
pub fn matches_at(t: &str, i: usize, p: &str) -> (b: bool)
    ensures
        b == occurs_at(t@, p@, i as int),
{
    let tlen: usize = t.unicode_len();
    let plen: usize = p.unicode_len();
    if i > tlen || plen > tlen - i {
        return false;
    }
    let mut k: usize = 0;
    while k < plen
        invariant
            i + plen <= tlen,
            tlen == t@.len(),
            plen == p@.len(),
            k <= plen,
            forall|q: int| 0 <= q < k ==> t@[i + q] == p@[q],
        decreases plen - k,
    {
        if t.get_char(i + k) != p.get_char(k) {
            proof {
                if occurs_at(t@, p@, i as int) {
                    assert(t@.subrange(i as int, i + p@.len())[k as int] == p@[k as int]);
                }
            }
            return false;
        }
        k += 1;
    }
    proof {
        assert(t@.subrange(i as int, i + p@.len()) =~= p@);
    }
    true
}

/// First occurrence of `p` in `t` at or after character index `from`.
pub fn find_pattern_from(t: &str, p: &str, from: usize) -> (r: Option<usize>)
    requires
        p@.len() > 0,
    ensures
        match r {
            Some(j) => from <= j && first_occurrence(t@, p@, from as nat) == Some(j as int),
            None => first_occurrence(t@, p@, from as nat) is None,
        },
{
    let tlen: usize = t.unicode_len();
    let plen: usize = p.unicode_len();
    let mut j: usize = from;
    loop
        invariant
            from <= j,
            tlen == t@.len(),
            plen == p@.len(),
            plen > 0,
            first_occurrence(t@, p@, from as nat) == first_occurrence(t@, p@, j as nat),
        decreases tlen - j,
    {
        if j > tlen || plen > tlen - j {
            return None;
        }
        if matches_at(t, j, p) {
            return Some(j);
        }
        j += 1;
    }
}

/// Executable form of [`replace_all`].
pub fn replace_all_str(t: &str, pat: &str, rep: &str) -> (r: String)
    requires
        pat@.len() > 0,
    ensures
        r@ == replace_all(t@, pat@, rep@),
{
    let tlen: usize = t.unicode_len();
    let plen: usize = pat.unicode_len();
    let mut out = String::new();
    let mut i: usize = 0;
    let mut seg: usize = 0;
    proof {
        assert(t@.skip(0) =~= t@);
        assert(out@ + t@.subrange(0, 0) + replace_all(t@, pat@, rep@) =~= replace_all(
            t@,
            pat@,
            rep@,
        ));
    }
    while i < tlen
        invariant
            seg <= i <= tlen,
            tlen == t@.len(),
            plen == pat@.len(),
            plen > 0,
            replace_all(t@, pat@, rep@) == out@ + t@.subrange(seg as int, i as int)
                + replace_all(t@.skip(i as int), pat@, rep@),
        decreases tlen - i,
    {
        if matches_at(t, i, pat) {
            out.append(t.substring_char(seg, i));
            out.append(rep);
            proof {
                lemma_occurs_shift(t@, pat@, i as int, 0);
                assert(t@.skip(i as int).skip(plen as int) =~= t@.skip(i + plen));
                assert(t@.subrange((i + plen) as int, (i + plen) as int)
                    =~= Seq::<char>::empty());
            }
            i += plen;
            seg = i;
        } else {
            proof {
                lemma_occurs_shift(t@, pat@, i as int, 0);
                assert(t@.subrange(seg as int, i + 1) =~= t@.subrange(seg as int, i as int)
                    + seq![t@[i as int]]);
                assert(t@.skip(i as int).skip(1) =~= t@.skip(i + 1));
                assert(t@.skip(i as int)[0] == t@[i as int]);
            }
            i += 1;
        }
    }
    out.append(t.substring_char(seg, tlen));
    proof {
        assert(t@.skip(tlen as int) =~= Seq::<char>::empty());
        assert(out@ =~= replace_all(t@, pat@, rep@));
    }
    out
}

/// Executable form of [`instantiate`].
pub fn instantiate_str(tmpl: &str, name: &str) -> (r: String)
    ensures
        r@ == instantiate(tmpl@, name@),
{
    proof {
        reveal_strlit("%");
        assert("%"@ =~= seq!['%']);
    }
    replace_all_str(tmpl, "%", name)
}

/// Executable form of [`rewrite_tokens`].
pub fn rewrite_tokens_str(t: &str, open_d: &str, close_d: &str, tmpl: &str) -> (r: String)
    requires
        open_d@.len() > 0,
        close_d@.len() > 0,
    ensures
        r@ == rewrite_tokens(t@, open_d@, close_d@, tmpl@),
{
    let tlen: usize = t.unicode_len();
    let olen: usize = open_d.unicode_len();
    let clen: usize = close_d.unicode_len();
    let mut out = String::new();
    let mut i: usize = 0;
    let mut seg: usize = 0;
    proof {
        assert(t@.skip(0) =~= t@);
        assert(out@ + t@.subrange(0, 0) + rewrite_tokens(t@, open_d@, close_d@, tmpl@)
            =~= rewrite_tokens(t@, open_d@, close_d@, tmpl@));
    }
    while i < tlen
        invariant
            seg <= i <= tlen,
            tlen == t@.len(),
            olen == open_d@.len(),
            clen == close_d@.len(),
            olen > 0,
            clen > 0,
            rewrite_tokens(t@, open_d@, close_d@, tmpl@) == out@
                + t@.subrange(seg as int, i as int)
                + rewrite_tokens(t@.skip(i as int), open_d@, close_d@, tmpl@),
        decreases tlen - i,
    {
        let mut matched = false;
        if matches_at(t, i, open_d) {
            proof {
                lemma_occurs_shift(t@, open_d@, i as int, 0);
            }
            if i + olen < tlen {
                proof {
                    lemma_first_occurrence_shift(
                        t@,
                        close_d@,
                        i as nat,
                        (olen + 1) as nat,
                    );
                }
                match find_pattern_from(t, close_d, i + olen + 1) {
                    Some(j) => {
                        proof {
                            lemma_first_occurrence(t@, close_d@, (i + olen + 1) as nat);
                            assert(t@.skip(i as int).subrange(olen as int, j - i)
                                =~= t@.subrange((i + olen) as int, j as int));
                        }
                        let name = t.substring_char(i + olen, j);
                        out.append(t.substring_char(seg, i));
                        let inst = instantiate_str(tmpl, name);
                        out.append(inst.as_str());
                        proof {
                            assert(t@.skip(i as int).skip((j - i + clen) as int)
                                =~= t@.skip(j + clen));
                            assert(t@.subrange((j + clen) as int, (j + clen) as int)
                                =~= Seq::<char>::empty());
                        }
                        i = j + clen;
                        seg = i;
                        matched = true;
                    },
                    None => {
                    },
                }
            } else {
                proof {
                    lemma_first_occurrence_shift(
                        t@,
                        close_d@,
                        i as nat,
                        (olen + 1) as nat,
                    );
                }
            }
        }
        if !matched {
            proof {
                lemma_occurs_shift(t@, open_d@, i as int, 0);
                assert(!token_at_start(t@.skip(i as int), open_d@, close_d@));
                assert(t@.subrange(seg as int, i + 1) =~= t@.subrange(seg as int, i as int)
                    + seq![t@[i as int]]);
                assert(t@.skip(i as int).skip(1) =~= t@.skip(i + 1));
                assert(t@.skip(i as int)[0] == t@[i as int]);
            }
            i += 1;
        }
    }
    out.append(t.substring_char(seg, tlen));
    proof {
        assert(t@.skip(tlen as int) =~= Seq::<char>::empty());
        assert(out@ =~= rewrite_tokens(t@, open_d@, close_d@, tmpl@));
    }
    out
}

} // verus!
