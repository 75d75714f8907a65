//! The mathematical model of the longest-match scan that the tokenizer
//! performs, together with its laws.
//!
//! A tokenizer is modelled by the set `p` of strings that the prefix tree
//! spells along its paths: every nonempty prefix of every vocabulary entry.
//! The scan walks the input left to right, keeping the pending match
//! `pending`; a character either extends the pending match, or commits it
//! and starts over at the same character.

use vstd::prelude::*;

verus! {

/// One character of the greedy scan. Returns the tokens committed by this
/// character and the new pending match.
pub open spec fn scan_step(p: Set<Seq<char>>, pending: Seq<char>, c: char) -> (
    Seq<Seq<char>>,
    Seq<char>,
) {
    if p.contains(pending.push(c)) {
        (seq![], pending.push(c))
    } else {
        let committed: Seq<Seq<char>> = if pending.len() == 0 {
            seq![]
        } else {
            seq![pending]
        };
        if p.contains(seq![c]) {
            (committed, seq![c])
        } else {
            (committed.push(seq![c]), seq![])
        }
    }
}

/// The greedy scan over `s`, started with the pending match `pending`.
/// Returns all committed tokens and the final pending match (not yet
/// flushed).
pub open spec fn scan(p: Set<Seq<char>>, pending: Seq<char>, s: Seq<char>) -> (
    Seq<Seq<char>>,
    Seq<char>,
)
    decreases s.len(),
{
    if s.len() == 0 {
        (seq![], pending)
    } else {
        let (e1, p1) = scan_step(p, pending, s[0]);
        let (e2, p2) = scan(p, p1, s.drop_first());
        (e1 + e2, p2)
    }
}

/// The token sequence for `s`: a full scan from an empty pending match,
/// with the final pending match flushed as a last token.
pub open spec fn spec_tokenize(p: Set<Seq<char>>, s: Seq<char>) -> Seq<Seq<char>> {
    let (committed, pending) = scan(p, seq![], s);
    if pending.len() == 0 {
        committed
    } else {
        committed.push(pending)
    }
}

/// The concatenation of a sequence of tokens.
pub open spec fn concat_all(ts: Seq<Seq<char>>) -> Seq<char>
    decreases ts.len(),
{
    if ts.len() == 0 {
        Seq::empty()
    } else {
        ts[0] + concat_all(ts.drop_first())
    }
}

pub proof fn lemma_concat_all_app(a: Seq<Seq<char>>, b: Seq<Seq<char>>)
    ensures
        concat_all(a + b) == concat_all(a) + concat_all(b),
    decreases a.len(),
{
    if a.len() == 0 {
        assert(a + b =~= b);
        assert(concat_all(a) + concat_all(b) =~= concat_all(b));
    } else {
        assert((a + b).drop_first() =~= a.drop_first() + b);
        lemma_concat_all_app(a.drop_first(), b);
        assert(concat_all(a + b) == (a + b)[0] + concat_all((a + b).drop_first()));
        assert((a + b)[0] == a[0]);
        assert(a[0] + (concat_all(a.drop_first()) + concat_all(b)) =~= (a[0] + concat_all(
            a.drop_first(),
        )) + concat_all(b));
    }
}

pub proof fn lemma_concat_all_push(a: Seq<Seq<char>>, t: Seq<char>)
    ensures
        concat_all(a.push(t)) == concat_all(a) + t,
{
    assert(a.push(t) =~= a + seq![t]);
    lemma_concat_all_app(a, seq![t]);
    assert(seq![t].drop_first() =~= Seq::<Seq<char>>::empty());
    assert(concat_all(seq![t].drop_first()) =~= Seq::<char>::empty());
    assert(concat_all(seq![t]) =~= t + concat_all(seq![t].drop_first()));
    assert(concat_all(seq![t]) =~= t);
    assert(concat_all(a) + t =~= concat_all(a + seq![t]));
}

/// The scan distributes over concatenation of inputs: scanning `s + t` is
/// scanning `s`, then scanning `t` from the pending match `s` left behind.
pub proof fn lemma_scan_app(p: Set<Seq<char>>, pending: Seq<char>, s: Seq<char>, t: Seq<char>)
    ensures
        scan(p, pending, s + t).0 == scan(p, pending, s).0 + scan(p, scan(p, pending, s).1, t).0,
        scan(p, pending, s + t).1 == scan(p, scan(p, pending, s).1, t).1,
    decreases s.len(),
{
    if s.len() == 0 {
        assert(s + t =~= t);
        assert(scan(p, pending, s).0 + scan(p, pending, t).0 =~= scan(p, pending, t).0);
    } else {
        let (e1, p1) = scan_step(p, pending, s[0]);
        assert((s + t)[0] == s[0]);
        assert((s + t).drop_first() =~= s.drop_first() + t);
        lemma_scan_app(p, p1, s.drop_first(), t);
        let (e2, p2) = scan(p, p1, s.drop_first());
        let (e3, p3) = scan(p, p2, t);
        assert(e1 + (e2 + e3) =~= (e1 + e2) + e3);
    }
}

/// Scanning one more character is one `scan_step` after scanning the rest.
pub proof fn lemma_scan_snoc(p: Set<Seq<char>>, pending: Seq<char>, s: Seq<char>, c: char)
    ensures
        scan(p, pending, s.push(c)).0 == scan(p, pending, s).0 + scan_step(
            p,
            scan(p, pending, s).1,
            c,
        ).0,
        scan(p, pending, s.push(c)).1 == scan_step(p, scan(p, pending, s).1, c).1,
{
    assert(s.push(c) =~= s + seq![c]);
    lemma_scan_app(p, pending, s, seq![c]);
    let p1 = scan(p, pending, s).1;
    let q1 = scan_step(p, p1, c).1;
    assert(seq![c][0] == c);
    let d = seq![c].drop_first();
    assert(d.len() == 0);
    assert(scan(p, q1, d).0 =~= seq![]);
    assert(scan(p, q1, d).1 == q1);
    assert(scan(p, p1, seq![c]).0 =~= scan_step(p, p1, c).0 + scan(p, q1, d).0);
    assert(scan(p, p1, seq![c]).0 =~= scan_step(p, p1, c).0);
    assert(scan(p, p1, seq![c]).1 == q1);
}

/// The scan loses nothing: the committed tokens and the final pending
/// match together spell the pending match it started from, then the input.
pub proof fn lemma_scan_lossless(p: Set<Seq<char>>, pending: Seq<char>, s: Seq<char>)
    ensures
        concat_all(scan(p, pending, s).0) + scan(p, pending, s).1 == pending + s,
    decreases s.len(),
{
    if s.len() == 0 {
        assert(concat_all(scan(p, pending, s).0) + pending =~= pending + s);
    } else {
        let c = s[0];
        let (e1, p1) = scan_step(p, pending, c);
        lemma_scan_lossless(p, p1, s.drop_first());
        let (e2, p2) = scan(p, p1, s.drop_first());
        lemma_concat_all_app(e1, e2);
        assert(concat_all(e1) + p1 =~= pending + seq![c]) by {
            if p.contains(pending.push(c)) {
                assert(concat_all(e1) =~= Seq::<char>::empty());
                assert(pending.push(c) =~= pending + seq![c]);
            } else {
                if pending.len() == 0 {
                    assert(concat_all(e1) + p1 =~= pending + seq![c]) by {
                        if p.contains(seq![c]) {
                            assert(concat_all(e1) =~= Seq::<char>::empty());
                        } else {
                            assert(concat_all(e1) =~= seq![c]) by {
                                assert(e1 =~= seq![seq![c]]);
                                lemma_concat_all_push(Seq::<Seq<char>>::empty(), seq![c]);
                                assert(Seq::<Seq<char>>::empty().push(seq![c]) =~= seq![seq![c]]);
                            }
                        }
                    }
                } else {
                    if p.contains(seq![c]) {
                        assert(e1 =~= seq![pending]);
                        assert(concat_all(e1) =~= pending) by {
                            lemma_concat_all_push(Seq::<Seq<char>>::empty(), pending);
                            assert(Seq::<Seq<char>>::empty().push(pending) =~= seq![pending]);
                        }
                    } else {
                        assert(e1 =~= seq![pending].push(seq![c]));
                        lemma_concat_all_push(seq![pending], seq![c]);
                        assert(concat_all(seq![pending]) =~= pending) by {
                            lemma_concat_all_push(Seq::<Seq<char>>::empty(), pending);
                            assert(Seq::<Seq<char>>::empty().push(pending) =~= seq![pending]);
                        }
                        assert(concat_all(e1) =~= pending + seq![c]);
                    }
                }
            }
        }
        assert((concat_all(e1) + concat_all(e2)) + p2 =~= concat_all(e1) + (concat_all(e2) + p2));
        assert(concat_all(e1) + (p1 + s.drop_first()) =~= pending + s) by {
            assert(pending + s =~= (pending + seq![c]) + s.drop_first());
            assert(concat_all(e1) + (p1 + s.drop_first()) =~= (concat_all(e1) + p1)
                + s.drop_first());
        }
    }
}

/// Lossless tokenization: for every path set and every input string, the
/// concatenation of all tokens equals the input.
pub proof fn lemma_tokenize_lossless(p: Set<Seq<char>>, s: Seq<char>)
    ensures
        concat_all(spec_tokenize(p, s)) == s,
{
    lemma_scan_lossless(p, seq![], s);
    let (committed, pending) = scan(p, seq![], s);
    if pending.len() == 0 {
        assert(concat_all(committed) + pending =~= concat_all(committed));
        assert(Seq::<char>::empty() + s =~= s);
    } else {
        lemma_concat_all_push(committed, pending);
        assert(Seq::<char>::empty() + s =~= s);
    }
}

} // verus!
