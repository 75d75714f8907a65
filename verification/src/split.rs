//! The cell splitter: partitions one cell's raw text into a style prefix
//! and the remaining content.
//!
//! The raw text is re-tokenized with the cell-content vocabulary. A
//! closure depth counts open links (`[[`) and templates (`{{`); the first
//! separator token `|` seen at depth zero is the boundary. Everything
//! before it, trimmed, is the style; everything after it, trimmed, is the
//! content. Without such a separator the style is empty and the content
//! is the whole text, trimmed.

use crate::scan::{concat_all, lemma_concat_all_push, spec_tokenize};
use crate::text::{spec_trim, trim_chars};
use crate::tokenizer::{CellTextSpecialTokens, Tokenizer};
use vstd::prelude::*;

verus! {

/// A token that opens a closure: a link or template start.
pub open spec fn is_open_marker(t: Seq<char>) -> bool {
    t == CellTextSpecialTokens::LinkStart.spec_marker() || t
        == CellTextSpecialTokens::TemplateStart.spec_marker()
}

/// A token that closes a closure: a link or template end.
pub open spec fn is_close_marker(t: Seq<char>) -> bool {
    t == CellTextSpecialTokens::LinkEnd.spec_marker() || t
        == CellTextSpecialTokens::TemplateEnd.spec_marker()
}

/// The separator token `|`.
pub open spec fn is_sep_marker(t: Seq<char>) -> bool {
    t == CellTextSpecialTokens::Sep.spec_marker()
}

/// The closure depth after one token, saturating at zero.
pub open spec fn next_depth(t: Seq<char>, d: nat) -> nat {
    if is_open_marker(t) {
        d + 1
    } else if is_close_marker(t) {
        if d > 0 {
            (d - 1) as nat
        } else {
            0
        }
    } else {
        d
    }
}

/// The closure depth after all the tokens, started at depth `d`.
pub open spec fn depth_after(toks: Seq<Seq<char>>, d: nat) -> nat
    decreases toks.len(),
{
    if toks.len() == 0 {
        d
    } else {
        depth_after(toks.drop_first(), next_depth(toks[0], d))
    }
}

/// The index of the first separator token at closure depth zero, scanning
/// from depth `d`, if any.
pub open spec fn sep_index_from(toks: Seq<Seq<char>>, d: nat) -> Option<int>
    decreases toks.len(),
{
    if toks.len() == 0 {
        None
    } else if is_sep_marker(toks[0]) && d == 0 {
        Some(0)
    } else {
        match sep_index_from(toks.drop_first(), next_depth(toks[0], d)) {
            Some(i) => Some(i + 1),
            None => None,
        }
    }
}

pub proof fn lemma_sep_index_bounds(toks: Seq<Seq<char>>, d: nat)
    ensures
        match sep_index_from(toks, d) {
            Some(b) => 0 <= b < toks.len() && is_sep_marker(toks[b]),
            None => true,
        },
    decreases toks.len(),
{
    if toks.len() > 0 && !(is_sep_marker(toks[0]) && d == 0) {
        lemma_sep_index_bounds(toks.drop_first(), next_depth(toks[0], d));
    }
}

/// The style/content split of a cell's raw text `s`, over the path set
/// `p` of the cell-content tokenizer: the text before the first depth-zero
/// separator, trimmed, and the text after it, trimmed.
pub open spec fn spec_split(p: Set<Seq<char>>, s: Seq<char>) -> (Seq<char>, Seq<char>) {
    let toks = spec_tokenize(p, s);
    match sep_index_from(toks, 0) {
        Some(b) => (
            spec_trim(concat_all(toks.take(b))),
            spec_trim(concat_all(toks.skip(b + 1))),
        ),
        None => (Seq::<char>::empty(), spec_trim(s)),
    }
}

/// strum-style lookup: the cell-content token whose marker is exactly
/// `t`, if any.
pub fn cell_token_of(t: &Vec<char>) -> (r: Option<CellTextSpecialTokens>)
    ensures
        r == spec_cell_token_of(t@),
{
    let kinds = [
        CellTextSpecialTokens::LinkStart,
        CellTextSpecialTokens::LinkEnd,
        CellTextSpecialTokens::TemplateStart,
        CellTextSpecialTokens::TemplateEnd,
        CellTextSpecialTokens::Style,
        CellTextSpecialTokens::Sep,
    ];
    let mut k: usize = 0;
    while k < 6
        invariant
            0 <= k <= 6,
            kinds@ =~= seq![
                CellTextSpecialTokens::LinkStart,
                CellTextSpecialTokens::LinkEnd,
                CellTextSpecialTokens::TemplateStart,
                CellTextSpecialTokens::TemplateEnd,
                CellTextSpecialTokens::Style,
                CellTextSpecialTokens::Sep,
            ],
            forall|m: int| 0 <= m < k ==> t@ != (#[trigger] kinds@[m]).spec_marker(),
        decreases 6 - k,
    {
        let kind = kinds[k];
        let m = kind.marker_chars();
        if crate::text::chars_eq(t, &m) {
            return Some(kind);
        }
        k += 1;
    }
    None
}

/// The cell-content token whose marker is exactly `q`, if any.
pub open spec fn spec_cell_token_of(q: Seq<char>) -> Option<CellTextSpecialTokens> {
    if q == CellTextSpecialTokens::LinkStart.spec_marker() {
        Some(CellTextSpecialTokens::LinkStart)
    } else if q == CellTextSpecialTokens::LinkEnd.spec_marker() {
        Some(CellTextSpecialTokens::LinkEnd)
    } else if q == CellTextSpecialTokens::TemplateStart.spec_marker() {
        Some(CellTextSpecialTokens::TemplateStart)
    } else if q == CellTextSpecialTokens::TemplateEnd.spec_marker() {
        Some(CellTextSpecialTokens::TemplateEnd)
    } else if q == CellTextSpecialTokens::Style.spec_marker() {
        Some(CellTextSpecialTokens::Style)
    } else if q == CellTextSpecialTokens::Sep.spec_marker() {
        Some(CellTextSpecialTokens::Sep)
    } else {
        None
    }
}

/// Split one cell's raw text against the `spec_split` model.
pub fn split_style_content(cell_tokenizer: &Tokenizer, text: &Vec<char>) -> (r: (
    Vec<char>,
    Vec<char>,
))
    requires
        cell_tokenizer.wf(),
    ensures
        r.0@ == spec_split(cell_tokenizer@, text@).0,
        r.1@ == spec_split(cell_tokenizer@, text@).1,
{
    let toks = cell_tokenizer.tokenize_chars(text);
    let ghost dv = toks.deep_view();
    let n = toks.len();
    let mut depth: usize = 0;
    let mut i: usize = 0;
    let mut found = false;
    proof {
        assert(dv.skip(0) =~= dv);
        lemma_sep_index_bounds(dv, 0);
    }
    while i < n && !found
        invariant
            n == toks@.len(),
            dv == toks.deep_view(),
            0 <= i <= n,
            depth <= i,
            !found ==> (match sep_index_from(dv, 0) {
                Some(b) => i <= b && sep_index_from(dv.skip(i as int), depth as nat) == Some(
                    b - i,
                ),
                None => sep_index_from(dv.skip(i as int), depth as nat) is None,
            }),
            found ==> i < n && sep_index_from(dv, 0) == Some(i as int),
        decreases n - i, (if found { 0int } else { 1int }),
    {
        let t = &toks[i];
        proof {
            assert(dv[i as int] =~= t@);
            assert(dv.skip(i as int)[0] == dv[i as int]);
            assert(dv.skip(i as int).drop_first() =~= dv.skip(i + 1 as int));
        }
        let kind = cell_token_of(t);
        let is_sep = matches!(kind, Some(CellTextSpecialTokens::Sep));
        if is_sep && depth == 0 {
            found = true;
            proof {
                assert(is_sep_marker(dv[i as int]));
                assert(sep_index_from(dv.skip(i as int), depth as nat) == Some(0int));
            }
        } else {
            let ghost d2 = next_depth(dv[i as int], depth as nat);
            proof {
                assert(!(is_sep_marker(dv[i as int]) && depth == 0));
                lemma_sep_index_bounds(dv.skip(i + 1 as int), d2);
                assert(sep_index_from(dv.skip(i as int), depth as nat) == (
                match sep_index_from(dv.skip(i + 1 as int), d2) {
                    Some(x) => Some(x + 1),
                    None => None::<int>,
                }));
                assert(d2 == (match kind {
                    Some(CellTextSpecialTokens::LinkStart)
                    | Some(CellTextSpecialTokens::TemplateStart) => (depth + 1) as nat,
                    Some(CellTextSpecialTokens::LinkEnd)
                    | Some(CellTextSpecialTokens::TemplateEnd) => if depth > 0 {
                        (depth - 1) as nat
                    } else {
                        0nat
                    },
                    _ => depth as nat,
                }));
            }
            match kind {
                Some(CellTextSpecialTokens::LinkStart) | Some(
                    CellTextSpecialTokens::TemplateStart,
                ) => {
                    depth += 1;
                },
                Some(CellTextSpecialTokens::LinkEnd) | Some(CellTextSpecialTokens::TemplateEnd) => {
                    if depth > 0 {
                        depth -= 1;
                    }
                },
                _ => {},
            }
            proof {
                assert(depth as nat == d2);
            }
            i += 1;
        }
    }
    proof {
        lemma_sep_index_bounds(dv, 0);
        if !found {
            assert(i == n);
            assert(dv.skip(n as int).len() == 0);
        }
    }
    if found {
        let b = i;
        let mut style_raw: Vec<char> = Vec::new();
        let mut k: usize = 0;
        proof {
            assert(dv.take(0) =~= Seq::<Seq<char>>::empty());
        }
        while k < b
            invariant
                n == toks@.len(),
                dv == toks.deep_view(),
                0 <= k <= b < n,
                style_raw@ == concat_all(dv.take(k as int)),
            decreases b - k,
        {
            crate::text::append_chars(&mut style_raw, &toks[k]);
            proof {
                assert(toks@[k as int].deep_view() =~= toks@[k as int]@);
                assert(dv.take(k + 1 as int) =~= dv.take(k as int).push(dv[k as int]));
                lemma_concat_all_push(dv.take(k as int), dv[k as int]);
            }
            k += 1;
        }
        let mut content_raw: Vec<char> = Vec::new();
        let mut k2: usize = b + 1;
        proof {
            assert(dv.subrange(b + 1 as int, b + 1 as int) =~= Seq::<Seq<char>>::empty());
        }
        while k2 < n
            invariant
                n == toks@.len(),
                dv == toks.deep_view(),
                b + 1 <= k2 <= n,
                content_raw@ == concat_all(dv.subrange(b + 1 as int, k2 as int)),
            decreases n - k2,
        {
            crate::text::append_chars(&mut content_raw, &toks[k2]);
            proof {
                assert(toks@[k2 as int].deep_view() =~= toks@[k2 as int]@);
                assert(dv.subrange(b + 1 as int, k2 + 1 as int) =~= dv.subrange(
                    b + 1 as int,
                    k2 as int,
                ).push(dv[k2 as int]));
                lemma_concat_all_push(dv.subrange(b + 1 as int, k2 as int), dv[k2 as int]);
            }
            k2 += 1;
        }
        proof {
            assert(dv.skip(b + 1 as int) =~= dv.subrange(b + 1 as int, n as int));
        }
        (trim_chars(&style_raw), trim_chars(&content_raw))
    } else {
        let style: Vec<char> = Vec::new();
        (style, trim_chars(text))
    }
}

} // verus!
