//! The token vocabularies of wikitext table markup and the longest-match
//! tokenizer: a prefix tree over a vocabulary, scanned left to right.
//!
//! Wikitext table markup reference:
//! <https://en.wikipedia.org/wiki/Help:Table#Basic_table_markup>

use crate::scan::{scan, scan_step, spec_tokenize};
use crate::text::{chars_to_string, str_to_chars};
use vstd::prelude::*;

verus! {

/// The markers with structural meaning inside a table.
#[derive(Debug, Clone, Copy, PartialEq, Eq, Structural)]
pub enum TableSpecialTokens {
    /// `\n{|`
    TableStart,
    /// `\n|+`
    TableCaption,
    /// `\n|-`
    TableRow,
    /// `\n!`
    TableHeaderCell,
    /// `!!`
    TableHeaderCell2,
    /// `\n|`
    TableDataCell,
    /// `||`
    TableDataCell2,
    /// `\n|}`
    TableEnd,
    /// `<nowiki>`
    NoWikiStart,
    /// `</nowiki>`
    NoWikiEnd,
}

/// The markers with meaning inside one cell's raw text.
#[derive(Debug, Clone, Copy, PartialEq, Eq, Structural)]
pub enum CellTextSpecialTokens {
    /// `[[`
    LinkStart,
    /// `]]`
    LinkEnd,
    /// `{{`
    TemplateStart,
    /// `}}`
    TemplateEnd,
    /// `style`
    Style,
    /// `|`
    Sep,
}

impl TableSpecialTokens {
    /// The marker text of this token.
    pub open spec fn spec_marker(self) -> Seq<char> {
        match self {
            TableSpecialTokens::TableStart => seq!['\n', '{', '|'],
            TableSpecialTokens::TableCaption => seq!['\n', '|', '+'],
            TableSpecialTokens::TableRow => seq!['\n', '|', '-'],
            TableSpecialTokens::TableHeaderCell => seq!['\n', '!'],
            TableSpecialTokens::TableHeaderCell2 => seq!['!', '!'],
            TableSpecialTokens::TableDataCell => seq!['\n', '|'],
            TableSpecialTokens::TableDataCell2 => seq!['|', '|'],
            TableSpecialTokens::TableEnd => seq!['\n', '|', '}'],
            TableSpecialTokens::NoWikiStart => seq!['<', 'n', 'o', 'w', 'i', 'k', 'i', '>'],
            TableSpecialTokens::NoWikiEnd => seq!['<', '/', 'n', 'o', 'w', 'i', 'k', 'i', '>'],
        }
    }

    /// The marker text of this token, as a character vector.
    pub fn marker_chars(&self) -> (v: Vec<char>)
        ensures
            v@ == self.spec_marker(),
    {
        let mut v: Vec<char> = Vec::new();
        match self {
            TableSpecialTokens::TableStart => {
                v.push('\n');
                v.push('{');
                v.push('|');
            },
            TableSpecialTokens::TableCaption => {
                v.push('\n');
                v.push('|');
                v.push('+');
            },
            TableSpecialTokens::TableRow => {
                v.push('\n');
                v.push('|');
                v.push('-');
            },
            TableSpecialTokens::TableHeaderCell => {
                v.push('\n');
                v.push('!');
            },
            TableSpecialTokens::TableHeaderCell2 => {
                v.push('!');
                v.push('!');
            },
            TableSpecialTokens::TableDataCell => {
                v.push('\n');
                v.push('|');
            },
            TableSpecialTokens::TableDataCell2 => {
                v.push('|');
                v.push('|');
            },
            TableSpecialTokens::TableEnd => {
                v.push('\n');
                v.push('|');
                v.push('}');
            },
            TableSpecialTokens::NoWikiStart => {
                v.push('<');
                v.push('n');
                v.push('o');
                v.push('w');
                v.push('i');
                v.push('k');
                v.push('i');
                v.push('>');
            },
            TableSpecialTokens::NoWikiEnd => {
                v.push('<');
                v.push('/');
                v.push('n');
                v.push('o');
                v.push('w');
                v.push('i');
                v.push('k');
                v.push('i');
                v.push('>');
            },
        }
        proof {
            assert(v@ =~= self.spec_marker());
        }
        v
    }

    /// The marker text of this token, as a string.
    pub fn marker(&self) -> (s: String)
        ensures
            s@ == self.spec_marker(),
    {
        let v = self.marker_chars();
        chars_to_string(&v)
    }
}

impl CellTextSpecialTokens {
    /// The marker text of this token.
    pub open spec fn spec_marker(self) -> Seq<char> {
        match self {
            CellTextSpecialTokens::LinkStart => seq!['[', '['],
            CellTextSpecialTokens::LinkEnd => seq![']', ']'],
            CellTextSpecialTokens::TemplateStart => seq!['{', '{'],
            CellTextSpecialTokens::TemplateEnd => seq!['}', '}'],
            CellTextSpecialTokens::Style => seq!['s', 't', 'y', 'l', 'e'],
            CellTextSpecialTokens::Sep => seq!['|'],
        }
    }

    /// The marker text of this token, as a character vector.
    pub fn marker_chars(&self) -> (v: Vec<char>)
        ensures
            v@ == self.spec_marker(),
    {
        let mut v: Vec<char> = Vec::new();
        match self {
            CellTextSpecialTokens::LinkStart => {
                v.push('[');
                v.push('[');
            },
            CellTextSpecialTokens::LinkEnd => {
                v.push(']');
                v.push(']');
            },
            CellTextSpecialTokens::TemplateStart => {
                v.push('{');
                v.push('{');
            },
            CellTextSpecialTokens::TemplateEnd => {
                v.push('}');
                v.push('}');
            },
            CellTextSpecialTokens::Style => {
                v.push('s');
                v.push('t');
                v.push('y');
                v.push('l');
                v.push('e');
            },
            CellTextSpecialTokens::Sep => {
                v.push('|');
            },
        }
        proof {
            assert(v@ =~= self.spec_marker());
        }
        v
    }

    /// The marker text of this token, as a string.
    pub fn marker(&self) -> (s: String)
        ensures
            s@ == self.spec_marker(),
    {
        let v = self.marker_chars();
        chars_to_string(&v)
    }
}

/// The structural vocabulary, in its fixed order.
pub open spec fn table_vocab() -> Seq<Seq<char>> {
    seq![
        TableSpecialTokens::TableStart.spec_marker(),
        TableSpecialTokens::TableCaption.spec_marker(),
        TableSpecialTokens::TableRow.spec_marker(),
        TableSpecialTokens::TableHeaderCell.spec_marker(),
        TableSpecialTokens::TableHeaderCell2.spec_marker(),
        TableSpecialTokens::TableDataCell.spec_marker(),
        TableSpecialTokens::TableDataCell2.spec_marker(),
        TableSpecialTokens::TableEnd.spec_marker(),
        TableSpecialTokens::NoWikiStart.spec_marker(),
        TableSpecialTokens::NoWikiEnd.spec_marker(),
    ]
}

/// The cell-content vocabulary, in its fixed order.
pub open spec fn cell_vocab() -> Seq<Seq<char>> {
    seq![
        CellTextSpecialTokens::LinkStart.spec_marker(),
        CellTextSpecialTokens::LinkEnd.spec_marker(),
        CellTextSpecialTokens::TemplateStart.spec_marker(),
        CellTextSpecialTokens::TemplateEnd.spec_marker(),
        CellTextSpecialTokens::Style.spec_marker(),
        CellTextSpecialTokens::Sep.spec_marker(),
    ]
}

/// Every marker string of the structural vocabulary, in its fixed order.
pub fn get_all_table_special_tokens() -> (out: Vec<String>)
    ensures
        out.deep_view() == table_vocab(),
{
    let mut out: Vec<String> = Vec::new();
    out.push(TableSpecialTokens::TableStart.marker());
    out.push(TableSpecialTokens::TableCaption.marker());
    out.push(TableSpecialTokens::TableRow.marker());
    out.push(TableSpecialTokens::TableHeaderCell.marker());
    out.push(TableSpecialTokens::TableHeaderCell2.marker());
    out.push(TableSpecialTokens::TableDataCell.marker());
    out.push(TableSpecialTokens::TableDataCell2.marker());
    out.push(TableSpecialTokens::TableEnd.marker());
    out.push(TableSpecialTokens::NoWikiStart.marker());
    out.push(TableSpecialTokens::NoWikiEnd.marker());
    proof {
        assert(out.deep_view() =~= table_vocab());
    }
    out
}

/// Every marker string of the cell-content vocabulary, in its fixed order.
pub fn get_all_cell_text_special_tokens() -> (out: Vec<String>)
    ensures
        out.deep_view() == cell_vocab(),
{
    let mut out: Vec<String> = Vec::new();
    out.push(CellTextSpecialTokens::LinkStart.marker());
    out.push(CellTextSpecialTokens::LinkEnd.marker());
    out.push(CellTextSpecialTokens::TemplateStart.marker());
    out.push(CellTextSpecialTokens::TemplateEnd.marker());
    out.push(CellTextSpecialTokens::Style.marker());
    out.push(CellTextSpecialTokens::Sep.marker());
    proof {
        assert(out.deep_view() =~= cell_vocab());
    }
    out
}

/// All nonempty prefixes of the entries of `vs`: exactly the strings that
/// the prefix tree built from `vs` spells along its paths from the root.
pub open spec fn prefix_closure(vs: Seq<Seq<char>>) -> Set<Seq<char>> {
    Set::new(
        |q: Seq<char>|
            q.len() > 0 && exists|i: int| 0 <= i < vs.len() && q.is_prefix_of(#[trigger] vs[i]),
    )
}

/// One node of the prefix tree: the character it stands for, and edges to
/// its children by character and arena index. The root's own character
/// value is unused.
#[derive(Debug, Clone)]
pub struct TokenParseTreeNode {
    val: char,
    children: Vec<(char, usize)>,
}

/// A longest-match tokenizer: an arena of prefix-tree nodes rooted at
/// index 0, built once from a vocabulary and read-only afterwards.
#[derive(Debug)]
pub struct Tokenizer {
    nodes: Vec<TokenParseTreeNode>,
}

/// The first edge labelled `c`, if any.
spec fn find_in(cs: Seq<(char, usize)>, c: char) -> Option<usize>
    decreases cs.len(),
{
    if cs.len() == 0 {
        None
    } else if cs[0].0 == c {
        Some(cs[0].1)
    } else {
        find_in(cs.drop_first(), c)
    }
}

/// Follow the characters of `q` from node `i`; the node reached, if the
/// whole of `q` spells a path.
spec fn walk(ns: Seq<TokenParseTreeNode>, i: int, q: Seq<char>) -> Option<int>
    decreases q.len(),
{
    if !(0 <= i < ns.len()) {
        None
    } else if q.len() == 0 {
        Some(i)
    } else {
        match find_in(ns[i].children@, q[0]) {
            Some(j) => walk(ns, j as int, q.drop_first()),
            None => None,
        }
    }
}

/// A well-formed arena: nonempty, every edge points forward and in
/// bounds, and no node has two edges with the same character.
spec fn wf_nodes(ns: Seq<TokenParseTreeNode>) -> bool {
    &&& ns.len() >= 1
    &&& forall|i: int, k: int|
        0 <= i < ns.len() && 0 <= k < ns[i].children@.len() ==> i < (
        #[trigger] ns[i].children@[k]).1 && ns[i].children@[k].1 < ns.len()
    &&& forall|i: int, k1: int, k2: int|
        0 <= i < ns.len() && 0 <= k1 < k2 < ns[i].children@.len() ==> (
        #[trigger] ns[i].children@[k1]).0 != (#[trigger] ns[i].children@[k2]).0
}

/// Every node is reached by at most one string.
spec fn inj_paths(ns: Seq<TokenParseTreeNode>) -> bool {
    forall|q1: Seq<char>, q2: Seq<char>|
        #![trigger walk(ns, 0, q1), walk(ns, 0, q2)]
        walk(ns, 0, q1) is Some && walk(ns, 0, q1) == walk(ns, 0, q2) ==> q1 == q2
}

/// The set of nonempty strings spelled along paths from the root.
spec fn trie_paths(ns: Seq<TokenParseTreeNode>) -> Set<Seq<char>> {
    Set::new(|q: Seq<char>| q.len() > 0 && walk(ns, 0, q) is Some)
}

/// The nonempty prefixes of `v` of length at most `j`.
spec fn prefixes_upto(v: Seq<char>, j: int) -> Set<Seq<char>> {
    Set::new(|q: Seq<char>| 1 <= q.len() <= j && q == v.take(q.len() as int))
}

proof fn lemma_find_in_push(cs: Seq<(char, usize)>, c: char, m: usize, d: char)
    ensures
        d != c ==> find_in(cs.push((c, m)), d) == find_in(cs, d),
        d == c && find_in(cs, d) is None ==> find_in(cs.push((c, m)), d) == Some(m),
        d == c && find_in(cs, d) is Some ==> find_in(cs.push((c, m)), d) == find_in(cs, d),
    decreases cs.len(),
{
    if cs.len() == 0 {
        assert(cs.push((c, m))[0] == (c, m));
        assert(cs.push((c, m)).drop_first() =~= cs);
    } else {
        assert(cs.push((c, m))[0] == cs[0]);
        assert(cs.push((c, m)).drop_first() =~= cs.drop_first().push((c, m)));
        lemma_find_in_push(cs.drop_first(), c, m, d);
    }
}

proof fn lemma_find_in_mem(cs: Seq<(char, usize)>, c: char)
    ensures
        match find_in(cs, c) {
            Some(j) => exists|k: int| 0 <= k < cs.len() && cs[k].0 == c && (#[trigger] cs[k]).1 == j,
            None => forall|k: int| 0 <= k < cs.len() ==> (#[trigger] cs[k]).0 != c,
        },
    decreases cs.len(),
{
    if cs.len() == 0 {
    } else if cs[0].0 == c {
    } else {
        lemma_find_in_mem(cs.drop_first(), c);
        match find_in(cs, c) {
            Some(j) => {
                let k = choose|k: int|
                    0 <= k < cs.drop_first().len() && cs.drop_first()[k].0 == c && (
                    #[trigger] cs.drop_first()[k]).1 == j;
                assert(cs[k + 1] == cs.drop_first()[k]);
            },
            None => {
                assert forall|k: int| 0 <= k < cs.len() implies (#[trigger] cs[k]).0 != c by {
                    if k > 0 {
                        assert(cs.drop_first()[k - 1] == cs[k]);
                    }
                }
            },
        }
    }
}

proof fn lemma_walk_bounds(ns: Seq<TokenParseTreeNode>, i: int, q: Seq<char>)
    ensures
        match walk(ns, i, q) {
            Some(j) => 0 <= j < ns.len(),
            None => true,
        },
    decreases q.len(),
{
    if 0 <= i < ns.len() && q.len() > 0 {
        match find_in(ns[i].children@, q[0]) {
            Some(j) => {
                lemma_walk_bounds(ns, j as int, q.drop_first());
            },
            None => {},
        }
    }
}

/// Walking one more character: follow `q`, then one edge.
proof fn lemma_walk_snoc(ns: Seq<TokenParseTreeNode>, i: int, q: Seq<char>, c: char)
    requires
        wf_nodes(ns),
    ensures
        walk(ns, i, q.push(c)) == (match walk(ns, i, q) {
            Some(j) => match find_in(ns[j].children@, c) {
                Some(k) => if 0 <= k < ns.len() {
                    Some(k as int)
                } else {
                    None
                },
                None => None,
            },
            None => None,
        }),
    decreases q.len(),
{
    if !(0 <= i < ns.len()) {
        assert(q.push(c).len() > 0);
    } else if q.len() == 0 {
        assert(q.push(c)[0] == c);
        assert(q.push(c).drop_first() =~= Seq::<char>::empty());
        match find_in(ns[i].children@, c) {
            Some(k) => {
                assert(walk(ns, i, q.push(c)) == walk(ns, k as int, q.push(c).drop_first()));
            },
            None => {},
        }
    } else {
        assert(q.push(c)[0] == q[0]);
        assert(q.push(c).drop_first() =~= q.drop_first().push(c));
        match find_in(ns[i].children@, q[0]) {
            Some(j) => {
                lemma_walk_snoc(ns, j as int, q.drop_first(), c);
            },
            None => {},
        }
    }
}

/// The effect of adding one fresh leaf under `cur` with character `c` on
/// every walk: old walks are unchanged, and the only new paths are the
/// old paths to `cur` extended by `c`, which now end at the fresh node.
proof fn lemma_add_edge(
    ns: Seq<TokenParseTreeNode>,
    ns2: Seq<TokenParseTreeNode>,
    cur: int,
    c: char,
    i: int,
    q: Seq<char>,
)
    requires
        wf_nodes(ns),
        ns.len() <= usize::MAX,
        0 <= cur < ns.len(),
        find_in(ns[cur].children@, c) is None,
        ns2.len() == ns.len() + 1,
        ns2[ns.len() as int].children@.len() == 0,
        forall|k: int| 0 <= k < ns.len() && k != cur ==> ns2[k] == ns[k],
        ns2[cur].children@ == ns[cur].children@.push((c, ns.len() as usize)),
        0 <= i < ns.len(),
    ensures
        walk(ns, i, q) is Some ==> walk(ns2, i, q) == walk(ns, i, q),
        walk(ns2, i, q) is Some <==> (walk(ns, i, q) is Some || (q.len() > 0 && q.last() == c
            && walk(ns, i, q.drop_last()) == Some(cur))),
        (q.len() > 0 && q.last() == c && walk(ns, i, q.drop_last()) == Some(cur)) ==> walk(
            ns2,
            i,
            q,
        ) == Some(ns.len() as int),
    decreases q.len(),
{
    let m = ns.len() as int;
    if q.len() == 0 {
    } else {
        let d = q[0];
        let r = q.drop_first();
        lemma_find_in_push(ns[cur].children@, c, ns.len() as usize, d);
        if i == cur && d == c {
            assert(find_in(ns2[cur].children@, c) == Some(ns.len() as usize));
            assert(walk(ns2, i, q) == walk(ns2, m, r));
            if r.len() == 0 {
                assert(walk(ns2, m, r) == Some(m));
                assert(q =~= seq![c]);
                assert(q.last() == c);
                assert(q.drop_last() =~= Seq::<char>::empty());
                assert(walk(ns, i, q.drop_last()) == Some(cur));
            } else {
                assert(walk(ns2, m, r) is None);
                let ql = q.drop_last();
                assert(ql.len() > 0);
                assert(ql[0] == c);
                assert(walk(ns, i, ql) is None);
                assert(walk(ns, i, q) is None);
            }
        } else {
            assert(find_in(ns2[i].children@, d) == find_in(ns[i].children@, d)) by {
                if i != cur {
                    assert(ns2[i] == ns[i]);
                }
            }
            match find_in(ns[i].children@, d) {
                None => {
                    assert(walk(ns2, i, q) is None);
                    assert(walk(ns, i, q) is None);
                    if q.last() == c && walk(ns, i, q.drop_last()) == Some(cur) {
                        let ql = q.drop_last();
                        if ql.len() == 0 {
                            assert(walk(ns, i, ql) == Some(i));
                            assert(i == cur);
                            assert(q =~= seq![d]);
                            assert(d == c);
                            assert(false);
                        } else {
                            assert(ql[0] == d);
                            assert(walk(ns, i, ql) is None);
                            assert(false);
                        }
                    }
                },
                Some(j) => {
                    lemma_find_in_mem(ns[i].children@, d);
                    assert(0 <= j < ns.len());
                    assert(walk(ns2, i, q) == walk(ns2, j as int, r));
                    assert(walk(ns, i, q) == walk(ns, j as int, r));
                    lemma_add_edge(ns, ns2, cur, c, j as int, r);
                    if r.len() == 0 {
                        if q.last() == c && walk(ns, i, q.drop_last()) == Some(cur) {
                            assert(q.drop_last() =~= Seq::<char>::empty());
                            assert(walk(ns, i, q.drop_last()) == Some(i));
                            assert(i == cur && d == q.last());
                            assert(false);
                        }
                    } else {
                        let ql = q.drop_last();
                        assert(ql.len() == r.len());
                        assert(ql[0] == d);
                        assert(ql.drop_first() =~= r.drop_last());
                        assert(q.last() == r.last());
                        assert(walk(ns, i, ql) == walk(ns, j as int, r.drop_last()));
                    }
                },
            }
        }
    }
}

/// Adding one fresh leaf under the node that `tmp` reaches extends the
/// path set by exactly `tmp.push(c)`, and keeps paths unambiguous.
proof fn lemma_add_edge_sets(
    ns: Seq<TokenParseTreeNode>,
    ns2: Seq<TokenParseTreeNode>,
    cur: int,
    c: char,
    tmp: Seq<char>,
)
    requires
        wf_nodes(ns),
        ns.len() <= usize::MAX,
        inj_paths(ns),
        0 <= cur < ns.len(),
        find_in(ns[cur].children@, c) is None,
        ns2.len() == ns.len() + 1,
        ns2[ns.len() as int].children@.len() == 0,
        forall|k: int| 0 <= k < ns.len() && k != cur ==> ns2[k] == ns[k],
        ns2[cur].children@ == ns[cur].children@.push((c, ns.len() as usize)),
        walk(ns, 0, tmp) == Some(cur),
    ensures
        inj_paths(ns2),
        trie_paths(ns2) == trie_paths(ns).insert(tmp.push(c)),
        walk(ns2, 0, tmp.push(c)) == Some(ns.len() as int),
        forall|q: Seq<char>| #[trigger] walk(ns, 0, q) is Some ==> walk(ns2, 0, q) == walk(
            ns,
            0,
            q,
        ),
{
    let m = ns.len() as int;
    assert forall|q: Seq<char>| #[trigger] walk(ns, 0, q) is Some implies walk(ns2, 0, q) == walk(
        ns,
        0,
        q,
    ) by {
        lemma_add_edge(ns, ns2, cur, c, 0, q);
    }
    assert(tmp.push(c).len() > 0);
    assert(tmp.push(c).last() == c);
    assert(tmp.push(c).drop_last() =~= tmp);
    lemma_add_edge(ns, ns2, cur, c, 0, tmp.push(c));
    assert(walk(ns2, 0, tmp.push(c)) == Some(m));
    assert forall|q1: Seq<char>, q2: Seq<char>|
        walk(ns2, 0, q1) is Some && #[trigger] walk(ns2, 0, q1) == #[trigger] walk(
            ns2,
            0,
            q2,
        ) implies q1 == q2 by {
        lemma_add_edge(ns, ns2, cur, c, 0, q1);
        lemma_add_edge(ns, ns2, cur, c, 0, q2);
        lemma_walk_bounds(ns, 0, q1);
        lemma_walk_bounds(ns, 0, q2);
        if walk(ns, 0, q1) is Some && walk(ns, 0, q2) is Some {
        } else if walk(ns, 0, q1) is Some {
            assert(walk(ns2, 0, q2) == Some(m));
            assert(false);
        } else if walk(ns, 0, q2) is Some {
            assert(walk(ns2, 0, q1) == Some(m));
            assert(false);
        } else {
            assert(q1.last() == c && walk(ns, 0, q1.drop_last()) == Some(cur));
            assert(q2.last() == c && walk(ns, 0, q2.drop_last()) == Some(cur));
            assert(q1.drop_last() == q2.drop_last());
            assert(q1 =~= q1.drop_last().push(q1.last()));
            assert(q2 =~= q2.drop_last().push(q2.last()));
        }
    }
    assert(trie_paths(ns2) =~= trie_paths(ns).insert(tmp.push(c))) by {
        assert forall|q: Seq<char>|
            trie_paths(ns2).contains(q) <==> trie_paths(ns).insert(tmp.push(c)).contains(q) by {
            lemma_add_edge(ns, ns2, cur, c, 0, q);
            if q.len() > 0 && walk(ns2, 0, q) is Some && !(walk(ns, 0, q) is Some) {
                assert(q.last() == c && walk(ns, 0, q.drop_last()) == Some(cur));
                assert(q.drop_last() == tmp);
                assert(q =~= q.drop_last().push(q.last()));
                assert(q == tmp.push(c));
            }
            if q == tmp.push(c) {
                assert(walk(ns2, 0, q) is Some);
            }
        }
    }
}

/// An arena holding the root alone spells no path at all.
proof fn lemma_root_only(ns: Seq<TokenParseTreeNode>)
    requires
        ns.len() == 1,
        ns[0].children@.len() == 0,
    ensures
        wf_nodes(ns),
        inj_paths(ns),
        trie_paths(ns) == Set::<Seq<char>>::empty(),
{
    assert forall|q: Seq<char>| q.len() > 0 implies !(walk(ns, 0, q) is Some) by {
        assert(find_in(ns[0].children@, q[0]) is None);
    }
    assert(trie_paths(ns) =~= Set::<Seq<char>>::empty());
    assert forall|q1: Seq<char>, q2: Seq<char>|
        walk(ns, 0, q1) is Some && #[trigger] walk(ns, 0, q1) == #[trigger] walk(
            ns,
            0,
            q2,
        ) implies q1 == q2 by {
        assert(q1.len() == 0);
        assert(q2.len() == 0);
        assert(q1 =~= q2);
    }
}

proof fn lemma_find_in_skip(cs: Seq<(char, usize)>, c: char, k: int)
    requires
        0 <= k <= cs.len(),
        forall|m: int| 0 <= m < k ==> (#[trigger] cs[m]).0 != c,
    ensures
        k < cs.len() && cs[k].0 == c ==> find_in(cs, c) == Some(cs[k].1),
        k == cs.len() ==> find_in(cs, c) is None,
    decreases k,
{
    if k == 0 {
        if cs.len() > 0 && cs[0].0 == c {
        }
    } else {
        assert(cs[0].0 != c);
        assert forall|m: int| 0 <= m < k - 1 implies (#[trigger] cs.drop_first()[m]).0 != c by {
            assert(cs.drop_first()[m] == cs[m + 1]);
        }
        lemma_find_in_skip(cs.drop_first(), c, k - 1);
        if k < cs.len() {
            assert(cs.drop_first()[k - 1] == cs[k]);
        }
    }
}

/// A fresh leaf node for character `c`.
fn leaf(c: char) -> (n: TokenParseTreeNode)
    ensures
        n.val == c,
        n.children@ == Seq::<(char, usize)>::empty(),
{
    TokenParseTreeNode { val: c, children: Vec::new() }
}

/// The first edge labelled `c` out of `node`, if any.
fn find_child(node: &TokenParseTreeNode, c: char) -> (r: Option<usize>)
    ensures
        r == find_in(node.children@, c),
{
    let n = node.children.len();
    let mut k: usize = 0;
    while k < n
        invariant
            0 <= k <= n,
            n == node.children@.len(),
            forall|m: int| 0 <= m < k ==> (#[trigger] node.children@[m]).0 != c,
        decreases n - k,
    {
        let (ec, ej) = node.children[k];
        if ec == c {
            proof {
                lemma_find_in_skip(node.children@, c, k as int);
            }
            return Some(ej);
        }
        k += 1;
    }
    proof {
        lemma_find_in_skip(node.children@, c, k as int);
    }
    None
}

impl View for Tokenizer {
    type V = Set<Seq<char>>;

    /// A tokenizer is modelled by the set of strings its prefix tree
    /// spells along paths from the root.
    closed spec fn view(&self) -> Set<Seq<char>> {
        trie_paths(self.nodes@)
    }
}

impl Tokenizer {
    /// The prefix tree is well formed. `build` establishes this, and
    /// every tokenizer in use satisfies it.
    pub closed spec fn wf(&self) -> bool {
        wf_nodes(self.nodes@)
    }

    /// Build the prefix tree over a vocabulary of marker strings,
    /// inserting each entry character by character. An entry extending a
    /// branch already present extends it in place, so duplicate entries
    /// are harmless.
    pub fn build(special_tokens: Vec<String>) -> (r: Tokenizer)
        ensures
            r.wf(),
            r@ == prefix_closure(special_tokens.deep_view()),
    {
        let ghost dv = special_tokens.deep_view();
        let mut nodes: Vec<TokenParseTreeNode> = Vec::new();
        // the root's own value is unused
        nodes.push(leaf('$'));
        proof {
            lemma_root_only(nodes@);
            assert(prefix_closure(dv.take(0)) =~= Set::<Seq<char>>::empty());
        }
        let n_tokens = special_tokens.len();
        let mut ti: usize = 0;
        while ti < n_tokens
            invariant
                n_tokens == special_tokens@.len(),
                dv == special_tokens.deep_view(),
                0 <= ti <= n_tokens,
                wf_nodes(nodes@),
                inj_paths(nodes@),
                trie_paths(nodes@) == prefix_closure(dv.take(ti as int)),
            decreases n_tokens - ti,
        {
            let tc = str_to_chars(special_tokens[ti].as_str());
            proof {
                assert(tc@ == dv[ti as int]);
                assert(prefixes_upto(tc@, 0) =~= Set::<Seq<char>>::empty());
                assert(prefix_closure(dv.take(ti as int)).union(prefixes_upto(tc@, 0))
                    =~= prefix_closure(dv.take(ti as int)));
                assert(tc@.take(0) =~= Seq::<char>::empty());
            }
            let n_chars = tc.len();
            let mut cur: usize = 0;
            let mut j: usize = 0;
            while j < n_chars
                invariant
                    n_chars == tc@.len(),
                    0 <= j <= n_chars,
                    wf_nodes(nodes@),
                    inj_paths(nodes@),
                    cur < nodes@.len(),
                    walk(nodes@, 0, tc@.take(j as int)) == Some(cur as int),
                    trie_paths(nodes@) == prefix_closure(dv.take(ti as int)).union(
                        prefixes_upto(tc@, j as int),
                    ),
                decreases n_chars - j,
            {
                let c = tc[j];
                let ghost ns = nodes@;
                let ghost tmp = tc@.take(j as int);
                proof {
                    assert(tc@.take(j + 1 as int) =~= tmp.push(c));
                }
                match find_child(&nodes[cur], c) {
                    Some(k) => {
                        proof {
                            lemma_walk_snoc(ns, 0, tmp, c);
                            lemma_find_in_mem(ns[cur as int].children@, c);
                            assert(0 <= k < ns.len());
                            assert(walk(ns, 0, tc@.take(j + 1 as int)) == Some(k as int));
                            assert(trie_paths(ns) == prefix_closure(dv.take(ti as int)).union(
                                prefixes_upto(tc@, j + 1 as int),
                            )) by {
                                assert(trie_paths(ns) =~= prefix_closure(
                                    dv.take(ti as int),
                                ).union(prefixes_upto(tc@, j + 1 as int))) by {
                                    assert(trie_paths(ns).contains(tc@.take(j + 1 as int)));
                                    assert forall|q: Seq<char>|
                                        prefixes_upto(tc@, j + 1 as int).contains(q)
                                            implies trie_paths(ns).contains(q) by {
                                        if q.len() <= j as int {
                                            assert(prefixes_upto(tc@, j as int).contains(q));
                                        } else {
                                            assert(q.len() == j + 1);
                                            assert(q == tc@.take(j + 1 as int));
                                        }
                                    }
                                }
                            }
                        }
                        cur = k;
                    },
                    None => {
                        let m = nodes.len();
                        nodes.push(leaf(c));
                        nodes[cur].children.push((c, m));
                        proof {
                            let ns2 = nodes@;
                            assert(ns2.len() == ns.len() + 1);
                            assert(ns2[m as int].children@.len() == 0);
                            assert(forall|k: int|
                                0 <= k < ns.len() && k != cur as int ==> ns2[k] == ns[k]);
                            assert(ns2[cur as int].children@ == ns[cur as int].children@.push(
                                (c, m),
                            ));
                            lemma_find_in_mem(ns[cur as int].children@, c);
                            assert(wf_nodes(ns2)) by {
                                assert forall|i: int, k: int|
                                    0 <= i < ns2.len() && 0 <= k < ns2[i].children@.len()
                                        implies i < (#[trigger] ns2[i].children@[k]).1
                                        && ns2[i].children@[k].1 < ns2.len() by {
                                    if i == m as int {
                                    } else if i == cur as int {
                                        if k < ns[i].children@.len() {
                                            assert(ns2[i].children@[k] == ns[i].children@[k]);
                                        } else {
                                            assert(ns2[i].children@[k] == (c, m));
                                        }
                                    } else {
                                        assert(ns2[i] == ns[i]);
                                    }
                                }
                                assert forall|i: int, k1: int, k2: int|
                                    0 <= i < ns2.len() && 0 <= k1 < k2 < ns2[i].children@.len()
                                        implies (#[trigger] ns2[i].children@[k1]).0 != (
                                    #[trigger] ns2[i].children@[k2]).0 by {
                                    if i == m as int {
                                    } else if i == cur as int {
                                        assert(ns2[i].children@[k1] == ns[i].children@[k1]);
                                        if k2 < ns[i].children@.len() {
                                            assert(ns2[i].children@[k2] == ns[i].children@[k2]);
                                        } else {
                                            assert(ns2[i].children@[k2] == (c, m));
                                        }
                                    } else {
                                        assert(ns2[i] == ns[i]);
                                    }
                                }
                            }
                            lemma_add_edge_sets(ns, ns2, cur as int, c, tmp);
                            assert(walk(ns2, 0, tc@.take(j + 1 as int)) == Some(m as int));
                            assert(trie_paths(ns2) == prefix_closure(dv.take(ti as int)).union(
                                prefixes_upto(tc@, j + 1 as int),
                            )) by {
                                assert(trie_paths(ns2) =~= prefix_closure(
                                    dv.take(ti as int),
                                ).union(prefixes_upto(tc@, j + 1 as int))) by {
                                    assert forall|q: Seq<char>|
                                        trie_paths(ns2).contains(q) <==> prefix_closure(
                                            dv.take(ti as int),
                                        ).union(prefixes_upto(tc@, j + 1 as int)).contains(
                                            q,
                                        ) by {
                                        if q == tmp.push(c) {
                                            assert(q == tc@.take(j + 1 as int));
                                            assert(q.len() == j + 1);
                                            assert(prefixes_upto(tc@, j + 1 as int).contains(q));
                                        }
                                        if prefixes_upto(tc@, j + 1 as int).contains(q) {
                                            if q.len() <= j as int {
                                                assert(prefixes_upto(tc@, j as int).contains(q));
                                            } else {
                                                assert(q.len() == j + 1);
                                                assert(q == tc@.take(j + 1 as int));
                                                assert(q == tmp.push(c));
                                            }
                                        }
                                    }
                                }
                            }
                        }
                        cur = m;
                    },
                }
                j += 1;
            }
            proof {
                assert(prefix_closure(dv.take(ti + 1 as int)) == prefix_closure(
                    dv.take(ti as int),
                ).union(prefixes_upto(tc@, n_chars as int))) by {
                    assert(prefix_closure(dv.take(ti + 1 as int)) =~= prefix_closure(
                        dv.take(ti as int),
                    ).union(prefixes_upto(tc@, n_chars as int))) by {
                        assert forall|q: Seq<char>|
                            prefix_closure(dv.take(ti + 1 as int)).contains(q) <==> prefix_closure(
                                dv.take(ti as int),
                            ).union(prefixes_upto(tc@, n_chars as int)).contains(q) by {
                            if prefix_closure(dv.take(ti + 1 as int)).contains(q) {
                                let i = choose|i: int|
                                    0 <= i < dv.take(ti + 1 as int).len() && q.is_prefix_of(
                                        #[trigger] dv.take(ti + 1 as int)[i],
                                    );
                                if i < ti as int {
                                    assert(dv.take(ti as int)[i] == dv.take(ti + 1 as int)[i]);
                                    assert(prefix_closure(dv.take(ti as int)).contains(q));
                                } else {
                                    assert(dv.take(ti + 1 as int)[i] == tc@);
                                    assert(q.is_prefix_of(tc@));
                                    assert(q =~= tc@.take(q.len() as int));
                                    assert(prefixes_upto(tc@, n_chars as int).contains(q));
                                }
                            }
                            if prefix_closure(dv.take(ti as int)).contains(q) {
                                let i = choose|i: int|
                                    0 <= i < dv.take(ti as int).len() && q.is_prefix_of(
                                        #[trigger] dv.take(ti as int)[i],
                                    );
                                assert(dv.take(ti + 1 as int)[i] == dv.take(ti as int)[i]);
                                assert(prefix_closure(dv.take(ti + 1 as int)).contains(q));
                            }
                            if prefixes_upto(tc@, n_chars as int).contains(q) {
                                assert(q =~= tc@.subrange(0, q.len() as int));
                                assert(q.is_prefix_of(tc@));
                                assert(dv.take(ti + 1 as int)[ti as int] == tc@);
                                assert(prefix_closure(dv.take(ti + 1 as int)).contains(q));
                            }
                        }
                    }
                }
            }
            ti += 1;
        }
        proof {
            assert(dv.take(n_tokens as int) =~= dv);
        }
        Tokenizer { nodes }
    }

    /// The greedy longest-match scan over a character vector. Each token
    /// is either a path of the prefix tree or a single literal character.
    pub(crate) fn tokenize_chars(&self, input: &Vec<char>) -> (out: Vec<Vec<char>>)
        requires
            self.wf(),
        ensures
            out.deep_view() == spec_tokenize(self@, input@),
    {
        let ghost p = self@;
        let n = input.len();
        let mut out: Vec<Vec<char>> = Vec::new();
        let mut pending: Vec<char> = Vec::new();
        let mut cur: usize = 0;
        let mut i: usize = 0;
        proof {
            assert(input@.take(0) =~= Seq::<char>::empty());
            assert(scan(p, seq![], input@.take(0)).0 =~= out.deep_view());
        }
        while i < n
            invariant
                n == input@.len(),
                0 <= i <= n,
                self.wf(),
                p == self@,
                cur < self.nodes@.len(),
                walk(self.nodes@, 0, pending@) == Some(cur as int),
                scan(p, seq![], input@.take(i as int)).0 == out.deep_view(),
                scan(p, seq![], input@.take(i as int)).1 == pending@,
            decreases n - i,
        {
            let c = input[i];
            let ghost ns = self.nodes@;
            let ghost pend0 = pending@;
            let ghost out0 = out.deep_view();
            proof {
                assert(input@.take(i + 1 as int) =~= input@.take(i as int).push(c));
                crate::scan::lemma_scan_snoc(p, seq![], input@.take(i as int), c);
                lemma_walk_snoc(ns, 0, pend0, c);
                lemma_find_in_mem(ns[cur as int].children@, c);
                assert(p.contains(pend0.push(c)) <==> find_in(ns[cur as int].children@, c)
                    is Some);
            }
            match find_child(&self.nodes[cur], c) {
                Some(k) => {
                    pending.push(c);
                    cur = k;
                    proof {
                        assert(scan_step(p, pend0, c).0 =~= seq![]);
                        assert(out.deep_view() =~= out0 + seq![]);
                    }
                },
                None => {
                    proof {
                        assert(!p.contains(pend0.push(c)));
                        lemma_walk_snoc(ns, 0, Seq::<char>::empty(), c);
                        assert(Seq::<char>::empty().push(c) =~= seq![c]);
                        lemma_find_in_mem(ns[0].children@, c);
                        assert(p.contains(seq![c]) <==> find_in(ns[0].children@, c) is Some);
                    }
                    if pending.len() > 0 {
                        out.push(pending);
                        pending = Vec::new();
                    }
                    match find_child(&self.nodes[0], c) {
                        Some(k) => {
                            pending.push(c);
                            cur = k;
                            proof {
                                assert(pending@ =~= seq![c]);
                                if pend0.len() == 0 {
                                    assert(scan_step(p, pend0, c).0 =~= seq![]);
                                    assert(out.deep_view() =~= out0 + seq![]);
                                } else {
                                    assert(scan_step(p, pend0, c).0 =~= seq![pend0]);
                                    assert(out.deep_view() =~~= out0 + seq![pend0]);
                                }
                            }
                        },
                        None => {
                            let mut lit: Vec<char> = Vec::new();
                            lit.push(c);
                            out.push(lit);
                            cur = 0;
                            proof {
                                assert(pending@ =~= Seq::<char>::empty());
                                if pend0.len() == 0 {
                                    assert(scan_step(p, pend0, c).0 =~= seq![seq![c]]);
                                    assert(out.deep_view() =~~= out0 + seq![seq![c]]);
                                } else {
                                    assert(scan_step(p, pend0, c).0 =~= seq![pend0, seq![c]]);
                                    assert(out.deep_view() =~~= out0 + seq![pend0, seq![c]]);
                                }
                            }
                        },
                    }
                },
            }
            i += 1;
        }
        proof {
            assert(input@.take(n as int) =~= input@);
        }
        if pending.len() > 0 {
            let ghost out0 = out.deep_view();
            out.push(pending);
            proof {
                assert(out.deep_view() =~~= out0.push(scan(p, seq![], input@).1));
            }
        }
        out
    }

    /// Tokenize `raw_str` by the greedy longest-match scan over this
    /// tokenizer's vocabulary. Concatenating the result yields `raw_str`
    /// back (see `crate::scan::lemma_tokenize_lossless`).
    pub fn tokenize(&self, raw_str: &str) -> (out: Vec<String>)
        requires
            self.wf(),
        ensures
            out.deep_view() == spec_tokenize(self@, raw_str@),
    {
        let chars = str_to_chars(raw_str);
        let toks = self.tokenize_chars(&chars);
        let n = toks.len();
        let mut out: Vec<String> = Vec::new();
        let mut k: usize = 0;
        while k < n
            invariant
                n == toks@.len(),
                0 <= k <= n,
                out@.len() == k,
                forall|m: int| 0 <= m < k ==> (#[trigger] out@[m])@ == toks@[m]@,
            decreases n - k,
        {
            let ghost out0 = out@;
            let s = chars_to_string(&toks[k]);
            out.push(s);
            proof {
                assert forall|m: int| 0 <= m < k + 1 implies (#[trigger] out@[m])@ == toks@[m]@ by {
                    if m < k {
                        assert(out@[m] == out0[m]);
                        assert(out0[m]@ == toks@[m]@);
                    } else {
                        assert(out@[m] == s);
                    }
                }
            }
            k += 1;
        }
        proof {
            assert(out.deep_view() =~= toks.deep_view()) by {
                assert forall|m: int| 0 <= m < n implies out.deep_view()[m] == toks.deep_view()[m] by {
                    assert(toks@[m].deep_view() =~= toks@[m]@);
                    assert(out@[m]@ == toks@[m]@);
                    assert(out.deep_view()[m] == out@[m]@);
                }
            }
        }
        out
    }
}

} // verus!

