use crate::error::Error;
use crate::node_set::{
    lemma_distinct_sorted_count, lemma_sorted_below_len, lemma_to_set_contains, sorted_below, NodeSet,
};
use crate::style_tag::{tag_of_name, StyleTag};
use vstd::arithmetic::power2::pow2;
use vstd::prelude::*;

verus! {

/// Longest selector string, in characters, that `parse_rules` takes.
pub const MAX_SELECTOR_LEN: usize = 0x0FFF_FFFF;

/// Symbols of a compiled selector.
#[derive(Clone, Copy, Debug, PartialEq, Eq, Structural)]
pub enum Language {
    Alphabet(StyleTag),
    Any,
    Begin,
    KleenStar,
}

/// Letters that the automata read: a tag, any tag, the start and the end of a stack.
#[derive(Clone, Copy, Debug, PartialEq, Eq, Hash, PartialOrd, Ord, Structural)]
pub enum Op {
    Alphabet(StyleTag),
    Any,
    Begin,
    End,
}

/// Types whose values can all be listed.
pub trait Enumerable: Sized {
    fn enumerate_all() -> Vec<Self>;
}

impl Enumerable for StyleTag {
    fn enumerate_all() -> Vec<StyleTag> {
        StyleTag::enumerate_all()
    }
}

impl Enumerable for Op {
    fn enumerate_all() -> Vec<Op> {
        Op::enumerate_all()
    }
}

impl Op {
    /// Whether an edge labelled `self` may be taken on input `other`.
    pub open spec fn spec_satisfied_by(self, other: Op) -> bool {
        match self {
            Op::Alphabet(a) => other == Op::Alphabet(a),
            Op::Any => other is Alphabet,
            Op::Begin => other is Begin,
            Op::End => other is End,
        }
    }

    pub fn is_satisfied_by(&self, other: &Op) -> (r: bool)
        ensures
            r == self.spec_satisfied_by(*other),
    {
        match self {
            Op::Alphabet(a) => match other {
                Op::Alphabet(b) => *a == *b,
                _ => false,
            },
            Op::Any => match other {
                Op::Alphabet(_) => true,
                _ => false,
            },
            Op::Begin => match other {
                Op::Begin => true,
                _ => false,
            },
            Op::End => match other {
                Op::End => true,
                _ => false,
            },
        }
    }

    /// Every letter: each tag, then `Any`, `Begin` and `End`.
    pub fn enumerate_all() -> (r: Vec<Op>)
        ensures
            r@.len() == 23,
            forall|op: Op| r@.contains(op),
    {
        let tags = StyleTag::enumerate_all();
        let mut ops: Vec<Op> = Vec::new();
        let mut i: usize = 0;
        while i < tags.len()
            invariant
                i <= tags@.len(),
                ops@.len() == i,
                forall|m: int| 0 <= m < i ==> #[trigger] ops@[m] == Op::Alphabet(tags@[m]),
            decreases tags@.len() - i,
        {
            ops.push(Op::Alphabet(tags[i]));
            i += 1;
        }
        ops.push(Op::Any);
        ops.push(Op::Begin);
        ops.push(Op::End);
        assert forall|op: Op| ops@.contains(op) by {
            match op {
                Op::Alphabet(t) => {
                    assert(tags@.contains(t));
                    let m = choose|m: int| 0 <= m < tags@.len() && tags@[m] == t;
                    assert(ops@[m] == op);
                },
                Op::Any => assert(ops@[20] == op),
                Op::Begin => assert(ops@[21] == op),
                Op::End => assert(ops@[22] == op),
            }
        }
        ops
    }
}

/// Unicode white space, as `char::is_whitespace` reads it.
pub open spec fn is_space(c: char) -> bool {
    let u = c as u32;
    (9 <= u <= 13) || u == 32 || u == 0x85 || u == 0xa0 || u == 0x1680 || (0x2000 <= u <= 0x200a)
        || u == 0x2028 || u == 0x2029 || u == 0x202f || u == 0x205f || u == 0x3000
}

fn space(c: char) -> (r: bool)
    ensures
        r == is_space(c),
{
    let u = c as u32;
    (9 <= u && u <= 13) || u == 32 || u == 0x85 || u == 0xa0 || u == 0x1680 || (0x2000 <= u && u
        <= 0x200a) || u == 0x2028 || u == 0x2029 || u == 0x202f || u == 0x205f || u == 0x3000
}

/// Reading `s` from the left: the words completed so far and the word being read.
pub open spec fn lex(s: Seq<char>) -> (Seq<Seq<char>>, Seq<char>)
    decreases s.len(),
{
    if s.len() == 0 {
        (seq![], seq![])
    } else {
        let (done, cur) = lex(s.drop_last());
        let c = s.last();
        if is_space(c) {
            if cur.len() == 0 {
                (done, cur)
            } else {
                (done.push(cur), seq![])
            }
        } else {
            (done, cur.push(c))
        }
    }
}

/// The words of `s`, split at white space.
pub open spec fn tokens_of(s: Seq<char>) -> Seq<Seq<char>> {
    let (done, cur) = lex(s);
    if cur.len() == 0 {
        done
    } else {
        done.push(cur)
    }
}

/// Compiles words left to right: the first unknown tag name (if any), the
/// symbols, and whether a `>` waits for its tag.
///
/// A word not preceded by `>` may stand at any depth below the previous one
/// (`Any KleenStar` before it); `*` matches any tag.
pub open spec fn fold_tokens(toks: Seq<Seq<char>>) -> (Option<Seq<char>>, Seq<Language>, bool)
    decreases toks.len(),
{
    if toks.len() == 0 {
        (None, seq![Language::Begin], false)
    } else {
        let (bad, out, direct) = fold_tokens(toks.drop_last());
        let t = toks.last();
        if bad is Some {
            (bad, out, direct)
        } else if t == seq!['>'] {
            (None, out, true)
        } else {
            let pre = if direct {
                out
            } else {
                out + seq![Language::Any, Language::KleenStar]
            };
            if t == seq!['*'] {
                (None, pre.push(Language::Any), false)
            } else {
                match tag_of_name(t) {
                    Some(tag) => (None, pre.push(Language::Alphabet(tag)), false),
                    None => (Some(t), out, direct),
                }
            }
        }
    }
}

/// The symbols of a selector, when it compiles.
pub open spec fn selector_symbols(s: Seq<char>) -> Option<Seq<Language>> {
    let toks = tokens_of(s);
    let f = fold_tokens(toks);
    if toks.len() > 0 && f.0 is None && !f.2 {
        Some(f.1)
    } else {
        None
    }
}

proof fn lemma_fold_len(toks: Seq<Seq<char>>)
    ensures
        fold_tokens(toks).1.len() <= 3 * toks.len() + 1,
        fold_tokens(toks).1.len() >= 1,
        fold_tokens(toks).1[0] == Language::Begin,
    decreases toks.len(),
{
    if toks.len() > 0 {
        lemma_fold_len(toks.drop_last());
    }
}

proof fn lemma_fold_bad_sticks(toks: Seq<Seq<char>>, k: int)
    requires
        0 <= k <= toks.len(),
        fold_tokens(toks.take(k)).0 is Some,
    ensures
        fold_tokens(toks).0 == fold_tokens(toks.take(k)).0,
    decreases toks.len() - k,
{
    if k < toks.len() {
        assert(toks.take(k + 1).drop_last() == toks.take(k));
        lemma_fold_bad_sticks(toks, k + 1);
    } else {
        assert(toks.take(k) == toks);
    }
}

proof fn lemma_lex_len(s: Seq<char>)
    ensures
        lex(s).0.len() + lex(s).1.len() <= s.len(),
        lex(s).1.len() > 0 ==> lex(s).0.len() + 1 <= s.len(),
    decreases s.len(),
{
    if s.len() > 0 {
        lemma_lex_len(s.drop_last());
    }
}

/// Splits a selector into words and compiles them into symbols.
pub fn parse_selector(s: &Vec<char>) -> (r: Result<Vec<Language>, Error>)
    ensures
        tokens_of(s@).len() == 0 ==> r == Err::<Vec<Language>, Error>(Error::EmptyRuleString),
        tokens_of(s@).len() > 0 && fold_tokens(tokens_of(s@)).0 is Some ==> r is Err && r->Err_0 is InvalidRuleTag
            && r->Err_0->InvalidRuleTag_0@ == fold_tokens(tokens_of(s@)).0->Some_0,
        tokens_of(s@).len() > 0 && fold_tokens(tokens_of(s@)).0 is None && fold_tokens(
            tokens_of(s@),
        ).2 ==> r == Err::<Vec<Language>, Error>(Error::DanglingDirectChild),
        selector_symbols(s@) is Some ==> r is Ok && r->Ok_0@ == selector_symbols(s@)->Some_0,
        r is Ok ==> selector_symbols(s@) is Some,
{
    let mut words: Vec<Vec<char>> = Vec::new();
    let mut cur: Vec<char> = Vec::new();
    let mut i: usize = 0;
    while i < s.len()
        invariant
            i <= s@.len(),
            words@.map_values(|w: Vec<char>| w@) == lex(s@.take(i as int)).0,
            cur@ == lex(s@.take(i as int)).1,
        decreases s@.len() - i,
    {
        let c = s[i];
        proof {
            assert(s@.take(i + 1).drop_last() == s@.take(i as int));
            assert(s@.take(i + 1).last() == c);
        }
        if space(c) {
            if cur.len() > 0 {
                let w = cur;
                words.push(w);
                cur = Vec::new();
                proof {
                    assert(words@.map_values(|w: Vec<char>| w@) == lex(s@.take(i as int)).0.push(
                        w@,
                    ));
                }
            }
        } else {
            cur.push(c);
        }
        i += 1;
    }
    if cur.len() > 0 {
        let w = cur;
        words.push(w);
        proof {
            assert(words@.map_values(|w: Vec<char>| w@) == lex(s@.take(s@.len() as int)).0.push(
                w@,
            ));
        }
    }
    let ghost toks = words@.map_values(|w: Vec<char>| w@);
    proof {
        assert(s@.take(s@.len() as int) == s@);
        assert(toks == tokens_of(s@));
    }
    if words.len() == 0 {
        return Err(Error::EmptyRuleString);
    }
    let mut out: Vec<Language> = vec![Language::Begin];
    let mut direct = false;
    let mut j: usize = 0;
    while j < words.len()
        invariant
            j <= words@.len(),
            words@.len() > 0,
            toks == tokens_of(s@),
            toks == words@.map_values(|w: Vec<char>| w@),
            fold_tokens(toks.take(j as int)).0 is None,
            out@ == fold_tokens(toks.take(j as int)).1,
            direct == fold_tokens(toks.take(j as int)).2,
        decreases words@.len() - j,
    {
        let word = &words[j];
        proof {
            assert(toks.take(j + 1).drop_last() == toks.take(j as int));
            assert(toks.take(j + 1).last() == word@);
        }
        if word.len() == 1 && word[0] == '>' {
            assert(word@ == seq!['>']);
            direct = true;
        } else {
            assert(word@ != seq!['>']);
            let tag = if word.len() == 1 && word[0] == '*' {
                assert(word@ == seq!['*']);
                Language::Any
            } else {
                assert(word@ != seq!['*']);
                match StyleTag::from_name(word) {
                    Ok(t) => Language::Alphabet(t),
                    Err(e) => {
                        proof {
                            assert(tag_of_name(word@) is None);
                            assert(fold_tokens(toks.take(j + 1)).0 == Some(word@));
                            lemma_fold_bad_sticks(toks, j + 1);
                            assert(toks.take(toks.len() as int) == toks);
                        }
                        return Err(e);
                    },
                }
            };
            if !direct {
                out.push(Language::Any);
                out.push(Language::KleenStar);
            }
            direct = false;
            out.push(tag);
        }
        j += 1;
    }
    proof {
        assert(toks.take(words@.len() as int) == toks);
    }
    if direct {
        return Err(Error::DanglingDirectChild);
    }
    Ok(out)
}

/// An edge: its label (none for an epsilon edge) and its target node.
pub type NfaEdge = (Option<Op>, usize);

/// Nondeterministic automaton over `Op`, stored as an arena of nodes.
#[derive(Clone, Debug, PartialEq, Eq)]
pub struct Nfa {
    nodes: Vec<Vec<NfaEdge>>,
    start: usize,
    end: usize,
}

/// An automaton as its nodes, start and end.
pub type NfaParts = (Seq<Seq<NfaEdge>>, usize, usize);

/// The two-node automaton that reads `op`.
pub open spec fn op_nfa(op: Op) -> NfaParts {
    (seq![seq![(Some(op), 1usize)], Seq::<NfaEdge>::empty()], 0, 1)
}

/// `a` repeated zero or more times: a new end after the old nodes, epsilon
/// edges from the old end to it and back to the old start, and a new start
/// with epsilon edges to the old start and the new end.
pub open spec fn star_nfa(a: NfaParts) -> NfaParts {
    let n = a.0.len();
    (
        a.0.update(a.2 as int, a.0[a.2 as int].push((None, n as usize)).push((None, a.1))).push(
            Seq::<NfaEdge>::empty(),
        ).push(seq![(None, a.1), (None, n as usize)]),
        (n + 1) as usize,
        n as usize,
    )
}

/// `a` followed by `b`: `b`'s nodes move up by `a`'s size, and an epsilon
/// edge joins `a`'s end to `b`'s start.
pub open spec fn concat_nfa(a: NfaParts, b: NfaParts) -> NfaParts {
    let la = a.0.len();
    (
        Seq::new(
            la + b.0.len(),
            |i: int|
                if i < la {
                    if i == a.2 {
                        a.0[i].push((None, (b.1 + la) as usize))
                    } else {
                        a.0[i]
                    }
                } else {
                    shifted(b.0[i - la], la as int)
                },
        ),
        a.1,
        (b.2 + la) as usize,
    )
}

/// The pieces a symbol string builds: one automaton per letter, `KleenStar`
/// repeating the piece before it.
pub open spec fn symbol_stack(syms: Seq<Language>) -> Seq<NfaParts>
    decreases syms.len(),
{
    if syms.len() == 0 {
        seq![]
    } else {
        let st = symbol_stack(syms.drop_last());
        match syms.last() {
            Language::Any => st.push(op_nfa(Op::Any)),
            Language::Begin => st.push(op_nfa(Op::Begin)),
            Language::Alphabet(t) => st.push(op_nfa(Op::Alphabet(t))),
            Language::KleenStar => if st.len() == 0 {
                st
            } else {
                st.update(st.len() - 1, star_nfa(st.last()))
            },
        }
    }
}

/// The pieces joined in order.
pub open spec fn concat_all(st: Seq<NfaParts>) -> NfaParts
    decreases st.len(),
{
    if st.len() <= 1 {
        st[0]
    } else {
        concat_nfa(concat_all(st.drop_last()), st.last())
    }
}

/// The Thompson automaton of a symbol string.
pub open spec fn thompson(syms: Seq<Language>) -> NfaParts {
    concat_all(symbol_stack(syms))
}

/// The edges of a node with every target moved up by `off`.
pub open spec fn shifted(edges: Seq<NfaEdge>, off: int) -> Seq<NfaEdge> {
    edges.map_values(|e: NfaEdge| (e.0, (e.1 + off) as usize))
}

impl Nfa {
    pub closed spec fn spec_nodes(&self) -> Seq<Seq<NfaEdge>> {
        self.nodes@.map_values(|n: Vec<NfaEdge>| n@)
    }

    pub closed spec fn spec_start(&self) -> usize {
        self.start
    }

    pub open spec fn parts(&self) -> NfaParts {
        (self.spec_nodes(), self.spec_start(), self.spec_end())
    }

    pub closed spec fn spec_end(&self) -> usize {
        self.end
    }

    /// Start, end and every edge target name nodes of the arena.
    pub open spec fn wf(&self) -> bool {
        let n = self.spec_nodes();
        &&& self.spec_start() < n.len()
        &&& self.spec_end() < n.len()
        &&& forall|i: int, j: int|
            0 <= i < n.len() && 0 <= j < n[i].len() ==> (#[trigger] n[i][j]).1 < n.len()
    }

    /// An automaton from its parts.
    pub fn from_parts(nodes: Vec<Vec<NfaEdge>>, start: usize, end: usize) -> (r: Nfa)
        ensures
            r.spec_nodes() == nodes@.map_values(|n: Vec<NfaEdge>| n@),
            r.spec_start() == start,
            r.spec_end() == end,
    {
        Nfa { nodes, start, end }
    }

    pub fn nodes(&self) -> (r: &Vec<Vec<NfaEdge>>)
        ensures
            r@.map_values(|n: Vec<NfaEdge>| n@) == self.spec_nodes(),
    {
        &self.nodes
    }

    pub fn start(&self) -> (r: usize)
        ensures
            r == self.spec_start(),
    {
        self.start
    }

    pub fn end(&self) -> (r: usize)
        ensures
            r == self.spec_end(),
    {
        self.end
    }

    /// The two-node automaton that reads one `op`.
    pub fn from_op(op: Op) -> (r: Nfa)
        ensures
            r.wf(),
            r.spec_nodes() == seq![seq![(Some(op), 1usize)], Seq::<NfaEdge>::empty()],
            r.spec_start() == 0,
            r.spec_end() == 1,
            r.parts() == op_nfa(op),
    {
        let first: Vec<NfaEdge> = vec![(Some(op), 1)];
        let second: Vec<NfaEdge> = vec![];
        let r = Nfa { nodes: vec![first, second], start: 0, end: 1 };
        assert(r.nodes@[0]@ == seq![(Some(op), 1usize)]);
        assert(r.nodes@[1]@ == Seq::<NfaEdge>::empty());
        assert(r.spec_nodes() =~= seq![seq![(Some(op), 1usize)], Seq::<NfaEdge>::empty()]);
        r
    }

    /// Repeats the automaton zero or more times: a new end after the old one,
    /// epsilon edges from the old end to the new end and back to the old
    /// start, and a new start with epsilon edges to both.
    pub fn kleen_star(&mut self)
        requires
            old(self).wf(),
            old(self).spec_nodes().len() + 2 <= usize::MAX,
        ensures
            final(self).wf(),
            final(self).spec_nodes() == old(self).spec_nodes().update(
                old(self).spec_end() as int,
                old(self).spec_nodes()[old(self).spec_end() as int].push(
                    (None, old(self).spec_nodes().len() as usize),
                ).push((None, old(self).spec_start())),
            ).push(Seq::<NfaEdge>::empty()).push(
                seq![(None, old(self).spec_start()), (None, old(self).spec_nodes().len() as usize)],
            ),
            final(self).spec_end() == old(self).spec_nodes().len(),
            final(self).spec_start() == old(self).spec_nodes().len() + 1,
            final(self).parts() == star_nfa(old(self).parts()),
    {
        let old_end_index = self.end;
        let old_start_index = self.start;
        let ghost n0 = self.spec_nodes();
        self.nodes.push(vec![]);
        self.end = self.nodes.len() - 1;
        let mut node = copy_edges(&self.nodes[old_end_index]);
        node.push((None, self.end));
        node.push((None, old_start_index));
        self.nodes.set(old_end_index, node);
        let e = self.end;
        self.nodes.push(vec![(None, old_start_index), (None, e)]);
        self.start = self.nodes.len() - 1;
        proof {
            let want = n0.update(
                old_end_index as int,
                n0[old_end_index as int].push((None, n0.len() as usize)).push(
                    (None, old_start_index),
                ),
            ).push(Seq::<NfaEdge>::empty()).push(
                seq![(None, old_start_index), (None, n0.len() as usize)],
            );
            assert(self.spec_nodes() =~= want);
            let n = self.spec_nodes();
            assert forall|i: int, j: int|
                0 <= i < n.len() && 0 <= j < n[i].len() implies (#[trigger] n[i][j]).1 < n.len() by {
                if i < n0.len() && i != old_end_index {
                    assert(n[i] == n0[i]);
                } else if i == old_end_index {
                    if j < n0[i].len() {
                        assert(n[i][j] == n0[i][j]);
                    }
                }
            }
        }
    }

    /// Appends `other`: its nodes move up by this automaton's size, and an
    /// epsilon edge joins this end to its start.
    pub fn concat(&mut self, other: Nfa)
        requires
            old(self).wf(),
            other.wf(),
            old(self).spec_nodes().len() + other.spec_nodes().len() <= usize::MAX,
        ensures
            final(self).wf(),
            final(self).spec_nodes().len() == old(self).spec_nodes().len() + other.spec_nodes().len(),
            final(self).spec_start() == old(self).spec_start(),
            final(self).spec_end() == other.spec_end() + old(self).spec_nodes().len(),
            forall|i: int|
                0 <= i < old(self).spec_nodes().len() && i != old(self).spec_end() ==> #[trigger] final(self).spec_nodes()[i] == old(self).spec_nodes()[i],
            final(self).spec_nodes()[old(self).spec_end() as int] == old(self).spec_nodes()[old(self).spec_end() as int].push((None, (other.spec_start() + old(self).spec_nodes().len()) as usize)),
            forall|i: int|
                0 <= i < other.spec_nodes().len() ==> #[trigger] final(self).spec_nodes()[i + old(self).spec_nodes().len()] == shifted(other.spec_nodes()[i], old(self).spec_nodes().len() as int),
            final(self).parts() == concat_nfa(old(self).parts(), other.parts()),
    {
        let ghost n0 = self.spec_nodes();
        let ghost m0 = other.spec_nodes();
        let offset = self.nodes.len();
        let mut moved_nodes: Vec<Vec<NfaEdge>> = Vec::new();
        let mut k: usize = 0;
        while k < other.nodes.len()
            invariant
                offset == n0.len(),
                m0 == other.spec_nodes(),
                k <= m0.len(),
                n0.len() + m0.len() <= usize::MAX,
                moved_nodes@.len() == k,
                forall|i: int| 0 <= i < k ==> #[trigger] moved_nodes@[i]@ == shifted(m0[i], offset as int),
                forall|i: int, j: int|
                    0 <= i < m0.len() && 0 <= j < m0[i].len() ==> (#[trigger] m0[i][j]).1 < m0.len(),
            decreases m0.len() - k,
        {
            let node = &other.nodes[k];
            assert(node@ == m0[k as int]);
            let mut moved: Vec<NfaEdge> = Vec::new();
            let mut t: usize = 0;
            while t < node.len()
                invariant
                    t <= node@.len(),
                    node@ == m0[k as int],
                    k < m0.len(),
                    offset == n0.len(),
                    n0.len() + m0.len() <= usize::MAX,
                    forall|j: int|
                        0 <= j < m0[k as int].len() ==> (#[trigger] m0[k as int][j]).1 < m0.len(),
                    moved@ == shifted(node@.take(t as int), offset as int),
                decreases node@.len() - t,
            {
                let e = node[t];
                assert(m0[k as int][t as int].1 < m0.len());
                moved.push((e.0, e.1 + offset));
                assert(node@.take(t + 1) == node@.take(t as int).push(e));
                t += 1;
            }
            assert(node@.take(node@.len() as int) == node@);
            moved_nodes.push(moved);
            k += 1;
        }
        let ghost moved_view = moved_nodes@;
        self.nodes.append(&mut moved_nodes);
        let mut node = copy_edges(&self.nodes[self.end]);
        node.push((None, other.start + offset));
        self.nodes.set(self.end, node);
        self.end = other.end + offset;
        proof {
            let n = self.spec_nodes();
            assert forall|i: int| 0 <= i < m0.len() implies #[trigger] n[i + n0.len()] == shifted(
                m0[i],
                n0.len() as int,
            ) by {
                assert(self.nodes@[i + n0.len()] == moved_view[i]);
            }
            assert forall|i: int| 0 <= i < n0.len() && i != old(self).spec_end() implies #[trigger] n[i]
                == n0[i] by {}
            assert forall|i: int, j: int|
                0 <= i < n.len() && 0 <= j < n[i].len() implies (#[trigger] n[i][j]).1 < n.len() by {
                if i < n0.len() && i != old(self).spec_end() {
                    assert(n[i] == n0[i]);
                } else if i == old(self).spec_end() {
                    if j < n0[i].len() {
                        assert(n[i][j] == n0[i][j]);
                    }
                } else {
                    let i2 = i - n0.len();
                    assert(n[i] == shifted(m0[i2], n0.len() as int));
                    assert(m0[i2][j].1 < m0.len());
                }
            }
            assert(n =~= concat_nfa((n0, old(self).spec_start(), old(self).spec_end()), other.parts()).0);
        }
    }
}

/// `x` holds the target of every epsilon edge that leaves a node of `x`.
pub open spec fn eps_closed(nodes: Seq<Seq<NfaEdge>>, x: Set<usize>) -> bool {
    forall|v: usize, j: int|
        #![trigger x.contains(v), nodes[v as int][j]]
        x.contains(v) && v < nodes.len() && 0 <= j < nodes[v as int].len() && nodes[v as int][j].0 is None
            ==> x.contains(nodes[v as int][j].1)
}

/// `c` is the least epsilon-closed set of nodes that holds `seed`.
pub open spec fn least_closed(nodes: Seq<Seq<NfaEdge>>, seed: Set<usize>, c: Set<usize>) -> bool {
    &&& seed.subset_of(c)
    &&& eps_closed(nodes, c)
    &&& forall|x: Set<usize>| #[trigger] eps_closed(nodes, x) && seed.subset_of(x) ==> c.subset_of(x)
}

/// Every node waiting or explored lies in `x`.
pub open spec fn covered(x: Set<usize>, explored: Seq<usize>, unexplored: Seq<usize>) -> bool {
    forall|v: usize| (explored.contains(v) || unexplored.contains(v)) ==> #[trigger] x.contains(v)
}

impl Nfa {
    /// A copy of the automaton.
    pub fn copy(&self) -> (r: Nfa)
        ensures
            r.spec_nodes() == self.spec_nodes(),
            r.spec_start() == self.spec_start(),
            r.spec_end() == self.spec_end(),
    {
        let mut nodes: Vec<Vec<NfaEdge>> = Vec::new();
        let mut i: usize = 0;
        while i < self.nodes.len()
            invariant
                i <= self.nodes@.len(),
                nodes@.len() == i,
                forall|k: int| 0 <= k < i ==> #[trigger] nodes@[k]@ == self.nodes@[k]@,
            decreases self.nodes@.len() - i,
        {
            nodes.push(copy_edges(&self.nodes[i]));
            i += 1;
        }
        let r = Nfa { nodes, start: self.start, end: self.end };
        assert(r.spec_nodes() =~= self.spec_nodes());
        r
    }

    /// Builds the automaton of a symbol string: each symbol reads one letter,
    /// `KleenStar` repeats the automaton before it, and the pieces are joined
    /// in order. A string that is empty or starts with `KleenStar` is refused.
    pub fn from_string(string: &Vec<Language>) -> (r: Result<Nfa, Error>)
        requires
            string@.len() <= 4 * MAX_SELECTOR_LEN,
        ensures
            r is Ok <==> (string@.len() > 0 && string@[0] != Language::KleenStar),
            r is Err ==> r->Err_0 == Error::EmptyRuleString,
            r is Ok ==> r->Ok_0.wf() && r->Ok_0.spec_nodes().len() == 2 * string@.len(),
            r is Ok ==> r->Ok_0.parts() == thompson(string@),
    {
        let mut stack: Vec<Nfa> = Vec::new();
        let mut i: usize = 0;
        while i < string.len()
            invariant
                i <= string@.len(),
                string@.len() <= 4 * MAX_SELECTOR_LEN,
                i > 0 ==> string@[0] != Language::KleenStar,
                i > 0 ==> stack@.len() > 0,
                i == 0 ==> stack@.len() == 0,
                forall|k: int| 0 <= k < stack@.len() ==> (#[trigger] stack@[k]).wf(),
                total_nodes(stack@) == 2 * i,
                stack_parts(stack@) == symbol_stack(string@.take(i as int)),
            decreases string@.len() - i,
        {
            proof {
                lemma_total_nodes_bounds(stack@);
                assert(string@.take(i + 1).drop_last() == string@.take(i as int));
                assert(string@.take(i + 1).last() == string@[i as int]);
            }
            match string[i] {
                Language::Any => {
                    let ghost before = stack@;
                    let piece = Nfa::from_op(Op::Any);
                    stack.push(piece);
                    proof {
                        lemma_total_nodes_push(before, piece);
                        assert(stack_parts(stack@) =~= stack_parts(before).push(piece.parts()));
                    }
                },
                Language::Begin => {
                    let ghost before = stack@;
                    let piece = Nfa::from_op(Op::Begin);
                    stack.push(piece);
                    proof {
                        lemma_total_nodes_push(before, piece);
                        assert(stack_parts(stack@) =~= stack_parts(before).push(piece.parts()));
                    }
                },
                Language::Alphabet(t) => {
                    let ghost before = stack@;
                    let piece = Nfa::from_op(Op::Alphabet(t));
                    stack.push(piece);
                    proof {
                        lemma_total_nodes_push(before, piece);
                        assert(stack_parts(stack@) =~= stack_parts(before).push(piece.parts()));
                    }
                },
                Language::KleenStar => {
                    if stack.len() == 0 {
                        return Err(Error::EmptyRuleString);
                    }
                    let ghost before = stack@;
                    let mut last = stack.pop().unwrap();
                    proof {
                        lemma_total_nodes_push(stack@, last);
                        assert(stack@.push(last) == before);
                        lemma_total_nodes_bounds(stack@);
                    }
                    let ghost popped = stack@;
                    let ghost lp = last.parts();
                    last.kleen_star();
                    stack.push(last);
                    proof {
                        lemma_total_nodes_push(popped, last);
                        assert(stack_parts(before).last() == lp);
                        assert(stack_parts(stack@) =~= stack_parts(before).update(
                            stack_parts(before).len() - 1,
                            star_nfa(lp),
                        ));
                    }
                },
            }
            i += 1;
        }
        if stack.len() == 0 {
            return Err(Error::EmptyRuleString);
        }
        let mut acc = stack[0].copy();
        proof {
            assert(string@.take(string@.len() as int) == string@);
            assert(stack_parts(stack@).take(1)[0] == stack@[0].parts());
            assert(stack@.take(1).drop_last() == Seq::<Nfa>::empty());
            assert(stack@.take(1).last() == stack@[0]);
            assert(total_nodes(Seq::<Nfa>::empty()) == 0);
            assert(total_nodes(stack@.take(1)) == stack@[0].spec_nodes().len());
        }
        let mut k: usize = 1;
        while k < stack.len()
            invariant
                1 <= k <= stack@.len(),
                forall|m: int| 0 <= m < stack@.len() ==> (#[trigger] stack@[m]).wf(),
                acc.wf(),
                acc.spec_nodes().len() == total_nodes(stack@.take(k as int)),
                total_nodes(stack@) == 2 * string@.len(),
                stack_parts(stack@) == symbol_stack(string@),
                acc.parts() == concat_all(stack_parts(stack@).take(k as int)),
                string@.len() <= 4 * MAX_SELECTOR_LEN,
            decreases stack@.len() - k,
        {
            proof {
                assert(stack@.take(k + 1).drop_last() == stack@.take(k as int));
                assert(stack@.take(k + 1).last() == stack@[k as int]);
                lemma_total_nodes_prefix(stack@, k + 1);
                let sp = stack_parts(stack@);
                assert(sp.take(k + 1).drop_last() == sp.take(k as int));
                assert(sp.take(k + 1).last() == stack@[k as int].parts());
            }
            acc.concat(stack[k].copy());
            k += 1;
        }
        proof {
            assert(stack@.take(stack@.len() as int) == stack@);
            assert(stack_parts(stack@).take(stack@.len() as int) == stack_parts(stack@));
        }
        Ok(acc)
    }

    /// Every node reachable from each node by epsilon edges, itself included.
    pub fn epsilon_closures(&self) -> (r: Vec<NodeSet>)
        requires
            self.wf(),
        ensures
            r@.len() == self.spec_nodes().len(),
            forall|i: int| 0 <= i < r@.len() ==> {
                let c = #[trigger] r@[i];
                &&& c.wf()
                &&& sorted_below(c@, self.spec_nodes().len() as nat)
                &&& c@.contains(i as usize)
                &&& least_closed(self.spec_nodes(), set![i as usize], c@.to_set())
            },
    {
        let ghost nodes = self.spec_nodes();
        let ghost n = nodes.len() as nat;
        let mut out: Vec<NodeSet> = Vec::new();
        let mut idx: usize = 0;
        while idx < self.nodes.len()
            invariant
                self.wf(),
                nodes == self.spec_nodes(),
                n == nodes.len(),
                idx <= n,
                out@.len() == idx,
                forall|i: int| 0 <= i < idx ==> {
                    let c = #[trigger] out@[i];
                    &&& c.wf()
                    &&& sorted_below(c@, n)
                    &&& c@.contains(i as usize)
                    &&& least_closed(nodes, set![i as usize], c@.to_set())
                },
            decreases n - idx,
        {
            let c = self.closure_of(idx);
            out.push(c);
            idx += 1;
        }
        out
    }

    fn closure_of(&self, idx: usize) -> (c: NodeSet)
        requires
            self.wf(),
            idx < self.spec_nodes().len(),
        ensures
            c.wf(),
            sorted_below(c@, self.spec_nodes().len() as nat),
            c@.contains(idx),
            least_closed(self.spec_nodes(), set![idx], c@.to_set()),
    {
        broadcast use lemma_to_set_contains;

        let ghost nodes = self.spec_nodes();
        let ghost n = nodes.len() as nat;
        let total = self.nodes.len();
        assert(total == n);
        let mut unexplored = NodeSet::new();
        unexplored.insert(idx);
        assert(unexplored@.contains(idx));
        let mut explored = NodeSet::new();
        while !unexplored.is_empty()
            invariant
                self.wf(),
                nodes == self.spec_nodes(),
                n == nodes.len(),
                n <= usize::MAX,
                idx < n,
                unexplored.wf(),
                explored.wf(),
                sorted_below(unexplored@, n),
                sorted_below(explored@, n),
                forall|v: usize| unexplored@.contains(v) ==> !explored@.contains(v),
                explored@.contains(idx) || unexplored@.contains(idx),
                forall|x: int, j: int|
                    explored@.contains(x as usize) && 0 <= x < n && 0 <= j < nodes[x].len()
                        && nodes[x][j].0 is None ==> explored@.contains(nodes[x][j].1)
                        || unexplored@.contains(nodes[x][j].1),
                forall|x: Set<usize>| #[trigger] eps_closed(nodes, x) && x.contains(idx) ==> covered(x, explored@, unexplored@),
            decreases n - explored@.len(),
        {
            proof {
                lemma_sorted_below_len(explored@, n);
            }
            let ghost un0 = unexplored@;
            let ghost ex0 = explored@;
            let node_idx = unexplored.pop().unwrap();
            assert(un0.contains(node_idx));
            assert(!explored@.contains(node_idx));
            explored.insert(node_idx);
            proof {
                assert forall|v: usize| unexplored@.contains(v) implies !explored@.contains(v) by {
                    let k = choose|k: int| 0 <= k < unexplored@.len() && unexplored@[k] == v;
                    assert(un0[k] == v);
                    assert(un0.contains(v));
                    assert(un0[k] < un0[un0.len() - 1]);
                    assert(v != node_idx);
                }
                assert(explored@.contains(node_idx));
                assert forall|v: usize| ex0.contains(v) implies explored@.contains(v) by {}
                assert forall|v: usize| un0.contains(v) implies explored@.contains(v) || unexplored@.contains(v) by {
                    let k = choose|k: int| 0 <= k < un0.len() && un0[k] == v;
                    if k < un0.len() - 1 {
                        assert(unexplored@[k] == v);
                    }
                }
                assert forall|x: int, j: int|
                    explored@.contains(x as usize) && x != node_idx && 0 <= x < n && 0 <= j < nodes[x].len()
                        && nodes[x][j].0 is None implies explored@.contains(nodes[x][j].1)
                        || unexplored@.contains(nodes[x][j].1) by {
                    assert(n <= usize::MAX);
                    assert((x as usize) as int == x);
                    assert(explored@.contains(x as usize));
                    assert(ex0.contains(x as usize));
                    let y = nodes[x][j].1;
                    assert(ex0.contains(y) || un0.contains(y));
                }
                assert(explored@.contains(idx) || unexplored@.contains(idx)) by {
                    if un0.contains(idx) && idx != node_idx {
                        let k = choose|k: int| 0 <= k < un0.len() && un0[k] == idx;
                        assert(k != un0.len() - 1);
                        assert(unexplored@[k] == idx);
                    }
                }
                assert forall|x: Set<usize>| #[trigger] eps_closed(nodes, x) && x.contains(idx) implies covered(x, explored@, unexplored@) by {
                    assert(covered(x, ex0, un0));
                    assert forall|v: usize| (explored@.contains(v) || unexplored@.contains(v)) implies #[trigger] x.contains(v) by {
                        if unexplored@.contains(v) {
                            let k = choose|k: int| 0 <= k < unexplored@.len() && unexplored@[k] == v;
                            assert(un0[k] == v);
                        }
                        if v == node_idx {
                            assert(un0[un0.len() - 1] == v);
                        }
                    }
                }
                assert(explored@.to_set() == ex0.to_set().insert(node_idx));
                assert(explored@.len() == ex0.len() + 1) by {
                    ex0.unique_seq_to_set();
                    explored@.unique_seq_to_set();
                    assert(!ex0.to_set().contains(node_idx));
                }
                lemma_sorted_below_len(explored@, n);
            }
            let edges = &self.nodes[node_idx];
            let mut e: usize = 0;
            while e < edges.len()
                invariant
                    self.wf(),
                    nodes == self.spec_nodes(),
                    n == nodes.len(),
                    edges@ == nodes[node_idx as int],
                    node_idx < n,
                    e <= edges@.len(),
                    idx < n,
                    unexplored.wf(),
                    explored.wf(),
                    sorted_below(unexplored@, n),
                    sorted_below(explored@, n),
                    explored@.len() == ex0.len() + 1,
                    explored@.contains(node_idx),
                    forall|v: usize| unexplored@.contains(v) ==> !explored@.contains(v),
                    explored@.contains(idx) || unexplored@.contains(idx),
                    forall|j: int| 0 <= j < e && nodes[node_idx as int][j].0 is None ==> explored@.contains(nodes[node_idx as int][j].1)
                        || unexplored@.contains(nodes[node_idx as int][j].1),
                    forall|x: int, j: int|
                        explored@.contains(x as usize) && x != node_idx && 0 <= x < n && 0 <= j < nodes[x].len()
                            && nodes[x][j].0 is None ==> explored@.contains(nodes[x][j].1)
                            || unexplored@.contains(nodes[x][j].1),
                    forall|x: Set<usize>| #[trigger] eps_closed(nodes, x) && x.contains(idx) ==> covered(x, explored@, unexplored@),
                decreases edges@.len() - e,
            {
                let (transition, link_idx) = edges[e];
                assert(nodes[node_idx as int][e as int].1 < n);
                if transition.is_none() && !explored.contains(link_idx) {
                    let ghost u1 = unexplored@;
                    unexplored.insert(link_idx);
                    proof {
                        assert forall|x: Set<usize>| #[trigger] eps_closed(nodes, x) && x.contains(idx) implies covered(x, explored@, unexplored@) by {
                            assert(covered(x, explored@, u1));
                            assert(x.contains(node_idx));
                            assert(x.contains(nodes[node_idx as int][e as int].1));
                        }
                    }
                }
                e += 1;
            }
        }
        proof {
            let c = explored@.to_set();
            assert(set![idx].subset_of(c));
            assert forall|v: usize, j: int|
                #![trigger c.contains(v), nodes[v as int][j]]
                c.contains(v) && v < nodes.len() && 0 <= j < nodes[v as int].len() && nodes[v as int][j].0 is None
                    implies c.contains(nodes[v as int][j].1) by {
                assert(explored@.contains(v));
                assert((v as int) as usize == v);
            }
            assert forall|x: Set<usize>| #[trigger] eps_closed(nodes, x) && set![idx].subset_of(x) implies c.subset_of(x) by {
                assert(x.contains(idx));
                assert(covered(x, explored@, unexplored@));
            }
        }
        explored
    }

    /// Targets of the labelled edges of node `idx` that may be taken on `op`.
    pub fn transition(&self, idx: usize, op: &Op) -> (r: NodeSet)
        requires
            self.wf(),
            idx < self.spec_nodes().len(),
        ensures
            r.wf(),
            sorted_below(r@, self.spec_nodes().len() as nat),
            forall|y: usize|
                #[trigger] r@.contains(y) <==> exists|j: int|
                    0 <= j < self.spec_nodes()[idx as int].len() && (#[trigger] self.spec_nodes()[idx as int][j]).1 == y
                        && self.spec_nodes()[idx as int][j].0 is Some
                        && self.spec_nodes()[idx as int][j].0->Some_0.spec_satisfied_by(*op),
    {
        let ghost n = self.spec_nodes().len() as nat;
        let ghost es = self.spec_nodes()[idx as int];
        let mut out = NodeSet::new();
        let edges = &self.nodes[idx];
        let mut e: usize = 0;
        while e < edges.len()
            invariant
                self.wf(),
                n == self.spec_nodes().len(),
                idx < n,
                edges@ == self.spec_nodes()[idx as int],
                e <= edges@.len(),
                es == edges@,
                out.wf(),
                sorted_below(out@, n),
                forall|y: usize|
                    #[trigger] out@.contains(y) <==> exists|j: int|
                        0 <= j < e && (#[trigger] es[j]).1 == y && es[j].0 is Some
                            && es[j].0->Some_0.spec_satisfied_by(*op),
            decreases edges@.len() - e,
        {
            let (link_op, node_idx) = edges[e];
            assert(self.spec_nodes()[idx as int][e as int].1 < n);
            let ghost before = out@;
            match link_op {
                Some(o) => {
                    if o.is_satisfied_by(op) {
                        out.insert(node_idx);
                    }
                },
                None => {},
            }
            proof {
                assert forall|y: usize|
                    #[trigger] out@.contains(y) <==> exists|j: int|
                        0 <= j < e + 1 && (#[trigger] es[j]).1 == y && es[j].0 is Some
                            && es[j].0->Some_0.spec_satisfied_by(*op) by {
                    if out@.contains(y) && !before.contains(y) {
                        assert(es[e as int].1 == y);
                    }
                    if exists|j: int|
                        0 <= j < e + 1 && (#[trigger] es[j]).1 == y && es[j].0 is Some
                            && es[j].0->Some_0.spec_satisfied_by(*op) {
                        let j = choose|j: int|
                            0 <= j < e + 1 && (#[trigger] es[j]).1 == y && es[j].0 is Some
                                && es[j].0->Some_0.spec_satisfied_by(*op);
                        if j < e {
                            assert(before.contains(y));
                        }
                    }
                }
            }
            e += 1;
        }
        out
    }
}

/// The parts of each automaton of a stack.
pub open spec fn stack_parts(stack: Seq<Nfa>) -> Seq<NfaParts> {
    stack.map_values(|n: Nfa| n.parts())
}

/// Number of nodes over a stack of automata.
pub open spec fn total_nodes(stack: Seq<Nfa>) -> int
    decreases stack.len(),
{
    if stack.len() == 0 {
        0
    } else {
        total_nodes(stack.drop_last()) + stack.last().spec_nodes().len()
    }
}

proof fn lemma_total_nodes_push(stack: Seq<Nfa>, x: Nfa)
    ensures
        total_nodes(stack.push(x)) == total_nodes(stack) + x.spec_nodes().len(),
{
    assert(stack.push(x).drop_last() == stack);
}

proof fn lemma_total_nodes_bounds(stack: Seq<Nfa>)
    ensures
        total_nodes(stack) >= 0,
        forall|k: int| 0 <= k < stack.len() ==> (#[trigger] stack[k]).spec_nodes().len() <= total_nodes(stack),
    decreases stack.len(),
{
    if stack.len() > 0 {
        lemma_total_nodes_bounds(stack.drop_last());
        assert forall|k: int| 0 <= k < stack.len() implies (#[trigger] stack[k]).spec_nodes().len() <= total_nodes(stack) by {
            if k < stack.len() - 1 {
                assert(stack[k] == stack.drop_last()[k]);
            }
        }
    }
}

proof fn lemma_total_nodes_prefix(stack: Seq<Nfa>, k: int)
    requires
        0 <= k <= stack.len(),
    ensures
        total_nodes(stack.take(k)) <= total_nodes(stack),
    decreases stack.len() - k,
{
    lemma_total_nodes_bounds(stack);
    if k < stack.len() {
        lemma_total_nodes_prefix(stack, k + 1);
        assert(stack.take(k + 1).drop_last() == stack.take(k));
        lemma_total_nodes_bounds(stack.take(k + 1));
    } else {
        assert(stack.take(k) == stack);
    }
}

fn copy_edges(v: &Vec<NfaEdge>) -> (r: Vec<NfaEdge>)
    ensures
        r@ == v@,
{
    let mut r: Vec<NfaEdge> = Vec::new();
    let mut i: usize = 0;
    while i < v.len()
        invariant
            i <= v@.len(),
            r@ == v@.take(i as int),
        decreases v@.len() - i,
    {
        r.push(v[i]);
        assert(v@.take(i + 1) == v@.take(i as int).push(v@[i as int]));
        i += 1;
    }
    assert(v@.take(v@.len() as int) == v@);
    r
}

/// Position of the first state from `i` on whose set is `s`, or -1.
pub open spec fn find_state(states: Seq<Seq<usize>>, s: Seq<usize>, i: int) -> int
    decreases states.len() - i,
{
    if i < 0 || i >= states.len() {
        -1
    } else if states[i] == s {
        i
    } else {
        find_state(states, s, i + 1)
    }
}

/// Position of the first edge from `i` on labelled `op`, or -1.
pub open spec fn find_edge(edges: Seq<(Op, Seq<usize>)>, op: Op, i: int) -> int
    decreases edges.len() - i,
{
    if i < 0 || i >= edges.len() {
        -1
    } else if edges[i].0 == op {
        i
    } else {
        find_edge(edges, op, i + 1)
    }
}

/// The sets of a list of node sets.
pub open spec fn set_views(list: Seq<NodeSet>) -> Seq<Seq<usize>> {
    list.map_values(|x: NodeSet| x@)
}

/// The labels and target sets of a list of edges.
pub open spec fn edge_views(edges: Seq<(Op, NodeSet)>) -> Seq<(Op, Seq<usize>)> {
    edges.map_values(|p: (Op, NodeSet)| (p.0, p.1@))
}

/// Deterministic automaton whose states are sets of NFA nodes.
#[derive(Clone, Debug)]
pub struct Dfa {
    states: Vec<NodeSet>,
    edges: Vec<Vec<(Op, NodeSet)>>,
    start: NodeSet,
    accepting_idx: usize,
}

impl Dfa {
    pub closed spec fn spec_states(&self) -> Seq<Seq<usize>> {
        set_views(self.states@)
    }

    pub closed spec fn spec_edges(&self) -> Seq<Seq<(Op, Seq<usize>)>> {
        self.edges@.map_values(|e: Vec<(Op, NodeSet)>| edge_views(e@))
    }

    pub closed spec fn spec_start(&self) -> Seq<usize> {
        self.start@
    }

    pub closed spec fn spec_accepting(&self) -> usize {
        self.accepting_idx
    }

    /// The state reached from state `s` on `op`, if the automaton has that edge.
    pub open spec fn step(&self, s: Seq<usize>, op: Op) -> Option<Seq<usize>> {
        let i = find_state(self.spec_states(), s, 0);
        if i < 0 || i >= self.spec_edges().len() {
            None
        } else {
            let j = find_edge(self.spec_edges()[i], op, 0);
            if j < 0 {
                None
            } else {
                Some(self.spec_edges()[i][j].1)
            }
        }
    }

    /// Whether reading `ops` from state `s` passes through an accepting
    /// state; reading stops at a missing edge.
    pub open spec fn accepts_from(&self, s: Seq<usize>, ops: Seq<Op>) -> bool
        decreases ops.len(),
    {
        if s.contains(self.spec_accepting()) {
            true
        } else if ops.len() == 0 {
            false
        } else {
            match self.step(s, ops[0]) {
                Some(t) => self.accepts_from(t, ops.drop_first()),
                None => false,
            }
        }
    }

    pub open spec fn spec_accepts(&self, ops: Seq<Op>) -> bool {
        self.accepts_from(self.spec_start(), ops)
    }

    pub fn start(&self) -> (r: &NodeSet)
        ensures
            r@ == self.spec_start(),
    {
        &self.start
    }

    pub fn accepting_idx(&self) -> (r: usize)
        ensures
            r == self.spec_accepting(),
    {
        self.accepting_idx
    }

    /// The states, in the order they were found.
    pub fn states(&self) -> (r: &Vec<NodeSet>)
        ensures
            set_views(r@) == self.spec_states(),
    {
        &self.states
    }

    pub fn is_accepting(&self, state: &NodeSet) -> (r: bool)
        ensures
            r == state@.contains(self.spec_accepting()),
    {
        state.contains(self.accepting_idx)
    }

    /// The state reached from `state` on `op`.
    pub fn transition(&self, state: &NodeSet, op: &Op) -> (r: Option<NodeSet>)
        ensures
            r is Some <==> self.step(state@, *op) is Some,
            r is Some ==> r->Some_0@ == self.step(state@, *op)->Some_0,
    {
        let mut i: usize = 0;
        while i < self.states.len()
            invariant
                i <= self.states@.len(),
                find_state(self.spec_states(), state@, 0) == find_state(self.spec_states(), state@, i as int),
            decreases self.states@.len() - i,
        {
            if self.states[i].same(state) {
                if i >= self.edges.len() {
                    return None;
                }
                let es = &self.edges[i];
                assert(edge_views(es@) == self.spec_edges()[i as int]);
                assert(find_state(self.spec_states(), state@, 0) == i as int);
                let mut j: usize = 0;
                while j < es.len()
                    invariant
                        j <= es@.len(),
                        i < self.spec_edges().len(),
                        edge_views(es@) == self.spec_edges()[i as int],
                        find_state(self.spec_states(), state@, 0) == i as int,
                        find_edge(edge_views(es@), *op, 0) == find_edge(edge_views(es@), *op, j as int),
                    decreases es@.len() - j,
                {
                    if es[j].0 == *op {
                        return Some(es[j].1.copy());
                    }
                    j += 1;
                }
                return None;
            }
            i += 1;
        }
        None
    }

    /// A copy of the automaton.
    pub fn copy(&self) -> (r: Dfa)
        ensures
            r.spec_states() == self.spec_states(),
            r.spec_edges() == self.spec_edges(),
            r.spec_start() == self.spec_start(),
            r.spec_accepting() == self.spec_accepting(),
    {
        let mut states: Vec<NodeSet> = Vec::new();
        let mut i: usize = 0;
        while i < self.states.len()
            invariant
                i <= self.states@.len(),
                states@.len() == i,
                forall|m: int| 0 <= m < i ==> (#[trigger] states@[m])@ == self.states@[m]@,
            decreases self.states@.len() - i,
        {
            states.push(self.states[i].copy());
            i += 1;
        }
        assert(set_views(states@) =~= set_views(self.states@));
        let mut edges: Vec<Vec<(Op, NodeSet)>> = Vec::new();
        let mut k: usize = 0;
        while k < self.edges.len()
            invariant
                k <= self.edges@.len(),
                edges@.len() == k,
                forall|m: int| 0 <= m < k ==> edge_views((#[trigger] edges@[m])@) == edge_views(self.edges@[m]@),
            decreases self.edges@.len() - k,
        {
            let es = &self.edges[k];
            let mut copied: Vec<(Op, NodeSet)> = Vec::new();
            let mut j: usize = 0;
            while j < es.len()
                invariant
                    j <= es@.len(),
                    copied@.len() == j,
                    forall|m: int| 0 <= m < j ==> (#[trigger] copied@[m]).0 == es@[m].0 && copied@[m].1@ == es@[m].1@,
                decreases es@.len() - j,
            {
                copied.push((es[j].0, es[j].1.copy()));
                j += 1;
            }
            assert(edge_views(copied@) =~= edge_views(es@));
            edges.push(copied);
            k += 1;
        }
        let r = Dfa { states, edges, start: self.start.copy(), accepting_idx: self.accepting_idx };
        assert(r.spec_edges() =~= self.spec_edges());
        r
    }

    /// Subset construction: the start state is the epsilon closure of the
    /// NFA's start; from each state found, each letter leads to the closure
    /// of the nodes its edges reach, where there are any.
    pub fn from_nfa(nfa: &Nfa) -> (r: Dfa)
        requires
            nfa.wf(),
        ensures
            r.spec_accepting() == nfa.spec_end(),
            r.spec_start().contains(nfa.spec_start()),
            r.spec_states().len() == r.spec_edges().len(),
            forall|k: int| 0 <= k < r.spec_states().len() ==> sorted_below(
                #[trigger] r.spec_states()[k],
                nfa.spec_nodes().len() as nat,
            ),
            r.spec_states().no_duplicates(),
            r.spec_states().contains(r.spec_start()),
            forall|i: int, j: int|
                0 <= i < r.spec_edges().len() && 0 <= j < r.spec_edges()[i].len() ==> r.spec_states().contains(
                    (#[trigger] r.spec_edges()[i][j]).1,
                ),
            least_closed(nfa.spec_nodes(), set![nfa.spec_start()], r.spec_start().to_set()),
            forall|i: int, j: int|
                0 <= i < r.spec_edges().len() && 0 <= j < r.spec_edges()[i].len() ==> edge_ok(
                    nfa.spec_nodes(),
                    r.spec_states()[i],
                    #[trigger] r.spec_edges()[i][j],
                ),
            forall|i: int, op: Op|
                0 <= i < r.spec_edges().len() && #[trigger] move_set(nfa.spec_nodes(), r.spec_states()[i], op)
                    != Set::<usize>::empty() ==> exists|j: int|
                    0 <= j < r.spec_edges()[i].len() && (#[trigger] r.spec_edges()[i][j]).0 == op,
            dfa_of(r, nfa.spec_nodes(), nfa.spec_start(), nfa.spec_end()),
    {
        let ghost n = nfa.spec_nodes().len() as nat;
        let ghost nodes = nfa.spec_nodes();
        let ops = Op::enumerate_all();
        let closures = nfa.epsilon_closures();
        let start = closures[nfa.start].copy();
        let mut states: Vec<NodeSet> = Vec::new();
        let mut edges: Vec<Vec<(Op, NodeSet)>> = Vec::new();
        let mut unexplored: Vec<NodeSet> = Vec::new();
        unexplored.push(start.copy());
        proof {
            assert(set_views(states@) =~= Seq::<Seq<usize>>::empty());
            assert(set_views(unexplored@) =~= seq![start@]);
            assert(set_views(unexplored@)[0] == start@);
        }
        while unexplored.len() > 0
            invariant
                nfa.wf(),
                n == nfa.spec_nodes().len(),
                nodes == nfa.spec_nodes(),
                closures@.len() == n,
                forall|i: int| 0 <= i < n ==> {
                    let c = #[trigger] closures@[i];
                    &&& c.wf()
                    &&& sorted_below(c@, n)
                    &&& least_closed(nodes, set![i as usize], c@.to_set())
                },
                forall|op: Op| ops@.contains(op),
                states@.len() == edges@.len(),
                state_sets_ok(states@, unexplored@, n),
                known(states@, unexplored@, start@),
                forall|i: int, j: int|
                    0 <= i < edges@.len() && 0 <= j < edges@[i]@.len() ==> known(
                        states@,
                        unexplored@,
                        (#[trigger] edges@[i]@[j]).1@,
                    ),
                forall|i: int, j: int|
                    0 <= i < edges@.len() && 0 <= j < edges@[i]@.len() ==> edge_ok(
                        nodes,
                        states@[i]@,
                        ((#[trigger] edges@[i]@[j]).0, edges@[i]@[j].1@),
                    ),
                forall|i: int, op: Op|
                    0 <= i < edges@.len() && #[trigger] move_set(nodes, states@[i]@, op) != Set::<usize>::empty()
                        ==> exists|j: int| 0 <= j < edges@[i]@.len() && (#[trigger] edges@[i]@[j]).0 == op,
            decreases pow2(n) - states@.len(),
        {
            proof {
                lemma_distinct_sorted_count(set_views(states@), n);
            }
            let ghost st0 = states@;
            let ghost un0 = unexplored@;
            let ghost e0 = edges@;
            let node_set = unexplored.pop().unwrap();
            states.push(node_set.copy());
            proof {
                lemma_state_sets_after_move(st0, un0, states@, unexplored@, n);
                lemma_distinct_sorted_count(set_views(states@), n);
                assert forall|t: Seq<usize>| known(st0, un0, t) implies known(states@, unexplored@, t) by {
                    lemma_known_after_move(st0, un0, states@, unexplored@, t);
                }
                assert forall|i: int| 0 <= i < st0.len() implies #[trigger] states@[i]@ == st0[i]@ by {}
            }
            let out_edges = dfa_edges(nfa, &closures, &node_set, &ops);
            let mut k: usize = 0;
            while k < out_edges.len()
                invariant
                    n == nfa.spec_nodes().len(),
                    k <= out_edges@.len(),
                    states@.len() == edges@.len() + 1,
                    edges@ == e0,
                    forall|i: int| 0 <= i < st0.len() ==> #[trigger] states@[i]@ == st0[i]@,
                    states@.len() == st0.len() + 1,
                    forall|j: int| 0 <= j < out_edges@.len() ==> sorted_below((#[trigger] out_edges@[j]).1@, n),
                    state_sets_ok(states@, unexplored@, n),
                    known(states@, unexplored@, start@),
                    forall|i: int, j: int|
                        0 <= i < edges@.len() && 0 <= j < edges@[i]@.len() ==> known(
                            states@,
                            unexplored@,
                            (#[trigger] edges@[i]@[j]).1@,
                        ),
                    forall|j: int| 0 <= j < k ==> known(states@, unexplored@, (#[trigger] out_edges@[j]).1@),
                decreases out_edges@.len() - k,
            {
                let target = &out_edges[k].1;
                let seen = holds_set(&states, target) || holds_set(&unexplored, target);
                let ghost u1 = unexplored@;
                if !seen {
                    unexplored.push(target.copy());
                    proof {
                        lemma_state_sets_after_queue(states@, u1, unexplored@, n);
                    }
                }
                proof {
                    assert forall|t: Seq<usize>| known(states@, u1, t) implies known(states@, unexplored@, t) by {
                        if set_views(u1).contains(t) {
                            let m = choose|m: int| 0 <= m < set_views(u1).len() && set_views(u1)[m] == t;
                            assert(set_views(unexplored@)[m] == t);
                        }
                    }
                    if seen {
                        if exists|m: int| 0 <= m < states@.len() && (#[trigger] states@[m])@ == target@ {
                            let m = choose|m: int| 0 <= m < states@.len() && (#[trigger] states@[m])@ == target@;
                            assert(set_views(states@)[m] == target@);
                        } else {
                            let m = choose|m: int| 0 <= m < unexplored@.len() && (#[trigger] unexplored@[m])@ == target@;
                            assert(set_views(unexplored@)[m] == target@);
                        }
                    } else {
                        assert(set_views(unexplored@)[u1.len() as int] == target@);
                    }
                }
                k += 1;
            }
            let ghost oe = out_edges@;
            edges.push(out_edges);
            proof {
                assert(edges@[e0.len() as int]@ == oe);
                assert(states@[e0.len() as int]@ == node_set@);
                assert forall|i: int, j: int|
                    0 <= i < edges@.len() && 0 <= j < edges@[i]@.len() implies known(
                        states@,
                        unexplored@,
                        (#[trigger] edges@[i]@[j]).1@,
                    ) by {
                    if i < e0.len() {
                        assert(edges@[i] == e0[i]);
                    } else {
                        assert(edges@[i]@[j] == oe[j]);
                    }
                }
                assert forall|i: int, j: int|
                    0 <= i < edges@.len() && 0 <= j < edges@[i]@.len() implies edge_ok(
                        nodes,
                        states@[i]@,
                        ((#[trigger] edges@[i]@[j]).0, edges@[i]@[j].1@),
                    ) by {
                    if i < e0.len() {
                        assert(edges@[i] == e0[i]);
                        assert(states@[i]@ == st0[i]@);
                    } else {
                        assert(edges@[i]@[j] == oe[j]);
                    }
                }
                assert forall|i: int, op: Op|
                    0 <= i < edges@.len() && #[trigger] move_set(nodes, states@[i]@, op) != Set::<usize>::empty()
                        implies exists|j: int| 0 <= j < edges@[i]@.len() && (#[trigger] edges@[i]@[j]).0 == op by {
                    if i < e0.len() {
                        assert(states@[i]@ == st0[i]@);
                        assert(edges@[i] == e0[i]);
                        let j = choose|j: int| 0 <= j < e0[i]@.len() && (#[trigger] e0[i]@[j]).0 == op;
                        assert(edges@[i]@[j] == e0[i]@[j]);
                    } else {
                        let j = choose|j: int| 0 <= j < oe.len() && (#[trigger] oe[j]).0 == op;
                        assert(edges@[i]@[j] == oe[j]);
                    }
                }
            }
        }
        let r = Dfa { states, edges, start, accepting_idx: nfa.end };
        proof {
            assert(set_views(unexplored@).len() == 0);
            assert(r.spec_start() == closures@[nfa.spec_start() as int]@);
            assert forall|k: int| 0 <= k < r.spec_states().len() implies sorted_below(
                #[trigger] r.spec_states()[k],
                n,
            ) by {
                assert(r.spec_states()[k] == r.states@[k]@);
            }
            assert forall|i: int, j: int|
                0 <= i < r.spec_edges().len() && 0 <= j < r.spec_edges()[i].len() implies r.spec_states().contains(
                    (#[trigger] r.spec_edges()[i][j]).1,
                ) by {
                assert(r.spec_edges()[i] == edge_views(r.edges@[i]@));
                assert(r.spec_edges()[i][j].1 == r.edges@[i]@[j].1@);
                assert(known(r.states@, unexplored@, r.edges@[i]@[j].1@));
            }
            assert forall|i: int, j: int|
                0 <= i < r.spec_edges().len() && 0 <= j < r.spec_edges()[i].len() implies edge_ok(
                    nodes,
                    r.spec_states()[i],
                    #[trigger] r.spec_edges()[i][j],
                ) by {
                assert(r.spec_edges()[i] == edge_views(r.edges@[i]@));
                assert(r.spec_edges()[i][j] == (r.edges@[i]@[j].0, r.edges@[i]@[j].1@));
                assert(r.spec_states()[i] == r.states@[i]@);
            }
            assert forall|i: int, op: Op|
                0 <= i < r.spec_edges().len() && #[trigger] move_set(nodes, r.spec_states()[i], op)
                    != Set::<usize>::empty() implies exists|j: int|
                    0 <= j < r.spec_edges()[i].len() && (#[trigger] r.spec_edges()[i][j]).0 == op by {
                assert(r.spec_states()[i] == r.states@[i]@);
                let j = choose|j: int| 0 <= j < r.edges@[i]@.len() && (#[trigger] r.edges@[i]@[j]).0 == op;
                assert(r.spec_edges()[i] == edge_views(r.edges@[i]@));
                assert(r.spec_edges()[i][j].0 == op);
            }
        }
        r
    }
}

/// The nodes that labelled edges accepting `op` lead to from the first `t` nodes of `s`.
pub open spec fn move_upto(nodes: Seq<Seq<NfaEdge>>, s: Seq<usize>, op: Op, t: int) -> Set<usize> {
    Set::new(
        |y: usize|
            exists|m: int, j: int|
                0 <= m < t && 0 <= j < nodes[s[m] as int].len() && (#[trigger] nodes[s[m] as int][j]).1 == y
                    && nodes[s[m] as int][j].0 is Some && nodes[s[m] as int][j].0->Some_0.spec_satisfied_by(op),
    )
}

/// The nodes that labelled edges accepting `op` lead to from the nodes of `s`.
pub open spec fn move_set(nodes: Seq<Seq<NfaEdge>>, s: Seq<usize>, op: Op) -> Set<usize> {
    move_upto(nodes, s, op, s.len() as int)
}

proof fn lemma_union_of_closures(nodes: Seq<Seq<NfaEdge>>, d: Seq<usize>, cl: Seq<Set<usize>>, t: Set<usize>)
    requires
        cl.len() == d.len(),
        forall|m: int| 0 <= m < d.len() ==> least_closed(nodes, set![d[m]], #[trigger] cl[m]),
        forall|v: usize| #[trigger] t.contains(v) <==> exists|m: int| 0 <= m < d.len() && (#[trigger] cl[m]).contains(v),
    ensures
        least_closed(nodes, d.to_set(), t),
{
    assert forall|v: usize| d.to_set().contains(v) implies t.contains(v) by {
        let m = choose|m: int| 0 <= m < d.len() && d[m] == v;
        assert(least_closed(nodes, set![d[m]], cl[m]));
        assert(set![d[m]].contains(v));
        assert(cl[m].contains(v));
    }
    assert forall|v: usize, j: int|
        #![trigger t.contains(v), nodes[v as int][j]]
        t.contains(v) && v < nodes.len() && 0 <= j < nodes[v as int].len() && nodes[v as int][j].0 is None
            implies t.contains(nodes[v as int][j].1) by {
        let m = choose|m: int| 0 <= m < d.len() && (#[trigger] cl[m]).contains(v);
        assert(least_closed(nodes, set![d[m]], cl[m]));
        assert(cl[m].contains(nodes[v as int][j].1));
    }
    assert forall|x: Set<usize>| #[trigger] eps_closed(nodes, x) && d.to_set().subset_of(x) implies t.subset_of(x) by {
        assert forall|v: usize| t.contains(v) implies x.contains(v) by {
            let m = choose|m: int| 0 <= m < d.len() && (#[trigger] cl[m]).contains(v);
            assert(least_closed(nodes, set![d[m]], cl[m]));
            assert(d.to_set().contains(d[m]));
            assert(set![d[m]].subset_of(x));
            assert(cl[m].subset_of(x));
        }
    }
}

/// The state reached from `node_set` on `op`: the least epsilon-closed set
/// holding the nodes that `op` leads to, or `None` when it leads nowhere.
fn dfa_step(nfa: &Nfa, closures: &Vec<NodeSet>, node_set: &NodeSet, op: &Op) -> (r: Option<NodeSet>)
    requires
        nfa.wf(),
        closures@.len() == nfa.spec_nodes().len(),
        forall|i: int| 0 <= i < closures@.len() ==> {
            let c = #[trigger] closures@[i];
            &&& c.wf()
            &&& sorted_below(c@, nfa.spec_nodes().len() as nat)
            &&& least_closed(nfa.spec_nodes(), set![i as usize], c@.to_set())
        },
        sorted_below(node_set@, nfa.spec_nodes().len() as nat),
    ensures
        r is None <==> move_set(nfa.spec_nodes(), node_set@, *op) == Set::<usize>::empty(),
        r is Some ==> {
            let c = r->Some_0;
            &&& c.wf()
            &&& sorted_below(c@, nfa.spec_nodes().len() as nat)
            &&& least_closed(nfa.spec_nodes(), move_set(nfa.spec_nodes(), node_set@, *op), c@.to_set())
        },
{
    broadcast use lemma_to_set_contains;

    let ghost nodes = nfa.spec_nodes();
    let ghost n = nodes.len() as nat;
    let ghost s = node_set@;
    let mut d = NodeSet::new();
    let mut t: usize = 0;
    while t < node_set.len()
        invariant
            nfa.wf(),
            nodes == nfa.spec_nodes(),
            n == nodes.len(),
            s == node_set@,
            sorted_below(node_set@, n),
            t <= node_set@.len(),
            d.wf(),
            sorted_below(d@, n),
            forall|y: usize| #[trigger] d@.contains(y) <==> move_upto(nodes, s, *op, t as int).contains(y),
        decreases node_set@.len() - t,
    {
        let idx = node_set.get(t);
        let step = nfa.transition(idx, op);
        let ghost d0 = d@;
        d.merge(&step);
        proof {
            assert forall|y: usize| #[trigger] d@.contains(y) <==> move_upto(nodes, s, *op, t + 1).contains(y) by {
                if step@.contains(y) {
                    let j = choose|j: int|
                        0 <= j < nodes[idx as int].len() && (#[trigger] nodes[idx as int][j]).1 == y
                            && nodes[idx as int][j].0 is Some
                            && nodes[idx as int][j].0->Some_0.spec_satisfied_by(*op);
                    assert(s[t as int] == idx);
                    assert(nodes[s[t as int] as int][j].1 == y);
                }
                if move_upto(nodes, s, *op, t + 1).contains(y) {
                    let (m, j) = choose|m: int, j: int|
                        0 <= m < t + 1 && 0 <= j < nodes[s[m] as int].len() && (#[trigger] nodes[s[m] as int][j]).1 == y
                            && nodes[s[m] as int][j].0 is Some
                            && nodes[s[m] as int][j].0->Some_0.spec_satisfied_by(*op);
                    if m < t {
                        assert(move_upto(nodes, s, *op, t as int).contains(y));
                    } else {
                        assert(nodes[idx as int][j].1 == y);
                        assert(step@.contains(y));
                    }
                }
            }
        }
        t += 1;
    }
    if d.is_empty() {
        proof {
            assert(move_set(nodes, s, *op) =~= Set::<usize>::empty()) by {
                assert forall|y: usize| !move_set(nodes, s, *op).contains(y) by {
                    assert(!d@.contains(y));
                }
            }
        }
        return None;
    }
    proof {
        assert(d@.contains(d@[0]));
        assert(move_set(nodes, s, *op).contains(d@[0]));
        assert(move_set(nodes, s, *op) != Set::<usize>::empty());
    }
    let mut closed = NodeSet::new();
    let mut u: usize = 0;
    while u < d.len()
        invariant
            closures@.len() == n,
            nodes == nfa.spec_nodes(),
            n == nodes.len(),
            forall|i: int| 0 <= i < closures@.len() ==> {
                let c = #[trigger] closures@[i];
                &&& c.wf()
                &&& sorted_below(c@, n)
                &&& least_closed(nodes, set![i as usize], c@.to_set())
            },
            sorted_below(d@, n),
            u <= d@.len(),
            closed.wf(),
            sorted_below(closed@, n),
            forall|v: usize| #[trigger] closed@.contains(v) <==> exists|m: int| 0 <= m < u && (#[trigger] closures@[d@[m] as int])@.contains(v),
        decreases d@.len() - u,
    {
        let idx = d.get(u);
        let ghost c0 = closed@;
        closed.merge(&closures[idx]);
        proof {
            assert forall|v: usize| #[trigger] closed@.contains(v) <==> exists|m: int| 0 <= m < u + 1 && (#[trigger] closures@[d@[m] as int])@.contains(v) by {
                if closures@[idx as int]@.contains(v) {
                    assert(d@[u as int] == idx);
                }
                if exists|m: int| 0 <= m < u + 1 && (#[trigger] closures@[d@[m] as int])@.contains(v) {
                    let m = choose|m: int| 0 <= m < u + 1 && (#[trigger] closures@[d@[m] as int])@.contains(v);
                    if m < u {
                        assert(c0.contains(v));
                    }
                }
            }
        }
        u += 1;
    }
    proof {
        let ds = d@;
        let cl = Seq::new(ds.len(), |m: int| closures@[ds[m] as int]@.to_set());
        assert forall|m: int| 0 <= m < ds.len() implies least_closed(nodes, set![ds[m]], #[trigger] cl[m]) by {
            assert(ds[m] < n);
            assert(least_closed(nodes, set![(ds[m] as int) as usize], closures@[ds[m] as int]@.to_set()));
        }
        assert forall|v: usize| #[trigger] closed@.to_set().contains(v) <==> exists|m: int| 0 <= m < ds.len() && (#[trigger] cl[m]).contains(v) by {
            if closed@.contains(v) {
                let m = choose|m: int| 0 <= m < u && (#[trigger] closures@[d@[m] as int])@.contains(v);
                assert(cl[m].contains(v));
            }
            if exists|m: int| 0 <= m < ds.len() && (#[trigger] cl[m]).contains(v) {
                let m = choose|m: int| 0 <= m < ds.len() && (#[trigger] cl[m]).contains(v);
                assert(closures@[d@[m] as int]@.contains(v));
            }
        }
        lemma_union_of_closures(nodes, ds, cl, closed@.to_set());
        assert(ds.to_set() =~= move_set(nodes, s, *op)) by {
            assert forall|y: usize| ds.to_set().contains(y) <==> move_set(nodes, s, *op).contains(y) by {
                assert(ds.to_set().contains(y) == ds.contains(y));
            }
        }
    }
    Some(closed)
}

/// An edge `(op, t)` leaving state `s`: `op` leads somewhere from `s`, and
/// `t` is the least epsilon-closed set holding where it leads.
pub open spec fn edge_ok(nodes: Seq<Seq<NfaEdge>>, s: Seq<usize>, e: (Op, Seq<usize>)) -> bool {
    &&& move_set(nodes, s, e.0) != Set::<usize>::empty()
    &&& least_closed(nodes, move_set(nodes, s, e.0), e.1.to_set())
}

/// The edges of state `node_set`: one for each letter that leads somewhere.
fn dfa_edges(nfa: &Nfa, closures: &Vec<NodeSet>, node_set: &NodeSet, ops: &Vec<Op>) -> (r: Vec<(Op, NodeSet)>)
    requires
        nfa.wf(),
        closures@.len() == nfa.spec_nodes().len(),
        forall|i: int| 0 <= i < closures@.len() ==> {
            let c = #[trigger] closures@[i];
            &&& c.wf()
            &&& sorted_below(c@, nfa.spec_nodes().len() as nat)
            &&& least_closed(nfa.spec_nodes(), set![i as usize], c@.to_set())
        },
        sorted_below(node_set@, nfa.spec_nodes().len() as nat),
        forall|op: Op| ops@.contains(op),
    ensures
        forall|j: int| 0 <= j < r@.len() ==> {
            let e = #[trigger] r@[j];
            &&& e.1.wf()
            &&& sorted_below(e.1@, nfa.spec_nodes().len() as nat)
            &&& edge_ok(nfa.spec_nodes(), node_set@, (e.0, e.1@))
        },
        forall|op: Op| #[trigger] move_set(nfa.spec_nodes(), node_set@, op) != Set::<usize>::empty() ==> exists|j: int|
            0 <= j < r@.len() && (#[trigger] r@[j]).0 == op,
{
    let ghost nodes = nfa.spec_nodes();
    let mut out: Vec<(Op, NodeSet)> = Vec::new();
    let mut k: usize = 0;
    while k < ops.len()
        invariant
            k <= ops@.len(),
            nfa.wf(),
            nodes == nfa.spec_nodes(),
            closures@.len() == nfa.spec_nodes().len(),
            forall|i: int| 0 <= i < closures@.len() ==> {
                let c = #[trigger] closures@[i];
                &&& c.wf()
                &&& sorted_below(c@, nfa.spec_nodes().len() as nat)
                &&& least_closed(nfa.spec_nodes(), set![i as usize], c@.to_set())
            },
            sorted_below(node_set@, nfa.spec_nodes().len() as nat),
            forall|j: int| 0 <= j < out@.len() ==> {
                let e = #[trigger] out@[j];
                &&& e.1.wf()
                &&& sorted_below(e.1@, nfa.spec_nodes().len() as nat)
                &&& edge_ok(nodes, node_set@, (e.0, e.1@))
            },
            forall|m: int| 0 <= m < k && #[trigger] move_set(nodes, node_set@, ops@[m]) != Set::<usize>::empty()
                ==> exists|j: int| 0 <= j < out@.len() && (#[trigger] out@[j]).0 == ops@[m],
        decreases ops@.len() - k,
    {
        let ghost o0 = out@;
        match dfa_step(nfa, closures, node_set, &ops[k]) {
            Some(t) => {
                out.push((ops[k], t));
            },
            None => {},
        }
        proof {
            assert forall|j: int| 0 <= j < out@.len() implies {
                let e = #[trigger] out@[j];
                &&& e.1.wf()
                &&& sorted_below(e.1@, nfa.spec_nodes().len() as nat)
                &&& edge_ok(nodes, node_set@, (e.0, e.1@))
            } by {
                if j < o0.len() {
                    assert(out@[j] == o0[j]);
                }
            }
            assert forall|m: int| 0 <= m < k + 1 && #[trigger] move_set(nodes, node_set@, ops@[m]) != Set::<usize>::empty()
                implies exists|j: int| 0 <= j < out@.len() && (#[trigger] out@[j]).0 == ops@[m] by {
                if m < k {
                    let j = choose|j: int| 0 <= j < o0.len() && (#[trigger] o0[j]).0 == ops@[m];
                    assert(out@[j] == o0[j]);
                } else {
                    assert(out@[o0.len() as int].0 == ops@[m]);
                }
            }
        }
        k += 1;
    }
    proof {
        assert forall|op: Op| #[trigger] move_set(nodes, node_set@, op) != Set::<usize>::empty() implies exists|j: int|
            0 <= j < out@.len() && (#[trigger] out@[j]).0 == op by {
            assert(ops@.contains(op));
            let m = choose|m: int| 0 <= m < ops@.len() && ops@[m] == op;
            assert(move_set(nodes, node_set@, ops@[m]) != Set::<usize>::empty());
        }
    }
    out
}

/// The found and waiting states are well-formed sets of nodes below `n`,
/// without repeats, and none is both found and waiting.
pub open spec fn state_sets_ok(states: Seq<NodeSet>, unexplored: Seq<NodeSet>, n: nat) -> bool {
    &&& forall|k: int| 0 <= k < states.len() ==> (#[trigger] states[k]).wf() && sorted_below(states[k]@, n)
    &&& forall|k: int| 0 <= k < unexplored.len() ==> (#[trigger] unexplored[k]).wf() && sorted_below(unexplored[k]@, n)
    &&& set_views(states).no_duplicates()
    &&& set_views(unexplored).no_duplicates()
    &&& forall|a: int, b: int| 0 <= a < states.len() && 0 <= b < unexplored.len() ==> (#[trigger] states[a])@ != (#[trigger] unexplored[b])@
}

proof fn lemma_state_sets_after_move(st0: Seq<NodeSet>, un0: Seq<NodeSet>, st1: Seq<NodeSet>, un1: Seq<NodeSet>, n: nat)
    requires
        state_sets_ok(st0, un0, n),
        un0.len() > 0,
        un1 == un0.drop_last(),
        st1.len() == st0.len() + 1,
        forall|k: int| 0 <= k < st0.len() ==> st1[k] == st0[k],
        st1[st0.len() as int]@ == un0.last()@,
    ensures
        state_sets_ok(st1, un1, n),
{
    assert(set_views(st1) == set_views(st0).push(un0.last()@));
    assert(set_views(un1) == set_views(un0).drop_last());
    assert forall|a: int, b: int| 0 <= a < set_views(st1).len() && 0 <= b < set_views(st1).len() && a != b implies set_views(st1)[a] != set_views(st1)[b] by {
        if a == st0.len() {
            assert(un0[un0.len() - 1]@ != st0[b]@);
        } else if b == st0.len() {
            assert(un0[un0.len() - 1]@ != st0[a]@);
        } else {
            assert(set_views(st0)[a] != set_views(st0)[b]);
        }
    }
    assert forall|a: int, b: int| 0 <= a < set_views(un1).len() && 0 <= b < set_views(un1).len() && a != b implies set_views(un1)[a] != set_views(un1)[b] by {
        assert(set_views(un0)[a] != set_views(un0)[b]);
    }
    assert forall|a: int, b: int| 0 <= a < st1.len() && 0 <= b < un1.len() implies (#[trigger] st1[a])@ != (#[trigger] un1[b])@ by {
        if a == st0.len() {
            assert(set_views(un0)[un0.len() - 1] != set_views(un0)[b]);
        } else {
            assert(st0[a]@ != un0[b]@);
        }
    }
    assert forall|k: int| 0 <= k < st1.len() implies (#[trigger] st1[k]).wf() && sorted_below(st1[k]@, n) by {
        if k == st0.len() {
            assert(un0[un0.len() - 1].wf());
        }
    }
}

proof fn lemma_state_sets_after_queue(st: Seq<NodeSet>, u1: Seq<NodeSet>, u2: Seq<NodeSet>, n: nat)
    requires
        state_sets_ok(st, u1, n),
        u2.len() == u1.len() + 1,
        forall|k: int| 0 <= k < u1.len() ==> u2[k] == u1[k],
        u2.last().wf(),
        sorted_below(u2.last()@, n),
        forall|k: int| 0 <= k < st.len() ==> (#[trigger] st[k])@ != u2.last()@,
        forall|k: int| 0 <= k < u1.len() ==> (#[trigger] u1[k])@ != u2.last()@,
    ensures
        state_sets_ok(st, u2, n),
{
    assert(set_views(u2) == set_views(u1).push(u2.last()@));
    assert forall|a: int, b: int| 0 <= a < set_views(u2).len() && 0 <= b < set_views(u2).len() && a != b implies set_views(u2)[a] != set_views(u2)[b] by {
        if a == u1.len() {
            assert(u1[b]@ != u2.last()@);
        } else if b == u1.len() {
            assert(u1[a]@ != u2.last()@);
        } else {
            assert(set_views(u1)[a] != set_views(u1)[b]);
        }
    }
    assert forall|a: int, b: int| 0 <= a < st.len() && 0 <= b < u2.len() implies (#[trigger] st[a])@ != (#[trigger] u2[b])@ by {
        if b < u1.len() {
            assert(u2[b] == u1[b]);
        }
    }
}

/// `d` is the subset construction of the automaton with these nodes, start
/// and end: its start is the least epsilon-closed set holding the start, each
/// edge of a state is labelled by a letter that leads somewhere and ends in
/// the least epsilon-closed set holding where it leads, every letter that
/// leads somewhere has an edge, every edge ends in a state, and the end node
/// is what it accepts on.
pub open spec fn dfa_of(d: Dfa, nodes: Seq<Seq<NfaEdge>>, start: usize, end: usize) -> bool {
    &&& d.spec_accepting() == end
    &&& d.spec_states().len() == d.spec_edges().len()
    &&& forall|k: int| 0 <= k < d.spec_states().len() ==> sorted_below(#[trigger] d.spec_states()[k], nodes.len() as nat)
    &&& d.spec_states().contains(d.spec_start())
    &&& least_closed(nodes, set![start], d.spec_start().to_set())
    &&& forall|i: int, j: int|
        0 <= i < d.spec_edges().len() && 0 <= j < d.spec_edges()[i].len() ==> d.spec_states().contains(
            (#[trigger] d.spec_edges()[i][j]).1,
        )
    &&& forall|i: int, j: int|
        0 <= i < d.spec_edges().len() && 0 <= j < d.spec_edges()[i].len() ==> edge_ok(
            nodes,
            d.spec_states()[i],
            #[trigger] d.spec_edges()[i][j],
        )
    &&& forall|i: int, op: Op|
        0 <= i < d.spec_edges().len() && #[trigger] move_set(nodes, d.spec_states()[i], op)
            != Set::<usize>::empty() ==> exists|j: int|
            0 <= j < d.spec_edges()[i].len() && (#[trigger] d.spec_edges()[i][j]).0 == op
}

/// The nodes of an automaton followed by `End`: an epsilon edge from its end
/// to a new node, whose `End` edge leads to the new end.
pub open spec fn exact_nodes(nodes: Seq<Seq<NfaEdge>>, end: usize) -> Seq<Seq<NfaEdge>> {
    nodes.update(end as int, nodes[end as int].push((None, nodes.len() as usize))).push(
        seq![(Some(Op::End), (nodes.len() + 1) as usize)],
    ).push(Seq::<NfaEdge>::empty())
}

/// Start and end name nodes and every edge target names a node.
pub open spec fn nfa_wf(nodes: Seq<Seq<NfaEdge>>, start: usize, end: usize) -> bool {
    &&& nodes.len() + 2 <= usize::MAX
    &&& start < nodes.len()
    &&& end < nodes.len()
    &&& forall|i: int, j: int| 0 <= i < nodes.len() && 0 <= j < nodes[i].len() ==> (#[trigger] nodes[i][j]).1 < nodes.len()
}

/// `t` is among the states found or waiting to be explored.
pub open spec fn known(states: Seq<NodeSet>, unexplored: Seq<NodeSet>, t: Seq<usize>) -> bool {
    set_views(states).contains(t) || set_views(unexplored).contains(t)
}

proof fn lemma_known_after_move(
    st0: Seq<NodeSet>,
    un0: Seq<NodeSet>,
    st1: Seq<NodeSet>,
    un1: Seq<NodeSet>,
    t: Seq<usize>,
)
    requires
        un0.len() > 0,
        un1 == un0.drop_last(),
        st1.len() == st0.len() + 1,
        forall|k: int| 0 <= k < st0.len() ==> (#[trigger] st1[k])@ == st0[k]@,
        st1[st0.len() as int]@ == un0.last()@,
        known(st0, un0, t),
    ensures
        known(st1, un1, t),
{
    if set_views(st0).contains(t) {
        let k = choose|k: int| 0 <= k < set_views(st0).len() && set_views(st0)[k] == t;
        assert(set_views(st1)[k] == t);
    } else {
        let k = choose|k: int| 0 <= k < set_views(un0).len() && set_views(un0)[k] == t;
        if k == un0.len() - 1 {
            assert(set_views(st1)[st0.len() as int] == t);
        } else {
            assert(set_views(un1)[k] == t);
        }
    }
}

/// Whether some set of `list` has the elements of `s`.
fn holds_set(list: &Vec<NodeSet>, s: &NodeSet) -> (r: bool)
    ensures
        r == exists|k: int| 0 <= k < list@.len() && (#[trigger] list@[k])@ == s@,
{
    let mut i: usize = 0;
    while i < list.len()
        invariant
            i <= list@.len(),
            forall|k: int| 0 <= k < i ==> (#[trigger] list@[k])@ != s@,
        decreases list@.len() - i,
    {
        if list[i].same(s) {
            return true;
        }
        i += 1;
    }
    false
}

/// The letters read for a stack of tags: `Begin`, each tag, `End`.
pub open spec fn stack_ops(tree: Seq<StyleTag>) -> Seq<Op> {
    seq![Op::Begin] + tree.map_values(|t: StyleTag| Op::Alphabet(t)) + seq![Op::End]
}

/// A compiled selector: one automaton that accepts when the selector occurs
/// in a stack, and one that accepts when it also ends at the top.
#[derive(Clone)]
pub struct Rule {
    loose: Dfa,
    exact: Dfa,
    symbols: Ghost<Seq<Language>>,
    nodes: Ghost<Seq<Seq<NfaEdge>>>,
    start: Ghost<usize>,
    end: Ghost<usize>,
}

impl Rule {
    /// The selector's symbols.
    pub closed spec fn spec_symbols(&self) -> Seq<Language> {
        self.symbols@
    }

    pub closed spec fn spec_loose(&self) -> Dfa {
        self.loose
    }

    pub closed spec fn spec_exact(&self) -> Dfa {
        self.exact
    }

    /// The selector's automaton: its nodes, start and end.
    pub closed spec fn spec_nfa(&self) -> (Seq<Seq<NfaEdge>>, usize, usize) {
        (self.nodes@, self.start@, self.end@)
    }

    /// The selector's automaton is the Thompson automaton of its symbols;
    /// the loose automaton is its subset construction, and the exact one that
    /// of the same automaton followed by `End`.
    pub open spec fn wf(&self) -> bool {
        let (nodes, start, end) = self.spec_nfa();
        &&& self.spec_nfa() == thompson(self.spec_symbols())
        &&& nfa_wf(nodes, start, end)
        &&& dfa_of(self.spec_loose(), nodes, start, end)
        &&& dfa_of(self.spec_exact(), exact_nodes(nodes, end), start, (nodes.len() + 1) as usize)
    }

    /// A copy of the rule.
    pub fn copy(&self) -> (r: Rule)
        ensures
            r.spec_symbols() == self.spec_symbols(),
            r.spec_loose().spec_states() == self.spec_loose().spec_states(),
            r.spec_loose().spec_edges() == self.spec_loose().spec_edges(),
            r.spec_loose().spec_start() == self.spec_loose().spec_start(),
            r.spec_loose().spec_accepting() == self.spec_loose().spec_accepting(),
            r.spec_exact().spec_states() == self.spec_exact().spec_states(),
            r.spec_exact().spec_edges() == self.spec_exact().spec_edges(),
            r.spec_exact().spec_start() == self.spec_exact().spec_start(),
            r.spec_exact().spec_accepting() == self.spec_exact().spec_accepting(),
            r.spec_nfa() == self.spec_nfa(),
            self.wf() ==> r.wf(),
    {
        Rule {
            loose: self.loose.copy(),
            exact: self.exact.copy(),
            symbols: self.symbols,
            nodes: self.nodes,
            start: self.start,
            end: self.end,
        }
    }

    fn from_loose_nfa(loose_nfa: &Nfa, symbols: Ghost<Seq<Language>>) -> (r: Rule)
        requires
            loose_nfa.wf(),
            loose_nfa.spec_nodes().len() + 2 <= usize::MAX,
            loose_nfa.parts() == thompson(symbols@),
        ensures
            r.spec_symbols() == symbols@,
            r.spec_loose().spec_accepting() == loose_nfa.spec_end(),
            r.spec_exact().spec_accepting() == loose_nfa.spec_nodes().len() + 1,
            r.wf(),
    {
        let mut exact_nfa = loose_nfa.copy();
        let tail = Nfa::from_op(Op::End);
        exact_nfa.concat(tail);
        let ghost ln = loose_nfa.spec_nodes();
        let ghost le = loose_nfa.spec_end();
        proof {
            let en = exact_nfa.spec_nodes();
            let want = exact_nodes(ln, le);
            assert(en.len() == want.len());
            assert forall|i: int| 0 <= i < en.len() implies en[i] == want[i] by {
                if i < ln.len() && i != le {
                } else if i == le {
                } else {
                    let k = i - ln.len();
                    assert(en[k + ln.len()] == shifted(tail.spec_nodes()[k], ln.len() as int));
                    if k == 0 {
                        assert(shifted(tail.spec_nodes()[0], ln.len() as int) =~= seq![(Some(Op::End), (ln.len() + 1) as usize)]);
                    } else {
                        assert(shifted(tail.spec_nodes()[1], ln.len() as int) =~= Seq::<NfaEdge>::empty());
                    }
                }
            }
            assert(en =~= want);
        }
        Rule {
            loose: Dfa::from_nfa(loose_nfa),
            exact: Dfa::from_nfa(&exact_nfa),
            symbols,
            nodes: Ghost(loose_nfa.spec_nodes()),
            start: Ghost(loose_nfa.spec_start()),
            end: Ghost(loose_nfa.spec_end()),
        }
    }

    /// The rule of a compiled selector; an empty symbol string, or one that
    /// starts with `KleenStar`, is refused.
    pub fn from_symbols(symbols: &Vec<Language>) -> (r: Result<Rule, Error>)
        requires
            symbols@.len() <= 4 * MAX_SELECTOR_LEN,
        ensures
            r is Ok <==> (symbols@.len() > 0 && symbols@[0] != Language::KleenStar),
            r is Err ==> r->Err_0 == Error::EmptyRuleString,
            r is Ok ==> r->Ok_0.spec_symbols() == symbols@,
            r is Ok ==> r->Ok_0.wf(),
    {
        let nfa = Nfa::from_string(symbols)?;
        Ok(Rule::from_loose_nfa(&nfa, Ghost(symbols@)))
    }

    /// Whether the selector occurs anywhere in the stack.
    pub fn matches_loose(&self, tree: &[StyleTag]) -> (r: bool)
        ensures
            r == self.spec_loose().spec_accepts(stack_ops(tree@)),
    {
        Self::matches_dfa(&self.loose, tree)
    }

    /// Whether the selector occurs in the stack and ends at its top.
    pub fn matches_exact(&self, tree: &[StyleTag]) -> (r: bool)
        ensures
            r == self.spec_exact().spec_accepts(stack_ops(tree@)),
    {
        Self::matches_dfa(&self.exact, tree)
    }

    fn matches_dfa(dfa: &Dfa, tree: &[StyleTag]) -> (r: bool)
        ensures
            r == dfa.spec_accepts(stack_ops(tree@)),
    {
        let ops = Self::ops(tree);
        let mut state = dfa.start().copy();
        let mut i: usize = 0;
        assert(ops@.skip(0) == ops@);
        while i <= ops.len()
            invariant
                i <= ops@.len(),
                dfa.accepts_from(state@, ops@.skip(i as int)) == dfa.spec_accepts(ops@),
                ops@ == stack_ops(tree@),
            decreases ops@.len() - i,
        {
            if dfa.is_accepting(&state) {
                return true;
            }
            if i == ops.len() {
                return false;
            }
            proof {
                assert(ops@.skip(i as int)[0] == ops@[i as int]);
                assert(ops@.skip(i as int).drop_first() == ops@.skip(i + 1));
            }
            match dfa.transition(&state, &ops[i]) {
                Some(next) => {
                    state = next;
                    i += 1;
                },
                None => {
                    return false;
                },
            }
        }
        false
    }

    fn ops(tree: &[StyleTag]) -> (r: Vec<Op>)
        ensures
            r@ == stack_ops(tree@),
    {
        let mut out: Vec<Op> = vec![Op::Begin];
        let mut i: usize = 0;
        while i < tree.len()
            invariant
                i <= tree@.len(),
                out@ == seq![Op::Begin] + tree@.take(i as int).map_values(|t: StyleTag| Op::Alphabet(t)),
            decreases tree@.len() - i,
        {
            out.push(Op::Alphabet(tree[i]));
            proof {
                assert(tree@.take(i + 1).map_values(|t: StyleTag| Op::Alphabet(t))
                    == tree@.take(i as int).map_values(|t: StyleTag| Op::Alphabet(t)).push(Op::Alphabet(tree@[i as int])));
            }
            i += 1;
        }
        out.push(Op::End);
        proof {
            assert(tree@.take(tree@.len() as int) == tree@);
        }
        out
    }
}

/// Reading `s` from the left: the pieces between commas so far and the piece being read.
pub open spec fn split_at_commas(s: Seq<char>) -> (Seq<Seq<char>>, Seq<char>)
    decreases s.len(),
{
    if s.len() == 0 {
        (seq![], seq![])
    } else {
        let (done, cur) = split_at_commas(s.drop_last());
        if s.last() == ',' {
            (done.push(cur), seq![])
        } else {
            (done, cur.push(s.last()))
        }
    }
}

/// The comma-separated selectors of a rule string.
pub open spec fn selector_strings(s: Seq<char>) -> Seq<Seq<char>> {
    let (done, cur) = split_at_commas(s);
    done.push(cur)
}

proof fn lemma_split_lengths(s: Seq<char>)
    ensures
        split_at_commas(s).1.len() <= s.len(),
        forall|i: int| 0 <= i < split_at_commas(s).0.len() ==> (#[trigger] split_at_commas(s).0[i]).len() <= s.len(),
    decreases s.len(),
{
    if s.len() > 0 {
        lemma_split_lengths(s.drop_last());
    }
}

/// `e` is the error that compiling selector `s` gives: `EmptyRuleString`
/// without words, `InvalidRuleTag` with the first unknown tag name, or
/// `DanglingDirectChild` when it ends with `>`.
pub open spec fn selector_fault(s: Seq<char>, e: Error) -> bool {
    let toks = tokens_of(s);
    let f = fold_tokens(toks);
    if toks.len() == 0 {
        e == Error::EmptyRuleString
    } else if f.0 is Some {
        e is InvalidRuleTag && e->InvalidRuleTag_0@ == f.0->Some_0
    } else if f.2 {
        e == Error::DanglingDirectChild
    } else {
        false
    }
}

/// Relies on `str::chars` collected into a `Vec`: the characters of the string.
#[verifier::external_body]
fn chars_of(s: &str) -> (r: Vec<char>)
    ensures
        r@ == s@,
{
    s.chars().collect()
}

/// Compiles each comma-separated selector of `string` into a rule, in order;
/// the first selector that does not compile gives the error.
pub fn parse_rules(string: &str) -> (r: Result<Vec<Rule>, Error>)
    requires
        string@.len() <= MAX_SELECTOR_LEN,
    ensures
        r is Ok <==> forall|i: int| 0 <= i < selector_strings(string@).len() ==> (#[trigger] selector_symbols(selector_strings(string@)[i])) is Some,
        r is Ok ==> r->Ok_0@.len() == selector_strings(string@).len(),
        r is Ok ==> forall|i: int| 0 <= i < r->Ok_0@.len() ==> Some((#[trigger] r->Ok_0@[i]).spec_symbols()) == selector_symbols(selector_strings(string@)[i]),
        r is Ok ==> forall|i: int| 0 <= i < r->Ok_0@.len() ==> (#[trigger] r->Ok_0@[i]).wf(),
        r is Err ==> exists|i: int|
            0 <= i < selector_strings(string@).len() && (forall|m: int| 0 <= m < i ==> (#[trigger] selector_symbols(selector_strings(string@)[m])) is Some)
                && selector_fault(#[trigger] selector_strings(string@)[i], r->Err_0),
{
    let chars = chars_of(string);
    let mut pieces: Vec<Vec<char>> = Vec::new();
    let mut cur: Vec<char> = Vec::new();
    let mut i: usize = 0;
    while i < chars.len()
        invariant
            i <= chars@.len(),
            pieces@.map_values(|w: Vec<char>| w@) == split_at_commas(chars@.take(i as int)).0,
            cur@ == split_at_commas(chars@.take(i as int)).1,
        decreases chars@.len() - i,
    {
        let c = chars[i];
        proof {
            assert(chars@.take(i + 1).drop_last() == chars@.take(i as int));
            assert(chars@.take(i + 1).last() == c);
        }
        if c == ',' {
            let w = cur;
            pieces.push(w);
            cur = Vec::new();
            proof {
                assert(pieces@.map_values(|w: Vec<char>| w@) == split_at_commas(chars@.take(i as int)).0.push(w@));
            }
        } else {
            cur.push(c);
        }
        i += 1;
    }
    let w = cur;
    pieces.push(w);
    let ghost segs = pieces@.map_values(|w: Vec<char>| w@);
    proof {
        assert(chars@.take(chars@.len() as int) == chars@);
        assert(segs == split_at_commas(chars@).0.push(w@));
        assert(segs == selector_strings(string@));
        lemma_split_lengths(chars@);
    }
    let mut rules: Vec<Rule> = Vec::new();
    let mut k: usize = 0;
    while k < pieces.len()
        invariant
            k <= pieces@.len(),
            segs == pieces@.map_values(|w: Vec<char>| w@),
            segs == selector_strings(string@),
            forall|m: int| 0 <= m < segs.len() ==> (#[trigger] segs[m]).len() <= MAX_SELECTOR_LEN,
            rules@.len() == k,
            forall|m: int| 0 <= m < k ==> selector_symbols(#[trigger] segs[m]) is Some,
            forall|m: int| 0 <= m < k ==> Some((#[trigger] rules@[m]).spec_symbols()) == selector_symbols(segs[m]),
            forall|m: int| 0 <= m < k ==> (#[trigger] rules@[m]).wf(),
        decreases pieces@.len() - k,
    {
        let piece = &pieces[k];
        assert(piece@ == segs[k as int]);
        let symbols = match parse_selector(piece) {
            Ok(syms) => syms,
            Err(e) => {
                proof {
                    assert(selector_fault(segs[k as int], e));
                }
                return Err(e);
            },
        };
        proof {
            lemma_lex_len(piece@);
            lemma_fold_len(tokens_of(piece@));
        }
        let nfa = match Nfa::from_string(&symbols) {
            Ok(nfa) => nfa,
            Err(e) => {
                proof {
                    assert(symbols@[0] == Language::Begin);
                }
                return Err(e);
            },
        };
        rules.push(Rule::from_loose_nfa(&nfa, Ghost(symbols@)));
        k += 1;
    }
    Ok(rules)
}

proof fn lemma_find_state(states: Seq<Seq<usize>>, s: Seq<usize>, i: int)
    requires
        0 <= i <= states.len(),
        exists|k: int| i <= k < states.len() && states[k] == s,
    ensures
        i <= find_state(states, s, i) < states.len(),
        states[find_state(states, s, i)] == s,
    decreases states.len() - i,
{
    if states[i] != s {
        lemma_find_state(states, s, i + 1);
    }
}

proof fn lemma_find_edge(edges: Seq<(Op, Seq<usize>)>, op: Op, i: int)
    requires
        0 <= i <= edges.len(),
    ensures
        (exists|k: int| i <= k < edges.len() && edges[k].0 == op) ==> i <= find_edge(edges, op, i) < edges.len()
            && edges[find_edge(edges, op, i)].0 == op,
        !(exists|k: int| i <= k < edges.len() && edges[k].0 == op) ==> find_edge(edges, op, i) == -1,
    decreases edges.len() - i,
{
    if i < edges.len() && edges[i].0 != op {
        lemma_find_edge(edges, op, i + 1);
        if exists|k: int| i <= k < edges.len() && edges[k].0 == op {
            let k = choose|k: int| i <= k < edges.len() && edges[k].0 == op;
            assert(k != i);
            assert(i + 1 <= k);
        }
    }
}

/// From a state of a subset construction, a letter leads nowhere exactly when
/// the automaton's move is empty, and otherwise to a state that is the least
/// epsilon-closed set holding the move.
proof fn lemma_dfa_step(d: Dfa, nodes: Seq<Seq<NfaEdge>>, start: usize, end: usize, s: Seq<usize>, op: Op)
    requires
        dfa_of(d, nodes, start, end),
        d.spec_states().contains(s),
    ensures
        d.step(s, op) is None <==> move_set(nodes, s, op) == Set::<usize>::empty(),
        d.step(s, op) is Some ==> d.spec_states().contains(d.step(s, op)->Some_0) && least_closed(
            nodes,
            move_set(nodes, s, op),
            d.step(s, op)->Some_0.to_set(),
        ),
{
    let states = d.spec_states();
    lemma_find_state(states, s, 0);
    let i = find_state(states, s, 0);
    assert(states[i] == s);
    let es = d.spec_edges()[i];
    lemma_find_edge(es, op, 0);
    if exists|k: int| 0 <= k < es.len() && es[k].0 == op {
        let j = find_edge(es, op, 0);
        assert(edge_ok(nodes, states[i], d.spec_edges()[i][j]));
        assert(states.contains(d.spec_edges()[i][j].1));
    } else {
        if move_set(nodes, s, op) != Set::<usize>::empty() {
            assert(exists|j: int| 0 <= j < d.spec_edges()[i].len() && (#[trigger] d.spec_edges()[i][j]).0 == op);
        }
    }
}

/// Every node of a state of a subset construction names a node of the automaton.
proof fn lemma_state_below(d: Dfa, nodes: Seq<Seq<NfaEdge>>, start: usize, end: usize, s: Seq<usize>, v: usize)
    requires
        dfa_of(d, nodes, start, end),
        d.spec_states().contains(s),
        s.contains(v),
    ensures
        v < nodes.len(),
{
    let k = choose|k: int| 0 <= k < d.spec_states().len() && d.spec_states()[k] == s;
    assert(sorted_below(d.spec_states()[k], nodes.len() as nat));
}

/// The least epsilon-closed set of the automaton followed by `End` that holds
/// some of the first automaton's nodes is the first automaton's least closed
/// set, with the `End` node added when it holds the end.
proof fn lemma_exact_closure(ln: Seq<Seq<NfaEdge>>, start: usize, end: usize, m: Set<usize>, cl: Set<usize>, ce: Set<usize>)
    requires
        nfa_wf(ln, start, end),
        forall|v: usize| #[trigger] m.contains(v) ==> v < ln.len(),
        least_closed(ln, m, cl),
        least_closed(exact_nodes(ln, end), m, ce),
    ensures
        forall|v: usize| #[trigger] ce.contains(v) <==> cl.contains(v) || (v == ln.len() && cl.contains(end)),
{
    let n = ln.len();
    let en = exact_nodes(ln, end);
    let below = Set::new(|v: usize| v < n);
    assert(eps_closed(ln, below));
    assert(m.subset_of(below));
    assert(cl.subset_of(below));
    let x = Set::new(|v: usize| cl.contains(v) || (v == n && cl.contains(end)));
    assert forall|v: usize, j: int|
        #![trigger x.contains(v), en[v as int][j]]
        x.contains(v) && v < en.len() && 0 <= j < en[v as int].len() && en[v as int][j].0 is None
            implies x.contains(en[v as int][j].1) by {
        if v < n && v != end {
            assert(en[v as int] == ln[v as int]);
            assert(cl.contains(v));
            assert(cl.contains(ln[v as int][j].1));
        } else if v == end {
            assert(cl.contains(v));
            if j < ln[v as int].len() {
                assert(en[v as int][j] == ln[v as int][j]);
                assert(cl.contains(ln[v as int][j].1));
            } else {
                assert(en[v as int][j].1 == n);
            }
        } else if v == n {
            assert(en[v as int] == seq![(Some(Op::End), (n + 1) as usize)]);
        } else {
            assert(cl.contains(v));
            assert(below.contains(v));
        }
    }
    assert(eps_closed(en, x));
    assert(m.subset_of(x));
    assert(ce.subset_of(x));
    let z = Set::new(|v: usize| ce.contains(v) && v < n);
    assert forall|v: usize, j: int|
        #![trigger z.contains(v), ln[v as int][j]]
        z.contains(v) && v < ln.len() && 0 <= j < ln[v as int].len() && ln[v as int][j].0 is None
            implies z.contains(ln[v as int][j].1) by {
        assert(en[v as int][j] == ln[v as int][j]);
        assert(ce.contains(en[v as int][j].1));
        assert(ln[v as int][j].1 < n);
    }
    assert(eps_closed(ln, z));
    assert(m.subset_of(z));
    assert(cl.subset_of(z));
    if cl.contains(end) {
        assert(ce.contains(end));
        let j = ln[end as int].len() as int;
        assert(en[end as int][j] == (None::<Op>, n as usize));
        assert(ce.contains(en[end as int][j].1));
    }
}

/// From states in this relation, the automaton followed by `End` moves where
/// the first one does.
proof fn lemma_exact_move(ln: Seq<Seq<NfaEdge>>, start: usize, end: usize, sl: Seq<usize>, se: Seq<usize>, op: Op)
    requires
        nfa_wf(ln, start, end),
        forall|v: usize| #[trigger] sl.contains(v) ==> v < ln.len(),
        !sl.contains(end),
        forall|v: usize| #[trigger] se.contains(v) <==> sl.contains(v),
    ensures
        move_set(exact_nodes(ln, end), se, op) == move_set(ln, sl, op),
{
    let en = exact_nodes(ln, end);
    assert forall|y: usize| move_set(en, se, op).contains(y) <==> move_set(ln, sl, op).contains(y) by {
        if move_set(en, se, op).contains(y) {
            let (m, j) = choose|m: int, j: int|
                0 <= m < se.len() && 0 <= j < en[se[m] as int].len() && (#[trigger] en[se[m] as int][j]).1 == y
                    && en[se[m] as int][j].0 is Some && en[se[m] as int][j].0->Some_0.spec_satisfied_by(op);
            let v = se[m];
            assert(se.contains(v));
            assert(sl.contains(v));
            let m2 = choose|m2: int| 0 <= m2 < sl.len() && sl[m2] == v;
            assert(en[v as int] == ln[v as int]);
            assert(ln[sl[m2] as int][j].1 == y);
        }
        if move_set(ln, sl, op).contains(y) {
            let (m, j) = choose|m: int, j: int|
                0 <= m < sl.len() && 0 <= j < ln[sl[m] as int].len() && (#[trigger] ln[sl[m] as int][j]).1 == y
                    && ln[sl[m] as int][j].0 is Some && ln[sl[m] as int][j].0->Some_0.spec_satisfied_by(op);
            let v = sl[m];
            assert(sl.contains(v));
            assert(se.contains(v));
            let m2 = choose|m2: int| 0 <= m2 < se.len() && se[m2] == v;
            assert(en[v as int] == ln[v as int]);
            assert(en[se[m2] as int][j].1 == y);
        }
    }
    assert(move_set(en, se, op) =~= move_set(ln, sl, op));
}

proof fn lemma_exact_run(
    ld: Dfa,
    ed: Dfa,
    ln: Seq<Seq<NfaEdge>>,
    start: usize,
    end: usize,
    sl: Seq<usize>,
    se: Seq<usize>,
    ops: Seq<Op>,
)
    requires
        nfa_wf(ln, start, end),
        dfa_of(ld, ln, start, end),
        dfa_of(ed, exact_nodes(ln, end), start, (ln.len() + 1) as usize),
        ld.spec_states().contains(sl),
        ed.spec_states().contains(se),
        forall|v: usize| #[trigger] se.contains(v) <==> sl.contains(v) || (v == ln.len() && sl.contains(end)),
    ensures
        ed.accepts_from(se, ops) ==> ld.accepts_from(sl, ops),
    decreases ops.len(),
{
    let n = ln.len();
    if sl.contains(end) {
        return;
    }
    assert(!se.contains((n + 1) as usize)) by {
        if se.contains((n + 1) as usize) {
            assert(sl.contains((n + 1) as usize));
            lemma_state_below(ld, ln, start, end, sl, (n + 1) as usize);
        }
    }
    if ops.len() == 0 {
        return;
    }
    let op = ops[0];
    assert forall|v: usize| #[trigger] sl.contains(v) implies v < ln.len() by {
        lemma_state_below(ld, ln, start, end, sl, v);
    }
    lemma_exact_move(ln, start, end, sl, se, op);
    lemma_dfa_step(ld, ln, start, end, sl, op);
    lemma_dfa_step(ed, exact_nodes(ln, end), start, (n + 1) as usize, se, op);
    if ld.step(sl, op) is Some {
        let tl = ld.step(sl, op)->Some_0;
        let te = ed.step(se, op)->Some_0;
        let mv = move_set(ln, sl, op);
        assert forall|v: usize| #[trigger] mv.contains(v) implies v < ln.len() by {
            let (m, j) = choose|m: int, j: int|
                0 <= m < sl.len() && 0 <= j < ln[sl[m] as int].len() && (#[trigger] ln[sl[m] as int][j]).1 == v
                    && ln[sl[m] as int][j].0 is Some && ln[sl[m] as int][j].0->Some_0.spec_satisfied_by(op);
            assert(sl.contains(sl[m]));
            assert(sl[m] < ln.len());
        }
        lemma_exact_closure(ln, start, end, mv, tl.to_set(), te.to_set());
        assert forall|v: usize| #[trigger] te.contains(v) <==> tl.contains(v) || (v == n && tl.contains(end)) by {
            assert(te.to_set().contains(v) == te.contains(v));
            assert(tl.to_set().contains(v) == tl.contains(v));
        }
        lemma_exact_run(ld, ed, ln, start, end, tl, te, ops.drop_first());
    }
}

/// A selector that matches a stack exactly also matches it loosely.
pub proof fn lemma_exact_match_implies_loose(rule: Rule, tree: Seq<StyleTag>)
    requires
        rule.wf(),
    ensures
        rule.spec_exact().spec_accepts(stack_ops(tree)) ==> rule.spec_loose().spec_accepts(stack_ops(tree)),
{
    let (ln, start, end) = rule.spec_nfa();
    let ld = rule.spec_loose();
    let ed = rule.spec_exact();
    let sl = ld.spec_start();
    let se = ed.spec_start();
    lemma_exact_closure(ln, start, end, set![start], sl.to_set(), se.to_set());
    assert forall|v: usize| #[trigger] se.contains(v) <==> sl.contains(v) || (v == ln.len() && sl.contains(end)) by {
        assert(se.to_set().contains(v) == se.contains(v));
        assert(sl.to_set().contains(v) == sl.contains(v));
    }
    lemma_exact_run(ld, ed, ln, start, end, sl, se, stack_ops(tree));
}

} // verus!
