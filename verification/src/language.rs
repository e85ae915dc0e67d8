//! The words that a pattern denotes, and the proof that the automaton built
//! for a pattern accepts exactly those words.

use crate::nfa::{char_edge, eps_edge, fragment, fragment_edges, lemma_fragment_within, state_at};
use crate::nfa::{NfaEdge, NfaState, NfaTrans};
use crate::parser::Node;
use crate::walks::{extend, is_path, reach, word};
use crate::walks::{lemma_reach_extend, lemma_reach_mono, lemma_reach_refl, lemma_reach_trans};
use vstd::prelude::*;

verus! {

impl Node {
    /// Whether the pattern denotes the word `w`.
    pub open spec fn accepts(self, w: Seq<char>) -> bool
        decreases self, w.len(),
    {
        match self {
            Node::Char(c) => w == seq![c],
            Node::Concat(left, right) => exists|k: int|
                0 <= k <= w.len() && left.accepts(#[trigger] w.take(k)) && right.accepts(w.skip(k)),
            Node::Or(left, right) => left.accepts(w) || right.accepts(w),
            Node::Repeat(inner) => w.len() == 0 || exists|k: int|
                0 < k <= w.len() && inner.accepts(#[trigger] w.take(k)) && self.accepts(w.skip(k)),
        }
    }
}

/// A tree has at least one node.
pub proof fn lemma_size_positive(n: Node)
    ensures
        n.size() >= 1,
{
}

/// A word that a repetition denotes, followed by a word that the repeated
/// pattern denotes, is again denoted by the repetition.
pub proof fn lemma_repeat_append(inner: Node, u: Seq<char>, v: Seq<char>)
    requires
        Node::Repeat(Box::new(inner)).accepts(u),
        inner.accepts(v),
    ensures
        Node::Repeat(Box::new(inner)).accepts(u + v),
    decreases u.len(),
{
    let star = Node::Repeat(Box::new(inner));
    let all = u + v;
    if u.len() == 0 {
        assert(all =~= v);
        if v.len() > 0 {
            let k = v.len() as int;
            assert(v.take(k) =~= v);
            assert(v.skip(k).len() == 0);
            assert(inner.accepts(v.take(k)) && star.accepts(v.skip(k)));
        }
    } else {
        let k = choose|k: int|
            0 < k <= u.len() && inner.accepts(#[trigger] u.take(k)) && star.accepts(u.skip(k));
        lemma_repeat_append(inner, u.skip(k), v);
        assert(all.take(k) =~= u.take(k));
        assert(all.skip(k) =~= u.skip(k) + v);
        assert(inner.accepts(all.take(k)) && star.accepts(all.skip(k)));
    }
}

/// What holds of a walk from the start state of the fragment for `left|right`
/// that spells `w` and ends in `b`.
pub open spec fn or_walk(left: Node, right: Node, base: int, w: Seq<char>, b: NfaState) -> bool {
    let lb = base + 2;
    let rb = lb + 2 * left.size();
    let hi = rb + 2 * right.size();
    let lf = fragment(left, lb);
    let rf = fragment(right, rb);
    if b.0 == base + 1 {
        w.len() == 0
    } else if b.0 == base + 2 {
        lf.accepts(w) || rf.accepts(w)
    } else if lb < b.0 <= rb {
        reach(lf.edges, lf.start, w, b)
    } else if rb < b.0 <= hi {
        reach(rf.edges, rf.start, w, b)
    } else {
        false
    }
}

/// Every walk from the start state of the fragment for `left|right` is as
/// `or_walk` says.
proof fn lemma_or_walk(left: Node, right: Node, base: int, p: Seq<NfaEdge>, b: NfaState)
    requires
        0 <= base,
        base + 2 * (1 + left.size() + right.size()) <= u32::MAX,
        is_path(
            fragment_edges(Node::Or(Box::new(left), Box::new(right)), base),
            p,
            state_at(base + 1),
            b,
        ),
    ensures
        or_walk(left, right, base, word(p), b),
    decreases p.len(),
{
    let lb = base + 2;
    let rb = lb + 2 * left.size();
    let le = fragment_edges(left, lb);
    let re = fragment_edges(right, rb);
    lemma_size_positive(left);
    lemma_size_positive(right);
    lemma_fragment_within(left, lb);
    lemma_fragment_within(right, rb);
    if p.len() > 0 {
        let e = p.last();
        let w0 = word(p.drop_last());
        lemma_or_walk(left, right, base, p.drop_last(), e.from);
        if le.contains(e) {
            lemma_reach_extend(le, state_at(lb + 1), w0, e);
        } else if re.contains(e) {
            lemma_reach_extend(re, state_at(rb + 1), w0, e);
        } else if e == eps_edge(base + 1, lb + 1) {
            lemma_reach_refl(le, state_at(lb + 1));
            assert(w0 =~= Seq::<char>::empty());
        } else if e == eps_edge(base + 1, rb + 1) {
            lemma_reach_refl(re, state_at(rb + 1));
            assert(w0 =~= Seq::<char>::empty());
        } else if e == eps_edge(lb + 2, base + 2) {
        } else {
            assert(e == eps_edge(rb + 2, base + 2));
        }
    }
}

/// What holds of a walk from the start state of the fragment for `left right`
/// that spells `w` and ends in `b`.
pub open spec fn concat_walk(
    left: Node,
    right: Node,
    base: int,
    w: Seq<char>,
    b: NfaState,
) -> bool {
    let lb = base + 2;
    let rb = lb + 2 * left.size();
    let hi = rb + 2 * right.size();
    let lf = fragment(left, lb);
    let rf = fragment(right, rb);
    if b.0 == base + 1 {
        w.len() == 0
    } else if b.0 == base + 2 {
        exists|k: int|
            0 <= k <= w.len() && #[trigger] lf.accepts(w.take(k)) && rf.accepts(w.skip(k))
    } else if lb < b.0 <= rb {
        reach(lf.edges, lf.start, w, b)
    } else if rb < b.0 <= hi {
        exists|k: int|
            0 <= k <= w.len() && #[trigger] lf.accepts(w.take(k)) && reach(
                rf.edges,
                rf.start,
                w.skip(k),
                b,
            )
    } else {
        false
    }
}

/// Every walk from the start state of the fragment for `left right` is as
/// `concat_walk` says.
proof fn lemma_concat_walk(left: Node, right: Node, base: int, p: Seq<NfaEdge>, b: NfaState)
    requires
        0 <= base,
        base + 2 * (1 + left.size() + right.size()) <= u32::MAX,
        is_path(
            fragment_edges(Node::Concat(Box::new(left), Box::new(right)), base),
            p,
            state_at(base + 1),
            b,
        ),
    ensures
        concat_walk(left, right, base, word(p), b),
    decreases p.len(),
{
    let lb = base + 2;
    let rb = lb + 2 * left.size();
    let lf = fragment(left, lb);
    let rf = fragment(right, rb);
    lemma_size_positive(left);
    lemma_size_positive(right);
    lemma_fragment_within(left, lb);
    lemma_fragment_within(right, rb);
    if p.len() > 0 {
        let e = p.last();
        let w0 = word(p.drop_last());
        let w = word(p);
        lemma_concat_walk(left, right, base, p.drop_last(), e.from);
        if lf.edges.contains(e) {
            lemma_reach_extend(lf.edges, lf.start, w0, e);
        } else if rf.edges.contains(e) {
            let k = choose|k: int|
                0 <= k <= w0.len() && #[trigger] lf.accepts(w0.take(k)) && reach(
                    rf.edges,
                    rf.start,
                    w0.skip(k),
                    e.from,
                );
            lemma_reach_extend(rf.edges, rf.start, w0.skip(k), e);
            lemma_extend_split(w0, k, e.label);
            assert(lf.accepts(w.take(k)));
        } else if e == eps_edge(base + 1, lb + 1) {
            lemma_reach_refl(lf.edges, lf.start);
            assert(w0 =~= Seq::<char>::empty());
        } else if e == eps_edge(lb + 2, rb + 1) {
            lemma_reach_refl(rf.edges, rf.start);
            let k = w0.len() as int;
            assert(w.take(k) =~= w0);
            assert(w.skip(k) =~= Seq::<char>::empty());
            assert(lf.accepts(w.take(k)));
        } else {
            assert(e == eps_edge(rb + 2, base + 2));
            let k = choose|k: int|
                0 <= k <= w0.len() && #[trigger] lf.accepts(w0.take(k)) && reach(
                    rf.edges,
                    rf.start,
                    w0.skip(k),
                    e.from,
                );
            assert(lf.accepts(w.take(k)) && rf.accepts(w.skip(k)));
        }
    }
}


/// Taking a transition after a word extends the part of the word after `k`
/// and leaves the part before `k` as it was.
pub proof fn lemma_extend_split(w: Seq<char>, k: int, label: NfaTrans)
    requires
        0 <= k <= w.len(),
    ensures
        extend(w, label).take(k) == w.take(k),
        extend(w, label).skip(k) == extend(w.skip(k), label),
{
    match label {
        NfaTrans::Epsilon => {},
        NfaTrans::Char(c) => {
            assert(w.push(c).take(k) =~= w.take(k));
            assert(w.push(c).skip(k) =~= w.skip(k).push(c));
        },
    }
}

/// What holds of a walk from the start state of the fragment for `inner*`
/// that spells `w` and ends in `b`.
pub open spec fn repeat_walk(inner: Node, base: int, w: Seq<char>, b: NfaState) -> bool {
    let ib = base + 2;
    let hi = ib + 2 * inner.size();
    let f = fragment(inner, ib);
    let star = Node::Repeat(Box::new(inner));
    if b.0 == base + 1 {
        w.len() == 0
    } else if b.0 == base + 2 {
        star.accepts(w)
    } else if ib < b.0 <= hi {
        exists|k: int|
            0 <= k <= w.len() && star.accepts(#[trigger] w.take(k)) && reach(
                f.edges,
                f.start,
                w.skip(k),
                b,
            )
    } else {
        false
    }
}

/// Every walk from the start state of the fragment for `inner*` is as
/// `repeat_walk` says, given that the fragment for `inner` accepts only what
/// `inner` denotes.
proof fn lemma_repeat_walk(inner: Node, base: int, p: Seq<NfaEdge>, b: NfaState)
    requires
        0 <= base,
        base + 2 * (1 + inner.size()) <= u32::MAX,
        is_path(fragment_edges(Node::Repeat(Box::new(inner)), base), p, state_at(base + 1), b),
        forall|u: Seq<char>| #[trigger] fragment(inner, base + 2).accepts(u) ==> inner.accepts(u),
    ensures
        repeat_walk(inner, base, word(p), b),
    decreases p.len(),
{
    let ib = base + 2;
    let f = fragment(inner, ib);
    let star = Node::Repeat(Box::new(inner));
    let none = Seq::<char>::empty();
    lemma_size_positive(inner);
    lemma_fragment_within(inner, ib);
    if p.len() > 0 {
        let e = p.last();
        let w0 = word(p.drop_last());
        let w = word(p);
        lemma_repeat_walk(inner, base, p.drop_last(), e.from);
        if f.edges.contains(e) {
            let k = choose|k: int|
                0 <= k <= w0.len() && star.accepts(#[trigger] w0.take(k)) && reach(
                    f.edges,
                    f.start,
                    w0.skip(k),
                    e.from,
                );
            lemma_reach_extend(f.edges, f.start, w0.skip(k), e);
            lemma_extend_split(w0, k, e.label);
            assert(star.accepts(w.take(k)));
        } else if e == eps_edge(base + 1, base + 2) {
            assert(w0 =~= none);
        } else if e == eps_edge(base + 1, ib + 1) {
            assert(w0 =~= none);
            lemma_reach_refl(f.edges, f.start);
            assert(w.take(0) =~= none);
            assert(w.skip(0) =~= none);
            assert(star.accepts(w.take(0)));
        } else {
            assert(e == eps_edge(ib + 2, ib + 1) || e == eps_edge(ib + 2, base + 2));
            let k = choose|k: int|
                0 <= k <= w0.len() && star.accepts(#[trigger] w0.take(k)) && reach(
                    f.edges,
                    f.start,
                    w0.skip(k),
                    e.from,
                );
            assert(f.accepts(w0.skip(k)));
            lemma_repeat_append(inner, w0.take(k), w0.skip(k));
            assert(w0.take(k) + w0.skip(k) =~= w0);
            assert(star.accepts(w0));
            if e == eps_edge(ib + 2, ib + 1) {
                let end = w.len() as int;
                lemma_reach_refl(f.edges, f.start);
                assert(w.take(end) =~= w0);
                assert(w.skip(end) =~= none);
                assert(star.accepts(w.take(end)));
            }
        }
    }
}

/// What holds of a walk from the start state of the fragment for the
/// character `c` that spells `w` and ends in `b`.
pub open spec fn char_walk(c: char, base: int, w: Seq<char>, b: NfaState) -> bool {
    if b.0 == base + 1 {
        w.len() == 0
    } else if b.0 == base + 2 {
        w == seq![c]
    } else {
        false
    }
}

/// Every walk from the start state of the fragment for a character is as
/// `char_walk` says.
proof fn lemma_char_walk(c: char, base: int, p: Seq<NfaEdge>, b: NfaState)
    requires
        0 <= base,
        base + 2 <= u32::MAX,
        is_path(fragment_edges(Node::Char(c), base), p, state_at(base + 1), b),
    ensures
        char_walk(c, base, word(p), b),
    decreases p.len(),
{
    if p.len() > 0 {
        let e = p.last();
        let w0 = word(p.drop_last());
        lemma_char_walk(c, base, p.drop_last(), e.from);
        assert(e == char_edge(base + 1, c, base + 2));
        assert(w0 =~= Seq::<char>::empty());
        assert(word(p) =~= seq![c]);
    }
}

/// Completeness of the construction: a word that the fragment for a pattern
/// accepts is denoted by the pattern.
pub proof fn lemma_fragment_complete(n: Node, base: int, w: Seq<char>)
    requires
        0 <= base,
        base + 2 * n.size() <= u32::MAX,
        fragment(n, base).accepts(w),
    ensures
        n.accepts(w),
    decreases n,
{
    let whole = fragment(n, base);
    let p = choose|p: Seq<NfaEdge>|
        #[trigger] is_path(whole.edges, p, whole.start, whole.accept) && word(p) == w;
    match n {
        Node::Char(c) => {
            lemma_char_walk(c, base, p, whole.accept);
        },
        Node::Concat(left, right) => {
            let lb = base + 2;
            let rb = lb + 2 * left.size();
            lemma_concat_walk(*left, *right, base, p, whole.accept);
            let k = choose|k: int|
                0 <= k <= w.len() && #[trigger] fragment(*left, lb).accepts(w.take(k)) && fragment(
                    *right,
                    rb,
                ).accepts(w.skip(k));
            lemma_fragment_complete(*left, lb, w.take(k));
            lemma_fragment_complete(*right, rb, w.skip(k));
        },
        Node::Or(left, right) => {
            let lb = base + 2;
            let rb = lb + 2 * left.size();
            lemma_or_walk(*left, *right, base, p, whole.accept);
            if fragment(*left, lb).accepts(w) {
                lemma_fragment_complete(*left, lb, w);
            } else {
                lemma_fragment_complete(*right, rb, w);
            }
        },
        Node::Repeat(inner) => {
            assert forall|u: Seq<char>| #[trigger]
                fragment(*inner, base + 2).accepts(u) implies inner.accepts(u) by {
                lemma_fragment_complete(*inner, base + 2, u);
            }
            lemma_repeat_walk(*inner, base, p, whole.accept);
        },
    }
}

/// From the accept state of the repeated pattern, the fragment for a
/// repetition reaches its own accept state on every word that the repetition
/// denotes.
proof fn lemma_repeat_exit(inner: Node, base: int, u: Seq<char>)
    requires
        0 <= base,
        base + 2 * (1 + inner.size()) <= u32::MAX,
        Node::Repeat(Box::new(inner)).accepts(u),
        forall|v: Seq<char>| #[trigger] inner.accepts(v) ==> fragment(inner, base + 2).accepts(v),
    ensures
        reach(
            fragment_edges(Node::Repeat(Box::new(inner)), base),
            state_at(base + 4),
            u,
            state_at(base + 2),
        ),
    decreases u.len(),
{
    let ib = base + 2;
    let f = fragment(inner, ib);
    let star = Node::Repeat(Box::new(inner));
    let all = fragment_edges(star, base);
    let none = Seq::<char>::empty();
    lemma_reach_refl(all, state_at(ib + 2));
    if u.len() == 0 {
        lemma_reach_extend(all, state_at(ib + 2), none, eps_edge(ib + 2, base + 2));
        assert(u =~= none);
    } else {
        let k = choose|k: int|
            0 < k <= u.len() && inner.accepts(#[trigger] u.take(k)) && star.accepts(u.skip(k));
        lemma_reach_extend(all, state_at(ib + 2), none, eps_edge(ib + 2, ib + 1));
        assert(f.accepts(u.take(k)));
        lemma_reach_mono(f.edges, all, f.start, u.take(k), f.accept);
        lemma_reach_trans(all, state_at(ib + 2), none, f.start, u.take(k), f.accept);
        lemma_repeat_exit(inner, base, u.skip(k));
        lemma_reach_trans(
            all,
            state_at(ib + 2),
            none + u.take(k),
            f.accept,
            u.skip(k),
            state_at(base + 2),
        );
        assert((none + u.take(k)) + u.skip(k) =~= u);
    }
}

/// Soundness of the construction: the fragment for a pattern accepts every
/// word that the pattern denotes.
pub proof fn lemma_fragment_sound(n: Node, base: int, w: Seq<char>)
    requires
        0 <= base,
        base + 2 * n.size() <= u32::MAX,
        n.accepts(w),
    ensures
        fragment(n, base).accepts(w),
    decreases n,
{
    let whole = fragment(n, base);
    let all = whole.edges;
    let none = Seq::<char>::empty();
    lemma_reach_refl(all, whole.start);
    match n {
        Node::Char(c) => {
            lemma_reach_extend(all, whole.start, none, char_edge(base + 1, c, base + 2));
            assert(none.push(c) =~= seq![c]);
        },
        Node::Concat(left, right) => {
            let lf = fragment(*left, base + 2);
            let rf = fragment(*right, base + 2 + 2 * left.size());
            let k = choose|k: int|
                0 <= k <= w.len() && left.accepts(#[trigger] w.take(k)) && right.accepts(w.skip(k));
            let w1 = w.take(k);
            let w2 = w.skip(k);
            lemma_fragment_sound(*left, base + 2, w1);
            lemma_fragment_sound(*right, base + 2 + 2 * left.size(), w2);
            lemma_reach_mono(lf.edges, all, lf.start, w1, lf.accept);
            lemma_reach_mono(rf.edges, all, rf.start, w2, rf.accept);
            lemma_reach_extend(all, whole.start, none, NfaEdge {
                from: whole.start,
                label: NfaTrans::Epsilon,
                to: lf.start,
            });
            lemma_reach_trans(all, whole.start, none, lf.start, w1, lf.accept);
            assert(none + w1 =~= w1);
            lemma_reach_extend(all, whole.start, w1, NfaEdge {
                from: lf.accept,
                label: NfaTrans::Epsilon,
                to: rf.start,
            });
            lemma_reach_trans(all, whole.start, w1, rf.start, w2, rf.accept);
            assert(w1 + w2 =~= w);
            lemma_reach_extend(all, whole.start, w, NfaEdge {
                from: rf.accept,
                label: NfaTrans::Epsilon,
                to: whole.accept,
            });
        },
        Node::Or(left, right) => {
            let lf = fragment(*left, base + 2);
            let rf = fragment(*right, base + 2 + 2 * left.size());
            let side = if left.accepts(w) {
                lf
            } else {
                rf
            };
            if left.accepts(w) {
                lemma_fragment_sound(*left, base + 2, w);
            } else {
                lemma_fragment_sound(*right, base + 2 + 2 * left.size(), w);
            }
            lemma_reach_mono(side.edges, all, side.start, w, side.accept);
            lemma_reach_extend(all, whole.start, none, NfaEdge {
                from: whole.start,
                label: NfaTrans::Epsilon,
                to: side.start,
            });
            lemma_reach_trans(all, whole.start, none, side.start, w, side.accept);
            assert(none + w =~= w);
            lemma_reach_extend(all, whole.start, w, NfaEdge {
                from: side.accept,
                label: NfaTrans::Epsilon,
                to: whole.accept,
            });
        },
        Node::Repeat(inner) => {
            if w.len() == 0 {
                lemma_reach_extend(all, whole.start, none, eps_edge(base + 1, base + 2));
                assert(w =~= none);
            } else {
                assert forall|v: Seq<char>| #[trigger] inner.accepts(v) implies fragment(
                    *inner,
                    base + 2,
                ).accepts(v) by {
                    lemma_fragment_sound(*inner, base + 2, v);
                }
                lemma_repeat_enter(*inner, base, w);
            }
        },
    }
}

/// The fragment for a repetition accepts a nonempty word that the repetition
/// denotes by entering the repeated pattern.
proof fn lemma_repeat_enter(inner: Node, base: int, w: Seq<char>)
    requires
        0 <= base,
        base + 2 * (1 + inner.size()) <= u32::MAX,
        w.len() > 0,
        Node::Repeat(Box::new(inner)).accepts(w),
        forall|v: Seq<char>| #[trigger] inner.accepts(v) ==> fragment(inner, base + 2).accepts(v),
    ensures
        fragment(Node::Repeat(Box::new(inner)), base).accepts(w),
{
    let ib = base + 2;
    let f = fragment(inner, ib);
    let star = Node::Repeat(Box::new(inner));
    let all = fragment_edges(star, base);
    let none = Seq::<char>::empty();
    let k = choose|k: int|
        0 < k <= w.len() && inner.accepts(#[trigger] w.take(k)) && star.accepts(w.skip(k));
    lemma_reach_refl(all, state_at(base + 1));
    lemma_reach_extend(all, state_at(base + 1), none, eps_edge(base + 1, ib + 1));
    assert(f.accepts(w.take(k)));
    lemma_reach_mono(f.edges, all, f.start, w.take(k), f.accept);
    lemma_reach_trans(all, state_at(base + 1), none, f.start, w.take(k), f.accept);
    lemma_repeat_exit(inner, base, w.skip(k));
    lemma_reach_trans(
        all,
        state_at(base + 1),
        none + w.take(k),
        f.accept,
        w.skip(k),
        state_at(base + 2),
    );
    assert((none + w.take(k)) + w.skip(k) =~= w);
}

/// The fragment built for a pattern accepts exactly the words that the pattern
/// denotes.
pub proof fn lemma_fragment_language(n: Node, base: int, w: Seq<char>)
    requires
        0 <= base,
        base + 2 * n.size() <= u32::MAX,
    ensures
        fragment(n, base).accepts(w) <==> n.accepts(w),
{
    if n.accepts(w) {
        lemma_fragment_sound(n, base, w);
    }
    if fragment(n, base).accepts(w) {
        lemma_fragment_complete(n, base, w);
    }
}

/// The pieces joined end to end.
pub open spec fn join(pieces: Seq<Seq<char>>) -> Seq<char>
    decreases pieces.len(),
{
    if pieces.len() == 0 {
        Seq::empty()
    } else {
        join(pieces.drop_last()) + pieces.last()
    }
}

/// Joining pieces after a first one puts the first one in front.
pub proof fn lemma_join_front(first: Seq<char>, pieces: Seq<Seq<char>>)
    ensures
        join(seq![first] + pieces) == first + join(pieces),
    decreases pieces.len(),
{
    let all = seq![first] + pieces;
    if pieces.len() == 0 {
        assert(all.drop_last() =~= pieces);
        assert(all.last() == first);
        assert(join(all) == join(pieces) + first);
        assert(join(pieces) =~= Seq::<char>::empty());
        assert(join(all) =~= first + join(pieces));
    } else {
        lemma_join_front(first, pieces.drop_last());
        assert(all.drop_last() =~= seq![first] + pieces.drop_last());
        assert(all.last() == pieces.last());
        assert(join(all) =~= first + join(pieces));
    }
}

/// Pieces that a pattern denotes, joined, are denoted by its repetition.
pub proof fn lemma_repeat_joins(inner: Node, pieces: Seq<Seq<char>>)
    requires
        forall|i: int| 0 <= i < pieces.len() ==> inner.accepts(#[trigger] pieces[i]),
    ensures
        Node::Repeat(Box::new(inner)).accepts(join(pieces)),
    decreases pieces.len(),
{
    if pieces.len() > 0 {
        let init = pieces.drop_last();
        assert forall|i: int| 0 <= i < init.len() implies inner.accepts(#[trigger] init[i]) by {
            assert(init[i] == pieces[i]);
        }
        lemma_repeat_joins(inner, init);
        lemma_repeat_append(inner, join(init), pieces.last());
    }
}

/// A nonempty word that a repetition denotes splits into pieces, at least
/// one, that the repeated pattern denotes.
pub proof fn lemma_repeat_splits(inner: Node, w: Seq<char>) -> (pieces: Seq<Seq<char>>)
    requires
        w.len() > 0,
        Node::Repeat(Box::new(inner)).accepts(w),
    ensures
        pieces.len() >= 1,
        join(pieces) == w,
        forall|i: int| 0 <= i < pieces.len() ==> inner.accepts(#[trigger] pieces[i]),
    decreases w.len(),
{
    let star = Node::Repeat(Box::new(inner));
    let k = choose|k: int|
        0 < k <= w.len() && inner.accepts(#[trigger] w.take(k)) && star.accepts(w.skip(k));
    let first = w.take(k);
    let rest = w.skip(k);
    let others = if rest.len() == 0 {
        Seq::<Seq<char>>::empty()
    } else {
        lemma_repeat_splits(inner, rest)
    };
    let pieces = seq![first] + others;
    lemma_join_front(first, others);
    assert(first + rest =~= w);
    if rest.len() == 0 {
        assert(join(others) =~= rest);
    }
    assert forall|i: int| 0 <= i < pieces.len() implies inner.accepts(#[trigger] pieces[i]) by {
        if i > 0 {
            assert(pieces[i] == others[i - 1]);
        }
    }
    pieces
}

/// Concatenation law. The automaton compiled for `p` followed by `q` accepts
/// a word exactly when the word splits in two, the first part accepted by the
/// automaton compiled for `p` alone and the second by that for `q` alone.
pub proof fn lemma_concatenation_law(p: Node, q: Node, w: Seq<char>)
    requires
        2 * (1 + p.size() + q.size()) < u32::MAX,
    ensures
        fragment(Node::Concat(Box::new(p), Box::new(q)), 0).accepts(w) <==> exists|k: int|
            0 <= k <= w.len() && fragment(p, 0).accepts(#[trigger] w.take(k)) && fragment(
                q,
                0,
            ).accepts(w.skip(k)),
{
    let whole = Node::Concat(Box::new(p), Box::new(q));
    lemma_fragment_language(whole, 0, w);
    assert forall|k: int| 0 <= k <= w.len() implies (fragment(p, 0).accepts(#[trigger] w.take(k))
        <==> p.accepts(w.take(k))) && (fragment(q, 0).accepts(w.skip(k)) <==> q.accepts(
        w.skip(k),
    )) by {
        lemma_fragment_language(p, 0, w.take(k));
        lemma_fragment_language(q, 0, w.skip(k));
    }
    if whole.accepts(w) {
        let k = choose|k: int|
            0 <= k <= w.len() && p.accepts(#[trigger] w.take(k)) && q.accepts(w.skip(k));
        assert(fragment(p, 0).accepts(w.take(k)) && fragment(q, 0).accepts(w.skip(k)));
    }
    if exists|k: int|
        0 <= k <= w.len() && fragment(p, 0).accepts(#[trigger] w.take(k)) && fragment(q, 0).accepts(
            w.skip(k),
        ) {
        let k = choose|k: int|
            0 <= k <= w.len() && fragment(p, 0).accepts(#[trigger] w.take(k)) && fragment(
                q,
                0,
            ).accepts(w.skip(k));
        assert(p.accepts(w.take(k)) && q.accepts(w.skip(k)));
    }
}

/// Alternation law. The automaton compiled for `p|q` accepts a word exactly
/// when the automaton compiled for `p` alone or that for `q` alone accepts it.
pub proof fn lemma_alternation_law(p: Node, q: Node, w: Seq<char>)
    requires
        2 * (1 + p.size() + q.size()) < u32::MAX,
    ensures
        fragment(Node::Or(Box::new(p), Box::new(q)), 0).accepts(w) <==> fragment(p, 0).accepts(w)
            || fragment(q, 0).accepts(w),
{
    lemma_fragment_language(Node::Or(Box::new(p), Box::new(q)), 0, w);
    lemma_fragment_language(p, 0, w);
    lemma_fragment_language(q, 0, w);
}

/// Repetition law. The automaton compiled for `p*` accepts a word exactly
/// when the word is empty or is one or more pieces joined end to end, each
/// accepted by the automaton compiled for `p` alone.
pub proof fn lemma_repetition_law(p: Node, w: Seq<char>)
    requires
        2 * (1 + p.size()) < u32::MAX,
    ensures
        fragment(Node::Repeat(Box::new(p)), 0).accepts(w) <==> w.len() == 0 || exists|
            pieces: Seq<Seq<char>>,
        |
            pieces.len() >= 1 && #[trigger] join(pieces) == w && forall|i: int|
                0 <= i < pieces.len() ==> fragment(p, 0).accepts(#[trigger] pieces[i]),
{
    let star = Node::Repeat(Box::new(p));
    lemma_fragment_language(star, 0, w);
    if w.len() > 0 {
        if star.accepts(w) {
            let pieces = lemma_repeat_splits(p, w);
            assert forall|i: int| 0 <= i < pieces.len() implies fragment(p, 0).accepts(
                #[trigger] pieces[i],
            ) by {
                lemma_fragment_language(p, 0, pieces[i]);
            }
            assert(pieces.len() >= 1 && join(pieces) == w);
        }
        if exists|pieces: Seq<Seq<char>>|
            pieces.len() >= 1 && #[trigger] join(pieces) == w && forall|i: int|
                0 <= i < pieces.len() ==> fragment(p, 0).accepts(#[trigger] pieces[i]) {
            let pieces = choose|pieces: Seq<Seq<char>>|
                pieces.len() >= 1 && #[trigger] join(pieces) == w && forall|i: int|
                    0 <= i < pieces.len() ==> fragment(p, 0).accepts(#[trigger] pieces[i]);
            assert forall|i: int| 0 <= i < pieces.len() implies p.accepts(#[trigger] pieces[i]) by {
                lemma_fragment_language(p, 0, pieces[i]);
            }
            lemma_repeat_joins(p, pieces);
        }
    }
}

} // verus!
