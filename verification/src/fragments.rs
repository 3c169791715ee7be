//! Automaton fragments: the piece of an automaton that stands for one rule,
//! and the words on which compound fragments are passed.

use vstd::prelude::*;
use crate::grammar::Token;
use crate::derivation::token_word;
use crate::paths::{
    in_region, is_path, label, lemma_confined_backward, lemma_confined_forward,
    lemma_label_concat, lemma_label_single, lemma_label_split, lemma_path_concat,
    lemma_path_split, reaches, state_after, Transition,
};

verus! {

/// What holds of each transition of a fragment: it starts at the entry or at
/// one of the fragment's own states, never at the exit, and leads upwards to
/// one of the fragment's own states.
pub open spec fn edge_inside(t: Transition, entry: usize, lo: usize, hi: usize, exit: usize) -> bool {
    &&& in_region(t.0, entry, lo, hi)
    &&& lo <= t.2 < hi
    &&& t.0 < t.2
    &&& t.0 != exit
}

/// `d` is a fragment that is entered at `entry`, left at `exit`, and owns the
/// states `lo..hi`, all of them above `entry`.
pub open spec fn fragment(d: Seq<Transition>, entry: usize, lo: usize, hi: usize, exit: usize) -> bool {
    &&& entry < lo <= hi
    &&& in_region(exit, entry, lo, hi)
    &&& (exit == entry ==> d.len() == 0)
    &&& forall|i: int| 0 <= i < d.len() ==> edge_inside(#[trigger] d[i], entry, lo, hi, exit)
}

/// `w` splits into a word on which `d1` is passed and one on which `d2` is.
pub open spec fn series_reaches(
    d1: Seq<Transition>,
    d2: Seq<Transition>,
    entry: usize,
    mid: usize,
    exit: usize,
    w: Seq<char>,
) -> bool {
    exists|k: int|
        0 <= k <= w.len() && #[trigger] reaches(d1, entry, mid, w.take(k)) && reaches(
            d2,
            mid,
            exit,
            w.skip(k),
        )
}

/// The two transitions that join the exits of two alternatives in `join`.
pub open spec fn joins(exit_a: usize, exit_b: usize, join: usize) -> Seq<Transition> {
    seq![(exit_a, Token::Nil, join), (exit_b, Token::Nil, join)]
}

/// Two lists in a row hold what either of them holds.
pub proof fn lemma_contains_add(a: Seq<Transition>, b: Seq<Transition>, t: Transition)
    ensures
        (a + b).contains(t) <==> a.contains(t) || b.contains(t),
{
    let c = a + b;
    if a.contains(t) {
        let i = choose|i: int| 0 <= i < a.len() && a[i] == t;
        assert(c[i] == t);
    }
    if b.contains(t) {
        let i = choose|i: int| 0 <= i < b.len() && b[i] == t;
        assert(c[i + a.len()] == t);
    }
    if c.contains(t) {
        let i = choose|i: int| 0 <= i < c.len() && c[i] == t;
        if i < a.len() {
            assert(a[i] == t);
        } else {
            assert(b[i - a.len()] == t);
        }
    }
}

/// What holds of each transition of a fragment holds of a transition that
/// the fragment contains.
pub proof fn lemma_fragment_edge(
    d: Seq<Transition>,
    entry: usize,
    lo: usize,
    hi: usize,
    exit: usize,
    t: Transition,
)
    requires
        fragment(d, entry, lo, hi, exit),
        d.contains(t),
    ensures
        edge_inside(t, entry, lo, hi, exit),
{
    let i = choose|i: int| 0 <= i < d.len() && d[i] == t;
    assert(edge_inside(d[i], entry, lo, hi, exit));
}

/// A path keeps being one when transitions are added.
pub proof fn lemma_path_mono(
    sub: Seq<Transition>,
    ts: Seq<Transition>,
    p: Seq<Transition>,
    s: usize,
    e: usize,
)
    requires
        is_path(sub, p, s, e),
        forall|t: Transition| #[trigger] sub.contains(t) ==> ts.contains(t),
    ensures
        is_path(ts, p, s, e),
{
}

/// With no transition at all, a state reaches only itself, on the empty word.
pub proof fn lemma_empty_fragment(s: usize, e: usize, w: Seq<char>)
    ensures
        reaches(Seq::<Transition>::empty(), s, e, w) <==> (s == e && w.len() == 0),
{
    let ts = Seq::<Transition>::empty();
    if reaches(ts, s, e, w) {
        let p = choose|p: Seq<Transition>| #[trigger] is_path(ts, p, s, e) && label(p) =~= w;
        if p.len() > 0 {
            assert(ts.contains(p[0]));
        }
    }
    if s == e && w.len() == 0 {
        let p = Seq::<Transition>::empty();
        assert(is_path(ts, p, s, e));
        assert(label(p) =~= w);
    }
}

/// A single transition to a fresh state is passed on its own symbol only.
pub proof fn lemma_single_fragment(entry: usize, tok: Token, fresh: usize, w: Seq<char>)
    requires
        entry < fresh < usize::MAX,
    ensures
        fragment(seq![(entry, tok, fresh)], entry, fresh, (fresh + 1) as usize, fresh),
        reaches(seq![(entry, tok, fresh)], entry, fresh, w) <==> w =~= token_word(tok),
{
    let t: Transition = (entry, tok, fresh);
    let ts = seq![t];
    if reaches(ts, entry, fresh, w) {
        let p = choose|p: Seq<Transition>| #[trigger] is_path(ts, p, entry, fresh) && label(p) =~= w;
        assert(p.len() > 0);
        assert(ts.contains(p[0]));
        if p.len() > 1 {
            assert(ts.contains(p[1]));
            assert(p[0int].2 == p[0int + 1].0);
        }
        assert(p =~= ts);
        lemma_label_single(t);
    }
    if w =~= token_word(tok) {
        assert(ts[0] == t);
        assert(is_path(ts, ts, entry, fresh));
        lemma_label_single(t);
    }
}

/// The first step of `p` from step `from` on that leads into the states
/// `lo..hi`.
proof fn first_entering(p: Seq<Transition>, lo: usize, hi: usize, from: int) -> (i: int)
    requires
        0 <= from < p.len(),
        forall|j: int| 0 <= j < from ==> !(lo <= (#[trigger] p[j]).2 < hi),
        exists|k: int| from <= k < p.len() && lo <= (#[trigger] p[k]).2 < hi,
    ensures
        from <= i < p.len(),
        lo <= p[i].2 < hi,
        forall|j: int| 0 <= j < i ==> !(lo <= (#[trigger] p[j]).2 < hi),
    decreases p.len() - from,
{
    if lo <= p[from].2 < hi {
        from
    } else {
        let k = choose|k: int| from <= k < p.len() && lo <= (#[trigger] p[k]).2 < hi;
        assert(from + 1 <= k);
        first_entering(p, lo, hi, from + 1)
    }
}

/// Two fragments in a row, the second entered at the exit of the first, form
/// a fragment.
pub proof fn lemma_series_fragment(
    d1: Seq<Transition>,
    d2: Seq<Transition>,
    entry: usize,
    c0: usize,
    c1: usize,
    c2: usize,
    e1: usize,
    e2: usize,
)
    requires
        fragment(d1, entry, c0, c1, e1),
        fragment(d2, e1, c1, c2, e2),
    ensures
        fragment(d1 + d2, entry, c0, c2, e2),
{
    let d = d1 + d2;
    assert forall|i: int| 0 <= i < d.len() implies edge_inside(
        #[trigger] d[i],
        entry,
        c0,
        c2,
        e2,
    ) by {
        if i < d1.len() {
            assert(d[i] == d1[i]);
            assert(edge_inside(d1[i], entry, c0, c1, e1));
        } else {
            assert(d[i] == d2[i - d1.len()]);
            assert(edge_inside(d2[i - d1.len()], e1, c1, c2, e2));
        }
    }
}

/// Two fragments in a row are passed on exactly the words that split into a
/// word for the first and a word for the second.
pub proof fn lemma_series_reaches(
    d1: Seq<Transition>,
    d2: Seq<Transition>,
    entry: usize,
    c0: usize,
    c1: usize,
    c2: usize,
    e1: usize,
    e2: usize,
    w: Seq<char>,
)
    requires
        fragment(d1, entry, c0, c1, e1),
        fragment(d2, e1, c1, c2, e2),
    ensures
        reaches(d1 + d2, entry, e2, w) <==> series_reaches(d1, d2, entry, e1, e2, w),
{
    let d = d1 + d2;
    assert forall|t: Transition| #[trigger] d.contains(t) <==> d1.contains(t) || d2.contains(t) by {
        lemma_contains_add(d1, d2, t);
    }
    if series_reaches(d1, d2, entry, e1, e2, w) {
        let k = choose|k: int|
            0 <= k <= w.len() && #[trigger] reaches(d1, entry, e1, w.take(k)) && reaches(
                d2,
                e1,
                e2,
                w.skip(k),
            );
        let first = choose|p: Seq<Transition>| #[trigger]
            is_path(d1, p, entry, e1) && label(p) =~= w.take(k);
        let second = choose|p: Seq<Transition>| #[trigger]
            is_path(d2, p, e1, e2) && label(p) =~= w.skip(k);
        lemma_path_mono(d1, d, first, entry, e1);
        lemma_path_mono(d2, d, second, e1, e2);
        lemma_path_concat(d, first, second, entry, e1, e2);
        lemma_label_concat(first, second);
        assert(w.take(k) + w.skip(k) =~= w);
        assert(is_path(d, first + second, entry, e2));
    }
    if reaches(d, entry, e2, w) {
        let p = choose|p: Seq<Transition>| #[trigger] is_path(d, p, entry, e2) && label(p) =~= w;
        let j: int = if e2 == e1 {
            p.len() as int
        } else {
            assert(p.len() > 0);
            assert(c1 <= p[p.len() - 1].2 < c2);
            let i = first_entering(p, c1, c2, 0);
            assert(d.contains(p[i]));
            if d1.contains(p[i]) {
                lemma_fragment_edge(d1, entry, c0, c1, e1, p[i]);
            }
            lemma_fragment_edge(d2, e1, c1, c2, e2, p[i]);
            if i > 0 {
                assert(p[i - 1].2 == p[i - 1 + 1].0);
            }
            i
        };
        assert(state_after(p, entry, j) == e1);
        lemma_path_split(d, p, entry, e2, j);
        assert forall|t: Transition| #[trigger]
            d.contains(t) && in_region(t.2, entry, c0, c1) implies d1.contains(t) && in_region(
            t.0,
            entry,
            c0,
            c1,
        ) by {
            if d1.contains(t) {
                lemma_fragment_edge(d1, entry, c0, c1, e1, t);
            } else {
                lemma_fragment_edge(d2, e1, c1, c2, e2, t);
            }
        }
        lemma_confined_backward(d, d1, p.take(j), entry, e1, entry, c0, c1);
        assert forall|t: Transition| #[trigger]
            d.contains(t) && in_region(t.0, e1, c1, c2) implies d2.contains(t) && in_region(
            t.2,
            e1,
            c1,
            c2,
        ) by {
            if d1.contains(t) {
                lemma_fragment_edge(d1, entry, c0, c1, e1, t);
            } else {
                lemma_fragment_edge(d2, e1, c1, c2, e2, t);
            }
        }
        lemma_confined_forward(d, d2, p.skip(j), e1, e2, e1, c1, c2);
        lemma_label_split(p, j);
        let k = label(p.take(j)).len() as int;
        assert(w.take(k) =~= label(p.take(j)));
        assert(w.skip(k) =~= label(p.skip(j)));
        assert(reaches(d1, entry, e1, w.take(k)));
        assert(reaches(d2, e1, e2, w.skip(k)));
    }
}

/// The last step of a path that ends somewhere else than it starts.
pub proof fn lemma_last_step(ts: Seq<Transition>, p: Seq<Transition>, s: usize, e: usize)
    requires
        is_path(ts, p, s, e),
        s != e,
    ensures
        p.len() > 0,
        ts.contains(p.last()),
        p.last().2 == e,
        is_path(ts, p.drop_last(), s, p.last().0),
        label(p) =~= label(p.drop_last()) + token_word(p.last().1),
{
    let n = p.len() - 1;
    lemma_path_split(ts, p, s, e, n);
    assert(p.take(n) =~= p.drop_last());
    if n > 0 {
        assert(p[n - 1].2 == p[n - 1 + 1].0);
    }
}

/// A path goes on by one transition.
pub proof fn lemma_path_push(ts: Seq<Transition>, p: Seq<Transition>, s: usize, t: Transition)
    requires
        is_path(ts, p, s, t.0),
        ts.contains(t),
    ensures
        is_path(ts, p.push(t), s, t.2),
        label(p.push(t)) =~= label(p) + token_word(t.1),
{
    let one = seq![t];
    assert(one[0] == t);
    assert(is_path(ts, one, t.0, t.2));
    lemma_path_concat(ts, p, one, s, t.0, t.2);
    assert(p + one =~= p.push(t));
    assert(p.push(t).drop_last() =~= p);
}

/// Two alternatives that are entered at the same state, with their exits
/// joined in a fresh state, form a fragment.
pub proof fn lemma_choice_fragment(
    da: Seq<Transition>,
    db: Seq<Transition>,
    entry: usize,
    c0: usize,
    ca: usize,
    cb: usize,
    ea: usize,
    eb: usize,
)
    requires
        fragment(da, entry, c0, ca, ea),
        fragment(db, entry, ca, cb, eb),
        cb < usize::MAX,
    ensures
        fragment(da + db + joins(ea, eb, cb), entry, c0, (cb + 1) as usize, cb),
{
    let j = joins(ea, eb, cb);
    let d = da + db + j;
    let hi = (cb + 1) as usize;
    assert forall|i: int| 0 <= i < d.len() implies edge_inside(
        #[trigger] d[i],
        entry,
        c0,
        hi,
        cb,
    ) by {
        if i < da.len() {
            assert(d[i] == da[i]);
            assert(edge_inside(da[i], entry, c0, ca, ea));
        } else if i < da.len() + db.len() {
            assert(d[i] == db[i - da.len()]);
            assert(edge_inside(db[i - da.len()], entry, ca, cb, eb));
        } else {
            assert(d[i] == j[i - da.len() - db.len()]);
        }
    }
}

/// Two joined alternatives are passed on exactly the words on which one of
/// them is.
pub proof fn lemma_choice_reaches(
    da: Seq<Transition>,
    db: Seq<Transition>,
    entry: usize,
    c0: usize,
    ca: usize,
    cb: usize,
    ea: usize,
    eb: usize,
    w: Seq<char>,
)
    requires
        fragment(da, entry, c0, ca, ea),
        fragment(db, entry, ca, cb, eb),
        cb < usize::MAX,
    ensures
        reaches(da + db + joins(ea, eb, cb), entry, cb, w) <==> reaches(da, entry, ea, w)
            || reaches(db, entry, eb, w),
{
    let j = joins(ea, eb, cb);
    let d = da + db + j;
    let ja: Transition = (ea, Token::Nil, cb);
    let jb: Transition = (eb, Token::Nil, cb);
    assert(j[0] == ja && j[1] == jb);
    assert forall|t: Transition| #[trigger]
        d.contains(t) <==> da.contains(t) || db.contains(t) || t == ja || t == jb by {
        lemma_contains_add(da + db, j, t);
        lemma_contains_add(da, db, t);
    }
    assert forall|t: Transition| #[trigger]
        d.contains(t) && in_region(t.2, entry, c0, ca) implies da.contains(t) && in_region(
        t.0,
        entry,
        c0,
        ca,
    ) by {
        if da.contains(t) {
            lemma_fragment_edge(da, entry, c0, ca, ea, t);
        } else if db.contains(t) {
            lemma_fragment_edge(db, entry, ca, cb, eb, t);
        }
    }
    assert forall|t: Transition| #[trigger]
        d.contains(t) && in_region(t.2, entry, ca, cb) implies db.contains(t) && in_region(
        t.0,
        entry,
        ca,
        cb,
    ) by {
        if da.contains(t) {
            lemma_fragment_edge(da, entry, c0, ca, ea, t);
        } else if db.contains(t) {
            lemma_fragment_edge(db, entry, ca, cb, eb, t);
        }
    }
    if reaches(da, entry, ea, w) {
        let p = choose|p: Seq<Transition>| #[trigger] is_path(da, p, entry, ea) && label(p) =~= w;
        lemma_path_mono(da, d, p, entry, ea);
        lemma_path_push(d, p, entry, ja);
        assert(is_path(d, p.push(ja), entry, cb));
    }
    if reaches(db, entry, eb, w) {
        let p = choose|p: Seq<Transition>| #[trigger] is_path(db, p, entry, eb) && label(p) =~= w;
        lemma_path_mono(db, d, p, entry, eb);
        lemma_path_push(d, p, entry, jb);
        assert(is_path(d, p.push(jb), entry, cb));
    }
    if reaches(d, entry, cb, w) {
        let p = choose|p: Seq<Transition>| #[trigger] is_path(d, p, entry, cb) && label(p) =~= w;
        lemma_last_step(d, p, entry, cb);
        let last = p.last();
        let q = p.drop_last();
        if da.contains(last) {
            lemma_fragment_edge(da, entry, c0, ca, ea, last);
        }
        if db.contains(last) {
            lemma_fragment_edge(db, entry, ca, cb, eb, last);
        }
        assert(last == ja || last == jb);
        assert(label(q) =~= w);
        if last == ja {
            lemma_confined_backward(d, da, q, entry, ea, entry, c0, ca);
            assert(is_path(da, q, entry, ea));
        } else {
            lemma_confined_backward(d, db, q, entry, eb, entry, ca, cb);
            assert(is_path(db, q, entry, eb));
        }
    }
}

/// A fragment entered at the start state 0, with its exit linked to the
/// accepting state 1, leads from 0 to 1 on exactly the words on which the
/// fragment is passed.
pub proof fn lemma_linked_to_accept(d: Seq<Transition>, hi: usize, exit: usize, w: Seq<char>)
    requires
        fragment(d, 0, 2, hi, exit),
    ensures
        reaches(d.push((exit, Token::Nil, 1)), 0, 1, w) <==> reaches(d, 0, exit, w),
{
    let link: Transition = (exit, Token::Nil, 1);
    let ts = d.push(link);
    assert(ts =~= d + seq![link]);
    assert(seq![link][0] == link);
    assert forall|t: Transition| #[trigger] ts.contains(t) <==> d.contains(t) || t == link by {
        lemma_contains_add(d, seq![link], t);
    }
    assert forall|t: Transition| #[trigger]
        ts.contains(t) && in_region(t.2, 0, 2, hi) implies d.contains(t) && in_region(
        t.0,
        0,
        2,
        hi,
    ) by {
        if d.contains(t) {
            lemma_fragment_edge(d, 0, 2, hi, exit, t);
        }
    }
    if reaches(d, 0, exit, w) {
        let p = choose|p: Seq<Transition>| #[trigger] is_path(d, p, 0, exit) && label(p) =~= w;
        lemma_path_mono(d, ts, p, 0, exit);
        lemma_path_push(ts, p, 0, link);
        assert(is_path(ts, p.push(link), 0, 1));
    }
    if reaches(ts, 0, 1, w) {
        let p = choose|p: Seq<Transition>| #[trigger] is_path(ts, p, 0, 1) && label(p) =~= w;
        lemma_last_step(ts, p, 0, 1);
        let last = p.last();
        let q = p.drop_last();
        if d.contains(last) {
            lemma_fragment_edge(d, 0, 2, hi, exit, last);
        }
        assert(last == link);
        lemma_confined_backward(ts, d, q, 0, exit, 0, 2, hi);
        assert(is_path(d, q, 0, exit));
        assert(label(q) =~= w);
    }
}

} // verus!
