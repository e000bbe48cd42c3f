//! Shape parts (形码) of single characters' codes: what follows the first
//! two bytes of a code of at least three bytes. The shape parts of one
//! character should lie on one chain, each a prefix of the longest.

use crate::entry::Single;
use crate::hashing::{
    shape_state_view, shape_states_contents, shape_states_get, shape_states_insert, shape_states_new,
    ShapeStates,
};
use crate::order::{code_of, starts_with};
use vstd::prelude::*;

verus! {

broadcast use vstd::seq_lib::group_seq_properties;

/// The code has a shape part: it has at least three bytes.
pub open spec fn has_shape(e: Single) -> bool {
    code_of(e).len() >= 3
}

/// The shape part of the code: all but its first two bytes.
pub open spec fn shape(e: Single) -> Seq<u8> {
    code_of(e).skip(2)
}

/// The shape parts of the codes of character `t`, in order.
pub open spec fn shapes_of(ss: Seq<Single>, t: char) -> Seq<Seq<u8>> {
    ss.filter(|e: Single| e.text == t && has_shape(e)).map_values(|e: Single| shape(e))
}

/// One of `a` and `b` is a prefix of the other.
pub open spec fn comparable(a: Seq<u8>, b: Seq<u8>) -> bool {
    a.is_prefix_of(b) || b.is_prefix_of(a)
}

/// Two shape parts of `t` do not lie on one chain.
pub open spec fn conflicted(ss: Seq<Single>, t: char) -> bool {
    let xs = shapes_of(ss, t);
    exists|a: int, b: int| 0 <= a < xs.len() && 0 <= b < xs.len() && !comparable(#[trigger] xs[a], #[trigger] xs[b])
}

/// The state after the shape part `x`: once conflicted, it stays so;
/// otherwise the longest part so far, unless `x` and it do not lie on one
/// chain.
pub open spec fn shape_step(st: (Option<Seq<u8>>, bool), x: Seq<u8>) -> (Option<Seq<u8>>, bool) {
    if st.1 {
        st
    } else {
        match st.0 {
            None => (Some(x), false),
            Some(l) => if x.is_prefix_of(l) {
                st
            } else if l.is_prefix_of(x) {
                (Some(x), false)
            } else {
                (Some(l), true)
            },
        }
    }
}

/// The state describes the shape parts `xs`: whether two of them conflict,
/// and if not, the longest of them, of which all are prefixes.
pub open spec fn describes(st: (Option<Seq<u8>>, bool), xs: Seq<Seq<u8>>) -> bool {
    &&& st.1 == exists|a: int, b: int|
        0 <= a < xs.len() && 0 <= b < xs.len() && !comparable(#[trigger] xs[a], #[trigger] xs[b])
    &&& !st.1 ==> match st.0 {
        None => xs.len() == 0,
        Some(l) => xs.contains(l) && forall|a: int| 0 <= a < xs.len() ==> (#[trigger] xs[a]).is_prefix_of(l),
    }
}

proof fn lemma_prefix_trans(a: Seq<u8>, b: Seq<u8>, c: Seq<u8>)
    requires
        a.is_prefix_of(b),
        b.is_prefix_of(c),
    ensures
        a.is_prefix_of(c),
{
    assert forall|i: int| 0 <= i < a.len() implies a[i] == c[i] by {
        assert(a[i] == b[i]);
    }
}

proof fn lemma_prefixes_comparable(a: Seq<u8>, b: Seq<u8>, c: Seq<u8>)
    requires
        a.is_prefix_of(c),
        b.is_prefix_of(c),
    ensures
        comparable(a, b),
{
    if a.len() <= b.len() {
        assert forall|i: int| 0 <= i < a.len() implies a[i] == b[i] by {
            assert(a[i] == c[i] && b[i] == c[i]);
        }
    } else {
        assert forall|i: int| 0 <= i < b.len() implies b[i] == a[i] by {
            assert(a[i] == c[i] && b[i] == c[i]);
        }
    }
}

/// One step keeps the state a description of the shape parts.
pub proof fn lemma_shape_step(st: (Option<Seq<u8>>, bool), xs: Seq<Seq<u8>>, x: Seq<u8>)
    requires
        describes(st, xs),
    ensures
        describes(shape_step(st, x), xs.push(x)),
{
    let ys = xs.push(x);
    let nst = shape_step(st, x);
    if st.1 {
        let (a, b) = choose|a: int, b: int|
            0 <= a < xs.len() && 0 <= b < xs.len() && !comparable(#[trigger] xs[a], #[trigger] xs[b]);
        assert(!comparable(ys[a], ys[b]));
    } else {
        match st.0 {
            None => {
                assert(xs.len() == 0);
                assert(ys =~= seq![x]);
                assert(ys.contains(x) && ys[0] == x);
                assert forall|a: int, b: int| 0 <= a < ys.len() && 0 <= b < ys.len() implies comparable(
                    #[trigger] ys[a],
                    #[trigger] ys[b],
                ) by {
                    assert(ys[a] == x && ys[b] == x);
                    assert(x.is_prefix_of(x));
                }
                assert(x.is_prefix_of(x));
            },
            Some(l) => {
                if x.is_prefix_of(l) || l.is_prefix_of(x) {
                    let top = if x.is_prefix_of(l) {
                        l
                    } else {
                        x
                    };
                    assert(nst.0 == Some(top));
                    assert forall|a: int| 0 <= a < ys.len() implies (#[trigger] ys[a]).is_prefix_of(top) by {
                        if a < xs.len() {
                            assert(ys[a] == xs[a]);
                            if top == x {
                                lemma_prefix_trans(xs[a], l, x);
                            }
                        } else {
                            assert(ys[a] == x);
                            assert(x.is_prefix_of(x));
                        }
                    }
                    assert forall|a: int, b: int| 0 <= a < ys.len() && 0 <= b < ys.len() implies comparable(
                        #[trigger] ys[a],
                        #[trigger] ys[b],
                    ) by {
                        lemma_prefixes_comparable(ys[a], ys[b], top);
                    }
                    if top == l {
                        let k = choose|k: int| 0 <= k < xs.len() && xs[k] == l;
                        assert(ys[k] == l);
                    } else {
                        assert(ys[xs.len() as int] == x);
                    }
                } else {
                    let k = choose|k: int| 0 <= k < xs.len() && xs[k] == l;
                    assert(ys[k] == l);
                    assert(ys[xs.len() as int] == x);
                    assert(!comparable(ys[k], ys[xs.len() as int]));
                }
            },
        }
    }
}

/// The state of `t` in the map, or the initial state.
pub open spec fn state_in(m: Map<char, (Option<Seq<u8>>, bool)>, t: char) -> (Option<Seq<u8>>, bool) {
    if m.contains_key(t) {
        m[t]
    } else {
        (None, false)
    }
}

/// For every character, the map describes its shape parts.
pub open spec fn states_describe(m: Map<char, (Option<Seq<u8>>, bool)>, ss: Seq<Single>) -> bool {
    forall|t: char| #[trigger] describes(state_in(m, t), shapes_of(ss, t))
}

/// The state of each character's shape parts, and whether any character's
/// shape parts conflict.
pub fn shape_states<'a>(singles: &'a [Single]) -> (r: (ShapeStates<'a>, bool))
    ensures
        states_describe(shape_states_contents(r.0), singles@),
        r.1 == exists|t: char| #[trigger] conflicted(singles@, t),
{
    let ghost ss = singles@;
    let mut states = shape_states_new(singles.len() / 2);
    let mut bad = false;
    let mut i: usize = 0;
    proof {
        assert forall|t: char| #[trigger] describes(state_in(shape_states_contents(states), t), shapes_of(ss.take(0), t)) by {
            assert(ss.take(0).filter(|e: Single| e.text == t && has_shape(e)) =~= Seq::<Single>::empty());
            assert(shapes_of(ss.take(0), t) =~= Seq::<Seq<u8>>::empty());
        }
    }
    while i < singles.len()
        invariant
            i <= ss.len(),
            ss == singles@,
            states_describe(shape_states_contents(states), ss.take(i as int)),
            bad == exists|u: char| #[trigger] conflicted(ss.take(i as int), u),
        decreases singles.len() - i,
    {
        let e = &singles[i];
        let ghost t = e.text;
        let ghost m0 = shape_states_contents(states);
        let ghost before = ss.take(i as int);
        let ghost after = ss.take(i + 1);
        proof {
            assert(after =~= before.push(*e));
            assert forall|u: char| #[trigger] shapes_of(after, u) == if u == t && has_shape(*e) {
                shapes_of(before, u).push(shape(*e))
            } else {
                shapes_of(before, u)
            } by {
                let p = |x: Single| x.text == u && has_shape(x);
                before.lemma_filter_push(*e, p);
                let f = |x: Single| shape(x);
                if p(*e) {
                    assert(before.filter(p).push(*e).map_values(f) =~= before.filter(p).map_values(f).push(f(*e)));
                }
            }
        }
        let st = match shape_states_get(&states, e.text) {
            Some(v) => v,
            None => (None, false),
        };
        assert(shape_state_view(st) == state_in(m0, t));
        let c = e.code.as_str().as_bytes();
        assert(c@ == code_of(*e));
        if !st.1 && c.len() >= 3 {
            let x = vstd::slice::slice_subrange(c, 2, c.len());
            assert(x@ =~= shape(*e));
            let next = match st.0 {
                None => (Some(x), false),
                Some(l) => if starts_with(l, x) {
                    st
                } else if starts_with(x, l) {
                    (Some(x), false)
                } else {
                    bad = true;
                    (Some(l), true)
                },
            };
            assert(shape_state_view(next) == shape_step(shape_state_view(st), x@));
            shape_states_insert(&mut states, e.text, next);
            proof {
                lemma_shape_step(state_in(m0, t), shapes_of(before, t), shape(*e));
            }
        } else {
            proof {
                if st.1 && has_shape(*e) {
                    lemma_shape_step(state_in(m0, t), shapes_of(before, t), shape(*e));
                }
            }
        }
        proof {
            let m1 = shape_states_contents(states);
            assert forall|u: char| #[trigger] describes(state_in(m1, u), shapes_of(after, u)) by {
                if u != t {
                    assert(state_in(m1, u) == state_in(m0, u));
                    assert(describes(state_in(m0, u), shapes_of(before, u)));
                } else {
                    assert(describes(state_in(m0, u), shapes_of(before, u)));
                }
            }
            assert forall|u: char| conflicted(after, u) == (#[trigger] state_in(m1, u)).1 by {
                assert(describes(state_in(m1, u), shapes_of(after, u)));
            }
            assert forall|u: char| conflicted(before, u) == (#[trigger] state_in(m0, u)).1 by {
                assert(describes(state_in(m0, u), shapes_of(before, u)));
            }
            let now_bad = exists|u: char| #[trigger] conflicted(after, u);
            let was_bad = exists|u: char| #[trigger] conflicted(before, u);
            assert(bad == now_bad) by {
                if was_bad {
                    let u = choose|u: char| #[trigger] conflicted(before, u);
                    assert(state_in(m0, u).1);
                    assert(state_in(m1, u).1);
                    assert(conflicted(after, u));
                }
                if state_in(m1, t).1 {
                    assert(conflicted(after, t));
                }
                if now_bad {
                    let u = choose|u: char| #[trigger] conflicted(after, u);
                    assert(state_in(m1, u).1);
                    if state_in(m0, u).1 {
                        assert(conflicted(before, u));
                    }
                }
            }
        }
        i += 1;
    }
    assert(ss.take(ss.len() as int) =~= ss);
    (states, bad)
}

/// Whether the shape parts of `t` conflict, by the states.
pub fn is_conflicted(states: &ShapeStates, t: char, Ghost(ss): Ghost<Seq<Single>>) -> (r: bool)
    requires
        states_describe(shape_states_contents(*states), ss),
    ensures
        r == conflicted(ss, t),
{
    assert(describes(state_in(shape_states_contents(*states), t), shapes_of(ss, t)));
    match shape_states_get(states, t) {
        Some(v) => v.1,
        None => false,
    }
}

} // verus!
