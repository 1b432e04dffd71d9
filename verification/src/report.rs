//! The data the reporting adapter consumes: lattice elements rendered as
//! text, and map keys in sorted order. Presentation sorts block identifiers
//! lexicographically and, within each block, variable names
//! lexicographically.

use vstd::prelude::*;
use vstd::relations::sorted_by;
use crate::df::State;
use crate::smap::StrMap;
use crate::text::{
    i64_text,
    spec_i64_text,
    spec_str_le,
    spec_str_lt,
    str_lt,
    lemma_str_lt_connected,
    lemma_str_lt_transitive,
};

verus! {

/// The printed form of a lattice element: `UNDEF`, the decimal integer of a
/// constant, or `NAC`.
pub open spec fn spec_state_text(s: State) -> Seq<char> {
    match s {
        State::Undef => "UNDEF"@,
        State::Const(v) => spec_i64_text(v),
        State::NAC => "NAC"@,
    }
}

impl State {
    /// Renders the lattice element for presentation.
    pub fn to_text(&self) -> (r: String)
        ensures
            r@ == spec_state_text(*self),
    {
        match self {
            State::Undef => "UNDEF".to_owned(),
            State::Const(v) => i64_text(*v),
            State::NAC => "NAC".to_owned(),
        }
    }
}

/// Non-strict lexicographic order is transitive.
proof fn lemma_str_le_transitive(a: Seq<char>, b: Seq<char>, c: Seq<char>)
    requires
        spec_str_le(a, b),
        spec_str_le(b, c),
    ensures
        spec_str_le(a, c),
{
    if spec_str_lt(c, a) {
        if spec_str_lt(b, c) {
            lemma_str_lt_transitive(b, c, a);
        } else {
            lemma_str_lt_connected(b, c);
        }
    }
}

/// Inserting an element into a sequence inserts it into the sequence's set.
proof fn lemma_mid_insert_to_set(s: Seq<Seq<char>>, x: Seq<char>, pos: int)
    requires
        0 <= pos <= s.len(),
    ensures
        s.insert(pos, x).to_set() == s.to_set().insert(x),
{
    s.insert_ensures(pos, x);
    let s1 = s.insert(pos, x);
    assert forall|y: Seq<char>| s1.to_set().contains(y) <==> s.to_set().insert(x).contains(y) by {
        if s1.contains(y) {
            let j = choose|j: int| 0 <= j < s1.len() && s1[j] == y;
            if j < pos {
                assert(s[j] == y);
            } else if j > pos {
                assert(s[j - 1] == y);
            }
        }
        if s.contains(y) {
            let j = choose|j: int| 0 <= j < s.len() && s[j] == y;
            if j < pos {
                assert(s1[j] == y);
            } else {
                assert(s1[j + 1] == y);
            }
        }
        if y == x {
            assert(s1[pos] == y);
        }
    }
    assert(s1.to_set() =~= s.to_set().insert(x));
}

/// The position at which a name belongs in a sorted list: the first entry
/// the name precedes, or the end.
fn insert_pos(out: &Vec<String>, k: &str) -> (pos: usize)
    ensures
        0 <= pos <= out@.len(),
        forall|j: int| 0 <= j < pos ==> spec_str_le(out.deep_view()[j], k@),
        pos < out@.len() ==> spec_str_lt(k@, out.deep_view()[pos as int]),
{
    let mut pos: usize = 0;
    while pos < out.len()
        invariant
            0 <= pos <= out@.len(),
            forall|j: int| 0 <= j < pos ==> spec_str_le(out.deep_view()[j], k@),
        decreases out@.len() - pos,
    {
        if str_lt(k, out[pos].as_str()) {
            return pos;
        }
        proof {
            assert(out.deep_view()[pos as int] == out@[pos as int]@);
        }
        pos = pos + 1;
    }
    pos
}

/// The keys of a map, sorted lexicographically: exactly the map's keys,
/// each exactly once, in non-decreasing order.
pub fn sorted_keys<V: DeepView>(m: &StrMap<V>) -> (r: Vec<String>)
    requires
        m.wf(),
    ensures
        sorted_by(r.deep_view(), (|a: Seq<char>, b: Seq<char>| spec_str_le(a, b))),
        r.deep_view().to_set() == m.key_seq().to_set(),
        r.deep_view().no_duplicates(),
        r.deep_view().len() == m.key_seq().len(),
{
    let n = m.len();
    let mut out: Vec<String> = Vec::new();
    let mut i: usize = 0;
    proof {
        assert(out.deep_view().to_set() =~= m.key_seq().take(0).to_set());
    }
    while i < n
        invariant
            0 <= i <= n,
            m.wf(),
            n == m.key_seq().len(),
            out.deep_view().len() == i,
            out.deep_view().no_duplicates(),
            out.deep_view().to_set() == m.key_seq().take(i as int).to_set(),
            forall|a: int, b: int|
                0 <= a < b < i ==> spec_str_le(
                    #[trigger] out.deep_view()[a],
                    #[trigger] out.deep_view()[b],
                ),
        decreases n - i,
    {
        let k = m.key_at(i).clone();
        proof {
            m.lemma_keys_distinct();
            assert(!m.key_seq().take(i as int).contains(k@)) by {
                if m.key_seq().take(i as int).contains(k@) {
                    let j = choose|j: int|
                        0 <= j < i && m.key_seq().take(i as int)[j] == k@;
                    assert(m.key_seq()[j] == m.key_seq()[i as int]);
                }
            }
            assert(!out.deep_view().contains(k@)) by {
                if out.deep_view().contains(k@) {
                    assert(out.deep_view().to_set().contains(k@));
                }
            }
        }
        let pos = insert_pos(&out, k.as_str());
        let ghost dv0 = out.deep_view();
        let ghost os0 = out@;
        out.insert(pos, k);
        proof {
            let dv1 = out.deep_view();
            os0.insert_ensures(pos as int, out@[pos as int]);
            dv0.insert_ensures(pos as int, k@);
            assert forall|x: int| 0 <= x < dv1.len() implies dv1[x] == dv0.insert(
                pos as int,
                k@,
            )[x] by {
                if x < pos {
                    assert(out@[x] == os0[x]);
                } else if x == pos {
                    assert(out@[x]@ == k@);
                } else {
                    assert(out@[x] == os0[x - 1]);
                }
            }
            assert(dv1 =~= dv0.insert(pos as int, k@));
            lemma_mid_insert_to_set(dv0, k@, pos as int);
            assert(m.key_seq().take(i + 1) =~= m.key_seq().take(i as int).push(
                m.key_seq()[i as int],
            ));
            crate::smap::lemma_push_to_set(m.key_seq().take(i as int), m.key_seq()[i as int]);
            assert(dv1.to_set() =~= m.key_seq().take(i + 1).to_set());
            // distinctness
            assert forall|a: int, b: int| 0 <= a < b < dv1.len() implies dv1[a] != dv1[b] by {
                if a != pos && b != pos {
                    let a0: int = if a < pos {
                        a
                    } else {
                        a - 1
                    };
                    let b0: int = if b < pos {
                        b
                    } else {
                        b - 1
                    };
                    assert(dv1[a] == dv0[a0] && dv1[b] == dv0[b0]);
                } else if a == pos {
                    assert(dv1[a] == k@ && dv1[b] == dv0[b - 1]);
                    if dv1[b] == k@ {
                        assert(dv0.contains(k@));
                    }
                } else {
                    assert(dv1[b] == k@ && dv1[a] == dv0[a]);
                    if dv1[a] == k@ {
                        assert(dv0.contains(k@));
                    }
                }
            }
            // sortedness
            assert forall|a: int, b: int| 0 <= a < b < dv1.len() implies spec_str_le(
                dv1[a],
                dv1[b],
            ) by {
                if a == pos {
                    // k precedes everything at or after pos.
                    assert(dv1[b] == dv0[b - 1]);
                    if b - 1 == pos {
                        assert(spec_str_lt(k@, dv0[pos as int]));
                        crate::text::lemma_str_lt_irreflexive(k@);
                        if spec_str_lt(dv0[pos as int], k@) {
                            lemma_str_lt_transitive(k@, dv0[pos as int], k@);
                        }
                    } else {
                        assert(spec_str_lt(k@, dv0[pos as int]));
                        assert(spec_str_le(dv0[pos as int], dv0[b - 1]));
                        if spec_str_lt(dv0[b - 1], k@) {
                            // then dv0[pos] <= dv0[b-1] < k < dv0[pos]
                            lemma_str_lt_transitive(dv0[b - 1], k@, dv0[pos as int]);
                            lemma_str_le_transitive(dv0[pos as int], dv0[b - 1], dv0[pos as int]);
                            crate::text::lemma_str_lt_irreflexive(dv0[pos as int]);
                        }
                    }
                } else if b == pos {
                    assert(dv1[a] == dv0[a]);
                    assert(spec_str_le(dv0[a], k@));
                } else {
                    let a0: int = if a < pos {
                        a
                    } else {
                        a - 1
                    };
                    let b0: int = if b < pos {
                        b
                    } else {
                        b - 1
                    };
                    assert(dv1[a] == dv0[a0] && dv1[b] == dv0[b0]);
                    if a0 == b0 {
                        assert(spec_str_le(dv0[a0], dv0[b0])) by {
                            crate::text::lemma_str_lt_irreflexive(dv0[a0]);
                        }
                    } else {
                        assert(spec_str_le(dv0[a0], dv0[b0]));
                    }
                }
            }
        }
        i = i + 1;
    }
    proof {
        assert(m.key_seq().take(n as int) =~= m.key_seq());
    }
    out
}

} // verus!
