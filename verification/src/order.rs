use vstd::prelude::*;
use crate::graph::names_of;

verus! {

/// `a` comes no later than `b` in the lexicographic order of byte strings.
pub open spec fn bytes_le(a: Seq<u8>, b: Seq<u8>) -> bool
    decreases a.len(),
{
    if a.len() == 0 {
        true
    } else if b.len() == 0 {
        false
    } else if a[0] != b[0] {
        a[0] < b[0]
    } else {
        bytes_le(a.drop_first(), b.drop_first())
    }
}

/// `a` comes no later than `b` in the order of Rust strings: lexicographic on
/// their UTF-8 bytes.
pub open spec fn name_le(a: Seq<char>, b: Seq<char>) -> bool {
    bytes_le(vstd::utf8::encode_utf8(a), vstd::utf8::encode_utf8(b))
}

/// The names of `s` are in non-decreasing order.
pub open spec fn names_sorted(s: Seq<Seq<char>>) -> bool {
    forall|i: int, j: int| 0 <= i < j < s.len() ==> name_le(#[trigger] s[i], #[trigger] s[j])
}

pub proof fn lemma_bytes_le_total(a: Seq<u8>, b: Seq<u8>)
    ensures
        bytes_le(a, b) || bytes_le(b, a),
    decreases a.len(),
{
    if a.len() > 0 && b.len() > 0 && a[0] == b[0] {
        lemma_bytes_le_total(a.drop_first(), b.drop_first());
    }
}

pub proof fn lemma_bytes_le_trans(a: Seq<u8>, b: Seq<u8>, c: Seq<u8>)
    requires
        bytes_le(a, b),
        bytes_le(b, c),
    ensures
        bytes_le(a, c),
    decreases a.len(),
{
    if a.len() > 0 && b.len() > 0 && c.len() > 0 && a[0] == b[0] && b[0] == c[0] {
        lemma_bytes_le_trans(a.drop_first(), b.drop_first(), c.drop_first());
    }
}

/// `bytes_le` is the lexicographic order of byte strings: `a` comes no later than `b`
/// exactly when `a` is a prefix of `b`, or at the first position where the two differ
/// `a` holds the smaller byte.
pub proof fn law_bytes_le_is_lexicographic(a: Seq<u8>, b: Seq<u8>)
    ensures
        bytes_le(a, b) <==> (a.len() <= b.len() && a == b.take(a.len() as int)) || exists|i: int|
            0 <= i < a.len() && i < b.len() && a.take(i) == b.take(i) && #[trigger] a[i] < b[i],
    decreases a.len(),
{
    if a.len() == 0 {
        assert(a =~= b.take(0));
    } else if b.len() == 0 {
    } else if a[0] != b[0] {
        if a[0] < b[0] {
            assert(a.take(0) =~= b.take(0));
            assert(a[0] < b[0]);
        }
        if exists|i: int|
            0 <= i < a.len() && i < b.len() && a.take(i) == b.take(i) && #[trigger] a[i] < b[i] {
            let i = choose|i: int|
                0 <= i < a.len() && i < b.len() && a.take(i) == b.take(i) && #[trigger] a[i] < b[i];
            if i > 0 {
                assert(a.take(i)[0] == b.take(i)[0]);
            }
        }
        if a.len() <= b.len() && a == b.take(a.len() as int) {
            assert(a[0] == b.take(a.len() as int)[0]);
        }
    } else {
        let a1 = a.drop_first();
        let b1 = b.drop_first();
        law_bytes_le_is_lexicographic(a1, b1);
        if a1.len() <= b1.len() && a1 == b1.take(a1.len() as int) {
            assert forall|t: int| 0 <= t < a.len() implies a[t] == b.take(a.len() as int)[t] by {
                if t > 0 {
                    assert(a1[t - 1] == b1.take(a1.len() as int)[t - 1]);
                }
            }
            assert(a =~= b.take(a.len() as int));
        }
        if a.len() <= b.len() && a == b.take(a.len() as int) {
            assert(a1 =~= b1.take(a1.len() as int));
        }
        if exists|i: int|
            0 <= i < a1.len() && i < b1.len() && a1.take(i) == b1.take(i) && #[trigger] a1[i]
                < b1[i] {
            let i = choose|i: int|
                0 <= i < a1.len() && i < b1.len() && a1.take(i) == b1.take(i) && #[trigger] a1[i]
                    < b1[i];
            assert(a.take(i + 1) =~= b.take(i + 1)) by {
                assert forall|t: int| 0 <= t < i + 1 implies a[t] == b[t] by {
                    if t > 0 {
                        assert(a1.take(i)[t - 1] == b1.take(i)[t - 1]);
                    }
                }
            }
            assert(a[i + 1] == a1[i] && b[i + 1] == b1[i]);
        }
        if exists|i: int|
            0 <= i < a.len() && i < b.len() && a.take(i) == b.take(i) && #[trigger] a[i] < b[i] {
            let i = choose|i: int|
                0 <= i < a.len() && i < b.len() && a.take(i) == b.take(i) && #[trigger] a[i] < b[i];
            assert(i > 0);
            assert(a1.take(i - 1) =~= b1.take(i - 1)) by {
                assert forall|t: int| 0 <= t < i - 1 implies a1[t] == b1[t] by {
                    assert(a.take(i)[t + 1] == b.take(i)[t + 1]);
                }
            }
            assert(a1[i - 1] == a[i] && b1[i - 1] == b[i]);
        }
    }
}

/// Two byte strings each of which comes no later than the other are equal.
pub proof fn law_bytes_le_antisymmetric(a: Seq<u8>, b: Seq<u8>)
    requires
        bytes_le(a, b),
        bytes_le(b, a),
    ensures
        a == b,
    decreases a.len(),
{
    if a.len() > 0 {
        law_bytes_le_antisymmetric(a.drop_first(), b.drop_first());
        assert(a =~= seq![a[0]] + a.drop_first());
        assert(b =~= seq![b[0]] + b.drop_first());
    } else {
        assert(b.len() == 0);
        assert(a =~= b);
    }
}

/// Two names each of which comes no later than the other in the order of Rust strings
/// are the same name: the order of names is a total order, so the sorted node list is
/// the one that `sort` gives.
pub proof fn law_name_le_antisymmetric(a: Seq<char>, b: Seq<char>)
    requires
        name_le(a, b),
        name_le(b, a),
    ensures
        a == b,
{
    law_bytes_le_antisymmetric(vstd::utf8::encode_utf8(a), vstd::utf8::encode_utf8(b));
    vstd::utf8::encode_utf8_decode_utf8(a);
    vstd::utf8::encode_utf8_decode_utf8(b);
}

fn bytes_le_exec(a: &[u8], b: &[u8]) -> (r: bool)
    ensures
        r == bytes_le(a@, b@),
{
    let mut i: usize = 0;
    assert(a@.skip(0) =~= a@);
    assert(b@.skip(0) =~= b@);
    while i < a.len() && i < b.len()
        invariant
            i <= a.len(),
            i <= b.len(),
            bytes_le(a@, b@) == bytes_le(a@.skip(i as int), b@.skip(i as int)),
        decreases a.len() - i,
    {
        assert(a@.skip(i as int)[0] == a@[i as int]);
        assert(b@.skip(i as int)[0] == b@[i as int]);
        if a[i] != b[i] {
            return a[i] < b[i];
        }
        assert(a@.skip(i as int).drop_first() =~= a@.skip(i + 1));
        assert(b@.skip(i as int).drop_first() =~= b@.skip(i + 1));
        i = i + 1;
    }
    i == a.len()
}

/// Whether `a` comes no later than `b` in the order of Rust strings.
pub fn name_le_exec(a: &String, b: &String) -> (r: bool)
    ensures
        r == name_le(a@, b@),
{
    let sa = a.as_str();
    let sb = b.as_str();
    bytes_le_exec(sa.as_bytes(), sb.as_bytes())
}

/// Returns the names of `names` in the order of Rust strings.
pub fn sorted_names(names: &Vec<String>) -> (r: Vec<String>)
    ensures
        names_of(r@).to_multiset() == names_of(names@).to_multiset(),
        names_sorted(names_of(r@)),
{
    broadcast use vstd::seq_lib::to_multiset_insert, vstd::seq_lib::to_multiset_build;

    let mut r: Vec<String> = Vec::new();
    let n = names.len();
    assert(names_of(r@) =~= Seq::<Seq<char>>::empty());
    assert(names_of(names@.take(0)) =~= Seq::<Seq<char>>::empty());
    for i in 0..n
        invariant
            n == names.len(),
            names_of(r@).to_multiset() == names_of(names@.take(i as int)).to_multiset(),
            names_sorted(names_of(r@)),
    {
        let x = names[i].clone();
        let ghost rs = names_of(r@);
        let mut p: usize = 0;
        while p < r.len() && name_le_exec(&r[p], &x)
            invariant
                p <= r.len(),
                rs == names_of(r@),
                forall|q: int| 0 <= q < p ==> name_le(#[trigger] rs[q], x@),
            decreases r.len() - p,
        {
            p = p + 1;
        }
        proof {
            if p < r.len() {
                lemma_bytes_le_total(
                    vstd::utf8::encode_utf8(rs[p as int]),
                    vstd::utf8::encode_utf8(x@),
                );
            }
        }
        r.insert(p, x);
        let ghost ns = names_of(r@);
        assert(ns =~= rs.insert(p as int, x@));
        assert forall|a: int, b: int| 0 <= a < b < ns.len() implies name_le(
            #[trigger] ns[a],
            #[trigger] ns[b],
        ) by {
            if b < p {
                assert(ns[a] == rs[a] && ns[b] == rs[b]);
            } else if b == p {
                assert(ns[a] == rs[a]);
            } else if a < p {
                assert(ns[a] == rs[a] && ns[b] == rs[b - 1]);
                assert(name_le(rs[a], x@));
                assert(name_le(x@, rs[p as int]));
                if (p as int) < b - 1 {
                    assert(name_le(rs[p as int], rs[b - 1]));
                    lemma_bytes_le_trans(
                        vstd::utf8::encode_utf8(x@),
                        vstd::utf8::encode_utf8(rs[p as int]),
                        vstd::utf8::encode_utf8(rs[b - 1]),
                    );
                }
                lemma_bytes_le_trans(
                    vstd::utf8::encode_utf8(rs[a]),
                    vstd::utf8::encode_utf8(x@),
                    vstd::utf8::encode_utf8(rs[b - 1]),
                );
            } else if a == p {
                assert(ns[b] == rs[b - 1]);
                if (p as int) < b - 1 {
                    assert(name_le(rs[p as int], rs[b - 1]));
                    lemma_bytes_le_trans(
                        vstd::utf8::encode_utf8(x@),
                        vstd::utf8::encode_utf8(rs[p as int]),
                        vstd::utf8::encode_utf8(rs[b - 1]),
                    );
                }
            } else {
                assert(ns[a] == rs[a - 1] && ns[b] == rs[b - 1]);
            }
        }
        assert(names_of(names@.take(i + 1)) =~= names_of(names@.take(i as int)).push(x@));
        proof {
            vstd::seq_lib::to_multiset_insert(rs, p as int, x@);
            vstd::seq_lib::to_multiset_build(names_of(names@.take(i as int)), x@);
        }
    }
    assert(names@.take(n as int) =~= names@);
    r
}

} // verus!
