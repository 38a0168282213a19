//! Lexicographic order on byte strings, and a verified insertion sort.
//!
//! Package names, verbatim requirement sources and hash texts are all byte
//! strings; rendering sorts them with this order.

use vstd::prelude::*;
use vstd::string::StringSliceAdditionalSpecFns;

verus! {

/// `a` is less than or equal to `b` in byte-wise lexicographic order.
pub open spec fn lex_le(a: Seq<u8>, b: Seq<u8>) -> bool
    decreases a.len(),
{
    if a.len() == 0 {
        true
    } else if b.len() == 0 {
        false
    } else if a[0] < b[0] {
        true
    } else if a[0] > b[0] {
        false
    } else {
        lex_le(a.skip(1), b.skip(1))
    }
}

/// Strict lexicographic order.
pub open spec fn lex_lt(a: Seq<u8>, b: Seq<u8>) -> bool {
    lex_le(a, b) && a != b
}

/// The order is total: one of the two directions always holds.
pub proof fn lemma_lex_le_total(a: Seq<u8>, b: Seq<u8>)
    ensures
        lex_le(a, b) || lex_le(b, a),
    decreases a.len(),
{
    if a.len() == 0 || b.len() == 0 {
    } else if a[0] == b[0] {
        lemma_lex_le_total(a.skip(1), b.skip(1));
    }
}

/// The order is antisymmetric: both directions hold only on equal strings.
pub proof fn lemma_lex_le_antisymm(a: Seq<u8>, b: Seq<u8>)
    requires
        lex_le(a, b),
        lex_le(b, a),
    ensures
        a == b,
    decreases a.len(),
{
    if a.len() == 0 {
        assert(b.len() == 0);
        assert(a =~= b);
    } else {
        assert(b.len() > 0);
        assert(a[0] == b[0]);
        lemma_lex_le_antisymm(a.skip(1), b.skip(1));
        assert(a =~= seq![a[0]] + a.skip(1));
        assert(b =~= seq![b[0]] + b.skip(1));
    }
}

/// The order is transitive.
pub proof fn lemma_lex_le_trans(a: Seq<u8>, b: Seq<u8>, c: Seq<u8>)
    requires
        lex_le(a, b),
        lex_le(b, c),
    ensures
        lex_le(a, c),
    decreases a.len(),
{
    if a.len() == 0 || b.len() == 0 || c.len() == 0 {
    } else if a[0] == b[0] && b[0] == c[0] {
        lemma_lex_le_trans(a.skip(1), b.skip(1), c.skip(1));
    }
}

/// Equal prefixes of length `i` reduce the comparison to the suffixes.
proof fn lemma_lex_le_skip(a: Seq<u8>, b: Seq<u8>, i: int)
    requires
        0 <= i <= a.len(),
        i <= b.len(),
        forall|j: int| 0 <= j < i ==> a[j] == b[j],
    ensures
        lex_le(a, b) == lex_le(a.skip(i), b.skip(i)),
    decreases i,
{
    if i > 0 {
        assert(a.len() > 0 && b.len() > 0);
        assert(a[0] == b[0]);
        lemma_lex_le_skip(a.skip(1), b.skip(1), i - 1);
        assert(a.skip(1).skip(i - 1) =~= a.skip(i));
        assert(b.skip(1).skip(i - 1) =~= b.skip(i));
    } else {
        assert(a.skip(0) =~= a);
        assert(b.skip(0) =~= b);
    }
}

/// Decide `lex_le` on byte vectors.
pub fn bytes_le(a: &Vec<u8>, b: &Vec<u8>) -> (r: bool)
    ensures
        r == lex_le(a@, b@),
{
    let mut i: usize = 0;
    loop
        invariant
            i <= a.len(),
            i <= b.len(),
            forall|j: int| 0 <= j < i ==> a@[j] == b@[j],
        decreases a.len() - i,
    {
        proof {
            lemma_lex_le_skip(a@, b@, i as int);
        }
        if i == a.len() {
            proof {
                assert(a@.skip(i as int).len() == 0);
            }
            return true;
        }
        if i == b.len() {
            proof {
                assert(b@.skip(i as int).len() == 0);
                assert(a@.skip(i as int).len() > 0);
            }
            return false;
        }
        let x = a[i];
        let y = b[i];
        proof {
            assert(a@.skip(i as int)[0] == a@[i as int]);
            assert(b@.skip(i as int)[0] == b@[i as int]);
        }
        if x < y {
            return true;
        }
        if x > y {
            return false;
        }
        i = i + 1;
    }
}

/// Decide equality of byte vectors.
pub fn bytes_eq(a: &Vec<u8>, b: &Vec<u8>) -> (r: bool)
    ensures
        r == (a@ == b@),
{
    if a.len() != b.len() {
        return false;
    }
    let mut i: usize = 0;
    while i < a.len()
        invariant
            a.len() == b.len(),
            i <= a.len(),
            forall|j: int| 0 <= j < i ==> a@[j] == b@[j],
        decreases a.len() - i,
    {
        if a[i] != b[i] {
            return false;
        }
        i = i + 1;
    }
    proof {
        assert(a@ =~= b@);
    }
    true
}

/// The UTF-8 bytes of a string literal.
pub open spec fn lit_bytes(s: &str) -> Seq<u8> {
    s.spec_bytes()
}

/// Append the bytes of `s` to `out`.
pub fn push_bytes(out: &mut Vec<u8>, s: &Vec<u8>)
    ensures
        final(out)@ == old(out)@ + s@,
{
    let mut i: usize = 0;
    while i < s.len()
        invariant
            i <= s.len(),
            out@ == old(out)@ + s@.take(i as int),
        decreases s.len() - i,
    {
        out.push(s[i]);
        proof {
            assert(old(out)@ + s@.take(i + 1) =~= (old(out)@ + s@.take(i as int)).push(s@[i as int]));
        }
        i = i + 1;
    }
    proof {
        assert(s@.take(s@.len() as int) =~= s@);
    }
}

/// Append the bytes of a string literal to `out`.
pub fn push_lit(out: &mut Vec<u8>, s: &str)
    ensures
        final(out)@ == old(out)@ + lit_bytes(s),
{
    let bs = s.as_bytes();
    let mut i: usize = 0;
    while i < bs.len()
        invariant
            bs@ == lit_bytes(s),
            i <= bs.len(),
            out@ == old(out)@ + bs@.take(i as int),
        decreases bs.len() - i,
    {
        out.push(bs[i]);
        proof {
            assert(old(out)@ + bs@.take(i + 1) =~= (old(out)@ + bs@.take(i as int)).push(
                bs@[i as int],
            ));
        }
        i = i + 1;
    }
    proof {
        assert(bs@.take(bs@.len() as int) =~= bs@);
    }
}

/// A copy of a byte vector.
pub fn copy_bytes(v: &Vec<u8>) -> (r: Vec<u8>)
    ensures
        r@ == v@,
{
    let mut r: Vec<u8> = Vec::new();
    push_bytes(&mut r, v);
    proof {
        assert(Seq::<u8>::empty() + v@ =~= v@);
    }
    r
}

/// A copy of a list of byte vectors.
pub fn copy_bytes_list(v: &Vec<Vec<u8>>) -> (r: Vec<Vec<u8>>)
    ensures
        bytes_view(r@) == bytes_view(v@),
{
    let mut r: Vec<Vec<u8>> = Vec::new();
    let mut i: usize = 0;
    while i < v.len()
        invariant
            i <= v.len(),
            r@.len() == i,
            forall|j: int| 0 <= j < i ==> #[trigger] r@[j]@ == v@[j]@,
        decreases v.len() - i,
    {
        r.push(copy_bytes(&v[i]));
        i = i + 1;
    }
    proof {
        assert forall|j: int| 0 <= j < r@.len() implies #[trigger] bytes_view(r@)[j] == bytes_view(
            v@,
        )[j] by {
            assert(bytes_view(r@)[j] == r@[j]@);
            assert(bytes_view(v@)[j] == v@[j]@);
        }
        assert(bytes_view(r@) =~= bytes_view(v@));
    }
    r
}

/// The views of a sequence of byte vectors.
pub open spec fn bytes_view(l: Seq<Vec<u8>>) -> Seq<Seq<u8>> {
    l.map_values(|v: Vec<u8>| v@)
}

/// Whether some element of `l` holds the bytes `x`.
pub open spec fn contains_bytes(l: Seq<Seq<u8>>, x: Seq<u8>) -> bool {
    exists|i: int| 0 <= i < l.len() && l[i] == x
}

/// Decide whether `x` occurs in the list `l`.
pub fn list_contains(l: &Vec<Vec<u8>>, x: &Vec<u8>) -> (r: bool)
    ensures
        r == contains_bytes(bytes_view(l@), x@),
{
    let mut i: usize = 0;
    while i < l.len()
        invariant
            i <= l.len(),
            forall|j: int| 0 <= j < i ==> bytes_view(l@)[j] != x@,
        decreases l.len() - i,
    {
        if bytes_eq(&l[i], x) {
            assert(bytes_view(l@)[i as int] == x@);
            return true;
        }
        assert(bytes_view(l@)[i as int] == l@[i as int]@);
        i = i + 1;
    }
    false
}

/// Decide whether `x` occurs in the slice `l`.
pub fn slice_contains(l: &[Vec<u8>], x: &Vec<u8>) -> (r: bool)
    ensures
        r == contains_bytes(bytes_view(l@), x@),
{
    let mut i: usize = 0;
    while i < l.len()
        invariant
            i <= l.len(),
            forall|j: int| 0 <= j < i ==> bytes_view(l@)[j] != x@,
        decreases l.len() - i,
    {
        if bytes_eq(&l[i], x) {
            assert(bytes_view(l@)[i as int] == x@);
            return true;
        }
        assert(bytes_view(l@)[i as int] == l@[i as int]@);
        i = i + 1;
    }
    false
}

/// Insertion of `x` into a sorted sequence, before the first element it is
/// at most equal to.
pub open spec fn insert_sorted_bytes(s: Seq<Seq<u8>>, x: Seq<u8>) -> Seq<Seq<u8>>
    decreases s.len(),
{
    if s.len() == 0 {
        seq![x]
    } else if lex_le(x, s[0]) {
        seq![x] + s
    } else {
        seq![s[0]] + insert_sorted_bytes(s.skip(1), x)
    }
}

/// Insertion sort of a sequence of byte strings.
pub open spec fn sort_bytes_seq(s: Seq<Seq<u8>>) -> Seq<Seq<u8>>
    decreases s.len(),
{
    if s.len() == 0 {
        s
    } else {
        insert_sorted_bytes(sort_bytes_seq(s.drop_last()), s.last())
    }
}

/// When the first `j` elements are all strictly below `x` and the element at
/// `j`, if any, is not, insertion lands exactly at position `j`.
proof fn lemma_insert_sorted_at(s: Seq<Seq<u8>>, x: Seq<u8>, j: int)
    requires
        0 <= j <= s.len(),
        forall|k: int| 0 <= k < j ==> !lex_le(x, #[trigger] s[k]),
        j < s.len() ==> lex_le(x, s[j]),
    ensures
        insert_sorted_bytes(s, x) == s.take(j) + seq![x] + s.skip(j),
    decreases j,
{
    if j == 0 {
        if s.len() == 0 {
            assert(insert_sorted_bytes(s, x) =~= s.take(0) + seq![x] + s.skip(0));
        } else {
            assert(insert_sorted_bytes(s, x) =~= s.take(0) + seq![x] + s.skip(0));
        }
    } else {
        assert(!lex_le(x, s[0]));
        assert(forall|k: int| 0 <= k < j - 1 ==> !lex_le(x, #[trigger] s.skip(1)[k]));
        lemma_insert_sorted_at(s.skip(1), x, j - 1);
        assert(seq![s[0]] + (s.skip(1).take(j - 1) + seq![x] + s.skip(1).skip(j - 1)) =~= s.take(j)
            + seq![x] + s.skip(j));
    }
}

/// Insert a copy of `x` into the sorted vector `v`.
fn insert_sorted_exec(v: &mut Vec<Vec<u8>>, x: &Vec<u8>)
    ensures
        bytes_view(final(v)@) == insert_sorted_bytes(bytes_view(old(v)@), x@),
{
    let mut j: usize = 0;
    loop
        invariant
            j <= v.len(),
            v@ == old(v)@,
            forall|k: int| 0 <= k < j ==> !lex_le(x@, #[trigger] bytes_view(v@)[k]),
        ensures
            j <= v.len(),
            v@ == old(v)@,
            forall|k: int| 0 <= k < j ==> !lex_le(x@, #[trigger] bytes_view(v@)[k]),
            j < v.len() ==> lex_le(x@, bytes_view(v@)[j as int]),
        decreases v.len() - j,
    {
        if j == v.len() {
            break;
        }
        if bytes_le(x, &v[j]) {
            assert(lex_le(x@, bytes_view(v@)[j as int]));
            break;
        }
        assert(!lex_le(x@, bytes_view(v@)[j as int]));
        j = j + 1;
    }
    proof {
        lemma_insert_sorted_at(bytes_view(v@), x@, j as int);
    }
    let ghost before = v@;
    v.insert(j, copy_bytes(x));
    proof {
        assert(bytes_view(v@) =~= bytes_view(before).take(j as int) + seq![x@] + bytes_view(
            before,
        ).skip(j as int));
    }
}

/// Sort a list of byte strings, smallest first.
pub fn sort_bytes(v: &Vec<Vec<u8>>) -> (r: Vec<Vec<u8>>)
    ensures
        bytes_view(r@) == sort_bytes_seq(bytes_view(v@)),
{
    let mut r: Vec<Vec<u8>> = Vec::new();
    let mut i: usize = 0;
    while i < v.len()
        invariant
            i <= v.len(),
            bytes_view(r@) == sort_bytes_seq(bytes_view(v@).take(i as int)),
        decreases v.len() - i,
    {
        insert_sorted_exec(&mut r, &v[i]);
        proof {
            assert(bytes_view(v@).take(i + 1).drop_last() =~= bytes_view(v@).take(i as int));
            assert(bytes_view(v@).take(i + 1).last() == v@[i as int]@);
        }
        i = i + 1;
    }
    proof {
        assert(bytes_view(v@).take(v@.len() as int) =~= bytes_view(v@));
    }
    r
}


/// Sorted in the lexicographic order.
pub open spec fn lex_sorted(s: Seq<Seq<u8>>) -> bool {
    forall|i: int, j: int| 0 <= i < j < s.len() ==> lex_le(#[trigger] s[i], #[trigger] s[j])
}

/// Prepending an element inserts it into the multiset.
proof fn lemma_prepend_multiset(s: Seq<Seq<u8>>, x: Seq<u8>)
    ensures
        (seq![x] + s).to_multiset() == s.to_multiset().insert(x),
    decreases s.len(),
{
    broadcast use vstd::seq_lib::group_to_multiset_ensures;

    if s.len() == 0 {
        assert(seq![x] + s =~= Seq::<Seq<u8>>::empty().push(x));
        assert(s =~= Seq::<Seq<u8>>::empty());
    } else {
        lemma_prepend_multiset(s.drop_last(), x);
        assert(seq![x] + s =~= (seq![x] + s.drop_last()).push(s.last()));
        assert(s =~= s.drop_last().push(s.last()));
        assert(s.drop_last().to_multiset().insert(x).insert(s.last())
            =~= s.drop_last().to_multiset().insert(s.last()).insert(x));
    }
}

/// Insertion inserts into the multiset.
proof fn lemma_insert_sorted_bytes_multiset(s: Seq<Seq<u8>>, x: Seq<u8>)
    ensures
        insert_sorted_bytes(s, x).to_multiset() == s.to_multiset().insert(x),
    decreases s.len(),
{
    broadcast use vstd::seq_lib::group_to_multiset_ensures;

    if s.len() == 0 {
        assert(insert_sorted_bytes(s, x) =~= s.push(x));
    } else if lex_le(x, s[0]) {
        lemma_prepend_multiset(s, x);
    } else {
        lemma_insert_sorted_bytes_multiset(s.skip(1), x);
        lemma_prepend_multiset(s.skip(1), s[0]);
        lemma_prepend_multiset(insert_sorted_bytes(s.skip(1), x), s[0]);
        assert(s =~= seq![s[0]] + s.skip(1));
        assert(s.skip(1).to_multiset().insert(x).insert(s[0]) =~= s.skip(1).to_multiset().insert(
            s[0],
        ).insert(x));
    }
}

/// The insertion sort permutes: the sorted sequence holds exactly the
/// elements given.
pub proof fn lemma_sort_bytes_multiset(s: Seq<Seq<u8>>)
    ensures
        sort_bytes_seq(s).to_multiset() == s.to_multiset(),
    decreases s.len(),
{
    broadcast use vstd::seq_lib::group_to_multiset_ensures;

    if s.len() > 0 {
        lemma_sort_bytes_multiset(s.drop_last());
        lemma_insert_sorted_bytes_multiset(sort_bytes_seq(s.drop_last()), s.last());
        assert(s =~= s.drop_last().push(s.last()));
    }
}

/// Every element of an insertion is the inserted one or one of the
/// original elements.
proof fn lemma_insert_sorted_bytes_elements(s: Seq<Seq<u8>>, x: Seq<u8>)
    ensures
        insert_sorted_bytes(s, x).len() == s.len() + 1,
        forall|i: int|
            0 <= i < insert_sorted_bytes(s, x).len() ==> (#[trigger] insert_sorted_bytes(s, x)[i]
                == x || s.contains(insert_sorted_bytes(s, x)[i])),
    decreases s.len(),
{
    if s.len() > 0 && !lex_le(x, s[0]) {
        lemma_insert_sorted_bytes_elements(s.skip(1), x);
        let out = insert_sorted_bytes(s, x);
        assert forall|i: int| 0 <= i < out.len() implies (#[trigger] out[i] == x || s.contains(
            out[i],
        )) by {
            if i == 0 {
                assert(s[0] == out[0]);
            } else {
                assert(out[i] == insert_sorted_bytes(s.skip(1), x)[i - 1]);
                if out[i] != x {
                    assert(s.skip(1).contains(out[i]));
                    let k = choose|k: int| 0 <= k < s.skip(1).len() && s.skip(1)[k] == out[i];
                    assert(s[k + 1] == out[i]);
                }
            }
        }
    }
}

/// Inserting into a sorted sequence keeps it sorted.
proof fn lemma_insert_sorted_bytes_sorted(s: Seq<Seq<u8>>, x: Seq<u8>)
    requires
        lex_sorted(s),
    ensures
        lex_sorted(insert_sorted_bytes(s, x)),
    decreases s.len(),
{
    if s.len() == 0 {
    } else if lex_le(x, s[0]) {
        let out = seq![x] + s;
        assert forall|i: int, j: int|
            0 <= i < j < out.len() implies lex_le(#[trigger] out[i], #[trigger] out[j]) by {
            if i == 0 {
                assert(out[j] == s[j - 1]);
                if j > 1 {
                    lemma_lex_le_trans(x, s[0], s[j - 1]);
                }
            } else {
                assert(out[i] == s[i - 1] && out[j] == s[j - 1]);
            }
        }
    } else {
        assert(lex_sorted(s.skip(1))) by {
            assert(forall|i: int, j: int|
                0 <= i < j < s.skip(1).len() ==> #[trigger] s.skip(1)[i] == s[i + 1]
                    && #[trigger] s.skip(1)[j] == s[j + 1]);
        }
        lemma_insert_sorted_bytes_sorted(s.skip(1), x);
        lemma_insert_sorted_bytes_elements(s.skip(1), x);
        lemma_lex_le_total(x, s[0]);
        let sub = insert_sorted_bytes(s.skip(1), x);
        let out = seq![s[0]] + sub;
        assert forall|i: int, j: int|
            0 <= i < j < out.len() implies lex_le(#[trigger] out[i], #[trigger] out[j]) by {
            if i == 0 {
                assert(out[j] == sub[j - 1]);
                if sub[j - 1] == x {
                    assert(lex_le(s[0], x));
                } else {
                    assert(s.skip(1).contains(sub[j - 1]));
                    let k = choose|k: int| 0 <= k < s.skip(1).len() && s.skip(1)[k] == sub[j - 1];
                    assert(s[k + 1] == sub[j - 1]);
                    assert(lex_le(s[0], s[k + 1]));
                }
            } else {
                assert(out[i] == sub[i - 1] && out[j] == sub[j - 1]);
            }
        }
    }
}

/// The insertion sort sorts.
pub proof fn lemma_sort_bytes_sorted(s: Seq<Seq<u8>>)
    ensures
        lex_sorted(sort_bytes_seq(s)),
    decreases s.len(),
{
    if s.len() > 0 {
        lemma_sort_bytes_sorted(s.drop_last());
        lemma_insert_sorted_bytes_sorted(sort_bytes_seq(s.drop_last()), s.last());
    }
}

/// Two sorted sequences holding the same elements are the same sequence.
pub proof fn lemma_lex_sorted_unique(a: Seq<Seq<u8>>, b: Seq<Seq<u8>>)
    requires
        lex_sorted(a),
        lex_sorted(b),
        a.to_multiset() == b.to_multiset(),
    ensures
        a == b,
    decreases a.len(),
{
    broadcast use vstd::seq_lib::group_to_multiset_ensures;

    if a.len() == 0 {
        assert(b.to_multiset().len() == 0);
        assert(a =~= b);
    } else {
        assert(a.to_multiset().len() == a.len());
        assert(b.to_multiset().len() == b.len());
        assert(b.len() > 0);
        assert(a.contains(a[0]));
        assert(a.to_multiset().count(a[0]) > 0);
        assert(b.to_multiset().count(a[0]) > 0);
        assert(b.contains(a[0]));
        let i = choose|i: int| 0 <= i < b.len() && b[i] == a[0];
        assert(lex_le(b[0], a[0])) by {
            if i > 0 {
                assert(lex_le(b[0], b[i]));
            } else {
                lemma_lex_le_total(b[0], b[0]);
            }
        }
        assert(a.contains(b[0])) by {
            assert(b.contains(b[0]));
            assert(a.to_multiset().count(b[0]) > 0);
        }
        let j = choose|j: int| 0 <= j < a.len() && a[j] == b[0];
        assert(lex_le(a[0], b[0])) by {
            if j > 0 {
                assert(lex_le(a[0], a[j]));
            } else {
                lemma_lex_le_total(a[0], a[0]);
            }
        }
        lemma_lex_le_antisymm(a[0], b[0]);
        assert(a.remove(0).to_multiset() =~= a.to_multiset().remove(a[0]));
        assert(b.remove(0).to_multiset() =~= b.to_multiset().remove(b[0]));
        assert(a.remove(0) =~= a.skip(1));
        assert(b.remove(0) =~= b.skip(1));
        assert(lex_sorted(a.skip(1))) by {
            assert(forall|k: int, l: int|
                0 <= k < l < a.skip(1).len() ==> #[trigger] a.skip(1)[k] == a[k + 1]
                    && #[trigger] a.skip(1)[l] == a[l + 1]);
        }
        assert(lex_sorted(b.skip(1))) by {
            assert(forall|k: int, l: int|
                0 <= k < l < b.skip(1).len() ==> #[trigger] b.skip(1)[k] == b[k + 1]
                    && #[trigger] b.skip(1)[l] == b[l + 1]);
        }
        lemma_lex_sorted_unique(a.skip(1), b.skip(1));
        assert(a =~= seq![a[0]] + a.skip(1));
        assert(b =~= seq![b[0]] + b.skip(1));
    }
}

} // verus!
