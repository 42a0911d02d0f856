//! Private set intersection from the Pool OPRF.
//!
//! Two parties each hold a set. The client learns which of its elements the
//! server also holds; the server learns nothing about those elements, and not
//! even how many matched. The server masks its own set with the plaintext PRF
//! (it holds the key); the client evaluates its set through the OPRF and
//! compares.
use vstd::prelude::*;
use crate::online::MAX_BATCH_EVALUATIONS;
use crate::params::OUTPUT_ELEMENTS;
use crate::prf::{evaluate, prf, PrfOutput, SecretKey};
use crate::server::OprfServer;
use std::collections::HashSet;

verus! {

/// A masked set element: `F_sk(tag, y)` as bytes.
pub type MaskedElement = [u8; OUTPUT_ELEMENTS];

/// Largest client set a session accepts.
pub const MAX_CLIENT_SET: usize = 65536;

/// Largest server set a session sends.
pub const MAX_SERVER_SET: usize = 1048576;

/// What the server sends: its tag and its masked set.
pub struct MaskedServerSet {
    /// The public tag every element was evaluated under. The server chooses
    /// it.
    pub tag: Vec<u8>,
    /// `F_sk(tag, y)` for each `y`, sorted and deduplicated.
    pub elements: Vec<MaskedElement>,
}

/// `256^n`.
pub open spec fn pow256(n: nat) -> nat
    decreases n,
{
    if n == 0 {
        1
    } else {
        256 * pow256((n - 1) as nat)
    }
}

/// The bytes read as a big-endian number. On byte strings of one length,
/// the order of these numbers is the lexicographic order of the strings.
pub open spec fn be_value(s: Seq<u8>) -> nat
    decreases s.len(),
{
    if s.len() == 0 {
        0
    } else {
        be_value(s.drop_last()) * 256 + s.last() as nat
    }
}

proof fn lemma_pow256_mono(i: nat, j: nat)
    requires
        i <= j,
    ensures
        pow256(i) <= pow256(j),
    decreases j,
{
    if i < j {
        lemma_pow256_mono(i, (j - 1) as nat);
    }
}

proof fn lemma_be_value_bound(s: Seq<u8>)
    ensures
        be_value(s) < pow256(s.len()),
    decreases s.len(),
{
    if s.len() > 0 {
        lemma_be_value_bound(s.drop_last());
    }
}

/// Two byte strings of one length with the same big-endian value are equal.
pub proof fn lemma_be_value_injective(a: Seq<u8>, b: Seq<u8>)
    requires
        a.len() == b.len(),
        be_value(a) == be_value(b),
    ensures
        a == b,
    decreases a.len(),
{
    if a.len() > 0 {
        lemma_be_value_injective(a.drop_last(), b.drop_last());
        assert(a =~= a.drop_last().push(a.last()));
        assert(b =~= b.drop_last().push(b.last()));
    }
}

/// `a` comes before `b` in lexicographic order: at the first place they
/// differ, `a`'s byte is the smaller.
pub open spec fn lex_lt(a: Seq<u8>, b: Seq<u8>) -> bool {
    exists|i: int|
        0 <= i < a.len() && i < b.len() && a.subrange(0, i) == b.subrange(0, i) && #[trigger] a[i]
            < b[i]
}

/// On byte strings of one length, ordering by big-endian value is ordering
/// lexicographically, the order of byte arrays.
pub proof fn lemma_be_order_is_lexicographic(a: Seq<u8>, b: Seq<u8>)
    requires
        a.len() == b.len(),
    ensures
        be_value(a) < be_value(b) <==> lex_lt(a, b),
    decreases a.len(),
{
    if a.len() == 0 {
        return;
    }
    let a1 = a.drop_last();
    let b1 = b.drop_last();
    let n = a1.len() as int;
    lemma_be_order_is_lexicographic(a1, b1);
    lemma_be_order_is_lexicographic(b1, a1);
    assert(be_value(a) == be_value(a1) * 256 + a.last());
    assert(be_value(b) == be_value(b1) * 256 + b.last());
    if be_value(a1) < be_value(b1) {
        let i = choose|i: int|
            0 <= i < a1.len() && i < b1.len() && a1.subrange(0, i) == b1.subrange(0, i) && #[trigger] a1[i]
                < b1[i];
        assert(a.subrange(0, i) =~= a1.subrange(0, i));
        assert(b.subrange(0, i) =~= b1.subrange(0, i));
        assert(a[i] < b[i]);
        assert(lex_lt(a, b));
    } else if be_value(b1) < be_value(a1) {
        let i = choose|i: int|
            0 <= i < b1.len() && i < a1.len() && b1.subrange(0, i) == a1.subrange(0, i) && #[trigger] b1[i]
                < a1[i];
        assert(be_value(b) < be_value(a));
        assert(a.subrange(0, i) =~= a1.subrange(0, i));
        assert(b.subrange(0, i) =~= b1.subrange(0, i));
        if lex_lt(a, b) {
            let j = choose|j: int|
                0 <= j < a.len() && j < b.len() && a.subrange(0, j) == b.subrange(0, j) && #[trigger] a[j]
                    < b[j];
            if j < i {
                assert(b.subrange(0, i)[j] == a.subrange(0, i)[j]);
            } else if j > i {
                assert(a.subrange(0, j)[i] == b.subrange(0, j)[i]);
            }
        }
    } else {
        lemma_be_value_injective(a1, b1);
        if a.last() < b.last() {
            assert(a.subrange(0, n) =~= a1);
            assert(b.subrange(0, n) =~= b1);
            assert(a[n] < b[n]);
            assert(lex_lt(a, b));
        } else if lex_lt(a, b) {
            let j = choose|j: int|
                0 <= j < a.len() && j < b.len() && a.subrange(0, j) == b.subrange(0, j) && #[trigger] a[j]
                    < b[j];
            if j < n {
                assert(a[j] == a1[j]);
                assert(b[j] == b1[j]);
            }
        }
    }
}

/// The big-endian value of a masked element, as the key it is ordered and
/// found by.
fn be_key(e: &MaskedElement) -> (r: u128)
    ensures
        r == be_value(e@),
{
    let mut acc: u128 = 0;
    let mut i: usize = 0;
    proof {
        reveal_with_fuel(pow256, 17);
        assert(pow256(16) == 0x1_0000_0000_0000_0000_0000_0000_0000_0000);
    }
    while i < OUTPUT_ELEMENTS
        invariant
            i <= OUTPUT_ELEMENTS,
            acc == be_value(e@.subrange(0, i as int)),
            pow256(16) == 0x1_0000_0000_0000_0000_0000_0000_0000_0000,
        decreases OUTPUT_ELEMENTS - i,
    {
        let ghost pre = e@.subrange(0, i as int);
        let ghost next = e@.subrange(0, i as int + 1);
        proof {
            assert(next.drop_last() =~= pre);
            lemma_be_value_bound(pre);
            lemma_pow256_mono(i as nat + 1, 16);
            assert(acc * 256 + 255 < pow256(i as nat + 1));
        }
        acc = acc * 256 + e[i] as u128;
        i = i + 1;
    }
    assert(e@.subrange(0, 16) =~= e@);
    acc
}

/// The masks `F_sk(tag, y)` of the elements `y` of `set`.
pub open spec fn masks_of(sk: Seq<u8>, tag: Seq<u8>, set: Seq<Seq<u8>>) -> Set<Seq<u8>> {
    Set::new(|m: Seq<u8>| exists|k: int| 0 <= k < set.len() && m == prf(sk, tag, set[k]))
}

/// `r` is the masked set of `set` under `sk` and `tag`: its elements are in
/// strictly increasing order (so none repeats), each is the mask of some
/// element of `set`, and each element of `set` has its mask in `r`.
pub open spec fn is_masked_set(
    r: Seq<MaskedElement>,
    sk: Seq<u8>,
    tag: Seq<u8>,
    set: Seq<Seq<u8>>,
) -> bool {
    &&& forall|i: int, j: int|
        0 <= i < j < r.len() ==> be_value(#[trigger] r[i]@) < be_value(#[trigger] r[j]@)
    &&& forall|i: int| 0 <= i < r.len() ==> masks_of(sk, tag, set).contains(#[trigger] r[i]@)
    &&& forall|k: int| 0 <= k < set.len() ==> has_mask_of(r, sk, tag, #[trigger] set[k])
}

/// The mask `F_sk(tag, y)` is among `r`.
pub open spec fn has_mask_of(r: Seq<MaskedElement>, sk: Seq<u8>, tag: Seq<u8>, y: Seq<u8>) -> bool {
    exists|i: int| 0 <= i < r.len() && #[trigger] r[i]@ == prf(sk, tag, y)
}

/// Two masked elements with one big-endian value are the same element.
proof fn lemma_same_value_same_element(x: MaskedElement, y: MaskedElement)
    requires
        be_value(x@) == be_value(y@),
    ensures
        x == y,
{
    lemma_be_value_injective(x@, y@);
    assert(x@ =~= y@);
}

/// Two strictly ascending sequences holding the same elements are equal.
pub proof fn lemma_ascending_unique(a: Seq<MaskedElement>, b: Seq<MaskedElement>)
    requires
        forall|i: int, j: int|
            0 <= i < j < a.len() ==> be_value(#[trigger] a[i]@) < be_value(#[trigger] a[j]@),
        forall|i: int, j: int|
            0 <= i < j < b.len() ==> be_value(#[trigger] b[i]@) < be_value(#[trigger] b[j]@),
        forall|i: int| 0 <= i < a.len() ==> b.contains(#[trigger] a[i]),
        forall|j: int| 0 <= j < b.len() ==> a.contains(#[trigger] b[j]),
    ensures
        a == b,
    decreases a.len() + b.len(),
{
    if a.len() == 0 {
        if b.len() > 0 {
            assert(a.contains(b[0]));
        }
        assert(a =~= b);
        return;
    }
    if b.len() == 0 {
        assert(b.contains(a[0]));
        return;
    }
    assert(b.contains(a[0]));
    assert(a.contains(b[0]));
    let j0 = choose|j: int| 0 <= j < b.len() && b[j] == a[0];
    let i0 = choose|i: int| 0 <= i < a.len() && a[i] == b[0];
    assert(be_value(a[0]@) <= be_value(a[i0]@)) by {
        if i0 > 0 {
            assert(be_value(a[0]@) < be_value(a[i0]@));
        }
    }
    assert(be_value(b[0]@) <= be_value(b[j0]@)) by {
        if j0 > 0 {
            assert(be_value(b[0]@) < be_value(b[j0]@));
        }
    }
    lemma_same_value_same_element(a[0], b[0]);
    let a1 = a.drop_first();
    let b1 = b.drop_first();
    assert forall|i: int| 0 <= i < a1.len() implies b1.contains(#[trigger] a1[i]) by {
        assert(a1[i] == a[i + 1]);
        assert(b.contains(a[i + 1]));
        let j = choose|j: int| 0 <= j < b.len() && b[j] == a[i + 1];
        assert(be_value(a[0]@) < be_value(a[i + 1]@));
        assert(j != 0);
        assert(b1[j - 1] == b[j]);
    }
    assert forall|j: int| 0 <= j < b1.len() implies a1.contains(#[trigger] b1[j]) by {
        assert(b1[j] == b[j + 1]);
        assert(a.contains(b[j + 1]));
        let i = choose|i: int| 0 <= i < a.len() && a[i] == b[j + 1];
        assert(be_value(b[0]@) < be_value(b[j + 1]@));
        assert(i != 0);
        assert(a1[i - 1] == a[i]);
    }
    assert forall|i: int, j: int| 0 <= i < j < a1.len() implies be_value(#[trigger] a1[i]@)
        < be_value(#[trigger] a1[j]@) by {
        assert(a1[i] == a[i + 1] && a1[j] == a[j + 1]);
    }
    assert forall|i: int, j: int| 0 <= i < j < b1.len() implies be_value(#[trigger] b1[i]@)
        < be_value(#[trigger] b1[j]@) by {
        assert(b1[i] == b[i + 1] && b1[j] == b[j + 1]);
    }
    lemma_ascending_unique(a1, b1);
    assert(a =~= seq![a[0]] + a1);
    assert(b =~= seq![b[0]] + b1);
}

/// A set has one masked set: two sequences that are each the masked set of
/// `set` under `sk` and `tag` are equal.
pub proof fn lemma_masked_set_unique(
    r1: Seq<MaskedElement>,
    r2: Seq<MaskedElement>,
    sk: Seq<u8>,
    tag: Seq<u8>,
    set: Seq<Seq<u8>>,
)
    requires
        is_masked_set(r1, sk, tag, set),
        is_masked_set(r2, sk, tag, set),
    ensures
        r1 == r2,
{
    assert forall|i: int| 0 <= i < r1.len() implies r2.contains(#[trigger] r1[i]) by {
        assert(masks_of(sk, tag, set).contains(r1[i]@));
        let k = choose|k: int| 0 <= k < set.len() && r1[i]@ == prf(sk, tag, set[k]);
        assert(has_mask_of(r2, sk, tag, set[k]));
        let j = choose|j: int| 0 <= j < r2.len() && #[trigger] r2[j]@ == prf(sk, tag, set[k]);
        assert(r2[j]@ =~= r1[i]@);
        assert(r2[j] == r1[i]);
    }
    assert forall|j: int| 0 <= j < r2.len() implies r1.contains(#[trigger] r2[j]) by {
        assert(masks_of(sk, tag, set).contains(r2[j]@));
        let k = choose|k: int| 0 <= k < set.len() && r2[j]@ == prf(sk, tag, set[k]);
        assert(has_mask_of(r1, sk, tag, set[k]));
        let i = choose|i: int| 0 <= i < r1.len() && #[trigger] r1[i]@ == prf(sk, tag, set[k]);
        assert(r1[i]@ =~= r2[j]@);
        assert(r1[i] == r2[j]);
    }
    lemma_ascending_unique(r1, r2);
}

/// The masked set of `set` under `sk` and `tag`: the one sequence that is
/// strictly ascending and holds exactly the masks of `set`.
pub open spec fn masked_set_of(sk: Seq<u8>, tag: Seq<u8>, set: Seq<Seq<u8>>) -> Seq<MaskedElement> {
    choose|r: Seq<MaskedElement>| is_masked_set(r, sk, tag, set)
}

/// Sorts with std's `slice::sort_unstable`. As std documents it, the result
/// holds the same pairs, as a multiset, in ascending tuple order, so the first
/// components ascend; which of two equal pairs comes first is not stated.
#[verifier::external_body]
fn sort_keyed(v: &mut Vec<(u128, usize)>)
    ensures
        final(v)@.to_multiset() == old(v)@.to_multiset(),
        forall|i: int, j: int| 0 <= i < j < final(v)@.len() ==> final(v)@[i].0 <= final(v)@[j].0,
{
    v.sort_unstable();
}

/// Each pair is the key of a masked element and that element's index.
spec fn keyed(keys: Seq<(u128, usize)>, masked: Seq<MaskedElement>) -> bool {
    forall|j: int|
        0 <= j < keys.len() ==> {
            let x = #[trigger] keys[j];
            &&& x.1 < masked.len()
            &&& x.0 == be_value(masked[x.1 as int]@)
        }
}

/// The elements in strictly increasing order of their big-endian values.
pub open spec fn strictly_ascending(r: Seq<MaskedElement>) -> bool {
    forall|i: int, j: int|
        0 <= i < j < r.len() ==> be_value(#[trigger] r[i]@) < be_value(#[trigger] r[j]@)
}

/// The elements that `keys` point at, in the order of the keys.
fn gather(masked: &Vec<MaskedElement>, keys: &Vec<(u128, usize)>) -> (r: Vec<MaskedElement>)
    requires
        keyed(keys@, masked@),
    ensures
        r@.len() == keys@.len(),
        forall|j: int| 0 <= j < keys@.len() ==> #[trigger] r@[j] == masked@[keys@[j].1 as int],
{
    let mut r: Vec<MaskedElement> = Vec::new();
    let mut j: usize = 0;
    while j < keys.len()
        invariant
            keyed(keys@, masked@),
            j <= keys@.len(),
            r@.len() == j,
            forall|i: int| 0 <= i < j ==> #[trigger] r@[i] == masked@[keys@[i].1 as int],
        decreases keys@.len() - j,
    {
        assert(keys@[j as int] == keys@[j as int]);
        r.push(masked[keys[j].1]);
        j = j + 1;
    }
    r
}

/// The elements of `v`, whose big-endian values ascend, once each.
fn dedup_ascending(v: &Vec<MaskedElement>) -> (out: Vec<MaskedElement>)
    requires
        forall|a: int, b: int| 0 <= a < b < v@.len() ==> be_value(v@[a]@) <= be_value(v@[b]@),
    ensures
        strictly_ascending(out@),
        forall|a: int| 0 <= a < out@.len() ==> v@.contains(#[trigger] out@[a]),
        forall|j: int| 0 <= j < v@.len() ==> out@.contains(#[trigger] v@[j]),
{
    let mut out: Vec<MaskedElement> = Vec::new();
    let mut last: u128 = 0;
    let mut i: usize = 0;
    while i < v.len()
        invariant
            forall|a: int, b: int| 0 <= a < b < v@.len() ==> be_value(v@[a]@) <= be_value(v@[b]@),
            i <= v@.len(),
            (out@.len() == 0) == (i == 0),
            i > 0 ==> out@.last() == v@[i - 1],
            i > 0 ==> last == be_value(out@.last()@),
            strictly_ascending(out@),
            forall|a: int| 0 <= a < out@.len() ==> v@.contains(#[trigger] out@[a]),
            forall|j: int| 0 <= j < i ==> out@.contains(#[trigger] v@[j]),
        decreases v@.len() - i,
    {
        let e = v[i];
        let key = be_key(&e);
        if i == 0 || key != last {
            proof {
                if i > 0 {
                    assert(be_value(v@[i - 1]@) <= be_value(v@[i as int]@));
                    assert forall|a: int| 0 <= a < out@.len() implies be_value(
                        #[trigger] out@[a]@,
                    ) < be_value(e@) by {
                        if a < out@.len() - 1 {
                            assert(be_value(out@[a]@) < be_value(out@[out@.len() - 1]@));
                        }
                    }
                }
            }
            let ghost old_out = out@;
            out.push(e);
            last = key;
            proof {
                assert(out@[out@.len() - 1] == e);
                assert forall|a: int| 0 <= a < out@.len() implies v@.contains(#[trigger] out@[a]) by {
                    if a == out@.len() - 1 {
                        assert(v@[i as int] == out@[a]);
                    }
                }
                assert forall|j: int| 0 <= j < i + 1 implies out@.contains(#[trigger] v@[j]) by {
                    if j == i {
                        assert(out@[out@.len() - 1] == v@[j]);
                    } else {
                        assert(old_out.contains(v@[j]));
                        let a = choose|a: int| 0 <= a < old_out.len() && old_out[a] == v@[j];
                        assert(out@[a] == v@[j]);
                    }
                }
            }
        } else {
            proof {
                let lst = out@[out@.len() - 1];
                lemma_be_value_injective(lst@, e@);
                assert(lst@ =~= e@);
                assert(lst == e);
                assert forall|j: int| 0 <= j < i + 1 implies out@.contains(#[trigger] v@[j]) by {
                    if j == i {
                        assert(out@[out@.len() - 1] == v@[j]);
                    }
                }
            }
        }
        i = i + 1;
    }
    out
}

/// The masked elements in strictly increasing order, each once: the same
/// elements, sorted and with repeats dropped.
pub fn sort_and_dedup(masked: Vec<MaskedElement>) -> (r: Vec<MaskedElement>)
    ensures
        strictly_ascending(r@),
        forall|a: int| 0 <= a < r@.len() ==> masked@.contains(#[trigger] r@[a]),
        forall|j: int| 0 <= j < masked@.len() ==> r@.contains(#[trigger] masked@[j]),
{
    broadcast use vstd::seq_lib::group_to_multiset_ensures;

    let n = masked.len();
    let mut keys: Vec<(u128, usize)> = Vec::new();
    let mut k: usize = 0;
    while k < n
        invariant
            n == masked@.len(),
            k <= n,
            keys@.len() == k,
            forall|t: int|
                0 <= t < k ==> (#[trigger] keys@[t]).0 == be_value(masked@[t]@) && keys@[t].1 == t,
        decreases n - k,
    {
        let key = be_key(&masked[k]);
        keys.push((key, k));
        k = k + 1;
    }
    let ghost before = keys@;
    sort_keyed(&mut keys);
    let ghost s = keys@;
    assert forall|j: int| 0 <= j < s.len() implies ({
        let x = #[trigger] s[j];
        &&& x.1 < masked@.len()
        &&& x.0 == be_value(masked@[x.1 as int]@)
    }) by {
        assert(s.to_multiset().count(s[j]) > 0);
        assert(before.contains(s[j]));
    }
    assert forall|t: int| 0 <= t < n implies s.contains(#[trigger] before[t]) by {
        assert(before.to_multiset().count(before[t]) > 0);
    }
    let sorted = gather(&masked, &keys);
    assert forall|a: int, b: int| 0 <= a < b < sorted@.len() implies be_value(sorted@[a]@)
        <= be_value(sorted@[b]@) by {
        assert(s[a].0 <= s[b].0);
        assert(sorted@[a] == masked@[s[a].1 as int]);
        assert(sorted@[b] == masked@[s[b].1 as int]);
    }
    let out = dedup_ascending(&sorted);
    proof {
        assert forall|a: int| 0 <= a < out@.len() implies masked@.contains(#[trigger] out@[a]) by {
            assert(sorted@.contains(out@[a]));
            let j = choose|j: int| 0 <= j < sorted@.len() && sorted@[j] == out@[a];
            let t = s[j].1 as int;
            assert(sorted@[j] == masked@[t]);
        }
        assert forall|t: int| 0 <= t < masked@.len() implies out@.contains(#[trigger] masked@[t]) by {
            assert(before[t] == (be_value(masked@[t]@) as u128, t as usize));
            assert(s.contains(before[t]));
            let j = choose|j: int| 0 <= j < s.len() && s[j] == before[t];
            assert(sorted@[j] == masked@[t]);
            assert(out@.contains(sorted@[j]));
        }
    }
    out
}

/// Mask the server's set: `F_sk(tag, y)` for each `y`.
///
/// Sorted and deduplicated. Sorting the masked results leaks less.
pub fn mask_server_set(sk: &SecretKey, tag: &[u8], set: &[&[u8]]) -> (r: Vec<MaskedElement>)
    ensures
        is_masked_set(r@, sk@, tag@, set@.map_values(|y: &[u8]| y@)),
        r@ == masked_set_of(sk@, tag@, set@.map_values(|y: &[u8]| y@)),
        forall|i: int, j: int| 0 <= i < j < r@.len() ==> lex_lt(#[trigger] r@[i]@, #[trigger] r@[j]@),
{
    let ghost set_v = set@.map_values(|y: &[u8]| y@);
    let n = set.len();
    let mut masked: Vec<MaskedElement> = Vec::new();
    let mut k: usize = 0;
    while k < n
        invariant
            n == set@.len(),
            set_v == set@.map_values(|y: &[u8]| y@),
            k <= n,
            masked@.len() == k,
            forall|t: int| 0 <= t < k ==> #[trigger] masked@[t]@ == prf(sk@, tag@, set_v[t]),
        decreases n - k,
    {
        let out: PrfOutput = evaluate(sk, tag, set[k]);
        let e: MaskedElement = *out.elements();
        masked.push(e);
        k = k + 1;
    }
    let ghost m = masked@;
    let out = sort_and_dedup(masked);
    proof {
        assert forall|a: int| 0 <= a < out@.len() implies masks_of(sk@, tag@, set_v).contains(
            #[trigger] out@[a]@,
        ) by {
            assert(m.contains(out@[a]));
            let t = choose|t: int| 0 <= t < m.len() && m[t] == out@[a];
            assert(out@[a]@ == prf(sk@, tag@, set_v[t]));
        }
        assert forall|t: int| 0 <= t < set_v.len() implies has_mask_of(
            out@,
            sk@,
            tag@,
            #[trigger] set_v[t],
        ) by {
            assert(out@.contains(m[t]));
            let a = choose|a: int| 0 <= a < out@.len() && out@[a] == m[t];
            assert(out@[a]@ == prf(sk@, tag@, set_v[t]));
        }
        assert forall|i: int, j: int| 0 <= i < j < out@.len() implies lex_lt(
            #[trigger] out@[i]@,
            #[trigger] out@[j]@,
        ) by {
            lemma_be_order_is_lexicographic(out@[i]@, out@[j]@);
        }
        assert(is_masked_set(out@, sk@, tag@, set_v));
        lemma_masked_set_unique(out@, masked_set_of(sk@, tag@, set_v), sk@, tag@, set_v);
    }
    out
}

/// `x` is one of the server's masked elements.
pub open spec fn in_server(server: Seq<MaskedElement>, x: Seq<u8>) -> bool {
    exists|j: int| 0 <= j < server.len() && #[trigger] server[j]@ == x
}

/// Indices into `outputs` whose element is in the server's set.
///
/// `outputs` are the client's OPRF results in the order of its own set, so
/// the indices returned index that set too. They come in increasing order,
/// and each index whose output the server holds is among them.
pub fn intersect(outputs: &[PrfOutput], server: &[MaskedElement]) -> (r: Vec<usize>)
    ensures
        forall|a: int, b: int| 0 <= a < b < r@.len() ==> r@[a] < r@[b],
        forall|a: int|
            0 <= a < r@.len() ==> #[trigger] r@[a] < outputs@.len() && in_server(
                server@,
                outputs@[r@[a] as int]@,
            ),
        forall|i: int|
            0 <= i < outputs@.len() && in_server(server@, #[trigger] outputs@[i]@) ==> r@.contains(
                i as usize,
            ),
{
    broadcast use vstd::std_specs::hash::group_hash_axioms;

    let mut haystack: HashSet<u128> = HashSet::new();
    let mut j: usize = 0;
    while j < server.len()
        invariant
            j <= server@.len(),
            forall|x: u128|
                #[trigger] haystack@.contains(x) <==> exists|t: int|
                    0 <= t < j && x == be_value(#[trigger] server@[t]@),
        decreases server@.len() - j,
    {
        let key = be_key(&server[j]);
        haystack.insert(key);
        proof {
            assert forall|x: u128| #[trigger] haystack@.contains(x) <==> exists|t: int|
                0 <= t < j + 1 && x == be_value(#[trigger] server@[t]@) by {
                if x == key {
                    assert(key == be_value(server@[j as int]@));
                }
            }
        }
        j = j + 1;
    }
    let mut r: Vec<usize> = Vec::new();
    let mut i: usize = 0;
    while i < outputs.len()
        invariant
            i <= outputs@.len(),
            forall|x: u128|
                #[trigger] haystack@.contains(x) <==> exists|t: int|
                    0 <= t < server@.len() && x == be_value(#[trigger] server@[t]@),
            forall|a: int| 0 <= a < r@.len() ==> #[trigger] r@[a] < i,
            forall|a: int, b: int| 0 <= a < b < r@.len() ==> r@[a] < r@[b],
            forall|a: int|
                0 <= a < r@.len() ==> #[trigger] r@[a] < outputs@.len() && in_server(
                    server@,
                    outputs@[r@[a] as int]@,
                ),
            forall|k: int|
                0 <= k < i && in_server(server@, #[trigger] outputs@[k]@) ==> r@.contains(
                    k as usize,
                ),
        decreases outputs@.len() - i,
    {
        let out = outputs[i].elements();
        let key = be_key(out);
        let found = haystack.contains(&key);
        proof {
            let x = outputs@[i as int]@;
            if found {
                let t = choose|t: int| 0 <= t < server@.len() && key == be_value(#[trigger] server@[t]@);
                lemma_be_value_injective(server@[t]@, out@);
                assert(server@[t]@ == x);
            }
            if in_server(server@, x) {
                let t = choose|t: int| 0 <= t < server@.len() && #[trigger] server@[t]@ == x;
                assert(haystack@.contains(key));
            }
        }
        let ghost old_r = r@;
        if found {
            r.push(i);
        }
        proof {
            assert forall|k: int|
                0 <= k < i + 1 && in_server(server@, #[trigger] outputs@[k]@) implies r@.contains(
                k as usize,
            ) by {
                if k == i {
                    assert(r@[r@.len() - 1] == i);
                } else {
                    assert(old_r.contains(k as usize));
                    let a = choose|a: int| 0 <= a < old_r.len() && old_r[a] == k as usize;
                    assert(r@[a] == k as usize);
                }
            }
        }
        i = i + 1;
    }
    r
}

/// What a client learns of one of its elements: its OPRF output is among a
/// server's masked set exactly when some element of the server's set has the
/// same mask; so every element the two sets share is found.
pub proof fn lemma_intersection_membership(
    masked: Seq<MaskedElement>,
    sk: Seq<u8>,
    tag: Seq<u8>,
    server_set: Seq<Seq<u8>>,
    x: Seq<u8>,
)
    requires
        is_masked_set(masked, sk, tag, server_set),
    ensures
        in_server(masked, prf(sk, tag, x)) <==> exists|k: int|
            0 <= k < server_set.len() && prf(sk, tag, #[trigger] server_set[k]) == prf(sk, tag, x),
        (exists|k: int| 0 <= k < server_set.len() && #[trigger] server_set[k] == x) ==> in_server(
            masked,
            prf(sk, tag, x),
        ),
{
    if in_server(masked, prf(sk, tag, x)) {
        let j = choose|j: int| 0 <= j < masked.len() && #[trigger] masked[j]@ == prf(sk, tag, x);
        assert(masks_of(sk, tag, server_set).contains(masked[j]@));
    }
    if exists|k: int|
        0 <= k < server_set.len() && prf(sk, tag, #[trigger] server_set[k]) == prf(sk, tag, x) {
        let k = choose|k: int|
            0 <= k < server_set.len() && prf(sk, tag, #[trigger] server_set[k]) == prf(sk, tag, x);
        assert(has_mask_of(masked, sk, tag, server_set[k]));
    }
    if exists|k: int| 0 <= k < server_set.len() && #[trigger] server_set[k] == x {
        let k = choose|k: int| 0 <= k < server_set.len() && #[trigger] server_set[k] == x;
        assert(has_mask_of(masked, sk, tag, server_set[k]));
    }
}

/// Round trips the online phase will take for a set of `set_size`, one per
/// batch: `ceil(set_size / MAX_BATCH_EVALUATIONS)`.
pub fn chunks_for(set_size: usize) -> (r: usize)
    ensures
        r == (set_size + MAX_BATCH_EVALUATIONS - 1) / (MAX_BATCH_EVALUATIONS as int),
{
    let whole = set_size / MAX_BATCH_EVALUATIONS;
    if set_size % MAX_BATCH_EVALUATIONS == 0 {
        whole
    } else {
        whole + 1
    }
}

/// The PSI server: the party that holds the key and does not learn the
/// intersection.
///
/// The server's own set never goes through an OT: it holds `sk`, so it masks
/// its set with the plaintext PRF and sends the result. Masking does not
/// depend on the client, so a server with many clients masks once per tag.
#[derive(Clone)]
pub struct PsiServer {
    oprf: OprfServer,
}

impl PsiServer {
    pub fn new(sk: SecretKey) -> (r: Self)
        ensures
            r.key_view() == sk@,
    {
        PsiServer { oprf: OprfServer::new(sk) }
    }

    /// The key's bits.
    pub closed spec fn key_view(&self) -> Seq<u8> {
        self.oprf.key_view()
    }

    /// Mask `set` under `tag` with this server's key, ready to hand to every
    /// session it opens.
    pub fn mask(&self, tag: &[u8], set: &[&[u8]]) -> (r: Vec<MaskedElement>)
        ensures
            is_masked_set(r@, self.key_view(), tag@, set@.map_values(|y: &[u8]| y@)),
            r@ == masked_set_of(self.key_view(), tag@, set@.map_values(|y: &[u8]| y@)),
            forall|i: int, j: int|
                0 <= i < j < r@.len() ==> lex_lt(#[trigger] r@[i]@, #[trigger] r@[j]@),
    {
        mask_server_set(self.oprf.key(), tag, set)
    }

    /// The key this server masks and evaluates under.
    pub fn key(&self) -> (r: &SecretKey)
        ensures
            r@ == self.key_view(),
    {
        self.oprf.key()
    }

    /// The server this one evaluates through.
    pub fn oprf(&self) -> (r: &OprfServer)
        ensures
            r.key_view() == self.key_view(),
    {
        &self.oprf
    }
}

/// Why a PSI run refused to go on, as far as the protocol itself decides it.
#[derive(Debug, Clone, Copy, PartialEq, Eq)]
pub enum PsiError {
    /// The peer closed the stream unexpectedly.
    UnexpectedClose,
    /// The client set must have at least one element.
    EmptyClientSet,
    /// The client set has `len` elements, the maximum is `max`.
    ClientSetTooLarge { len: usize, max: usize },
    /// The server set has `len` elements, the maximum is `max`.
    ServerSetTooLarge { len: usize, max: usize },
    /// This session was prepared for `expected` elements, got `got`.
    SetSizeMismatch { expected: usize, got: usize },
    /// The peer sent a malformed message.
    Malformed(&'static str),
}

/// The client's check before it announces a set size: at least one element
/// and at most [`MAX_CLIENT_SET`].
pub fn check_client_set_size(set_size: usize) -> (r: Result<(), PsiError>)
    ensures
        set_size == 0 ==> r == Err::<(), PsiError>(PsiError::EmptyClientSet),
        set_size > MAX_CLIENT_SET ==> r == Err::<(), PsiError>(
            PsiError::ClientSetTooLarge { len: set_size, max: MAX_CLIENT_SET },
        ),
        0 < set_size <= MAX_CLIENT_SET ==> r is Ok,
{
    if set_size == 0 {
        return Err(PsiError::EmptyClientSet);
    }
    if set_size > MAX_CLIENT_SET {
        return Err(PsiError::ClientSetTooLarge { len: set_size, max: MAX_CLIENT_SET });
    }
    Ok(())
}

/// The server's reading of the set size a client announced: the size as a
/// `usize`, or why it is refused (zero, or over [`MAX_CLIENT_SET`]).
pub fn check_announced_set_size(announced: u64) -> (r: Result<usize, PsiError>)
    ensures
        announced == 0 ==> r == Err::<usize, PsiError>(
            PsiError::Malformed("client announced an empty set"),
        ),
        announced > usize::MAX ==> r == Err::<usize, PsiError>(
            PsiError::Malformed("client set size does not fit in a usize"),
        ),
        announced > MAX_CLIENT_SET && announced <= usize::MAX ==> r == Err::<usize, PsiError>(
            PsiError::ClientSetTooLarge { len: announced as usize, max: MAX_CLIENT_SET },
        ),
        0 < announced <= MAX_CLIENT_SET ==> r == Ok::<usize, PsiError>(announced as usize),
{
    if announced > usize::MAX as u64 {
        return Err(PsiError::Malformed("client set size does not fit in a usize"));
    }
    let set_size = announced as usize;
    if set_size == 0 {
        return Err(PsiError::Malformed("client announced an empty set"));
    }
    if set_size > MAX_CLIENT_SET {
        return Err(PsiError::ClientSetTooLarge { len: set_size, max: MAX_CLIENT_SET });
    }
    Ok(set_size)
}

/// The client's check that the set it evaluates has the size it announced.
pub fn check_set_len(expected: usize, got: usize) -> (r: Result<(), PsiError>)
    ensures
        expected == got ==> r is Ok,
        expected != got ==> r == Err::<(), PsiError>(PsiError::SetSizeMismatch { expected, got }),
{
    if expected != got {
        return Err(PsiError::SetSizeMismatch { expected, got });
    }
    Ok(())
}

/// The check on a masked server set, by both sides: at most
/// [`MAX_SERVER_SET`] elements.
pub fn check_server_set_len(len: usize) -> (r: Result<(), PsiError>)
    ensures
        len <= MAX_SERVER_SET ==> r is Ok,
        len > MAX_SERVER_SET ==> r == Err::<(), PsiError>(
            PsiError::ServerSetTooLarge { len, max: MAX_SERVER_SET },
        ),
{
    if len > MAX_SERVER_SET {
        return Err(PsiError::ServerSetTooLarge { len, max: MAX_SERVER_SET });
    }
    Ok(())
}

} // verus!
