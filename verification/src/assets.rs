//! The list of assets whose prices are fetched: every asset the snapshots
//! hold, and Bitcoin, in the order of their names.

use vstd::prelude::*;
use vstd::multiset::Multiset;
use vstd::utf8::encode_utf8;
use crate::text::texts;

verus! {

broadcast use vstd::seq_lib::group_to_multiset_ensures;

/// `a` comes no later than `b` in byte-wise lexicographic order, the order
/// of `str`.
pub open spec fn bytes_le(a: Seq<u8>, b: Seq<u8>) -> bool
    decreases a.len(),
{
    if a.len() == 0 {
        true
    } else if b.len() == 0 {
        false
    } else if a[0] < b[0] {
        true
    } else if a[0] > b[0] {
        false
    } else {
        bytes_le(a.drop_first(), b.drop_first())
    }
}

/// `a` comes no later than `b` as Rust orders strings: by their UTF-8 bytes.
pub open spec fn text_le(a: Seq<char>, b: Seq<char>) -> bool {
    bytes_le(encode_utf8(a), encode_utf8(b))
}

/// The texts are in order.
pub open spec fn sorted_texts(s: Seq<Seq<char>>) -> bool {
    forall|i: int, j: int| 0 <= i < j < s.len() ==> text_le(#[trigger] s[i], #[trigger] s[j])
}

/// The byte-wise order is total.
pub proof fn lemma_bytes_le_total(a: Seq<u8>, b: Seq<u8>)
    ensures
        bytes_le(a, b) || bytes_le(b, a),
    decreases a.len(),
{
    if a.len() > 0 && b.len() > 0 && a[0] == b[0] {
        lemma_bytes_le_total(a.drop_first(), b.drop_first());
    }
}

/// The byte-wise order is transitive.
pub proof fn lemma_bytes_le_transitive(a: Seq<u8>, b: Seq<u8>, c: Seq<u8>)
    requires
        bytes_le(a, b),
        bytes_le(b, c),
    ensures
        bytes_le(a, c),
    decreases a.len(),
{
    if a.len() > 0 && b.len() > 0 && c.len() > 0 && a[0] == b[0] && b[0] == c[0] {
        lemma_bytes_le_transitive(a.drop_first(), b.drop_first(), c.drop_first());
    }
}

/// Compares two strings as Rust orders them.
pub fn text_le_exec(a: &String, b: &String) -> (le: bool)
    ensures
        le == text_le(a@, b@),
{
    let x = a.as_str().as_bytes();
    let y = b.as_str().as_bytes();
    let mut i: usize = 0;
    assert(x@.skip(0) =~= x@ && y@.skip(0) =~= y@);
    while i < x.len() && i < y.len()
        invariant
            i <= x@.len(),
            i <= y@.len(),
            x@ == encode_utf8(a@),
            y@ == encode_utf8(b@),
            bytes_le(x@, y@) == bytes_le(x@.skip(i as int), y@.skip(i as int)),
        decreases x@.len() - i,
    {
        assert(x@.skip(i as int)[0] == x@[i as int]);
        assert(y@.skip(i as int)[0] == y@[i as int]);
        if x[i] < y[i] {
            return true;
        }
        if x[i] > y[i] {
            return false;
        }
        assert(x@.skip(i as int).drop_first() =~= x@.skip(i + 1));
        assert(y@.skip(i as int).drop_first() =~= y@.skip(i + 1));
        i = i + 1;
    }
    if i == x.len() {
        assert(x@.skip(i as int).len() == 0);
        true
    } else {
        assert(y@.skip(i as int).len() == 0);
        assert(x@.skip(i as int).len() > 0);
        false
    }
}

/// The name under which Bitcoin is listed.
pub open spec fn bitcoin() -> Seq<char> {
    "BTC"@
}

/// The assets to fetch prices of, given those found in the snapshots: the
/// same names, with Bitcoin added when absent.
pub open spec fn assets_with_bitcoin(found: Seq<Seq<char>>) -> Multiset<Seq<char>> {
    if found.contains(bitcoin()) {
        found.to_multiset()
    } else {
        found.to_multiset().insert(bitcoin())
    }
}

fn contains_text(v: &Vec<String>, x: &String) -> (found: bool)
    ensures
        found == texts(v@).contains(x@),
{
    let n = v.len();
    for i in 0..n
        invariant
            n == v@.len(),
            forall|j: int| 0 <= j < i ==> v@[j]@ != x@,
    {
        if v[i] == *x {
            assert(texts(v@)[i as int] == x@);
            return true;
        }
    }
    assert forall|j: int| 0 <= j < texts(v@).len() implies texts(v@)[j] != x@ by {
        assert(texts(v@)[j] == v@[j]@);
    }
    false
}

/// Puts `item` into the sorted `sorted` at its place.
fn insert_sorted(sorted: &mut Vec<String>, item: String)
    requires
        sorted_texts(texts(old(sorted)@)),
    ensures
        sorted_texts(texts(final(sorted)@)),
        texts(final(sorted)@).to_multiset() == texts(old(sorted)@).to_multiset().insert(item@),
{
    let n = sorted.len();
    let mut p: usize = 0;
    while p < n && text_le_exec(&sorted[p], &item)
        invariant
            n == sorted@.len(),
            p <= n,
            forall|k: int| 0 <= k < p ==> text_le(#[trigger] sorted@[k]@, item@),
        decreases n - p,
    {
        p = p + 1;
    }
    let ghost before = sorted@;
    assert(p < n ==> !text_le(before[p as int]@, item@));
    sorted.insert(p, item);
    let ghost after = sorted@;
    assert(texts(after) =~= texts(before).insert(p as int, item@));
    assert(texts(before).insert(p as int, item@).to_multiset() =~= texts(before).to_multiset().insert(item@)) by {
        let s = texts(before);
        assert(s.insert(p as int, item@) =~= s.subrange(0, p as int).push(item@) + s.subrange(p as int, s.len() as int));
        vstd::seq_lib::lemma_multiset_commutative(s.subrange(0, p as int).push(item@), s.subrange(p as int, s.len() as int));
        vstd::seq_lib::lemma_multiset_commutative(s.subrange(0, p as int), s.subrange(p as int, s.len() as int));
        assert(s =~= s.subrange(0, p as int) + s.subrange(p as int, s.len() as int));
    }
    assert forall|i: int, j: int| 0 <= i < j < texts(after).len() implies text_le(
        #[trigger] texts(after)[i],
        #[trigger] texts(after)[j],
    ) by {
        let x = encode_utf8(item@);
        if p < n {
            lemma_bytes_le_total(encode_utf8(before[p as int]@), x);
        }
        if j < p {
            assert(texts(before)[i] == texts(after)[i] && texts(before)[j] == texts(after)[j]);
        } else if j == p {
            assert(texts(after)[i] == before[i]@);
        } else if i == p {
            assert(texts(after)[j] == before[j - 1]@);
            if j - 1 > p {
                assert(text_le(texts(before)[p as int], texts(before)[j - 1]));
                lemma_bytes_le_transitive(
                    x,
                    encode_utf8(before[p as int]@),
                    encode_utf8(before[j - 1]@),
                );
            }
        } else if i < p {
            assert(texts(after)[i] == before[i]@);
            assert(texts(after)[j] == before[j - 1]@);
            assert(texts(before)[i] == before[i]@ && texts(before)[j - 1] == before[j - 1]@);
        } else {
            assert(texts(after)[i] == before[i - 1]@);
            assert(texts(after)[j] == before[j - 1]@);
            assert(texts(before)[i - 1] == before[i - 1]@ && texts(before)[j - 1] == before[j - 1]@);
        }
    }
}

/// The assets to fetch prices of, from the distinct asset names found in the
/// stored snapshots: Bitcoin is added when it is not among them, and the
/// names are put in order.
pub fn possessed_assets(found: Vec<String>) -> (assets: Vec<String>)
    ensures
        sorted_texts(texts(assets@)),
        texts(assets@).to_multiset() == assets_with_bitcoin(texts(found@)),
{
    let ghost original = texts(found@);
    let mut found = found;
    let bitcoin_asset = String::from_str("BTC");
    if !contains_text(&found, &bitcoin_asset) {
        let ghost before = texts(found@);
        found.push(bitcoin_asset);
        assert(texts(found@) =~= before.push(bitcoin()));
    }
    let ghost all = texts(found@);
    assert(all.to_multiset() == assets_with_bitcoin(original));
    let mut assets: Vec<String> = Vec::new();
    let n = found.len();
    for i in 0..n
        invariant
            n == found@.len(),
            all == texts(found@),
            sorted_texts(texts(assets@)),
            texts(assets@).to_multiset() == all.take(i as int).to_multiset(),
    {
        assert(all.take(i + 1) =~= all.take(i as int).push(found@[i as int]@));
        insert_sorted(&mut assets, found[i].clone());
    }
    assert(all.take(n as int) =~= all);
    assets
}


/// Bitcoin is always among the assets whose prices are fetched.
pub proof fn lemma_bitcoin_always_listed(found: Seq<Seq<char>>)
    ensures
        assets_with_bitcoin(found).count(bitcoin()) > 0,
{
}


/// Bitcoin is added only when it is absent: the list keeps every asset found
/// as often as it was found, and Bitcoin as often as it was found but at
/// least once, so distinct names stay distinct.
pub proof fn lemma_bitcoin_added_only_when_absent(found: Seq<Seq<char>>)
    ensures
        assets_with_bitcoin(found).count(bitcoin()) == if found.to_multiset().count(bitcoin())
            > 0 {
            found.to_multiset().count(bitcoin())
        } else {
            1
        },
        forall|x: Seq<char>|
            x != bitcoin() ==> #[trigger] assets_with_bitcoin(found).count(x)
                == found.to_multiset().count(x),
        found.contains(bitcoin()) ==> assets_with_bitcoin(found) == found.to_multiset(),
{
}

} // verus!
