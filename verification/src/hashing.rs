use vstd::prelude::*;

verus! {

/// A content identifier: the 32-byte output of the digest function applied to
/// an entity's canonical byte serialization. Equality is byte-exact.
pub type Hash = Vec<u8>;

/// The digest of a byte string. The concrete function is SHA-256, supplied by
/// an outside crate; the library states only that the result is a function of
/// the input bytes and is 32 bytes long.
pub uninterp spec fn digest_of(bytes: Seq<u8>) -> Seq<u8>;

/// Relies on crypto_hash::digest with Algorithm::SHA256: a 32-byte digest
/// determined by the input bytes alone.
#[verifier::external_body]
pub(crate) fn sha256_digest(bytes: &Vec<u8>) -> (r: Hash)
    ensures
        r@ == digest_of(bytes@),
        r@.len() == 32,
{
    crypto_hash::digest(crypto_hash::Algorithm::SHA256, bytes.as_slice())
}

/// The all-zero 32-byte sequence: the previous-block link of a genesis block.
pub open spec fn zero_hash() -> Seq<u8> {
    Seq::new(32, |i: int| 0u8)
}

/// Build the all-zero 32-byte sentinel hash.
pub fn make_zero_hash() -> (r: Hash)
    ensures
        r@ == zero_hash(),
{
    let mut v: Vec<u8> = Vec::new();
    while v.len() < 32
        invariant
            v@.len() <= 32,
            forall|i: int| 0 <= i < v@.len() ==> v@[i] == 0u8,
        decreases 32 - v.len(),
    {
        v.push(0u8);
    }
    proof {
        assert(v@ =~= zero_hash());
    }
    v
}

/// Byte-exact equality of two hashes.
pub fn hash_eq(a: &Hash, b: &Hash) -> (r: bool)
    ensures
        r == (a@ == b@),
{
    if a.len() != b.len() {
        return false;
    }
    let mut i: usize = 0;
    while i < a.len()
        invariant
            a@.len() == b@.len(),
            i <= a@.len(),
            forall|k: int| 0 <= k < i ==> a@[k] == b@[k],
        decreases a@.len() - i,
    {
        if a[i] != b[i] {
            return false;
        }
        i = i + 1;
    }
    proof {
        assert(a@ =~= b@);
    }
    true
}

/// The set of byte strings held by a sequence of hashes.
pub open spec fn hash_set_of(v: Seq<Hash>) -> Set<Seq<u8>> {
    Set::new(|x: Seq<u8>| exists|i: int| 0 <= i < v.len() && v[i]@ == x)
}

/// No two entries of the sequence hold the same bytes.
pub open spec fn distinct_views(v: Seq<Hash>) -> bool {
    forall|i: int, j: int| 0 <= i < j < v.len() ==> v[i]@ != v[j]@
}

/// Whether some entry of `v` equals `h`, byte for byte.
pub fn contains_hash(v: &Vec<Hash>, h: &Hash) -> (r: bool)
    ensures
        r == hash_set_of(v@).contains(h@),
{
    let mut i: usize = 0;
    while i < v.len()
        invariant
            i <= v@.len(),
            forall|k: int| 0 <= k < i ==> v@[k]@ != h@,
        decreases v@.len() - i,
    {
        if hash_eq(&v[i], h) {
            return true;
        }
        i = i + 1;
    }
    false
}

/// Whether every hash of `items` occurs in `within`.
pub fn all_in(items: &Vec<Hash>, within: &Vec<Hash>) -> (r: bool)
    ensures
        r == hash_set_of(items@).subset_of(hash_set_of(within@)),
{
    let mut i: usize = 0;
    while i < items.len()
        invariant
            i <= items@.len(),
            forall|k: int| 0 <= k < i ==> hash_set_of(within@).contains(#[trigger] items@[k]@),
        decreases items@.len() - i,
    {
        if !contains_hash(within, &items[i]) {
            assert(hash_set_of(items@).contains(items@[i as int]@));
            return false;
        }
        i = i + 1;
    }
    assert forall|x: Seq<u8>| hash_set_of(items@).contains(x) implies hash_set_of(
        within@,
    ).contains(x) by {
        let k = choose|k: int| 0 <= k < items@.len() && items@[k]@ == x;
        assert(hash_set_of(within@).contains(items@[k]@));
    }
    true
}

/// Whether no hash of `items` occurs in `within`.
pub fn none_in(items: &Vec<Hash>, within: &Vec<Hash>) -> (r: bool)
    ensures
        r == hash_set_of(items@).disjoint(hash_set_of(within@)),
{
    let mut i: usize = 0;
    while i < items.len()
        invariant
            i <= items@.len(),
            forall|k: int| 0 <= k < i ==> !hash_set_of(within@).contains(#[trigger] items@[k]@),
        decreases items@.len() - i,
    {
        if contains_hash(within, &items[i]) {
            assert(hash_set_of(items@).contains(items@[i as int]@));
            return false;
        }
        i = i + 1;
    }
    assert forall|x: Seq<u8>| hash_set_of(items@).contains(x) implies !hash_set_of(
        within@,
    ).contains(x) by {
        let k = choose|k: int| 0 <= k < items@.len() && items@[k]@ == x;
        assert(!hash_set_of(within@).contains(items@[k]@));
    }
    true
}

/// Appending a hash to a sequence adds exactly its bytes to the held set.
pub proof fn lemma_hash_set_push(v: Seq<Hash>, h: Hash)
    ensures
        hash_set_of(v.push(h)) == hash_set_of(v).insert(h@),
{
    assert forall|x: Seq<u8>| hash_set_of(v.push(h)).contains(x) implies hash_set_of(v).insert(
        h@,
    ).contains(x) by {
        let i = choose|i: int| 0 <= i < v.push(h).len() && v.push(h)[i]@ == x;
        if i < v.len() {
            assert(v[i]@ == x);
        }
    }
    assert forall|x: Seq<u8>| hash_set_of(v).insert(h@).contains(x) implies hash_set_of(
        v.push(h),
    ).contains(x) by {
        if x == h@ {
            assert(v.push(h)[v.len() as int]@ == x);
        } else {
            let i = choose|i: int| 0 <= i < v.len() && v[i]@ == x;
            assert(v.push(h)[i]@ == x);
        }
    }
    assert(hash_set_of(v.push(h)) =~= hash_set_of(v).insert(h@));
}

/// A one-longer prefix of a sequence holds one more entry's bytes.
pub proof fn lemma_hash_set_take(v: Seq<Hash>, i: int)
    requires
        0 <= i < v.len(),
    ensures
        hash_set_of(v.take(i + 1)) == hash_set_of(v.take(i)).insert(v[i]@),
{
    assert(v.take(i + 1) =~= v.take(i).push(v[i]));
    lemma_hash_set_push(v.take(i), v[i]);
}

/// Remove from `keep` every entry whose bytes occur in `remove`.
pub fn remove_all(keep: &mut Vec<Hash>, remove: &Vec<Hash>)
    ensures
        hash_set_of(final(keep)@) == hash_set_of(old(keep)@).difference(hash_set_of(remove@)),
        distinct_views(old(keep)@) ==> distinct_views(final(keep)@),
{
    let mut out: Vec<Hash> = Vec::new();
    let mut i: usize = 0;
    while i < keep.len()
        invariant
            i <= keep@.len(),
            forall|k: int|
                0 <= k < out@.len() ==> exists|m: int|
                    0 <= m < i && #[trigger] out@[k]@ == keep@[m]@,
            forall|m: int|
                0 <= m < i && !hash_set_of(remove@).contains(#[trigger] keep@[m]@)
                    ==> hash_set_of(out@).contains(keep@[m]@),
            forall|k: int|
                0 <= k < out@.len() ==> !hash_set_of(remove@).contains(#[trigger] out@[k]@),
            distinct_views(keep@) ==> distinct_views(out@),
        decreases keep@.len() - i,
    {
        if !contains_hash(remove, &keep[i]) {
            let ghost old_out = out@;
            let h = keep[i].clone();
            assert(h@ == keep@[i as int]@);
            out.push(h);
            proof {
                lemma_hash_set_push(old_out, h);
                if distinct_views(keep@) {
                    assert forall|a: int, b: int| 0 <= a < b < out@.len() implies out@[a]@
                        != out@[b]@ by {
                        if b == out@.len() - 1 {
                            let m = choose|m: int|
                                0 <= m < i && #[trigger] old_out[a]@ == keep@[m]@;
                            assert(keep@[m]@ != keep@[i as int]@);
                        }
                    }
                }
            }
        }
        i = i + 1;
    }
    proof {
        assert forall|x: Seq<u8>|
            hash_set_of(keep@).difference(hash_set_of(remove@)).contains(x) implies hash_set_of(
            out@,
        ).contains(x) by {
            let m = choose|m: int| 0 <= m < keep@.len() && keep@[m]@ == x;
            assert(hash_set_of(out@).contains(keep@[m]@));
        }
        assert forall|x: Seq<u8>| hash_set_of(out@).contains(x) implies hash_set_of(
            keep@,
        ).difference(hash_set_of(remove@)).contains(x) by {
            let k = choose|k: int| 0 <= k < out@.len() && out@[k]@ == x;
            let m = choose|m: int| 0 <= m < keep@.len() && out@[k]@ == keep@[m]@;
            assert(hash_set_of(keep@).contains(keep@[m]@));
            assert(!hash_set_of(remove@).contains(out@[k]@));
        }
        assert(hash_set_of(out@) =~= hash_set_of(keep@).difference(hash_set_of(remove@)));
    }
    *keep = out;
}

/// Append to `dst` each entry of `src` whose bytes it does not yet hold.
pub fn add_missing(dst: &mut Vec<Hash>, src: &Vec<Hash>)
    ensures
        hash_set_of(final(dst)@) == hash_set_of(old(dst)@).union(hash_set_of(src@)),
        distinct_views(old(dst)@) ==> distinct_views(final(dst)@),
{
    let mut i: usize = 0;
    while i < src.len()
        invariant
            i <= src@.len(),
            hash_set_of(dst@) == hash_set_of(old(dst)@).union(hash_set_of(src@.take(i as int))),
            distinct_views(old(dst)@) ==> distinct_views(dst@),
        decreases src@.len() - i,
    {
        let ghost pre = dst@;
        if !contains_hash(dst, &src[i]) {
            let h = src[i].clone();
            assert(h@ == src@[i as int]@);
            dst.push(h);
            proof {
                lemma_hash_set_push(pre, h);
                assert forall|a: int, b: int|
                    distinct_views(pre) && 0 <= a < b < dst@.len() implies dst@[a]@
                    != dst@[b]@ by {
                    if b == dst@.len() - 1 {
                        assert(hash_set_of(pre).contains(pre[a]@));
                    }
                }
            }
        } else {
            proof {
                assert(hash_set_of(pre).insert(src@[i as int]@) =~= hash_set_of(pre));
            }
        }
        proof {
            lemma_hash_set_take(src@, i as int);
            assert(hash_set_of(dst@) =~= hash_set_of(old(dst)@).union(
                hash_set_of(src@.take(i + 1)),
            ));
        }
        i = i + 1;
    }
    proof {
        assert(src@.take(src@.len() as int) =~= src@);
    }
}

} // verus!
