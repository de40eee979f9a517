use std::collections::hash_map::DefaultHasher;
use std::hash::Hasher;
use vstd::prelude::*;
use vstd::std_specs::hash::DefaultHasherAdditionalSpecFns;
use vstd::string::StringSliceAdditionalSpecFns;
use crate::text::{blob_entries, blob_slice, offsets_wf};

verus! {

/// The 64-bit hash of a name: std's `DefaultHasher` (SipHash under fixed
/// keys, so the same in every process) fed the name's UTF-8 bytes and then
/// the byte `0xff`, as `str`'s `Hash` impl feeds it.
pub open spec fn name_hash_spec(name: Seq<char>) -> u64 {
    DefaultHasher::spec_finish(seq![vstd::utf8::encode_utf8(name), seq![0xffu8]])
}

/// Hashes a name with a fixed-key hasher, so that a hash index built ahead
/// of time agrees with the lookups made later.
pub fn name_hash(str_: &str) -> (r: u64)
    ensures
        r == name_hash_spec(str_@),
{
    let mut hasher = DefaultHasher::new();
    hasher.write(str_.as_bytes());
    let end: [u8; 1] = [0xffu8];
    hasher.write(&end);
    let r = hasher.finish();
    proof {
        assert(end@ =~= seq![0xffu8]);
        assert(hasher@ =~= seq![str_.spec_bytes(), seq![0xffu8]]);
    }
    r
}

/// Some pair of a hash index points at local index `j`.
pub open spec fn hash_covers(pairs: Seq<(u64, usize)>, j: int) -> bool {
    exists|k: int| 0 <= k < pairs.len() && pairs[k].1 == j
}

/// A hash index for `names` is either empty (hashing disabled), or holds
/// one `(hash, local index)` pair per name, each with that name's hash,
/// in strictly increasing order of hash, so that no two names collide.
pub open spec fn hash_index_ok(pairs: Seq<(u64, usize)>, names: Seq<Seq<char>>) -> bool {
    pairs.len() == 0 || {
        &&& pairs.len() == names.len()
        &&& forall|k: int|
            0 <= k < pairs.len() ==> (#[trigger] pairs[k]).1 < names.len() && pairs[k].0
                == name_hash_spec(names[pairs[k].1 as int])
        &&& forall|j: int| 0 <= j < names.len() ==> #[trigger] hash_covers(pairs, j)
        &&& forall|k: int, l: int| 0 <= k < l < pairs.len() ==> pairs[k].0 < pairs[l].0
    }
}

/// In a well-formed hash index, the pair that carries a name's hash is the
/// one that points at that name.
pub proof fn lemma_hash_slot(pairs: Seq<(u64, usize)>, names: Seq<Seq<char>>, i: int, k: int)
    requires
        pairs.len() != 0,
        hash_index_ok(pairs, names),
        0 <= i < names.len(),
        0 <= k < pairs.len(),
        pairs[k].0 == name_hash_spec(names[i]),
    ensures
        pairs[k].1 == i,
{
    assert(hash_covers(pairs, i));
    let l = choose|l: int| 0 <= l < pairs.len() && pairs[l].1 == i;
    assert(pairs[l].0 == name_hash_spec(names[i]));
    if l < k {
        assert(pairs[l].0 < pairs[k].0);
    } else if k < l {
        assert(pairs[k].0 < pairs[l].0);
    }
}

/// Whether `pairs` is a well-formed hash index for the names that
/// `offsets` cut out of `blob`.
pub(crate) fn check_hash_index(pairs: &[(u64, usize)], blob: &str, offsets: &[usize]) -> (r: bool)
    requires
        offsets_wf(blob.spec_bytes(), offsets@),
    ensures
        r == hash_index_ok(pairs@, blob_entries(blob.spec_bytes(), offsets@)),
{
    let ghost names = blob_entries(blob.spec_bytes(), offsets@);
    let n = offsets.len() - 1;
    let m = pairs.len();
    if m == 0 {
        return true;
    }
    if m != n {
        return false;
    }
    let mut seen: Vec<bool> = Vec::new();
    while seen.len() < n
        invariant
            seen@.len() <= n,
            forall|j: int| 0 <= j < seen@.len() ==> !seen@[j],
        decreases n - seen@.len(),
    {
        seen.push(false);
    }
    let mut k: usize = 0;
    while k < m
        invariant
            offsets_wf(blob.spec_bytes(), offsets@),
            names == blob_entries(blob.spec_bytes(), offsets@),
            n == names.len(),
            m == pairs@.len(),
            m == n,
            k <= m,
            seen@.len() == n,
            forall|q: int|
                0 <= q < k ==> (#[trigger] pairs@[q]).1 < n && pairs@[q].0 == name_hash_spec(
                    names[pairs@[q].1 as int],
                ),
            forall|a: int, b: int| 0 <= a < b < k ==> pairs@[a].0 < pairs@[b].0,
            forall|j: int|
                0 <= j < n ==> (seen@[j] <==> exists|q: int| 0 <= q < k && pairs@[q].1 == j),
        decreases m - k,
    {
        let (h, j) = pairs[k];
        if j >= n {
            return false;
        }
        if k > 0 && pairs[k - 1].0 >= h {
            return false;
        }
        if name_hash(blob_slice(blob, offsets, j)) != h {
            return false;
        }
        seen.set(j, true);
        proof {
            assert forall|a: int, b: int| 0 <= a < b < k + 1 implies pairs@[a].0 < pairs@[b].0 by {
                if b == k && a < k - 1 {
                    assert(pairs@[a].0 < pairs@[k - 1].0);
                }
            }
            assert forall|i: int|
                0 <= i < n implies (seen@[i] <==> exists|q: int|
                    0 <= q < k + 1 && pairs@[q].1 == i) by {
                if i == j {
                    assert(pairs@[k as int].1 == i);
                } else if exists|q: int| 0 <= q < k + 1 && pairs@[q].1 == i {
                    let q = choose|q: int| 0 <= q < k + 1 && pairs@[q].1 == i;
                    assert(q < k);
                }
            }
        }
        k = k + 1;
    }
    let mut i: usize = 0;
    while i < n
        invariant
            names == blob_entries(blob.spec_bytes(), offsets@),
            m == pairs@.len(),
            n == names.len(),
            m == n,
            k == m,
            i <= n,
            seen@.len() == n,
            forall|j: int|
                0 <= j < n ==> (seen@[j] <==> exists|q: int| 0 <= q < k && pairs@[q].1 == j),
            forall|j: int| 0 <= j < i ==> #[trigger] hash_covers(pairs@, j),
        decreases n - i,
    {
        if !seen[i] {
            proof {
                assert(!hash_covers(pairs@, i as int)) by {
                    if hash_covers(pairs@, i as int) {
                        let q = choose|q: int| 0 <= q < pairs@.len() && pairs@[q].1 == i;
                        assert(seen@[i as int]);
                    }
                }
            }
            return false;
        }
        i = i + 1;
    }
    true
}

/// Binary search for `target` among pairs sorted by strictly increasing hash.
pub(crate) fn search_hash(pairs: &[(u64, usize)], target: u64) -> (r: Option<usize>)
    requires
        forall|k: int, l: int| 0 <= k < l < pairs@.len() ==> pairs@[k].0 < pairs@[l].0,
    ensures
        r matches Some(k) ==> k < pairs@.len() && pairs@[k as int].0 == target,
        r is None ==> forall|k: int| 0 <= k < pairs@.len() ==> pairs@[k].0 != target,
{
    let mut lo: usize = 0;
    let mut hi: usize = pairs.len();
    while lo < hi
        invariant
            forall|k: int, l: int| 0 <= k < l < pairs@.len() ==> pairs@[k].0 < pairs@[l].0,
            lo <= hi <= pairs@.len(),
            forall|k: int| 0 <= k < lo ==> pairs@[k].0 < target,
            forall|k: int| hi <= k < pairs@.len() ==> pairs@[k].0 > target,
        decreases hi - lo,
    {
        let mid = lo + (hi - lo) / 2;
        let h = pairs[mid].0;
        if h == target {
            return Some(mid);
        } else if h < target {
            lo = mid + 1;
        } else {
            hi = mid;
        }
    }
    None
}

} // verus!
