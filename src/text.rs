use vstd::prelude::*;
use vstd::string::StringSliceAdditionalSpecFns;
use vstd::utf8::*;

verus! {

broadcast use {encode_utf8_valid_utf8, encode_utf8_decode_utf8};

/// A blob of concatenated names and the byte offsets that cut it: the first
/// offset is 0, the last is the blob's length, they strictly increase, and
/// each falls between two characters.
pub open spec fn offsets_wf(blob: Seq<u8>, offsets: Seq<usize>) -> bool {
    &&& offsets.len() >= 1
    &&& offsets[0] == 0
    &&& offsets[offsets.len() - 1] == blob.len()
    &&& forall|i: int, j: int| 0 <= i < j < offsets.len() ==> offsets[i] < offsets[j]
    &&& forall|i: int| 0 <= i < offsets.len() ==> is_char_boundary(blob, #[trigger] offsets[i] as int)
}

/// The `i`-th name of a blob: the characters between offsets `i` and `i + 1`.
pub open spec fn blob_entry(blob: Seq<u8>, offsets: Seq<usize>, i: int) -> Seq<char> {
    decode_utf8(blob.subrange(offsets[i] as int, offsets[i + 1] as int))
}

/// The names of a blob, in order.
pub open spec fn blob_entries(blob: Seq<u8>, offsets: Seq<usize>) -> Seq<Seq<char>> {
    Seq::new((offsets.len() - 1) as nat, |i: int| blob_entry(blob, offsets, i))
}

proof fn lemma_prefix_keeps_boundary(bytes: Seq<u8>, end: int, start: int)
    requires
        valid_utf8(bytes),
        0 <= start <= end <= bytes.len(),
        is_char_boundary(bytes, start),
        is_char_boundary(bytes, end),
    ensures
        valid_utf8(bytes.subrange(0, end)),
        is_char_boundary(bytes.subrange(0, end), start),
{
    let head = bytes.subrange(0, end);
    valid_utf8_split(bytes, end);
    if start == end {
        is_char_boundary_start_end_of_seq(head);
    } else {
        is_char_boundary_iff_not_is_continuation_byte(bytes, start);
        is_char_boundary_iff_not_is_continuation_byte(head, start);
    }
}

/// The `i`-th name cut out of a blob, without copying.
pub(crate) fn blob_slice<'a>(blob: &'a str, offsets: &[usize], i: usize) -> (r: &'a str)
    requires
        offsets_wf(blob.spec_bytes(), offsets@),
        i + 1 < offsets@.len(),
    ensures
        r@ == blob_entry(blob.spec_bytes(), offsets@, i as int),
{
    let start = offsets[i];
    let end = offsets[i + 1];
    proof {
        assert(offsets@[i as int] < offsets@[i + 1]);
        assert(offsets@[i + 1] <= offsets@[offsets@.len() - 1]) by {
            if i + 1 < offsets@.len() - 1 {
                assert(offsets@[i + 1] < offsets@[offsets@.len() - 1]);
            }
        }
        lemma_prefix_keeps_boundary(blob.spec_bytes(), end as int, start as int);
    }
    let (head, _) = blob.split_at(end);
    let (_, r) = head.split_at(start);
    proof {
        assert(r.spec_bytes() =~= blob.spec_bytes().subrange(start as int, end as int));
    }
    r
}

/// Whether `offsets` cut `blob` into names as `offsets_wf` asks.
pub(crate) fn check_offsets(blob: &str, offsets: &[usize]) -> (r: bool)
    ensures
        r == offsets_wf(blob.spec_bytes(), offsets@),
{
    let n = offsets.len();
    let bytes = blob.as_bytes();
    if n == 0 || offsets[0] != 0 || offsets[n - 1] != bytes.len() {
        return false;
    }
    let mut i: usize = 0;
    while i < n
        invariant
            n == offsets@.len(),
            1 <= n,
            offsets@[0] == 0,
            offsets@[n - 1] == blob.spec_bytes().len(),
            i <= n,
            forall|a: int, b: int| 0 <= a < b < i ==> offsets@[a] < offsets@[b],
            forall|a: int|
                0 <= a < i ==> is_char_boundary(blob.spec_bytes(), #[trigger] offsets@[a] as int),
        decreases n - i,
    {
        if i > 0 && offsets[i - 1] >= offsets[i] {
            return false;
        }
        if !blob.is_char_boundary(offsets[i]) {
            return false;
        }
        proof {
            assert forall|a: int, b: int| 0 <= a < b < i + 1 implies offsets@[a] < offsets@[b] by {
                if b == i && a < i - 1 {
                    assert(offsets@[a] < offsets@[i - 1]);
                }
            }
        }
        i = i + 1;
    }
    true
}

/// Compares two names byte for byte.
pub(crate) fn same_text(a: &str, b: &str) -> (r: bool)
    ensures
        r == (a@ == b@),
{
    let x = a.as_bytes();
    let y = b.as_bytes();
    if x.len() != y.len() {
        return false;
    }
    let mut i: usize = 0;
    while i < x.len()
        invariant
            x@ == a.spec_bytes(),
            y@ == b.spec_bytes(),
            x@.len() == y@.len(),
            i <= x@.len(),
            forall|k: int| 0 <= k < i ==> x@[k] == y@[k],
        decreases x@.len() - i,
    {
        if x[i] != y[i] {
            return false;
        }
        i = i + 1;
    }
    proof {
        assert(x@ =~= y@);
        assert(decode_utf8(encode_utf8(a@)) == a@);
        assert(decode_utf8(encode_utf8(b@)) == b@);
    }
    true
}

} // verus!
