//! The wire format of the target swap invocation: a fixed 4-byte selector
//! followed by a standard tuple layout (two 256-bit scalars, an offset to a
//! dynamic address array, an address, a 256-bit scalar, then the array's
//! length-prefixed element region).
//!
//! The format is stated twice: `swap_call_bytes` builds the unique encoding
//! of an intent, and `spec_decode_swap` reads arbitrary bytes back. The two
//! agree exactly (`lemma_encode_then_decode`, `lemma_decode_then_encode`).

use vstd::prelude::*;

use crate::bytes::addr_word;
use crate::bytes::check_addr_word;
use crate::bytes::copy_range;
use crate::bytes::push_bytes;
use crate::bytes::push_u64_word;
use crate::bytes::u64_word;
use crate::bytes::word_is_addr;
use crate::bytes::word_is_u64;

verus! {

/// The fixed 4-byte selector of the target swap function signature.
pub const SELECTOR: [u8; 4] = [0x38u8, 0xedu8, 0x17u8, 0x39u8];

/// The selector as a byte sequence, for contracts about call data.
pub open spec fn spec_selector() -> Seq<u8> {
    seq![0x38u8, 0xedu8, 0x17u8, 0x39u8]
}

/// True when `data` begins with the swap selector.
pub open spec fn has_selector(data: Seq<u8>) -> bool {
    data.len() >= 4 && data.subrange(0, 4) == spec_selector()
}

/// Byte length of the selector plus the static head: five 32-byte words
/// (amount in, amount-out minimum, array offset, recipient, deadline) and
/// the array's length word.
pub open spec fn swap_head_len() -> int {
    196
}

/// Offset of the dynamic array, measured from the end of the selector:
/// five head words.
pub open spec fn swap_path_offset() -> u64 {
    160
}

/// Checks the 4-byte selector prefix of raw call data.
pub fn starts_with_selector(data: &Vec<u8>) -> (r: bool)
    ensures
        r == has_selector(data@),
{
    if data.len() < 4 {
        proof {
            assert(!has_selector(data@));
        }
        return false;
    }
    let r = data[0] == SELECTOR[0] && data[1] == SELECTOR[1] && data[2] == SELECTOR[2]
        && data[3] == SELECTOR[3];
    proof {
        if r {
            assert(data@.subrange(0, 4) =~= spec_selector());
        } else {
            assert(data@.subrange(0, 4) != spec_selector());
        }
    }
    r
}

/// A decoded swap invocation. Scalars are kept as the 32 big-endian bytes
/// of their 256-bit values; addresses as their 20 bytes.
#[derive(Clone, PartialEq, Eq, Debug)]
pub struct SwapIntent {
    pub amount_in: Vec<u8>,
    pub amount_out_min: Vec<u8>,
    pub path: Vec<Vec<u8>>,
    pub recipient: Vec<u8>,
    pub deadline: Vec<u8>,
}

/// The mathematical value of a swap invocation.
pub ghost struct SwapIntentV {
    pub amount_in: Seq<u8>,
    pub amount_out_min: Seq<u8>,
    pub path: Seq<Seq<u8>>,
    pub recipient: Seq<u8>,
    pub deadline: Seq<u8>,
}

impl DeepView for SwapIntent {
    type V = SwapIntentV;

    open spec fn deep_view(&self) -> SwapIntentV {
        SwapIntentV {
            amount_in: self.amount_in@,
            amount_out_min: self.amount_out_min@,
            path: self.path.deep_view(),
            recipient: self.recipient@,
            deadline: self.deadline@,
        }
    }
}

/// Field widths of a well-formed intent value.
pub open spec fn intent_wf(v: SwapIntentV) -> bool {
    &&& v.amount_in.len() == 32
    &&& v.amount_out_min.len() == 32
    &&& v.recipient.len() == 20
    &&& v.deadline.len() == 32
    &&& forall|k: int| 0 <= k < v.path.len() ==> (#[trigger] v.path[k]).len() == 20
}

/// A well-formed intent whose encoding fits in an addressable buffer.
pub open spec fn intent_encodable(v: SwapIntentV) -> bool {
    intent_wf(v) && swap_head_len() + 32 * v.path.len() <= usize::MAX
}

/// The element region of the address array: one zero-padded word per hop.
pub open spec fn path_words(path: Seq<Seq<u8>>) -> Seq<u8>
    decreases path.len(),
{
    if path.len() == 0 {
        Seq::empty()
    } else {
        path_words(path.drop_last()) + addr_word(path.last())
    }
}

/// The unique encoding of a swap invocation: selector, static head,
/// then the address array's length word and elements.
pub open spec fn swap_call_bytes(v: SwapIntentV) -> Seq<u8> {
    spec_selector() + v.amount_in + v.amount_out_min + u64_word(swap_path_offset()) + addr_word(
        v.recipient,
    ) + v.deadline + u64_word(v.path.len() as u64) + path_words(v.path)
}

/// True when every path element word at indices below `n` carries the
/// 12-byte zero padding of an address word.
pub open spec fn path_region_ok(data: Seq<u8>, n: int) -> bool
    decreases n,
{
    if n <= 0 {
        true
    } else {
        path_region_ok(data, n - 1) && word_is_addr(data, swap_head_len() + 32 * (n - 1))
    }
}

/// The path element value at index `k` of the element region.
pub open spec fn path_element(data: Seq<u8>, k: int) -> Seq<u8> {
    data.subrange(swap_head_len() + 32 * k + 12, swap_head_len() + 32 * k + 32)
}

/// Reads arbitrary bytes as a swap invocation: the selector, the canonical
/// array offset, the address paddings and the array length must all be
/// exactly in place, with no trailing bytes; any violation reads as nothing.
pub open spec fn spec_decode_swap(data: Seq<u8>) -> Option<SwapIntentV> {
    if data.len() < swap_head_len() {
        None
    } else if data.subrange(0, 4) != spec_selector() {
        None
    } else if (data.len() - swap_head_len()) % 32 != 0 {
        None
    } else if (data.len() - swap_head_len()) / 32 > u64::MAX {
        None
    } else {
        let n = (data.len() - swap_head_len()) / 32;
        if data.subrange(68, 100) != u64_word(swap_path_offset()) {
            None
        } else if data.subrange(164, 196) != u64_word(n as u64) {
            None
        } else if !word_is_addr(data, 100) {
            None
        } else if !path_region_ok(data, n) {
            None
        } else {
            Some(
                SwapIntentV {
                    amount_in: data.subrange(4, 36),
                    amount_out_min: data.subrange(36, 68),
                    path: Seq::new(n as nat, |k: int| path_element(data, k)),
                    recipient: data.subrange(112, 132),
                    deadline: data.subrange(132, 164),
                },
            )
        }
    }
}

/// Every index below `n` of an accepted path region carries an address word.
pub proof fn lemma_path_region_ok_index(data: Seq<u8>, n: int, k: int)
    requires
        path_region_ok(data, n),
        0 <= k < n,
    ensures
        word_is_addr(data, swap_head_len() + 32 * k),
    decreases n,
{
    if k < n - 1 {
        lemma_path_region_ok_index(data, n - 1, k);
    }
}

/// The Call Matcher: reads arbitrary call data as a swap invocation.
/// Anything that is not exactly an encoded invocation — wrong or missing
/// selector, truncated tail, stray offset, trailing bytes, malformed
/// address padding — is no match; this is a filtering decision, not an
/// error.
pub fn match_swap_call(data: &Vec<u8>) -> (r: Option<SwapIntent>)
    ensures
        match r {
            Some(i) => spec_decode_swap(data@) == Some(i.deep_view()),
            None => spec_decode_swap(data@) is None,
        },
{
    let dlen: usize = data.len();
    if dlen < 196 {
        return None;
    }
    if !starts_with_selector(data) {
        return None;
    }
    if (dlen - 196) % 32 != 0 {
        return None;
    }
    let n: usize = (dlen - 196) / 32;
    proof {
        vstd::arithmetic::div_mod::lemma_fundamental_div_mod((dlen - 196) as int, 32);
        assert(dlen == 196 + 32 * n);
    }
    if !word_is_u64(data, 68, 160) {
        return None;
    }
    if !word_is_u64(data, 164, n as u64) {
        return None;
    }
    if !check_addr_word(data, 100) {
        return None;
    }
    let amount_in = copy_range(data, 4, 32);
    let amount_out_min = copy_range(data, 36, 32);
    let recipient = copy_range(data, 112, 20);
    let deadline = copy_range(data, 132, 32);
    let mut path: Vec<Vec<u8>> = Vec::new();
    proof {
        assert(path.deep_view() =~~= Seq::new(0, |i: int| path_element(data@, i)));
    }
    let mut k: usize = 0;
    while k < n
        invariant
            k <= n,
            dlen == data@.len(),
            dlen == 196 + 32 * n,
            path_region_ok(data@, k as int),
            path.deep_view() == Seq::new(k as nat, |i: int| path_element(data@, i)),
        decreases n - k,
    {
        if !check_addr_word(data, 196 + 32 * k) {
            proof {
                if path_region_ok(data@, n as int) {
                    lemma_path_region_ok_index(data@, n as int, k as int);
                }
            }
            return None;
        }
        let elem = copy_range(data, 196 + 32 * k + 12, 20);
        let ghost prev_vec: Seq<Vec<u8>> = path@;
        let ghost prev_deep: Seq<Seq<u8>> = path.deep_view();
        proof {
            assert(elem.deep_view() =~= elem@);
        }
        path.push(elem);
        proof {
            assert(prev_deep.len() == prev_vec.len());
            assert(prev_vec.len() == k);
            assert(path@ == prev_vec.push(elem));
            assert(path@.len() == k + 1);
            assert forall|i: int| 0 <= i < k + 1 implies #[trigger] path.deep_view()[i]
                == path_element(data@, i) by {
                assert(path.deep_view()[i] == path@[i].deep_view());
                if i < k {
                    assert(path@[i] == prev_vec.push(elem)[i]);
                    assert(path@[i] == prev_vec[i]);
                    assert(prev_deep[i] == prev_vec[i].deep_view());
                    assert(prev_deep[i] == path_element(data@, i));
                } else {
                    assert(path@[i] == elem);
                }
            }
            assert(path.deep_view() =~= Seq::new((k + 1) as nat, |i: int| path_element(data@, i)));
        }
        k = k + 1;
    }
    let intent = SwapIntent { amount_in, amount_out_min, path, recipient, deadline };
    proof {
        let v = intent.deep_view();
        let d = spec_decode_swap(data@);
        assert(d matches Some(w) && w.amount_in == v.amount_in && w.amount_out_min
            == v.amount_out_min && w.path == v.path && w.recipient == v.recipient && w.deadline
            == v.deadline);
    }
    Some(intent)
}

/// The element region is 32 bytes per hop.
pub proof fn lemma_path_words_len(path: Seq<Seq<u8>>)
    requires
        forall|k: int| 0 <= k < path.len() ==> (#[trigger] path[k]).len() == 20,
    ensures
        path_words(path).len() == 32 * path.len(),
    decreases path.len(),
{
    if path.len() > 0 {
        lemma_path_words_len(path.drop_last());
    }
}

/// Word `k` of the element region is the address word of hop `k`.
pub proof fn lemma_path_words_index(path: Seq<Seq<u8>>, k: int)
    requires
        forall|j: int| 0 <= j < path.len() ==> (#[trigger] path[j]).len() == 20,
        0 <= k < path.len(),
    ensures
        path_words(path).subrange(32 * k, 32 * k + 32) == addr_word(path[k]),
    decreases path.len(),
{
    lemma_path_words_len(path);
    lemma_path_words_len(path.drop_last());
    if k == path.len() - 1 {
        assert(path_words(path).subrange(32 * k, 32 * k + 32) =~= addr_word(path.last()));
    } else {
        lemma_path_words_index(path.drop_last(), k);
        assert(path.drop_last()[k] == path[k]);
        assert(path_words(path).subrange(32 * k, 32 * k + 32) =~= path_words(
            path.drop_last(),
        ).subrange(32 * k, 32 * k + 32));
    }
}

/// Where each field of an intent lands in its encoding.
pub proof fn lemma_swap_bytes_shape(v: SwapIntentV)
    requires
        intent_wf(v),
    ensures
        swap_call_bytes(v).len() == swap_head_len() + 32 * v.path.len(),
        swap_call_bytes(v).subrange(0, 4) == spec_selector(),
        swap_call_bytes(v).subrange(4, 36) == v.amount_in,
        swap_call_bytes(v).subrange(36, 68) == v.amount_out_min,
        swap_call_bytes(v).subrange(68, 100) == u64_word(swap_path_offset()),
        swap_call_bytes(v).subrange(100, 132) == addr_word(v.recipient),
        swap_call_bytes(v).subrange(112, 132) == v.recipient,
        word_is_addr(swap_call_bytes(v), 100),
        swap_call_bytes(v).subrange(132, 164) == v.deadline,
        swap_call_bytes(v).subrange(164, 196) == u64_word(v.path.len() as u64),
        swap_call_bytes(v).subrange(196, swap_call_bytes(v).len() as int) == path_words(v.path),
        forall|k: int|
            0 <= k < v.path.len() ==> swap_call_bytes(v).subrange(196 + 32 * k, 196 + 32 * k + 32)
                == addr_word(#[trigger] v.path[k]),
{
    lemma_path_words_len(v.path);
    let e = swap_call_bytes(v);
    assert(e.subrange(0, 4) =~= spec_selector());
    assert(e.subrange(4, 36) =~= v.amount_in);
    assert(e.subrange(36, 68) =~= v.amount_out_min);
    assert(e.subrange(68, 100) =~= u64_word(swap_path_offset()));
    assert(e.subrange(100, 132) =~= addr_word(v.recipient));
    assert(e.subrange(112, 132) =~= v.recipient);
    assert(e.subrange(132, 164) =~= v.deadline);
    assert(e.subrange(164, 196) =~= u64_word(v.path.len() as u64));
    assert(e.subrange(196, e.len() as int) =~= path_words(v.path));
    assert forall|k: int| 0 <= k < v.path.len() implies e.subrange(196 + 32 * k, 196 + 32 * k + 32)
        == addr_word(#[trigger] v.path[k]) by {
        lemma_path_words_index(v.path, k);
        assert(e.subrange(196 + 32 * k, 196 + 32 * k + 32) =~= path_words(v.path).subrange(
            32 * k,
            32 * k + 32,
        ));
    }
}

/// Address paddings hold at every index of the encoded element region.
proof fn lemma_encoded_path_region_ok(v: SwapIntentV, m: int)
    requires
        intent_wf(v),
        0 <= m <= v.path.len(),
    ensures
        path_region_ok(swap_call_bytes(v), m),
    decreases m,
{
    if m > 0 {
        lemma_encoded_path_region_ok(v, m - 1);
        lemma_swap_bytes_shape(v);
        let e = swap_call_bytes(v);
        let w = e.subrange(196 + 32 * (m - 1), 196 + 32 * (m - 1) + 32);
        assert(w == addr_word(v.path[m - 1]));
        assert forall|j: int|
            196 + 32 * (m - 1) <= j < 196 + 32 * (m - 1) + 12 implies #[trigger] e[j] == 0 by {
            assert(e[j] == w[j - (196 + 32 * (m - 1))]);
        }
    }
}

/// Call data short of the selector, or carrying another selector, is never
/// read as a swap invocation.
pub proof fn lemma_no_selector_no_match(data: Seq<u8>)
    requires
        !has_selector(data),
    ensures
        spec_decode_swap(data) is None,
{
}

/// Round trip, one way: every encoded invocation reads back as exactly the
/// intent that produced it — encoding loses nothing and decoding accepts
/// every valid encoding.
pub proof fn lemma_encode_then_decode(v: SwapIntentV)
    requires
        intent_encodable(v),
    ensures
        spec_decode_swap(swap_call_bytes(v)) == Some(v),
{
    lemma_swap_bytes_shape(v);
    let e = swap_call_bytes(v);
    let n = v.path.len() as int;
    assert(e.len() - 196 == 32 * n);
    vstd::arithmetic::div_mod::lemma_mod_multiples_basic(n, 32);
    vstd::arithmetic::div_mod::lemma_div_multiples_vanish(n, 32);
    assert((e.len() - 196) % 32 == 0);
    assert((e.len() - 196) / 32 == n);
    lemma_encoded_path_region_ok(v, n);
    let d = spec_decode_swap(e);
    assert(d is Some);
    let w = d->Some_0;
    assert(w.amount_in == v.amount_in);
    assert(w.amount_out_min == v.amount_out_min);
    assert(w.recipient == v.recipient);
    assert(w.deadline == v.deadline);
    assert forall|k: int| 0 <= k < n implies w.path[k] == v.path[k] by {
        let word = e.subrange(196 + 32 * k, 196 + 32 * k + 32);
        assert(word == addr_word(v.path[k]));
        assert(path_element(e, k) =~= word.subrange(12, 32));
        assert(word.subrange(12, 32) =~= v.path[k]);
    }
    assert(w.path =~~= v.path);
}

/// Round trip, the other way: whatever the matcher reads out re-encodes to
/// the original bytes, byte for byte — a match is only ever produced from
/// exactly one well-formed encoding.
pub proof fn lemma_decode_then_encode(data: Seq<u8>)
    requires
        spec_decode_swap(data) is Some,
    ensures
        intent_wf(spec_decode_swap(data)->Some_0),
        swap_call_bytes(spec_decode_swap(data)->Some_0) == data,
{
    let v = spec_decode_swap(data)->Some_0;
    let n = (data.len() - 196) / 32;
    vstd::arithmetic::div_mod::lemma_fundamental_div_mod(data.len() - 196, 32);
    assert(data.len() == 196 + 32 * n);
    assert forall|k: int| 0 <= k < v.path.len() implies (#[trigger] v.path[k]).len() == 20 by {
        assert(v.path[k] == path_element(data, k));
    }
    lemma_swap_bytes_shape(v);
    let e = swap_call_bytes(v);
    assert(e.len() == data.len());
    assert(e.subrange(100, 132) =~= data.subrange(100, 132)) by {
        let r = data.subrange(112, 132);
        assert forall|j: int| 0 <= j < 32 implies addr_word(r)[j] == data.subrange(100, 132)[j] by {
            if j < 12 {
                assert(data[100 + j] == 0);
            } else {
                assert(addr_word(r)[j] == r[j - 12]);
            }
        }
        assert(e.subrange(100, 132) == addr_word(r));
    }
    assert forall|m: int| 0 <= m <= n implies data.subrange(196, 196 + 32 * m) == path_words(
        v.path.take(m),
    ) by {
        lemma_decoded_tail_matches(data, n, m);
    }
    assert(v.path.take(n) =~= v.path);
    assert(data.subrange(196, data.len() as int) == path_words(v.path));
    assert(e =~= data) by {
        assert(data =~= data.subrange(0, 4) + data.subrange(4, 36) + data.subrange(36, 68)
            + data.subrange(68, 100) + data.subrange(100, 132) + data.subrange(132, 164)
            + data.subrange(164, 196) + data.subrange(196, data.len() as int));
        assert(e =~= e.subrange(0, 4) + e.subrange(4, 36) + e.subrange(36, 68) + e.subrange(
            68,
            100,
        ) + e.subrange(100, 132) + e.subrange(132, 164) + e.subrange(164, 196) + e.subrange(
            196,
            e.len() as int,
        ));
    }
}

/// The element region of accepted call data re-encodes to itself, prefix by
/// prefix.
proof fn lemma_decoded_tail_matches(data: Seq<u8>, n: int, m: int)
    requires
        0 <= m <= n,
        data.len() == 196 + 32 * n,
        path_region_ok(data, n),
    ensures
        data.subrange(196, 196 + 32 * m) == path_words(
            Seq::new(n as nat, |k: int| path_element(data, k)).take(m),
        ),
    decreases m,
{
    let p = Seq::new(n as nat, |k: int| path_element(data, k));
    if m == 0 {
        assert(data.subrange(196, 196) =~= path_words(p.take(0)));
    } else {
        lemma_decoded_tail_matches(data, n, m - 1);
        lemma_path_region_ok_index(data, n, m - 1);
        assert(p.take(m).drop_last() =~= p.take(m - 1));
        assert(path_words(p.take(m)) == path_words(p.take(m - 1)) + addr_word(p[m - 1]));
        assert(addr_word(p[m - 1]) =~= data.subrange(196 + 32 * (m - 1), 196 + 32 * m)) by {
            assert forall|j: int|
                0 <= j < 32 implies #[trigger] addr_word(p[m - 1])[j] == data[196 + 32 * (m - 1)
                + j] by {
                if j < 12 {
                    assert(data[196 + 32 * (m - 1) + j] == 0);
                } else {
                    assert(addr_word(p[m - 1])[j] == p[m - 1][j - 12]);
                    assert(p[m - 1] == path_element(data, m - 1));
                }
            }
        }
        assert(data.subrange(196, 196 + 32 * m) =~= data.subrange(196, 196 + 32 * (m - 1))
            + data.subrange(196 + 32 * (m - 1), 196 + 32 * m));
    }
}

/// Encodes a swap invocation into its unique byte form.
pub fn encode_swap_call(intent: &SwapIntent) -> (r: Vec<u8>)
    requires
        intent_encodable(intent.deep_view()),
    ensures
        r@ == swap_call_bytes(intent.deep_view()),
{
    let mut r: Vec<u8> = Vec::new();
    r.push(SELECTOR[0]);
    r.push(SELECTOR[1]);
    r.push(SELECTOR[2]);
    r.push(SELECTOR[3]);
    proof {
        assert(r@ =~= spec_selector());
    }
    push_bytes(&mut r, &intent.amount_in);
    push_bytes(&mut r, &intent.amount_out_min);
    push_u64_word(&mut r, 160);
    proof {
        assert(addr_word(intent.recipient@).take(12) =~= Seq::new(12, |j: int| 0u8));
    }
    let mut j: usize = 0;
    while j < 12
        invariant
            j <= 12,
            r@ == spec_selector() + intent.deep_view().amount_in
                + intent.deep_view().amount_out_min + u64_word(160) + addr_word(
                intent.recipient@,
            ).take(j as int),
        decreases 12 - j,
    {
        r.push(0u8);
        proof {
            assert(addr_word(intent.recipient@).take(j as int) + seq![0u8] =~= addr_word(
                intent.recipient@,
            ).take(j as int + 1));
        }
        j = j + 1;
    }
    push_bytes(&mut r, &intent.recipient);
    proof {
        assert(addr_word(intent.recipient@).take(12) + intent.recipient@ =~= addr_word(
            intent.recipient@,
        ));
    }
    push_bytes(&mut r, &intent.deadline);
    let n: usize = intent.path.len();
    push_u64_word(&mut r, n as u64);
    let ghost head: Seq<u8> = spec_selector() + intent.deep_view().amount_in
        + intent.deep_view().amount_out_min + u64_word(160) + addr_word(intent.recipient@)
        + intent.deep_view().deadline + u64_word(intent.deep_view().path.len() as u64);
    let mut k: usize = 0;
    while k < n
        invariant
            k <= n,
            n == intent.path@.len(),
            intent_encodable(intent.deep_view()),
            head == spec_selector() + intent.deep_view().amount_in
                + intent.deep_view().amount_out_min + u64_word(160) + addr_word(intent.recipient@)
                + intent.deep_view().deadline + u64_word(intent.deep_view().path.len() as u64),
            r@ == head + path_words(intent.deep_view().path.take(k as int)),
        decreases n - k,
    {
        let mut i: usize = 0;
        let ghost before: Seq<u8> = r@;
        while i < 12
            invariant
                i <= 12,
                k < n == intent.path@.len(),
                intent_encodable(intent.deep_view()),
                r@ == before + addr_word(intent.deep_view().path[k as int]).take(i as int),
            decreases 12 - i,
        {
            r.push(0u8);
            proof {
                assert(addr_word(intent.deep_view().path[k as int]).take(i as int) + seq![0u8]
                    =~= addr_word(intent.deep_view().path[k as int]).take(i as int + 1));
            }
            i = i + 1;
        }
        push_bytes(&mut r, &intent.path[k]);
        proof {
            assert(intent.path@[k as int]@ == intent.deep_view().path[k as int]);
            assert(addr_word(intent.deep_view().path[k as int]).take(12) + intent.deep_view(
            ).path[k as int] =~= addr_word(intent.deep_view().path[k as int]));
            let p = intent.deep_view().path;
            assert(p.take(k as int + 1).drop_last() =~= p.take(k as int));
            assert(p.take(k as int + 1).last() == p[k as int]);
            assert(path_words(p.take(k as int + 1)) == path_words(p.take(k as int)) + addr_word(
                p[k as int],
            ));
            assert(r@ =~= head + path_words(p.take(k as int + 1)));
        }
        k = k + 1;
    }
    proof {
        let p = intent.deep_view().path;
        assert(p.take(n as int) =~= p);
        assert(r@ == swap_call_bytes(intent.deep_view()));
    }
    r
}

} // verus!
