//! LZ78: the input is cut into phrases, each the longest phrase already in
//! the dictionary plus one more byte; every new phrase joins the dictionary.
//!
//! A code is five bytes: the dictionary index of the known phrase (0 for
//! none) as a little-endian `u32`, then the byte that follows it.

use crate::algorithms::le_bytes::{le_bytes, le_value, lemma_le_roundtrip, push_u32_le, read_u32_le};
use std::collections::HashMap;
use vstd::prelude::*;
use vstd::slice::{slice_subrange, slice_to_vec};

verus! {

broadcast use vstd::std_specs::hash::group_hash_axioms;

/// Number of bytes of one code.
pub const CODE_BYTES: usize = 5;

/// One LZ78 code: the phrase with dictionary index `offset` (none for 0),
/// followed by `next`.
#[derive(Debug, Clone, Copy, PartialEq, Eq)]
pub struct Code {
    pub offset: u32,
    pub next: u8,
}

// ---------------------------------------------------------------------------
// The dictionary
// ---------------------------------------------------------------------------

/// The phrase with index `p` in `phrases`, whose first entry has index 1;
/// index 0 stands for the empty phrase.
pub open spec fn phrase_of(phrases: Seq<Seq<u8>>, p: int) -> Seq<u8> {
    if p == 0 {
        seq![]
    } else {
        phrases[p - 1]
    }
}

/// The index of phrase `b` in `phrases` (the last entry equal to it), or 0
/// when it is not there.
pub open spec fn find_phrase(phrases: Seq<Seq<u8>>, b: Seq<u8>) -> int
    decreases phrases.len(),
{
    if phrases.len() == 0 {
        0
    } else if phrases.last() == b {
        phrases.len() as int
    } else {
        find_phrase(phrases.drop_last(), b)
    }
}

/// What the compressor knows after reading part of its input.
pub struct EncoderState {
    /// The dictionary: entry `j` has index `j + 1`.
    pub phrases: Seq<Seq<u8>>,
    /// The bytes read since the last code, a phrase of the dictionary.
    pub buf: Seq<u8>,
    /// The index of `buf` in the dictionary (0 when it is empty).
    pub last: int,
    /// The codes emitted so far.
    pub codes: Seq<Code>,
}

/// The state before any input.
pub open spec fn initial_state() -> EncoderState {
    EncoderState { phrases: seq![], buf: seq![], last: 0, codes: seq![] }
}

/// Reading byte `v`: when `buf` followed by `v` is a known phrase it becomes
/// the new `buf`; otherwise a code for it is emitted, it joins the
/// dictionary, and `buf` starts again empty.
pub open spec fn encoder_step(s: EncoderState, v: u8) -> EncoderState {
    let b = s.buf.push(v);
    let idx = find_phrase(s.phrases, b);
    if idx == 0 {
        EncoderState {
            phrases: s.phrases.push(b),
            buf: seq![],
            last: 0,
            codes: s.codes.push(Code { offset: s.last as u32, next: v }),
        }
    } else {
        EncoderState { phrases: s.phrases, buf: b, last: idx, codes: s.codes }
    }
}

/// The state after reading the first `n` bytes of `data`.
pub open spec fn state_after(data: Seq<u8>, n: int) -> EncoderState
    decreases n,
{
    if n <= 0 {
        initial_state()
    } else {
        encoder_step(state_after(data, n - 1), data[n - 1])
    }
}

/// The LZ78 codes of `data`: those emitted while reading it, and one more
/// with byte 0 for a phrase still pending at the end.
pub open spec fn spec_encode(data: Seq<u8>) -> Seq<Code> {
    let s = state_after(data, data.len() as int);
    if s.buf.len() > 0 {
        s.codes.push(Code { offset: s.last as u32, next: 0 })
    } else {
        s.codes
    }
}

/// The five bytes of one code.
pub open spec fn code_bytes(c: Code) -> Seq<u8> {
    le_bytes(c.offset) + seq![c.next]
}

/// The bytes of a sequence of codes, one after the other.
pub open spec fn serialize_codes(codes: Seq<Code>) -> Seq<u8>
    decreases codes.len(),
{
    if codes.len() == 0 {
        seq![]
    } else {
        serialize_codes(codes.drop_last()) + code_bytes(codes.last())
    }
}

// ---------------------------------------------------------------------------
// Compression
// ---------------------------------------------------------------------------

/// The hash key of "phrase `p` followed by byte `v`".
pub open spec fn key_of(p: int, v: u8) -> u128 {
    (p * 256 + v) as u128
}

/// `m` answers, for every known phrase `p` and byte `v`, whether the phrase
/// `p` followed by `v` is known and under which index; and it holds no key
/// for an unknown phrase.
pub open spec fn dict_matches(m: Map<u128, usize>, phrases: Seq<Seq<u8>>) -> bool {
    &&& forall|p: int, v: u8|
        0 <= p <= phrases.len() ==> (#[trigger] m.contains_key(key_of(p, v)) <==> find_phrase(
            phrases,
            phrase_of(phrases, p).push(v),
        ) != 0)
    &&& forall|p: int, v: u8|
        0 <= p <= phrases.len() && #[trigger] m.contains_key(key_of(p, v)) ==> m[key_of(p, v)]
            == find_phrase(phrases, phrase_of(phrases, p).push(v))
    &&& forall|p: int, v: u8|
        0 <= p <= usize::MAX && #[trigger] m.contains_key(key_of(p, v)) ==> p <= phrases.len()
}

/// Every phrase is a distinct, earlier phrase (its parent) plus one byte.
pub open spec fn phrases_wf(phrases: Seq<Seq<u8>>, parents: Seq<int>) -> bool {
    &&& parents.len() == phrases.len()
    &&& forall|j: int|
        0 <= j < phrases.len() ==> 0 <= #[trigger] parents[j] <= j && phrases[j].len() > 0
            && phrases[j] == phrase_of(phrases, parents[j]).push(phrases[j].last())
    &&& forall|i: int, j: int|
        0 <= i < j < phrases.len() ==> #[trigger] phrases[i] != #[trigger] phrases[j]
}

proof fn lemma_find_phrase(phrases: Seq<Seq<u8>>, b: Seq<u8>)
    ensures
        0 <= find_phrase(phrases, b) <= phrases.len(),
        find_phrase(phrases, b) > 0 ==> phrases[find_phrase(phrases, b) - 1] == b,
        find_phrase(phrases, b) == 0 ==> forall|j: int|
            0 <= j < phrases.len() ==> #[trigger] phrases[j] != b,
    decreases phrases.len(),
{
    if phrases.len() > 0 && phrases.last() != b {
        lemma_find_phrase(phrases.drop_last(), b);
        if find_phrase(phrases, b) == 0 {
            assert forall|j: int| 0 <= j < phrases.len() implies #[trigger] phrases[j] != b by {
                if j < phrases.len() - 1 {
                    assert(phrases[j] == phrases.drop_last()[j]);
                }
            }
        }
    }
}

proof fn lemma_find_push(phrases: Seq<Seq<u8>>, b: Seq<u8>, t: Seq<u8>)
    ensures
        find_phrase(phrases.push(b), t) == if b == t {
            phrases.len() + 1int
        } else {
            find_phrase(phrases, t)
        },
{
    assert(phrases.push(b).drop_last() == phrases);
}

proof fn lemma_key_injective(p1: int, v1: u8, p2: int, v2: u8)
    requires
        0 <= p1 <= usize::MAX,
        0 <= p2 <= usize::MAX,
        key_of(p1, v1) == key_of(p2, v2),
    ensures
        p1 == p2,
        v1 == v2,
{
    assert(0 <= p1 * 256 + v1 < 0x1_0000_0000_0000_0000_0000_0000_0000_0000);
    assert(0 <= p2 * 256 + v2 < 0x1_0000_0000_0000_0000_0000_0000_0000_0000);
    assert(p1 * 256 + v1 == p2 * 256 + v2);
}

/// Distinct indices name distinct phrases.
proof fn lemma_phrase_of_injective(phrases: Seq<Seq<u8>>, parents: Seq<int>, p: int, q: int)
    requires
        phrases_wf(phrases, parents),
        0 <= p <= phrases.len(),
        0 <= q <= phrases.len(),
        phrase_of(phrases, p) == phrase_of(phrases, q),
    ensures
        p == q,
{
    if p != 0 && q != 0 && p != q {
        if p < q {
            assert(phrases[p - 1] != phrases[q - 1]);
        } else {
            assert(phrases[q - 1] != phrases[p - 1]);
        }
    } else if p == 0 && q != 0 {
        assert(parents[q - 1] >= 0);
        assert(phrases[q - 1].len() > 0);
    } else if q == 0 && p != 0 {
        assert(parents[p - 1] >= 0);
        assert(phrases[p - 1].len() > 0);
    }
}

/// Adding a new phrase to the dictionary and its key to the hash map keeps
/// the two in step.
proof fn lemma_dict_insert(
    m: Map<u128, usize>,
    phrases: Seq<Seq<u8>>,
    parents: Seq<int>,
    last: int,
    v: u8,
)
    requires
        dict_matches(m, phrases),
        phrases_wf(phrases, parents),
        0 <= last <= phrases.len(),
        phrases.len() < usize::MAX,
        find_phrase(phrases, phrase_of(phrases, last).push(v)) == 0,
    ensures
        ({
            let b = phrase_of(phrases, last).push(v);
            let ps = phrases.push(b);
            &&& dict_matches(m.insert(key_of(last, v), (phrases.len() + 1) as usize), ps)
            &&& phrases_wf(ps, parents.push(last))
        }),
{
    let n = phrases.len() as int;
    let b = phrase_of(phrases, last).push(v);
    let ps = phrases.push(b);
    let pars = parents.push(last);
    let m2 = m.insert(key_of(last, v), (n + 1) as usize);
    assert(ps.drop_last() == phrases);
    lemma_find_phrase(phrases, b);
    assert forall|p: int| 0 <= p <= n implies #[trigger] phrase_of(ps, p) == phrase_of(
        phrases,
        p,
    ) by {}
    assert forall|p: int, w: u8| 0 <= p <= n + 1 implies (#[trigger] m2.contains_key(key_of(p, w))
        <==> find_phrase(ps, phrase_of(ps, p).push(w)) != 0) && (m2.contains_key(key_of(p, w))
        ==> m2[key_of(p, w)] == find_phrase(ps, phrase_of(ps, p).push(w))) by {
        let t = phrase_of(ps, p).push(w);
        lemma_find_push(phrases, b, t);
        if p <= n {
            assert(phrase_of(ps, p) == phrase_of(phrases, p));
            if p == last && w == v {
                assert(t == b);
                assert(m2.contains_key(key_of(p, w)));
                assert(m2[key_of(p, w)] == n + 1);
            } else {
                if t == b {
                    assert(phrase_of(phrases, p) == t.drop_last());
                    assert(phrase_of(phrases, last) == b.drop_last());
                    lemma_phrase_of_injective(phrases, parents, p, last);
                    assert(t.last() == w && b.last() == v);
                }
                assert(t != b);
                if key_of(p, w) == key_of(last, v) {
                    lemma_key_injective(p, w, last, v);
                }
                assert(key_of(p, w) != key_of(last, v));
                assert(m2.contains_key(key_of(p, w)) == m.contains_key(key_of(p, w)));
                assert(m.contains_key(key_of(p, w)) <==> find_phrase(phrases, t) != 0);
                if m.contains_key(key_of(p, w)) {
                    assert(m2[key_of(p, w)] == m[key_of(p, w)]);
                }
            }
        } else {
            assert(phrase_of(ps, p) == b);
            lemma_find_phrase(phrases, t);
            if find_phrase(phrases, t) != 0 {
                let j = find_phrase(phrases, t) - 1;
                let q = parents[j];
                assert(0 <= q <= j);
                assert(phrases[j] == phrase_of(phrases, q).push(phrases[j].last()));
                assert(phrase_of(phrases, q) == phrases[j].drop_last());
                assert(phrases[j].drop_last() == b);
                if q == 0 {
                    assert(b.len() > 0);
                } else {
                    assert(phrases[q - 1] == b);
                }
            }
            assert(t.len() == b.len() + 1);
            assert(t != b);
            if key_of(p, w) == key_of(last, v) {
                lemma_key_injective(p, w, last, v);
            }
            if m.contains_key(key_of(p, w)) {
                assert(p <= n);
            }
            assert(!m2.contains_key(key_of(p, w)));
        }
    }
    assert forall|p: int, w: u8|
        0 <= p <= usize::MAX && #[trigger] m2.contains_key(key_of(p, w)) implies p <= n + 1 by {
        if key_of(p, w) == key_of(last, v) {
            lemma_key_injective(p, w, last, v);
        }
    }
    assert forall|j: int| 0 <= j < ps.len() implies 0 <= #[trigger] pars[j] <= j && ps[j].len() > 0
        && ps[j] == phrase_of(ps, pars[j]).push(ps[j].last()) by {
        if j < n {
            assert(ps[j] == phrases[j]);
            assert(pars[j] == parents[j]);
        }
    }
    assert forall|i: int, j: int| 0 <= i < j < ps.len() implies #[trigger] ps[i] != #[trigger] ps[j] by {
        if j == n {
            assert(ps[i] == phrases[i]);
        } else {
            assert(ps[i] == phrases[i]);
            assert(ps[j] == phrases[j]);
        }
    }
}

/// The hash key of phrase `p` followed by byte `v`.
fn dict_key(p: usize, v: u8) -> (k: u128)
    ensures
        k == key_of(p as int, v),
{
    (p as u128) * 256 + (v as u128)
}

/// Appends the bytes of `codes` to `out`.
pub fn write_codes(out: &mut Vec<u8>, codes: &Vec<Code>)
    ensures
        final(out)@ == old(out)@ + serialize_codes(codes@),
{
    let mut i: usize = 0;
    while i < codes.len()
        invariant
            0 <= i <= codes@.len(),
            out@ == old(out)@ + serialize_codes(codes@.take(i as int)),
        decreases codes@.len() - i,
    {
        let v = codes[i];
        push_u32_le(out, v.offset);
        out.push(v.next);
        assert(codes@.take(i + 1).drop_last() == codes@.take(i as int));
        i += 1;
    }
    assert(codes@.take(codes@.len() as int) == codes@);
}

/// Compresses `data` into the bytes of its LZ78 codes.
pub fn compress(data: &[u8]) -> (out: Vec<u8>)
    ensures
        out@ == serialize_codes(spec_encode(data@)),
{
    let mut codes: Vec<Code> = Vec::new();
    let mut dict: HashMap<u128, usize> = HashMap::new();
    let mut count: usize = 0;
    let mut last_index: usize = 0;
    let mut pending: bool = false;
    let ghost mut parents: Seq<int> = seq![];
    let data_len = data.len();
    let mut i: usize = 0;
    while i < data_len
        invariant
            data_len == data@.len(),
            0 <= i <= data_len,
            count <= i,
            count == state_after(data@, i as int).phrases.len(),
            last_index == state_after(data@, i as int).last,
            pending == (state_after(data@, i as int).buf.len() > 0),
            codes@ == state_after(data@, i as int).codes,
            state_after(data@, i as int).buf == phrase_of(
                state_after(data@, i as int).phrases,
                state_after(data@, i as int).last,
            ),
            0 <= state_after(data@, i as int).last <= state_after(data@, i as int).phrases.len(),
            dict_matches(dict@, state_after(data@, i as int).phrases),
            phrases_wf(state_after(data@, i as int).phrases, parents),
        decreases data_len - i,
    {
        let ghost s = state_after(data@, i as int);
        let v = data[i];
        let ghost b = s.buf.push(v);
        proof {
            lemma_find_phrase(s.phrases, b);
        }
        let key = dict_key(last_index, v);
        match dict.get(&key) {
            None => {
                proof {
                    lemma_dict_insert(dict@, s.phrases, parents, s.last, v);
                    parents = parents.push(s.last);
                }
                codes.push(Code { offset: last_index as u32, next: v });
                dict.insert(key, count + 1);
                count += 1;
                last_index = 0;
                pending = false;
            },
            Some(idx) => {
                last_index = *idx;
                pending = true;
            },
        }
        i += 1;
    }
    if pending {
        codes.push(Code { offset: last_index as u32, next: 0 });
    }
    let mut out: Vec<u8> = Vec::new();
    write_codes(&mut out, &codes);
    out
}


// ---------------------------------------------------------------------------
// Decompression
// ---------------------------------------------------------------------------

/// The code whose five bytes start `b`.
pub open spec fn code_of(b: Seq<u8>) -> Code {
    Code { offset: le_value(b) as u32, next: b[4] }
}

/// The codes of `b`, or `None` when its length is not a multiple of five.
pub open spec fn parse_codes(b: Seq<u8>) -> Option<Seq<Code>> {
    if b.len() % 5 == 0 {
        Some(Seq::new((b.len() / 5) as nat, |k: int| code_of(b.subrange(5 * k, 5 * k + 5))))
    } else {
        None
    }
}

/// The dictionary and the output after decoding `codes` in order: each code
/// emits the phrase it names followed by its byte, and that phrase joins the
/// dictionary. `None` when a code names a phrase not yet in the dictionary.
pub open spec fn decode_state(codes: Seq<Code>) -> Option<(Seq<Seq<u8>>, Seq<u8>)>
    decreases codes.len(),
{
    if codes.len() == 0 {
        Some((seq![], seq![]))
    } else {
        match decode_state(codes.drop_last()) {
            Some((dict, out)) => {
                let c = codes.last();
                if c.offset > dict.len() {
                    None
                } else {
                    let phrase = phrase_of(dict, c.offset as int).push(c.next);
                    Some((dict.push(phrase), out + phrase))
                }
            },
            None => None,
        }
    }
}

/// The decoded output without its last byte when that is 0 (the end mark of
/// a pending phrase); `None` for an empty output.
pub open spec fn finish(out: Seq<u8>) -> Option<Seq<u8>> {
    if out.len() == 0 {
        None
    } else if out.last() == 0 {
        Some(out.drop_last())
    } else {
        Some(out)
    }
}

/// What `data` decompresses to, or `None` when it is not a whole, nonzero
/// number of codes, when a code names an unknown phrase, or when the output
/// would not fit in memory.
pub open spec fn spec_decompress(data: Seq<u8>) -> Option<Seq<u8>> {
    match parse_codes(data) {
        Some(cs) => match decode_state(cs) {
            Some((_, out)) => if out.len() <= usize::MAX {
                finish(out)
            } else {
                None
            },
            None => None,
        },
        None => None,
    }
}

/// The phrase lengths and output length of `decode_state`.
pub open spec fn decode_lens(codes: Seq<Code>) -> Option<(Seq<int>, int)>
    decreases codes.len(),
{
    if codes.len() == 0 {
        Some((seq![], 0))
    } else {
        match decode_lens(codes.drop_last()) {
            Some((lens, n)) => {
                let c = codes.last();
                if c.offset > lens.len() {
                    None
                } else {
                    let len = if c.offset == 0 {
                        1
                    } else {
                        lens[c.offset - 1] + 1
                    };
                    Some((lens.push(len), n + len))
                }
            },
            None => None,
        }
    }
}

proof fn lemma_decode_lens(codes: Seq<Code>)
    ensures
        decode_state(codes) is Some <==> decode_lens(codes) is Some,
        decode_state(codes) is Some ==> {
            let (dict, out) = decode_state(codes).unwrap();
            let (lens, n) = decode_lens(codes).unwrap();
            &&& lens.len() == dict.len() == codes.len()
            &&& forall|j: int| 0 <= j < lens.len() ==> #[trigger] lens[j] == dict[j].len()
            &&& forall|j: int| 0 <= j < lens.len() ==> 1 <= #[trigger] lens[j] <= j + 1
            &&& n == out.len()
            &&& (codes.len() > 0 ==> n > 0)
        },
    decreases codes.len(),
{
    if codes.len() > 0 {
        lemma_decode_lens(codes.drop_last());
    }
}

/// Decoding the whole keeps every prefix decodable.
proof fn lemma_decode_prefix(codes: Seq<Code>, k: int)
    requires
        0 <= k <= codes.len(),
        decode_state(codes) is Some,
    ensures
        decode_state(codes.take(k)) is Some,
    decreases codes.len() - k,
{
    if k < codes.len() {
        lemma_decode_prefix(codes, k + 1);
        assert(codes.take(k + 1).drop_last() == codes.take(k));
    } else {
        assert(codes.take(k) == codes);
    }
}

/// Decompresses the bytes of LZ78 codes, rebuilding the dictionary as it
/// goes; a 0 that ends the output is dropped as the end mark of a pending
/// phrase.
pub fn decompress(data: &[u8]) -> (result: Vec<u8>)
    requires
        spec_decompress(data@) is Some,
    ensures
        result@ == spec_decompress(data@).unwrap(),
{
    let ghost codes = parse_codes(data@).unwrap();
    let data_len = data.len();
    let mut result: Vec<u8> = Vec::new();
    let mut dict: Vec<Vec<u8>> = Vec::new();
    let mut viewed: usize = 0;
    let ghost mut k: int = 0;
    assert(codes.take(0) == Seq::<Code>::empty());
    while viewed < data_len
        invariant
            data_len == data@.len(),
            data_len % 5 == 0,
            codes.len() * 5 == data_len,
            codes == parse_codes(data@).unwrap(),
            decode_state(codes) is Some,
            decode_state(codes).unwrap().1.len() <= usize::MAX,
            0 <= viewed <= data_len,
            viewed == 5 * k,
            decode_state(codes.take(k)) is Some,
            dict@.len() == decode_state(codes.take(k)).unwrap().0.len(),
            forall|j: int|
                0 <= j < dict@.len() ==> #[trigger] dict@[j]@ == decode_state(
                    codes.take(k),
                ).unwrap().0[j],
            result@ == decode_state(codes.take(k)).unwrap().1,
        decreases data_len - viewed,
    {
        proof {
            lemma_decode_prefix(codes, k + 1);
            assert(codes.take(k + 1).drop_last() == codes.take(k));
            assert(codes.take(k + 1).last() == codes[k]);
        }
        let ghost sdict = decode_state(codes.take(k)).unwrap().0;
        let offset = match read_u32_le(slice_subrange(data, viewed, data_len)) {
            Some(v) => v,
            None => 0,
        };
        let next = data[viewed + 4];
        assert(data@.subrange(viewed as int, data_len as int).subrange(0, 4) == data@.subrange(
            5 * k,
            5 * k + 5,
        ).subrange(0, 4));
        assert(codes[k] == (Code { offset, next }));
        let mut tmp: Vec<u8> = if offset != 0 {
            slice_to_vec(dict[(offset - 1) as usize].as_slice())
        } else {
            Vec::new()
        };
        tmp.push(next);
        assert(tmp@ == phrase_of(sdict, offset as int).push(next));
        dict.push(slice_to_vec(tmp.as_slice()));
        result.append(&mut tmp);
        viewed += 5;
        proof {
            k = k + 1;
        }
    }
    assert(codes.take(k) == codes);
    let last = result.len() - 1;
    if result[last] == 0 {
        result.pop();
    }
    result
}

/// Whether `decompress` accepts `data`: a whole, nonzero number of codes,
/// each naming a phrase already decoded, and an output that fits in memory.
pub fn validate(data: &[u8]) -> (ok: bool)
    ensures
        ok == spec_decompress(data@) is Some,
{
    let data_len = data.len();
    if data_len % 5 != 0 || data_len == 0 {
        proof {
            if data_len % 5 == 0 {
                assert(parse_codes(data@).unwrap().len() == 0);
                assert(parse_codes(data@).unwrap() == Seq::<Code>::empty());
            }
        }
        return false;
    }
    let ghost codes = parse_codes(data@).unwrap();
    proof {
        lemma_decode_lens(codes);
    }
    let mut lens: Vec<usize> = Vec::new();
    let mut out_len: usize = 0;
    let mut viewed: usize = 0;
    let ghost mut k: int = 0;
    assert(codes.take(0) == Seq::<Code>::empty());
    while viewed < data_len
        invariant
            data_len == data@.len(),
            data_len % 5 == 0,
            data_len > 0,
            codes.len() * 5 == data_len,
            codes == parse_codes(data@).unwrap(),
            spec_decompress(data@) is Some <==> (decode_lens(codes) matches Some((_, n)) && n
                <= usize::MAX),
            0 <= viewed <= data_len,
            viewed == 5 * k,
            decode_lens(codes.take(k)) is Some,
            lens@.len() == k,
            forall|j: int|
                0 <= j < k ==> #[trigger] lens@[j] == decode_lens(codes.take(k)).unwrap().0[j],
            forall|j: int| 0 <= j < k ==> 1 <= #[trigger] lens@[j] <= j + 1,
            out_len == decode_lens(codes.take(k)).unwrap().1,
            decode_lens(codes) is Some ==> decode_lens(codes).unwrap().1 >= out_len,
        decreases data_len - viewed,
    {
        let ghost prev = decode_lens(codes.take(k)).unwrap();
        assert(codes.take(k + 1).drop_last() == codes.take(k));
        assert(codes.take(k + 1).last() == codes[k]);
        proof {
            lemma_decode_lens(codes.take(k));
        }
        let offset = match read_u32_le(slice_subrange(data, viewed, data_len)) {
            Some(v) => v,
            None => 0,
        };
        let next = data[viewed + 4];
        assert(data@.subrange(viewed as int, data_len as int).subrange(0, 4) == data@.subrange(
            5 * k,
            5 * k + 5,
        ).subrange(0, 4));
        assert(codes[k] == (Code { offset, next }));
        if offset as usize > lens.len() {
            proof {
                lemma_lens_prefix_fails(codes, k + 1);
            }
            return false;
        }
        let len: usize = if offset == 0 {
            1
        } else {
            lens[(offset - 1) as usize] + 1
        };
        proof {
            lemma_lens_grow(codes, k + 1);
        }
        match out_len.checked_add(len) {
            Some(n) => {
                out_len = n;
            },
            None => {
                return false;
            },
        }
        lens.push(len);
        viewed += 5;
        proof {
            k = k + 1;
        }
    }
    assert(codes.take(k) == codes);
    true
}

/// A prefix that fails to decode makes the whole fail.
proof fn lemma_lens_prefix_fails(codes: Seq<Code>, k: int)
    requires
        0 <= k <= codes.len(),
        decode_lens(codes.take(k)) is None,
    ensures
        decode_lens(codes) is None,
    decreases codes.len() - k,
{
    if k < codes.len() {
        assert(codes.take(k + 1).drop_last() == codes.take(k));
        lemma_lens_prefix_fails(codes, k + 1);
    } else {
        assert(codes.take(k) == codes);
    }
}

/// The output length of a prefix never exceeds that of the whole.
proof fn lemma_lens_grow(codes: Seq<Code>, k: int)
    requires
        0 <= k <= codes.len(),
    ensures
        decode_lens(codes) is Some ==> decode_lens(codes.take(k)) is Some && decode_lens(
            codes.take(k),
        ).unwrap().1 <= decode_lens(codes).unwrap().1,
    decreases codes.len() - k,
{
    if k < codes.len() {
        lemma_lens_grow(codes, k + 1);
        assert(codes.take(k + 1).drop_last() == codes.take(k));
        if decode_lens(codes) is Some {
            lemma_decode_lens(codes.take(k));
            lemma_decode_lens(codes.take(k + 1));
        }
    } else {
        assert(codes.take(k) == codes);
    }
}


// ---------------------------------------------------------------------------
// Laws
// ---------------------------------------------------------------------------

proof fn lemma_serialize_layout(codes: Seq<Code>)
    ensures
        serialize_codes(codes).len() == 5 * codes.len(),
        forall|k: int|
            0 <= k < codes.len() ==> #[trigger] serialize_codes(codes).subrange(5 * k, 5 * k + 5)
                == code_bytes(codes[k]),
    decreases codes.len(),
{
    if codes.len() > 0 {
        let init = codes.drop_last();
        lemma_serialize_layout(init);
        let b = serialize_codes(codes);
        assert forall|k: int| 0 <= k < codes.len() implies #[trigger] b.subrange(5 * k, 5 * k + 5)
            == code_bytes(codes[k]) by {
            if k < codes.len() - 1 {
                assert(b.subrange(5 * k, 5 * k + 5) == serialize_codes(init).subrange(
                    5 * k,
                    5 * k + 5,
                ));
                assert(codes[k] == init[k]);
            } else {
                assert(b.subrange(5 * k, 5 * k + 5) == code_bytes(codes.last()));
            }
        }
    }
}

/// Parsing the bytes of codes gives the codes back.
pub proof fn lemma_parse_serialize(codes: Seq<Code>)
    ensures
        parse_codes(serialize_codes(codes)) == Some(codes),
{
    lemma_serialize_layout(codes);
    let b = serialize_codes(codes);
    assert forall|k: int| 0 <= k < codes.len() implies #[trigger] code_of(
        b.subrange(5 * k, 5 * k + 5),
    ) == codes[k] by {
        let c = codes[k];
        lemma_le_roundtrip(c.offset);
        assert(b.subrange(5 * k, 5 * k + 5) == code_bytes(c));
        assert(code_bytes(c)[4] == c.next);
    }
    assert(parse_codes(b).unwrap() =~= codes);
}

/// The dictionary never shrinks while reading.
proof fn lemma_phrases_grow(data: Seq<u8>, i: int, j: int)
    requires
        0 <= i <= j,
    ensures
        state_after(data, i).phrases.len() <= state_after(data, j).phrases.len(),
    decreases j - i,
{
    if i < j {
        lemma_phrases_grow(data, i, j - 1);
    }
}

/// Decoding the codes emitted after reading `i` bytes rebuilds the
/// dictionary and all of those bytes but the pending phrase.
proof fn lemma_decode_encode(data: Seq<u8>, i: int)
    requires
        0 <= i <= data.len(),
        state_after(data, i).phrases.len() <= u32::MAX,
    ensures
        ({
            let s = state_after(data, i);
            &&& 0 <= s.buf.len() <= i
            &&& s.phrases.len() <= i
            &&& 0 <= s.last <= s.phrases.len()
            &&& s.buf == phrase_of(s.phrases, s.last)
            &&& s.buf == data.subrange(i - s.buf.len(), i)
            &&& decode_state(s.codes) == Some((s.phrases, data.take(i - s.buf.len())))
        }),
    decreases i,
{
    if i > 0 {
        lemma_phrases_grow(data, i - 1, i);
        lemma_decode_encode(data, i - 1);
        let s = state_after(data, i - 1);
        let v = data[i - 1];
        let b = s.buf.push(v);
        lemma_find_phrase(s.phrases, b);
        let idx = find_phrase(s.phrases, b);
        assert(b == data.subrange(i - b.len(), i));
        if idx == 0 {
            let c = Code { offset: s.last as u32, next: v };
            let codes = s.codes.push(c);
            assert(codes.drop_last() == s.codes);
            assert(phrase_of(s.phrases, c.offset as int).push(c.next) == b);
            assert(data.take(i - 1 - s.buf.len()) + b == data.take(i));
        }
    } else {
        assert(data.take(0) == Seq::<u8>::empty());
    }
}

/// Whether compressing `data` keeps every byte of it: the input is not empty
/// and does not end with a 0 that completes a new phrase (that 0 would be
/// read back as an end mark and dropped).
pub open spec fn spec_lossless(data: Seq<u8>) -> bool {
    &&& data.len() > 0
    &&& (state_after(data, data.len() as int).buf.len() > 0 || data.last() != 0)
}

/// Decompressing what `compress` makes of `data` gives `data` back, when no
/// byte is lost as an end mark and every dictionary index fits in a code.
pub proof fn lemma_roundtrip(data: Seq<u8>)
    requires
        data.len() < usize::MAX,
        state_after(data, data.len() as int).phrases.len() <= u32::MAX,
        spec_lossless(data),
    ensures
        spec_decompress(serialize_codes(spec_encode(data))) == Some(data),
{
    let n = data.len() as int;
    let s = state_after(data, n);
    lemma_decode_encode(data, n);
    lemma_parse_serialize(spec_encode(data));
    if s.buf.len() > 0 {
        let c = Code { offset: s.last as u32, next: 0 };
        let codes = s.codes.push(c);
        assert(codes.drop_last() == s.codes);
        assert(data.take(n - s.buf.len()) + s.buf.push(0) == data.push(0));
        assert(data.push(0).drop_last() == data);
    } else {
        assert(data.take(n) == data);
    }
}

/// Each code of the compressed data is five bytes.
pub proof fn lemma_compressed_size(data: Seq<u8>)
    ensures
        serialize_codes(spec_encode(data)).len() == 5 * spec_encode(data).len(),
{
    lemma_serialize_layout(spec_encode(data));
}

/// Every phrase joins the dictionary once: its entries are distinct.
pub proof fn lemma_phrases_distinct(data: Seq<u8>, i: int)
    ensures
        forall|a: int, b: int|
            0 <= a < b < state_after(data, i).phrases.len() ==> #[trigger] state_after(
                data,
                i,
            ).phrases[a] != #[trigger] state_after(data, i).phrases[b],
    decreases i,
{
    if i > 0 {
        lemma_phrases_distinct(data, i - 1);
        let s = state_after(data, i - 1);
        let b = s.buf.push(data[i - 1]);
        lemma_find_phrase(s.phrases, b);
        let ps = state_after(data, i).phrases;
        if find_phrase(s.phrases, b) == 0 {
            assert forall|a: int, c: int| 0 <= a < c < ps.len() implies #[trigger] ps[a]
                != #[trigger] ps[c] by {
                assert(ps[a] == s.phrases[a]);
                if c < s.phrases.len() {
                    assert(ps[c] == s.phrases[c]);
                }
            }
        }
    }
}

} // verus!
