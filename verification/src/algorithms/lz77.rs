//! LZ77: every code copies a run from a sliding window of the text already
//! seen and adds one literal byte.
//!
//! A code is nine bytes: the literal, then the offset of the run into the
//! window and its length, each a little-endian `u32`.

use crate::algorithms::le_bytes::{le_bytes, le_value, lemma_le_roundtrip, push_u32_le, read_u32_le};
use vstd::prelude::*;
use vstd::slice::slice_subrange;

verus! {

/// Longest run that one code may copy.
pub const WINDOW_SIZE: usize = 32768;

/// Number of most recent bytes that the window holds.
pub const BUFFER_SIZE: usize = 32768;

/// Number of bytes of one code.
pub const CODE_BYTES: usize = 9;

/// One LZ77 code: copy `length` bytes starting `offset` bytes into the
/// window, then emit `literal`.
#[derive(Debug, Clone, Copy, PartialEq, Eq)]
pub struct Code {
    pub literal: u8,
    pub offset: u32,
    pub length: u32,
}

// ---------------------------------------------------------------------------
// Matching
// ---------------------------------------------------------------------------

/// The byte that position `k` of a run starting at `buf[i]` is compared with:
/// inside the window it is `buf[i + k]`; past its end the run continues into
/// the data being matched, so that a run may overlap itself.
pub open spec fn source_byte(buf: Seq<u8>, data: Seq<u8>, i: int, k: int) -> u8 {
    if i + k < buf.len() {
        buf[i + k]
    } else {
        data[k - (buf.len() - i)]
    }
}

/// The first position at or after `k`, and not after `end`, at which the run
/// starting at `buf[i]` stops agreeing with `data`.
pub open spec fn run_end(buf: Seq<u8>, data: Seq<u8>, i: int, end: int, k: int) -> int
    decreases end - k,
{
    if k >= end || data[k] != source_byte(buf, data, i, k) {
        k
    } else {
        run_end(buf, data, i, end, k + 1)
    }
}

/// The longest run a match against `data` may have.
pub open spec fn match_limit(data: Seq<u8>) -> int {
    if data.len() < WINDOW_SIZE {
        data.len() as int
    } else {
        WINDOW_SIZE as int
    }
}

/// Length of the match of `data` against the run starting at `buf[i]`.
pub open spec fn match_len(buf: Seq<u8>, data: Seq<u8>, i: int) -> int {
    run_end(buf, data, i, match_limit(data), 0)
}

/// The best `(length, start)` among the runs starting at `buf[0..n]`: the
/// first longest one, or with level 1 the first one of positive length.
/// `(0, 0)` when no run matches at all.
pub open spec fn best_match(buf: Seq<u8>, data: Seq<u8>, level: usize, n: int) -> (int, int)
    decreases n,
{
    if n <= 0 {
        (0, 0)
    } else {
        let prev = best_match(buf, data, level, n - 1);
        if level == 1 && prev.0 > 0 {
            prev
        } else {
            let l = match_len(buf, data, n - 1);
            if l > prev.0 {
                (l, n - 1)
            } else {
                prev
            }
        }
    }
}

/// The code that encodes the front of `data` against the window `buf`.
pub open spec fn spec_find_match(data: Seq<u8>, buf: Seq<u8>, level: usize) -> Code {
    if buf.len() == 0 {
        Code { literal: data[0], offset: 0, length: 0 }
    } else {
        let best = best_match(buf, data, level, buf.len() as int);
        if best.0 == data.len() {
            Code { literal: 0, offset: best.1 as u32, length: best.0 as u32 }
        } else {
            let len = if best.0 == WINDOW_SIZE {
                best.0 - 1
            } else {
                best.0
            };
            Code { literal: data[len], offset: best.1 as u32, length: len as u32 }
        }
    }
}

proof fn lemma_run_end_bounds(buf: Seq<u8>, data: Seq<u8>, i: int, end: int, k: int)
    requires
        0 <= k <= end,
    ensures
        k <= run_end(buf, data, i, end, k) <= end,
        forall|j: int|
            k <= j < run_end(buf, data, i, end, k) ==> data[j] == #[trigger] source_byte(
                buf,
                data,
                i,
                j,
            ),
    decreases end - k,
{
    if k < end && data[k] == source_byte(buf, data, i, k) {
        lemma_run_end_bounds(buf, data, i, end, k + 1);
    }
}

/// The best run is a real match that fits in `data`, starting inside `buf`.
proof fn lemma_best_match(buf: Seq<u8>, data: Seq<u8>, level: usize, n: int)
    requires
        0 <= n <= buf.len(),
        data.len() > 0,
    ensures
        0 <= best_match(buf, data, level, n).0 <= match_limit(data),
        best_match(buf, data, level, n).0 > 0 ==> {
            let (l, i) = best_match(buf, data, level, n);
            &&& 0 <= i < n
            &&& l == match_len(buf, data, i)
        },
        best_match(buf, data, level, n).0 == 0 ==> best_match(buf, data, level, n).1 == 0,
    decreases n,
{
    if n > 0 {
        lemma_best_match(buf, data, level, n - 1);
        lemma_run_end_bounds(buf, data, n - 1, match_limit(data), 0);
    }
}

/// With level 1 the search stops at the first run of positive length.
proof fn lemma_best_match_settled(buf: Seq<u8>, data: Seq<u8>, level: usize, n: int, m: int)
    requires
        level == 1,
        0 <= n <= m,
        best_match(buf, data, level, n).0 > 0,
    ensures
        best_match(buf, data, level, m) == best_match(buf, data, level, n),
    decreases m - n,
{
    if m > n {
        lemma_best_match_settled(buf, data, level, n, m - 1);
    }
}

/// Finds the code for the front of `data` against the window `buf`: the best
/// run of `buf` that `data` starts with (level 1: the first run that matches
/// at all), then the byte after it. A run reaching the end of `data` gets
/// literal 0; one of `WINDOW_SIZE` bytes that does not is shortened by one so
/// that a literal follows it.
pub fn find_match(data: &[u8], buf: &[u8], compression_lvl: usize) -> (code: Code)
    requires
        data@.len() > 0,
        buf@.len() <= isize::MAX,
    ensures
        code == spec_find_match(data@, buf@, compression_lvl),
{
    let buf_len = buf.len();
    let data_len = data.len();
    let end_len = if data_len < WINDOW_SIZE {
        data_len
    } else {
        WINDOW_SIZE
    };
    if buf_len == 0 {
        return Code { literal: data[0], offset: 0, length: 0 };
    }
    let mut best_length: u32 = 0;
    let mut best_offset: u32 = 0;
    let mut i: usize = 0;
    while i < buf_len
        invariant_except_break
            0 <= i <= buf_len,
            buf_len == buf@.len(),
            data_len == data@.len(),
            end_len == match_limit(data@),
            0 < end_len <= WINDOW_SIZE,
            buf_len <= isize::MAX,
            compression_lvl == 1 ==> best_length == 0,
            best_length == best_match(buf@, data@, compression_lvl, i as int).0,
            best_offset == best_match(buf@, data@, compression_lvl, i as int).1 as u32,
        ensures
            best_length == best_match(buf@, data@, compression_lvl, buf_len as int).0,
            best_offset == best_match(buf@, data@, compression_lvl, buf_len as int).1 as u32,
        decreases buf_len - i,
    {
        proof {
            lemma_best_match(buf@, data@, compression_lvl, i as int);
            lemma_run_end_bounds(buf@, data@, i as int, end_len as int, 0);
        }
        let mut current_length: u32 = 0;
        let mut ow_length: u32 = 0;
        let mut ow_flag: bool = false;
        loop
            invariant_except_break
                0 <= i < buf_len,
                buf_len == buf@.len(),
                data_len == data@.len(),
                0 < end_len <= WINDOW_SIZE,
                end_len <= data_len,
                buf_len <= isize::MAX,
                0 <= current_length < end_len,
                run_end(buf@, data@, i as int, end_len as int, current_length as int) == run_end(
                    buf@,
                    data@,
                    i as int,
                    end_len as int,
                    0,
                ),
                ow_flag == (i + current_length > buf_len),
                ow_length == (if i + current_length <= buf_len {
                    0
                } else {
                    i + current_length - buf_len
                }),
            ensures
                current_length == run_end(buf@, data@, i as int, end_len as int, 0),
            decreases end_len - current_length,
        {
            let current_byte: u8;
            if i + (current_length as usize) < buf_len {
                current_byte = buf[i + (current_length as usize)];
            } else {
                current_byte = data[ow_length as usize];
                ow_flag = true;
            }
            assert(current_byte == source_byte(buf@, data@, i as int, current_length as int));
            if current_byte != data[current_length as usize] {
                break ;
            } else {
                assert(run_end(buf@, data@, i as int, end_len as int, current_length as int)
                    == run_end(buf@, data@, i as int, end_len as int, current_length + 1));
                current_length += 1;
                if ow_flag {
                    ow_length += 1;
                }
                if current_length as usize == end_len {
                    break ;
                }
            }
        }
        if current_length > best_length {
            best_length = current_length;
            best_offset = i as u32;
            if compression_lvl == 1 {
                proof {
                    lemma_best_match_settled(
                        buf@,
                        data@,
                        compression_lvl,
                        i + 1,
                        buf_len as int,
                    );
                }
                break ;
            }
        }
        i += 1;
    }
    proof {
        lemma_best_match(buf@, data@, compression_lvl, buf_len as int);
    }
    let next_byte: u8;
    if best_length as usize == data_len {
        next_byte = 0;
    } else {
        if best_length as usize == WINDOW_SIZE {
            best_length -= 1;
        }
        next_byte = data[best_length as usize];
    }
    Code { literal: next_byte, offset: best_offset, length: best_length }
}


// ---------------------------------------------------------------------------
// Encoding
// ---------------------------------------------------------------------------

/// Where the window of the `n` bytes seen so far begins: it holds the last
/// `BUFFER_SIZE` of them.
pub open spec fn window_start(n: int) -> int {
    if n > BUFFER_SIZE {
        n - BUFFER_SIZE
    } else {
        0
    }
}

/// The window of `data` once `viewed` bytes of it are encoded.
pub open spec fn window(data: Seq<u8>, viewed: int) -> Seq<u8> {
    data.subrange(window_start(viewed), viewed)
}

/// The code emitted once `viewed` bytes of `data` are encoded.
pub open spec fn code_at_position(data: Seq<u8>, level: usize, viewed: int) -> Code {
    spec_find_match(data.skip(viewed), window(data, viewed), level)
}

/// How many bytes of input code `c` covers when emitted at `viewed`: its
/// run, plus its literal unless the run reaches the end of the input.
pub open spec fn code_advance(c: Code, viewed: int, total: int) -> int {
    if viewed + c.length + 1 > total {
        c.length as int
    } else {
        c.length + 1
    }
}

/// The codes for `data` from position `viewed` on.
pub open spec fn encode_from(data: Seq<u8>, level: usize, viewed: int) -> Seq<Code>
    decreases data.len() - viewed,
{
    if viewed < 0 || viewed >= data.len() {
        seq![]
    } else {
        let c = code_at_position(data, level, viewed);
        let next = viewed + code_advance(c, viewed, data.len() as int);
        if next <= viewed || next > data.len() {
            seq![c]
        } else {
            seq![c] + encode_from(data, level, next)
        }
    }
}

/// The LZ77 codes of `data` at compression level `level`.
pub open spec fn spec_encode(data: Seq<u8>, level: usize) -> Seq<Code> {
    encode_from(data, level, 0)
}

/// The nine bytes of one code.
pub open spec fn code_bytes(c: Code) -> Seq<u8> {
    seq![c.literal] + le_bytes(c.offset) + le_bytes(c.length)
}

/// The bytes of a sequence of codes, one after the other.
pub open spec fn serialize_codes(codes: Seq<Code>) -> Seq<u8>
    decreases codes.len(),
{
    if codes.len() == 0 {
        seq![]
    } else {
        serialize_codes(codes.drop_last()) + code_bytes(codes.last())
    }
}

/// The code emitted at a position stays inside the input and covers at least
/// one byte of it.
proof fn lemma_code_advance(data: Seq<u8>, level: usize, viewed: int)
    requires
        0 <= viewed < data.len(),
    ensures
        ({
            let c = code_at_position(data, level, viewed);
            let adv = code_advance(c, viewed, data.len() as int);
            &&& 0 < adv
            &&& viewed + adv <= data.len()
            &&& c.length <= WINDOW_SIZE
        }),
{
    let rest = data.skip(viewed);
    let buf = window(data, viewed);
    if buf.len() > 0 {
        lemma_best_match(buf, rest, level, buf.len() as int);
    }
}

/// Appends the bytes of `codes` to `out`.
pub fn write_codes(out: &mut Vec<u8>, codes: &Vec<Code>)
    ensures
        final(out)@ == old(out)@ + serialize_codes(codes@),
{
    let mut i: usize = 0;
    while i < codes.len()
        invariant
            0 <= i <= codes@.len(),
            out@ == old(out)@ + serialize_codes(codes@.take(i as int)),
        decreases codes@.len() - i,
    {
        let v = codes[i];
        out.push(v.literal);
        push_u32_le(out, v.offset);
        push_u32_le(out, v.length);
        assert(codes@.take(i + 1).drop_last() == codes@.take(i as int));
        i += 1;
    }
    assert(codes@.take(codes@.len() as int) == codes@);
}

/// Compresses `data`: repeatedly finds the best match of the unencoded rest
/// against the last `BUFFER_SIZE` bytes before it, and returns the bytes of
/// the codes. Level 0 searches for the longest match (slow, best
/// compression), level 1 takes the first match (fast); other levels behave as
/// level 0.
pub fn compress(data: &[u8], compression_lvl: usize) -> (out: Vec<u8>)
    ensures
        out@ == serialize_codes(spec_encode(data@, compression_lvl)),
{
    let mut codes: Vec<Code> = Vec::new();
    let data_len = data.len();
    let mut viewed: usize = 0;
    while viewed < data_len
        invariant
            data_len == data@.len(),
            0 <= viewed <= data_len,
            codes@ + encode_from(data@, compression_lvl, viewed as int) == spec_encode(
                data@,
                compression_lvl,
            ),
        decreases data_len - viewed,
    {
        let ws: usize = if viewed > BUFFER_SIZE {
            viewed - BUFFER_SIZE
        } else {
            0
        };
        let buffer = slice_subrange(data, ws, viewed);
        let rest = slice_subrange(data, viewed, data_len);
        assert(rest@ == data@.skip(viewed as int));
        let encoded = find_match(rest, buffer, compression_lvl);
        proof {
            lemma_code_advance(data@, compression_lvl, viewed as int);
        }
        let ec: usize = if (encoded.length as usize) >= data_len - viewed {
            0
        } else {
            1
        };
        let ghost prev = codes@;
        viewed += (encoded.length as usize) + ec;
        codes.push(encoded);
        assert(codes@ == prev + seq![encoded]);
    }
    let mut out: Vec<u8> = Vec::new();
    write_codes(&mut out, &codes);
    assert(codes@ == spec_encode(data@, compression_lvl));
    out
}


// ---------------------------------------------------------------------------
// Decoding
// ---------------------------------------------------------------------------

/// `out` followed by `n` bytes copied one at a time from position `start`
/// on, where a copied byte may itself be copied again.
pub open spec fn copy_back(out: Seq<u8>, start: int, n: nat) -> Seq<u8>
    decreases n,
{
    if n == 0 {
        out
    } else {
        let o = copy_back(out, start, (n - 1) as nat);
        o.push(o[start + n - 1])
    }
}

/// The output after applying code `c` to the output `out`, or `None` when
/// its run does not start inside the window. A literal 0 after a run is
/// taken as the end mark and not emitted.
pub open spec fn decode_code(out: Seq<u8>, c: Code) -> Option<Seq<u8>> {
    if c.length == 0 {
        Some(out.push(c.literal))
    } else {
        let start = window_start(out.len() as int) + c.offset;
        if start < out.len() {
            let o = copy_back(out, start, c.length as nat);
            Some(
                if c.literal != 0 {
                    o.push(c.literal)
                } else {
                    o
                },
            )
        } else {
            None
        }
    }
}

/// The output after applying `codes` in order to `out`.
pub open spec fn decode_from(out: Seq<u8>, codes: Seq<Code>) -> Option<Seq<u8>>
    decreases codes.len(),
{
    if codes.len() == 0 {
        Some(out)
    } else {
        match decode_code(out, codes[0]) {
            Some(o) => decode_from(o, codes.drop_first()),
            None => None,
        }
    }
}

/// The code whose nine bytes start `b`.
pub open spec fn code_of(b: Seq<u8>) -> Code {
    Code {
        literal: b[0],
        offset: le_value(b.subrange(1, 5)) as u32,
        length: le_value(b.subrange(5, 9)) as u32,
    }
}

/// The codes of `b`, or `None` when its length is not a multiple of nine.
pub open spec fn parse_codes(b: Seq<u8>) -> Option<Seq<Code>>
    decreases b.len(),
{
    if b.len() == 0 {
        Some(seq![])
    } else if b.len() < CODE_BYTES {
        None
    } else {
        match parse_codes(b.skip(CODE_BYTES as int)) {
            Some(cs) => Some(seq![code_of(b)] + cs),
            None => None,
        }
    }
}

/// What `data` decompresses to, or `None` when it is not a whole number of
/// codes, when a run starts outside its window, or when the output would not
/// fit in memory.
pub open spec fn spec_decompress(data: Seq<u8>) -> Option<Seq<u8>> {
    match parse_codes(data) {
        Some(cs) => match decode_from(seq![], cs) {
            Some(out) => if out.len() <= usize::MAX {
                Some(out)
            } else {
                None
            },
            None => None,
        },
        None => None,
    }
}

/// Length of `out` after applying `codes` to any output of length `n`.
pub open spec fn decoded_len_from(n: int, codes: Seq<Code>) -> Option<int>
    decreases codes.len(),
{
    if codes.len() == 0 {
        Some(n)
    } else {
        let c = codes[0];
        if c.length == 0 {
            decoded_len_from(n + 1, codes.drop_first())
        } else if window_start(n) + c.offset < n {
            decoded_len_from(
                n + c.length + if c.literal != 0 {
                    1int
                } else {
                    0int
                },
                codes.drop_first(),
            )
        } else {
            None
        }
    }
}

proof fn lemma_copy_back_len(out: Seq<u8>, start: int, n: nat)
    ensures
        copy_back(out, start, n).len() == out.len() + n,
        forall|j: int| 0 <= j < out.len() ==> #[trigger] copy_back(out, start, n)[j] == out[j],
    decreases n,
{
    if n > 0 {
        lemma_copy_back_len(out, start, (n - 1) as nat);
    }
}

/// Whether codes decode, and to how many bytes, depends only on the length
/// of the output they start from; that length never shrinks.
proof fn lemma_decoded_len(out: Seq<u8>, codes: Seq<Code>)
    ensures
        decode_from(out, codes) is Some <==> decoded_len_from(out.len() as int, codes) is Some,
        decode_from(out, codes) matches Some(o) ==> o.len() == decoded_len_from(
            out.len() as int,
            codes,
        ).unwrap() && o.len() >= out.len(),
    decreases codes.len(),
{
    if codes.len() > 0 {
        let c = codes[0];
        if c.length == 0 {
            lemma_decoded_len(out.push(c.literal), codes.drop_first());
        } else {
            let start = window_start(out.len() as int) + c.offset;
            lemma_copy_back_len(out, start, c.length as nat);
            if start < out.len() {
                let o = copy_back(out, start, c.length as nat);
                let o2 = if c.literal != 0 {
                    o.push(c.literal)
                } else {
                    o
                };
                lemma_decoded_len(o2, codes.drop_first());
            }
        }
    }
}

/// Parsing succeeds exactly on whole numbers of codes.
proof fn lemma_parse_codes(b: Seq<u8>)
    ensures
        parse_codes(b) is Some <==> b.len() % 9 == 0,
        parse_codes(b) matches Some(cs) ==> cs.len() * 9 == b.len(),
    decreases b.len(),
{
    if b.len() >= 9 {
        lemma_parse_codes(b.skip(9));
    }
}

/// A code's bytes start with its literal, then its offset and its length.
proof fn lemma_code_bytes(c: Code)
    ensures
        code_bytes(c).len() == 9,
        code_of(code_bytes(c)) == c,
{
    lemma_le_roundtrip(c.offset);
    lemma_le_roundtrip(c.length);
    let b = code_bytes(c);
    assert(b.subrange(1, 5) == le_bytes(c.offset));
    assert(b.subrange(5, 9) == le_bytes(c.length));
}

proof fn lemma_serialize_front(codes: Seq<Code>)
    requires
        codes.len() > 0,
    ensures
        serialize_codes(codes) == code_bytes(codes[0]) + serialize_codes(codes.drop_first()),
    decreases codes.len(),
{
    if codes.len() > 1 {
        lemma_serialize_front(codes.drop_last());
        assert(codes.drop_last().drop_first() == codes.drop_first().drop_last());
    } else {
        assert(codes.drop_first() == Seq::<Code>::empty());
        assert(codes.drop_last() == Seq::<Code>::empty());
    }
}

/// Parsing the bytes of codes gives the codes back.
pub proof fn lemma_parse_serialize(codes: Seq<Code>)
    ensures
        parse_codes(serialize_codes(codes)) == Some(codes),
    decreases codes.len(),
{
    if codes.len() > 0 {
        lemma_serialize_front(codes);
        lemma_code_bytes(codes[0]);
        lemma_parse_serialize(codes.drop_first());
        let b = serialize_codes(codes);
        assert(b.skip(9) == serialize_codes(codes.drop_first()));
        assert(b.subrange(0, 9) == code_bytes(codes[0]));
        assert(code_of(b) == code_of(code_bytes(codes[0])));
        assert(seq![codes[0]] + codes.drop_first() == codes);
    }
}

/// Decompresses the bytes of LZ77 codes: a code of length 0 emits its
/// literal; any other copies its run from the window of the last
/// `BUFFER_SIZE` bytes of output, repeating the run where it reaches the end
/// of the output, and then emits its literal unless that is 0.
pub fn decompress(data: &[u8]) -> (result: Vec<u8>)
    requires
        spec_decompress(data@) is Some,
    ensures
        result@ == spec_decompress(data@).unwrap(),
{
    let ghost target = spec_decompress(data@).unwrap();
    let data_len = data.len();
    let mut result: Vec<u8> = Vec::new();
    let mut viewed: usize = 0;
    assert(data@.skip(0) == data@);
    while viewed < data_len
        invariant
            data_len == data@.len(),
            0 <= viewed <= data_len,
            parse_codes(data@.skip(viewed as int)) is Some,
            decode_from(result@, parse_codes(data@.skip(viewed as int)).unwrap()) == Some(target),
        decreases data_len - viewed,
    {
        let ghost rest = data@.skip(viewed as int);
        let ghost codes = parse_codes(rest).unwrap();
        assert(rest.skip(9) == data@.skip(viewed + 9));
        let literal = data[viewed];
        let offset = match read_u32_le(slice_subrange(data, viewed + 1, data_len)) {
            Some(v) => v,
            None => 0,
        };
        let length = match read_u32_le(slice_subrange(data, viewed + 5, data_len)) {
            Some(v) => v,
            None => 0,
        };
        assert(data@.subrange(viewed + 1, data_len as int).subrange(0, 4) == rest.subrange(1, 5));
        assert(data@.subrange(viewed + 5, data_len as int).subrange(0, 4) == rest.subrange(5, 9));
        assert(codes[0] == (Code { literal, offset, length }));
        let ghost before = result@;
        if length == 0 {
            result.push(literal);
        } else {
            let res_len = result.len();
            let sf: usize = if res_len > BUFFER_SIZE {
                res_len - BUFFER_SIZE
            } else {
                0
            };
            let start: usize = sf + offset as usize;
            let mut k: usize = 0;
            while k < length as usize
                invariant
                    start < res_len == before.len(),
                    0 <= k <= length,
                    result@ == copy_back(before, start as int, k as nat),
                decreases length - k,
            {
                proof {
                    lemma_copy_back_len(before, start as int, k as nat);
                }
                let cur = result.len();
                assert(start + k < cur);
                let b = result[start + k];
                result.push(b);
                k += 1;
            }
            if literal != 0 {
                result.push(literal);
            }
        }
        assert(codes.drop_first() == parse_codes(data@.skip(viewed + 9)).unwrap());
        viewed += 9;
    }
    assert(data@.skip(data_len as int) == Seq::<u8>::empty());
    result
}

/// Whether `decompress` accepts `data`: a whole number of codes, each run
/// starting inside its window, and an output that fits in memory.
pub fn validate(data: &[u8]) -> (ok: bool)
    ensures
        ok == spec_decompress(data@) is Some,
{
    proof {
        lemma_parse_codes(data@);
        if parse_codes(data@) is Some {
            lemma_decoded_len(seq![], parse_codes(data@).unwrap());
        }
    }
    let data_len = data.len();
    if data_len % 9 != 0 {
        return false;
    }
    let mut out_len: usize = 0;
    let mut viewed: usize = 0;
    assert(data@.skip(0) == data@);
    while viewed < data_len
        invariant
            data_len == data@.len(),
            0 <= viewed <= data_len,
            parse_codes(data@) is Some,
            parse_codes(data@.skip(viewed as int)) is Some,
            spec_decompress(data@) is Some <==> (decoded_len_from(0, parse_codes(data@).unwrap())
                matches Some(m) && m <= usize::MAX),
            decoded_len_from(0, parse_codes(data@).unwrap()) == decoded_len_from(
                out_len as int,
                parse_codes(data@.skip(viewed as int)).unwrap(),
            ),
        decreases data_len - viewed,
    {
        let ghost rest = data@.skip(viewed as int);
        let ghost codes = parse_codes(rest).unwrap();
        assert(rest.skip(9) == data@.skip(viewed + 9));
        proof {
            lemma_decoded_len_grows(out_len as int, codes);
        }
        let literal = data[viewed];
        let offset = match read_u32_le(slice_subrange(data, viewed + 1, data_len)) {
            Some(v) => v,
            None => 0,
        };
        let length = match read_u32_le(slice_subrange(data, viewed + 5, data_len)) {
            Some(v) => v,
            None => 0,
        };
        assert(data@.subrange(viewed + 1, data_len as int).subrange(0, 4) == rest.subrange(1, 5));
        assert(data@.subrange(viewed + 5, data_len as int).subrange(0, 4) == rest.subrange(5, 9));
        assert(codes[0] == (Code { literal, offset, length }));
        assert(codes.drop_first() == parse_codes(data@.skip(viewed + 9)).unwrap());
        proof {
            lemma_decoded_len_grows(out_len as int, codes);
        }
        if length == 0 {
            if out_len == usize::MAX {
                proof {
                    lemma_decoded_len_grows(out_len + 1, codes.drop_first());
                }
                return false;
            }
            out_len = out_len + 1;
        } else {
            let sf: usize = if out_len > BUFFER_SIZE {
                out_len - BUFFER_SIZE
            } else {
                0
            };
            if offset as usize >= out_len - sf {
                return false;
            }
            let extra: usize = if literal != 0 {
                1
            } else {
                0
            };
            let ghost next: int = out_len + length + extra;
            proof {
                lemma_decoded_len_grows(next, codes.drop_first());
            }
            match out_len.checked_add(length as usize) {
                Some(n1) => match n1.checked_add(extra) {
                    Some(n2) => {
                        out_len = n2;
                    },
                    None => {
                        return false;
                    },
                },
                None => {
                    return false;
                },
            }
        }
        viewed += 9;
    }
    assert(data@.skip(data_len as int) == Seq::<u8>::empty());
    true
}

/// The decoded length never falls below the length decoding starts from.
proof fn lemma_decoded_len_grows(n: int, codes: Seq<Code>)
    ensures
        decoded_len_from(n, codes) matches Some(m) ==> m >= n,
    decreases codes.len(),
{
    if codes.len() > 0 {
        let c = codes[0];
        if c.length == 0 {
            lemma_decoded_len_grows(n + 1, codes.drop_first());
        } else {
            lemma_decoded_len_grows(
                n + c.length + if c.literal != 0 {
                    1int
                } else {
                    0int
                },
                codes.drop_first(),
            );
        }
    }
}


// ---------------------------------------------------------------------------
// Laws
// ---------------------------------------------------------------------------

/// Whether no code of `data` from position `viewed` on ends a run before the
/// end of the input with a literal 0, which decompression drops.
pub open spec fn lossless_from(data: Seq<u8>, level: usize, viewed: int) -> bool
    decreases data.len() - viewed,
{
    if viewed < 0 || viewed >= data.len() {
        true
    } else {
        let c = code_at_position(data, level, viewed);
        let next = viewed + code_advance(c, viewed, data.len() as int);
        &&& (c.length > 0 && viewed + c.length < data.len() ==> data[viewed + c.length] != 0)
        &&& (next <= viewed || next > data.len() || lossless_from(data, level, next))
    }
}

/// Whether compressing `data` at level `level` keeps every byte of it.
pub open spec fn spec_lossless(data: Seq<u8>, level: usize) -> bool {
    lossless_from(data, level, 0)
}

/// Copying a run that `rest` matches, from a window at the end of `out`,
/// appends the front of `rest`.
proof fn lemma_copy_match(out: Seq<u8>, ws: int, buf: Seq<u8>, rest: Seq<u8>, i: int, n: int)
    requires
        0 <= ws,
        out.len() == ws + buf.len(),
        out.subrange(ws, out.len() as int) == buf,
        0 <= i < buf.len(),
        0 <= n <= rest.len(),
        forall|j: int| 0 <= j < n ==> rest[j] == #[trigger] source_byte(buf, rest, i, j),
    ensures
        copy_back(out, ws + i, n as nat) == out + rest.take(n),
    decreases n,
{
    if n > 0 {
        lemma_copy_match(out, ws, buf, rest, i, n - 1);
        let o = out + rest.take(n - 1);
        let p = ws + i + n - 1;
        assert(rest[n - 1] == source_byte(buf, rest, i, n - 1));
        if i + n - 1 < buf.len() {
            assert(o[p] == out[p]);
            assert(out[p] == buf[i + n - 1]);
        } else {
            assert(o[p] == rest[p - out.len()]);
        }
        assert(o.push(o[p]) == out + rest.take(n));
    }
}

/// Decoding the codes from `viewed` on, starting from the first `viewed`
/// bytes of `data`, rebuilds `data` when no literal 0 is dropped.
proof fn lemma_decode_encode(data: Seq<u8>, level: usize, viewed: int)
    requires
        0 <= viewed <= data.len(),
        lossless_from(data, level, viewed),
    ensures
        decode_from(data.take(viewed), encode_from(data, level, viewed)) == Some(data),
    decreases data.len() - viewed,
{
    if viewed == data.len() {
        assert(data.take(viewed) == data);
    } else {
        let out = data.take(viewed);
        let rest = data.skip(viewed);
        let buf = window(data, viewed);
        let ws = window_start(viewed);
        let c = code_at_position(data, level, viewed);
        lemma_code_advance(data, level, viewed);
        let next = viewed + code_advance(c, viewed, data.len() as int);
        let codes = encode_from(data, level, viewed);
        assert(codes[0] == c);
        assert(codes.drop_first() == encode_from(data, level, next));
        lemma_decode_encode(data, level, next);
        if buf.len() == 0 {
            assert(out.push(rest[0]) == data.take(next));
        } else {
            lemma_best_match(buf, rest, level, buf.len() as int);
            let best = best_match(buf, rest, level, buf.len() as int);
            if best.0 == 0 {
                assert(out.push(rest[0]) == data.take(next));
            } else {
                let i = best.1;
                lemma_run_end_bounds(buf, rest, i, match_limit(rest), 0);
                let n = c.length as int;
                assert(out.subrange(ws, out.len() as int) == buf);
                lemma_copy_match(out, ws, buf, rest, i, n);
                let o = out + rest.take(n);
                if best.0 == rest.len() {
                    assert(o == data.take(next));
                } else {
                    assert(o.push(rest[n]) == data.take(next));
                }
            }
        }
    }
}

/// Decompressing what `compress` makes of `data` gives `data` back, whenever
/// no run before the end of the input is followed by a 0 byte (such a
/// literal 0 is read back as the end mark and dropped).
pub proof fn lemma_roundtrip(data: Seq<u8>, level: usize)
    requires
        data.len() <= usize::MAX,
        spec_lossless(data, level),
    ensures
        spec_decompress(serialize_codes(spec_encode(data, level))) == Some(data),
{
    lemma_parse_serialize(spec_encode(data, level));
    lemma_decode_encode(data, level, 0);
    assert(data.take(0) == Seq::<u8>::empty());
}

proof fn lemma_nonzero_lossless(data: Seq<u8>, level: usize, viewed: int)
    requires
        0 <= viewed <= data.len(),
        forall|j: int| 0 <= j < data.len() ==> data[j] != 0,
    ensures
        lossless_from(data, level, viewed),
    decreases data.len() - viewed,
{
    if viewed < data.len() {
        lemma_code_advance(data, level, viewed);
        let c = code_at_position(data, level, viewed);
        lemma_nonzero_lossless(data, level, viewed + code_advance(c, viewed, data.len() as int));
    }
}

/// Data without a 0 byte always survives compression and decompression.
pub proof fn lemma_roundtrip_without_zero(data: Seq<u8>, level: usize)
    requires
        data.len() <= usize::MAX,
        forall|j: int| 0 <= j < data.len() ==> data[j] != 0,
    ensures
        spec_decompress(serialize_codes(spec_encode(data, level))) == Some(data),
{
    lemma_nonzero_lossless(data, level, 0);
    lemma_roundtrip(data, level);
}

/// At any level but 1 the chosen run is the longest in the window.
pub proof fn lemma_longest_match(buf: Seq<u8>, data: Seq<u8>, level: usize, n: int, i: int)
    requires
        level != 1,
        0 <= i < n,
    ensures
        match_len(buf, data, i) <= best_match(buf, data, level, n).0,
    decreases n,
{
    if i < n - 1 {
        lemma_longest_match(buf, data, level, n - 1, i);
    }
}

/// Each code of the compressed data is nine bytes.
pub proof fn lemma_compressed_size(data: Seq<u8>, level: usize)
    ensures
        serialize_codes(spec_encode(data, level)).len() == 9 * spec_encode(data, level).len(),
{
    lemma_parse_serialize(spec_encode(data, level));
    lemma_parse_codes(serialize_codes(spec_encode(data, level)));
}


// ---------------------------------------------------------------------------
// Laws of the match search, over the bytes themselves
// ---------------------------------------------------------------------------

proof fn lemma_source_byte(buf: Seq<u8>, data: Seq<u8>, i: int, j: int)
    requires
        0 <= i < buf.len(),
        0 <= j,
        i + j < buf.len() + data.len(),
    ensures
        source_byte(buf, data, i, j) == (buf + data)[i + j],
{
}

/// A run that agrees with `data` on `[k, len)` reaches at least `len`.
proof fn lemma_run_end_reaches(buf: Seq<u8>, data: Seq<u8>, i: int, end: int, k: int, len: int)
    requires
        0 <= k <= len <= end,
        forall|j: int| k <= j < len ==> data[j] == #[trigger] source_byte(buf, data, i, j),
    ensures
        run_end(buf, data, i, end, k) >= len,
    decreases end - k,
{
    lemma_run_end_bounds(buf, data, i, end, k);
    if k < len {
        assert(data[k] == source_byte(buf, data, i, k));
        lemma_run_end_reaches(buf, data, i, end, k + 1, len);
    }
}

/// The code's run is a real match: its first `length` bytes are those at
/// `offset` in the window followed by the data itself (a run may overlap
/// into the data); the literal is the byte after the run, or 0 when the run
/// reaches the end of the data; no run is longer than 32768 bytes.
pub proof fn lemma_find_match_run(data: Seq<u8>, buf: Seq<u8>, level: usize)
    requires
        data.len() > 0,
        buf.len() <= 0x1_0000_0000,
    ensures
        ({
            let c = spec_find_match(data, buf, level);
            &&& c.length <= data.len()
            &&& c.length <= 32768
            &&& (c.length > 0 ==> c.offset < buf.len())
            &&& forall|j: int| 0 <= j < c.length ==> data[j] == #[trigger] (buf + data)[c.offset + j]
            &&& (c.length < data.len() ==> c.literal == data[c.length as int])
            &&& (c.length == data.len() ==> c.literal == 0)
        }),
{
    let c = spec_find_match(data, buf, level);
    if buf.len() > 0 {
        lemma_best_match(buf, data, level, buf.len() as int);
        let best = best_match(buf, data, level, buf.len() as int);
        if best.0 > 0 {
            let i = best.1;
            lemma_run_end_bounds(buf, data, i, match_limit(data), 0);
            assert(c.offset == i);
            assert forall|j: int| 0 <= j < c.length implies data[j] == #[trigger] (buf + data)[c.offset
                + j] by {
                lemma_source_byte(buf, data, i, j);
            }
        }
    }
}

/// With any level but 1 the run is the longest: whenever the data starts with
/// `len` bytes (at most `min(data.len(), 32768)`) that the window followed by
/// the data holds from position `i` of the window, the code copies at least
/// `len` bytes; only a match of all 32768 bytes that does not reach the end
/// of the data is shortened to 32767, to leave room for a literal.
pub proof fn lemma_find_match_longest(data: Seq<u8>, buf: Seq<u8>, level: usize, i: int, len: int)
    requires
        level != 1,
        data.len() > 0,
        0 <= i < buf.len(),
        0 <= len <= data.len(),
        len <= 32768,
        forall|j: int| 0 <= j < len ==> data[j] == #[trigger] (buf + data)[i + j],
    ensures
        spec_find_match(data, buf, level).length >= len || (len == 32768 && spec_find_match(
            data,
            buf,
            level,
        ).length == 32767 && data.len() > 32768),
{
    assert forall|j: int| 0 <= j < len implies data[j] == #[trigger] source_byte(buf, data, i, j) by {
        lemma_source_byte(buf, data, i, j);
        assert(data[j] == (buf + data)[i + j]);
    }
    lemma_run_end_reaches(buf, data, i, match_limit(data), 0, len);
    lemma_longest_match(buf, data, level, buf.len() as int, i);
    lemma_best_match(buf, data, level, buf.len() as int);
}

/// With level 1 the run starts at the first window position whose byte
/// equals the first byte of the data, and has length 0 when there is none.
pub proof fn lemma_find_match_first(data: Seq<u8>, buf: Seq<u8>)
    requires
        data.len() > 0,
        buf.len() <= 0x1_0000_0000,
    ensures
        ({
            let c = spec_find_match(data, buf, 1);
            &&& c.length == 0 ==> forall|i: int| 0 <= i < buf.len() ==> #[trigger] buf[i] != data[0]
            &&& c.length > 0 ==> buf[c.offset as int] == data[0] && forall|i: int|
                0 <= i < c.offset ==> #[trigger] buf[i] != data[0]
        }),
{
    if buf.len() > 0 {
        lemma_first_match(buf, data, buf.len() as int);
        lemma_best_match(buf, data, 1, buf.len() as int);
        let best = best_match(buf, data, 1, buf.len() as int);
        let c = spec_find_match(data, buf, 1);
        if best.0 > 0 {
            lemma_run_end_bounds(buf, data, best.1, match_limit(data), 0);
            assert(data[0] == source_byte(buf, data, best.1, 0));
            assert(c.offset == best.1);
            assert(c.length > 0);
        } else {
            assert(c.length == 0);
        }
    }
}

/// At level 1 the search settles on the first start whose run has positive
/// length; a run has positive length exactly when its first byte matches.
proof fn lemma_first_match(buf: Seq<u8>, data: Seq<u8>, n: int)
    requires
        0 <= n <= buf.len(),
        data.len() > 0,
    ensures
        ({
            let best = best_match(buf, data, 1, n);
            &&& best.0 == 0 ==> forall|i: int| 0 <= i < n ==> #[trigger] buf[i] != data[0]
            &&& best.0 > 0 ==> 0 <= best.1 < n && forall|i: int|
                0 <= i < best.1 ==> #[trigger] buf[i] != data[0]
        }),
    decreases n,
{
    if n > 0 {
        lemma_first_match(buf, data, n - 1);
        lemma_best_match(buf, data, 1, n - 1);
        let prev = best_match(buf, data, 1, n - 1);
        let i = n - 1;
        lemma_run_end_bounds(buf, data, i, match_limit(data), 0);
        if buf[i] == data[0] {
            assert(source_byte(buf, data, i, 0) == data[0]);
            lemma_run_end_reaches(buf, data, i, match_limit(data), 0, 1);
        } else {
            assert(source_byte(buf, data, i, 0) != data[0]);
        }
    }
}


// ---------------------------------------------------------------------------
// Laws of compression, over the bytes themselves
// ---------------------------------------------------------------------------

/// Where code `k` of `codes` starts in an input of `total` bytes whose first
/// code starts at `start`: each code covers its run and then its literal,
/// except that a run reaching the end of the input covers no literal.
pub open spec fn code_start(codes: Seq<Code>, total: int, start: int, k: int) -> int
    decreases k,
{
    if k <= 0 {
        start
    } else {
        let p = code_start(codes, total, start, k - 1);
        let c = codes[k - 1];
        if p + c.length + 1 > total {
            p + c.length
        } else {
            p + c.length + 1
        }
    }
}

proof fn lemma_code_start_shift(c: Code, rest: Seq<Code>, total: int, start: int, next: int, k: int)
    requires
        0 <= k <= rest.len(),
        next == (if start + c.length + 1 > total {
            start + c.length
        } else {
            start + c.length + 1
        }),
    ensures
        code_start(seq![c] + rest, total, start, k + 1) == code_start(rest, total, next, k),
    decreases k,
{
    if k > 0 {
        lemma_code_start_shift(c, rest, total, start, next, k - 1);
        assert((seq![c] + rest)[k] == rest[k - 1]);
        assert(code_start(seq![c] + rest, total, start, k) == code_start(rest, total, next, k - 1));
        assert(code_start(seq![c] + rest, total, start, k + 1) == code_start(rest, total, next, k));
    } else {
        assert((seq![c] + rest)[0] == c);
        assert(code_start(seq![c] + rest, total, start, 0) == start);
        assert(code_start(rest, total, next, 0) == next);
    }
}

/// Code `k` of the encoding from `viewed` on is the code found at the
/// position where it starts.
proof fn lemma_encode_positions(data: Seq<u8>, level: usize, viewed: int, k: int)
    requires
        0 <= viewed <= data.len(),
        0 <= k < encode_from(data, level, viewed).len(),
    ensures
        ({
            let p = code_start(encode_from(data, level, viewed), data.len() as int, viewed, k);
            &&& viewed <= p < data.len()
            &&& encode_from(data, level, viewed)[k] == code_at_position(data, level, p)
        }),
    decreases data.len() - viewed, k,
{
    let c = code_at_position(data, level, viewed);
    lemma_code_advance(data, level, viewed);
    let next = viewed + code_advance(c, viewed, data.len() as int);
    if k > 0 {
        let rest = encode_from(data, level, next);
        assert(encode_from(data, level, viewed) == seq![c] + rest);
        lemma_code_start_shift(c, rest, data.len() as int, viewed, next, k - 1);
        lemma_encode_positions(data, level, next, k - 1);
    }
}

/// Compression at any level but 1 takes the longest run at every step: for
/// the code that starts at input position `p`, whenever the input from `p` on
/// starts with `len` bytes (at most 32768) that it also holds from position
/// `i` of the window, which is the 32768 bytes before `p`, the code copies at
/// least `len` bytes; only a match of all 32768 bytes that does not reach the
/// end of the input is shortened to 32767 to leave room for a literal.
pub proof fn lemma_compress_longest(
    data: Seq<u8>,
    level: usize,
    k: int,
    p: int,
    ws: int,
    i: int,
    len: int,
)
    requires
        level != 1,
        0 <= k < spec_encode(data, level).len(),
        p == code_start(spec_encode(data, level), data.len() as int, 0, k),
        ws == (if p > 32768 {
            p - 32768
        } else {
            0
        }),
        ws <= i < p,
        0 <= len <= data.len() - p,
        len <= 32768,
        forall|j: int| 0 <= j < len ==> data[p + j] == #[trigger] data[i + j],
    ensures
        spec_encode(data, level)[k].length >= len || (len == 32768 && spec_encode(
            data,
            level,
        )[k].length == 32767 && data.len() - p > 32768),
{
    lemma_encode_positions(data, level, 0, k);
    let buf = window(data, p);
    let rest = data.skip(p);
    assert(buf == data.subrange(ws, p));
    assert forall|j: int| 0 <= j < len implies rest[j] == #[trigger] (buf + rest)[(i - ws) + j] by {
        assert(rest[j] == data[p + j]);
        assert((buf + rest)[(i - ws) + j] == data[i + j]);
    }
    lemma_find_match_longest(rest, buf, level, i - ws, len);
}

/// Every code of the compressed output copies a real match from the 32768
/// bytes before its position (runs may overlap into the bytes they
/// produce), and its literal is the input byte after the run, or 0 when the
/// run reaches the end of the input.
pub proof fn lemma_compress_codes_match(data: Seq<u8>, level: usize, k: int, p: int)
    requires
        0 <= k < spec_encode(data, level).len(),
        p == code_start(spec_encode(data, level), data.len() as int, 0, k),
    ensures
        ({
            let c = spec_encode(data, level)[k];
            let ws = if p > 32768 {
                p - 32768
            } else {
                0
            };
            &&& 0 <= p < data.len()
            &&& p + c.length <= data.len()
            &&& (c.length > 0 ==> ws + c.offset < p)
            &&& forall|j: int| 0 <= j < c.length ==> #[trigger] data[p + j] == data[ws + c.offset + j]
            &&& (p + c.length < data.len() ==> c.literal == data[p + c.length])
            &&& (p + c.length == data.len() ==> c.literal == 0)
        }),
{
    lemma_encode_positions(data, level, 0, k);
    let buf = window(data, p);
    let rest = data.skip(p);
    let c = spec_encode(data, level)[k];
    let ws = if p > 32768 {
        p - 32768
    } else {
        0
    };
    assert(buf == data.subrange(ws, p));
    lemma_find_match_run(rest, buf, level);
    assert forall|j: int| 0 <= j < c.length implies #[trigger] data[p + j] == data[ws + c.offset
        + j] by {
        assert(rest[j] == (buf + rest)[c.offset + j]);
        assert((buf + rest)[c.offset + j] == data[ws + c.offset + j]);
    }
}


// ---------------------------------------------------------------------------
// Laws of decompression, over the bytes themselves
// ---------------------------------------------------------------------------

proof fn lemma_parse_append(prefix: Seq<u8>, c: Code)
    requires
        parse_codes(prefix) is Some,
    ensures
        parse_codes(prefix + code_bytes(c)) == Some(parse_codes(prefix).unwrap() + seq![c]),
    decreases prefix.len(),
{
    lemma_code_bytes(c);
    let cb = code_bytes(c);
    if prefix.len() == 0 {
        assert(prefix + cb == cb);
        assert(cb.skip(9) == Seq::<u8>::empty());
        assert(parse_codes(cb.skip(9)) == Some(Seq::<Code>::empty()));
        assert(seq![code_of(cb)] + Seq::<Code>::empty() == seq![c]);
        assert(parse_codes(prefix).unwrap() + seq![c] == seq![c]);
    } else {
        lemma_parse_append(prefix.skip(9), c);
        assert((prefix + cb).skip(9) == prefix.skip(9) + cb);
        assert((prefix + cb).subrange(1, 5) == prefix.subrange(1, 5));
        assert((prefix + cb).subrange(5, 9) == prefix.subrange(5, 9));
        assert(code_of(prefix + cb) == code_of(prefix));
        let cs = parse_codes(prefix.skip(9)).unwrap();
        assert(seq![code_of(prefix)] + (cs + seq![c]) == (seq![code_of(prefix)] + cs) + seq![c]);
    }
}

proof fn lemma_decode_append(out: Seq<u8>, codes: Seq<Code>, c: Code)
    ensures
        decode_from(out, codes + seq![c]) == match decode_from(out, codes) {
            Some(o) => decode_code(o, c),
            None => None,
        },
    decreases codes.len(),
{
    if codes.len() == 0 {
        assert(codes + seq![c] == seq![c]);
        assert(seq![c].drop_first() == Seq::<Code>::empty());
        assert(seq![c][0] == c);
        match decode_code(out, c) {
            Some(o) => {
                assert(decode_from(o, Seq::<Code>::empty()) == Some(o));
            },
            None => {},
        }
    } else {
        assert((codes + seq![c])[0] == codes[0]);
        assert((codes + seq![c]).drop_first() == codes.drop_first() + seq![c]);
        match decode_code(out, codes[0]) {
            Some(o) => {
                lemma_decode_append(o, codes.drop_first(), c);
            },
            None => {},
        }
    }
}

/// A copy of `m` bytes from position `s` appends bytes that each equal the
/// byte `n - s` positions before them.
proof fn lemma_copy_back_shape(out: Seq<u8>, s: int, m: nat)
    requires
        0 <= s < out.len(),
    ensures
        copy_back(out, s, m).len() == out.len() + m,
        copy_back(out, s, m).take(out.len() as int) == out,
        forall|j: int|
            0 <= j < m ==> #[trigger] copy_back(out, s, m)[out.len() + j] == copy_back(out, s, m)[s
                + j],
    decreases m,
{
    lemma_copy_back_len(out, s, m);
    assert(copy_back(out, s, m).take(out.len() as int) == out);
    if m > 0 {
        lemma_copy_back_shape(out, s, (m - 1) as nat);
        let o1 = copy_back(out, s, (m - 1) as nat);
        let o = copy_back(out, s, m);
        assert(o == o1.push(o1[s + m - 1]));
        assert forall|j: int| 0 <= j < m implies #[trigger] o[out.len() + j] == o[s + j] by {
            if j < m - 1 {
                assert(o[out.len() + j] == o1[out.len() + j]);
                assert(o[s + j] == o1[s + j]);
            } else {
                assert(o[s + j] == o1[s + j]);
            }
        }
    }
}

/// Appending one code to decompressible bytes extends their output by that
/// code alone. With the `n` bytes decoded so far, a code of length 0 adds its
/// literal; any other reads its run from position `offset` of the window,
/// which begins at `n - 32768` once more than 32768 bytes are decoded and
/// at 0 before: it is refused when that position is not inside the output,
/// and otherwise adds `length` bytes, each equal to the byte `n - start`
/// positions earlier (so a run may repeat itself), and then the literal
/// unless it is 0. Only an output too long for memory is refused otherwise.
pub proof fn lemma_decompress_next_code(prefix: Seq<u8>, c: Code)
    requires
        spec_decompress(prefix) is Some,
    ensures
        ({
            let out = spec_decompress(prefix).unwrap();
            let n = out.len() as int;
            let start = (if n > 32768 {
                n - 32768
            } else {
                0
            }) + c.offset;
            let extra: int = if c.literal != 0 {
                1
            } else {
                0
            };
            let r = spec_decompress(prefix + code_bytes(c));
            &&& c.length == 0 ==> r == (if n + 1 <= usize::MAX {
                Some(out.push(c.literal))
            } else {
                None
            })
            &&& c.length > 0 && start >= n ==> r is None
            &&& c.length > 0 && start < n ==> (r is Some <==> n + c.length + extra <= usize::MAX)
            &&& c.length > 0 && start < n && r is Some ==> {
                let o = r.unwrap();
                &&& o.len() == n + c.length + extra
                &&& o.take(n) == out
                &&& forall|j: int| 0 <= j < c.length ==> #[trigger] o[n + j] == o[start + j]
                &&& (c.literal != 0 ==> o[n + c.length] == c.literal)
            }
        }),
{
    let cs = parse_codes(prefix).unwrap();
    let out = spec_decompress(prefix).unwrap();
    lemma_parse_append(prefix, c);
    lemma_decode_append(seq![], cs, c);
    let n = out.len() as int;
    let start = window_start(n) + c.offset;
    if c.length > 0 && start < n {
        lemma_copy_back_shape(out, start, c.length as nat);
        let o = copy_back(out, start, c.length as nat);
        if c.literal != 0 {
            let o2 = o.push(c.literal);
            assert(o2.take(n) == o.take(n));
            assert forall|j: int| 0 <= j < c.length implies #[trigger] o2[n + j] == o2[start + j] by {
                assert(o2[n + j] == o[n + j]);
                assert(o2[start + j] == o[start + j]);
            }
        }
    }
}


/// Compression at level 1 takes the first match at every step: the code that
/// starts at input position `p` copies from the first position of the window
/// (the 32768 bytes before `p`) holding the byte at `p`, and copies nothing
/// when the window does not hold that byte.
pub proof fn lemma_compress_first(data: Seq<u8>, k: int, p: int, ws: int)
    requires
        0 <= k < spec_encode(data, 1).len(),
        p == code_start(spec_encode(data, 1), data.len() as int, 0, k),
        ws == (if p > 32768 {
            p - 32768
        } else {
            0
        }),
    ensures
        ({
            let c = spec_encode(data, 1)[k];
            &&& 0 <= p < data.len()
            &&& c.length == 0 ==> forall|i: int| ws <= i < p ==> #[trigger] data[i] != data[p]
            &&& c.length > 0 ==> ws + c.offset < p && data[ws + c.offset] == data[p] && forall|
                i: int,
            | ws <= i < ws + c.offset ==> #[trigger] data[i] != data[p]
        }),
{
    lemma_encode_positions(data, 1, 0, k);
    let buf = window(data, p);
    let rest = data.skip(p);
    assert(buf == data.subrange(ws, p));
    lemma_find_match_first(rest, buf);
    let c = spec_encode(data, 1)[k];
    assert(rest[0] == data[p]);
    if c.length == 0 {
        assert forall|i: int| ws <= i < p implies #[trigger] data[i] != data[p] by {
            assert(buf[i - ws] == data[i]);
        }
    } else {
        lemma_find_match_run(rest, buf, 1);
        assert(buf[c.offset as int] == data[ws + c.offset]);
        assert forall|i: int| ws <= i < ws + c.offset implies #[trigger] data[i] != data[p] by {
            assert(buf[i - ws] == data[i]);
        }
    }
}

} // verus!
