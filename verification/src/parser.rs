//! Serialization of the dictionary and the token stream.
//!
//! The dictionary file is a 4-byte big-endian entry count followed by, per
//! word, a 2-byte big-endian length and the word's literal bytes. The token
//! stream is one 16-bit token per emitted unit: values below 256 are literal
//! bytes, value `256 + w` denotes dictionary entry `w` and stands for that
//! word's bytes. Decoding the token stream reproduces the corpus exactly.

use crate::builder::{index_wf, span_covers, span_wf, MdmaIndex, Word};
use vstd::prelude::*;

verus! {

/// A 16-bit value in big-endian byte order.
pub open spec fn be16(x: int) -> Seq<u8> {
    seq![((x / 256) % 256) as u8, (x % 256) as u8]
}

/// A 32-bit value in big-endian byte order.
pub open spec fn be32(x: int) -> Seq<u8> {
    seq![
        ((x / 0x100_0000) % 256) as u8,
        ((x / 0x1_0000) % 256) as u8,
        ((x / 256) % 256) as u8,
        (x % 256) as u8,
    ]
}

/// The literal bytes of dictionary entry `w`, read at its representative
/// location.
pub open spec fn word_bytes(words: Seq<Word>, buf: Seq<u8>, w: int) -> Seq<u8> {
    buf.subrange(words[w].location as int, words[w].location + words[w].len)
}

/// The dictionary entries from `w` on, each a 2-byte big-endian length
/// followed by the word's literal bytes.
pub open spec fn spec_encode_entries(words: Seq<Word>, buf: Seq<u8>, w: int) -> Seq<u8>
    decreases words.len() - w
        when 0 <= w <= words.len()
{
    if w >= words.len() {
        Seq::empty()
    } else {
        be16(words[w].len as int) + word_bytes(words, buf, w) + spec_encode_entries(
            words,
            buf,
            w + 1,
        )
    }
}

/// The dictionary file: entry count, then the entries in commit order.
pub open spec fn spec_encode_dict(words: Seq<Word>, buf: Seq<u8>) -> Seq<u8> {
    be32(words.len() as int) + spec_encode_entries(words, buf, 0)
}

/// The token stream read off the occupancy array: a literal token for every
/// free position, a dictionary token at every consumed span's start.
pub open spec fn spec_tokens(o: Seq<i32>, buf: Seq<u8>, words: Seq<Word>, idx: int) -> Seq<u16>
    decreases o.len() - idx
        when 0 <= idx <= o.len() && o.len() == buf.len()
{
    if idx >= o.len() {
        Seq::empty()
    } else if o[idx] >= 0 {
        seq![buf[idx] as u16] + spec_tokens(o, buf, words, idx + 1)
    } else {
        let w = -256 - o[idx];
        let l = if 0 <= w < words.len() && 2 <= words[w].len && idx + words[w].len <= o.len() {
            words[w].len as int
        } else {
            1
        };
        seq![(256 + w) as u16] + spec_tokens(o, buf, words, idx + l)
    }
}

/// The literal bytes of every dictionary entry, in order.
pub open spec fn dict_bytes(words: Seq<Word>, buf: Seq<u8>) -> Seq<Seq<u8>> {
    Seq::new(words.len(), |w: int| word_bytes(words, buf, w))
}

/// The dictionary-decode rule: a token below 256 is that literal byte, token
/// `256 + w` stands for the bytes of dictionary entry `w`; an out-of-range
/// token fails.
pub open spec fn decode_tokens(tokens: Seq<u16>, wbytes: Seq<Seq<u8>>) -> Option<Seq<u8>>
    decreases tokens.len(),
{
    if tokens.len() == 0 {
        Some(Seq::empty())
    } else {
        let t = tokens[0] as int;
        let rest = decode_tokens(tokens.drop_first(), wbytes);
        if t < 256 {
            match rest {
                Some(r) => Some(seq![t as u8] + r),
                None => None,
            }
        } else if t - 256 < wbytes.len() {
            match rest {
                Some(r) => Some(wbytes[t - 256] + r),
                None => None,
            }
        } else {
            None
        }
    }
}

/// Appending one token to a decodable stream appends that token's bytes, or
/// fails exactly when the token is out of range.
pub proof fn lemma_decode_append(tokens: Seq<u16>, t: u16, wbytes: Seq<Seq<u8>>, r: Seq<u8>)
    requires
        decode_tokens(tokens, wbytes) == Some(r),
    ensures
        decode_tokens(tokens.push(t), wbytes) == (if (t as int) < 256 {
            Some(r + seq![t as u8])
        } else if t - 256 < wbytes.len() {
            Some(r + wbytes[t - 256])
        } else {
            None::<Seq<u8>>
        }),
    decreases tokens.len(),
{
    if tokens.len() == 0 {
        assert(tokens.push(t).drop_first() =~= Seq::<u16>::empty());
        assert(tokens.push(t)[0] == t);
        assert(decode_tokens(Seq::<u16>::empty(), wbytes) == Some(Seq::<u8>::empty()));
        assert(r =~= Seq::<u8>::empty());
        if (t as int) < 256 {
            assert(seq![t as u8] + Seq::<u8>::empty() =~= r + seq![t as u8]);
        } else if t - 256 < wbytes.len() {
            assert(wbytes[t as int - 256] + Seq::<u8>::empty() =~= r + wbytes[t as int - 256]);
        }
    } else {
        let h = tokens[0] as int;
        let rest = decode_tokens(tokens.drop_first(), wbytes);
        assert(rest.is_some());
        let rr = rest.unwrap();
        lemma_decode_append(tokens.drop_first(), t, wbytes, rr);
        assert(tokens.push(t).drop_first() =~= tokens.drop_first().push(t));
        assert(tokens.push(t)[0] == tokens[0]);
        if (t as int) < 256 {
            if h < 256 {
                assert(seq![h as u8] + (rr + seq![t as u8]) =~= (seq![h as u8] + rr) + seq![
                    t as u8,
                ]);
            } else {
                assert(wbytes[h - 256] + (rr + seq![t as u8]) =~= (wbytes[h - 256] + rr) + seq![
                    t as u8,
                ]);
            }
        } else if t - 256 < wbytes.len() {
            if h < 256 {
                assert(seq![h as u8] + (rr + wbytes[t - 256]) =~= (seq![h as u8] + rr) + wbytes[t
                    - 256]);
            } else {
                assert(wbytes[h - 256] + (rr + wbytes[t - 256]) =~= (wbytes[h - 256] + rr)
                    + wbytes[t - 256]);
            }
        }
    }
}

/// A stream that fails to decode still fails with more tokens after it.
pub proof fn lemma_decode_none_extend(tokens: Seq<u16>, t: u16, wbytes: Seq<Seq<u8>>)
    requires
        decode_tokens(tokens, wbytes) is None,
    ensures
        decode_tokens(tokens.push(t), wbytes) is None,
    decreases tokens.len(),
{
    if tokens.len() == 0 {
    } else {
        let rest = decode_tokens(tokens.drop_first(), wbytes);
        assert(tokens.push(t).drop_first() =~= tokens.drop_first().push(t));
        if rest is None {
            lemma_decode_none_extend(tokens.drop_first(), t, wbytes);
        }
    }
}

/// Serializes the dictionary: 4-byte big-endian entry count, then per entry
/// a 2-byte big-endian length and the word's literal bytes.
pub fn encode_dict(dict: &Vec<Word>, mdma_index: &MdmaIndex) -> (out: Vec<u8>)
    requires
        dict@.len() < 0x1_0000_0000,
        mdma_index.buf@.len() <= 0x7fff_ffff,
        forall|w: int|
            0 <= w < dict@.len() ==> (#[trigger] dict@[w]).location + dict@[w].len
                <= mdma_index.buf@.len(),
    ensures
        out@ == spec_encode_dict(dict@, mdma_index.buf@),
{
    let ghost buf = mdma_index.buf@;
    let ghost words = dict@;
    let mut out: Vec<u8> = Vec::new();
    let d: u32 = dict.len() as u32;
    out.push((d / 0x100_0000 % 256) as u8);
    out.push((d / 0x1_0000 % 256) as u8);
    out.push((d / 256 % 256) as u8);
    out.push((d % 256) as u8);
    proof {
        assert(out@ =~= be32(words.len() as int));
    }
    let mut w: usize = 0;
    while w < dict.len()
        invariant
            w <= dict@.len(),
            words == dict@,
            buf == mdma_index.buf@,
            buf.len() <= 0x7fff_ffff,
            forall|a: int|
                0 <= a < words.len() ==> (#[trigger] words[a]).location + words[a].len
                    <= buf.len(),
            out@ + spec_encode_entries(words, buf, w as int) == spec_encode_dict(words, buf),
        decreases dict@.len() - w,
    {
        let len = dict[w].len;
        let loc = dict[w].location;
        let ghost out0 = out@;
        out.push((len / 256) as u8);
        out.push((len % 256) as u8);
        proof {
            assert((len / 256) as int == (len as int / 256) % 256);
            assert(out@ =~= out0 + be16(words[w as int].len as int));
        }
        let ghost out1 = out@;
        let mut i: usize = 0;
        while i < len as usize
            invariant
                i <= len,
                words == dict@,
                buf == mdma_index.buf@,
                w < words.len(),
                len == words[w as int].len,
                loc == words[w as int].location,
                loc + len <= buf.len(),
                buf.len() <= 0x7fff_ffff,
                out@ == out1 + buf.subrange(loc as int, loc + i),
            decreases len - i,
        {
            out.push(mdma_index.buf[loc + i]);
            proof {
                assert(out@ =~= out1 + buf.subrange(loc as int, loc + i + 1));
            }
            i = i + 1;
        }
        proof {
            assert(buf.subrange(loc as int, loc + len) =~= word_bytes(words, buf, w as int));
            assert(spec_encode_entries(words, buf, w as int) == be16(words[w as int].len as int)
                + word_bytes(words, buf, w as int) + spec_encode_entries(words, buf, w + 1));
            assert(out0 + (be16(words[w as int].len as int) + word_bytes(words, buf, w as int))
                =~= out@);
            assert(out@ + spec_encode_entries(words, buf, w + 1) =~= out0 + spec_encode_entries(
                words,
                buf,
                w as int,
            ));
        }
        w = w + 1;
    }
    proof {
        assert(out@ + Seq::<u8>::empty() =~= out@);
    }
    out
}

/// Reads the token stream off the occupancy array: a literal token for each
/// free position, and one dictionary token per consumed span. Decoding the
/// stream by the dictionary-decode rule reproduces the corpus exactly.
#[verifier::rlimit(100)]
pub fn parse(dict: &Vec<Word>, mdma_index: &MdmaIndex) -> (tokens: Vec<u16>)
    requires
        index_wf(*mdma_index, dict@),
        dict@.len() <= 65280,
    ensures
        tokens@ == spec_tokens(mdma_index.offsets@, mdma_index.buf@, dict@, 0),
        decode_tokens(tokens@, dict_bytes(dict@, mdma_index.buf@)) == Some(mdma_index.buf@),
{
    let ghost o = mdma_index.offsets@;
    let ghost buf = mdma_index.buf@;
    let ghost words = dict@;
    let ghost wb = dict_bytes(words, buf);
    let ghost spans = mdma_index.spans@;
    let n = mdma_index.offsets.len();
    let mut tokens: Vec<u16> = Vec::new();
    let mut idx: usize = 0;
    while idx < n
        invariant
            idx <= n,
            n == o.len(),
            o == mdma_index.offsets@,
            buf == mdma_index.buf@,
            words == dict@,
            wb == dict_bytes(words, buf),
            spans == mdma_index.spans@,
            index_wf(*mdma_index, dict@),
            words.len() <= 65280,
            n == buf.len(),
            spec_tokens(o, buf, words, 0) == tokens@ + spec_tokens(o, buf, words, idx as int),
            decode_tokens(tokens@, wb) == Some(buf.subrange(0, idx as int)),
            forall|k: int|
                0 <= k < spans.len() ==> !((#[trigger] spans[k]).start < idx
                    < spans[k].start + words[spans[k].word].len),
        decreases n - idx,
    {
        let o_val = mdma_index.offsets[idx];
        if o_val >= 0 {
            let t: u16 = mdma_index.buf[idx] as u16;
            let ghost toks0 = tokens@;
            tokens.push(t);
            proof {
                assert(spec_tokens(o, buf, words, idx as int) == seq![buf[idx as int] as u16]
                    + spec_tokens(o, buf, words, idx + 1));
                assert(toks0 + (seq![t] + spec_tokens(o, buf, words, idx + 1)) =~= (toks0 + seq![
                    t,
                ]) + spec_tokens(o, buf, words, idx + 1));
                assert(tokens@ =~= toks0.push(t));
                lemma_decode_append(toks0, t, wb, buf.subrange(0, idx as int));
                assert(buf.subrange(0, idx as int) + seq![t as u8] =~= buf.subrange(0, idx + 1));
                // the next position is not inside any span
                assert forall|k: int|
                    0 <= k < spans.len() implies !((#[trigger] spans[k]).start < idx + 1
                    < spans[k].start + words[spans[k].word].len) by {
                    if spans[k].start < idx + 1 < spans[k].start + words[spans[k].word].len {
                        assert(span_covers(spans[k], words, idx as int));
                        assert(o[idx as int] == -256 - spans[k].word);
                    }
                }
            }
            idx = idx + 1;
        } else {
            proof {
                assert(o[idx as int] <= -256);
            }
            let ghost kk = choose|k: int|
                0 <= k < spans.len() && #[trigger] span_covers(spans[k], words, idx as int);
            proof {
                // this position starts a consumed span
                assert(span_covers(spans[kk], words, idx as int));
                assert(!(spans[kk].start < idx < spans[kk].start + words[spans[kk].word].len));
                assert(spans[kk].start == idx);
                assert(o[idx as int] == -256 - spans[kk].word);
                assert(span_wf(spans[kk], words, buf));
            }
            let wi: i32 = -256 - o_val;
            let w: usize = wi as usize;
            proof {
                assert(w as int == spans[kk].word);
                assert(w < words.len());
                assert(2 <= words[w as int].len);
                assert(idx + words[w as int].len <= n);
            }
            let t: u16 = (256 + w as u16) as u16;
            let ghost toks0 = tokens@;
            tokens.push(t);
            let step = dict[w].len as usize;
            proof {
                assert(t as int == 256 + w);
                assert(spec_tokens(o, buf, words, idx as int) == seq![t] + spec_tokens(
                    o,
                    buf,
                    words,
                    idx + words[w as int].len,
                ));
                assert(toks0 + (seq![t] + spec_tokens(o, buf, words, idx + step)) =~= (toks0
                    + seq![t]) + spec_tokens(o, buf, words, idx + step));
                assert(tokens@ =~= toks0.push(t));
                lemma_decode_append(toks0, t, wb, buf.subrange(0, idx as int));
                // the span's bytes equal the word's literal bytes
                assert(wb[t as int - 256] == word_bytes(words, buf, w as int));
                assert(buf.subrange(0, idx as int) + word_bytes(words, buf, w as int)
                    =~= buf.subrange(0, idx + step)) by {
                    let lw = words[w as int].len as int;
                    let lww = words[w as int].location as int;
                    assert forall|q: int| 0 <= q < lw implies word_bytes(words, buf, w as int)[q]
                        == buf[idx + q] by {
                        assert(buf[lww + q] == buf[idx + q]);
                    }
                }
                // the position after the span is not inside any span
                assert forall|k: int|
                    0 <= k < spans.len() implies !((#[trigger] spans[k]).start < idx + step
                    < spans[k].start + words[spans[k].word].len) by {
                    if spans[k].start < idx + step < spans[k].start + words[spans[k].word].len {
                        if k != kk {
                            assert(spans[kk].start + words[spans[kk].word].len <= spans[k].start
                                || spans[k].start + words[spans[k].word].len <= spans[kk].start);
                        }
                    }
                }
            }
            idx = idx + step;
        }
    }
    proof {
        assert(spec_tokens(o, buf, words, n as int) =~= Seq::<u16>::empty());
        assert(tokens@ + Seq::<u16>::empty() =~= tokens@);
        assert(buf.subrange(0, n as int) =~= buf);
    }
    tokens
}

/// The token stream as bytes: each token in big-endian byte order.
pub fn tokens_to_bytes(tokens: &Vec<u16>) -> (out: Vec<u8>)
    ensures
        out@.len() == 2 * tokens@.len(),
        forall|i: int|
            0 <= i < tokens@.len() ==> out@[2 * i] as int == (#[trigger] tokens@[i] as int) / 256
                && out@[2 * i + 1] as int == (tokens@[i] as int) % 256,
{
    let mut out: Vec<u8> = Vec::new();
    let mut i: usize = 0;
    while i < tokens.len()
        invariant
            i <= tokens@.len(),
            out@.len() == 2 * i,
            forall|a: int|
                0 <= a < i ==> out@[2 * a] as int == (#[trigger] tokens@[a] as int) / 256
                    && out@[2 * a + 1] as int == (tokens@[a] as int) % 256,
        decreases tokens@.len() - i,
    {
        let t = tokens[i];
        out.push((t / 256) as u8);
        out.push((t % 256) as u8);
        i = i + 1;
    }
    out
}

/// Decodes a token stream against the dictionary's literal bytes, returning
/// the reconstructed corpus, or nothing for an out-of-range token.
pub fn decode(tokens: &Vec<u16>, words: &Vec<Vec<u8>>) -> (r: Option<Vec<u8>>)
    ensures
        match r {
            Some(v) => decode_tokens(tokens@, words@.map_values(|x: Vec<u8>| x@)) == Some(v@),
            None => decode_tokens(tokens@, words@.map_values(|x: Vec<u8>| x@)) is None,
        },
{
    let ghost wb = words@.map_values(|x: Vec<u8>| x@);
    let mut out: Vec<u8> = Vec::new();
    let mut i: usize = 0;
    while i < tokens.len()
        invariant
            i <= tokens@.len(),
            wb == words@.map_values(|x: Vec<u8>| x@),
            decode_tokens(tokens@.subrange(0, i as int), wb) == Some(out@),
        decreases tokens@.len() - i,
    {
        let t = tokens[i];
        let ghost pre = tokens@.subrange(0, i as int);
        proof {
            assert(tokens@.subrange(0, i + 1) =~= pre.push(t));
            lemma_decode_append(pre, t, wb, out@);
        }
        if t < 256 {
            out.push(t as u8);
        } else if (t as usize - 256) < words.len() {
            let w = t as usize - 256;
            let ghost out0 = out@;
            let mut b: usize = 0;
            while b < words[w].len()
                invariant
                    b <= words@[w as int]@.len(),
                    w < words@.len(),
                    out@ == out0 + words@[w as int]@.subrange(0, b as int),
                decreases words@[w as int]@.len() - b,
            {
                out.push(words[w][b]);
                proof {
                    assert(out@ =~= out0 + words@[w as int]@.subrange(0, b + 1));
                }
                b = b + 1;
            }
            proof {
                assert(words@[w as int]@.subrange(0, words@[w as int]@.len() as int)
                    =~= words@[w as int]@);
                assert(wb[t as int - 256] == words@[w as int]@);
            }
        } else {
            proof {
                assert(decode_tokens(tokens@.subrange(0, i + 1), wb) is None);
                lemma_decode_prefix_none(tokens@, wb, i + 1);
            }
            return None;
        }
        i = i + 1;
    }
    proof {
        assert(tokens@.subrange(0, tokens@.len() as int) =~= tokens@);
    }
    Some(out)
}

/// If a prefix of the stream fails to decode, the whole stream fails.
proof fn lemma_decode_prefix_none(tokens: Seq<u16>, wbytes: Seq<Seq<u8>>, i: int)
    requires
        0 <= i <= tokens.len(),
        decode_tokens(tokens.subrange(0, i), wbytes) is None,
    ensures
        decode_tokens(tokens, wbytes) is None,
    decreases tokens.len() - i,
{
    if i == tokens.len() {
        assert(tokens.subrange(0, i) =~= tokens);
    } else {
        assert(tokens.subrange(0, i + 1) =~= tokens.subrange(0, i).push(tokens[i]));
        lemma_decode_none_extend(tokens.subrange(0, i), tokens[i], wbytes);
        lemma_decode_prefix_none(tokens, wbytes, i + 1);
    }
}

} // verus!
