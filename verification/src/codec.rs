//! The field codec: a reversible mapping between little-endian data bits and
//! sequences of field elements. A terminus `true` bit is appended to the data
//! before packing, so that decoding can strip the zero padding of the last
//! chunk unambiguously.

use crate::bits::{bits_value, lemma_bits_value_bounds, lemma_bits_value_zero_extend};
use crate::field::{FieldElement, FIELD_DATA_BITS, FIELD_SIZE_BITS};
use vstd::arithmetic::power2::{lemma_pow2_strictly_increases, pow2};
use vstd::prelude::*;

verus! {

/// One encoded chunk: at most `FIELD_DATA_BITS` data bits, zero-extended to a
/// field element's full bit width.
pub open spec fn chunk_bits(c: Seq<bool>) -> Seq<bool> {
    c + Seq::new((FIELD_SIZE_BITS - c.len()) as nat, |i: int| false)
}

/// A bit stream cut into chunks of `FIELD_DATA_BITS` bits, each zero-extended
/// to a field element's bits.
pub open spec fn encode_chunks(s: Seq<bool>) -> Seq<Seq<bool>>
    decreases s.len(),
{
    if s.len() == 0 {
        Seq::empty()
    } else if s.len() <= FIELD_DATA_BITS {
        seq![chunk_bits(s)]
    } else {
        seq![chunk_bits(s.take(FIELD_DATA_BITS as int))] + encode_chunks(
            s.skip(FIELD_DATA_BITS as int),
        )
    }
}

/// The encoding of a data bit sequence: the terminus bit is appended and the
/// extended stream is cut into field-element chunks.
pub open spec fn encode_spec(data: Seq<bool>) -> Seq<Seq<bool>> {
    encode_chunks(data.push(true))
}

/// The data-carrying bits of a sequence of field elements, concatenated in
/// order.
pub open spec fn capacity_stream(fields: Seq<Seq<bool>>) -> Seq<bool>
    decreases fields.len(),
{
    if fields.len() == 0 {
        Seq::empty()
    } else {
        fields[0].take(FIELD_DATA_BITS as int) + capacity_stream(fields.drop_first())
    }
}

/// Drops the trailing `false` bits and the terminus `true` bit; without a
/// terminus bit nothing remains.
pub open spec fn strip_terminus(s: Seq<bool>) -> Seq<bool>
    decreases s.len(),
{
    if s.len() == 0 {
        s
    } else if s.last() {
        s.drop_last()
    } else {
        strip_terminus(s.drop_last())
    }
}

/// What decoding recovers from a sequence of field elements.
pub open spec fn decode_spec(fields: Seq<Seq<bool>>) -> Seq<bool> {
    strip_terminus(capacity_stream(fields))
}

/// The bit sequences of a sequence of field elements.
pub open spec fn fields_bits(s: Seq<FieldElement>) -> Seq<Seq<bool>> {
    s.map_values(|f: FieldElement| f@)
}

/// The integer values of a sequence of bit chunks.
pub open spec fn chunks_values(chunks: Seq<Seq<bool>>) -> Seq<int> {
    chunks.map_values(|c: Seq<bool>| bits_value(c))
}

/// The field-element values that encoding a data bit sequence produces.
pub open spec fn encode_values(data: Seq<bool>) -> Seq<int> {
    chunks_values(encode_spec(data))
}

/// Every encoded chunk has a field element's bit width and a value below the
/// field's data capacity.
pub proof fn lemma_encode_chunks_wf(s: Seq<bool>)
    ensures
        forall|j: int|
            0 <= j < encode_chunks(s).len() ==> {
                &&& (#[trigger] encode_chunks(s)[j]).len() == FIELD_SIZE_BITS
                &&& 0 <= bits_value(encode_chunks(s)[j]) < pow2(FIELD_DATA_BITS as nat)
            },
    decreases s.len(),
{
    if s.len() == 0 {
    } else if s.len() <= FIELD_DATA_BITS {
        lemma_chunk_bits_wf(s);
    } else {
        lemma_chunk_bits_wf(s.take(FIELD_DATA_BITS as int));
        lemma_encode_chunks_wf(s.skip(FIELD_DATA_BITS as int));
        assert(forall|j: int|
            1 <= j < encode_chunks(s).len() ==> encode_chunks(s)[j] == encode_chunks(
                s.skip(FIELD_DATA_BITS as int),
            )[j - 1]);
    }
}

/// A single chunk has a field element's bit width and a value below the
/// field's data capacity.
proof fn lemma_chunk_bits_wf(c: Seq<bool>)
    requires
        c.len() <= FIELD_DATA_BITS,
    ensures
        chunk_bits(c).len() == FIELD_SIZE_BITS,
        0 <= bits_value(chunk_bits(c)) < pow2(FIELD_DATA_BITS as nat),
        bits_value(chunk_bits(c)) == bits_value(c),
{
    lemma_bits_value_zero_extend(c, Seq::new((FIELD_SIZE_BITS - c.len()) as nat, |i: int| false));
    lemma_bits_value_bounds(c);
    if c.len() < FIELD_DATA_BITS {
        lemma_pow2_strictly_increases(c.len(), FIELD_DATA_BITS as nat);
    }
}

/// The number of encoded chunks: zero only for an empty stream, and small
/// enough that every chunk but the last accounts for a full data width.
pub proof fn lemma_encode_chunks_count(s: Seq<bool>)
    ensures
        encode_chunks(s).len() == 0 <==> s.len() == 0,
        s.len() > 0 ==> FIELD_DATA_BITS * (encode_chunks(s).len() - 1) < s.len(),
    decreases s.len(),
{
    if s.len() > FIELD_DATA_BITS {
        lemma_encode_chunks_count(s.skip(FIELD_DATA_BITS as int));
    }
}

/// The concatenated data bits of the encoded chunks extend the original
/// stream with `false` bits only.
proof fn lemma_capacity_stream_of_chunks(s: Seq<bool>)
    requires
        s.len() > 0,
    ensures
        capacity_stream(encode_chunks(s)).len() >= s.len(),
        forall|i: int|
            0 <= i < capacity_stream(encode_chunks(s)).len() ==> #[trigger] capacity_stream(
                encode_chunks(s),
            )[i] == (i < s.len() && s[i]),
    decreases s.len(),
{
    if s.len() <= FIELD_DATA_BITS {
        assert(encode_chunks(s).drop_first() =~= Seq::<Seq<bool>>::empty());
        assert(encode_chunks(s)[0] == chunk_bits(s));
        assert(capacity_stream(Seq::<Seq<bool>>::empty()) =~= Seq::<bool>::empty());
        assert(capacity_stream(encode_chunks(s)) == chunk_bits(s).take(FIELD_DATA_BITS as int)
            + Seq::<bool>::empty());
        assert(capacity_stream(encode_chunks(s)) =~= chunk_bits(s).take(FIELD_DATA_BITS as int));
        assert forall|i: int| 0 <= i < FIELD_DATA_BITS implies #[trigger] capacity_stream(
            encode_chunks(s),
        )[i] == (i < s.len() && s[i]) by {
            if i < s.len() {
                assert(chunk_bits(s)[i] == s[i]);
            } else {
                assert(chunk_bits(s)[i] == false);
            }
        }
    } else {
        let head = s.take(FIELD_DATA_BITS as int);
        let tail = s.skip(FIELD_DATA_BITS as int);
        lemma_capacity_stream_of_chunks(tail);
        assert(encode_chunks(s)[0] == chunk_bits(head));
        assert(encode_chunks(s).drop_first() =~= encode_chunks(tail));
        assert(chunk_bits(head).take(FIELD_DATA_BITS as int) =~= head);
        assert(capacity_stream(encode_chunks(s)) == head + capacity_stream(encode_chunks(tail)));
        assert forall|i: int| 0 <= i < capacity_stream(encode_chunks(s)).len() implies #[trigger]
        capacity_stream(encode_chunks(s))[i] == (i < s.len() && s[i]) by {
            if i < FIELD_DATA_BITS {
                assert(capacity_stream(encode_chunks(s))[i] == head[i]);
            } else {
                assert(capacity_stream(encode_chunks(s))[i] == capacity_stream(
                    encode_chunks(tail),
                )[i - FIELD_DATA_BITS]);
            }
        }
    }
}

/// Trailing `false` bits do not change what stripping recovers.
proof fn lemma_strip_terminus_false_suffix(s: Seq<bool>, t: Seq<bool>)
    requires
        forall|i: int| 0 <= i < t.len() ==> !t[i],
    ensures
        strip_terminus(s + t) == strip_terminus(s),
    decreases t.len(),
{
    if t.len() == 0 {
        assert(s + t =~= s);
    } else {
        assert((s + t).drop_last() =~= s + t.drop_last());
        assert(!(s + t).last());
        lemma_strip_terminus_false_suffix(s, t.drop_last());
    }
}

/// Appending a field element appends its data-carrying bits to the stream.
proof fn lemma_capacity_stream_push(s: Seq<Seq<bool>>, x: Seq<bool>)
    ensures
        capacity_stream(s.push(x)) == capacity_stream(s) + x.take(FIELD_DATA_BITS as int),
    decreases s.len(),
{
    if s.len() == 0 {
        assert(s.push(x)[0] == x);
        assert(s.push(x).drop_first() =~= Seq::<Seq<bool>>::empty());
        assert(capacity_stream(Seq::<Seq<bool>>::empty()) == Seq::<bool>::empty());
        assert(capacity_stream(s.push(x)) == x.take(FIELD_DATA_BITS as int)
            + Seq::<bool>::empty());
        assert(capacity_stream(s.push(x)) =~= capacity_stream(s) + x.take(
            FIELD_DATA_BITS as int,
        ));
    } else {
        assert(s.push(x).drop_first() =~= s.drop_first().push(x));
        assert(s.push(x)[0] == s[0]);
        lemma_capacity_stream_push(s.drop_first(), x);
        assert(capacity_stream(s.push(x)) =~= capacity_stream(s) + x.take(
            FIELD_DATA_BITS as int,
        ));
    }
}

/// Packs a bit sequence, extended with the terminus bit, into field elements.
pub(crate) fn encode_bits(data: &Vec<bool>) -> (r: Vec<FieldElement>)
    ensures
        fields_bits(r@) == encode_spec(data@),
        forall|i: int| 0 <= i < r@.len() ==> (#[trigger] r@[i]).inv(),
{
    let mut ext: Vec<bool> = data.clone();
    ext.push(true);
    let mut out: Vec<FieldElement> = Vec::new();
    let mut pos: usize = 0;
    proof {
        assert(ext@.skip(0) =~= ext@);
        assert(fields_bits(out@) =~= Seq::<Seq<bool>>::empty());
        assert(fields_bits(out@) + encode_chunks(ext@.skip(0)) =~= encode_chunks(ext@));
    }
    while pos < ext.len()
        invariant
            ext@ == data@.push(true),
            pos <= ext@.len(),
            forall|i: int| 0 <= i < out@.len() ==> (#[trigger] out@[i]).inv(),
            fields_bits(out@) + encode_chunks(ext@.skip(pos as int)) =~= encode_chunks(ext@),
        decreases ext@.len() - pos,
    {
        let end = if ext.len() - pos > FIELD_DATA_BITS {
            pos + FIELD_DATA_BITS
        } else {
            ext.len()
        };
        let mut chunk: Vec<bool> = Vec::new();
        let mut k: usize = pos;
        while k < end
            invariant
                pos <= k <= end <= ext@.len(),
                chunk@ =~= ext@.subrange(pos as int, k as int),
            decreases end - k,
        {
            let b = ext[k];
            chunk.push(b);
            k = k + 1;
            proof {
                assert(chunk@ =~= ext@.subrange(pos as int, k as int));
            }
        }
        let fe = match FieldElement::from_data_bits(&chunk) {
            Some(fe) => fe,
            None => vstd::pervasive::unreached(),
        };
        proof {
            let rest = ext@.skip(pos as int);
            assert(fe@ =~= chunk_bits(rest.take((end - pos) as int))) by {
                assert(rest.take((end - pos) as int) =~= ext@.subrange(pos as int, end as int));
            }
            if rest.len() > FIELD_DATA_BITS {
                assert(encode_chunks(rest) == seq![chunk_bits(rest.take(FIELD_DATA_BITS as int))]
                    + encode_chunks(rest.skip(FIELD_DATA_BITS as int)));
                assert(rest.skip(FIELD_DATA_BITS as int) =~= ext@.skip(end as int));
            } else {
                assert(end == ext@.len());
                assert(rest.take((end - pos) as int) =~= rest);
                assert(ext@.skip(end as int) =~= Seq::<bool>::empty());
            }
            assert(fields_bits(out@.push(fe)) =~= fields_bits(out@).push(fe@));
            assert(fields_bits(out@.push(fe)) + encode_chunks(ext@.skip(end as int))
                =~= encode_chunks(ext@));
        }
        out.push(fe);
        pos = end;
    }
    proof {
        assert(ext@.skip(pos as int) =~= Seq::<bool>::empty());
        assert(fields_bits(out@) =~= encode_chunks(ext@));
    }
    out
}

/// Unpacks field elements into their data-carrying bits and strips the zero
/// padding and the terminus bit.
pub(crate) fn decode_bits(fields: &Vec<FieldElement>) -> (r: Vec<bool>)
    requires
        forall|i: int| 0 <= i < fields@.len() ==> (#[trigger] fields@[i]).inv(),
    ensures
        r@ == decode_spec(fields_bits(fields@)),
{
    let mut stream: Vec<bool> = Vec::new();
    let mut i: usize = 0;
    while i < fields.len()
        invariant
            i <= fields@.len(),
            forall|k: int| 0 <= k < fields@.len() ==> (#[trigger] fields@[k]).inv(),
            stream@ =~= capacity_stream(fields_bits(fields@.take(i as int))),
        decreases fields@.len() - i,
    {
        let bv = fields[i].to_bits_le();
        let mut j: usize = 0;
        while j < FIELD_DATA_BITS
            invariant
                j <= FIELD_DATA_BITS,
                i < fields@.len(),
                bv@ == fields@[i as int]@,
                bv@.len() == FIELD_SIZE_BITS,
                stream@ =~= capacity_stream(fields_bits(fields@.take(i as int))) + bv@.take(
                    j as int,
                ),
            decreases FIELD_DATA_BITS - j,
        {
            let b = bv[j];
            stream.push(b);
            j = j + 1;
            proof {
                assert(stream@ =~= capacity_stream(fields_bits(fields@.take(i as int)))
                    + bv@.take(j as int));
            }
        }
        i = i + 1;
        proof {
            assert(fields_bits(fields@.take(i as int)) =~= fields_bits(
                fields@.take(i - 1),
            ).push(fields@[i - 1]@));
            lemma_capacity_stream_push(fields_bits(fields@.take(i - 1)), fields@[i - 1]@);
            assert(stream@ =~= capacity_stream(fields_bits(fields@.take(i as int))));
        }
    }
    proof {
        assert(fields@.take(fields@.len() as int) =~= fields@);
    }
    let mut j: usize = stream.len();
    proof {
        assert(stream@.take(stream@.len() as int) =~= stream@);
    }
    while j > 0 && !stream[j - 1]
        invariant
            j <= stream@.len(),
            strip_terminus(stream@.take(j as int)) == strip_terminus(stream@),
        decreases j,
    {
        proof {
            assert(stream@.take(j as int).drop_last() =~= stream@.take(j - 1));
        }
        j = j - 1;
    }
    if j == 0 {
        proof {
            assert(stream@.take(0) =~= Seq::<bool>::empty());
        }
        Vec::new()
    } else {
        let mut r: Vec<bool> = Vec::new();
        let mut k: usize = 0;
        while k < j - 1
            invariant
                j >= 1,
                j <= stream@.len(),
                k <= j - 1,
                r@ =~= stream@.take(k as int),
            decreases j - k,
        {
            let b = stream[k];
            r.push(b);
            k = k + 1;
            proof {
                assert(r@ =~= stream@.take(k as int));
            }
        }
        proof {
            assert(strip_terminus(stream@.take(j as int)) == stream@.take(j as int).drop_last());
            assert(stream@.take(j as int).drop_last() =~= stream@.take(j - 1));
        }
        r
    }
}

/// Decoding inverts encoding: the concatenated capacity bits of the encoded
/// chunks are the data bits, the terminus bit, and zero padding; stripping
/// removes exactly the padding and the terminus bit.
pub proof fn lemma_codec_round_trip(data: Seq<bool>)
    ensures
        decode_spec(encode_spec(data)) == data,
{
    let c = data.push(true);
    let stream = capacity_stream(encode_chunks(c));
    lemma_capacity_stream_of_chunks(c);
    let pad = Seq::new((stream.len() - c.len()) as nat, |i: int| false);
    assert(stream =~= c + pad);
    lemma_strip_terminus_false_suffix(c, pad);
    assert(c.last());
    assert(c.drop_last() =~= data);
}

} // verus!
