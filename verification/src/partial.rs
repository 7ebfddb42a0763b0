//! Saving and loading the weights alone, or the state alone, of a saved
//! encoder, decoder, actor or hierarchy. What is read takes its sizes from
//! the record it is read into; everything else of that record stays.
use vstd::prelude::*;
use crate::helpers::{SliceReader, VecWriter};
use crate::saved::{
    ActorLayerModel, ActorModel, DecoderLayerModel, DecoderModel, EncoderLayerModel, EncoderModel, HierarchyModel, LayerModel, ReadError, SampleModel, SavedActor, SavedActorLayer, SavedDecoder, SavedDecoderLayer, SavedEncoder, SavedEncoderLayer, SavedHierarchy, SavedLayer, SavedSample, at, concat_map, encode_sample, get_i32, get_i32s, get_i8s, get_u32, get_u32s, get_u8s, lemma_at_split, lemma_concat_map_at, lemma_concat_map_step, lemma_sample_parts, sample_bytes_fn,
};
use crate::stream::{
    i8_seq_bytes, le_bytes_i32, le_bytes_i32_seq, le_bytes_u32, le_bytes_u32_seq,
    lemma_i32_seq_round_trip, lemma_u32_seq_round_trip,
};

verus! {

// --- Encoder ---

/// The weights of one encoder layer as bytes.
pub open spec fn encoder_layer_weights_fn() -> spec_fn(EncoderLayerModel) -> Seq<u8> {
    |l: EncoderLayerModel| l.weights
}

/// The weight bytes of an encoder: each visible layer's weights, in order.
pub open spec fn encoder_weight_bytes(m: EncoderModel) -> Seq<u8> {
    concat_map(m.layers, encoder_layer_weights_fn())
}

/// `a` differs from `b` at most in the values of its weights.
pub open spec fn encoder_layer_weights_shape(a: EncoderLayerModel, b: EncoderLayerModel) -> bool {
    &&& a.size == b.size
    &&& a.radius == b.radius
    &&& a.totals == b.totals
    &&& a.importance == b.importance
    &&& a.weights.len() == b.weights.len()
}

fn read_encoder_layer_weights(r: &mut SliceReader, l: &mut SavedEncoderLayer) -> (res: Result<(), ReadError>)
    ensures
        final(r).data@ == old(r).data@,
        res is Ok ==> encoder_layer_weights_shape(final(l)@, old(l)@) && at(
            old(r).data@,
            old(r).pos as int,
            encoder_layer_weights_fn()(final(l)@),
        ) && final(r).pos == old(r).pos + encoder_layer_weights_fn()(final(l)@).len(),
        forall|m: EncoderLayerModel|
            encoder_layer_weights_shape(m, old(l)@) && #[trigger] at(
                old(r).data@,
                old(r).pos as int,
                encoder_layer_weights_fn()(m),
            ) ==> (res is Ok && final(l)@ == m),
        res is Err ==> res == Err::<(), ReadError>(ReadError::Truncated),
{
    let n = l.weights.len();
    let w = get_u8s(r, n)?;
    l.weights = w;
    Ok(())
}

/// `a` has the shape of `b`, element by element.
pub open spec fn encoder_layers_weights_shape(a: Seq<EncoderLayerModel>, b: Seq<EncoderLayerModel>) -> bool {
    &&& a.len() == b.len()
    &&& forall|i: int| 0 <= i < a.len() ==> encoder_layer_weights_shape(#[trigger] a[i], b[i])
}

fn read_encoder_layers_weights(r: &mut SliceReader, v: &mut Vec<SavedEncoderLayer>) -> (res: Result<(), ReadError>)
    ensures
        final(r).data@ == old(r).data@,
        res is Ok ==> encoder_layers_weights_shape(final(v)@.map_values(|l: SavedEncoderLayer| l@), old(v)@.map_values(|l: SavedEncoderLayer| l@)) && at(
            old(r).data@,
            old(r).pos as int,
            concat_map(final(v)@.map_values(|l: SavedEncoderLayer| l@), encoder_layer_weights_fn()),
        ) && final(r).pos == old(r).pos + concat_map(final(v)@.map_values(|l: SavedEncoderLayer| l@), encoder_layer_weights_fn()).len(),
        forall|ms: Seq<EncoderLayerModel>|
            encoder_layers_weights_shape(ms, old(v)@.map_values(|l: SavedEncoderLayer| l@)) && #[trigger] at(
                old(r).data@,
                old(r).pos as int,
                concat_map(ms, encoder_layer_weights_fn()),
            ) ==> (res is Ok && final(v)@.map_values(|l: SavedEncoderLayer| l@) == ms),
        res is Err ==> res == Err::<(), ReadError>(ReadError::Truncated),
{
    let ghost d = r.data@;
    let ghost p = r.pos as int;
    let ghost f = encoder_layer_weights_fn();
    let ghost v0 = v@.map_values(|l: SavedEncoderLayer| l@);
    if r.pos > r.data.len() {
        return Err(ReadError::Truncated);
    }
    proof {
        assert(d.subrange(p, p) =~= Seq::<u8>::empty());
        assert(v@.map_values(|l: SavedEncoderLayer| l@).take(0) =~= Seq::<EncoderLayerModel>::empty());
    }
    let n = v.len();
    let mut i: usize = 0;
    while i < n
        invariant
            d == old(r).data@,
            p == old(r).pos,
            r.data@ == d,
            f == encoder_layer_weights_fn(),
            v0 == old(v)@.map_values(|l: SavedEncoderLayer| l@),
            v@.len() == n,
            n == v0.len(),
            i <= n,
            forall|k: int| i <= k < n ==> #[trigger] v@[k]@ == v0[k],
            forall|k: int| 0 <= k < i ==> encoder_layer_weights_shape(#[trigger] v@[k]@, v0[k]),
            at(d, p, concat_map(v@.map_values(|l: SavedEncoderLayer| l@).take(i as int), f)),
            r.pos == p + concat_map(v@.map_values(|l: SavedEncoderLayer| l@).take(i as int), f).len(),
            forall|ms: Seq<EncoderLayerModel>|
                encoder_layers_weights_shape(ms, v0) && #[trigger] at(d, p, concat_map(ms, f)) ==> ms.take(i as int) == v@.map_values(
                    |l: SavedEncoderLayer| l@,
                ).take(i as int),
        decreases n - i,
    {
        let ghost done = v@.map_values(|l: SavedEncoderLayer| l@).take(i as int);
        let ghost before = v@;
        let ghost q = r.pos as int;
        proof {
            assert(v@.map_values(|l: SavedEncoderLayer| l@)[i as int] == v0[i as int]);
            assert forall|ms: Seq<EncoderLayerModel>|
                encoder_layers_weights_shape(ms, v0) && #[trigger] at(d, p, concat_map(ms, f)) implies encoder_layer_weights_shape(
                ms[i as int],
                v@[i as int]@,
            ) && at(d, q, f(ms[i as int])) by {
                lemma_concat_map_at(d, p, ms, f, i as int);
            }
        }
        match read_encoder_layer_weights(r, &mut v[i]) {
            Ok(()) => {
                proof {
                    let now = v@.map_values(|l: SavedEncoderLayer| l@);
                    assert forall|k: int| 0 <= k < n && k != i implies #[trigger] v@[k] == before[k] by {}
                    assert(now.take(i + 1) =~= done.push(now[i as int]));
                    assert(now.take(i + 1).drop_last() =~= done);
                    assert(done =~= before.map_values(|l: SavedEncoderLayer| l@).take(i as int));
                    lemma_at_split(d, p, concat_map(done, f), f(now[i as int]));
                    assert forall|ms: Seq<EncoderLayerModel>|
                        encoder_layers_weights_shape(ms, v0) && #[trigger] at(d, p, concat_map(ms, f)) implies ms.take(i + 1)
                        == now.take(i + 1) by {
                        assert(ms.take(i + 1) =~= ms.take(i as int).push(ms[i as int]));
                    }
                    assert forall|k: int| i + 1 <= k < n implies #[trigger] v@[k]@ == v0[k] by {
                        assert(v@[k] == before[k]);
                    }
                    assert forall|k: int| 0 <= k < i + 1 implies encoder_layer_weights_shape(#[trigger] v@[k]@, v0[k]) by {
                        if k < i {
                            assert(v@[k] == before[k]);
                        }
                    }
                }
                i = i + 1;
            },
            Err(e) => {
                return Err(e);
            },
        }
    }
    proof {
        let now = v@.map_values(|l: SavedEncoderLayer| l@);
        assert(now.take(n as int) =~= now);
        assert forall|ms: Seq<EncoderLayerModel>|
            encoder_layers_weights_shape(ms, v0) && #[trigger] at(d, p, concat_map(ms, f)) implies now == ms by {
            assert(ms.take(n as int) =~= ms);
        }
    }
    Ok(())
}

fn write_encoder_layer_weights(l: &SavedEncoderLayer, w: &mut VecWriter)
    ensures
        final(w).data@ == old(w).data@ + encoder_layer_weights_fn()(l@),
{
    w.write_u8_slice(&l.weights);
}

fn write_encoder_layers_weights(v: &Vec<SavedEncoderLayer>, w: &mut VecWriter)
    ensures
        final(w).data@ == old(w).data@ + concat_map(v@.map_values(|l: SavedEncoderLayer| l@), encoder_layer_weights_fn()),
{
    let ghost base = w.data@;
    let ghost ls = v@.map_values(|l: SavedEncoderLayer| l@);
    let mut i: usize = 0;
    while i < v.len()
        invariant
            i <= v@.len(),
            ls == v@.map_values(|l: SavedEncoderLayer| l@),
            ls.len() == v@.len(),
            w.data@ == base + concat_map(ls.take(i as int), encoder_layer_weights_fn()),
        decreases v@.len() - i,
    {
        write_encoder_layer_weights(&v[i], w);
        proof {
            lemma_concat_map_step(ls, encoder_layer_weights_fn(), i as int);
        }
        i = i + 1;
        assert(w.data@ =~= base + concat_map(ls.take(i as int), encoder_layer_weights_fn()));
    }
    assert(ls.take(i as int) =~= ls);
}

/// `a` differs from `b` at most in the values of its weights.
pub open spec fn encoder_weights_shape(a: EncoderModel, b: EncoderModel) -> bool {
    &&& a.hidden_size == b.hidden_size
    &&& a.hidden_cis == b.hidden_cis
    &&& a.committed == b.committed
    &&& encoder_layers_weights_shape(a.layers, b.layers)
}

/// Write the weights of an encoder.
pub fn encode_encoder_weights(e: &SavedEncoder, w: &mut VecWriter)
    ensures
        final(w).data@ == old(w).data@ + encoder_weight_bytes(e@),
{
    write_encoder_layers_weights(&e.layers, w);
}

fn read_encoder_weights(r: &mut SliceReader, e: &mut SavedEncoder) -> (res: Result<(), ReadError>)
    ensures
        final(r).data@ == old(r).data@,
        res is Ok ==> encoder_weights_shape(final(e)@, old(e)@) && at(
            old(r).data@,
            old(r).pos as int,
            encoder_weight_bytes(final(e)@),
        ) && final(r).pos == old(r).pos + encoder_weight_bytes(final(e)@).len(),
        forall|m: EncoderModel|
            encoder_weights_shape(m, old(e)@) && #[trigger] at(old(r).data@, old(r).pos as int, encoder_weight_bytes(m))
                ==> (res is Ok && final(e)@ == m),
        res is Err ==> res == Err::<(), ReadError>(ReadError::Truncated),
{
    read_encoder_layers_weights(r, &mut e.layers)
}

/// Read the weights of an encoder of the shape of `shape`: its weights are
/// replaced by those read, and everything else of it stays.
pub fn decode_encoder_weights(r: &mut SliceReader, shape: SavedEncoder) -> (res: Result<SavedEncoder, ReadError>)
    ensures
        final(r).data@ == old(r).data@,
        res matches Ok(v) ==> encoder_weights_shape(v@, shape@) && at(
            old(r).data@,
            old(r).pos as int,
            encoder_weight_bytes(v@),
        ) && final(r).pos == old(r).pos + encoder_weight_bytes(v@).len(),
        forall|m: EncoderModel|
            encoder_weights_shape(m, shape@) && #[trigger] at(old(r).data@, old(r).pos as int, encoder_weight_bytes(m))
                ==> (res is Ok && res->Ok_0@ == m),
        res is Err ==> res == Err::<SavedEncoder, ReadError>(ReadError::Truncated),
{
    let mut e = shape;
    match read_encoder_weights(r, &mut e) {
        Ok(()) => Ok(e),
        Err(x) => Err(x),
    }
}

/// The state bytes of an encoder: its hidden column states.
pub open spec fn encoder_state_bytes(m: EncoderModel) -> Seq<u8> {
    le_bytes_i32_seq(m.hidden_cis)
}

/// `a` differs from `b` at most in the values of its state.
pub open spec fn encoder_state_shape(a: EncoderModel, b: EncoderModel) -> bool {
    &&& a.hidden_size == b.hidden_size
    &&& a.committed == b.committed
    &&& a.layers == b.layers
    &&& a.hidden_cis.len() == b.hidden_cis.len()
}

/// Write the state of an encoder.
pub fn encode_encoder_state(e: &SavedEncoder, w: &mut VecWriter)
    ensures
        final(w).data@ == old(w).data@ + encoder_state_bytes(e@),
{
    w.write_i32_slice(&e.hidden_cis);
}

fn read_encoder_state(r: &mut SliceReader, e: &mut SavedEncoder) -> (res: Result<(), ReadError>)
    ensures
        final(r).data@ == old(r).data@,
        res is Ok ==> encoder_state_shape(final(e)@, old(e)@) && at(
            old(r).data@,
            old(r).pos as int,
            encoder_state_bytes(final(e)@),
        ) && final(r).pos == old(r).pos + encoder_state_bytes(final(e)@).len(),
        forall|m: EncoderModel|
            encoder_state_shape(m, old(e)@) && #[trigger] at(old(r).data@, old(r).pos as int, encoder_state_bytes(m))
                ==> (res is Ok && final(e)@ == m),
        res is Err ==> res == Err::<(), ReadError>(ReadError::Truncated),
{
    let n = e.hidden_cis.len();
    let cis = get_i32s(r, n)?;
    e.hidden_cis = cis;
    proof {
        lemma_i32_seq_round_trip(e.hidden_cis@);
    }
    Ok(())
}

/// Read the state of an encoder of the shape of `shape`: its hidden column
/// states are replaced by those read, and everything else of it stays.
pub fn decode_encoder_state(r: &mut SliceReader, shape: SavedEncoder) -> (res: Result<SavedEncoder, ReadError>)
    ensures
        final(r).data@ == old(r).data@,
        res matches Ok(v) ==> encoder_state_shape(v@, shape@) && at(
            old(r).data@,
            old(r).pos as int,
            encoder_state_bytes(v@),
        ) && final(r).pos == old(r).pos + encoder_state_bytes(v@).len(),
        forall|m: EncoderModel|
            encoder_state_shape(m, shape@) && #[trigger] at(old(r).data@, old(r).pos as int, encoder_state_bytes(m))
                ==> (res is Ok && res->Ok_0@ == m),
        res is Err ==> res == Err::<SavedEncoder, ReadError>(ReadError::Truncated),
{
    let mut e = shape;
    match read_encoder_state(r, &mut e) {
        Ok(()) => Ok(e),
        Err(x) => Err(x),
    }
}

// --- Decoder ---

/// The weights of one decoder layer as bytes.
pub open spec fn decoder_layer_weights_fn() -> spec_fn(DecoderLayerModel) -> Seq<u8> {
    |l: DecoderLayerModel| i8_seq_bytes(l.weights)
}

/// The weight bytes of a decoder: each visible layer's weights, in order.
pub open spec fn decoder_weight_bytes(m: DecoderModel) -> Seq<u8> {
    concat_map(m.layers, decoder_layer_weights_fn())
}

/// `a` differs from `b` at most in the values of its weights.
pub open spec fn decoder_layer_weights_shape(a: DecoderLayerModel, b: DecoderLayerModel) -> bool {
    &&& a.size == b.size
    &&& a.radius == b.radius
    &&& a.weights.len() == b.weights.len()
}

fn read_decoder_layer_weights(r: &mut SliceReader, l: &mut SavedDecoderLayer) -> (res: Result<(), ReadError>)
    ensures
        final(r).data@ == old(r).data@,
        res is Ok ==> decoder_layer_weights_shape(final(l)@, old(l)@) && at(
            old(r).data@,
            old(r).pos as int,
            decoder_layer_weights_fn()(final(l)@),
        ) && final(r).pos == old(r).pos + decoder_layer_weights_fn()(final(l)@).len(),
        forall|m: DecoderLayerModel|
            decoder_layer_weights_shape(m, old(l)@) && #[trigger] at(
                old(r).data@,
                old(r).pos as int,
                decoder_layer_weights_fn()(m),
            ) ==> (res is Ok && final(l)@ == m),
        res is Err ==> res == Err::<(), ReadError>(ReadError::Truncated),
{
    let n = l.weights.len();
    let w = get_i8s(r, n)?;
    l.weights = w;
    Ok(())
}

fn write_decoder_layer_weights(l: &SavedDecoderLayer, w: &mut VecWriter)
    ensures
        final(w).data@ == old(w).data@ + decoder_layer_weights_fn()(l@),
{
    w.write_i8_slice(&l.weights);
}

/// `a` has the shape of `b`, element by element.
pub open spec fn decoder_layers_weights_shape(a: Seq<DecoderLayerModel>, b: Seq<DecoderLayerModel>) -> bool {
    &&& a.len() == b.len()
    &&& forall|i: int| 0 <= i < a.len() ==> decoder_layer_weights_shape(#[trigger] a[i], b[i])
}

fn read_decoder_layers_weights(r: &mut SliceReader, v: &mut Vec<SavedDecoderLayer>) -> (res: Result<(), ReadError>)
    ensures
        final(r).data@ == old(r).data@,
        res is Ok ==> decoder_layers_weights_shape(final(v)@.map_values(|l: SavedDecoderLayer| l@), old(v)@.map_values(|l: SavedDecoderLayer| l@)) && at(
            old(r).data@,
            old(r).pos as int,
            concat_map(final(v)@.map_values(|l: SavedDecoderLayer| l@), decoder_layer_weights_fn()),
        ) && final(r).pos == old(r).pos + concat_map(final(v)@.map_values(|l: SavedDecoderLayer| l@), decoder_layer_weights_fn()).len(),
        forall|ms: Seq<DecoderLayerModel>|
            decoder_layers_weights_shape(ms, old(v)@.map_values(|l: SavedDecoderLayer| l@)) && #[trigger] at(
                old(r).data@,
                old(r).pos as int,
                concat_map(ms, decoder_layer_weights_fn()),
            ) ==> (res is Ok && final(v)@.map_values(|l: SavedDecoderLayer| l@) == ms),
        res is Err ==> res == Err::<(), ReadError>(ReadError::Truncated),
{
    let ghost d = r.data@;
    let ghost p = r.pos as int;
    let ghost f = decoder_layer_weights_fn();
    let ghost v0 = v@.map_values(|l: SavedDecoderLayer| l@);
    if r.pos > r.data.len() {
        return Err(ReadError::Truncated);
    }
    proof {
        assert(d.subrange(p, p) =~= Seq::<u8>::empty());
        assert(v@.map_values(|l: SavedDecoderLayer| l@).take(0) =~= Seq::<DecoderLayerModel>::empty());
    }
    let n = v.len();
    let mut i: usize = 0;
    while i < n
        invariant
            d == old(r).data@,
            p == old(r).pos,
            r.data@ == d,
            f == decoder_layer_weights_fn(),
            v0 == old(v)@.map_values(|l: SavedDecoderLayer| l@),
            v@.len() == n,
            n == v0.len(),
            i <= n,
            forall|k: int| i <= k < n ==> #[trigger] v@[k]@ == v0[k],
            forall|k: int| 0 <= k < i ==> decoder_layer_weights_shape(#[trigger] v@[k]@, v0[k]),
            at(d, p, concat_map(v@.map_values(|l: SavedDecoderLayer| l@).take(i as int), f)),
            r.pos == p + concat_map(v@.map_values(|l: SavedDecoderLayer| l@).take(i as int), f).len(),
            forall|ms: Seq<DecoderLayerModel>|
                decoder_layers_weights_shape(ms, v0) && #[trigger] at(d, p, concat_map(ms, f)) ==> ms.take(i as int) == v@.map_values(
                    |l: SavedDecoderLayer| l@,
                ).take(i as int),
        decreases n - i,
    {
        let ghost done = v@.map_values(|l: SavedDecoderLayer| l@).take(i as int);
        let ghost before = v@;
        let ghost q = r.pos as int;
        proof {
            assert(v@.map_values(|l: SavedDecoderLayer| l@)[i as int] == v0[i as int]);
            assert forall|ms: Seq<DecoderLayerModel>|
                decoder_layers_weights_shape(ms, v0) && #[trigger] at(d, p, concat_map(ms, f)) implies decoder_layer_weights_shape(
                ms[i as int],
                v@[i as int]@,
            ) && at(d, q, f(ms[i as int])) by {
                lemma_concat_map_at(d, p, ms, f, i as int);
            }
        }
        match read_decoder_layer_weights(r, &mut v[i]) {
            Ok(()) => {
                proof {
                    let now = v@.map_values(|l: SavedDecoderLayer| l@);
                    assert forall|k: int| 0 <= k < n && k != i implies #[trigger] v@[k] == before[k] by {}
                    assert(now.take(i + 1) =~= done.push(now[i as int]));
                    assert(now.take(i + 1).drop_last() =~= done);
                    assert(done =~= before.map_values(|l: SavedDecoderLayer| l@).take(i as int));
                    lemma_at_split(d, p, concat_map(done, f), f(now[i as int]));
                    assert forall|ms: Seq<DecoderLayerModel>|
                        decoder_layers_weights_shape(ms, v0) && #[trigger] at(d, p, concat_map(ms, f)) implies ms.take(i + 1)
                        == now.take(i + 1) by {
                        assert(ms.take(i + 1) =~= ms.take(i as int).push(ms[i as int]));
                    }
                    assert forall|k: int| i + 1 <= k < n implies #[trigger] v@[k]@ == v0[k] by {
                        assert(v@[k] == before[k]);
                    }
                    assert forall|k: int| 0 <= k < i + 1 implies decoder_layer_weights_shape(#[trigger] v@[k]@, v0[k]) by {
                        if k < i {
                            assert(v@[k] == before[k]);
                        }
                    }
                }
                i = i + 1;
            },
            Err(e) => {
                return Err(e);
            },
        }
    }
    proof {
        let now = v@.map_values(|l: SavedDecoderLayer| l@);
        assert(now.take(n as int) =~= now);
        assert forall|ms: Seq<DecoderLayerModel>|
            decoder_layers_weights_shape(ms, v0) && #[trigger] at(d, p, concat_map(ms, f)) implies now == ms by {
            assert(ms.take(n as int) =~= ms);
        }
    }
    Ok(())
}

fn write_decoder_layers_weights(v: &Vec<SavedDecoderLayer>, w: &mut VecWriter)
    ensures
        final(w).data@ == old(w).data@ + concat_map(v@.map_values(|l: SavedDecoderLayer| l@), decoder_layer_weights_fn()),
{
    let ghost base = w.data@;
    let ghost ls = v@.map_values(|l: SavedDecoderLayer| l@);
    let mut i: usize = 0;
    while i < v.len()
        invariant
            i <= v@.len(),
            ls == v@.map_values(|l: SavedDecoderLayer| l@),
            ls.len() == v@.len(),
            w.data@ == base + concat_map(ls.take(i as int), decoder_layer_weights_fn()),
        decreases v@.len() - i,
    {
        write_decoder_layer_weights(&v[i], w);
        proof {
            lemma_concat_map_step(ls, decoder_layer_weights_fn(), i as int);
        }
        i = i + 1;
        assert(w.data@ =~= base + concat_map(ls.take(i as int), decoder_layer_weights_fn()));
    }
    assert(ls.take(i as int) =~= ls);
}

/// `a` differs from `b` at most in the values of its weights.
pub open spec fn decoder_weights_shape(a: DecoderModel, b: DecoderModel) -> bool {
    &&& a.hidden_size == b.hidden_size
    &&& a.num_dendrites_per_cell == b.num_dendrites_per_cell
    &&& a.hidden_cis == b.hidden_cis
    &&& a.hidden_acts == b.hidden_acts
    &&& a.dendrite_acts == b.dendrite_acts
    &&& decoder_layers_weights_shape(a.layers, b.layers)
}

/// Write the weights of a decoder.
pub fn encode_decoder_weights(e: &SavedDecoder, w: &mut VecWriter)
    ensures
        final(w).data@ == old(w).data@ + decoder_weight_bytes(e@),
{
    write_decoder_layers_weights(&e.layers, w);
}

fn read_decoder_weights(r: &mut SliceReader, e: &mut SavedDecoder) -> (res: Result<(), ReadError>)
    ensures
        final(r).data@ == old(r).data@,
        res is Ok ==> decoder_weights_shape(final(e)@, old(e)@) && at(
            old(r).data@,
            old(r).pos as int,
            decoder_weight_bytes(final(e)@),
        ) && final(r).pos == old(r).pos + decoder_weight_bytes(final(e)@).len(),
        forall|m: DecoderModel|
            decoder_weights_shape(m, old(e)@) && #[trigger] at(old(r).data@, old(r).pos as int, decoder_weight_bytes(m))
                ==> (res is Ok && final(e)@ == m),
        res is Err ==> res == Err::<(), ReadError>(ReadError::Truncated),
{
    read_decoder_layers_weights(r, &mut e.layers)
}

/// Read the weights of a decoder of the shape of `shape`: its weights are
/// replaced by those read, and everything else of it stays.
pub fn decode_decoder_weights(r: &mut SliceReader, shape: SavedDecoder) -> (res: Result<SavedDecoder, ReadError>)
    ensures
        final(r).data@ == old(r).data@,
        res matches Ok(v) ==> decoder_weights_shape(v@, shape@) && at(
            old(r).data@,
            old(r).pos as int,
            decoder_weight_bytes(v@),
        ) && final(r).pos == old(r).pos + decoder_weight_bytes(v@).len(),
        forall|m: DecoderModel|
            decoder_weights_shape(m, shape@) && #[trigger] at(old(r).data@, old(r).pos as int, decoder_weight_bytes(m))
                ==> (res is Ok && res->Ok_0@ == m),
        res is Err ==> res == Err::<SavedDecoder, ReadError>(ReadError::Truncated),
{
    let mut e = shape;
    match read_decoder_weights(r, &mut e) {
        Ok(()) => Ok(e),
        Err(x) => Err(x),
    }
}

/// The state bytes of a decoder: hidden states, hidden activations,
/// dendrite activations.
pub open spec fn decoder_state_bytes(m: DecoderModel) -> Seq<u8> {
    le_bytes_i32_seq(m.hidden_cis) + le_bytes_u32_seq(m.hidden_acts) + le_bytes_u32_seq(m.dendrite_acts)
}

/// `a` differs from `b` at most in the values of its state.
pub open spec fn decoder_state_shape(a: DecoderModel, b: DecoderModel) -> bool {
    &&& a.hidden_size == b.hidden_size
    &&& a.num_dendrites_per_cell == b.num_dendrites_per_cell
    &&& a.layers == b.layers
    &&& a.hidden_cis.len() == b.hidden_cis.len()
    &&& a.hidden_acts.len() == b.hidden_acts.len()
    &&& a.dendrite_acts.len() == b.dendrite_acts.len()
}

/// Write the state of a decoder.
pub fn encode_decoder_state(e: &SavedDecoder, w: &mut VecWriter)
    ensures
        final(w).data@ == old(w).data@ + decoder_state_bytes(e@),
{
    w.write_i32_slice(&e.hidden_cis);
    w.write_u32_slice(&e.hidden_acts);
    w.write_u32_slice(&e.dendrite_acts);
    assert(w.data@ =~= old(w).data@ + decoder_state_bytes(e@));
}

fn read_decoder_state(r: &mut SliceReader, e: &mut SavedDecoder) -> (res: Result<(), ReadError>)
    ensures
        final(r).data@ == old(r).data@,
        res is Ok ==> decoder_state_shape(final(e)@, old(e)@) && at(
            old(r).data@,
            old(r).pos as int,
            decoder_state_bytes(final(e)@),
        ) && final(r).pos == old(r).pos + decoder_state_bytes(final(e)@).len(),
        forall|m: DecoderModel|
            decoder_state_shape(m, old(e)@) && #[trigger] at(old(r).data@, old(r).pos as int, decoder_state_bytes(m))
                ==> (res is Ok && final(e)@ == m),
        res is Err ==> res == Err::<(), ReadError>(ReadError::Truncated),
{
    let ghost d = r.data@;
    let ghost p = r.pos as int;
    let n1 = e.hidden_cis.len();
    let n2 = e.hidden_acts.len();
    let n3 = e.dendrite_acts.len();
    proof {
        assert forall|m: DecoderModel| decoder_state_shape(m, e@) && #[trigger] at(d, p, decoder_state_bytes(m)) implies {
            &&& at(d, p, le_bytes_i32_seq(m.hidden_cis))
            &&& at(d, p + 4 * n1, le_bytes_u32_seq(m.hidden_acts))
            &&& at(d, p + 4 * n1 + 4 * n2, le_bytes_u32_seq(m.dendrite_acts))
        } by {
            lemma_i32_seq_round_trip(m.hidden_cis);
            lemma_u32_seq_round_trip(m.hidden_acts);
            let a = le_bytes_i32_seq(m.hidden_cis);
            let b = le_bytes_u32_seq(m.hidden_acts);
            let c = le_bytes_u32_seq(m.dendrite_acts);
            lemma_at_split(d, p, a + b, c);
            lemma_at_split(d, p, a, b);
        }
    }
    let cis = get_i32s(r, n1)?;
    let acts = get_u32s(r, n2)?;
    let dacts = get_u32s(r, n3)?;
    e.hidden_cis = cis;
    e.hidden_acts = acts;
    e.dendrite_acts = dacts;
    proof {
        lemma_i32_seq_round_trip(e.hidden_cis@);
        lemma_u32_seq_round_trip(e.hidden_acts@);
        lemma_u32_seq_round_trip(e.dendrite_acts@);
        let a = le_bytes_i32_seq(e.hidden_cis@);
        let b = le_bytes_u32_seq(e.hidden_acts@);
        let c = le_bytes_u32_seq(e.dendrite_acts@);
        lemma_at_split(d, p, a + b, c);
        lemma_at_split(d, p, a, b);
    }
    Ok(())
}

/// Read the state of a decoder of the shape of `shape`: its hidden states and
/// activations are replaced by those read, and everything else of it stays.
pub fn decode_decoder_state(r: &mut SliceReader, shape: SavedDecoder) -> (res: Result<SavedDecoder, ReadError>)
    ensures
        final(r).data@ == old(r).data@,
        res matches Ok(v) ==> decoder_state_shape(v@, shape@) && at(
            old(r).data@,
            old(r).pos as int,
            decoder_state_bytes(v@),
        ) && final(r).pos == old(r).pos + decoder_state_bytes(v@).len(),
        forall|m: DecoderModel|
            decoder_state_shape(m, shape@) && #[trigger] at(old(r).data@, old(r).pos as int, decoder_state_bytes(m))
                ==> (res is Ok && res->Ok_0@ == m),
        res is Err ==> res == Err::<SavedDecoder, ReadError>(ReadError::Truncated),
{
    let mut e = shape;
    match read_decoder_state(r, &mut e) {
        Ok(()) => Ok(e),
        Err(x) => Err(x),
    }
}

// --- Actor ---

/// The weights of one actor layer as bytes: value weights, then policy weights.
pub open spec fn actor_layer_weights_fn() -> spec_fn(ActorLayerModel) -> Seq<u8> {
    |l: ActorLayerModel| le_bytes_u32_seq(l.value_weights) + le_bytes_u32_seq(l.policy_weights)
}

/// The weight bytes of an actor: each visible layer's weights, in order.
pub open spec fn actor_weight_bytes(m: ActorModel) -> Seq<u8> {
    concat_map(m.layers, actor_layer_weights_fn())
}

/// `a` differs from `b` at most in the values of its weights.
pub open spec fn actor_layer_weights_shape(a: ActorLayerModel, b: ActorLayerModel) -> bool {
    &&& a.size == b.size
    &&& a.radius == b.radius
    &&& a.value_weights.len() == b.value_weights.len()
    &&& a.policy_weights.len() == b.policy_weights.len()
}

fn read_actor_layer_weights(r: &mut SliceReader, l: &mut SavedActorLayer) -> (res: Result<(), ReadError>)
    ensures
        final(r).data@ == old(r).data@,
        res is Ok ==> actor_layer_weights_shape(final(l)@, old(l)@) && at(
            old(r).data@,
            old(r).pos as int,
            actor_layer_weights_fn()(final(l)@),
        ) && final(r).pos == old(r).pos + actor_layer_weights_fn()(final(l)@).len(),
        forall|m: ActorLayerModel|
            actor_layer_weights_shape(m, old(l)@) && #[trigger] at(
                old(r).data@,
                old(r).pos as int,
                actor_layer_weights_fn()(m),
            ) ==> (res is Ok && final(l)@ == m),
        res is Err ==> res == Err::<(), ReadError>(ReadError::Truncated),
{
    let ghost d = r.data@;
    let ghost p = r.pos as int;
    let n1 = l.value_weights.len();
    let n2 = l.policy_weights.len();
    proof {
        assert forall|m: ActorLayerModel|
            actor_layer_weights_shape(m, l@) && #[trigger] at(d, p, actor_layer_weights_fn()(m)) implies at(
            d,
            p,
            le_bytes_u32_seq(m.value_weights),
        ) && at(d, p + 4 * n1, le_bytes_u32_seq(m.policy_weights)) by {
            lemma_u32_seq_round_trip(m.value_weights);
            lemma_at_split(d, p, le_bytes_u32_seq(m.value_weights), le_bytes_u32_seq(m.policy_weights));
        }
    }
    let a = get_u32s(r, n1)?;
    let b = get_u32s(r, n2)?;
    l.value_weights = a;
    l.policy_weights = b;
    proof {
        lemma_u32_seq_round_trip(l.value_weights@);
        lemma_u32_seq_round_trip(l.policy_weights@);
        lemma_at_split(d, p, le_bytes_u32_seq(l.value_weights@), le_bytes_u32_seq(l.policy_weights@));
    }
    Ok(())
}

fn write_actor_layer_weights(l: &SavedActorLayer, w: &mut VecWriter)
    ensures
        final(w).data@ == old(w).data@ + actor_layer_weights_fn()(l@),
{
    w.write_u32_slice(&l.value_weights);
    w.write_u32_slice(&l.policy_weights);
    assert(w.data@ =~= old(w).data@ + actor_layer_weights_fn()(l@));
}

/// `a` has the shape of `b`, element by element.
pub open spec fn actor_layers_weights_shape(a: Seq<ActorLayerModel>, b: Seq<ActorLayerModel>) -> bool {
    &&& a.len() == b.len()
    &&& forall|i: int| 0 <= i < a.len() ==> actor_layer_weights_shape(#[trigger] a[i], b[i])
}

fn read_actor_layers_weights(r: &mut SliceReader, v: &mut Vec<SavedActorLayer>) -> (res: Result<(), ReadError>)
    ensures
        final(r).data@ == old(r).data@,
        res is Ok ==> actor_layers_weights_shape(final(v)@.map_values(|l: SavedActorLayer| l@), old(v)@.map_values(|l: SavedActorLayer| l@)) && at(
            old(r).data@,
            old(r).pos as int,
            concat_map(final(v)@.map_values(|l: SavedActorLayer| l@), actor_layer_weights_fn()),
        ) && final(r).pos == old(r).pos + concat_map(final(v)@.map_values(|l: SavedActorLayer| l@), actor_layer_weights_fn()).len(),
        forall|ms: Seq<ActorLayerModel>|
            actor_layers_weights_shape(ms, old(v)@.map_values(|l: SavedActorLayer| l@)) && #[trigger] at(
                old(r).data@,
                old(r).pos as int,
                concat_map(ms, actor_layer_weights_fn()),
            ) ==> (res is Ok && final(v)@.map_values(|l: SavedActorLayer| l@) == ms),
        res is Err ==> res == Err::<(), ReadError>(ReadError::Truncated),
{
    let ghost d = r.data@;
    let ghost p = r.pos as int;
    let ghost f = actor_layer_weights_fn();
    let ghost v0 = v@.map_values(|l: SavedActorLayer| l@);
    if r.pos > r.data.len() {
        return Err(ReadError::Truncated);
    }
    proof {
        assert(d.subrange(p, p) =~= Seq::<u8>::empty());
        assert(v@.map_values(|l: SavedActorLayer| l@).take(0) =~= Seq::<ActorLayerModel>::empty());
    }
    let n = v.len();
    let mut i: usize = 0;
    while i < n
        invariant
            d == old(r).data@,
            p == old(r).pos,
            r.data@ == d,
            f == actor_layer_weights_fn(),
            v0 == old(v)@.map_values(|l: SavedActorLayer| l@),
            v@.len() == n,
            n == v0.len(),
            i <= n,
            forall|k: int| i <= k < n ==> #[trigger] v@[k]@ == v0[k],
            forall|k: int| 0 <= k < i ==> actor_layer_weights_shape(#[trigger] v@[k]@, v0[k]),
            at(d, p, concat_map(v@.map_values(|l: SavedActorLayer| l@).take(i as int), f)),
            r.pos == p + concat_map(v@.map_values(|l: SavedActorLayer| l@).take(i as int), f).len(),
            forall|ms: Seq<ActorLayerModel>|
                actor_layers_weights_shape(ms, v0) && #[trigger] at(d, p, concat_map(ms, f)) ==> ms.take(i as int) == v@.map_values(
                    |l: SavedActorLayer| l@,
                ).take(i as int),
        decreases n - i,
    {
        let ghost done = v@.map_values(|l: SavedActorLayer| l@).take(i as int);
        let ghost before = v@;
        let ghost q = r.pos as int;
        proof {
            assert(v@.map_values(|l: SavedActorLayer| l@)[i as int] == v0[i as int]);
            assert forall|ms: Seq<ActorLayerModel>|
                actor_layers_weights_shape(ms, v0) && #[trigger] at(d, p, concat_map(ms, f)) implies actor_layer_weights_shape(
                ms[i as int],
                v@[i as int]@,
            ) && at(d, q, f(ms[i as int])) by {
                lemma_concat_map_at(d, p, ms, f, i as int);
            }
        }
        match read_actor_layer_weights(r, &mut v[i]) {
            Ok(()) => {
                proof {
                    let now = v@.map_values(|l: SavedActorLayer| l@);
                    assert forall|k: int| 0 <= k < n && k != i implies #[trigger] v@[k] == before[k] by {}
                    assert(now.take(i + 1) =~= done.push(now[i as int]));
                    assert(now.take(i + 1).drop_last() =~= done);
                    assert(done =~= before.map_values(|l: SavedActorLayer| l@).take(i as int));
                    lemma_at_split(d, p, concat_map(done, f), f(now[i as int]));
                    assert forall|ms: Seq<ActorLayerModel>|
                        actor_layers_weights_shape(ms, v0) && #[trigger] at(d, p, concat_map(ms, f)) implies ms.take(i + 1)
                        == now.take(i + 1) by {
                        assert(ms.take(i + 1) =~= ms.take(i as int).push(ms[i as int]));
                    }
                    assert forall|k: int| i + 1 <= k < n implies #[trigger] v@[k]@ == v0[k] by {
                        assert(v@[k] == before[k]);
                    }
                    assert forall|k: int| 0 <= k < i + 1 implies actor_layer_weights_shape(#[trigger] v@[k]@, v0[k]) by {
                        if k < i {
                            assert(v@[k] == before[k]);
                        }
                    }
                }
                i = i + 1;
            },
            Err(e) => {
                return Err(e);
            },
        }
    }
    proof {
        let now = v@.map_values(|l: SavedActorLayer| l@);
        assert(now.take(n as int) =~= now);
        assert forall|ms: Seq<ActorLayerModel>|
            actor_layers_weights_shape(ms, v0) && #[trigger] at(d, p, concat_map(ms, f)) implies now == ms by {
            assert(ms.take(n as int) =~= ms);
        }
    }
    Ok(())
}

fn write_actor_layers_weights(v: &Vec<SavedActorLayer>, w: &mut VecWriter)
    ensures
        final(w).data@ == old(w).data@ + concat_map(v@.map_values(|l: SavedActorLayer| l@), actor_layer_weights_fn()),
{
    let ghost base = w.data@;
    let ghost ls = v@.map_values(|l: SavedActorLayer| l@);
    let mut i: usize = 0;
    while i < v.len()
        invariant
            i <= v@.len(),
            ls == v@.map_values(|l: SavedActorLayer| l@),
            ls.len() == v@.len(),
            w.data@ == base + concat_map(ls.take(i as int), actor_layer_weights_fn()),
        decreases v@.len() - i,
    {
        write_actor_layer_weights(&v[i], w);
        proof {
            lemma_concat_map_step(ls, actor_layer_weights_fn(), i as int);
        }
        i = i + 1;
        assert(w.data@ =~= base + concat_map(ls.take(i as int), actor_layer_weights_fn()));
    }
    assert(ls.take(i as int) =~= ls);
}

/// `a` differs from `b` at most in the values of its weights.
pub open spec fn actor_weights_shape(a: ActorModel, b: ActorModel) -> bool {
    &&& a.hidden_size == b.hidden_size
    &&& a.value_size == b.value_size
    &&& a.value_num_dendrites_per_cell == b.value_num_dendrites_per_cell
    &&& a.policy_num_dendrites_per_cell == b.policy_num_dendrites_per_cell
    &&& a.hidden_cis == b.hidden_cis
    &&& a.hidden_values == b.hidden_values
    &&& a.td_scales == b.td_scales
    &&& a.history_size == b.history_size
    &&& a.history_start == b.history_start
    &&& a.samples == b.samples
    &&& actor_layers_weights_shape(a.layers, b.layers)
}

/// Write the weights of an actor.
pub fn encode_actor_weights(e: &SavedActor, w: &mut VecWriter)
    ensures
        final(w).data@ == old(w).data@ + actor_weight_bytes(e@),
{
    write_actor_layers_weights(&e.layers, w);
}

fn read_actor_weights(r: &mut SliceReader, e: &mut SavedActor) -> (res: Result<(), ReadError>)
    ensures
        final(r).data@ == old(r).data@,
        res is Ok ==> actor_weights_shape(final(e)@, old(e)@) && at(
            old(r).data@,
            old(r).pos as int,
            actor_weight_bytes(final(e)@),
        ) && final(r).pos == old(r).pos + actor_weight_bytes(final(e)@).len(),
        forall|m: ActorModel|
            actor_weights_shape(m, old(e)@) && #[trigger] at(old(r).data@, old(r).pos as int, actor_weight_bytes(m))
                ==> (res is Ok && final(e)@ == m),
        res is Err ==> res == Err::<(), ReadError>(ReadError::Truncated),
{
    read_actor_layers_weights(r, &mut e.layers)
}

/// Read the weights of an actor of the shape of `shape`: its weights are
/// replaced by those read, and everything else of it stays.
pub fn decode_actor_weights(r: &mut SliceReader, shape: SavedActor) -> (res: Result<SavedActor, ReadError>)
    ensures
        final(r).data@ == old(r).data@,
        res matches Ok(v) ==> actor_weights_shape(v@, shape@) && at(
            old(r).data@,
            old(r).pos as int,
            actor_weight_bytes(v@),
        ) && final(r).pos == old(r).pos + actor_weight_bytes(v@).len(),
        forall|m: ActorModel|
            actor_weights_shape(m, shape@) && #[trigger] at(old(r).data@, old(r).pos as int, actor_weight_bytes(m))
                ==> (res is Ok && res->Ok_0@ == m),
        res is Err ==> res == Err::<SavedActor, ReadError>(ReadError::Truncated),
{
    let mut e = shape;
    match read_actor_weights(r, &mut e) {
        Ok(()) => Ok(e),
        Err(x) => Err(x),
    }
}

/// `a` differs from `b` at most in the values it holds.
pub open spec fn sample_state_shape(a: SampleModel, b: SampleModel) -> bool {
    &&& a.inputs.len() == b.inputs.len()
    &&& a.targets.len() == b.targets.len()
    &&& a.values.len() == b.values.len()
}

fn read_sample_state(r: &mut SliceReader, x: &mut SavedSample) -> (res: Result<(), ReadError>)
    ensures
        final(r).data@ == old(r).data@,
        res is Ok ==> sample_state_shape(final(x)@, old(x)@) && at(
            old(r).data@,
            old(r).pos as int,
            sample_bytes_fn()(final(x)@),
        ) && final(r).pos == old(r).pos + sample_bytes_fn()(final(x)@).len(),
        forall|m: SampleModel|
            sample_state_shape(m, old(x)@) && #[trigger] at(
                old(r).data@,
                old(r).pos as int,
                sample_bytes_fn()(m),
            ) ==> (res is Ok && final(x)@ == m),
        res is Err ==> res == Err::<(), ReadError>(ReadError::Truncated),
{
    let ghost d = r.data@;
    let ghost p = r.pos as int;
    let n1 = x.inputs.len();
    let n2 = x.targets.len();
    let n3 = x.values.len();
    proof {
        assert forall|m: SampleModel| sample_state_shape(m, x@) && #[trigger] at(d, p, sample_bytes_fn()(m)) implies {
            &&& at(d, p, le_bytes_i32_seq(m.inputs))
            &&& at(d, p + 4 * n1, le_bytes_i32_seq(m.targets))
            &&& at(d, p + 4 * n1 + 4 * n2, le_bytes_u32_seq(m.values))
            &&& at(d, p + 4 * n1 + 4 * n2 + 4 * n3, le_bytes_u32(m.reward))
        } by {
            lemma_sample_parts(d, p, m);
        }
    }
    let inputs = get_i32s(r, n1)?;
    let targets = get_i32s(r, n2)?;
    let values = get_u32s(r, n3)?;
    let reward = get_u32(r)?;
    x.inputs = inputs;
    x.targets = targets;
    x.values = values;
    x.reward = reward;
    proof {
        lemma_i32_seq_round_trip(x@.inputs);
        lemma_i32_seq_round_trip(x@.targets);
        lemma_u32_seq_round_trip(x@.values);
        lemma_sample_parts(d, p, x@);
    }
    Ok(())
}

/// `a` has the shape of `b`, element by element.
pub open spec fn samples_state_shape(a: Seq<SampleModel>, b: Seq<SampleModel>) -> bool {
    &&& a.len() == b.len()
    &&& forall|i: int| 0 <= i < a.len() ==> sample_state_shape(#[trigger] a[i], b[i])
}

fn read_samples_state(r: &mut SliceReader, v: &mut Vec<SavedSample>) -> (res: Result<(), ReadError>)
    ensures
        final(r).data@ == old(r).data@,
        res is Ok ==> samples_state_shape(final(v)@.map_values(|l: SavedSample| l@), old(v)@.map_values(|l: SavedSample| l@)) && at(
            old(r).data@,
            old(r).pos as int,
            concat_map(final(v)@.map_values(|l: SavedSample| l@), sample_bytes_fn()),
        ) && final(r).pos == old(r).pos + concat_map(final(v)@.map_values(|l: SavedSample| l@), sample_bytes_fn()).len(),
        forall|ms: Seq<SampleModel>|
            samples_state_shape(ms, old(v)@.map_values(|l: SavedSample| l@)) && #[trigger] at(
                old(r).data@,
                old(r).pos as int,
                concat_map(ms, sample_bytes_fn()),
            ) ==> (res is Ok && final(v)@.map_values(|l: SavedSample| l@) == ms),
        res is Err ==> res == Err::<(), ReadError>(ReadError::Truncated),
{
    let ghost d = r.data@;
    let ghost p = r.pos as int;
    let ghost f = sample_bytes_fn();
    let ghost v0 = v@.map_values(|l: SavedSample| l@);
    if r.pos > r.data.len() {
        return Err(ReadError::Truncated);
    }
    proof {
        assert(d.subrange(p, p) =~= Seq::<u8>::empty());
        assert(v@.map_values(|l: SavedSample| l@).take(0) =~= Seq::<SampleModel>::empty());
    }
    let n = v.len();
    let mut i: usize = 0;
    while i < n
        invariant
            d == old(r).data@,
            p == old(r).pos,
            r.data@ == d,
            f == sample_bytes_fn(),
            v0 == old(v)@.map_values(|l: SavedSample| l@),
            v@.len() == n,
            n == v0.len(),
            i <= n,
            forall|k: int| i <= k < n ==> #[trigger] v@[k]@ == v0[k],
            forall|k: int| 0 <= k < i ==> sample_state_shape(#[trigger] v@[k]@, v0[k]),
            at(d, p, concat_map(v@.map_values(|l: SavedSample| l@).take(i as int), f)),
            r.pos == p + concat_map(v@.map_values(|l: SavedSample| l@).take(i as int), f).len(),
            forall|ms: Seq<SampleModel>|
                samples_state_shape(ms, v0) && #[trigger] at(d, p, concat_map(ms, f)) ==> ms.take(i as int) == v@.map_values(
                    |l: SavedSample| l@,
                ).take(i as int),
        decreases n - i,
    {
        let ghost done = v@.map_values(|l: SavedSample| l@).take(i as int);
        let ghost before = v@;
        let ghost q = r.pos as int;
        proof {
            assert(v@.map_values(|l: SavedSample| l@)[i as int] == v0[i as int]);
            assert forall|ms: Seq<SampleModel>|
                samples_state_shape(ms, v0) && #[trigger] at(d, p, concat_map(ms, f)) implies sample_state_shape(
                ms[i as int],
                v@[i as int]@,
            ) && at(d, q, f(ms[i as int])) by {
                lemma_concat_map_at(d, p, ms, f, i as int);
            }
        }
        match read_sample_state(r, &mut v[i]) {
            Ok(()) => {
                proof {
                    let now = v@.map_values(|l: SavedSample| l@);
                    assert forall|k: int| 0 <= k < n && k != i implies #[trigger] v@[k] == before[k] by {}
                    assert(now.take(i + 1) =~= done.push(now[i as int]));
                    assert(now.take(i + 1).drop_last() =~= done);
                    assert(done =~= before.map_values(|l: SavedSample| l@).take(i as int));
                    lemma_at_split(d, p, concat_map(done, f), f(now[i as int]));
                    assert forall|ms: Seq<SampleModel>|
                        samples_state_shape(ms, v0) && #[trigger] at(d, p, concat_map(ms, f)) implies ms.take(i + 1)
                        == now.take(i + 1) by {
                        assert(ms.take(i + 1) =~= ms.take(i as int).push(ms[i as int]));
                    }
                    assert forall|k: int| i + 1 <= k < n implies #[trigger] v@[k]@ == v0[k] by {
                        assert(v@[k] == before[k]);
                    }
                    assert forall|k: int| 0 <= k < i + 1 implies sample_state_shape(#[trigger] v@[k]@, v0[k]) by {
                        if k < i {
                            assert(v@[k] == before[k]);
                        }
                    }
                }
                i = i + 1;
            },
            Err(e) => {
                return Err(e);
            },
        }
    }
    proof {
        let now = v@.map_values(|l: SavedSample| l@);
        assert(now.take(n as int) =~= now);
        assert forall|ms: Seq<SampleModel>|
            samples_state_shape(ms, v0) && #[trigger] at(d, p, concat_map(ms, f)) implies now == ms by {
            assert(ms.take(n as int) =~= ms);
        }
    }
    Ok(())
}

fn write_sample_state(x: &SavedSample, w: &mut VecWriter)
    ensures
        final(w).data@ == old(w).data@ + sample_bytes_fn()(x@),
{
    encode_sample(x, w);
}

fn write_samples_state(v: &Vec<SavedSample>, w: &mut VecWriter)
    ensures
        final(w).data@ == old(w).data@ + concat_map(v@.map_values(|l: SavedSample| l@), sample_bytes_fn()),
{
    let ghost base = w.data@;
    let ghost ls = v@.map_values(|l: SavedSample| l@);
    let mut i: usize = 0;
    while i < v.len()
        invariant
            i <= v@.len(),
            ls == v@.map_values(|l: SavedSample| l@),
            ls.len() == v@.len(),
            w.data@ == base + concat_map(ls.take(i as int), sample_bytes_fn()),
        decreases v@.len() - i,
    {
        write_sample_state(&v[i], w);
        proof {
            lemma_concat_map_step(ls, sample_bytes_fn(), i as int);
        }
        i = i + 1;
        assert(w.data@ =~= base + concat_map(ls.take(i as int), sample_bytes_fn()));
    }
    assert(ls.take(i as int) =~= ls);
}

/// The state bytes of an actor: hidden states, values, the number of history
/// steps in use, the front of the history ring, and every history step.
pub open spec fn actor_state_bytes(m: ActorModel) -> Seq<u8> {
    le_bytes_i32_seq(m.hidden_cis) + le_bytes_u32_seq(m.hidden_values) + le_bytes_i32(m.history_size)
        + le_bytes_i32(m.history_start) + concat_map(m.samples, sample_bytes_fn())
}

/// `a` differs from `b` at most in the values of its state.
pub open spec fn actor_state_shape(a: ActorModel, b: ActorModel) -> bool {
    &&& a.hidden_size == b.hidden_size
    &&& a.value_size == b.value_size
    &&& a.value_num_dendrites_per_cell == b.value_num_dendrites_per_cell
    &&& a.policy_num_dendrites_per_cell == b.policy_num_dendrites_per_cell
    &&& a.td_scales == b.td_scales
    &&& a.layers == b.layers
    &&& a.hidden_cis.len() == b.hidden_cis.len()
    &&& a.hidden_values.len() == b.hidden_values.len()
    &&& samples_state_shape(a.samples, b.samples)
}

/// Write the state of an actor.
pub fn encode_actor_state(e: &SavedActor, w: &mut VecWriter)
    ensures
        final(w).data@ == old(w).data@ + actor_state_bytes(e@),
{
    w.write_i32_slice(&e.hidden_cis);
    w.write_u32_slice(&e.hidden_values);
    w.write_i32(e.history_size);
    w.write_i32(e.history_start);
    write_samples_state(&e.samples, w);
    assert(w.data@ =~= old(w).data@ + actor_state_bytes(e@));
}

proof fn lemma_actor_state_parts(d: Seq<u8>, p: int, m: ActorModel)
    ensures
        at(d, p, actor_state_bytes(m)) <==> {
            let o = p + 4 * m.hidden_cis.len() + 4 * m.hidden_values.len();
            &&& at(d, p, le_bytes_i32_seq(m.hidden_cis))
            &&& at(d, p + 4 * m.hidden_cis.len(), le_bytes_u32_seq(m.hidden_values))
            &&& at(d, o, le_bytes_i32(m.history_size))
            &&& at(d, o + 4, le_bytes_i32(m.history_start))
            &&& at(d, o + 8, concat_map(m.samples, sample_bytes_fn()))
        },
{
    lemma_i32_seq_round_trip(m.hidden_cis);
    lemma_u32_seq_round_trip(m.hidden_values);
    let a = le_bytes_i32_seq(m.hidden_cis);
    let b = le_bytes_u32_seq(m.hidden_values);
    let c = le_bytes_i32(m.history_size);
    let e = le_bytes_i32(m.history_start);
    let g = concat_map(m.samples, sample_bytes_fn());
    lemma_at_split(d, p, a + b + c + e, g);
    lemma_at_split(d, p, a + b + c, e);
    lemma_at_split(d, p, a + b, c);
    lemma_at_split(d, p, a, b);
}

fn read_actor_state(r: &mut SliceReader, e: &mut SavedActor) -> (res: Result<(), ReadError>)
    ensures
        final(r).data@ == old(r).data@,
        res is Ok ==> actor_state_shape(final(e)@, old(e)@) && at(
            old(r).data@,
            old(r).pos as int,
            actor_state_bytes(final(e)@),
        ) && final(r).pos == old(r).pos + actor_state_bytes(final(e)@).len(),
        forall|m: ActorModel|
            actor_state_shape(m, old(e)@) && #[trigger] at(old(r).data@, old(r).pos as int, actor_state_bytes(m))
                ==> (res is Ok && final(e)@ == m),
        res is Err ==> res == Err::<(), ReadError>(ReadError::Truncated),
{
    let ghost d = r.data@;
    let ghost p = r.pos as int;
    let n1 = e.hidden_cis.len();
    let n2 = e.hidden_values.len();
    proof {
        assert forall|m: ActorModel| actor_state_shape(m, e@) && #[trigger] at(d, p, actor_state_bytes(m)) implies {
            let o = p + 4 * n1 + 4 * n2;
            &&& at(d, p, le_bytes_i32_seq(m.hidden_cis))
            &&& at(d, p + 4 * n1, le_bytes_u32_seq(m.hidden_values))
            &&& at(d, o, le_bytes_i32(m.history_size))
            &&& at(d, o + 4, le_bytes_i32(m.history_start))
            &&& at(d, o + 8, concat_map(m.samples, sample_bytes_fn()))
        } by {
            lemma_actor_state_parts(d, p, m);
        }
    }
    let cis = get_i32s(r, n1)?;
    let values = get_u32s(r, n2)?;
    let hs = get_i32(r)?;
    let start = get_i32(r)?;
    let ghost s0 = e@.samples;
    read_samples_state(r, &mut e.samples)?;
    e.hidden_cis = cis;
    e.hidden_values = values;
    e.history_size = hs;
    e.history_start = start;
    proof {
        lemma_i32_seq_round_trip(e@.hidden_cis);
        lemma_u32_seq_round_trip(e@.hidden_values);
        lemma_actor_state_parts(d, p, e@);
    }
    Ok(())
}

/// Read the state of an actor of the shape of `shape`: its hidden states,
/// values, history size, ring front and history steps are replaced by those
/// read, and everything else of it stays.
pub fn decode_actor_state(r: &mut SliceReader, shape: SavedActor) -> (res: Result<SavedActor, ReadError>)
    ensures
        final(r).data@ == old(r).data@,
        res matches Ok(v) ==> actor_state_shape(v@, shape@) && at(
            old(r).data@,
            old(r).pos as int,
            actor_state_bytes(v@),
        ) && final(r).pos == old(r).pos + actor_state_bytes(v@).len(),
        forall|m: ActorModel|
            actor_state_shape(m, shape@) && #[trigger] at(old(r).data@, old(r).pos as int, actor_state_bytes(m))
                ==> (res is Ok && res->Ok_0@ == m),
        res is Err ==> res == Err::<SavedActor, ReadError>(ReadError::Truncated),
{
    let mut e = shape;
    match read_actor_state(r, &mut e) {
        Ok(()) => Ok(e),
        Err(x) => Err(x),
    }
}

// --- Hierarchy weights ---

/// [`decoder_weight_bytes`] as a function value.
pub open spec fn decoder_weights_fn() -> spec_fn(DecoderModel) -> Seq<u8> {
    |m: DecoderModel| decoder_weight_bytes(m)
}

/// [`actor_weight_bytes`] as a function value.
pub open spec fn actor_weights_fn() -> spec_fn(ActorModel) -> Seq<u8> {
    |m: ActorModel| actor_weight_bytes(m)
}

fn read_decoder_weights_item(r: &mut SliceReader, x: &mut SavedDecoder) -> (res: Result<(), ReadError>)
    ensures
        final(r).data@ == old(r).data@,
        res is Ok ==> decoder_weights_shape(final(x)@, old(x)@) && at(
            old(r).data@,
            old(r).pos as int,
            decoder_weights_fn()(final(x)@),
        ) && final(r).pos == old(r).pos + decoder_weights_fn()(final(x)@).len(),
        forall|m: DecoderModel|
            decoder_weights_shape(m, old(x)@) && #[trigger] at(old(r).data@, old(r).pos as int, decoder_weights_fn()(m))
                ==> (res is Ok && final(x)@ == m),
        res is Err ==> res == Err::<(), ReadError>(ReadError::Truncated),
{
    proof {
        assert forall|m: DecoderModel| decoder_weights_fn()(m) == decoder_weight_bytes(m) by {}
    }
    read_decoder_weights(r, x)
}

fn write_decoder_weights_item(x: &SavedDecoder, w: &mut VecWriter)
    ensures
        final(w).data@ == old(w).data@ + decoder_weights_fn()(x@),
{
    encode_decoder_weights(x, w);
}

fn read_actor_weights_item(r: &mut SliceReader, x: &mut SavedActor) -> (res: Result<(), ReadError>)
    ensures
        final(r).data@ == old(r).data@,
        res is Ok ==> actor_weights_shape(final(x)@, old(x)@) && at(
            old(r).data@,
            old(r).pos as int,
            actor_weights_fn()(final(x)@),
        ) && final(r).pos == old(r).pos + actor_weights_fn()(final(x)@).len(),
        forall|m: ActorModel|
            actor_weights_shape(m, old(x)@) && #[trigger] at(old(r).data@, old(r).pos as int, actor_weights_fn()(m))
                ==> (res is Ok && final(x)@ == m),
        res is Err ==> res == Err::<(), ReadError>(ReadError::Truncated),
{
    proof {
        assert forall|m: ActorModel| actor_weights_fn()(m) == actor_weight_bytes(m) by {}
    }
    read_actor_weights(r, x)
}

fn write_actor_weights_item(x: &SavedActor, w: &mut VecWriter)
    ensures
        final(w).data@ == old(w).data@ + actor_weights_fn()(x@),
{
    encode_actor_weights(x, w);
}

/// `a` has the shape of `b`, element by element.
pub open spec fn decoders_weights_shape(a: Seq<DecoderModel>, b: Seq<DecoderModel>) -> bool {
    &&& a.len() == b.len()
    &&& forall|i: int| 0 <= i < a.len() ==> decoder_weights_shape(#[trigger] a[i], b[i])
}

fn read_decoders_weights(r: &mut SliceReader, v: &mut Vec<SavedDecoder>) -> (res: Result<(), ReadError>)
    ensures
        final(r).data@ == old(r).data@,
        res is Ok ==> decoders_weights_shape(final(v)@.map_values(|l: SavedDecoder| l@), old(v)@.map_values(|l: SavedDecoder| l@)) && at(
            old(r).data@,
            old(r).pos as int,
            concat_map(final(v)@.map_values(|l: SavedDecoder| l@), decoder_weights_fn()),
        ) && final(r).pos == old(r).pos + concat_map(final(v)@.map_values(|l: SavedDecoder| l@), decoder_weights_fn()).len(),
        forall|ms: Seq<DecoderModel>|
            decoders_weights_shape(ms, old(v)@.map_values(|l: SavedDecoder| l@)) && #[trigger] at(
                old(r).data@,
                old(r).pos as int,
                concat_map(ms, decoder_weights_fn()),
            ) ==> (res is Ok && final(v)@.map_values(|l: SavedDecoder| l@) == ms),
        res is Err ==> res == Err::<(), ReadError>(ReadError::Truncated),
{
    let ghost d = r.data@;
    let ghost p = r.pos as int;
    let ghost f = decoder_weights_fn();
    let ghost v0 = v@.map_values(|l: SavedDecoder| l@);
    if r.pos > r.data.len() {
        return Err(ReadError::Truncated);
    }
    proof {
        assert(d.subrange(p, p) =~= Seq::<u8>::empty());
        assert(v@.map_values(|l: SavedDecoder| l@).take(0) =~= Seq::<DecoderModel>::empty());
    }
    let n = v.len();
    let mut i: usize = 0;
    while i < n
        invariant
            d == old(r).data@,
            p == old(r).pos,
            r.data@ == d,
            f == decoder_weights_fn(),
            v0 == old(v)@.map_values(|l: SavedDecoder| l@),
            v@.len() == n,
            n == v0.len(),
            i <= n,
            forall|k: int| i <= k < n ==> #[trigger] v@[k]@ == v0[k],
            forall|k: int| 0 <= k < i ==> decoder_weights_shape(#[trigger] v@[k]@, v0[k]),
            at(d, p, concat_map(v@.map_values(|l: SavedDecoder| l@).take(i as int), f)),
            r.pos == p + concat_map(v@.map_values(|l: SavedDecoder| l@).take(i as int), f).len(),
            forall|ms: Seq<DecoderModel>|
                decoders_weights_shape(ms, v0) && #[trigger] at(d, p, concat_map(ms, f)) ==> ms.take(i as int) == v@.map_values(
                    |l: SavedDecoder| l@,
                ).take(i as int),
        decreases n - i,
    {
        let ghost done = v@.map_values(|l: SavedDecoder| l@).take(i as int);
        let ghost before = v@;
        let ghost q = r.pos as int;
        proof {
            assert(v@.map_values(|l: SavedDecoder| l@)[i as int] == v0[i as int]);
            assert forall|ms: Seq<DecoderModel>|
                decoders_weights_shape(ms, v0) && #[trigger] at(d, p, concat_map(ms, f)) implies decoder_weights_shape(
                ms[i as int],
                v@[i as int]@,
            ) && at(d, q, f(ms[i as int])) by {
                lemma_concat_map_at(d, p, ms, f, i as int);
            }
        }
        match read_decoder_weights_item(r, &mut v[i]) {
            Ok(()) => {
                proof {
                    let now = v@.map_values(|l: SavedDecoder| l@);
                    assert forall|k: int| 0 <= k < n && k != i implies #[trigger] v@[k] == before[k] by {}
                    assert(now.take(i + 1) =~= done.push(now[i as int]));
                    assert(now.take(i + 1).drop_last() =~= done);
                    assert(done =~= before.map_values(|l: SavedDecoder| l@).take(i as int));
                    lemma_at_split(d, p, concat_map(done, f), f(now[i as int]));
                    assert forall|ms: Seq<DecoderModel>|
                        decoders_weights_shape(ms, v0) && #[trigger] at(d, p, concat_map(ms, f)) implies ms.take(i + 1)
                        == now.take(i + 1) by {
                        assert(ms.take(i + 1) =~= ms.take(i as int).push(ms[i as int]));
                    }
                    assert forall|k: int| i + 1 <= k < n implies #[trigger] v@[k]@ == v0[k] by {
                        assert(v@[k] == before[k]);
                    }
                    assert forall|k: int| 0 <= k < i + 1 implies decoder_weights_shape(#[trigger] v@[k]@, v0[k]) by {
                        if k < i {
                            assert(v@[k] == before[k]);
                        }
                    }
                }
                i = i + 1;
            },
            Err(e) => {
                return Err(e);
            },
        }
    }
    proof {
        let now = v@.map_values(|l: SavedDecoder| l@);
        assert(now.take(n as int) =~= now);
        assert forall|ms: Seq<DecoderModel>|
            decoders_weights_shape(ms, v0) && #[trigger] at(d, p, concat_map(ms, f)) implies now == ms by {
            assert(ms.take(n as int) =~= ms);
        }
    }
    Ok(())
}

fn write_decoders_weights(v: &Vec<SavedDecoder>, w: &mut VecWriter)
    ensures
        final(w).data@ == old(w).data@ + concat_map(v@.map_values(|l: SavedDecoder| l@), decoder_weights_fn()),
{
    let ghost base = w.data@;
    let ghost ls = v@.map_values(|l: SavedDecoder| l@);
    let mut i: usize = 0;
    while i < v.len()
        invariant
            i <= v@.len(),
            ls == v@.map_values(|l: SavedDecoder| l@),
            ls.len() == v@.len(),
            w.data@ == base + concat_map(ls.take(i as int), decoder_weights_fn()),
        decreases v@.len() - i,
    {
        write_decoder_weights_item(&v[i], w);
        proof {
            lemma_concat_map_step(ls, decoder_weights_fn(), i as int);
        }
        i = i + 1;
        assert(w.data@ =~= base + concat_map(ls.take(i as int), decoder_weights_fn()));
    }
    assert(ls.take(i as int) =~= ls);
}

/// `a` has the shape of `b`, element by element.
pub open spec fn actors_weights_shape(a: Seq<ActorModel>, b: Seq<ActorModel>) -> bool {
    &&& a.len() == b.len()
    &&& forall|i: int| 0 <= i < a.len() ==> actor_weights_shape(#[trigger] a[i], b[i])
}

fn read_actors_weights(r: &mut SliceReader, v: &mut Vec<SavedActor>) -> (res: Result<(), ReadError>)
    ensures
        final(r).data@ == old(r).data@,
        res is Ok ==> actors_weights_shape(final(v)@.map_values(|l: SavedActor| l@), old(v)@.map_values(|l: SavedActor| l@)) && at(
            old(r).data@,
            old(r).pos as int,
            concat_map(final(v)@.map_values(|l: SavedActor| l@), actor_weights_fn()),
        ) && final(r).pos == old(r).pos + concat_map(final(v)@.map_values(|l: SavedActor| l@), actor_weights_fn()).len(),
        forall|ms: Seq<ActorModel>|
            actors_weights_shape(ms, old(v)@.map_values(|l: SavedActor| l@)) && #[trigger] at(
                old(r).data@,
                old(r).pos as int,
                concat_map(ms, actor_weights_fn()),
            ) ==> (res is Ok && final(v)@.map_values(|l: SavedActor| l@) == ms),
        res is Err ==> res == Err::<(), ReadError>(ReadError::Truncated),
{
    let ghost d = r.data@;
    let ghost p = r.pos as int;
    let ghost f = actor_weights_fn();
    let ghost v0 = v@.map_values(|l: SavedActor| l@);
    if r.pos > r.data.len() {
        return Err(ReadError::Truncated);
    }
    proof {
        assert(d.subrange(p, p) =~= Seq::<u8>::empty());
        assert(v@.map_values(|l: SavedActor| l@).take(0) =~= Seq::<ActorModel>::empty());
    }
    let n = v.len();
    let mut i: usize = 0;
    while i < n
        invariant
            d == old(r).data@,
            p == old(r).pos,
            r.data@ == d,
            f == actor_weights_fn(),
            v0 == old(v)@.map_values(|l: SavedActor| l@),
            v@.len() == n,
            n == v0.len(),
            i <= n,
            forall|k: int| i <= k < n ==> #[trigger] v@[k]@ == v0[k],
            forall|k: int| 0 <= k < i ==> actor_weights_shape(#[trigger] v@[k]@, v0[k]),
            at(d, p, concat_map(v@.map_values(|l: SavedActor| l@).take(i as int), f)),
            r.pos == p + concat_map(v@.map_values(|l: SavedActor| l@).take(i as int), f).len(),
            forall|ms: Seq<ActorModel>|
                actors_weights_shape(ms, v0) && #[trigger] at(d, p, concat_map(ms, f)) ==> ms.take(i as int) == v@.map_values(
                    |l: SavedActor| l@,
                ).take(i as int),
        decreases n - i,
    {
        let ghost done = v@.map_values(|l: SavedActor| l@).take(i as int);
        let ghost before = v@;
        let ghost q = r.pos as int;
        proof {
            assert(v@.map_values(|l: SavedActor| l@)[i as int] == v0[i as int]);
            assert forall|ms: Seq<ActorModel>|
                actors_weights_shape(ms, v0) && #[trigger] at(d, p, concat_map(ms, f)) implies actor_weights_shape(
                ms[i as int],
                v@[i as int]@,
            ) && at(d, q, f(ms[i as int])) by {
                lemma_concat_map_at(d, p, ms, f, i as int);
            }
        }
        match read_actor_weights_item(r, &mut v[i]) {
            Ok(()) => {
                proof {
                    let now = v@.map_values(|l: SavedActor| l@);
                    assert forall|k: int| 0 <= k < n && k != i implies #[trigger] v@[k] == before[k] by {}
                    assert(now.take(i + 1) =~= done.push(now[i as int]));
                    assert(now.take(i + 1).drop_last() =~= done);
                    assert(done =~= before.map_values(|l: SavedActor| l@).take(i as int));
                    lemma_at_split(d, p, concat_map(done, f), f(now[i as int]));
                    assert forall|ms: Seq<ActorModel>|
                        actors_weights_shape(ms, v0) && #[trigger] at(d, p, concat_map(ms, f)) implies ms.take(i + 1)
                        == now.take(i + 1) by {
                        assert(ms.take(i + 1) =~= ms.take(i as int).push(ms[i as int]));
                    }
                    assert forall|k: int| i + 1 <= k < n implies #[trigger] v@[k]@ == v0[k] by {
                        assert(v@[k] == before[k]);
                    }
                    assert forall|k: int| 0 <= k < i + 1 implies actor_weights_shape(#[trigger] v@[k]@, v0[k]) by {
                        if k < i {
                            assert(v@[k] == before[k]);
                        }
                    }
                }
                i = i + 1;
            },
            Err(e) => {
                return Err(e);
            },
        }
    }
    proof {
        let now = v@.map_values(|l: SavedActor| l@);
        assert(now.take(n as int) =~= now);
        assert forall|ms: Seq<ActorModel>|
            actors_weights_shape(ms, v0) && #[trigger] at(d, p, concat_map(ms, f)) implies now == ms by {
            assert(ms.take(n as int) =~= ms);
        }
    }
    Ok(())
}

fn write_actors_weights(v: &Vec<SavedActor>, w: &mut VecWriter)
    ensures
        final(w).data@ == old(w).data@ + concat_map(v@.map_values(|l: SavedActor| l@), actor_weights_fn()),
{
    let ghost base = w.data@;
    let ghost ls = v@.map_values(|l: SavedActor| l@);
    let mut i: usize = 0;
    while i < v.len()
        invariant
            i <= v@.len(),
            ls == v@.map_values(|l: SavedActor| l@),
            ls.len() == v@.len(),
            w.data@ == base + concat_map(ls.take(i as int), actor_weights_fn()),
        decreases v@.len() - i,
    {
        write_actor_weights_item(&v[i], w);
        proof {
            lemma_concat_map_step(ls, actor_weights_fn(), i as int);
        }
        i = i + 1;
        assert(w.data@ =~= base + concat_map(ls.take(i as int), actor_weights_fn()));
    }
    assert(ls.take(i as int) =~= ls);
}

/// The weight bytes of one layer: its encoder's, then its decoders'.
pub open spec fn layer_weights_fn() -> spec_fn(LayerModel) -> Seq<u8> {
    |m: LayerModel| encoder_weight_bytes(m.encoder) + concat_map(m.decoders, decoder_weights_fn())
}

/// `a` differs from `b` at most in the values of its weights.
pub open spec fn layer_weights_shape(a: LayerModel, b: LayerModel) -> bool {
    &&& encoder_weights_shape(a.encoder, b.encoder)
    &&& decoders_weights_shape(a.decoders, b.decoders)
}

fn read_layer_weights(r: &mut SliceReader, x: &mut SavedLayer) -> (res: Result<(), ReadError>)
    ensures
        final(r).data@ == old(r).data@,
        res is Ok ==> layer_weights_shape(final(x)@, old(x)@) && at(
            old(r).data@,
            old(r).pos as int,
            layer_weights_fn()(final(x)@),
        ) && final(r).pos == old(r).pos + layer_weights_fn()(final(x)@).len(),
        forall|m: LayerModel|
            layer_weights_shape(m, old(x)@) && #[trigger] at(old(r).data@, old(r).pos as int, layer_weights_fn()(m))
                ==> (res is Ok && final(x)@ == m),
        res is Err ==> res == Err::<(), ReadError>(ReadError::Truncated),
{
    let ghost d = r.data@;
    let ghost p = r.pos as int;
    proof {
        assert forall|m: LayerModel| layer_weights_shape(m, x@) && #[trigger] at(d, p, layer_weights_fn()(m)) implies at(
            d,
            p,
            encoder_weight_bytes(m.encoder),
        ) && at(d, p + encoder_weight_bytes(m.encoder).len(), concat_map(m.decoders, decoder_weights_fn())) by {
            lemma_at_split(d, p, encoder_weight_bytes(m.encoder), concat_map(m.decoders, decoder_weights_fn()));
        }
    }
    read_encoder_weights(r, &mut x.encoder)?;
    read_decoders_weights(r, &mut x.decoders)?;
    proof {
        lemma_at_split(d, p, encoder_weight_bytes(x@.encoder), concat_map(x@.decoders, decoder_weights_fn()));
    }
    Ok(())
}

fn write_layer_weights(x: &SavedLayer, w: &mut VecWriter)
    ensures
        final(w).data@ == old(w).data@ + layer_weights_fn()(x@),
{
    encode_encoder_weights(&x.encoder, w);
    write_decoders_weights(&x.decoders, w);
    assert(w.data@ =~= old(w).data@ + layer_weights_fn()(x@));
}

/// `a` has the shape of `b`, element by element.
pub open spec fn layers_weights_shape(a: Seq<LayerModel>, b: Seq<LayerModel>) -> bool {
    &&& a.len() == b.len()
    &&& forall|i: int| 0 <= i < a.len() ==> layer_weights_shape(#[trigger] a[i], b[i])
}

fn read_layers_weights(r: &mut SliceReader, v: &mut Vec<SavedLayer>) -> (res: Result<(), ReadError>)
    ensures
        final(r).data@ == old(r).data@,
        res is Ok ==> layers_weights_shape(final(v)@.map_values(|l: SavedLayer| l@), old(v)@.map_values(|l: SavedLayer| l@)) && at(
            old(r).data@,
            old(r).pos as int,
            concat_map(final(v)@.map_values(|l: SavedLayer| l@), layer_weights_fn()),
        ) && final(r).pos == old(r).pos + concat_map(final(v)@.map_values(|l: SavedLayer| l@), layer_weights_fn()).len(),
        forall|ms: Seq<LayerModel>|
            layers_weights_shape(ms, old(v)@.map_values(|l: SavedLayer| l@)) && #[trigger] at(
                old(r).data@,
                old(r).pos as int,
                concat_map(ms, layer_weights_fn()),
            ) ==> (res is Ok && final(v)@.map_values(|l: SavedLayer| l@) == ms),
        res is Err ==> res == Err::<(), ReadError>(ReadError::Truncated),
{
    let ghost d = r.data@;
    let ghost p = r.pos as int;
    let ghost f = layer_weights_fn();
    let ghost v0 = v@.map_values(|l: SavedLayer| l@);
    if r.pos > r.data.len() {
        return Err(ReadError::Truncated);
    }
    proof {
        assert(d.subrange(p, p) =~= Seq::<u8>::empty());
        assert(v@.map_values(|l: SavedLayer| l@).take(0) =~= Seq::<LayerModel>::empty());
    }
    let n = v.len();
    let mut i: usize = 0;
    while i < n
        invariant
            d == old(r).data@,
            p == old(r).pos,
            r.data@ == d,
            f == layer_weights_fn(),
            v0 == old(v)@.map_values(|l: SavedLayer| l@),
            v@.len() == n,
            n == v0.len(),
            i <= n,
            forall|k: int| i <= k < n ==> #[trigger] v@[k]@ == v0[k],
            forall|k: int| 0 <= k < i ==> layer_weights_shape(#[trigger] v@[k]@, v0[k]),
            at(d, p, concat_map(v@.map_values(|l: SavedLayer| l@).take(i as int), f)),
            r.pos == p + concat_map(v@.map_values(|l: SavedLayer| l@).take(i as int), f).len(),
            forall|ms: Seq<LayerModel>|
                layers_weights_shape(ms, v0) && #[trigger] at(d, p, concat_map(ms, f)) ==> ms.take(i as int) == v@.map_values(
                    |l: SavedLayer| l@,
                ).take(i as int),
        decreases n - i,
    {
        let ghost done = v@.map_values(|l: SavedLayer| l@).take(i as int);
        let ghost before = v@;
        let ghost q = r.pos as int;
        proof {
            assert(v@.map_values(|l: SavedLayer| l@)[i as int] == v0[i as int]);
            assert forall|ms: Seq<LayerModel>|
                layers_weights_shape(ms, v0) && #[trigger] at(d, p, concat_map(ms, f)) implies layer_weights_shape(
                ms[i as int],
                v@[i as int]@,
            ) && at(d, q, f(ms[i as int])) by {
                lemma_concat_map_at(d, p, ms, f, i as int);
            }
        }
        match read_layer_weights(r, &mut v[i]) {
            Ok(()) => {
                proof {
                    let now = v@.map_values(|l: SavedLayer| l@);
                    assert forall|k: int| 0 <= k < n && k != i implies #[trigger] v@[k] == before[k] by {}
                    assert(now.take(i + 1) =~= done.push(now[i as int]));
                    assert(now.take(i + 1).drop_last() =~= done);
                    assert(done =~= before.map_values(|l: SavedLayer| l@).take(i as int));
                    lemma_at_split(d, p, concat_map(done, f), f(now[i as int]));
                    assert forall|ms: Seq<LayerModel>|
                        layers_weights_shape(ms, v0) && #[trigger] at(d, p, concat_map(ms, f)) implies ms.take(i + 1)
                        == now.take(i + 1) by {
                        assert(ms.take(i + 1) =~= ms.take(i as int).push(ms[i as int]));
                    }
                    assert forall|k: int| i + 1 <= k < n implies #[trigger] v@[k]@ == v0[k] by {
                        assert(v@[k] == before[k]);
                    }
                    assert forall|k: int| 0 <= k < i + 1 implies layer_weights_shape(#[trigger] v@[k]@, v0[k]) by {
                        if k < i {
                            assert(v@[k] == before[k]);
                        }
                    }
                }
                i = i + 1;
            },
            Err(e) => {
                return Err(e);
            },
        }
    }
    proof {
        let now = v@.map_values(|l: SavedLayer| l@);
        assert(now.take(n as int) =~= now);
        assert forall|ms: Seq<LayerModel>|
            layers_weights_shape(ms, v0) && #[trigger] at(d, p, concat_map(ms, f)) implies now == ms by {
            assert(ms.take(n as int) =~= ms);
        }
    }
    Ok(())
}

fn write_layers_weights(v: &Vec<SavedLayer>, w: &mut VecWriter)
    ensures
        final(w).data@ == old(w).data@ + concat_map(v@.map_values(|l: SavedLayer| l@), layer_weights_fn()),
{
    let ghost base = w.data@;
    let ghost ls = v@.map_values(|l: SavedLayer| l@);
    let mut i: usize = 0;
    while i < v.len()
        invariant
            i <= v@.len(),
            ls == v@.map_values(|l: SavedLayer| l@),
            ls.len() == v@.len(),
            w.data@ == base + concat_map(ls.take(i as int), layer_weights_fn()),
        decreases v@.len() - i,
    {
        write_layer_weights(&v[i], w);
        proof {
            lemma_concat_map_step(ls, layer_weights_fn(), i as int);
        }
        i = i + 1;
        assert(w.data@ =~= base + concat_map(ls.take(i as int), layer_weights_fn()));
    }
    assert(ls.take(i as int) =~= ls);
}

/// The weight bytes of a hierarchy: each layer's (its encoder's, then its
/// decoders'), then each actor's.
pub open spec fn hierarchy_weight_bytes(m: HierarchyModel) -> Seq<u8> {
    concat_map(m.layers, layer_weights_fn()) + concat_map(m.actors, actor_weights_fn())
}

/// `a` differs from `b` at most in the values of its weights.
pub open spec fn hierarchy_weights_shape(a: HierarchyModel, b: HierarchyModel) -> bool {
    &&& a.num_predictions == b.num_predictions
    &&& a.maps == b.maps
    &&& a.layer_params == b.layer_params
    &&& a.io_params == b.io_params
    &&& a.anticipation == b.anticipation
    &&& layers_weights_shape(a.layers, b.layers)
    &&& actors_weights_shape(a.actors, b.actors)
}

/// Write the weights of a hierarchy.
pub fn encode_hierarchy_weights(h: &SavedHierarchy, w: &mut VecWriter)
    ensures
        final(w).data@ == old(w).data@ + hierarchy_weight_bytes(h@),
{
    write_layers_weights(&h.layers, w);
    write_actors_weights(&h.actors, w);
    assert(w.data@ =~= old(w).data@ + hierarchy_weight_bytes(h@));
}

fn read_hierarchy_weights(r: &mut SliceReader, h: &mut SavedHierarchy) -> (res: Result<(), ReadError>)
    ensures
        final(r).data@ == old(r).data@,
        res is Ok ==> hierarchy_weights_shape(final(h)@, old(h)@) && at(
            old(r).data@,
            old(r).pos as int,
            hierarchy_weight_bytes(final(h)@),
        ) && final(r).pos == old(r).pos + hierarchy_weight_bytes(final(h)@).len(),
        forall|m: HierarchyModel|
            hierarchy_weights_shape(m, old(h)@) && #[trigger] at(old(r).data@, old(r).pos as int, hierarchy_weight_bytes(m))
                ==> (res is Ok && final(h)@ == m),
        res is Err ==> res == Err::<(), ReadError>(ReadError::Truncated),
{
    let ghost d = r.data@;
    let ghost p = r.pos as int;
    proof {
        assert forall|m: HierarchyModel| hierarchy_weights_shape(m, h@) && #[trigger] at(d, p, hierarchy_weight_bytes(m)) implies at(
            d,
            p,
            concat_map(m.layers, layer_weights_fn()),
        ) && at(d, p + concat_map(m.layers, layer_weights_fn()).len(), concat_map(m.actors, actor_weights_fn())) by {
            lemma_at_split(d, p, concat_map(m.layers, layer_weights_fn()), concat_map(m.actors, actor_weights_fn()));
        }
    }
    read_layers_weights(r, &mut h.layers)?;
    read_actors_weights(r, &mut h.actors)?;
    proof {
        lemma_at_split(d, p, concat_map(h@.layers, layer_weights_fn()), concat_map(h@.actors, actor_weights_fn()));
    }
    Ok(())
}

/// Read the weights of a hierarchy of the shape of `shape`: its weights are
/// replaced by those read, and everything else of it stays. Only a stream too
/// short for the weights of that shape fails.
pub fn decode_hierarchy_weights(r: &mut SliceReader, shape: SavedHierarchy) -> (res: Result<SavedHierarchy, ReadError>)
    ensures
        final(r).data@ == old(r).data@,
        res matches Ok(v) ==> hierarchy_weights_shape(v@, shape@) && at(
            old(r).data@,
            old(r).pos as int,
            hierarchy_weight_bytes(v@),
        ) && final(r).pos == old(r).pos + hierarchy_weight_bytes(v@).len(),
        forall|m: HierarchyModel|
            hierarchy_weights_shape(m, shape@) && #[trigger] at(old(r).data@, old(r).pos as int, hierarchy_weight_bytes(m))
                ==> (res is Ok && res->Ok_0@ == m),
        res is Err ==> res == Err::<SavedHierarchy, ReadError>(ReadError::Truncated),
{
    let mut h = shape;
    match read_hierarchy_weights(r, &mut h) {
        Ok(()) => Ok(h),
        Err(x) => Err(x),
    }
}

// --- Hierarchy state ---

/// [`decoder_state_bytes`] as a function value.
pub open spec fn decoder_state_fn() -> spec_fn(DecoderModel) -> Seq<u8> {
    |m: DecoderModel| decoder_state_bytes(m)
}

/// [`actor_state_bytes`] as a function value.
pub open spec fn actor_state_fn() -> spec_fn(ActorModel) -> Seq<u8> {
    |m: ActorModel| actor_state_bytes(m)
}

fn read_decoder_state_item(r: &mut SliceReader, x: &mut SavedDecoder) -> (res: Result<(), ReadError>)
    ensures
        final(r).data@ == old(r).data@,
        res is Ok ==> decoder_state_shape(final(x)@, old(x)@) && at(
            old(r).data@,
            old(r).pos as int,
            decoder_state_fn()(final(x)@),
        ) && final(r).pos == old(r).pos + decoder_state_fn()(final(x)@).len(),
        forall|m: DecoderModel|
            decoder_state_shape(m, old(x)@) && #[trigger] at(old(r).data@, old(r).pos as int, decoder_state_fn()(m))
                ==> (res is Ok && final(x)@ == m),
        res is Err ==> res == Err::<(), ReadError>(ReadError::Truncated),
{
    proof {
        assert forall|m: DecoderModel| decoder_state_fn()(m) == decoder_state_bytes(m) by {}
    }
    read_decoder_state(r, x)
}

fn write_decoder_state_item(x: &SavedDecoder, w: &mut VecWriter)
    ensures
        final(w).data@ == old(w).data@ + decoder_state_fn()(x@),
{
    encode_decoder_state(x, w);
}

fn read_actor_state_item(r: &mut SliceReader, x: &mut SavedActor) -> (res: Result<(), ReadError>)
    ensures
        final(r).data@ == old(r).data@,
        res is Ok ==> actor_state_shape(final(x)@, old(x)@) && at(
            old(r).data@,
            old(r).pos as int,
            actor_state_fn()(final(x)@),
        ) && final(r).pos == old(r).pos + actor_state_fn()(final(x)@).len(),
        forall|m: ActorModel|
            actor_state_shape(m, old(x)@) && #[trigger] at(old(r).data@, old(r).pos as int, actor_state_fn()(m))
                ==> (res is Ok && final(x)@ == m),
        res is Err ==> res == Err::<(), ReadError>(ReadError::Truncated),
{
    proof {
        assert forall|m: ActorModel| actor_state_fn()(m) == actor_state_bytes(m) by {}
    }
    read_actor_state(r, x)
}

fn write_actor_state_item(x: &SavedActor, w: &mut VecWriter)
    ensures
        final(w).data@ == old(w).data@ + actor_state_fn()(x@),
{
    encode_actor_state(x, w);
}

/// `a` has the shape of `b`, element by element.
pub open spec fn decoders_state_shape(a: Seq<DecoderModel>, b: Seq<DecoderModel>) -> bool {
    &&& a.len() == b.len()
    &&& forall|i: int| 0 <= i < a.len() ==> decoder_state_shape(#[trigger] a[i], b[i])
}

fn read_decoders_state(r: &mut SliceReader, v: &mut Vec<SavedDecoder>) -> (res: Result<(), ReadError>)
    ensures
        final(r).data@ == old(r).data@,
        res is Ok ==> decoders_state_shape(final(v)@.map_values(|l: SavedDecoder| l@), old(v)@.map_values(|l: SavedDecoder| l@)) && at(
            old(r).data@,
            old(r).pos as int,
            concat_map(final(v)@.map_values(|l: SavedDecoder| l@), decoder_state_fn()),
        ) && final(r).pos == old(r).pos + concat_map(final(v)@.map_values(|l: SavedDecoder| l@), decoder_state_fn()).len(),
        forall|ms: Seq<DecoderModel>|
            decoders_state_shape(ms, old(v)@.map_values(|l: SavedDecoder| l@)) && #[trigger] at(
                old(r).data@,
                old(r).pos as int,
                concat_map(ms, decoder_state_fn()),
            ) ==> (res is Ok && final(v)@.map_values(|l: SavedDecoder| l@) == ms),
        res is Err ==> res == Err::<(), ReadError>(ReadError::Truncated),
{
    let ghost d = r.data@;
    let ghost p = r.pos as int;
    let ghost f = decoder_state_fn();
    let ghost v0 = v@.map_values(|l: SavedDecoder| l@);
    if r.pos > r.data.len() {
        return Err(ReadError::Truncated);
    }
    proof {
        assert(d.subrange(p, p) =~= Seq::<u8>::empty());
        assert(v@.map_values(|l: SavedDecoder| l@).take(0) =~= Seq::<DecoderModel>::empty());
    }
    let n = v.len();
    let mut i: usize = 0;
    while i < n
        invariant
            d == old(r).data@,
            p == old(r).pos,
            r.data@ == d,
            f == decoder_state_fn(),
            v0 == old(v)@.map_values(|l: SavedDecoder| l@),
            v@.len() == n,
            n == v0.len(),
            i <= n,
            forall|k: int| i <= k < n ==> #[trigger] v@[k]@ == v0[k],
            forall|k: int| 0 <= k < i ==> decoder_state_shape(#[trigger] v@[k]@, v0[k]),
            at(d, p, concat_map(v@.map_values(|l: SavedDecoder| l@).take(i as int), f)),
            r.pos == p + concat_map(v@.map_values(|l: SavedDecoder| l@).take(i as int), f).len(),
            forall|ms: Seq<DecoderModel>|
                decoders_state_shape(ms, v0) && #[trigger] at(d, p, concat_map(ms, f)) ==> ms.take(i as int) == v@.map_values(
                    |l: SavedDecoder| l@,
                ).take(i as int),
        decreases n - i,
    {
        let ghost done = v@.map_values(|l: SavedDecoder| l@).take(i as int);
        let ghost before = v@;
        let ghost q = r.pos as int;
        proof {
            assert(v@.map_values(|l: SavedDecoder| l@)[i as int] == v0[i as int]);
            assert forall|ms: Seq<DecoderModel>|
                decoders_state_shape(ms, v0) && #[trigger] at(d, p, concat_map(ms, f)) implies decoder_state_shape(
                ms[i as int],
                v@[i as int]@,
            ) && at(d, q, f(ms[i as int])) by {
                lemma_concat_map_at(d, p, ms, f, i as int);
            }
        }
        match read_decoder_state_item(r, &mut v[i]) {
            Ok(()) => {
                proof {
                    let now = v@.map_values(|l: SavedDecoder| l@);
                    assert forall|k: int| 0 <= k < n && k != i implies #[trigger] v@[k] == before[k] by {}
                    assert(now.take(i + 1) =~= done.push(now[i as int]));
                    assert(now.take(i + 1).drop_last() =~= done);
                    assert(done =~= before.map_values(|l: SavedDecoder| l@).take(i as int));
                    lemma_at_split(d, p, concat_map(done, f), f(now[i as int]));
                    assert forall|ms: Seq<DecoderModel>|
                        decoders_state_shape(ms, v0) && #[trigger] at(d, p, concat_map(ms, f)) implies ms.take(i + 1)
                        == now.take(i + 1) by {
                        assert(ms.take(i + 1) =~= ms.take(i as int).push(ms[i as int]));
                    }
                    assert forall|k: int| i + 1 <= k < n implies #[trigger] v@[k]@ == v0[k] by {
                        assert(v@[k] == before[k]);
                    }
                    assert forall|k: int| 0 <= k < i + 1 implies decoder_state_shape(#[trigger] v@[k]@, v0[k]) by {
                        if k < i {
                            assert(v@[k] == before[k]);
                        }
                    }
                }
                i = i + 1;
            },
            Err(e) => {
                return Err(e);
            },
        }
    }
    proof {
        let now = v@.map_values(|l: SavedDecoder| l@);
        assert(now.take(n as int) =~= now);
        assert forall|ms: Seq<DecoderModel>|
            decoders_state_shape(ms, v0) && #[trigger] at(d, p, concat_map(ms, f)) implies now == ms by {
            assert(ms.take(n as int) =~= ms);
        }
    }
    Ok(())
}

fn write_decoders_state(v: &Vec<SavedDecoder>, w: &mut VecWriter)
    ensures
        final(w).data@ == old(w).data@ + concat_map(v@.map_values(|l: SavedDecoder| l@), decoder_state_fn()),
{
    let ghost base = w.data@;
    let ghost ls = v@.map_values(|l: SavedDecoder| l@);
    let mut i: usize = 0;
    while i < v.len()
        invariant
            i <= v@.len(),
            ls == v@.map_values(|l: SavedDecoder| l@),
            ls.len() == v@.len(),
            w.data@ == base + concat_map(ls.take(i as int), decoder_state_fn()),
        decreases v@.len() - i,
    {
        write_decoder_state_item(&v[i], w);
        proof {
            lemma_concat_map_step(ls, decoder_state_fn(), i as int);
        }
        i = i + 1;
        assert(w.data@ =~= base + concat_map(ls.take(i as int), decoder_state_fn()));
    }
    assert(ls.take(i as int) =~= ls);
}

/// `a` has the shape of `b`, element by element.
pub open spec fn actors_state_shape(a: Seq<ActorModel>, b: Seq<ActorModel>) -> bool {
    &&& a.len() == b.len()
    &&& forall|i: int| 0 <= i < a.len() ==> actor_state_shape(#[trigger] a[i], b[i])
}

fn read_actors_state(r: &mut SliceReader, v: &mut Vec<SavedActor>) -> (res: Result<(), ReadError>)
    ensures
        final(r).data@ == old(r).data@,
        res is Ok ==> actors_state_shape(final(v)@.map_values(|l: SavedActor| l@), old(v)@.map_values(|l: SavedActor| l@)) && at(
            old(r).data@,
            old(r).pos as int,
            concat_map(final(v)@.map_values(|l: SavedActor| l@), actor_state_fn()),
        ) && final(r).pos == old(r).pos + concat_map(final(v)@.map_values(|l: SavedActor| l@), actor_state_fn()).len(),
        forall|ms: Seq<ActorModel>|
            actors_state_shape(ms, old(v)@.map_values(|l: SavedActor| l@)) && #[trigger] at(
                old(r).data@,
                old(r).pos as int,
                concat_map(ms, actor_state_fn()),
            ) ==> (res is Ok && final(v)@.map_values(|l: SavedActor| l@) == ms),
        res is Err ==> res == Err::<(), ReadError>(ReadError::Truncated),
{
    let ghost d = r.data@;
    let ghost p = r.pos as int;
    let ghost f = actor_state_fn();
    let ghost v0 = v@.map_values(|l: SavedActor| l@);
    if r.pos > r.data.len() {
        return Err(ReadError::Truncated);
    }
    proof {
        assert(d.subrange(p, p) =~= Seq::<u8>::empty());
        assert(v@.map_values(|l: SavedActor| l@).take(0) =~= Seq::<ActorModel>::empty());
    }
    let n = v.len();
    let mut i: usize = 0;
    while i < n
        invariant
            d == old(r).data@,
            p == old(r).pos,
            r.data@ == d,
            f == actor_state_fn(),
            v0 == old(v)@.map_values(|l: SavedActor| l@),
            v@.len() == n,
            n == v0.len(),
            i <= n,
            forall|k: int| i <= k < n ==> #[trigger] v@[k]@ == v0[k],
            forall|k: int| 0 <= k < i ==> actor_state_shape(#[trigger] v@[k]@, v0[k]),
            at(d, p, concat_map(v@.map_values(|l: SavedActor| l@).take(i as int), f)),
            r.pos == p + concat_map(v@.map_values(|l: SavedActor| l@).take(i as int), f).len(),
            forall|ms: Seq<ActorModel>|
                actors_state_shape(ms, v0) && #[trigger] at(d, p, concat_map(ms, f)) ==> ms.take(i as int) == v@.map_values(
                    |l: SavedActor| l@,
                ).take(i as int),
        decreases n - i,
    {
        let ghost done = v@.map_values(|l: SavedActor| l@).take(i as int);
        let ghost before = v@;
        let ghost q = r.pos as int;
        proof {
            assert(v@.map_values(|l: SavedActor| l@)[i as int] == v0[i as int]);
            assert forall|ms: Seq<ActorModel>|
                actors_state_shape(ms, v0) && #[trigger] at(d, p, concat_map(ms, f)) implies actor_state_shape(
                ms[i as int],
                v@[i as int]@,
            ) && at(d, q, f(ms[i as int])) by {
                lemma_concat_map_at(d, p, ms, f, i as int);
            }
        }
        match read_actor_state_item(r, &mut v[i]) {
            Ok(()) => {
                proof {
                    let now = v@.map_values(|l: SavedActor| l@);
                    assert forall|k: int| 0 <= k < n && k != i implies #[trigger] v@[k] == before[k] by {}
                    assert(now.take(i + 1) =~= done.push(now[i as int]));
                    assert(now.take(i + 1).drop_last() =~= done);
                    assert(done =~= before.map_values(|l: SavedActor| l@).take(i as int));
                    lemma_at_split(d, p, concat_map(done, f), f(now[i as int]));
                    assert forall|ms: Seq<ActorModel>|
                        actors_state_shape(ms, v0) && #[trigger] at(d, p, concat_map(ms, f)) implies ms.take(i + 1)
                        == now.take(i + 1) by {
                        assert(ms.take(i + 1) =~= ms.take(i as int).push(ms[i as int]));
                    }
                    assert forall|k: int| i + 1 <= k < n implies #[trigger] v@[k]@ == v0[k] by {
                        assert(v@[k] == before[k]);
                    }
                    assert forall|k: int| 0 <= k < i + 1 implies actor_state_shape(#[trigger] v@[k]@, v0[k]) by {
                        if k < i {
                            assert(v@[k] == before[k]);
                        }
                    }
                }
                i = i + 1;
            },
            Err(e) => {
                return Err(e);
            },
        }
    }
    proof {
        let now = v@.map_values(|l: SavedActor| l@);
        assert(now.take(n as int) =~= now);
        assert forall|ms: Seq<ActorModel>|
            actors_state_shape(ms, v0) && #[trigger] at(d, p, concat_map(ms, f)) implies now == ms by {
            assert(ms.take(n as int) =~= ms);
        }
    }
    Ok(())
}

fn write_actors_state(v: &Vec<SavedActor>, w: &mut VecWriter)
    ensures
        final(w).data@ == old(w).data@ + concat_map(v@.map_values(|l: SavedActor| l@), actor_state_fn()),
{
    let ghost base = w.data@;
    let ghost ls = v@.map_values(|l: SavedActor| l@);
    let mut i: usize = 0;
    while i < v.len()
        invariant
            i <= v@.len(),
            ls == v@.map_values(|l: SavedActor| l@),
            ls.len() == v@.len(),
            w.data@ == base + concat_map(ls.take(i as int), actor_state_fn()),
        decreases v@.len() - i,
    {
        write_actor_state_item(&v[i], w);
        proof {
            lemma_concat_map_step(ls, actor_state_fn(), i as int);
        }
        i = i + 1;
        assert(w.data@ =~= base + concat_map(ls.take(i as int), actor_state_fn()));
    }
    assert(ls.take(i as int) =~= ls);
}

/// The state bytes of one layer: its encoder's, then its decoders'.
pub open spec fn layer_state_fn() -> spec_fn(LayerModel) -> Seq<u8> {
    |m: LayerModel| encoder_state_bytes(m.encoder) + concat_map(m.decoders, decoder_state_fn())
}

/// `a` differs from `b` at most in the values of its state.
pub open spec fn layer_state_shape(a: LayerModel, b: LayerModel) -> bool {
    &&& encoder_state_shape(a.encoder, b.encoder)
    &&& decoders_state_shape(a.decoders, b.decoders)
}

fn read_layer_state(r: &mut SliceReader, x: &mut SavedLayer) -> (res: Result<(), ReadError>)
    ensures
        final(r).data@ == old(r).data@,
        res is Ok ==> layer_state_shape(final(x)@, old(x)@) && at(
            old(r).data@,
            old(r).pos as int,
            layer_state_fn()(final(x)@),
        ) && final(r).pos == old(r).pos + layer_state_fn()(final(x)@).len(),
        forall|m: LayerModel|
            layer_state_shape(m, old(x)@) && #[trigger] at(old(r).data@, old(r).pos as int, layer_state_fn()(m))
                ==> (res is Ok && final(x)@ == m),
        res is Err ==> res == Err::<(), ReadError>(ReadError::Truncated),
{
    let ghost d = r.data@;
    let ghost p = r.pos as int;
    proof {
        assert forall|m: LayerModel| layer_state_shape(m, x@) && #[trigger] at(d, p, layer_state_fn()(m)) implies at(
            d,
            p,
            encoder_state_bytes(m.encoder),
        ) && at(d, p + encoder_state_bytes(m.encoder).len(), concat_map(m.decoders, decoder_state_fn())) by {
            lemma_at_split(d, p, encoder_state_bytes(m.encoder), concat_map(m.decoders, decoder_state_fn()));
        }
    }
    read_encoder_state(r, &mut x.encoder)?;
    read_decoders_state(r, &mut x.decoders)?;
    proof {
        lemma_at_split(d, p, encoder_state_bytes(x@.encoder), concat_map(x@.decoders, decoder_state_fn()));
    }
    Ok(())
}

fn write_layer_state(x: &SavedLayer, w: &mut VecWriter)
    ensures
        final(w).data@ == old(w).data@ + layer_state_fn()(x@),
{
    encode_encoder_state(&x.encoder, w);
    write_decoders_state(&x.decoders, w);
    assert(w.data@ =~= old(w).data@ + layer_state_fn()(x@));
}

/// `a` has the shape of `b`, element by element.
pub open spec fn layers_state_shape(a: Seq<LayerModel>, b: Seq<LayerModel>) -> bool {
    &&& a.len() == b.len()
    &&& forall|i: int| 0 <= i < a.len() ==> layer_state_shape(#[trigger] a[i], b[i])
}

fn read_layers_state(r: &mut SliceReader, v: &mut Vec<SavedLayer>) -> (res: Result<(), ReadError>)
    ensures
        final(r).data@ == old(r).data@,
        res is Ok ==> layers_state_shape(final(v)@.map_values(|l: SavedLayer| l@), old(v)@.map_values(|l: SavedLayer| l@)) && at(
            old(r).data@,
            old(r).pos as int,
            concat_map(final(v)@.map_values(|l: SavedLayer| l@), layer_state_fn()),
        ) && final(r).pos == old(r).pos + concat_map(final(v)@.map_values(|l: SavedLayer| l@), layer_state_fn()).len(),
        forall|ms: Seq<LayerModel>|
            layers_state_shape(ms, old(v)@.map_values(|l: SavedLayer| l@)) && #[trigger] at(
                old(r).data@,
                old(r).pos as int,
                concat_map(ms, layer_state_fn()),
            ) ==> (res is Ok && final(v)@.map_values(|l: SavedLayer| l@) == ms),
        res is Err ==> res == Err::<(), ReadError>(ReadError::Truncated),
{
    let ghost d = r.data@;
    let ghost p = r.pos as int;
    let ghost f = layer_state_fn();
    let ghost v0 = v@.map_values(|l: SavedLayer| l@);
    if r.pos > r.data.len() {
        return Err(ReadError::Truncated);
    }
    proof {
        assert(d.subrange(p, p) =~= Seq::<u8>::empty());
        assert(v@.map_values(|l: SavedLayer| l@).take(0) =~= Seq::<LayerModel>::empty());
    }
    let n = v.len();
    let mut i: usize = 0;
    while i < n
        invariant
            d == old(r).data@,
            p == old(r).pos,
            r.data@ == d,
            f == layer_state_fn(),
            v0 == old(v)@.map_values(|l: SavedLayer| l@),
            v@.len() == n,
            n == v0.len(),
            i <= n,
            forall|k: int| i <= k < n ==> #[trigger] v@[k]@ == v0[k],
            forall|k: int| 0 <= k < i ==> layer_state_shape(#[trigger] v@[k]@, v0[k]),
            at(d, p, concat_map(v@.map_values(|l: SavedLayer| l@).take(i as int), f)),
            r.pos == p + concat_map(v@.map_values(|l: SavedLayer| l@).take(i as int), f).len(),
            forall|ms: Seq<LayerModel>|
                layers_state_shape(ms, v0) && #[trigger] at(d, p, concat_map(ms, f)) ==> ms.take(i as int) == v@.map_values(
                    |l: SavedLayer| l@,
                ).take(i as int),
        decreases n - i,
    {
        let ghost done = v@.map_values(|l: SavedLayer| l@).take(i as int);
        let ghost before = v@;
        let ghost q = r.pos as int;
        proof {
            assert(v@.map_values(|l: SavedLayer| l@)[i as int] == v0[i as int]);
            assert forall|ms: Seq<LayerModel>|
                layers_state_shape(ms, v0) && #[trigger] at(d, p, concat_map(ms, f)) implies layer_state_shape(
                ms[i as int],
                v@[i as int]@,
            ) && at(d, q, f(ms[i as int])) by {
                lemma_concat_map_at(d, p, ms, f, i as int);
            }
        }
        match read_layer_state(r, &mut v[i]) {
            Ok(()) => {
                proof {
                    let now = v@.map_values(|l: SavedLayer| l@);
                    assert forall|k: int| 0 <= k < n && k != i implies #[trigger] v@[k] == before[k] by {}
                    assert(now.take(i + 1) =~= done.push(now[i as int]));
                    assert(now.take(i + 1).drop_last() =~= done);
                    assert(done =~= before.map_values(|l: SavedLayer| l@).take(i as int));
                    lemma_at_split(d, p, concat_map(done, f), f(now[i as int]));
                    assert forall|ms: Seq<LayerModel>|
                        layers_state_shape(ms, v0) && #[trigger] at(d, p, concat_map(ms, f)) implies ms.take(i + 1)
                        == now.take(i + 1) by {
                        assert(ms.take(i + 1) =~= ms.take(i as int).push(ms[i as int]));
                    }
                    assert forall|k: int| i + 1 <= k < n implies #[trigger] v@[k]@ == v0[k] by {
                        assert(v@[k] == before[k]);
                    }
                    assert forall|k: int| 0 <= k < i + 1 implies layer_state_shape(#[trigger] v@[k]@, v0[k]) by {
                        if k < i {
                            assert(v@[k] == before[k]);
                        }
                    }
                }
                i = i + 1;
            },
            Err(e) => {
                return Err(e);
            },
        }
    }
    proof {
        let now = v@.map_values(|l: SavedLayer| l@);
        assert(now.take(n as int) =~= now);
        assert forall|ms: Seq<LayerModel>|
            layers_state_shape(ms, v0) && #[trigger] at(d, p, concat_map(ms, f)) implies now == ms by {
            assert(ms.take(n as int) =~= ms);
        }
    }
    Ok(())
}

fn write_layers_state(v: &Vec<SavedLayer>, w: &mut VecWriter)
    ensures
        final(w).data@ == old(w).data@ + concat_map(v@.map_values(|l: SavedLayer| l@), layer_state_fn()),
{
    let ghost base = w.data@;
    let ghost ls = v@.map_values(|l: SavedLayer| l@);
    let mut i: usize = 0;
    while i < v.len()
        invariant
            i <= v@.len(),
            ls == v@.map_values(|l: SavedLayer| l@),
            ls.len() == v@.len(),
            w.data@ == base + concat_map(ls.take(i as int), layer_state_fn()),
        decreases v@.len() - i,
    {
        write_layer_state(&v[i], w);
        proof {
            lemma_concat_map_step(ls, layer_state_fn(), i as int);
        }
        i = i + 1;
        assert(w.data@ =~= base + concat_map(ls.take(i as int), layer_state_fn()));
    }
    assert(ls.take(i as int) =~= ls);
}

/// The state bytes of a hierarchy: each layer's (its encoder's, then its
/// decoders'), then each actor's.
pub open spec fn hierarchy_state_bytes(m: HierarchyModel) -> Seq<u8> {
    concat_map(m.layers, layer_state_fn()) + concat_map(m.actors, actor_state_fn())
}

/// `a` differs from `b` at most in the values of its state.
pub open spec fn hierarchy_state_shape(a: HierarchyModel, b: HierarchyModel) -> bool {
    &&& a.num_predictions == b.num_predictions
    &&& a.maps == b.maps
    &&& a.layer_params == b.layer_params
    &&& a.io_params == b.io_params
    &&& a.anticipation == b.anticipation
    &&& layers_state_shape(a.layers, b.layers)
    &&& actors_state_shape(a.actors, b.actors)
}

/// Write the state of a hierarchy.
pub fn encode_hierarchy_state(h: &SavedHierarchy, w: &mut VecWriter)
    ensures
        final(w).data@ == old(w).data@ + hierarchy_state_bytes(h@),
{
    write_layers_state(&h.layers, w);
    write_actors_state(&h.actors, w);
    assert(w.data@ =~= old(w).data@ + hierarchy_state_bytes(h@));
}

fn read_hierarchy_state(r: &mut SliceReader, h: &mut SavedHierarchy) -> (res: Result<(), ReadError>)
    ensures
        final(r).data@ == old(r).data@,
        res is Ok ==> hierarchy_state_shape(final(h)@, old(h)@) && at(
            old(r).data@,
            old(r).pos as int,
            hierarchy_state_bytes(final(h)@),
        ) && final(r).pos == old(r).pos + hierarchy_state_bytes(final(h)@).len(),
        forall|m: HierarchyModel|
            hierarchy_state_shape(m, old(h)@) && #[trigger] at(old(r).data@, old(r).pos as int, hierarchy_state_bytes(m))
                ==> (res is Ok && final(h)@ == m),
        res is Err ==> res == Err::<(), ReadError>(ReadError::Truncated),
{
    let ghost d = r.data@;
    let ghost p = r.pos as int;
    proof {
        assert forall|m: HierarchyModel| hierarchy_state_shape(m, h@) && #[trigger] at(d, p, hierarchy_state_bytes(m)) implies at(
            d,
            p,
            concat_map(m.layers, layer_state_fn()),
        ) && at(d, p + concat_map(m.layers, layer_state_fn()).len(), concat_map(m.actors, actor_state_fn())) by {
            lemma_at_split(d, p, concat_map(m.layers, layer_state_fn()), concat_map(m.actors, actor_state_fn()));
        }
    }
    read_layers_state(r, &mut h.layers)?;
    read_actors_state(r, &mut h.actors)?;
    proof {
        lemma_at_split(d, p, concat_map(h@.layers, layer_state_fn()), concat_map(h@.actors, actor_state_fn()));
    }
    Ok(())
}

/// Read the state of a hierarchy of the shape of `shape`: its state are
/// replaced by those read, and everything else of it stays. Only a stream too
/// short for the state of that shape fails.
pub fn decode_hierarchy_state(r: &mut SliceReader, shape: SavedHierarchy) -> (res: Result<SavedHierarchy, ReadError>)
    ensures
        final(r).data@ == old(r).data@,
        res matches Ok(v) ==> hierarchy_state_shape(v@, shape@) && at(
            old(r).data@,
            old(r).pos as int,
            hierarchy_state_bytes(v@),
        ) && final(r).pos == old(r).pos + hierarchy_state_bytes(v@).len(),
        forall|m: HierarchyModel|
            hierarchy_state_shape(m, shape@) && #[trigger] at(old(r).data@, old(r).pos as int, hierarchy_state_bytes(m))
                ==> (res is Ok && res->Ok_0@ == m),
        res is Err ==> res == Err::<SavedHierarchy, ReadError>(ReadError::Truncated),
{
    let mut h = shape;
    match read_hierarchy_state(r, &mut h) {
        Ok(()) => Ok(h),
        Err(x) => Err(x),
    }
}

} // verus!
