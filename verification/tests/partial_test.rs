use dcc_sph::helpers::{CircleBuffer, Int3, SliceReader, VecWriter};
use dcc_sph::partial::{
    decode_actor_state, decode_actor_weights, decode_decoder_state, decode_encoder_state,
    decode_encoder_weights, decode_hierarchy_state, decode_hierarchy_weights, encode_actor_state,
    encode_actor_weights, encode_decoder_state, encode_encoder_state, encode_encoder_weights,
    encode_hierarchy_state, encode_hierarchy_weights,
};
use dcc_sph::saved::{
    ReadError, SavedActor, SavedActorLayer, SavedDecoder, SavedDecoderLayer, SavedEncoder,
    SavedEncoderLayer, SavedHierarchy, SavedLayer, SavedMaps, SavedSample,
};

fn encoder() -> SavedEncoder {
    // 1x2 columns of 2 cells; one visible layer of depth 1 seen at radius 0.
    SavedEncoder {
        hidden_size: Int3::new(1, 2, 2),
        hidden_cis: vec![1, 0],
        committed: vec![1, 0, 0, 1],
        layers: vec![SavedEncoderLayer {
            size: Int3::new(1, 1, 1),
            radius: 0,
            weights: vec![7, 8, 9, 10],
            totals: vec![-1, 2, 3, 4],
            importance: 1.0f32.to_bits(),
        }],
    }
}

fn decoder() -> SavedDecoder {
    // 1x1 column of 2 cells, 1 dendrite per cell; radius 1 over depth 1: 9 weights per dendrite.
    SavedDecoder {
        hidden_size: Int3::new(1, 1, 2),
        num_dendrites_per_cell: 1,
        hidden_cis: vec![1],
        hidden_acts: vec![0.25f32.to_bits(), 0.75f32.to_bits()],
        dendrite_acts: vec![1, 2],
        layers: vec![SavedDecoderLayer {
            size: Int3::new(2, 2, 1),
            radius: 1,
            weights: (0..18).map(|i| (i as i8) - 9).collect(),
        }],
    }
}

fn actor() -> SavedActor {
    // 1x1 action column of 3 cells, 2 value bins, 1 dendrite each; one visible
    // layer of 2x1 columns, depth 1, radius 0.
    SavedActor {
        hidden_size: Int3::new(1, 1, 3),
        value_size: 2,
        value_num_dendrites_per_cell: 1,
        policy_num_dendrites_per_cell: 1,
        hidden_cis: vec![2],
        hidden_values: vec![5],
        td_scales: vec![6],
        layers: vec![SavedActorLayer {
            size: Int3::new(2, 1, 1),
            radius: 0,
            value_weights: vec![1, 2],
            policy_weights: vec![3, 4, 5],
        }],
        history_size: 1,
        history_start: 1,
        samples: vec![
            SavedSample { inputs: vec![0, 0], targets: vec![1], values: vec![9], reward: 11 },
            SavedSample { inputs: vec![0, 0], targets: vec![2], values: vec![8], reward: 12 },
        ],
    }
}

fn hierarchy() -> SavedHierarchy {
    SavedHierarchy {
        num_predictions: 1,
        maps: SavedMaps {
            io_sizes: vec![Int3::new(2, 2, 1)],
            io_types: vec![1],
            i_indices: vec![0, 0],
            d_indices: vec![0],
            ticks: vec![0],
            ticks_per_update: vec![1],
            top_feedback: vec![0],
        },
        layers: vec![SavedLayer { encoder: encoder(), decoders: vec![decoder()] }],
        actors: vec![actor()],
        layer_params: (0..9).collect(),
        io_params: (100..113).collect(),
        anticipation: 1,
    }
}

#[test]
fn encoder_weights_read_back_into_the_same_shape() {
    let e = encoder();
    let mut w = VecWriter::new();
    encode_encoder_weights(&e, &mut w);
    assert_eq!(w.data, vec![7, 8, 9, 10]);
    let mut shape = encoder();
    shape.layers[0].weights = vec![0; 4];
    let back = decode_encoder_weights(&mut SliceReader::new(&w.data), shape).unwrap();
    assert_eq!(back.layers[0].weights, vec![7, 8, 9, 10]);
    // Totals are not part of the weights and stay as they were.
    assert_eq!(back.layers[0].totals, e.layers[0].totals);
}

#[test]
fn encoder_state_reads_back_the_hidden_columns() {
    let e = encoder();
    let mut w = VecWriter::new();
    encode_encoder_state(&e, &mut w);
    assert_eq!(w.data.len(), 8);
    let mut shape = encoder();
    shape.hidden_cis = vec![0, 0];
    let back = decode_encoder_state(&mut SliceReader::new(&w.data), shape).unwrap();
    assert_eq!(back.hidden_cis, vec![1, 0]);
}

#[test]
fn decoder_state_is_states_then_activations() {
    let d = decoder();
    let mut w = VecWriter::new();
    encode_decoder_state(&d, &mut w);
    assert_eq!(w.data.len(), 4 + 8 + 8);
    let mut shape = decoder();
    shape.hidden_acts = vec![0, 0];
    let back = decode_decoder_state(&mut SliceReader::new(&w.data), shape).unwrap();
    assert_eq!(back.hidden_acts, d.hidden_acts);
}

#[test]
fn actor_weights_and_state_read_back() {
    let a = actor();
    let mut w = VecWriter::new();
    encode_actor_weights(&a, &mut w);
    assert_eq!(w.data.len(), 4 * 5);
    let mut shape = actor();
    shape.layers[0].policy_weights = vec![0, 0, 0];
    let back = decode_actor_weights(&mut SliceReader::new(&w.data), shape).unwrap();
    assert_eq!(back.layers[0].policy_weights, vec![3, 4, 5]);

    let mut w = VecWriter::new();
    encode_actor_state(&a, &mut w);
    let mut shape = actor();
    shape.history_start = 0;
    shape.samples[1].reward = 0;
    let back = decode_actor_state(&mut SliceReader::new(&w.data), shape).unwrap();
    assert_eq!(back.history_start, 1);
    assert_eq!(back.samples[1].reward, 12);
}

#[test]
fn hierarchy_weights_and_state_read_back_and_cut_streams_are_truncated() {
    let h = hierarchy();
    let mut w = VecWriter::new();
    encode_hierarchy_weights(&h, &mut w);
    let mut shape = hierarchy();
    shape.layers[0].encoder.layers[0].weights = vec![0; 4];
    shape.layers[0].decoders[0].layers[0].weights = vec![0; 18];
    shape.actors[0].layers[0].value_weights = vec![0, 0];
    let back = decode_hierarchy_weights(&mut SliceReader::new(&w.data), shape).unwrap();
    assert_eq!(back.layers[0].encoder.layers[0].weights, h.layers[0].encoder.layers[0].weights);
    assert_eq!(back.layers[0].decoders[0].layers[0].weights, h.layers[0].decoders[0].layers[0].weights);
    assert_eq!(back.actors[0].layers[0].value_weights, vec![1, 2]);
    let cut = &w.data[..w.data.len() - 1];
    assert_eq!(decode_hierarchy_weights(&mut SliceReader::new(cut), hierarchy()).unwrap_err(), ReadError::Truncated);

    let mut w = VecWriter::new();
    encode_hierarchy_state(&h, &mut w);
    let mut shape = hierarchy();
    shape.layers[0].encoder.hidden_cis = vec![0, 0];
    shape.actors[0].hidden_cis = vec![0];
    let mut bytes = w.data.clone();
    bytes.push(0xee);
    let mut r = SliceReader::new(&bytes);
    let back = decode_hierarchy_state(&mut r, shape).unwrap();
    assert_eq!(r.pos, w.data.len());
    assert_eq!(back.layers[0].encoder.hidden_cis, vec![1, 0]);
    assert_eq!(back.actors[0].hidden_cis, vec![2]);
    let cut = &w.data[..3];
    assert_eq!(decode_hierarchy_state(&mut SliceReader::new(cut), hierarchy()).unwrap_err(), ReadError::Truncated);
}

#[test]
fn back_is_the_last_logical_element() {
    let mut b: CircleBuffer<i32> = CircleBuffer::new();
    b.resize(3);
    *b.get_mut(0) = 1;
    *b.get_mut(1) = 2;
    *b.get_mut(2) = 3;
    b.push_front();
    assert_eq!(*b.back(), *b.get(2));
    assert_eq!(*b.back(), 2);
}
