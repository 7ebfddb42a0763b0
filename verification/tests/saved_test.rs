use dcc_sph::helpers::{Int3, SliceReader, VecWriter};
use dcc_sph::hierarchy::{check_magic, HeaderError, SERIAL_MAGIC, SERIAL_VERSION};
use dcc_sph::saved::{
    decode_actor, decode_decoder, decode_encoder, decode_hierarchy, encode_actor, encode_decoder,
    encode_encoder, encode_hierarchy, ReadError, SavedActor, SavedActorLayer, SavedDecoder,
    SavedDecoderLayer, SavedEncoder, SavedEncoderLayer, SavedHierarchy, SavedLayer, SavedMaps,
    SavedSample,
};

fn encoder() -> SavedEncoder {
    // 1x2 columns of 2 cells; one visible layer of depth 1 seen at radius 0.
    SavedEncoder {
        hidden_size: Int3::new(1, 2, 2),
        hidden_cis: vec![1, 0],
        committed: vec![1, 0, 0, 1],
        layers: vec![SavedEncoderLayer {
            size: Int3::new(1, 1, 1),
            radius: 0,
            weights: vec![7, 8, 9, 10],
            totals: vec![-1, 2, 3, 4],
            importance: 1.0f32.to_bits(),
        }],
    }
}

fn decoder() -> SavedDecoder {
    // 1x1 column of 2 cells, 1 dendrite per cell; radius 1 over depth 1: 9 weights per dendrite.
    SavedDecoder {
        hidden_size: Int3::new(1, 1, 2),
        num_dendrites_per_cell: 1,
        hidden_cis: vec![1],
        hidden_acts: vec![0.25f32.to_bits(), 0.75f32.to_bits()],
        dendrite_acts: vec![1, 2],
        layers: vec![SavedDecoderLayer {
            size: Int3::new(2, 2, 1),
            radius: 1,
            weights: (0..18).map(|i| (i as i8) - 9).collect(),
        }],
    }
}

fn actor() -> SavedActor {
    // 1x1 action column of 3 cells, 2 value bins, 1 dendrite each; one visible
    // layer of 2x1 columns, depth 1, radius 0.
    SavedActor {
        hidden_size: Int3::new(1, 1, 3),
        value_size: 2,
        value_num_dendrites_per_cell: 1,
        policy_num_dendrites_per_cell: 1,
        hidden_cis: vec![2],
        hidden_values: vec![5],
        td_scales: vec![6],
        layers: vec![SavedActorLayer {
            size: Int3::new(2, 1, 1),
            radius: 0,
            value_weights: vec![1, 2],
            policy_weights: vec![3, 4, 5],
        }],
        history_size: 1,
        history_start: 1,
        samples: vec![
            SavedSample { inputs: vec![0, 0], targets: vec![1], values: vec![9], reward: 11 },
            SavedSample { inputs: vec![0, 0], targets: vec![2], values: vec![8], reward: 12 },
        ],
    }
}

fn hierarchy() -> SavedHierarchy {
    SavedHierarchy {
        num_predictions: 1,
        maps: SavedMaps {
            io_sizes: vec![Int3::new(2, 2, 1)],
            io_types: vec![1],
            i_indices: vec![0, 0],
            d_indices: vec![0],
            ticks: vec![0],
            ticks_per_update: vec![1],
            top_feedback: vec![0],
        },
        layers: vec![SavedLayer { encoder: encoder(), decoders: vec![decoder()] }],
        actors: vec![actor()],
        layer_params: (0..9).collect(),
        io_params: (100..113).collect(),
        anticipation: 1,
    }
}

#[test]
fn an_encoder_reads_back_as_written() {
    let e = encoder();
    let mut w = VecWriter::new();
    encode_encoder(&e, &mut w);
    // 12 + 2*4 + 4 + 4 + (12 + 4 + 4 + 16 + 4)
    assert_eq!(w.data.len(), 68);
    let mut r = SliceReader::new(&w.data);
    let back = decode_encoder(&mut r).unwrap();
    assert_eq!(r.pos, w.data.len());
    assert_eq!(back.hidden_cis, e.hidden_cis);
    assert_eq!(back.committed, e.committed);
    assert_eq!(back.layers[0].weights, e.layers[0].weights);
    assert_eq!(back.layers[0].totals, e.layers[0].totals);
    assert_eq!(f32::from_bits(back.layers[0].importance), 1.0);
}

#[test]
fn a_decoder_reads_back_as_written() {
    let d = decoder();
    let mut w = VecWriter::new();
    encode_decoder(&d, &mut w);
    let mut r = SliceReader::new(&w.data);
    let back = decode_decoder(&mut r).unwrap();
    assert_eq!(r.pos, w.data.len());
    assert_eq!(back.layers[0].weights, d.layers[0].weights);
    assert_eq!(back.hidden_acts, d.hidden_acts);
}

#[test]
fn an_actor_reads_back_as_written() {
    let a = actor();
    let mut w = VecWriter::new();
    encode_actor(&a, &mut w);
    let mut r = SliceReader::new(&w.data);
    let back = decode_actor(&mut r).unwrap();
    assert_eq!(r.pos, w.data.len());
    assert_eq!(back.samples.len(), 2);
    assert_eq!(back.samples[1].targets, vec![2]);
    assert_eq!(back.samples[1].reward, 12);
    assert_eq!(back.layers[0].policy_weights, vec![3, 4, 5]);
    assert_eq!(back.history_start, 1);
}

#[test]
fn a_hierarchy_reads_back_as_written_and_rewrites_the_same_bytes() {
    let h = hierarchy();
    let mut w = VecWriter::new();
    encode_hierarchy(&h, &mut w);
    assert_eq!(&w.data[0..4], &SERIAL_MAGIC.to_le_bytes());
    assert_eq!(&w.data[4..8], &SERIAL_VERSION.to_le_bytes());
    // Trailing bytes are left unread.
    let mut bytes = w.data.clone();
    bytes.extend_from_slice(&[0xaa, 0xbb]);
    let mut r = SliceReader::new(&bytes);
    let back = decode_hierarchy(&mut r).unwrap();
    assert_eq!(r.pos, w.data.len());
    assert_eq!(back.layer_params, h.layer_params);
    assert_eq!(back.io_params, h.io_params);
    assert_eq!(back.maps.top_feedback, vec![0]);
    let mut w2 = VecWriter::new();
    encode_hierarchy(&back, &mut w2);
    assert_eq!(w.data, w2.data);
}

#[test]
fn version_1_files_are_rejected() {
    let mut w = VecWriter::new();
    w.write_u32(0x4d47_4f41); // "AOGM"
    w.write_u32(1);
    let mut r = SliceReader::new(&w.data);
    assert_eq!(decode_hierarchy(&mut r).unwrap_err(), ReadError::UnsupportedVersion(1));
}

#[test]
fn a_bad_magic_number_is_rejected_before_the_version_is_read() {
    let mut w = VecWriter::new();
    w.write_u32(0x1234_5678);
    let mut r = SliceReader::new(&w.data);
    assert_eq!(decode_hierarchy(&mut r).unwrap_err(), ReadError::BadMagic(0x1234_5678));
    assert_eq!(check_magic(0x1234_5678), Err(HeaderError::BadMagic(0x1234_5678)));
    assert_eq!(check_magic(SERIAL_MAGIC), Ok(()));
}

#[test]
fn a_cut_file_is_truncated() {
    let h = hierarchy();
    let mut w = VecWriter::new();
    encode_hierarchy(&h, &mut w);
    for cut in [0usize, 3, 7, 20, w.data.len() - 1] {
        let mut r = SliceReader::new(&w.data[..cut]);
        assert_eq!(decode_hierarchy(&mut r).unwrap_err(), ReadError::Truncated, "cut at {cut}");
    }
}

#[test]
fn a_negative_count_is_a_bad_size() {
    let mut w = VecWriter::new();
    w.write_u32(SERIAL_MAGIC);
    w.write_u32(SERIAL_VERSION);
    w.write_i32(-1);
    w.write_i32(0);
    w.write_i32(0);
    w.write_i32(0);
    let mut r = SliceReader::new(&w.data);
    assert_eq!(decode_hierarchy(&mut r).unwrap_err(), ReadError::BadSize);
}
