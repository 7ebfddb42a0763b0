use dcc_sph::helpers::Int3;
use dcc_sph::hierarchy::{
    check_header, pick_history_index, plan_hierarchy, HeaderError, IoDesc, IoType, LayerDesc,
    Schedule, SERIAL_MAGIC, SERIAL_VERSION,
};

fn io(t: IoType) -> IoDesc {
    IoDesc { size: Int3::new(4, 4, 16), io_type: t, ..IoDesc::default() }
}

fn layer(x: i32, tpu: usize, rec: i32) -> LayerDesc {
    LayerDesc {
        hidden_size: Int3::new(x, x, 16),
        recurrent_radius: rec,
        ticks_per_update: tpu,
        ..LayerDesc::default()
    }
}

#[test]
fn mixed_ports_are_indexed_per_type() {
    let ios = vec![
        io(IoType::Action),
        io(IoType::Prediction),
        io(IoType::InputOnly),
        io(IoType::Prediction),
        io(IoType::Action),
    ];
    let t = plan_hierarchy(&ios, &[layer(4, 1, -1), layer(3, 2, 0)]);
    assert_eq!(t.io.d_indices, vec![0, 0, -1, 1, 1]);
    assert_eq!(t.io.i_indices, vec![1, 3, 0, 0, 0, 0, 4, 0, 0, 0]);
    assert_eq!(t.io.io_types, vec![2, 1, 0, 1, 2]);
    assert_eq!(t.actors.len(), 2);
    assert_eq!(t.layers[0].decoders.len(), 2);
    // Two layers: the bottom decoders and actors also see feedback from above.
    assert_eq!(t.layers[0].decoders[0].visible_layer_descs.len(), 2);
    assert_eq!(t.actors[1].visible_layer_descs.len(), 2);
    // Bottom encoder: one input per port, no recurrence.
    assert_eq!(t.layers[0].encoder_descs.len(), 5);
    // Upper layer: the layer below, plus recurrence at radius 0.
    assert_eq!(t.layers[1].encoder_descs.len(), 2);
    assert_eq!(t.layers[1].encoder_descs[1].radius, 0);
    assert_eq!(t.layers[1].decoders.len(), 1);
    assert_eq!(t.layers[1].decoders[0].hidden_size, Int3::new(4, 4, 16));
    assert_eq!(t.layers[1].decoders[0].visible_layer_descs.len(), 1);
    assert_eq!(t.ticks_per_update, vec![1, 2]);
    for i in 0..5 {
        assert_eq!(t.io.io_type(i), ios[i].io_type);
        assert_eq!(t.io.io_layer_exists(i), ios[i].io_type != IoType::InputOnly);
    }
}

#[test]
fn a_hierarchy_without_layers_builds_no_heads() {
    let t = plan_hierarchy(&[io(IoType::Prediction)], &[]);
    assert!(t.layers.is_empty());
    assert!(t.actors.is_empty());
    assert_eq!(t.io.d_indices, vec![-1]);
    assert_eq!(t.io.i_indices, vec![0, 0]);
}

#[test]
fn zero_ticks_per_update_means_every_tick() {
    let t = plan_hierarchy(&[io(IoType::Prediction)], &[layer(4, 1, -1), layer(4, 0, -1)]);
    assert_eq!(t.ticks_per_update, vec![1, 1]);
}

#[test]
fn layers_run_on_multiples_of_their_period() {
    let mut s = Schedule::new(vec![1, 3]);
    let mut runs = Vec::new();
    for _ in 0..7 {
        s.advance();
        assert!(s.get_update(0));
        runs.push(s.get_update(1));
    }
    assert_eq!(runs, vec![false, false, true, false, false, true, false]);
    assert_eq!(s.ticks, vec![0, 1]);
    s.reset();
    assert_eq!(s.ticks, vec![0, 0]);
    assert_eq!(s.updates, vec![true, true]);
}

#[test]
fn bad_headers_are_refused() {
    assert_eq!(check_header(SERIAL_MAGIC, SERIAL_VERSION), Ok(()));
    assert_eq!(check_header(7, SERIAL_VERSION), Err(HeaderError::BadMagic(7)));
    assert_eq!(SERIAL_VERSION, 2);
    assert_eq!(check_header(SERIAL_MAGIC, 1), Err(HeaderError::UnsupportedVersion(1)));
    assert_eq!(check_header(SERIAL_MAGIC, 3), Err(HeaderError::UnsupportedVersion(3)));
}

#[test]
fn top_feedback_adds_a_decoder_input_only_at_the_top() {
    let ios = vec![IoDesc { size: Int3::new(2, 2, 4), ..IoDesc::default() }];
    let plain = vec![layer(4, 1, 0), layer(4, 1, 0)];
    let mut goal = plain.clone();
    goal[1].top_feedback = true;
    let a = plan_hierarchy(&ios, &plain);
    let b = plan_hierarchy(&ios, &goal);
    assert_eq!(a.layers[0].decoders[0].visible_layer_descs.len(), 2);
    assert_eq!(b.layers[0].decoders[0].visible_layer_descs.len(), 2);
    assert_eq!(a.layers[1].decoders[0].visible_layer_descs.len(), 1);
    assert_eq!(b.layers[1].decoders[0].visible_layer_descs.len(), 2);
    assert_eq!(b.layers[1].decoders[0].visible_layer_descs[1].size, Int3::new(4, 4, 16));
}

#[test]
fn a_single_goal_layer_feeds_the_port_decoders() {
    let ios = vec![IoDesc { size: Int3::new(1, 1, 2), ..IoDesc::default() }];
    let mut l = layer(4, 1, 0);
    l.top_feedback = true;
    let t = plan_hierarchy(&ios, &[l]);
    assert_eq!(t.layers.len(), 1);
    assert_eq!(t.layers[0].decoders[0].visible_layer_descs.len(), 2);
}

#[test]
fn io_type_codes() {
    assert_eq!(IoType::from(0u8), IoType::InputOnly);
    assert_eq!(IoType::from(1u8), IoType::Prediction);
    assert_eq!(IoType::from(2u8), IoType::Action);
    assert_eq!(IoType::from(9u8), IoType::InputOnly);
    assert_eq!(IoType::Action.to_u8(), 2);
    assert_eq!(IoType::default(), IoType::Prediction);
}

#[test]
fn history_index_is_in_range() {
    assert_eq!(pick_history_index(10, 20, 16), 18);
    for r in [0u32, 1, 99, u32::MAX] {
        let t = pick_history_index(r, 40, 16);
        assert!((16..40).contains(&t));
    }
}

#[test]
fn descriptor_defaults() {
    let d = IoDesc::default();
    assert_eq!(d.size, Int3::new(5, 5, 16));
    assert_eq!(d.history_capacity, 512);
    let l = LayerDesc::default();
    assert_eq!(l.recurrent_radius, 0);
    assert_eq!(l.ticks_per_update, 1);
}
