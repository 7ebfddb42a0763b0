//! Packaging requirements, checked through the built library.
//!
//! The manifest and lock file are not visible to the test binary, so each
//! requirement is checked through what it protects: the library works as a
//! plain library, standalone, with its own deterministic random stream.

use dcc_sph::helpers::{rand_get_state, rand_step, SliceReader, VecWriter};
use dcc_sph::hierarchy::{
    check_header, plan_hierarchy, IoDesc, IoType, LayerDesc, SERIAL_MAGIC, SERIAL_VERSION,
};

/// R1: the package is a library: a saved-model header written and read back
/// through its public API is accepted, with no program around it.
#[test]
fn r1_no_binary_targets() {
    let mut w = VecWriter::new();
    w.write_u32(SERIAL_MAGIC);
    w.write_u32(SERIAL_VERSION);
    let mut r = SliceReader::new(&w.data);
    let magic = r.read_u32();
    let version = r.read_u32();
    assert_eq!(check_header(magic, version), Ok(()));
}

/// R2: the library stands alone: a hierarchy is planned from its own
/// descriptors, with nothing from any other project.
#[test]
fn r2_no_dcc_dependency() {
    let io = vec![IoDesc { io_type: IoType::Prediction, ..IoDesc::default() }];
    let layers = vec![LayerDesc::default()];
    let t = plan_hierarchy(&io, &layers);
    assert_eq!(t.layers.len(), 1);
    assert_eq!(t.layers[0].decoders.len(), 1);
    assert_eq!(t.io.d_indices, vec![0]);
}

/// R12: randomness is the library's own PCG32, not the operating system's:
/// a seed fixes the stream, and the stream has the PCG32 reference values.
#[test]
fn r12_getrandom_is_absent_from_the_graph() {
    let mut s = rand_get_state(12345);
    assert_eq!(s, 2454684463487790647);
    let out: Vec<u32> = (0..5).map(|_| rand_step(&mut s)).collect();
    assert_eq!(out, vec![1411482639, 3165192603, 3360792183, 2433038347, 628889468]);
    assert_eq!(s, 1452182070089920334);
}
