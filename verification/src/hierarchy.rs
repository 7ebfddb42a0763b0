//! The structure of a hierarchy: its IO ports, its layers, which decoders and
//! actors it builds and how they are indexed, and the clock that decides which
//! layers run on each step.
use vstd::prelude::*;
use crate::helpers::{Int3, VisibleLayerDesc};

verus! {

/// Determines how the hierarchy processes a particular IO port.
#[derive(Clone, Copy, Debug, PartialEq, Eq, Structural, Default)]
pub enum IoType {
    /// Input-only port: the encoder receives this input but no decoder or actor
    /// is attached, so no prediction is produced.
    InputOnly,
    /// Prediction port: a decoder predicts this input's next value.
    #[default]
    Prediction,
    /// Action port: an actor selects actions for this port.
    Action,
}

/// The byte that stands for an IO type in a saved hierarchy.
pub open spec fn io_type_code(t: IoType) -> u8 {
    match t {
        IoType::InputOnly => 0,
        IoType::Prediction => 1,
        IoType::Action => 2,
    }
}

/// The IO type that a saved byte stands for; unknown codes read as `InputOnly`.
pub open spec fn io_type_of_code(v: u8) -> IoType {
    if v == 1 {
        IoType::Prediction
    } else if v == 2 {
        IoType::Action
    } else {
        IoType::InputOnly
    }
}

impl IoType {
    /// The byte that stands for this IO type in a saved hierarchy.
    pub fn to_u8(self) -> (r: u8)
        ensures
            r == io_type_code(self),
    {
        match self {
            IoType::InputOnly => 0,
            IoType::Prediction => 1,
            IoType::Action => 2,
        }
    }
}

impl From<u8> for IoType {
    fn from(v: u8) -> (r: Self) {
        match v {
            0 => IoType::InputOnly,
            1 => IoType::Prediction,
            2 => IoType::Action,
            _ => IoType::InputOnly,
        }
    }
}

impl vstd::std_specs::convert::FromSpecImpl<u8> for IoType {
    open spec fn obeys_from_spec() -> bool {
        true
    }

    open spec fn from_spec(v: u8) -> IoType {
        io_type_of_code(v)
    }
}

/// Structural descriptor for one IO port (input/output channel).
#[derive(Clone, Debug)]
pub struct IoDesc {
    /// Spatial size `(x, y, z)` of this IO port.
    pub size: Int3,
    /// How the hierarchy handles this port.
    pub io_type: IoType,
    /// Number of dendrites per cell for the decoder or actor policy head.
    pub num_dendrites_per_cell: usize,
    /// Receptive field radius from this IO port up to layer 0's encoder.
    pub up_radius: i32,
    /// Receptive field radius from layer 0's encoder down to this IO port.
    pub down_radius: i32,
    /// Number of discrete value bins for the actor's critic head.
    pub value_size: usize,
    /// Number of dendrites per cell for the actor's value (critic) head.
    pub value_num_dendrites_per_cell: usize,
    /// Number of past timesteps the actor stores for experience replay.
    pub history_capacity: usize,
}

impl Default for IoDesc {
    fn default() -> (r: Self)
        ensures
            r.size == (Int3 { x: 5, y: 5, z: 16 }),
            r.io_type == IoType::Prediction,
            r.num_dendrites_per_cell == 4,
            r.up_radius == 2,
            r.down_radius == 2,
            r.value_size == 128,
            r.value_num_dendrites_per_cell == 2,
            r.history_capacity == 512,
    {
        IoDesc {
            size: Int3::new(5, 5, 16),
            io_type: IoType::Prediction,
            num_dendrites_per_cell: 4,
            up_radius: 2,
            down_radius: 2,
            value_size: 128,
            value_num_dendrites_per_cell: 2,
            history_capacity: 512,
        }
    }
}

/// Structural descriptor for one encoder layer.
#[derive(Clone, Debug)]
pub struct LayerDesc {
    /// Hidden layer size `(x, y, z)` for this encoder.
    pub hidden_size: Int3,
    /// Number of dendrites per cell for the layer's decoder(s).
    pub num_dendrites_per_cell: usize,
    /// Receptive field radius from the layer below to this encoder.
    pub up_radius: i32,
    /// Self-recurrent receptive field radius. Set to `-1` to disable recurrence.
    pub recurrent_radius: i32,
    /// Receptive field radius from this encoder down to the layer below.
    pub down_radius: i32,
    /// How many bottom-layer ticks must elapse before this layer runs its
    /// encoder. Layer 0 runs every tick regardless of this value.
    pub ticks_per_update: usize,
    /// Whether this layer's decoders take a second input from above even
    /// though no layer lies above: a goal in the shape of this layer's own
    /// output. Only the topmost layer may set it.
    pub top_feedback: bool,
}

impl Default for LayerDesc {
    fn default() -> (r: Self)
        ensures
            r.hidden_size == (Int3 { x: 5, y: 5, z: 16 }),
            r.num_dendrites_per_cell == 4,
            r.up_radius == 2,
            r.recurrent_radius == 0,
            r.down_radius == 2,
            r.ticks_per_update == 1,
            !r.top_feedback,
    {
        LayerDesc {
            hidden_size: Int3::new(5, 5, 16),
            num_dendrites_per_cell: 4,
            up_radius: 2,
            recurrent_radius: 0,
            down_radius: 2,
            ticks_per_update: 1,
            top_feedback: false,
        }
    }
}

// --- Topology ---

/// Number of the first `n` ports of `io` whose type is `t`; for a port of type
/// `t` at position `n`, its rank among the ports of that type.
pub open spec fn count_type(io: Seq<IoDesc>, t: IoType, n: int) -> nat
    decreases n,
{
    if n <= 0 {
        0
    } else {
        count_type(io, t, n - 1) + (if io[n - 1].io_type == t { 1nat } else { 0nat })
    }
}

/// The visible layers of a decoder or actor that reads a layer of size
/// `hidden` with the given `radius`: the layer's own output, and a second,
/// identical one for the feedback from the layer above when there is one.
pub open spec fn down_descs(hidden: Int3, radius: i32, feedback: bool) -> Seq<VisibleLayerDesc> {
    let v = VisibleLayerDesc { size: hidden, radius };
    if feedback {
        seq![v, v]
    } else {
        seq![v]
    }
}

/// Whether the decoders (and, at the bottom, the actors) of layer `l` take a
/// second input from above: the layer above's output, or at the top a goal
/// when the top layer asks for one.
pub open spec fn layer_feedback(ld: Seq<LayerDesc>, l: int) -> bool {
    l < ld.len() - 1 || ld[l].top_feedback
}

/// Only the topmost layer asks for a goal.
pub open spec fn top_feedback_only_at_top(ld: Seq<LayerDesc>) -> bool {
    forall|l: int| 0 <= l < ld.len() - 1 ==> !(#[trigger] ld[l]).top_feedback
}

/// The recurrent visible layer of layer `ld`, if it has one (recurrent radius
/// greater than `-1`).
pub open spec fn recurrent_descs(ld: LayerDesc) -> Seq<VisibleLayerDesc> {
    if ld.recurrent_radius > -1 {
        seq![VisibleLayerDesc { size: ld.hidden_size, radius: ld.recurrent_radius }]
    } else {
        seq![]
    }
}

/// The bottom encoder's visible layers that come from the IO ports, in port order.
pub open spec fn port_descs(io: Seq<IoDesc>) -> Seq<VisibleLayerDesc> {
    Seq::new(io.len(), |i: int| VisibleLayerDesc { size: io[i].size, radius: io[i].up_radius })
}

/// What to build for one decoder.
pub struct DecoderPlan {
    /// Size of the layer the decoder predicts.
    pub hidden_size: Int3,
    /// Dendrites per predicted cell.
    pub num_dendrites_per_cell: usize,
    /// The decoder's inputs.
    pub visible_layer_descs: Vec<VisibleLayerDesc>,
}

/// What to build for one actor.
pub struct ActorPlan {
    /// Size of the action port.
    pub hidden_size: Int3,
    /// Number of value bins of the critic head.
    pub value_size: usize,
    /// Dendrites per value cell.
    pub value_num_dendrites_per_cell: usize,
    /// Dendrites per policy cell.
    pub policy_num_dendrites_per_cell: usize,
    /// Number of past steps kept for replay.
    pub history_capacity: usize,
    /// The actor's inputs.
    pub visible_layer_descs: Vec<VisibleLayerDesc>,
}

/// What to build for one layer: its encoder and its decoders.
pub struct LayerPlan {
    /// Size of the layer's encoder output.
    pub hidden_size: Int3,
    /// The encoder's inputs.
    pub encoder_descs: Vec<VisibleLayerDesc>,
    /// The layer's decoders, in order.
    pub decoders: Vec<DecoderPlan>,
}

/// How IO ports map to the decoders and actors that serve them.
#[derive(Clone, Debug, Default)]
pub struct IoMap {
    /// Size of each port.
    pub io_sizes: Vec<Int3>,
    /// Type code of each port (see [`io_type_code`]).
    pub io_types: Vec<u8>,
    /// For decoder `d`, at `d`, the port it predicts; for actor `a`, at
    /// `num_io + a`, the port it drives; zero elsewhere.
    pub i_indices: Vec<i32>,
    /// For each port, the index of its decoder or actor, or `-1` for none.
    pub d_indices: Vec<i32>,
}

/// Everything a hierarchy builds, before any weights are drawn.
pub struct Topology {
    /// One plan per layer, bottom first.
    pub layers: Vec<LayerPlan>,
    /// One plan per action port, in port order.
    pub actors: Vec<ActorPlan>,
    /// The port-to-head index maps.
    pub io: IoMap,
    /// Bottom-layer ticks between updates of each layer (at least one).
    pub ticks_per_update: Vec<usize>,
}

/// `p` plans a decoder of the given size and dendrites over `descs`.
pub open spec fn decoder_plan_is(p: DecoderPlan, hidden: Int3, ndpc: usize, descs: Seq<VisibleLayerDesc>) -> bool {
    &&& p.hidden_size == hidden
    &&& p.num_dendrites_per_cell == ndpc
    &&& p.visible_layer_descs@ == descs
}

/// `p` plans the actor for action port `d` under a bottom layer of size `hidden0`.
pub open spec fn actor_plan_is(p: ActorPlan, d: IoDesc, hidden0: Int3, feedback: bool) -> bool {
    &&& p.hidden_size == d.size
    &&& p.value_size == d.value_size
    &&& p.value_num_dendrites_per_cell == d.value_num_dendrites_per_cell
    &&& p.policy_num_dendrites_per_cell == d.num_dendrites_per_cell
    &&& p.history_capacity == d.history_capacity
    &&& p.visible_layer_descs@ == down_descs(hidden0, d.down_radius, feedback)
}

/// `p` is the plan of layer `l` of a hierarchy with ports `io` and layers `ld`.
pub open spec fn layer_plan_is(p: LayerPlan, io: Seq<IoDesc>, ld: Seq<LayerDesc>, l: int) -> bool {
    &&& p.hidden_size == ld[l].hidden_size
    &&& if l == 0 {
        &&& p.encoder_descs@ == port_descs(io) + recurrent_descs(ld[0])
        &&& p.decoders@.len() == count_type(io, IoType::Prediction, io.len() as int)
        &&& forall|i: int|
            0 <= i < io.len() && io[i].io_type == IoType::Prediction ==> decoder_plan_is(
                #[trigger] p.decoders@[count_type(io, IoType::Prediction, i) as int],
                io[i].size,
                io[i].num_dendrites_per_cell,
                down_descs(ld[0].hidden_size, io[i].down_radius, layer_feedback(ld, 0)),
            )
    } else {
        &&& p.encoder_descs@ == seq![
            VisibleLayerDesc { size: ld[l - 1].hidden_size, radius: ld[l].up_radius },
        ] + recurrent_descs(ld[l])
        &&& p.decoders@.len() == 1
        &&& decoder_plan_is(
            p.decoders@[0],
            ld[l - 1].hidden_size,
            ld[l].num_dendrites_per_cell,
            down_descs(ld[l].hidden_size, ld[l].down_radius, layer_feedback(ld, l)),
        )
    }
}

/// The index maps of `m` are those of ports `io`; `built` says whether the
/// bottom layer exists, without which no decoder or actor is built.
pub open spec fn io_map_is(m: IoMap, io: Seq<IoDesc>, built: bool) -> bool {
    let n = io.len() as int;
    let np = count_type(io, IoType::Prediction, n) as int;
    let na = count_type(io, IoType::Action, n) as int;
    &&& m.io_sizes@.len() == n
    &&& m.io_types@.len() == n
    &&& forall|i: int| 0 <= i < n ==> #[trigger] m.io_sizes@[i] == io[i].size
    &&& forall|i: int| 0 <= i < n ==> #[trigger] m.io_types@[i] == io_type_code(io[i].io_type)
    &&& m.d_indices@.len() == n
    &&& forall|i: int|
        0 <= i < n ==> #[trigger] m.d_indices@[i] == (if built && io[i].io_type != IoType::InputOnly {
            count_type(io, io[i].io_type, i) as int
        } else {
            -1
        })
    &&& m.i_indices@.len() == 2 * n
    &&& forall|i: int|
        0 <= i < n && built && io[i].io_type == IoType::Prediction ==> m.i_indices@[count_type(
            io,
            IoType::Prediction,
            i,
        ) as int] == i
    &&& forall|i: int|
        0 <= i < n && built && io[i].io_type == IoType::Action ==> m.i_indices@[n + count_type(
            io,
            IoType::Action,
            i,
        )] == i
    &&& forall|k: int|
        0 <= k < 2 * n && !(built && k < np) && !(built && n <= k < n + na) ==> #[trigger] m.i_indices@[k] == 0
}

/// Counting ports of one type: the count grows by one exactly at ports of
/// that type, so it never exceeds the number of ports looked at, and earlier
/// ports of the type have smaller counts.
proof fn lemma_count_type_step(io: Seq<IoDesc>, t: IoType, i: int, j: int)
    requires
        0 <= i < j <= io.len(),
        io[i].io_type == t,
    ensures
        count_type(io, t, i) < count_type(io, t, j),
    decreases j - i,
{
    if j > i + 1 {
        lemma_count_type_step(io, t, i, j - 1);
    }
}

proof fn lemma_count_type_le(io: Seq<IoDesc>, t: IoType, i: int)
    requires
        0 <= i <= io.len(),
    ensures
        count_type(io, t, i) <= i,
    decreases i,
{
    if i > 0 {
        lemma_count_type_le(io, t, i - 1);
    }
}

fn down_descs_vec(hidden: Int3, radius: i32, feedback: bool) -> (r: Vec<VisibleLayerDesc>)
    ensures
        r@ == down_descs(hidden, radius, feedback),
{
    let v = VisibleLayerDesc { size: hidden, radius };
    let mut r: Vec<VisibleLayerDesc> = Vec::new();
    r.push(v);
    if feedback {
        r.push(v);
    }
    assert(r@ =~= down_descs(hidden, radius, feedback));
    r
}

fn push_recurrent(descs: &mut Vec<VisibleLayerDesc>, ld: &LayerDesc)
    ensures
        final(descs)@ == old(descs)@ + recurrent_descs(*ld),
{
    if ld.recurrent_radius > -1 {
        descs.push(VisibleLayerDesc { size: ld.hidden_size, radius: ld.recurrent_radius });
    }
    assert(descs@ =~= old(descs)@ + recurrent_descs(*ld));
}

fn plan_bottom_decoders(
    io_descs: &[IoDesc],
    hidden0: Int3,
    feedback: bool,
    i_indices: &mut Vec<i32>,
    d_indices: &mut Vec<i32>,
) -> (decoders: Vec<DecoderPlan>)
    requires
        io_descs@.len() <= i32::MAX,
        old(i_indices)@.len() == 2 * io_descs@.len(),
        old(d_indices)@.len() == io_descs@.len(),
        forall|k: int| 0 <= k < 2 * io_descs@.len() ==> #[trigger] old(i_indices)@[k] == 0,
        forall|k: int| 0 <= k < io_descs@.len() ==> #[trigger] old(d_indices)@[k] == -1,
    ensures
        ({
            let io = io_descs@;
            let n = io.len() as int;
            &&& decoders@.len() == count_type(io, IoType::Prediction, n)
            &&& forall|i: int|
                0 <= i < n && io[i].io_type == IoType::Prediction ==> decoder_plan_is(
                    #[trigger] decoders@[count_type(io, IoType::Prediction, i) as int],
                    io[i].size,
                    io[i].num_dendrites_per_cell,
                    down_descs(hidden0, io[i].down_radius, feedback),
                )
            &&& final(i_indices)@.len() == 2 * n
            &&& final(d_indices)@.len() == n
            &&& forall|i: int|
                0 <= i < n ==> #[trigger] final(d_indices)@[i] == (if io[i].io_type == IoType::Prediction {
                    count_type(io, IoType::Prediction, i) as int
                } else {
                    -1
                })
            &&& forall|i: int|
                0 <= i < n && io[i].io_type == IoType::Prediction ==> final(i_indices)@[count_type(
                    io,
                    IoType::Prediction,
                    i,
                ) as int] == i
            &&& forall|k: int|
                count_type(io, IoType::Prediction, n) <= k < 2 * n ==> #[trigger] final(i_indices)@[k] == 0
        }),
{
    let ghost io = io_descs@;
    let n = io_descs.len();
    let mut decoders: Vec<DecoderPlan> = Vec::new();
    let mut d_index: usize = 0;
    let mut i: usize = 0;
    while i < n
        invariant
            io == io_descs@,
            n == io.len(),
            n <= i32::MAX,
            i <= n,
            d_index == count_type(io, IoType::Prediction, i as int),
            d_index <= i,
            decoders@.len() == d_index,
            forall|i2: int|
                0 <= i2 < i && io[i2].io_type == IoType::Prediction ==> decoder_plan_is(
                    #[trigger] decoders@[count_type(io, IoType::Prediction, i2) as int],
                    io[i2].size,
                    io[i2].num_dendrites_per_cell,
                    down_descs(hidden0, io[i2].down_radius, feedback),
                ),
            i_indices@.len() == 2 * n,
            d_indices@.len() == n,
            forall|i2: int|
                0 <= i2 < n ==> #[trigger] d_indices@[i2] == (if i2 < i && io[i2].io_type == IoType::Prediction {
                    count_type(io, IoType::Prediction, i2) as int
                } else {
                    -1
                }),
            forall|i2: int|
                0 <= i2 < i && io[i2].io_type == IoType::Prediction ==> i_indices@[count_type(
                    io,
                    IoType::Prediction,
                    i2,
                ) as int] == i2,
            forall|k: int| d_index <= k < 2 * n ==> #[trigger] i_indices@[k] == 0,
        decreases n - i,
    {
        proof {
            lemma_count_type_le(io, IoType::Prediction, i as int);
        }
        if io_descs[i].io_type == IoType::Prediction {
            let descs = down_descs_vec(hidden0, io_descs[i].down_radius, feedback);
            let ghost prev = decoders@;
            let ghost prev_i = i_indices@;
            decoders.push(
                DecoderPlan {
                    hidden_size: io_descs[i].size,
                    num_dendrites_per_cell: io_descs[i].num_dendrites_per_cell,
                    visible_layer_descs: descs,
                },
            );
            i_indices.set(d_index, i as i32);
            d_indices.set(i, d_index as i32);
            proof {
                assert forall|i2: int|
                    0 <= i2 < i && io[i2].io_type == IoType::Prediction implies i_indices@[count_type(
                        io,
                        IoType::Prediction,
                        i2,
                    ) as int] == i2 by {
                    lemma_count_type_step(io, IoType::Prediction, i2, i as int);
                    assert(prev_i[count_type(io, IoType::Prediction, i2) as int] == i2);
                }
                assert forall|i2: int|
                    0 <= i2 < i && io[i2].io_type == IoType::Prediction implies decoder_plan_is(
                        #[trigger] decoders@[count_type(io, IoType::Prediction, i2) as int],
                        io[i2].size,
                        io[i2].num_dendrites_per_cell,
                        down_descs(hidden0, io[i2].down_radius, feedback),
                    ) by {
                    lemma_count_type_step(io, IoType::Prediction, i2, i as int);
                    assert(prev[count_type(io, IoType::Prediction, i2) as int] == decoders@[count_type(io, IoType::Prediction, i2) as int]);
                }
            }
            d_index = d_index + 1;
        }
        i = i + 1;
    }
    decoders
}

fn plan_actors(
    io_descs: &[IoDesc],
    hidden0: Int3,
    feedback: bool,
    i_indices: &mut Vec<i32>,
    d_indices: &mut Vec<i32>,
) -> (actors: Vec<ActorPlan>)
    requires
        io_descs@.len() <= i32::MAX,
        old(i_indices)@.len() == 2 * io_descs@.len(),
        old(d_indices)@.len() == io_descs@.len(),
        forall|k: int|
            io_descs@.len() <= k < 2 * io_descs@.len() ==> #[trigger] old(i_indices)@[k] == 0,
        forall|k: int|
            0 <= k < io_descs@.len() && io_descs@[k].io_type == IoType::Action ==> #[trigger] old(
                d_indices,
            )@[k] == -1,
    ensures
        ({
            let io = io_descs@;
            let n = io.len() as int;
            let na = count_type(io, IoType::Action, n) as int;
            &&& actors@.len() == na
            &&& forall|i: int|
                0 <= i < n && io[i].io_type == IoType::Action ==> actor_plan_is(
                    #[trigger] actors@[count_type(io, IoType::Action, i) as int],
                    io[i],
                    hidden0,
                    feedback,
                )
            &&& final(i_indices)@.len() == 2 * n
            &&& final(d_indices)@.len() == n
            &&& forall|i: int|
                0 <= i < n ==> #[trigger] final(d_indices)@[i] == (if io[i].io_type == IoType::Action {
                    count_type(io, IoType::Action, i) as int
                } else {
                    old(d_indices)@[i] as int
                })
            &&& forall|i: int|
                0 <= i < n && io[i].io_type == IoType::Action ==> final(i_indices)@[n + count_type(
                    io,
                    IoType::Action,
                    i,
                )] == i
            &&& forall|k: int| 0 <= k < n ==> #[trigger] final(i_indices)@[k] == old(i_indices)@[k]
            &&& forall|k: int| n + na <= k < 2 * n ==> #[trigger] final(i_indices)@[k] == 0
        }),
{
    let ghost io = io_descs@;
    let ghost i0 = i_indices@;
    let ghost d0 = d_indices@;
    let n = io_descs.len();
    let mut actors: Vec<ActorPlan> = Vec::new();
    let mut a_index: usize = 0;
    let mut i: usize = 0;
    while i < n
        invariant
            io == io_descs@,
            n == io.len(),
            n <= i32::MAX,
            i <= n,
            a_index == count_type(io, IoType::Action, i as int),
            a_index <= i,
            actors@.len() == a_index,
            forall|i2: int|
                0 <= i2 < i && io[i2].io_type == IoType::Action ==> actor_plan_is(
                    #[trigger] actors@[count_type(io, IoType::Action, i2) as int],
                    io[i2],
                    hidden0,
                    feedback,
                ),
            i_indices@.len() == 2 * n,
            d_indices@.len() == n,
            forall|i2: int|
                0 <= i2 < n ==> #[trigger] d_indices@[i2] == (if i2 < i && io[i2].io_type == IoType::Action {
                    count_type(io, IoType::Action, i2) as int
                } else {
                    d0[i2] as int
                }),
            forall|i2: int|
                0 <= i2 < i && io[i2].io_type == IoType::Action ==> i_indices@[n + count_type(
                    io,
                    IoType::Action,
                    i2,
                )] == i2,
            forall|k: int| 0 <= k < n ==> #[trigger] i_indices@[k] == i0[k],
            forall|k: int| n + a_index <= k < 2 * n ==> #[trigger] i_indices@[k] == 0,
        decreases n - i,
    {
        proof {
            lemma_count_type_le(io, IoType::Action, i as int);
        }
        if io_descs[i].io_type == IoType::Action {
            let descs = down_descs_vec(hidden0, io_descs[i].down_radius, feedback);
            let ghost prev = actors@;
            let ghost prev_i = i_indices@;
            actors.push(
                ActorPlan {
                    hidden_size: io_descs[i].size,
                    value_size: io_descs[i].value_size,
                    value_num_dendrites_per_cell: io_descs[i].value_num_dendrites_per_cell,
                    policy_num_dendrites_per_cell: io_descs[i].num_dendrites_per_cell,
                    history_capacity: io_descs[i].history_capacity,
                    visible_layer_descs: descs,
                },
            );
            i_indices.set(n + a_index, i as i32);
            d_indices.set(i, a_index as i32);
            proof {
                assert forall|i2: int|
                    0 <= i2 < i && io[i2].io_type == IoType::Action implies i_indices@[n + count_type(
                        io,
                        IoType::Action,
                        i2,
                    )] == i2 by {
                    lemma_count_type_step(io, IoType::Action, i2, i as int);
                    assert(prev_i[n + count_type(io, IoType::Action, i2)] == i2);
                }
                assert forall|i2: int|
                    0 <= i2 < i && io[i2].io_type == IoType::Action implies actor_plan_is(
                        #[trigger] actors@[count_type(io, IoType::Action, i2) as int],
                        io[i2],
                        hidden0,
                        feedback,
                    ) by {
                    lemma_count_type_step(io, IoType::Action, i2, i as int);
                    assert(prev[count_type(io, IoType::Action, i2) as int] == actors@[count_type(io, IoType::Action, i2) as int]);
                }
            }
            a_index = a_index + 1;
        }
        i = i + 1;
    }
    actors
}

/// `t` is the topology of a hierarchy with IO ports `io` and layers `ld`.
pub open spec fn topology_is(t: Topology, io: Seq<IoDesc>, ld: Seq<LayerDesc>) -> bool {
    let nl = ld.len() as int;
    &&& t.layers@.len() == nl
    &&& forall|l: int| 0 <= l < nl ==> layer_plan_is(#[trigger] t.layers@[l], io, ld, l)
    &&& nl == 0 ==> t.actors@.len() == 0
    &&& nl > 0 ==> t.actors@.len() == count_type(io, IoType::Action, io.len() as int)
    &&& nl > 0 ==> forall|i: int|
        0 <= i < io.len() && io[i].io_type == IoType::Action ==> actor_plan_is(
            #[trigger] t.actors@[count_type(io, IoType::Action, i) as int],
            io[i],
            ld[0].hidden_size,
            layer_feedback(ld, 0),
        )
    &&& io_map_is(t.io, io, nl > 0)
    &&& t.ticks_per_update@.len() == nl
    &&& forall|l: int|
        0 <= l < nl ==> #[trigger] t.ticks_per_update@[l] == (if ld[l].ticks_per_update > 1 {
            ld[l].ticks_per_update
        } else {
            1
        })
}

/// Work out, from the descriptors of the IO ports and of the layers, what a
/// hierarchy consists of: each layer's encoder inputs and decoders, the
/// actors, how ports map to the decoders and actors that serve them, and how
/// often each layer runs.
pub fn plan_hierarchy(io_descs: &[IoDesc], layer_descs: &[LayerDesc]) -> (t: Topology)
    requires
        io_descs@.len() <= i32::MAX,
        top_feedback_only_at_top(layer_descs@),
    ensures
        topology_is(t, io_descs@, layer_descs@),
{
    let ghost io = io_descs@;
    let ghost ld = layer_descs@;
    let nl = layer_descs.len();
    let n = io_descs.len();

    let mut io_map = IoMap {
        io_sizes: Vec::new(),
        io_types: Vec::new(),
        i_indices: Vec::new(),
        d_indices: Vec::new(),
    };
    let mut i: usize = 0;
    while i < n
        invariant
            io == io_descs@,
            n == io.len(),
            n <= i32::MAX,
            i <= n,
            io_map.io_sizes@.len() == i,
            io_map.io_types@.len() == i,
            io_map.d_indices@.len() == i,
            io_map.i_indices@.len() == 2 * i,
            forall|k: int| 0 <= k < i ==> #[trigger] io_map.io_sizes@[k] == io[k].size,
            forall|k: int| 0 <= k < i ==> #[trigger] io_map.io_types@[k] == io_type_code(io[k].io_type),
            forall|k: int| 0 <= k < i ==> #[trigger] io_map.d_indices@[k] == -1,
            forall|k: int| 0 <= k < 2 * i ==> #[trigger] io_map.i_indices@[k] == 0,
        decreases n - i,
    {
        io_map.io_sizes.push(io_descs[i].size);
        io_map.io_types.push(io_descs[i].io_type.to_u8());
        io_map.d_indices.push(-1);
        io_map.i_indices.push(0);
        io_map.i_indices.push(0);
        i = i + 1;
    }

    let mut ticks_per_update: Vec<usize> = Vec::new();
    let mut l: usize = 0;
    while l < nl
        invariant
            ld == layer_descs@,
            nl == ld.len(),
            l <= nl,
            ticks_per_update@.len() == l,
            forall|k: int|
                0 <= k < l ==> #[trigger] ticks_per_update@[k] == (if ld[k].ticks_per_update > 1 {
                    ld[k].ticks_per_update
                } else {
                    1
                }),
        decreases nl - l,
    {
        let tpu = layer_descs[l].ticks_per_update;
        ticks_per_update.push(if tpu > 1 { tpu } else { 1 });
        l = l + 1;
    }

    let mut layers: Vec<LayerPlan> = Vec::new();
    let mut actors: Vec<ActorPlan> = Vec::new();
    let mut l: usize = 0;
    while l < nl
        invariant
            io == io_descs@,
            ld == layer_descs@,
            n == io.len(),
            n <= i32::MAX,
            nl == ld.len(),
            l <= nl,
            layers@.len() == l,
            forall|k: int| 0 <= k < l ==> layer_plan_is(#[trigger] layers@[k], io, ld, k),
            l == 0 ==> actors@.len() == 0,
            l > 0 ==> actors@.len() == count_type(io, IoType::Action, n as int),
            l > 0 ==> forall|i: int|
                0 <= i < n && io[i].io_type == IoType::Action ==> actor_plan_is(
                    #[trigger] actors@[count_type(io, IoType::Action, i) as int],
                    io[i],
                    ld[0].hidden_size,
                    layer_feedback(ld, 0),
                ),
            io_map_is(io_map, io, l > 0),
        decreases nl - l,
    {
        if l == 0 {
            let feedback = nl > 1 || layer_descs[0].top_feedback;
            let hidden0 = layer_descs[0].hidden_size;
            let mut e: Vec<VisibleLayerDesc> = Vec::new();
            let mut i: usize = 0;
            while i < n
                invariant
                    io == io_descs@,
                    n == io.len(),
                    i <= n,
                    e@ == port_descs(io).subrange(0, i as int),
                decreases n - i,
            {
                e.push(VisibleLayerDesc { size: io_descs[i].size, radius: io_descs[i].up_radius });
                i = i + 1;
                assert(e@ =~= port_descs(io).subrange(0, i as int));
            }
            assert(port_descs(io).subrange(0, n as int) =~= port_descs(io));
            proof {
                assert forall|k: int| 0 <= k < 2 * n implies #[trigger] io_map.i_indices@[k] == 0 by {
                }
            }
            let decs = plan_bottom_decoders(io_descs, hidden0, feedback, &mut io_map.i_indices, &mut io_map.d_indices);
            proof {
                lemma_count_type_le(io, IoType::Prediction, n as int);
            }
            let ghost i_mid = io_map.i_indices@;
            let ghost d_mid = io_map.d_indices@;
            actors = plan_actors(io_descs, hidden0, feedback, &mut io_map.i_indices, &mut io_map.d_indices);
            push_recurrent(&mut e, &layer_descs[0]);
            layers.push(LayerPlan { hidden_size: hidden0, encoder_descs: e, decoders: decs });
            proof {
                let np = count_type(io, IoType::Prediction, n as int) as int;
                let na = count_type(io, IoType::Action, n as int) as int;
                assert forall|i: int| 0 <= i < n implies #[trigger] io_map.d_indices@[i] == (if io[i].io_type != IoType::InputOnly {
                    count_type(io, io[i].io_type, i) as int
                } else {
                    -1
                }) by {
                    assert(d_mid[i] == (if io[i].io_type == IoType::Prediction {
                        count_type(io, IoType::Prediction, i) as int
                    } else {
                        -1
                    }));
                }
                lemma_count_type_le(io, IoType::Prediction, n as int);
                assert forall|k: int| 0 <= k < 2 * n && !(k < np) && !(n <= k < n + na) implies #[trigger] io_map.i_indices@[k] == 0 by {
                    if k < n {
                        assert(i_mid[k] == 0);
                    }
                }
                assert forall|i: int|
                    0 <= i < n && io[i].io_type == IoType::Prediction implies io_map.i_indices@[count_type(
                        io,
                        IoType::Prediction,
                        i,
                    ) as int] == i by {
                    lemma_count_type_step(io, IoType::Prediction, i, n as int);
                    assert(i_mid[count_type(io, IoType::Prediction, i) as int] == i);
                }
                assert(layers@[0] == layers@[l as int]);
            }
        } else {
            let mut e: Vec<VisibleLayerDesc> = Vec::new();
            e.push(VisibleLayerDesc { size: layer_descs[l - 1].hidden_size, radius: layer_descs[l].up_radius });
            let feedback = l < nl - 1 || layer_descs[l].top_feedback;
            let dv = down_descs_vec(layer_descs[l].hidden_size, layer_descs[l].down_radius, feedback);
            let mut decs: Vec<DecoderPlan> = Vec::new();
            decs.push(
                DecoderPlan {
                    hidden_size: layer_descs[l - 1].hidden_size,
                    num_dendrites_per_cell: layer_descs[l].num_dendrites_per_cell,
                    visible_layer_descs: dv,
                },
            );
            push_recurrent(&mut e, &layer_descs[l]);
            assert(e@ =~= seq![
                VisibleLayerDesc { size: ld[l - 1].hidden_size, radius: ld[l as int].up_radius },
            ] + recurrent_descs(ld[l as int]));
            layers.push(LayerPlan { hidden_size: layer_descs[l].hidden_size, encoder_descs: e, decoders: decs });
        }
        l = l + 1;
    }
    Topology { layers, actors, io: io_map, ticks_per_update }
}

proof fn lemma_count_type_onto(io: Seq<IoDesc>, t: IoType, n: int, k: int) -> (i: int)
    requires
        0 <= n <= io.len(),
        0 <= k < count_type(io, t, n),
    ensures
        0 <= i < n,
        io[i].io_type == t,
        count_type(io, t, i) == k,
    decreases n,
{
    if k < count_type(io, t, n - 1) {
        lemma_count_type_onto(io, t, n - 1, k)
    } else {
        n - 1
    }
}

/// The two index maps of a built hierarchy are inverse to each other: a port's
/// head index leads back, through `i_indices`, to the port; and every decoder
/// (index `d`) and actor (index `a`, found at `num_io + a`) leads, through
/// `i_indices`, to a port of the matching type whose head index is `d` or `a`.
pub proof fn lemma_io_maps_invert(m: IoMap, io: Seq<IoDesc>)
    requires
        io_map_is(m, io, true),
    ensures
        ({
            let n = io.len() as int;
            let np = count_type(io, IoType::Prediction, n) as int;
            let na = count_type(io, IoType::Action, n) as int;
            &&& forall|i: int|
                0 <= i < n && io[i].io_type == IoType::Prediction ==> m.i_indices@[m.d_indices@[i] as int] == i
            &&& forall|i: int|
                0 <= i < n && io[i].io_type == IoType::Action ==> m.i_indices@[n + m.d_indices@[i]] == i
            &&& forall|i: int| 0 <= i < n && io[i].io_type == IoType::InputOnly ==> m.d_indices@[i] == -1
            &&& forall|k: int|
                0 <= k < np ==> {
                    let i = #[trigger] m.i_indices@[k] as int;
                    &&& 0 <= i < n
                    &&& io[i].io_type == IoType::Prediction
                    &&& m.d_indices@[i] == k
                }
            &&& forall|k: int|
                0 <= k < na ==> {
                    let i = #[trigger] m.i_indices@[n + k] as int;
                    &&& 0 <= i < n
                    &&& io[i].io_type == IoType::Action
                    &&& m.d_indices@[i] == k
                }
        }),
{
    let n = io.len() as int;
    assert forall|i: int|
        0 <= i < n && io[i].io_type == IoType::Prediction implies m.i_indices@[m.d_indices@[i] as int] == i by {
        assert(m.d_indices@[i] == count_type(io, IoType::Prediction, i));
    }
    assert forall|i: int|
        0 <= i < n && io[i].io_type == IoType::Action implies m.i_indices@[n + m.d_indices@[i]] == i by {
        assert(m.d_indices@[i] == count_type(io, IoType::Action, i));
    }
    assert forall|i: int| 0 <= i < n && io[i].io_type == IoType::InputOnly implies m.d_indices@[i] == -1 by {
        assert(m.d_indices@[i] == -1);
    }
    assert forall|k: int| 0 <= k < count_type(io, IoType::Prediction, n) implies {
        let i = #[trigger] m.i_indices@[k] as int;
        &&& 0 <= i < n
        &&& io[i].io_type == IoType::Prediction
        &&& m.d_indices@[i] == k
    } by {
        let i = lemma_count_type_onto(io, IoType::Prediction, n, k);
        assert(m.i_indices@[count_type(io, IoType::Prediction, i) as int] == i);
        assert(m.d_indices@[i] == count_type(io, io[i].io_type, i));
    }
    assert forall|k: int| 0 <= k < count_type(io, IoType::Action, n) implies {
        let i = #[trigger] m.i_indices@[n + k] as int;
        &&& 0 <= i < n
        &&& io[i].io_type == IoType::Action
        &&& m.d_indices@[i] == k
    } by {
        let i = lemma_count_type_onto(io, IoType::Action, n, k);
        assert(m.i_indices@[n + count_type(io, IoType::Action, i)] == i);
        assert(m.d_indices@[i] == count_type(io, io[i].io_type, i));
    }
}

/// Each planned actor takes its sizes from its action port: the value head
/// has the port's `value_num_dendrites_per_cell` dendrites per cell and
/// `value_size` bins, the policy head the port's `num_dendrites_per_cell`, and
/// the history the port's `history_capacity`; and there is one actor per
/// action port.
pub proof fn lemma_planned_actor_heads(t: Topology, io: Seq<IoDesc>, ld: Seq<LayerDesc>, i: int)
    requires
        topology_is(t, io, ld),
        ld.len() > 0,
        0 <= i < io.len(),
        io[i].io_type == IoType::Action,
    ensures
        ({
            let a = t.actors@[count_type(io, IoType::Action, i) as int];
            &&& 0 <= count_type(io, IoType::Action, i) < t.actors@.len()
            &&& a.hidden_size == io[i].size
            &&& a.value_size == io[i].value_size
            &&& a.value_num_dendrites_per_cell == io[i].value_num_dendrites_per_cell
            &&& a.policy_num_dendrites_per_cell == io[i].num_dendrites_per_cell
            &&& a.history_capacity == io[i].history_capacity
        }),
{
    lemma_count_type_step(io, IoType::Action, i, io.len() as int);
}

/// Reading back a type's code gives the type.
pub proof fn lemma_io_type_code_round_trip(t: IoType)
    ensures
        io_type_of_code(io_type_code(t)) == t,
{
}

impl IoMap {
    /// Return the number of IO ports.
    pub fn num_io(&self) -> (r: usize)
        ensures
            r == self.io_sizes@.len(),
    {
        self.io_sizes.len()
    }

    /// Return the size of IO port `i`.
    pub fn io_size(&self, i: usize) -> (r: Int3)
        requires
            i < self.io_sizes@.len(),
        ensures
            r == self.io_sizes@[i as int],
    {
        self.io_sizes[i]
    }

    /// Return the type of IO port `i`.
    pub fn io_type(&self, i: usize) -> (r: IoType)
        requires
            i < self.io_types@.len(),
        ensures
            r == io_type_of_code(self.io_types@[i as int]),
    {
        IoType::from(self.io_types[i])
    }

    /// Return `true` if IO port `i` has an associated decoder or actor.
    pub fn io_layer_exists(&self, i: usize) -> (r: bool)
        requires
            i < self.d_indices@.len(),
        ensures
            r == (self.d_indices@[i as int] != -1),
    {
        self.d_indices[i] != -1
    }
}

// --- The layer clock ---

/// A layer's tick counter after one more bottom-layer tick: it wraps to zero
/// when it reaches the layer's period.
pub open spec fn next_tick(t: int, period: int) -> int {
    if t + 1 >= period {
        0
    } else {
        t + 1
    }
}

/// A layer's tick counter after `n` bottom-layer ticks from zero.
pub open spec fn ticks_after(period: int, n: nat) -> int
    decreases n,
{
    if n == 0 {
        0
    } else {
        next_tick(ticks_after(period, (n - 1) as nat), period)
    }
}

/// Which layers run on each step. Layer 0 runs on every step; layer `l`
/// counts bottom-layer ticks and runs when its count reaches
/// `ticks_per_update[l]`.
#[derive(Clone, Debug, Default)]
pub struct Schedule {
    /// Per-layer tick counters.
    pub ticks: Vec<usize>,
    /// Per-layer flags: whether the layer ran on the current step.
    pub updates: Vec<bool>,
    /// Number of bottom-layer ticks between updates of each layer.
    pub ticks_per_update: Vec<usize>,
}

impl Schedule {
    /// The three per-layer vectors have one entry per layer.
    pub open spec fn wf(&self) -> bool {
        &&& self.ticks@.len() == self.ticks_per_update@.len()
        &&& self.updates@.len() == self.ticks_per_update@.len()
    }

    /// A clock at rest: no ticks counted and every layer marked as running.
    pub fn new(ticks_per_update: Vec<usize>) -> (r: Self)
        ensures
            r.wf(),
            r.ticks_per_update@ == ticks_per_update@,
            forall|l: int| 0 <= l < r.ticks@.len() ==> #[trigger] r.ticks@[l] == 0,
            forall|l: int| 0 <= l < r.updates@.len() ==> #[trigger] r.updates@[l],
    {
        let n = ticks_per_update.len();
        let mut ticks: Vec<usize> = Vec::new();
        let mut updates: Vec<bool> = Vec::new();
        let mut i: usize = 0;
        while i < n
            invariant
                i <= n,
                ticks@.len() == i,
                updates@.len() == i,
                forall|l: int| 0 <= l < i ==> #[trigger] ticks@[l] == 0,
                forall|l: int| 0 <= l < i ==> #[trigger] updates@[l],
            decreases n - i,
        {
            ticks.push(0);
            updates.push(true);
            i = i + 1;
        }
        Schedule { ticks, updates, ticks_per_update }
    }

    /// Count one bottom-layer tick: layer 0 runs; every higher layer advances
    /// its counter and runs exactly when the counter reaches its period, at
    /// which point the counter restarts from zero.
    pub fn advance(&mut self)
        requires
            old(self).wf(),
            old(self).ticks_per_update@.len() >= 1,
            forall|l: int| 0 <= l < old(self).ticks@.len() ==> #[trigger] old(self).ticks@[l] < usize::MAX,
        ensures
            final(self).wf(),
            final(self).ticks_per_update@ == old(self).ticks_per_update@,
            final(self).updates@[0],
            final(self).ticks@[0] == old(self).ticks@[0],
            forall|l: int|
                1 <= l < final(self).ticks@.len() ==> #[trigger] final(self).ticks@[l] == next_tick(
                    old(self).ticks@[l] as int,
                    old(self).ticks_per_update@[l] as int,
                ),
            forall|l: int|
                1 <= l < final(self).updates@.len() ==> #[trigger] final(self).updates@[l] == (old(
                    self,
                ).ticks@[l] + 1 >= old(self).ticks_per_update@[l]),
    {
        let n = self.ticks_per_update.len();
        self.updates.set(0, true);
        let mut l: usize = 1;
        while l < n
            invariant
                n == self.ticks_per_update@.len(),
                self.wf(),
                1 <= l <= n,
                self.ticks_per_update@ == old(self).ticks_per_update@,
                self.updates@[0],
                self.ticks@[0] == old(self).ticks@[0],
                forall|k: int| l <= k < n ==> #[trigger] self.ticks@[k] == old(self).ticks@[k],
                forall|k: int|
                    1 <= k < l ==> #[trigger] self.ticks@[k] == next_tick(
                        old(self).ticks@[k] as int,
                        old(self).ticks_per_update@[k] as int,
                    ),
                forall|k: int|
                    1 <= k < l ==> #[trigger] self.updates@[k] == (old(self).ticks@[k] + 1 >= old(
                        self,
                    ).ticks_per_update@[k]),
                forall|k: int| 0 <= k < n ==> #[trigger] old(self).ticks@[k] < usize::MAX,
            decreases n - l,
        {
            let t = self.ticks[l] + 1;
            if t >= self.ticks_per_update[l] {
                self.ticks.set(l, 0);
                self.updates.set(l, true);
            } else {
                self.ticks.set(l, t);
                self.updates.set(l, false);
            }
            l = l + 1;
        }
    }

    /// Return every layer to rest: counters zero, every layer marked as running.
    pub fn reset(&mut self)
        requires
            old(self).wf(),
        ensures
            final(self).wf(),
            final(self).ticks_per_update@ == old(self).ticks_per_update@,
            forall|l: int| 0 <= l < final(self).ticks@.len() ==> #[trigger] final(self).ticks@[l] == 0,
            forall|l: int| 0 <= l < final(self).updates@.len() ==> #[trigger] final(self).updates@[l],
    {
        let n = self.ticks.len();
        let mut l: usize = 0;
        while l < n
            invariant
                n == self.ticks@.len(),
                self.wf(),
                l <= n,
                self.ticks_per_update@ == old(self).ticks_per_update@,
                forall|k: int| 0 <= k < l ==> #[trigger] self.ticks@[k] == 0,
                forall|k: int| 0 <= k < l ==> #[trigger] self.updates@[k],
            decreases n - l,
        {
            self.ticks.set(l, 0);
            self.updates.set(l, true);
            l = l + 1;
        }
    }

    /// Return `true` if layer `l` ran on the last step.
    pub fn get_update(&self, l: usize) -> (r: bool)
        requires
            l < self.updates@.len(),
        ensures
            r == self.updates@[l as int],
    {
        self.updates[l]
    }
}

/// From rest, a layer with period `p` has counted `n % p` ticks after `n`
/// bottom-layer ticks, and it runs on the `n`-th tick exactly when `n` is a
/// multiple of `p`.
pub proof fn lemma_schedule_period(period: int, n: nat)
    requires
        period >= 1,
    ensures
        ticks_after(period, n) == (n as int) % period,
        n >= 1 ==> ((ticks_after(period, (n - 1) as nat) + 1 >= period) <==> (n as int) % period == 0),
    decreases n,
{
    if n == 0 {
        assert(0int % period == 0) by (nonlinear_arith)
            requires
                period >= 1,
        ;
    } else {
        lemma_schedule_period(period, (n - 1) as nat);
        let m = (n - 1) as int;
        assert(ticks_after(period, n) == next_tick(ticks_after(period, (n - 1) as nat), period));
        assert(ticks_after(period, (n - 1) as nat) == m % period);
        assert(m % period + 1 >= period <==> (n as int) % period == 0) by (nonlinear_arith)
            requires
                period >= 1,
                m >= 0,
                n as int == m + 1,
        ;
        assert(m % period + 1 < period ==> (n as int) % period == m % period + 1) by (nonlinear_arith)
            requires
                period >= 1,
                m >= 0,
                n as int == m + 1,
        ;
        assert(m % period + 1 >= period ==> (n as int) % period == 0) by (nonlinear_arith)
            requires
                period >= 1,
                m >= 0,
                n as int == m + 1,
        ;
    }
}

// --- Saved-hierarchy header ---

/// Magic number written at the start of every saved hierarchy ("AOGM" in ASCII).
pub const SERIAL_MAGIC: u32 = 0x4d474f41;

/// Version of the saved-hierarchy layout.
pub const SERIAL_VERSION: u32 = 2;

/// Why a saved hierarchy cannot be read.
#[derive(Clone, Copy, Debug, PartialEq, Eq, Structural)]
pub enum HeaderError {
    /// The file does not start with [`SERIAL_MAGIC`]; holds what it starts with.
    BadMagic(u32),
    /// The file is of a layout version other than [`SERIAL_VERSION`]; holds it.
    UnsupportedVersion(u32),
}

/// Check the magic number read from the start of a saved hierarchy, before
/// anything else is read.
pub fn check_magic(magic: u32) -> (r: Result<(), HeaderError>)
    ensures
        magic == SERIAL_MAGIC ==> r == Ok::<(), HeaderError>(()),
        magic != SERIAL_MAGIC ==> r == Err::<(), HeaderError>(HeaderError::BadMagic(magic)),
{
    if magic != SERIAL_MAGIC {
        Err(HeaderError::BadMagic(magic))
    } else {
        Ok(())
    }
}

/// Check the magic number and version read from the start of a saved hierarchy.
pub fn check_header(magic: u32, version: u32) -> (r: Result<(), HeaderError>)
    ensures
        magic != SERIAL_MAGIC ==> r == Err::<(), HeaderError>(HeaderError::BadMagic(magic)),
        magic == SERIAL_MAGIC && version != SERIAL_VERSION ==> r == Err::<(), HeaderError>(
            HeaderError::UnsupportedVersion(version),
        ),
        magic == SERIAL_MAGIC && version == SERIAL_VERSION ==> r == Ok::<(), HeaderError>(()),
{
    if magic != SERIAL_MAGIC {
        return Err(HeaderError::BadMagic(magic));
    }
    if version != SERIAL_VERSION {
        return Err(HeaderError::UnsupportedVersion(version));
    }
    Ok(())
}

/// Choose the history sample an actor learns from: the draw `r` of the PCG32
/// stream, reduced into `[min_steps, history_size)`.
pub fn pick_history_index(r: u32, history_size: usize, min_steps: usize) -> (t: usize)
    requires
        history_size > min_steps,
    ensures
        t == (r as int) % ((history_size - min_steps) as int) + min_steps,
        min_steps <= t < history_size,
{
    (r as usize % (history_size - min_steps)) + min_steps
}

} // verus!
