//! Runtime circuit: wires with previous/next state, components, the keyboard
//! input device, and the two-phase tick/tock schedule.
//!
//! Every tick has two phases.  Tock commits each wire (`prev <- next`,
//! `next <- 0`) and drains buffered keyboard events into the input device.
//! Tick then reads only `prev` fields and OR-merges each component's
//! contribution into the `next` fields of its output wires, so evaluation
//! order within a tick cannot be observed.

use vstd::prelude::*;
use crate::schema::{CompType, Schema};

verus! {

/// The word carried on a wire.
pub type Data = u16;

/// A wire's logical bus position.
pub type Channel = u8;

/// Number of wire channels, and of words in the input device buffer.
pub const NB_CHANNELS: usize = 16;

/// Number of bits of a `Data` word.
pub const DATA_BITS: usize = 16;

/// The operation a gate applies to its input words.
#[derive(Clone, Copy, Debug, PartialEq, Eq, Structural)]
pub enum Operator {
    Or,
    And,
    Nor,
    Nand,
    Add,
    Mul,
    Min,
    Max,
}

/// Runtime state of a wire.
#[derive(Clone, Copy, Debug, PartialEq, Eq, Structural)]
pub struct Wire {
    pub channel: Channel,
    pub prev: Data,
    pub next: Data,
}

/// A runtime component: its kind and its pin lists, which index into the
/// wire store.
#[derive(Clone, Debug)]
pub struct Comp {
    pub kind: CompType,
    pub pins_in: Vec<u32>,
    pub pins_out: Vec<u32>,
}

/// The keyboard input device: one buffered word per channel.
#[derive(Clone, Debug)]
pub struct InputDevice {
    pub buffer: Vec<Data>,
}

/// Whether a key went down or up.
#[derive(Clone, Copy, Debug, PartialEq, Eq, Structural)]
pub enum KeyState {
    Pressed,
    Released,
}

/// A keyboard event fed to the input device during Tock.
#[derive(Clone, Copy, Debug, PartialEq, Eq, Structural)]
pub struct KeyEvent {
    pub scan_code: u32,
    pub state: KeyState,
}

// ---------------------------------------------------------------------------
// Gate folds.
// ---------------------------------------------------------------------------

/// OR of all words, folded from zero.
pub open spec fn or_fold(vs: Seq<Data>) -> Data
    decreases vs.len(),
{
    if vs.len() == 0 {
        0u16
    } else {
        or_fold(vs.drop_last()) | vs.last()
    }
}

/// AND of all words; the accumulator is re-seeded with the first word, so an
/// empty input yields zero and a single input yields itself.
pub open spec fn and_fold(vs: Seq<Data>) -> Data
    decreases vs.len(),
{
    if vs.len() == 0 {
        0u16
    } else if vs.len() == 1 {
        vs[0]
    } else {
        and_fold(vs.drop_last()) & vs.last()
    }
}

/// Wrapping sum of all words, folded from zero.
pub open spec fn add_fold(vs: Seq<Data>) -> Data
    decreases vs.len(),
{
    if vs.len() == 0 {
        0u16
    } else {
        ((add_fold(vs.drop_last()) + vs.last()) % 0x10000) as u16
    }
}

/// Wrapping product of all words, re-seeded with the first word: an empty
/// input yields zero, a single input yields itself.
pub open spec fn mul_fold(vs: Seq<Data>) -> Data
    decreases vs.len(),
{
    if vs.len() == 0 {
        0u16
    } else if vs.len() == 1 {
        vs[0]
    } else {
        ((mul_fold(vs.drop_last()) * vs.last()) % 0x10000) as u16
    }
}

/// Minimum of all words, re-seeded with the first word: an empty input
/// yields zero, otherwise the smallest input.
pub open spec fn min_fold(vs: Seq<Data>) -> Data
    decreases vs.len(),
{
    if vs.len() == 0 {
        0u16
    } else if vs.len() == 1 {
        vs[0]
    } else {
        let rest = min_fold(vs.drop_last());
        if rest <= vs.last() {
            rest
        } else {
            vs.last()
        }
    }
}

/// Maximum of all words, folded from zero: the largest input, or zero when
/// there is none.
pub open spec fn max_fold(vs: Seq<Data>) -> Data
    decreases vs.len(),
{
    if vs.len() == 0 {
        0u16
    } else {
        let rest = max_fold(vs.drop_last());
        if rest >= vs.last() {
            rest
        } else {
            vs.last()
        }
    }
}

/// The word a gate produces from its input words.
pub open spec fn gate_eval(op: Operator, vs: Seq<Data>) -> Data {
    match op {
        Operator::Or => or_fold(vs),
        Operator::And => and_fold(vs),
        Operator::Nor => !or_fold(vs),
        Operator::Nand => !and_fold(vs),
        Operator::Add => add_fold(vs),
        Operator::Mul => mul_fold(vs),
        Operator::Min => min_fold(vs),
        Operator::Max => max_fold(vs),
    }
}

// ---------------------------------------------------------------------------
// Component contributions.
// ---------------------------------------------------------------------------

/// The committed words on a component's input wires, in pin order.
pub open spec fn input_words(c: Comp, wires: Seq<Wire>) -> Seq<Data> {
    Seq::new(c.pins_in@.len(), |i: int| wires[c.pins_in@[i] as int].prev)
}

/// One if the wire carried any bit last tick, else zero.
pub open spec fn wire_bit(w: Wire) -> Data {
    if w.prev != 0 {
        1u16
    } else {
        0u16
    }
}

/// The word a mux packs from its first `n` input wires: one bit per input,
/// at the input wire's channel position.
pub open spec fn mux_fold(c: Comp, wires: Seq<Wire>, n: int) -> Data
    decreases n,
{
    if n <= 0 {
        0u16
    } else {
        mux_fold(c, wires, n - 1)
            | (wire_bit(wires[c.pins_in@[n - 1] as int]) << wires[c.pins_in@[n - 1] as int].channel)
    }
}

/// The word a component contributes to an output wire of channel `ch`,
/// reading the committed `prev` state `wires`.  A demux output fires with
/// the component's mask exactly when its selector bit is clear; a bus is a
/// reserved pass-through that contributes nothing.
pub open spec fn contribution(c: Comp, wires: Seq<Wire>, buf: Seq<Data>, ch: Channel) -> Data {
    match c.kind {
        CompType::Bus => 0u16,
        CompType::Mux => mux_fold(c, wires, c.pins_in@.len() as int),
        CompType::Demux(mask) => if (or_fold(input_words(c, wires)) >> ch) & 1 == 0 {
            mask
        } else {
            0u16
        },
        CompType::Fixed(value) => value,
        CompType::Gate(op) => gate_eval(op, input_words(c, wires)),
        CompType::Input => buf[ch as int],
    }
}

// ---------------------------------------------------------------------------
// Well-formedness.
// ---------------------------------------------------------------------------

/// Every wire channel is in range.
pub open spec fn wires_wf(wires: Seq<Wire>) -> bool {
    forall|i: int| 0 <= i < wires.len() ==> (#[trigger] wires[i]).channel < NB_CHANNELS
}

/// Every pin of the component refers to a wire.
pub open spec fn comp_wf(c: Comp, nb_wires: int) -> bool {
    &&& forall|j: int| 0 <= j < c.pins_in@.len() ==> (#[trigger] c.pins_in@[j]) < nb_wires
    &&& forall|j: int| 0 <= j < c.pins_out@.len() ==> (#[trigger] c.pins_out@[j]) < nb_wires
}

pub open spec fn comps_wf(comps: Seq<Comp>, nb_wires: int) -> bool {
    forall|i: int| 0 <= i < comps.len() ==> comp_wf(#[trigger] comps[i], nb_wires)
}

/// The input device holds one word per channel.
pub open spec fn device_wf(dev: InputDevice) -> bool {
    dev.buffer@.len() == NB_CHANNELS
}

// ---------------------------------------------------------------------------
// Tock phase.
// ---------------------------------------------------------------------------

/// The committed state of one wire.
pub open spec fn tock_wire(w: Wire) -> Wire {
    Wire { channel: w.channel, prev: w.next, next: 0u16 }
}

/// The committed state of the whole wire store.
pub open spec fn tock_spec(wires: Seq<Wire>) -> Seq<Wire> {
    Seq::new(wires.len(), |i: int| tock_wire(wires[i]))
}

/// Commit every wire: `prev <- next`, `next <- 0`.
pub fn sys_reset(wires: &mut Vec<Wire>)
    ensures
        final(wires)@ == tock_spec(old(wires)@),
{
    let n = wires.len();
    let mut i: usize = 0;
    while i < n
        invariant
            i <= n,
            n == wires@.len(),
            forall|k: int| 0 <= k < i ==> wires@[k] == tock_wire(old(wires)@[k]),
            forall|k: int| i <= k < n ==> wires@[k] == old(wires)@[k],
        decreases n - i,
    {
        let w = wires[i];
        wires.set(i, Wire { channel: w.channel, prev: w.next, next: 0 });
        i = i + 1;
    }
    proof {
        assert(wires@ =~= tock_spec(old(wires)@));
    }
}

/// The device buffer after one keyboard event: scan code `c` addresses word
/// `c / NB_CHANNELS` and bit `c % DATA_BITS`; a press sets the bit, a
/// release clears it.
pub open spec fn apply_event(buffer: Seq<Data>, e: KeyEvent) -> Seq<Data> {
    let word = e.scan_code as int / NB_CHANNELS as int;
    let bit = (e.scan_code as int % DATA_BITS as int) as u16;
    match e.state {
        KeyState::Pressed => buffer.update(word, buffer[word] | (1u16 << bit)),
        KeyState::Released => buffer.update(word, buffer[word] & !(1u16 << bit)),
    }
}

/// The device buffer after the first `n` events, applied in order.
pub open spec fn apply_events(buffer: Seq<Data>, events: Seq<KeyEvent>, n: int) -> Seq<Data>
    decreases n,
{
    if n <= 0 {
        buffer
    } else {
        apply_event(apply_events(buffer, events, n - 1), events[n - 1])
    }
}

impl InputDevice {
    /// A device with every buffered word clear.
    pub fn new() -> (r: Self)
        ensures
            device_wf(r),
            forall|i: int| 0 <= i < NB_CHANNELS ==> r.buffer@[i] == 0u16,
    {
        let mut buffer = Vec::<Data>::new();
        let mut i: usize = 0;
        while i < NB_CHANNELS
            invariant
                i <= NB_CHANNELS,
                buffer@.len() == i,
                forall|k: int| 0 <= k < i ==> buffer@[k] == 0u16,
            decreases NB_CHANNELS - i,
        {
            buffer.push(0);
            i = i + 1;
        }
        Self { buffer }
    }
}

/// Drain buffered keyboard events into the device, in order.  Scan codes
/// must address the sixteen buffered words.
pub fn sys_tock(device: &mut InputDevice, events: &Vec<KeyEvent>)
    requires
        device_wf(*old(device)),
        forall|k: int| 0 <= k < events@.len()
            ==> (#[trigger] events@[k]).scan_code < 256,
    ensures
        device_wf(*final(device)),
        final(device).buffer@ == apply_events(
            old(device).buffer@, events@, events@.len() as int,
        ),
{
    let n = events.len();
    let mut i: usize = 0;
    while i < n
        invariant
            i <= n,
            n == events@.len(),
            device_wf(*device),
            forall|k: int| 0 <= k < events@.len()
                ==> (#[trigger] events@[k]).scan_code < 256,
            device.buffer@ == apply_events(old(device).buffer@, events@, i as int),
        decreases n - i,
    {
        let e = events[i];
        let word = (e.scan_code as usize) / NB_CHANNELS;
        let bit = (e.scan_code as usize) % DATA_BITS;
        let current = device.buffer[word];
        match e.state {
            KeyState::Pressed => {
                device.buffer.set(word, current | (1u16 << (bit as u16)));
            },
            KeyState::Released => {
                device.buffer.set(word, current & !(1u16 << (bit as u16)));
            },
        }
        i = i + 1;
    }
}

// ---------------------------------------------------------------------------
// Tick phase.
// ---------------------------------------------------------------------------

/// State after component `c` has OR-merged its contribution into its first
/// `n` output wires.  Contributions are computed against `init`, the wire
/// state committed by Tock, which the Tick phase never modifies in its
/// `prev` fields.
pub open spec fn apply_outs(
    state: Seq<Wire>,
    init: Seq<Wire>,
    c: Comp,
    buf: Seq<Data>,
    n: int,
) -> Seq<Wire>
    decreases n,
{
    if n <= 0 {
        state
    } else {
        let s = apply_outs(state, init, c, buf, n - 1);
        let w = c.pins_out@[n - 1] as int;
        s.update(w, Wire {
            channel: s[w].channel,
            prev: s[w].prev,
            next: s[w].next | contribution(c, init, buf, s[w].channel),
        })
    }
}

/// State after the first `n` components have been evaluated, in order.
pub open spec fn tick_upto(
    wires: Seq<Wire>,
    comps: Seq<Comp>,
    buf: Seq<Data>,
    n: int,
) -> Seq<Wire>
    decreases n,
{
    if n <= 0 {
        wires
    } else {
        let s = tick_upto(wires, comps, buf, n - 1);
        apply_outs(s, wires, comps[n - 1], buf, comps[n - 1].pins_out@.len() as int)
    }
}

/// The whole Tick phase as a function of the committed state.
pub open spec fn tick_spec(wires: Seq<Wire>, comps: Seq<Comp>, buf: Seq<Data>) -> Seq<Wire> {
    tick_upto(wires, comps, buf, comps.len() as int)
}

/// `apply_outs` keeps the store's length and every channel and `prev`
/// field; wires outside the component's outputs keep their `next` too.
pub proof fn lemma_apply_outs_frame(
    state: Seq<Wire>,
    init: Seq<Wire>,
    c: Comp,
    buf: Seq<Data>,
    n: int,
)
    requires
        0 <= n <= c.pins_out@.len(),
        comp_wf(c, state.len() as int),
    ensures
        apply_outs(state, init, c, buf, n).len() == state.len(),
        forall|w: int| 0 <= w < state.len() ==> {
            &&& (#[trigger] apply_outs(state, init, c, buf, n)[w]).channel == state[w].channel
            &&& apply_outs(state, init, c, buf, n)[w].prev == state[w].prev
        },
        forall|w: int| 0 <= w < state.len()
            && !c.pins_out@.subrange(0, n).contains(w as u32)
            ==> (#[trigger] apply_outs(state, init, c, buf, n)[w]).next == state[w].next,
    decreases n,
{
    if n > 0 {
        lemma_apply_outs_frame(state, init, c, buf, n - 1);
        assert forall|w: int| 0 <= w < state.len()
            && !c.pins_out@.subrange(0, n).contains(w as u32)
            implies (#[trigger] apply_outs(state, init, c, buf, n)[w]).next == state[w].next by {
            assert(c.pins_out@.subrange(0, n)[n - 1] == c.pins_out@[n - 1]);
            assert(!c.pins_out@.subrange(0, n - 1).contains(w as u32)) by {
                if c.pins_out@.subrange(0, n - 1).contains(w as u32) {
                    let j = choose|j: int| 0 <= j < n - 1
                        && #[trigger] c.pins_out@.subrange(0, n - 1)[j] == w as u32;
                    assert(c.pins_out@.subrange(0, n)[j] == w as u32);
                }
            }
        }
    }
}

/// Two wire stores that agree on every `prev` word and channel induce the
/// same mux word.
pub proof fn lemma_mux_fold_eq(c: Comp, w1: Seq<Wire>, w2: Seq<Wire>, n: int)
    requires
        w1.len() == w2.len(),
        comp_wf(c, w1.len() as int),
        n <= c.pins_in@.len(),
        forall|i: int| 0 <= i < w1.len() ==> {
            &&& (#[trigger] w1[i]).prev == w2[i].prev
            &&& w1[i].channel == w2[i].channel
        },
    ensures
        mux_fold(c, w1, n) == mux_fold(c, w2, n),
    decreases n,
{
    if n > 0 {
        lemma_mux_fold_eq(c, w1, w2, n - 1);
    }
}

/// Two wire stores that agree on every `prev` word and channel induce the
/// same contribution from any component.
pub proof fn lemma_contribution_eq(
    c: Comp,
    w1: Seq<Wire>,
    w2: Seq<Wire>,
    buf: Seq<Data>,
    ch: Channel,
)
    requires
        w1.len() == w2.len(),
        comp_wf(c, w1.len() as int),
        forall|i: int| 0 <= i < w1.len() ==> {
            &&& (#[trigger] w1[i]).prev == w2[i].prev
            &&& w1[i].channel == w2[i].channel
        },
    ensures
        contribution(c, w1, buf, ch) == contribution(c, w2, buf, ch),
{
    assert(input_words(c, w1) =~= input_words(c, w2));
    match c.kind {
        CompType::Mux => {
            lemma_mux_fold_eq(c, w1, w2, c.pins_in@.len() as int);
        },
        _ => {},
    }
}

/// `tick_upto` keeps the store's length and every channel and `prev` field.
pub proof fn lemma_tick_upto_frame(
    wires: Seq<Wire>,
    comps: Seq<Comp>,
    buf: Seq<Data>,
    n: int,
)
    requires
        0 <= n <= comps.len(),
        comps_wf(comps, wires.len() as int),
    ensures
        tick_upto(wires, comps, buf, n).len() == wires.len(),
        forall|w: int| 0 <= w < wires.len() ==> {
            &&& (#[trigger] tick_upto(wires, comps, buf, n)[w]).channel == wires[w].channel
            &&& tick_upto(wires, comps, buf, n)[w].prev == wires[w].prev
        },
    decreases n,
{
    if n > 0 {
        lemma_tick_upto_frame(wires, comps, buf, n - 1);
        lemma_apply_outs_frame(
            tick_upto(wires, comps, buf, n - 1), wires, comps[n - 1], buf,
            comps[n - 1].pins_out@.len() as int,
        );
    }
}

/// Evaluate every component once, OR-merging contributions into the `next`
/// fields of their output wires.
pub fn sys_tick(wires: &mut Vec<Wire>, comps: &Vec<Comp>, device: &InputDevice)
    requires
        wires_wf(old(wires)@),
        comps_wf(comps@, old(wires)@.len() as int),
        device_wf(*device),
    ensures
        final(wires)@ == tick_spec(old(wires)@, comps@, device.buffer@),
{
    let nc = comps.len();
    let mut i: usize = 0;
    while i < nc
        invariant
            i <= nc,
            nc == comps@.len(),
            wires_wf(old(wires)@),
            comps_wf(comps@, old(wires)@.len() as int),
            device_wf(*device),
            wires@ == tick_upto(old(wires)@, comps@, device.buffer@, i as int),
            wires@.len() == old(wires)@.len(),
            forall|w: int| 0 <= w < wires@.len() ==> {
                &&& (#[trigger] wires@[w]).channel == old(wires)@[w].channel
                &&& wires@[w].prev == old(wires)@[w].prev
            },
        decreases nc - i,
    {
        let c = &comps[i];
        let value = eval_contribution_source(c, wires, device);
        proof {
            assert forall|ch: Channel| ch < NB_CHANNELS
                implies contribution(comps@[i as int], old(wires)@, device.buffer@, ch)
                    == contribution(comps@[i as int], wires@, device.buffer@, ch) by {
                lemma_contribution_eq(comps@[i as int], old(wires)@, wires@, device.buffer@, ch);
            }
        }
        let np = c.pins_out.len();
        let mut j: usize = 0;
        while j < np
            invariant
                j <= np,
                i < comps@.len(),
                np == c.pins_out@.len(),
                *c == comps@[i as int],
                wires_wf(old(wires)@),
                comps_wf(comps@, old(wires)@.len() as int),
                device_wf(*device),
                wires@.len() == old(wires)@.len(),
                forall|w: int| 0 <= w < wires@.len() ==> {
                    &&& (#[trigger] wires@[w]).channel == old(wires)@[w].channel
                    &&& wires@[w].prev == old(wires)@[w].prev
                },
                value_matches(*c, old(wires)@, device.buffer@, value),
                wires@ == apply_outs(
                    tick_upto(old(wires)@, comps@, device.buffer@, i as int),
                    old(wires)@, comps@[i as int], device.buffer@, j as int,
                ),
            decreases np - j,
        {
            let w = c.pins_out[j] as usize;
            let wire = wires[w];
            let d = match value {
                ContribSource::Word(d) => d,
                ContribSource::DemuxSel(sel, mask) => {
                    if ((sel >> (wire.channel as u16)) & 1) == 0 {
                        mask
                    } else {
                        0
                    }
                },
                ContribSource::Device => device.buffer[wire.channel as usize],
            };
            proof {
                lemma_tick_upto_frame(old(wires)@, comps@, device.buffer@, i as int);
                lemma_apply_outs_frame(
                    tick_upto(old(wires)@, comps@, device.buffer@, i as int),
                    old(wires)@, comps@[i as int], device.buffer@, j as int,
                );
                assert(d == contribution(comps@[i as int], old(wires)@, device.buffer@,
                    wires@[w as int].channel));
            }
            wires.set(w, Wire {
                channel: wire.channel,
                prev: wire.prev,
                next: wire.next | d,
            });
            j = j + 1;
        }
        i = i + 1;
    }
}

/// How a component's contribution depends on the receiving wire: most kinds
/// contribute one word everywhere; a demux selects by the output's channel
/// bit; the input device hands the word buffered for the output's channel.
pub enum ContribSource {
    Word(Data),
    DemuxSel(Data, Data),
    Device,
}

/// The computed source describes exactly the contribution the component
/// makes to an output wire of channel `ch`.
pub open spec fn value_matches(c: Comp, init: Seq<Wire>, buf: Seq<Data>, v: ContribSource)
    -> bool {
    forall|ch: Channel| ch < NB_CHANNELS ==> contribution(c, init, buf, ch) == match v {
        ContribSource::Word(d) => d,
        ContribSource::DemuxSel(sel, mask) => if (sel >> ch) & 1 == 0 {
            mask
        } else {
            0u16
        },
        ContribSource::Device => buf[ch as int],
    }
}

/// Evaluate a component against the committed wire state.
fn eval_contribution_source(c: &Comp, wires: &Vec<Wire>, device: &InputDevice)
    -> (v: ContribSource)
    requires
        wires_wf(wires@),
        comp_wf(*c, wires@.len() as int),
        device_wf(*device),
    ensures
        value_matches(*c, wires@, device.buffer@, v),
{
    match c.kind {
        CompType::Bus => ContribSource::Word(0),
        CompType::Fixed(value) => ContribSource::Word(value),
        CompType::Input => ContribSource::Device,
        CompType::Mux => {
            let n = c.pins_in.len();
            let mut data: Data = 0;
            let mut k: usize = 0;
            while k < n
                invariant
                    k <= n,
                    n == c.pins_in@.len(),
                    wires_wf(wires@),
                    comp_wf(*c, wires@.len() as int),
                    data == mux_fold(*c, wires@, k as int),
                decreases n - k,
            {
                let pin = c.pins_in[k] as usize;
                let w = wires[pin];
                let bit: Data = if w.prev != 0 {
                    1
                } else {
                    0
                };
                data = data | (bit << (w.channel as u16));
                k = k + 1;
            }
            ContribSource::Word(data)
        },
        CompType::Demux(mask) => {
            let sel = or_inputs(c, wires);
            ContribSource::DemuxSel(sel, mask)
        },
        CompType::Gate(op) => {
            let n = c.pins_in.len();
            let ghost words = input_words(*c, wires@);
            let mut k: usize = 0;
            let mut data: Data = 0;
            match op {
                Operator::Or | Operator::Nor => {
                    data = or_inputs(c, wires);
                },
                Operator::And | Operator::Nand => {
                    while k < n
                        invariant
                            k <= n,
                            n == c.pins_in@.len(),
                            wires_wf(wires@),
                            comp_wf(*c, wires@.len() as int),
                            words == input_words(*c, wires@),
                            data == and_fold(words.subrange(0, k as int)),
                        decreases n - k,
                    {
                        let pin = c.pins_in[k] as usize;
                        let v = wires[pin].prev;
                        if k == 0 {
                            data = v;
                        } else {
                            data = data & v;
                        }
                        proof {
                            lemma_fold_step(words, k as int);
                        }
                        k = k + 1;
                    }
                    proof {
                        assert(words.subrange(0, n as int) =~= words);
                    }
                },
                Operator::Add => {
                    while k < n
                        invariant
                            k <= n,
                            n == c.pins_in@.len(),
                            wires_wf(wires@),
                            comp_wf(*c, wires@.len() as int),
                            words == input_words(*c, wires@),
                            data == add_fold(words.subrange(0, k as int)),
                        decreases n - k,
                    {
                        let pin = c.pins_in[k] as usize;
                        let v = wires[pin].prev;
                        data = ((data as u32 + v as u32) % 0x10000) as u16;
                        proof {
                            lemma_fold_step(words, k as int);
                        }
                        k = k + 1;
                    }
                    proof {
                        assert(words.subrange(0, n as int) =~= words);
                    }
                },
                Operator::Mul => {
                    while k < n
                        invariant
                            k <= n,
                            n == c.pins_in@.len(),
                            wires_wf(wires@),
                            comp_wf(*c, wires@.len() as int),
                            words == input_words(*c, wires@),
                            data == mul_fold(words.subrange(0, k as int)),
                        decreases n - k,
                    {
                        let pin = c.pins_in[k] as usize;
                        let v = wires[pin].prev;
                        if k == 0 {
                            data = v;
                        } else {
                            proof {
                                assert((data as int) * (v as int) < 0x100000000)
                                    by (nonlinear_arith)
                                    requires
                                        data as int <= 0xffff,
                                        v as int <= 0xffff,
                                ;
                            }
                            data = ((data as u32 * v as u32) % 0x10000) as u16;
                        }
                        proof {
                            lemma_fold_step(words, k as int);
                        }
                        k = k + 1;
                    }
                    proof {
                        assert(words.subrange(0, n as int) =~= words);
                    }
                },
                Operator::Min => {
                    while k < n
                        invariant
                            k <= n,
                            n == c.pins_in@.len(),
                            wires_wf(wires@),
                            comp_wf(*c, wires@.len() as int),
                            words == input_words(*c, wires@),
                            data == min_fold(words.subrange(0, k as int)),
                        decreases n - k,
                    {
                        let pin = c.pins_in[k] as usize;
                        let v = wires[pin].prev;
                        if k == 0 {
                            data = v;
                        } else if v < data {
                            data = v;
                        }
                        proof {
                            lemma_fold_step(words, k as int);
                        }
                        k = k + 1;
                    }
                    proof {
                        assert(words.subrange(0, n as int) =~= words);
                    }
                },
                Operator::Max => {
                    while k < n
                        invariant
                            k <= n,
                            n == c.pins_in@.len(),
                            wires_wf(wires@),
                            comp_wf(*c, wires@.len() as int),
                            words == input_words(*c, wires@),
                            data == max_fold(words.subrange(0, k as int)),
                        decreases n - k,
                    {
                        let pin = c.pins_in[k] as usize;
                        let v = wires[pin].prev;
                        if v > data {
                            data = v;
                        }
                        proof {
                            lemma_fold_step(words, k as int);
                        }
                        k = k + 1;
                    }
                    proof {
                        assert(words.subrange(0, n as int) =~= words);
                    }
                },
            }
            let out = match op {
                Operator::Nor | Operator::Nand => !data,
                _ => data,
            };
            ContribSource::Word(out)
        },
    }
}

/// OR of the committed words on a component's input wires.
fn or_inputs(c: &Comp, wires: &Vec<Wire>) -> (r: Data)
    requires
        wires_wf(wires@),
        comp_wf(*c, wires@.len() as int),
    ensures
        r == or_fold(input_words(*c, wires@)),
{
    let n = c.pins_in.len();
    let ghost words = input_words(*c, wires@);
    let mut data: Data = 0;
    let mut k: usize = 0;
    while k < n
        invariant
            k <= n,
            n == c.pins_in@.len(),
            wires_wf(wires@),
            comp_wf(*c, wires@.len() as int),
            words == input_words(*c, wires@),
            data == or_fold(words.subrange(0, k as int)),
        decreases n - k,
    {
        let pin = c.pins_in[k] as usize;
        data = data | wires[pin].prev;
        proof {
            lemma_fold_step(words, k as int);
        }
        k = k + 1;
    }
    proof {
        assert(words.subrange(0, n as int) =~= words);
    }
    data
}

// ---------------------------------------------------------------------------
// Building the runtime from a schema.
// ---------------------------------------------------------------------------

/// The runtime wires a schema instantiates: its channels, with clear state.
pub open spec fn wires_of_schema(s: Schema) -> Seq<Wire> {
    Seq::new(s.wires@.len(), |i: int| Wire {
        channel: s.wires@[i].channel,
        prev: 0u16,
        next: 0u16,
    })
}

/// The runtime component a schema component instantiates.
pub open spec fn comp_matches(c: Comp, d: crate::schema::CompData) -> bool {
    &&& c.kind == d.comp_type
    &&& c.pins_in@ == d.pins_in@
    &&& c.pins_out@ == d.pins_out@
}

/// Instantiate the runtime wires and components of a schema that passed
/// `verify`.
pub fn build_circuit(schema: &Schema) -> (r: (Vec<Wire>, Vec<Comp>))
    requires
        schema.spec_valid(),
    ensures
        r.0@ == wires_of_schema(*schema),
        r.1@.len() == schema.comps@.len(),
        forall|i: int| 0 <= i < r.1@.len()
            ==> comp_matches(#[trigger] r.1@[i], schema.comps@[i]),
        wires_wf(r.0@),
        comps_wf(r.1@, r.0@.len() as int),
{
    let mut wires = Vec::<Wire>::new();
    let nw = schema.wires.len();
    let mut i: usize = 0;
    while i < nw
        invariant
            i <= nw,
            nw == schema.wires@.len(),
            wires@.len() == i,
            forall|k: int| 0 <= k < i ==> wires@[k] == wires_of_schema(*schema)[k],
        decreases nw - i,
    {
        wires.push(Wire { channel: schema.wires[i].channel, prev: 0, next: 0 });
        i = i + 1;
    }
    proof {
        assert(wires@ =~= wires_of_schema(*schema));
    }

    let mut comps = Vec::<Comp>::new();
    let nc = schema.comps.len();
    let mut i: usize = 0;
    while i < nc
        invariant
            i <= nc,
            nc == schema.comps@.len(),
            schema.spec_valid(),
            nw == schema.wires@.len(),
            comps@.len() == i,
            forall|k: int| 0 <= k < i
                ==> comp_matches(#[trigger] comps@[k], schema.comps@[k]),
            forall|k: int| 0 <= k < i ==> comp_wf(#[trigger] comps@[k], nw as int),
        decreases nc - i,
    {
        let d = &schema.comps[i];
        let pins_in = copy_pins(&d.pins_in);
        let pins_out = copy_pins(&d.pins_out);
        comps.push(Comp { kind: d.comp_type, pins_in, pins_out });
        i = i + 1;
    }
    (wires, comps)
}

/// A plain copy of a pin list.
fn copy_pins(pins: &Vec<u32>) -> (r: Vec<u32>)
    ensures
        r@ == pins@,
{
    let mut r = Vec::<u32>::new();
    let n = pins.len();
    let mut i: usize = 0;
    while i < n
        invariant
            i <= n,
            n == pins@.len(),
            r@ == pins@.subrange(0, i as int),
        decreases n - i,
    {
        r.push(pins[i]);
        proof {
            assert(r@ =~= pins@.subrange(0, i + 1));
        }
        i = i + 1;
    }
    proof {
        assert(pins@.subrange(0, n as int) =~= pins@);
    }
    r
}

// ---------------------------------------------------------------------------
// A whole simulation step, and tick determinism.
// ---------------------------------------------------------------------------

/// One full tick: Tock commits the wires and drains the keyboard events,
/// then Tick evaluates every component.  Returns the wire store and the
/// device buffer after the step.
pub open spec fn step_spec(
    wires: Seq<Wire>,
    comps: Seq<Comp>,
    buf: Seq<Data>,
    events: Seq<KeyEvent>,
) -> (Seq<Wire>, Seq<Data>) {
    let committed = tock_spec(wires);
    let drained = apply_events(buf, events, events.len() as int);
    (tick_spec(committed, comps, drained), drained)
}

/// The wire-state trajectory: state after `n` steps, fed one event batch
/// per step.
pub open spec fn run_spec(
    wires: Seq<Wire>,
    comps: Seq<Comp>,
    buf: Seq<Data>,
    streams: Seq<Seq<KeyEvent>>,
    n: int,
) -> (Seq<Wire>, Seq<Data>)
    decreases n,
{
    if n <= 0 {
        (wires, buf)
    } else {
        let prior = run_spec(wires, comps, buf, streams, n - 1);
        step_spec(prior.0, comps, prior.1, streams[n - 1])
    }
}

/// Tick determinism: for identical circuits and identical input event
/// streams, the wire-state trajectory is bit-exact — it is a function of
/// the initial state, the components, and the events alone, which
/// `sys_reset`, `sys_tock` and `sys_tick` realise exactly.
pub proof fn lemma_run_deterministic(
    w1: Seq<Wire>, w2: Seq<Wire>,
    c1: Seq<Comp>, c2: Seq<Comp>,
    b1: Seq<Data>, b2: Seq<Data>,
    s1: Seq<Seq<KeyEvent>>, s2: Seq<Seq<KeyEvent>>,
    n: int,
)
    requires
        w1 == w2,
        c1 == c2,
        b1 == b2,
        s1 == s2,
    ensures
        run_spec(w1, c1, b1, s1, n) == run_spec(w2, c2, b2, s2, n),
{
}

/// Run one full tick against the live state.
pub fn step(
    wires: &mut Vec<Wire>,
    comps: &Vec<Comp>,
    device: &mut InputDevice,
    events: &Vec<KeyEvent>,
)
    requires
        wires_wf(old(wires)@),
        comps_wf(comps@, old(wires)@.len() as int),
        device_wf(*old(device)),
        forall|k: int| 0 <= k < events@.len()
            ==> (#[trigger] events@[k]).scan_code < 256,
    ensures
        device_wf(*final(device)),
        (final(wires)@, final(device).buffer@)
            == step_spec(old(wires)@, comps@, old(device).buffer@, events@),
{
    sys_reset(wires);
    sys_tock(device, events);
    sys_tick(wires, comps, device);
}

// ---------------------------------------------------------------------------
// OR-monotonicity of the Tick phase.
// ---------------------------------------------------------------------------

/// Every bit of `a` is set in `b`.
pub open spec fn or_subset(a: Data, b: Data) -> bool {
    a | b == b
}

proof fn lemma_or_subset_refl(a: Data)
    by (bit_vector)
    ensures
        a | a == a,
{
}

proof fn lemma_or_subset_step(a: Data, c: Data)
    by (bit_vector)
    ensures
        a | (a | c) == (a | c),
{
}

proof fn lemma_or_subset_trans(a: Data, b: Data, c: Data)
    by (bit_vector)
    requires
        a | b == b,
        b | c == c,
    ensures
        a | c == c,
{
}

/// A component's evaluation only adds bits to `next` fields.
proof fn lemma_apply_outs_monotone(
    state: Seq<Wire>,
    init: Seq<Wire>,
    c: Comp,
    buf: Seq<Data>,
    n: int,
    w: int,
)
    requires
        0 <= n <= c.pins_out@.len(),
        comp_wf(c, state.len() as int),
        0 <= w < state.len(),
    ensures
        or_subset(state[w].next, apply_outs(state, init, c, buf, n)[w].next),
    decreases n,
{
    lemma_apply_outs_frame(state, init, c, buf, n);
    if n == 0 {
        lemma_or_subset_refl(state[w].next);
    } else {
        lemma_apply_outs_monotone(state, init, c, buf, n - 1, w);
        lemma_apply_outs_frame(state, init, c, buf, n - 1);
        let s = apply_outs(state, init, c, buf, n - 1);
        let t = apply_outs(state, init, c, buf, n);
        if c.pins_out@[n - 1] as int == w {
            lemma_or_subset_step(s[w].next, contribution(c, init, buf, s[w].channel));
            lemma_or_subset_trans(state[w].next, s[w].next, t[w].next);
        } else {
            assert(t[w].next == s[w].next);
        }
    }
}

/// OR-monotonicity during a tick: at any point of the Tick phase, each
/// wire's `next` word is an OR-subset of the word it holds at any later
/// point, and hence of its final value.
pub proof fn lemma_tick_or_monotonic(
    wires: Seq<Wire>,
    comps: Seq<Comp>,
    buf: Seq<Data>,
    n1: int,
    n2: int,
    w: int,
)
    requires
        0 <= n1 <= n2 <= comps.len(),
        comps_wf(comps, wires.len() as int),
        0 <= w < wires.len(),
    ensures
        or_subset(
            tick_upto(wires, comps, buf, n1)[w].next,
            tick_upto(wires, comps, buf, n2)[w].next,
        ),
    decreases n2 - n1,
{
    lemma_tick_upto_frame(wires, comps, buf, n1);
    if n1 == n2 {
        lemma_or_subset_refl(tick_upto(wires, comps, buf, n1)[w].next);
    } else {
        lemma_tick_or_monotonic(wires, comps, buf, n1, n2 - 1, w);
        lemma_tick_upto_frame(wires, comps, buf, n2 - 1);
        lemma_apply_outs_monotone(
            tick_upto(wires, comps, buf, n2 - 1), wires, comps[n2 - 1], buf,
            comps[n2 - 1].pins_out@.len() as int, w,
        );
        lemma_or_subset_trans(
            tick_upto(wires, comps, buf, n1)[w].next,
            tick_upto(wires, comps, buf, n2 - 1)[w].next,
            tick_upto(wires, comps, buf, n2)[w].next,
        );
    }
}

/// The OR of the contributions that the first `n` components make to wire
/// `w`, over the wire's starting `next` word.
pub open spec fn contribs_upto(
    wires: Seq<Wire>,
    comps: Seq<Comp>,
    buf: Seq<Data>,
    w: int,
    n: int,
) -> Data
    decreases n,
{
    if n <= 0 {
        wires[w].next
    } else {
        contribs_upto(wires, comps, buf, w, n - 1)
            | (if comps[n - 1].pins_out@.contains(w as u32) {
                contribution(comps[n - 1], wires, buf, wires[w].channel)
            } else {
                0u16
            })
    }
}

proof fn lemma_or_zero(a: Data)
    by (bit_vector)
    ensures
        a | 0 == a,
{
}

proof fn lemma_or_idem_extra(a: Data, c: Data)
    by (bit_vector)
    ensures
        (a | c) | c == a | c,
{
}

/// After a component evaluates, a wire's `next` word is its prior word OR
/// the component's contribution — once, no matter how often the wire occurs
/// among the output pins.
proof fn lemma_apply_outs_value(
    state: Seq<Wire>,
    init: Seq<Wire>,
    c: Comp,
    buf: Seq<Data>,
    n: int,
    w: int,
)
    requires
        0 <= n <= c.pins_out@.len(),
        comp_wf(c, state.len() as int),
        0 <= w < state.len(),
        state.len() <= u32::MAX,
    ensures
        apply_outs(state, init, c, buf, n)[w].next == state[w].next
            | (if c.pins_out@.subrange(0, n).contains(w as u32) {
                contribution(c, init, buf, state[w].channel)
            } else {
                0u16
            }),
    decreases n,
{
    lemma_apply_outs_frame(state, init, c, buf, n);
    if n == 0 {
        lemma_or_zero(state[w].next);
    } else {
        lemma_apply_outs_value(state, init, c, buf, n - 1, w);
        lemma_apply_outs_frame(state, init, c, buf, n - 1);
        let s = apply_outs(state, init, c, buf, n - 1);
        let d = contribution(c, init, buf, state[w].channel);
        let prefix_hit = c.pins_out@.subrange(0, n - 1).contains(w as u32);
        let full_hit = c.pins_out@.subrange(0, n).contains(w as u32);
        assert(c.pins_out@.subrange(0, n).drop_last() =~= c.pins_out@.subrange(0, n - 1));
        assert(c.pins_out@.subrange(0, n)[n - 1] == c.pins_out@[n - 1]);
        if c.pins_out@[n - 1] as int == w {
            assert(full_hit);
            if prefix_hit {
                lemma_or_idem_extra(state[w].next, d);
            } else {
                assert(s[w].next == state[w].next | 0);
                lemma_or_zero(state[w].next);
            }
        } else {
            assert(full_hit == prefix_hit) by {
                if prefix_hit {
                    let j = choose|j: int| 0 <= j < n - 1
                        && #[trigger] c.pins_out@.subrange(0, n - 1)[j] == w as u32;
                    assert(c.pins_out@.subrange(0, n)[j] == w as u32);
                }
                if full_hit {
                    let j = choose|j: int| 0 <= j < n
                        && #[trigger] c.pins_out@.subrange(0, n)[j] == w as u32;
                    assert(j != n - 1);
                    assert(c.pins_out@.subrange(0, n - 1)[j] == w as u32);
                }
            }
        }
    }
}

/// At the end of the Tick phase each wire's `next` word equals the OR of
/// the contributions of every component that lists it as an output,
/// evaluated against the committed state.
pub proof fn lemma_tick_next_is_or_of_contributions(
    wires: Seq<Wire>,
    comps: Seq<Comp>,
    buf: Seq<Data>,
    w: int,
    n: int,
)
    requires
        0 <= n <= comps.len(),
        comps_wf(comps, wires.len() as int),
        0 <= w < wires.len(),
        wires.len() <= u32::MAX,
    ensures
        tick_upto(wires, comps, buf, n)[w].next == contribs_upto(wires, comps, buf, w, n),
    decreases n,
{
    if n > 0 {
        lemma_tick_next_is_or_of_contributions(wires, comps, buf, w, n - 1);
        lemma_tick_upto_frame(wires, comps, buf, n - 1);
        let s = tick_upto(wires, comps, buf, n - 1);
        let c = comps[n - 1];
        lemma_apply_outs_value(s, wires, c, buf, c.pins_out@.len() as int, w);
        assert(c.pins_out@.subrange(0, c.pins_out@.len() as int) =~= c.pins_out@);
        if !c.pins_out@.contains(w as u32) {
            lemma_or_zero(s[w].next);
        }
    }
}

/// Extending a prefix by one element steps each fold by that element.
proof fn lemma_fold_step(words: Seq<Data>, k: int)
    requires
        0 <= k < words.len(),
    ensures
        words.subrange(0, k + 1).drop_last() == words.subrange(0, k),
        words.subrange(0, k + 1).last() == words[k],
        words.subrange(0, k + 1).len() == k + 1,
{
    assert(words.subrange(0, k + 1).drop_last() =~= words.subrange(0, k));
}

} // verus!
