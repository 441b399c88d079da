//! Scenario tests for the runtime circuit: the tick/tock schedule, every
//! gate operator, mux/demux conventions, and the input device.

use voxel_logic::circuit::{
    build_circuit, step, sys_reset, sys_tick, sys_tock, Comp, InputDevice, KeyEvent, KeyState,
    Operator, Wire,
};
use voxel_logic::schema::{CompData, CompType, ModelAttr, ModelData, Schema, WireData};
use voxel_logic::math::Vec3i;

fn wire(channel: u8) -> Wire {
    Wire { channel, prev: 0, next: 0 }
}

fn comp(kind: CompType, pins_in: Vec<u32>, pins_out: Vec<u32>) -> Comp {
    Comp { kind, pins_in, pins_out }
}

fn device() -> InputDevice {
    InputDevice::new()
}

#[test]
fn constant_drives_wire() {
    // One fixed source driving one wire over two ticks.
    let mut wires = vec![wire(0)];
    let comps = vec![comp(CompType::Fixed(0x00A5), vec![], vec![0])];
    let dev = device();

    sys_reset(&mut wires);
    sys_tick(&mut wires, &comps, &dev);
    assert_eq!(wires[0].prev, 0);
    assert_eq!(wires[0].next, 0x00A5);

    sys_reset(&mut wires);
    sys_tick(&mut wires, &comps, &dev);
    assert_eq!(wires[0].prev, 0x00A5);
    assert_eq!(wires[0].next, 0x00A5);
}

#[test]
fn and_gate_two_inputs() {
    let mut wires = vec![wire(0), wire(1), wire(2)];
    wires[0].next = 0x00FF;
    wires[1].next = 0x0F0F;
    let comps = vec![comp(CompType::Gate(Operator::And), vec![0, 1], vec![2])];
    let dev = device();

    sys_reset(&mut wires);
    assert_eq!(
        (wires[0].prev, wires[1].prev, wires[2].prev),
        (0x00FF, 0x0F0F, 0)
    );
    assert_eq!((wires[0].next, wires[1].next, wires[2].next), (0, 0, 0));

    sys_tick(&mut wires, &comps, &dev);
    assert_eq!(wires[2].next, 0x000F);
}

#[test]
fn nor_of_one_input() {
    let mut wires = vec![wire(0), wire(1)];
    wires[0].next = 0x0001;
    let comps = vec![comp(CompType::Gate(Operator::Nor), vec![0], vec![1])];
    let dev = device();

    sys_reset(&mut wires);
    sys_tick(&mut wires, &comps, &dev);
    assert_eq!(wires[1].next, 0xFFFE);
}

#[test]
fn mux_packs_four_bits() {
    let mut wires = vec![wire(0), wire(1), wire(2), wire(3), wire(0)];
    wires[0].prev = 1;
    wires[1].prev = 0;
    wires[2].prev = 1;
    wires[3].prev = 1;
    let comps = vec![comp(CompType::Mux, vec![0, 1, 2, 3], vec![4])];
    let dev = device();

    sys_tick(&mut wires, &comps, &dev);
    assert_eq!(wires[4].next, 0b1101);
}

#[test]
fn demux_fires_on_clear_bits() {
    // Outputs fire with the mask exactly where their selector bit is clear.
    let mut wires = vec![wire(0), wire(0), wire(1), wire(2)];
    wires[0].prev = 0b010;
    let comps = vec![comp(CompType::Demux(1), vec![0], vec![1, 2, 3])];
    let dev = device();

    sys_tick(&mut wires, &comps, &dev);
    assert_eq!(wires[1].next, 1);
    assert_eq!(wires[2].next, 0);
    assert_eq!(wires[3].next, 1);
}

#[test]
fn remaining_gate_operators() {
    let dev = device();
    let cases: Vec<(Operator, u16, u16, u16)> = vec![
        (Operator::Or, 0x00F0, 0x000F, 0x00FF),
        (Operator::Nand, 0x00FF, 0x0FF0, !0x00F0),
        (Operator::Add, 0xFFFF, 0x0002, 0x0001),
        (Operator::Mul, 0x0003, 0x0005, 0x000F),
        (Operator::Min, 0x0005, 0x0003, 0x0003),
        (Operator::Max, 0x0005, 0x0003, 0x0005),
    ];
    for (op, a, b, expected) in cases {
        let mut wires = vec![wire(0), wire(1), wire(2)];
        wires[0].next = a;
        wires[1].next = b;
        let comps = vec![comp(CompType::Gate(op), vec![0, 1], vec![2])];
        sys_reset(&mut wires);
        sys_tick(&mut wires, &comps, &dev);
        assert_eq!(wires[2].next, expected, "operator {:?}", op);
    }
}

#[test]
fn min_of_single_input_is_that_input() {
    // The accumulator is re-seeded with the first input.
    let mut wires = vec![wire(0), wire(1)];
    wires[0].next = 7;
    let comps = vec![comp(CompType::Gate(Operator::Min), vec![0], vec![1])];
    let dev = device();
    sys_reset(&mut wires);
    sys_tick(&mut wires, &comps, &dev);
    assert_eq!(wires[1].next, 7);
}

#[test]
fn contributions_accumulate_by_or() {
    // Two sources OR-merge into one wire, whatever the evaluation order.
    let mut wires = vec![wire(0)];
    let comps = vec![
        comp(CompType::Fixed(0x0011), vec![], vec![0]),
        comp(CompType::Fixed(0x0800), vec![], vec![0]),
    ];
    let dev = device();
    sys_reset(&mut wires);
    sys_tick(&mut wires, &comps, &dev);
    assert_eq!(wires[0].next, 0x0811);
}

#[test]
fn bus_contributes_nothing() {
    let mut wires = vec![wire(0), wire(1)];
    wires[0].next = 0x1234;
    let comps = vec![comp(CompType::Bus, vec![0], vec![1])];
    let dev = device();
    sys_reset(&mut wires);
    sys_tick(&mut wires, &comps, &dev);
    assert_eq!(wires[1].next, 0);
}

#[test]
fn keyboard_sets_and_clears_bits() {
    let mut dev = device();
    let events = vec![
        KeyEvent { scan_code: 3, state: KeyState::Pressed },
        KeyEvent { scan_code: 17, state: KeyState::Pressed },
    ];
    sys_tock(&mut dev, &events);
    assert_eq!(dev.buffer[0], 0b1000);
    assert_eq!(dev.buffer[1], 0b10);

    let release = vec![KeyEvent { scan_code: 3, state: KeyState::Released }];
    sys_tock(&mut dev, &release);
    assert_eq!(dev.buffer[0], 0);
    assert_eq!(dev.buffer[1], 0b10);
}

#[test]
fn input_component_reads_buffered_word() {
    let mut dev = device();
    let events = vec![KeyEvent { scan_code: 1, state: KeyState::Pressed }];
    sys_tock(&mut dev, &events);

    let mut wires = vec![wire(0)];
    let comps = vec![comp(CompType::Input, vec![], vec![0])];
    sys_tick(&mut wires, &comps, &dev);
    assert_eq!(wires[0].next, 0b10);
}

#[test]
fn identical_runs_are_bit_exact() {
    // Tick determinism: same circuit, same events, same trajectory.
    let make = || {
        (
            vec![wire(0), wire(1)],
            vec![
                comp(CompType::Input, vec![], vec![0]),
                comp(CompType::Gate(Operator::Nor), vec![0], vec![1]),
            ],
            device(),
        )
    };
    let (mut w1, c1, mut d1) = make();
    let (mut w2, c2, mut d2) = make();
    let events = vec![KeyEvent { scan_code: 0, state: KeyState::Pressed }];
    for _ in 0..4 {
        step(&mut w1, &c1, &mut d1, &events);
        step(&mut w2, &c2, &mut d2, &events);
        assert_eq!(w1, w2);
        assert_eq!(d1.buffer, d2.buffer);
    }
}

#[test]
fn build_circuit_instantiates_schema() {
    let schema = Schema {
        wires: vec![WireData {
            channel: 2,
            model_attr: ModelAttr { position: Vec3i { x: 0, y: 0, z: 0 }, index: 0 },
        }],
        comps: vec![CompData {
            comp_type: CompType::Fixed(9),
            pins_in: vec![],
            pins_out: vec![0],
            model_attr: ModelAttr { position: Vec3i { x: 0, y: 0, z: 0 }, index: 0 },
        }],
        models: vec![ModelData(vec![])],
    };
    assert!(schema.verify().is_ok());
    let (mut wires, comps) = build_circuit(&schema);
    assert_eq!(wires.len(), 1);
    assert_eq!(wires[0].channel, 2);
    assert_eq!(comps.len(), 1);
    let dev = device();
    sys_reset(&mut wires);
    sys_tick(&mut wires, &comps, &dev);
    assert_eq!(wires[0].next, 9);
}
