use serial_graph::graph::{converter, Graph};
use serial_graph::port::{from_string, reserved, Action, Event, PhysicalPort, Port, RealDummyPort};

const NONE: [u8; 4] = [0; 4];

fn frame_of(values: &[f32]) -> Vec<u8> {
    let mut bytes = Vec::new();
    for value in values {
        bytes.extend_from_slice(&value.to_be_bytes());
    }
    bytes
}

/// The simulated signal at a count: a slow sine.
fn sine(count: u64) -> [u8; 4] {
    ((count as f32) / 100.0).sin().to_be_bytes()
}

#[test]
fn simulate_opens_three_sources_of_distinct_values() {
    let (mut hub, ports) = from_string("simulate", 3, true);
    assert_eq!(ports.len(), 3);
    for port in ports.iter() {
        let mut seen: Vec<[u8; 4]> = Vec::new();
        for round in 0..100u64 {
            let count = hub.drawn(port).unwrap();
            assert_eq!(count, round);
            let raw = hub.pull(port, sine(count + 1)).unwrap();
            assert_eq!(raw, sine(round + 1));
            let level = f32::from_be_bytes(raw);
            assert!((-1.0..=1.0).contains(&level));
            assert!(!seen.contains(&raw));
            seen.push(raw);
        }
    }
}

#[test]
fn simulated_sources_are_deterministic_and_independent() {
    let (mut first, first_ports) = from_string("simulate", 2, false);
    let (mut second, second_ports) = from_string("simulate", 2, false);
    let mut drawn: Vec<[u8; 4]> = Vec::new();
    for _ in 0..300 {
        let count = first.drawn(&first_ports[0]).unwrap();
        drawn.push(first.pull(&first_ports[0], sine(count + 1)).unwrap());
    }
    // Nothing drawn from one channel shows on the other.
    assert_eq!(first.drawn(&first_ports[0]), Some(300));
    assert_eq!(first.drawn(&first_ports[1]), Some(0));
    for expected in drawn.iter() {
        let count = first.drawn(&first_ports[1]).unwrap();
        assert_eq!(first.pull(&first_ports[1], sine(count + 1)).unwrap(), *expected);
        let count = second.drawn(&second_ports[1]).unwrap();
        assert_eq!(second.pull(&second_ports[1], sine(count + 1)).unwrap(), *expected);
    }
}

#[test]
fn a_source_counts_what_it_hands_on() {
    let mut source = RealDummyPort::new();
    assert_eq!(source.value_count(), 0);
    assert_eq!(source.read([1, 2, 3, 4]), [1, 2, 3, 4]);
    assert_eq!(source.value_count(), 1);
    assert_eq!(source.read(sine(2)), sine(2));
    assert_eq!(source.read([0, 0, 0, 0]), [0, 0, 0, 0]);
    assert_eq!(source.value_count(), 3);
}

#[test]
fn an_unopened_device_falls_back_to_simulation() {
    let (mut hub, ports) = from_string("/dev/ttyUSB0", 4, false);
    assert_eq!(ports.len(), 4);
    for (k, port) in ports.iter().enumerate() {
        assert_eq!(port.name(), format!("/dev/ttyUSB0 split {}", k + 1));
        assert_eq!(hub.pull(port, sine(1)), Some(sine(1)));
        assert_eq!(hub.pull(port, sine(2)), Some(sine(2)));
        assert_eq!(hub.drawn(port), Some(2));
    }
    // There is no worker behind simulated channels.
    assert_eq!(hub.next(Event::Available(Some(1024))), Action::Stop);
}

#[test]
fn the_reserved_identifier_is_simulate() {
    assert!(reserved("simulate"));
    assert!(!reserved("Simulate"));
    assert!(!reserved("dummy"));
    assert!(!reserved(""));
}

#[test]
fn two_big_endian_floats_reach_their_channels() {
    let (mut hub, ports) = from_string("COM3", 2, true);
    assert_eq!(ports.len(), 2);
    assert_eq!(hub.next(Event::Available(Some(8))), Action::Read(8));
    assert_eq!(hub.next(Event::Frame(Some(frame_of(&[1.5, -2.25])))), Action::Wait);
    let first = hub.pull(&ports[0], NONE).unwrap();
    let second = hub.pull(&ports[1], NONE).unwrap();
    assert_eq!(f32::from_bits(converter::be_f32.convert(first)), 1.5);
    assert_eq!(f32::from_bits(converter::be_f32.convert(second)), -2.25);
    assert_eq!(hub.pull(&ports[0], NONE), None);
    assert_eq!(hub.pull(&ports[1], NONE), None);
    assert_eq!(hub.drawn(&ports[0]), None);
}

#[test]
fn a_live_channel_ignores_what_was_drawn_for_simulation() {
    let (mut hub, ports) = from_string("COM3", 1, true);
    assert_eq!(hub.pull(&ports[0], sine(1)), None);
    hub.next(Event::Frame(Some(frame_of(&[7.0]))));
    assert_eq!(hub.pull(&ports[0], sine(1)), Some(7.0f32.to_be_bytes()));
}

#[test]
fn a_partial_frame_is_never_taken() {
    let (mut hub, ports) = from_string("COM3", 3, true);
    assert_eq!(hub.next(Event::Available(Some(0))), Action::Wait);
    assert_eq!(hub.next(Event::Available(Some(11))), Action::Wait);
    assert_eq!(hub.next(Event::Available(None)), Action::Wait);
    for port in ports.iter() {
        assert_eq!(hub.pull(port, NONE), None);
    }
    assert_eq!(hub.next(Event::Available(Some(12))), Action::Read(12));
    assert_eq!(hub.next(Event::Available(Some(4000))), Action::Read(12));
}

#[test]
fn frames_keep_their_order_on_every_channel() {
    let (mut hub, ports) = from_string("COM3", 3, true);
    for round in 0..50u32 {
        let base = (round * 3) as f32;
        let frame = frame_of(&[base, base + 1.0, base + 2.0]);
        assert_eq!(hub.next(Event::Frame(Some(frame))), Action::Wait);
    }
    for (k, port) in ports.iter().enumerate() {
        for round in 0..50u32 {
            let raw = hub.pull(port, NONE).unwrap();
            assert_eq!(f32::from_be_bytes(raw), (round * 3) as f32 + k as f32);
        }
        assert_eq!(hub.pull(port, NONE), None);
    }
}

#[test]
fn channels_are_consumed_at_their_own_pace() {
    let (mut hub, ports) = from_string("COM3", 2, true);
    hub.next(Event::Frame(Some(frame_of(&[1.0, 2.0]))));
    assert_eq!(hub.pull(&ports[1], NONE), Some(2.0f32.to_be_bytes()));
    hub.next(Event::Frame(Some(frame_of(&[3.0, 4.0]))));
    hub.next(Event::Frame(Some(frame_of(&[5.0, 6.0]))));
    assert_eq!(hub.pull(&ports[1], NONE), Some(4.0f32.to_be_bytes()));
    assert_eq!(hub.pull(&ports[0], NONE), Some(1.0f32.to_be_bytes()));
    assert_eq!(hub.pull(&ports[0], NONE), Some(3.0f32.to_be_bytes()));
    assert_eq!(hub.pull(&ports[0], NONE), Some(5.0f32.to_be_bytes()));
    assert_eq!(hub.pull(&ports[0], NONE), None);
    assert_eq!(hub.pull(&ports[1], NONE), Some(6.0f32.to_be_bytes()));
}

#[test]
fn dropping_one_consumer_stops_every_channel() {
    let (mut hub, mut ports) = from_string("COM3", 3, true);
    assert_eq!(hub.next(Event::Frame(Some(frame_of(&[1.0, 2.0, 3.0])))), Action::Wait);
    let gone = ports.remove(1);
    hub.release(gone);
    // The frame that meets the abandoned channel ends the worker, and no
    // channel gets any part of it.
    assert_eq!(hub.next(Event::Frame(Some(frame_of(&[4.0, 5.0, 6.0])))), Action::Stop);
    assert_eq!(hub.next(Event::Available(Some(12))), Action::Stop);
    assert_eq!(hub.next(Event::Frame(Some(frame_of(&[7.0, 8.0, 9.0])))), Action::Stop);
    // What had arrived before can still be pulled; nothing arrives after.
    assert_eq!(hub.pull(&ports[0], NONE), Some(1.0f32.to_be_bytes()));
    assert_eq!(hub.pull(&ports[0], NONE), None);
    assert_eq!(hub.pull(&ports[1], NONE), Some(3.0f32.to_be_bytes()));
    assert_eq!(hub.pull(&ports[1], NONE), None);
}

#[test]
fn dropping_the_last_consumer_leaves_the_first_untouched() {
    let (mut hub, mut ports) = from_string("COM3", 3, true);
    let gone = ports.remove(2);
    hub.release(gone);
    assert_eq!(hub.next(Event::Frame(Some(frame_of(&[4.0, 5.0, 6.0])))), Action::Stop);
    assert_eq!(hub.pull(&ports[0], NONE), None);
    assert_eq!(hub.pull(&ports[1], NONE), None);
}

#[test]
fn a_failed_or_short_read_stops_the_worker() {
    let (mut hub, ports) = from_string("COM3", 2, true);
    assert_eq!(hub.next(Event::Frame(None)), Action::Stop);
    assert_eq!(hub.next(Event::Available(Some(8))), Action::Stop);
    assert_eq!(hub.pull(&ports[0], NONE), None);

    let (mut hub, ports) = from_string("COM3", 2, true);
    assert_eq!(hub.next(Event::Frame(Some(vec![0u8; 7]))), Action::Stop);
    assert_eq!(hub.pull(&ports[0], NONE), None);

    let (mut hub, _ports) = from_string("COM3", 2, true);
    assert_eq!(hub.next(Event::Frame(Some(vec![0u8; 12]))), Action::Stop);
}

#[test]
fn channels_are_claimed_once_each_in_slot_order() {
    let mut hub = PhysicalPort::new(2, "ttyS1".to_string());
    let first = hub.split().unwrap();
    let second = hub.split().unwrap();
    assert_eq!(first.name(), "ttyS1 split 1");
    assert_eq!(second.name(), "ttyS1 split 2");
    assert!(hub.split().is_none());
    assert!(hub.split().is_none());
    hub.next(Event::Frame(Some(frame_of(&[10.0, 20.0]))));
    assert_eq!(hub.pull(&first, NONE), Some(10.0f32.to_be_bytes()));
    assert_eq!(hub.pull(&second, NONE), Some(20.0f32.to_be_bytes()));
}

#[test]
fn unclaimed_channels_collect_their_samples() {
    let mut hub = PhysicalPort::new(2, "ttyS1".to_string());
    assert_eq!(hub.next(Event::Frame(Some(frame_of(&[10.0, 20.0])))), Action::Wait);
    let first = hub.split().unwrap();
    assert_eq!(hub.pull(&first, NONE), Some(10.0f32.to_be_bytes()));
}

#[test]
fn a_claim_made_elsewhere_gets_nothing() {
    // A claim on a slot that this hub never handed out.
    let mut here = PhysicalPort::new(2, "COM3".to_string());
    let (mut there, mut claims) = from_string("COM3", 2, true);
    here.next(Event::Frame(Some(frame_of(&[1.0, 2.0]))));
    assert_eq!(here.pull(&claims[0], NONE), None);
    assert_eq!(here.drawn(&claims[0]), None);

    // A claim that bears another connection's name.
    let (mut other, other_claims) = from_string("COM4", 2, true);
    other.next(Event::Frame(Some(frame_of(&[3.0, 4.0]))));
    assert_eq!(other.pull(&claims[1], NONE), None);
    assert_eq!(other.pull(&other_claims[1], NONE), Some(4.0f32.to_be_bytes()));

    // Giving a foreign claim up harms nobody.
    other.release(claims.remove(0));
    assert_eq!(other.next(Event::Frame(Some(frame_of(&[5.0, 6.0])))), Action::Wait);
    assert_eq!(other.pull(&other_claims[0], NONE), Some(3.0f32.to_be_bytes()));
    assert_eq!(there.next(Event::Available(Some(8))), Action::Read(8));

    // A simulated hub does not serve them either.
    let (mut pretend, _) = from_string("simulate", 2, true);
    assert_eq!(pretend.pull(&other_claims[0], sine(1)), None);
}

#[test]
fn claim_names_count_in_decimal() {
    let (_hub, ports) = from_string("p", 12, true);
    assert_eq!(ports[0].name(), "p split 1");
    assert_eq!(ports[8].name(), "p split 9");
    assert_eq!(ports[9].name(), "p split 10");
    assert_eq!(ports[11].name(), "p split 12");
}

#[test]
fn a_hub_without_channels_is_harmless() {
    let (mut hub, ports) = from_string("COM3", 0, true);
    assert!(ports.is_empty());
    assert_eq!(hub.next(Event::Available(Some(0))), Action::Read(0));
    assert_eq!(hub.next(Event::Frame(Some(Vec::new()))), Action::Wait);
    assert!(hub.split().is_none());
}

#[test]
fn a_capture_is_reinterpreted_by_swapping() {
    let (mut hub, mut ports) = from_string("COM3", 1, true);
    let mut graph = Graph::new(ports.remove(0));
    assert_eq!(graph.name(), "COM3 split 1");
    assert_eq!(graph.converter, converter::be_f32);
    hub.next(Event::Frame(Some(vec![0x3f, 0xc0, 0x00, 0x00])));
    hub.next(Event::Frame(Some(b"2.50".to_vec())));
    assert_eq!(graph.fetch(&mut hub, NONE), Some(1.5f32.to_bits()));
    assert_eq!(
        graph.fetch(&mut hub, NONE),
        Some(f32::from_be_bytes(*b"2.50").to_bits())
    );
    assert_eq!(graph.fetch(&mut hub, NONE), None);
    assert_eq!(graph.values, vec![[0x3f, 0xc0, 0x00, 0x00], *b"2.50"]);

    let under_be = graph.get_values();
    assert_eq!(f32::from_bits(under_be[0]), 1.5);
    graph.swap_endianness();
    assert_eq!(graph.converter, converter::le_f32);
    assert_eq!(graph.get_values()[0], 0x0000_c03f);
    graph.swap_endianness();
    assert_eq!(f32::from_bits(graph.get_values()[0]), 0x3fc0_0000u32 as f32);
    graph.swap_endianness();
    assert_eq!(f32::from_bits(graph.get_values()[0]), 0x0000_c03fu32 as f32);
    graph.swap_endianness();
    assert_eq!(graph.converter, converter::u8_to_string);
    assert_eq!(graph.get_values(), vec![0, 2.5f32.to_bits()]);
    graph.swap_endianness();
    assert_eq!(graph.converter, converter::be_f32);
    assert_eq!(graph.get_values(), under_be);
    assert_eq!(graph.values.len(), 2);
}

#[test]
fn a_capture_draws_from_a_simulated_channel() {
    let (mut hub, mut ports) = from_string("simulate", 1, true);
    let mut graph = Graph::new(ports.remove(0));
    assert_eq!(graph.fetch(&mut hub, sine(1)), Some(u32::from_be_bytes(sine(1))));
    assert_eq!(graph.fetch(&mut hub, sine(2)), Some(u32::from_be_bytes(sine(2))));
    assert_eq!(graph.values, vec![sine(1), sine(2)]);
    assert_eq!(hub.drawn(&graph.port), Some(2));
}

#[test]
fn appending_decodes_under_the_current_encoding() {
    let (_hub, mut ports) = from_string("simulate", 1, true);
    let mut graph = Graph::new(ports.remove(0));
    assert_eq!(graph.append_and_decode([0, 0, 0, 9]), 9);
    graph.swap_endianness();
    graph.swap_endianness();
    assert_eq!(f32::from_bits(graph.append_and_decode([0, 0, 0, 9])), 9.0);
    graph.push([0, 0, 1, 0]);
    assert_eq!(graph.values.len(), 3);
    let values = graph.get_values();
    assert_eq!(f32::from_bits(values[0]), 9.0);
    assert_eq!(f32::from_bits(values[2]), 256.0);
}
