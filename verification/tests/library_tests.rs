use dbcppp_rs::dbc::cycles::{find_cycle, find_cycle_containing_signal};
use dbcppp_rs::dbc::{ExMuxInfo, Message, RawMessage, RawSignal, Signal, SignalMuxFlag, ValueRange};
use dbcppp_rs::decision_tree::{create_decision_tree, create_extended_decision_tree, create_simple_decision_tree};
use dbcppp_rs::error::DbcError;
use dbcppp_rs::message_processor::MessageProcessor;
use dbcppp_rs::utils::S;
use dbcppp_rs::CanProcessor;

fn signal(name: &str, indicator: u32, switch_value: u64, parent: Option<(&str, Vec<(u64, u64)>)>) -> RawSignal {
    RawSignal {
        name: name.to_string(),
        unit: "km/h".to_string(),
        comment: String::new(),
        value_descriptions: vec![],
        multiplexer_indicator: indicator,
        multiplexer_switch_value: switch_value,
        multiplexer_values: match parent {
            None => vec![],
            Some((switch, ranges)) => vec![ExMuxInfo {
                switch: switch.to_string(),
                ranges: ranges.into_iter().map(|(from, to)| ValueRange { from, to }).collect(),
            }],
        },
    }
}

fn raw_message(id: u64, signals: Vec<RawSignal>) -> RawMessage {
    RawMessage { id, name: format!("Message_{}", id), size: 8, signals }
}

fn extended_message() -> Message {
    Message::new(raw_message(
        1,
        vec![
            signal("S1", 1, 0, None),
            signal("S2", 2, 0, Some(("S1", vec![(1, 176)]))),
            signal("S3", 2, 0, Some(("S2", vec![(10, 100)]))),
            signal("S4", 2, 0, Some(("S3", vec![(0, 3)]))),
            signal("S5", 2, 0, Some(("S3", vec![(0, 5)]))),
        ],
    ))
    .unwrap()
}

fn signals_of(raws: Vec<RawSignal>) -> Vec<Signal> {
    raws.into_iter().map(|r| Signal::new(r).unwrap()).collect()
}

#[test]
fn signal_new_keeps_fields_and_last_description() {
    let mut raw = signal("Speed", 0, 7, None);
    raw.value_descriptions = vec![(1, "one".to_string()), (2, "two".to_string()), (1, "uno".to_string())];
    let sig = Signal::new(raw).unwrap();
    assert_eq!(sig.name, "Speed");
    assert_eq!(sig.unit, "km/h");
    assert_eq!(sig.mux_flag, SignalMuxFlag::NoMux);
    assert_eq!(sig.mux_value, 7);
    assert!(sig.ex_mux_parent.is_none());
    assert_eq!(sig.enum_map.len(), 2);
    assert_eq!(sig.enum_map.get(&1).unwrap(), "uno");
    assert_eq!(sig.enum_map.get(&2).unwrap(), "two");
}

#[test]
fn signal_new_maps_each_indicator() {
    assert_eq!(Signal::new(signal("A", 1, 0, None)).unwrap().mux_flag, SignalMuxFlag::Switch);
    let sig = Signal::new(signal("B", 2, 3, Some(("A", vec![(4, 9)])))).unwrap();
    assert_eq!(sig.mux_flag, SignalMuxFlag::Value);
    let parent = sig.ex_mux_parent.unwrap();
    assert_eq!(parent.switch, "A");
    assert_eq!((parent.ranges[0].from, parent.ranges[0].to), (4, 9));
}

#[test]
fn signal_new_rejects_unknown_indicator() {
    let e = Signal::new(signal("Bad", 3, 0, None)).err().unwrap();
    assert!(matches!(&e, DbcError::InvalidSignal { name } if name == "Bad"));
    assert_eq!(e.message(), "invalid signal(Bad)");
}

#[test]
fn signal_new_rejects_two_extended_parents() {
    let mut raw = signal("Two", 2, 0, Some(("A", vec![(0, 1)])));
    raw.multiplexer_values.push(ExMuxInfo { switch: "B".to_string(), ranges: vec![] });
    let e = Signal::new(raw).err().unwrap();
    assert!(matches!(&e, DbcError::MultipleExMuxParents { name } if name == "Two"));
    assert_eq!(e.message(), "signal has more than one extended multiplexer parents");
}

#[test]
fn message_new_reports_first_invalid_signal() {
    let e = Message::new(raw_message(
        5,
        vec![signal("A", 0, 0, None), signal("B", 7, 0, None), signal("C", 9, 0, None)],
    ))
    .err()
    .unwrap();
    assert!(matches!(&e, DbcError::InvalidSignalAt { index: 1, .. }));
    assert_eq!(e.message(), "signal #1 is invalid: invalid signal(B)");
}

#[test]
fn simple_tree_lists_switch_and_values() {
    let msg = Message::new(raw_message(
        2,
        vec![
            signal("V1", 2, 66, None),
            signal("V2", 2, 0, None),
            signal("Sw", 1, 0, None),
            signal("N1", 0, 0, None),
            signal("N2", 0, 0, None),
        ],
    ))
    .unwrap();
    assert_eq!(msg.no_mux_signals, vec![3, 4]);
    assert_eq!(msg.mux_signal, Some(2));
    assert_eq!(msg.decision_tree.len(), 1);
    let top = &msg.decision_tree[0];
    assert_eq!(top.multiplexer_signal, 2);
    assert_eq!(top.decisions.len(), 2);
    assert_eq!((top.decisions[0].min_val, top.decisions[0].max_val), (66, 66));
    assert_eq!(top.decisions[0].target_signal.multiplexer_signal, 0);
    assert_eq!((top.decisions[1].min_val, top.decisions[1].max_val), (0, 0));
    assert_eq!(top.decisions[1].target_signal.multiplexer_signal, 1);
    assert!(top.decisions[1].target_signal.decisions.is_empty());
    let tree = create_simple_decision_tree(&msg).unwrap();
    assert_eq!(tree.no_mux_signals, vec![3, 4]);
}

#[test]
fn simple_tree_without_multiplexing_is_empty() {
    let msg = Message::new(raw_message(3, vec![signal("N1", 0, 0, None)])).unwrap();
    assert_eq!(msg.no_mux_signals, vec![0]);
    assert!(msg.decision_tree.is_empty());
    assert_eq!(msg.mux_signal, None);
}

#[test]
fn simple_tree_rejects_two_switches() {
    let e = Message::new(raw_message(4, vec![signal("A", 1, 0, None), signal("B", 1, 0, None)]))
        .err()
        .unwrap();
    assert!(matches!(e, DbcError::MultipleMultiplexers));
    assert_eq!(e.message(), "found multiple multiplexing signals without extended multiplexing");
}

#[test]
fn simple_tree_rejects_values_without_switch() {
    let e = Message::new(raw_message(4, vec![signal("A", 0, 0, None), signal("B", 2, 3, None)]))
        .err()
        .unwrap();
    assert!(matches!(e, DbcError::MissingMultiplexer));
    assert_eq!(e.message(), "found multiplexed signals but no multiplexer signals");
}

#[test]
fn extended_tree_follows_the_switches() {
    let msg = extended_message();
    assert_eq!(msg.no_mux_signals, Vec::<usize>::new());
    assert_eq!(msg.decision_tree.len(), 1);
    let top = &msg.decision_tree[0];
    assert_eq!(top.multiplexer_signal, 0);
    assert_eq!(top.decisions.len(), 1);
    assert_eq!((top.decisions[0].min_val, top.decisions[0].max_val), (1, 176));
    let s2 = &top.decisions[0].target_signal;
    assert_eq!(s2.multiplexer_signal, 1);
    assert_eq!((s2.decisions[0].min_val, s2.decisions[0].max_val), (10, 100));
    let s3 = &s2.decisions[0].target_signal;
    assert_eq!(s3.multiplexer_signal, 2);
    assert_eq!(s3.decisions.len(), 2);
    assert_eq!(s3.decisions[0].target_signal.multiplexer_signal, 3);
    assert_eq!((s3.decisions[0].min_val, s3.decisions[0].max_val), (0, 3));
    assert_eq!(s3.decisions[1].target_signal.multiplexer_signal, 4);
    assert_eq!((s3.decisions[1].min_val, s3.decisions[1].max_val), (0, 5));
    let tree = create_extended_decision_tree(&msg).unwrap();
    assert_eq!(tree.top_mux_signals.len(), 1);
    let again = create_decision_tree(&msg).unwrap();
    assert_eq!(again.top_mux_signals[0].decisions[0].target_signal.multiplexer_signal, 1);
}

#[test]
fn extended_tree_decides_on_the_first_range() {
    let msg = Message::new(raw_message(
        6,
        vec![signal("Sw", 1, 0, None), signal("V", 2, 0, Some(("Sw", vec![(1, 2), (5, 6)])))],
    ))
    .unwrap();
    assert_eq!(msg.decision_tree.len(), 1);
    let top = &msg.decision_tree[0];
    assert_eq!(top.decisions.len(), 1);
    assert_eq!((top.decisions[0].min_val, top.decisions[0].max_val), (1, 2));
    assert_eq!(top.decisions[0].target_signal.multiplexer_signal, 1);
}

fn mixed_message() -> Message {
    Message::new(raw_message(
        7,
        vec![
            signal("Sw", 1, 0, None),
            signal("P", 2, 3, None),
            signal("A", 2, 0, Some(("Sw", vec![(1, 2), (5, 6)]))),
            signal("B", 1, 0, Some(("A", vec![(0, 4)]))),
            signal("C", 2, 0, Some(("B", vec![(7, 9)]))),
            signal("N", 0, 0, None),
            signal("E", 2, 0, Some(("Sw", vec![]))),
        ],
    ))
    .unwrap()
}

#[test]
fn extended_tree_holds_plain_and_extended_multiplexing() {
    let msg = mixed_message();
    assert_eq!(msg.no_mux_signals, vec![5]);
    assert_eq!(msg.decision_tree.len(), 3);
    let root = &msg.decision_tree[0];
    assert_eq!(root.multiplexer_signal, 0);
    assert_eq!(root.decisions.len(), 1);
    let a = &root.decisions[0].target_signal;
    assert_eq!(a.multiplexer_signal, 2);
    assert_eq!((a.decisions[0].min_val, a.decisions[0].max_val), (0, 4));
    let b = &a.decisions[0].target_signal;
    assert_eq!(b.multiplexer_signal, 3);
    assert_eq!((b.decisions[0].min_val, b.decisions[0].max_val), (7, 9));
    assert_eq!(b.decisions[0].target_signal.multiplexer_signal, 4);
    let leaf = &msg.decision_tree[1];
    assert_eq!(leaf.multiplexer_signal, 3);
    assert!(leaf.decisions.is_empty());
    let plain = &msg.decision_tree[2];
    assert_eq!(plain.multiplexer_signal, 0);
    assert_eq!(plain.decisions.len(), 1);
    assert_eq!((plain.decisions[0].min_val, plain.decisions[0].max_val), (3, 3));
    assert_eq!(plain.decisions[0].target_signal.multiplexer_signal, 1);
}

#[test]
fn extended_child_of_a_plain_multiplexed_signal_is_decoded_on_its_own() {
    let msg = Message::new(raw_message(
        9,
        vec![signal("Sw", 1, 0, None), signal("P", 2, 3, None), signal("C", 2, 0, Some(("P", vec![(0, 9)])))],
    ))
    .unwrap();
    let p = MessageProcessor::new(&msg).unwrap();
    let r = p.parse_frame(&[0; 8], &[0, 5, 1]).unwrap();
    assert_eq!(r.signals.iter().map(|(n, _)| *n).collect::<Vec<_>>(), vec!["Sw", "C"]);
    let r = p.parse_frame(&[0; 8], &[3, 5, 1]).unwrap();
    assert_eq!(r.signals.iter().map(|(n, _)| *n).collect::<Vec<_>>(), vec!["Sw", "P", "C"]);
}

#[test]
fn message_lists_only_unmultiplexed_signals_as_always_decoded() {
    let msg = Message::new(raw_message(
        10,
        vec![signal("A", 1, 0, None), signal("B", 2, 0, Some(("A", vec![(1, 1)]))), signal("N", 0, 0, None)],
    ))
    .unwrap();
    assert_eq!(msg.no_mux_signals, vec![2]);
}

#[test]
fn parse_frame_keeps_the_last_value_of_a_name() {
    let msg = Message::new(raw_message(
        8,
        vec![signal("X", 0, 0, None), signal("Y", 0, 0, None), signal("X", 0, 0, None)],
    ))
    .unwrap();
    let p = MessageProcessor::new(&msg).unwrap();
    let r = p.parse_frame(&[0; 8], &[1, 2, 3]).unwrap();
    assert_eq!(r.signals.len(), 2);
    assert_eq!((r.signals[0].0, r.signals[0].1.raw), ("Y", 2));
    assert_eq!((r.signals[1].0, r.signals[1].1.raw), ("X", 3));
}

#[test]
fn ascii_replaces_other_characters() {
    assert_eq!(dbcppp_rs::utils::ascii("h\u{e9}llo \u{2192} w"), "h_llo _ w");
    assert_eq!(dbcppp_rs::utils::ascii(""), "");
    assert_eq!(dbcppp_rs::utils::ascii("plain ASCII~"), "plain ASCII~");
}

#[test]
fn find_cycle_none_on_acyclic_switches() {
    let sigs = signals_of(vec![
        signal("S1", 1, 0, None),
        signal("S2", 2, 0, Some(("S1", vec![(1, 2)]))),
        signal("S3", 2, 0, Some(("S2", vec![(1, 2)]))),
    ]);
    assert_eq!(find_cycle(&sigs), None);
    assert_eq!(find_cycle_containing_signal(&sigs[2], &sigs), None);
}

#[test]
fn find_cycle_returns_the_loop() {
    let sigs = signals_of(vec![
        signal("S1", 1, 0, None),
        signal("A", 2, 0, Some(("B", vec![(1, 2)]))),
        signal("B", 2, 0, Some(("C", vec![(1, 2)]))),
        signal("C", 2, 0, Some(("B", vec![(1, 2)]))),
    ]);
    assert_eq!(find_cycle(&sigs), Some(vec!["A", "B", "C", "B"]));
    assert_eq!(find_cycle_containing_signal(&sigs[3], &sigs), Some(vec!["C", "B", "C"]));
    assert_eq!(find_cycle_containing_signal(&sigs[0], &sigs), None);
}

#[test]
fn find_cycle_stops_at_the_loop_before_unknown_switches() {
    let sigs = signals_of(vec![
        signal("A", 2, 0, Some(("B", vec![(1, 2)]))),
        signal("B", 2, 0, Some(("A", vec![(1, 2)]))),
        signal("X", 2, 0, Some(("Q", vec![(1, 2)]))),
    ]);
    assert_eq!(find_cycle_containing_signal(&sigs[0], &sigs), Some(vec!["A", "B", "A"]));
    assert_eq!(find_cycle(&sigs), Some(vec!["A", "B", "A"]));
}

#[test]
fn unknown_switch_is_checked_before_cycles() {
    let e = Message::new(raw_message(
        7,
        vec![
            signal("A", 2, 0, Some(("B", vec![(1, 2)]))),
            signal("B", 2, 0, Some(("A", vec![(1, 2)]))),
            signal("C", 2, 0, Some(("Nope", vec![(1, 2)]))),
        ],
    ))
    .err()
    .unwrap();
    assert_eq!(e.message(), "Signal(C) has an invalid multiplexer switch: \"Nope\"");
}

#[test]
fn decode_frame_unknown_id() {
    let p = CanProcessor::from_network(vec![raw_message(10, vec![signal("A", 0, 0, None)])]).unwrap();
    assert_eq!(p.message_index(11), None);
    let e = p.decode_frame(11, &[0; 8], &[0]).err().unwrap();
    assert!(matches!(e, DbcError::InvalidCanId));
    assert_eq!(e.message(), "Invalid can id");
}

#[test]
fn decode_frame_short_payload() {
    let p = CanProcessor::from_network(vec![raw_message(10, vec![signal("A", 0, 0, None)])]).unwrap();
    let e = p.decode_frame(10, &[1, 2, 3], &[1]).err().unwrap();
    assert!(matches!(e, DbcError::PayloadTooShort { payload_len: 3, message_size: 8 }));
    assert_eq!(e.message(), "payload size (3) is smaller than the message size (8)");
}

#[test]
fn decode_frame_last_message_with_id_wins() {
    let p = CanProcessor::from_network(vec![
        raw_message(10, vec![signal("First", 0, 0, None)]),
        raw_message(20, vec![signal("Other", 0, 0, None)]),
        RawMessage { id: 10, name: "Second".to_string(), size: 2, signals: vec![signal("Later", 0, 0, None)] },
    ])
    .unwrap();
    assert_eq!(p.message_index(10), Some(2));
    assert_eq!(p.message_index(20), Some(1));
    let r = p.decode_frame(10, &[5, 6], &[42]).unwrap();
    assert_eq!(r.message_name, "Second");
    assert_eq!(r.signals.len(), 1);
    assert_eq!(r.signals[0].0, "Later");
    assert_eq!(r.signals[0].1.raw, 42);
    assert_eq!(p.schema().messages().len(), 3);
}

#[test]
fn decode_frame_value_descriptions_and_unit() {
    let mut raw = signal("Gear", 0, 0, None);
    raw.value_descriptions = vec![(0, "park".to_string()), (1, "drive".to_string())];
    let p = CanProcessor::from_network(vec![raw_message(1, vec![raw])]).unwrap();
    let r = p.decode_frame(1, &[0; 8], &[1]).unwrap();
    assert_eq!(r.signals[0].1.enum_repr, Some("drive"));
    assert_eq!(r.signals[0].1.unit, "km/h");
    let r = p.decode_frame(1, &[0; 8], &[7]).unwrap();
    assert_eq!(r.signals[0].1.enum_repr, None);
}

#[test]
fn extended_mux_checks_only_the_first_range() {
    let msg = Message::new(raw_message(
        6,
        vec![signal("Sw", 1, 0, None), signal("V", 2, 0, Some(("Sw", vec![(1, 2), (5, 6)])))],
    ))
    .unwrap();
    let p = MessageProcessor::new(&msg).unwrap();
    let names = |raws: &[u64]| -> Vec<String> {
        p.parse_frame(&[0; 8], raws).unwrap().signals.iter().map(|(n, _)| n.to_string()).collect()
    };
    assert_eq!(names(&[2, 9]), vec!["Sw", "V"]);
    assert_eq!(names(&[5, 9]), vec!["Sw"]);
    assert_eq!(names(&[0, 9]), vec!["Sw"]);
}

#[test]
fn switches_and_unmultiplexed_signals_are_always_decoded() {
    let msg = extended_message();
    let p = MessageProcessor::new(&msg).unwrap();
    let r = p.parse_frame(&[0; 8], &[0, 0, 0, 0, 0]).unwrap();
    let names: Vec<&str> = r.signals.iter().map(|(n, _)| *n).collect();
    assert_eq!(names, vec!["S1"]);
    let r = p.parse_frame(&[0; 8], &[1, 50, 4, 0, 0]).unwrap();
    let names: Vec<&str> = r.signals.iter().map(|(n, _)| *n).collect();
    assert_eq!(names, vec!["S1", "S2", "S3", "S5"]);
}

#[test]
fn simple_mux_value_signal_without_switch_value_is_skipped() {
    let msg = Message::new(raw_message(
        2,
        vec![signal("Sw", 1, 0, None), signal("V", 2, 4, None), signal("N", 0, 0, None)],
    ))
    .unwrap();
    let p = MessageProcessor::new(&msg).unwrap();
    let r = p.parse_frame(&[0; 8], &[3, 1, 1]).unwrap();
    assert_eq!(r.signals.iter().map(|(n, _)| *n).collect::<Vec<_>>(), vec!["Sw", "N"]);
    let r = p.parse_frame(&[0; 8], &[4, 1, 1]).unwrap();
    assert_eq!(r.signals.iter().map(|(n, _)| *n).collect::<Vec<_>>(), vec!["Sw", "V", "N"]);
}

#[test]
fn network_error_names_the_message() {
    let e = CanProcessor::from_network(vec![
        raw_message(1, vec![signal("A", 0, 0, None)]),
        raw_message(2, vec![signal("B", 1, 0, None), signal("C", 1, 0, None)]),
    ])
    .err()
    .unwrap();
    assert!(matches!(&e, DbcError::InvalidMessageAt { index: 1, .. }));
    assert_eq!(e.message(), "message #1 is invalid: found multiple multiplexing signals without extended multiplexing");
}

#[test]
fn lookup_by_id() {
    let mut s = S::new();
    assert_eq!(s.f(1), 0);
    s.m.insert(1, "drive".to_string());
    assert_eq!(s.f(1), 5);
    assert_eq!(s.f(2), 0);
}

fn walk(node: &dbcppp_rs::decision_tree::MuxSignal, raws: &[u64], out: &mut Vec<usize>) {
    out.push(node.multiplexer_signal);
    for d in node.decisions.iter() {
        let v = raws[node.multiplexer_signal];
        if d.min_val <= v && v <= d.max_val {
            walk(&d.target_signal, raws, out);
        }
    }
}

fn walked(msg: &Message, raws: &[u64]) -> Vec<usize> {
    let mut out: Vec<usize> = msg.no_mux_signals.clone();
    for top in msg.decision_tree.iter() {
        walk(top, raws, &mut out);
    }
    out.sort();
    out.dedup();
    out
}

fn decoded_indices(msg: &Message, raws: &[u64]) -> Vec<usize> {
    let p = MessageProcessor::new(msg).unwrap();
    let r = p.parse_frame(&[0; 8], raws).unwrap();
    let mut out = Vec::new();
    let mut next = 0;
    for (name, _) in r.signals.iter() {
        let i = next + msg.signals[next..].iter().position(|s| s.name == *name).unwrap();
        out.push(i);
        next = i + 1;
    }
    out
}

#[test]
fn decision_tree_walk_matches_decoding() {
    let extended = extended_message();
    let mixed = mixed_message();
    let simple = Message::new(raw_message(
        2,
        vec![
            signal("V1", 2, 66, None),
            signal("V2", 2, 0, None),
            signal("Sw", 1, 0, None),
            signal("N1", 0, 0, None),
            signal("N2", 0, 0, None),
        ],
    ))
    .unwrap();
    let mut state: u64 = 0x9e37_79b9_7f4a_7c15;
    for _ in 0..20000 {
        let mut raws = [0u64; 5];
        for r in raws.iter_mut() {
            state ^= state << 13;
            state ^= state >> 7;
            state ^= state << 17;
            *r = state % 200;
        }
        assert_eq!(walked(&extended, &raws), decoded_indices(&extended, &raws), "raws: {:?}", raws);
        let mut small = [0u64; 7];
        for (k, r) in small.iter_mut().enumerate() {
            *r = (state >> (4 * k)) % 10;
        }
        assert_eq!(walked(&mixed, &small), decoded_indices(&mixed, &small), "raws: {:?}", small);
        raws[2] = if state % 3 == 0 { 66 } else if state % 3 == 1 { 0 } else { raws[2] };
        assert_eq!(walked(&simple, &raws), decoded_indices(&simple, &raws), "raws: {:?}", raws);
    }
}

#[test]
fn decision_tree_indices_point_into_the_message() {
    fn check(node: &dbcppp_rs::decision_tree::MuxSignal, n: usize) {
        assert!(node.multiplexer_signal < n);
        for d in node.decisions.iter() {
            check(&d.target_signal, n);
        }
    }
    let msg = extended_message();
    for top in msg.decision_tree.iter() {
        check(top, msg.signals.len());
    }
    assert!(msg.no_mux_signals.iter().all(|&i| i < msg.signals.len()));
}
