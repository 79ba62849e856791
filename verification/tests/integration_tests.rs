use std::collections::HashMap;
use dbcppp_rs::dbc::{ExMuxInfo, RawMessage, RawSignal, ValueRange};
use dbcppp_rs::CanProcessor;

fn signal(name: &str, indicator: u32, switch_value: u64, parent: Option<(&str, Vec<(u64, u64)>)>) -> RawSignal {
    RawSignal {
        name: name.to_string(),
        unit: String::new(),
        comment: String::new(),
        value_descriptions: vec![],
        multiplexer_indicator: indicator,
        multiplexer_switch_value: switch_value,
        multiplexer_values: match parent {
            None => vec![],
            Some((switch, ranges)) => vec![ExMuxInfo {
                switch: switch.to_string(),
                ranges: ranges.into_iter().map(|(from, to)| ValueRange { from, to }).collect(),
            }],
        },
    }
}

/// The two messages of the test network: one with extended multiplexing, one
/// with simple multiplexing; signal `New_Signal_k` is byte `k - 1` of the frame.
fn test1() -> Vec<RawMessage> {
    vec![
        RawMessage {
            id: 2348873389,
            name: "New_Message_1".to_string(),
            size: 8,
            signals: vec![
                signal("New_Signal_1", 1, 0, None),
                signal("New_Signal_2", 2, 1, Some(("New_Signal_1", vec![(1, 176)]))),
                signal("New_Signal_3", 2, 1, Some(("New_Signal_2", vec![(10, 100)]))),
                signal("New_Signal_4", 2, 0, Some(("New_Signal_3", vec![(0, 3)]))),
                signal("New_Signal_5", 2, 0, Some(("New_Signal_3", vec![(0, 5)]))),
            ],
        },
        RawMessage {
            id: 2348941054,
            name: "New_Message_2".to_string(),
            size: 8,
            signals: vec![
                signal("New_Signal_1", 2, 66, None),
                signal("New_Signal_2", 2, 0, None),
                signal("New_Signal_3", 1, 0, None),
                signal("New_Signal_4", 0, 0, None),
                signal("New_Signal_5", 0, 0, None),
            ],
        },
    ]
}

/// A xorshift generator with a fixed seed.
struct Rng(u64);

impl Rng {
    fn next_u8(&mut self) -> u8 {
        self.0 ^= self.0 << 13;
        self.0 ^= self.0 >> 7;
        self.0 ^= self.0 << 17;
        (self.0 & 0xff) as u8
    }
}

const SEED: u64 = 0xcafebabe;

fn sequential<T: Ord>(n1: T, n2: T, n3: T) -> bool {
    n2 >= n1 && n3 >= n2
}

fn decoded(processor: &CanProcessor, id: u64, payload: &[u8; 8]) -> (String, HashMap<String, u64>) {
    let raws: Vec<u64> = payload[..5].iter().map(|&b| b as u64).collect();
    let result = processor.decode_frame(id, payload, &raws).unwrap();
    let signals = result.signals.iter().map(|(k, v)| (k.to_string(), v.raw)).collect::<HashMap<_, _>>();
    (result.message_name.to_string(), signals)
}

#[test]
fn integration_tests_extended_multiplexing() {
    let mut r = Rng(SEED);
    let processor = CanProcessor::from_network(test1()).unwrap();
    let message_id = 2348873389;
    for idx in 0..100000 {
        let sig1 = r.next_u8();
        let sig2 = r.next_u8();
        let sig3 = r.next_u8();
        let sig4 = r.next_u8();
        let sig5 = r.next_u8();
        let payload = [sig1, sig2, sig3, sig4, sig5, 0, 0, 0];
        let mut expected = HashMap::new();
        expected.insert("New_Signal_1".to_string(), sig1 as u64);
        if sequential(1, sig1, 176) {
            expected.insert("New_Signal_2".to_string(), sig2 as u64);
            if sequential(10, sig2, 100) {
                expected.insert("New_Signal_3".to_string(), sig3 as u64);
                if sequential(0, sig3, 3) {
                    expected.insert("New_Signal_4".to_string(), sig4 as u64);
                }
                if sequential(0, sig3, 5) {
                    expected.insert("New_Signal_5".to_string(), sig5 as u64);
                }
            }
        }
        let (name, signals) = decoded(&processor, message_id, &payload);
        assert_eq!(name, "New_Message_1");
        assert_eq!(expected, signals, "index: {}\npayload: {:?}", idx, payload);
    }
}

#[test]
fn integration_tests_simple_multiplexing() {
    let mut r = Rng(SEED);
    let processor = CanProcessor::from_network(test1()).unwrap();
    let message_id = 2348941054;
    for idx in 0..100000 {
        let sig1 = r.next_u8();
        let sig2 = r.next_u8();
        let sig3 = r.next_u8();
        let sig4 = r.next_u8();
        let sig5 = r.next_u8();
        let payload = [sig1, sig2, sig3, sig4, sig5, 0, 0, 0];
        let mut expected = HashMap::new();
        expected.insert("New_Signal_3".to_string(), sig3 as u64);
        expected.insert("New_Signal_4".to_string(), sig4 as u64);
        expected.insert("New_Signal_5".to_string(), sig5 as u64);
        if sig3 == 66 {
            expected.insert("New_Signal_1".to_string(), sig1 as u64);
        }
        if sig3 == 0 {
            expected.insert("New_Signal_2".to_string(), sig2 as u64);
        }
        let (name, signals) = decoded(&processor, message_id, &payload);
        assert_eq!(name, "New_Message_2");
        assert_eq!(expected, signals, "index: {}\npayload: {:?}", idx, payload);
    }
}

fn test_mux_cycles(network: Vec<RawMessage>) {
    match CanProcessor::from_network(network) {
        Ok(_) => {
            panic!("should've gotten an error");
        }
        Err(e) => {
            println!("{:?}", e);
        }
    }
}

#[test]
fn integration_tests_extended_multiplexing_cycles_1() {
    test_mux_cycles(vec![RawMessage {
        id: 0x100,
        name: "Cyclic_Message".to_string(),
        size: 8,
        signals: vec![
            signal("New_Signal_1", 1, 0, None),
            signal("New_Signal_2", 2, 1, Some(("New_Signal_3", vec![(0, 10)]))),
            signal("New_Signal_3", 2, 1, Some(("New_Signal_2", vec![(0, 10)]))),
        ],
    }]);
}

#[test]
fn integration_tests_extended_multiplexing_cycles_2() {
    test_mux_cycles(vec![RawMessage {
        id: 0x200,
        name: "Cyclic_Message".to_string(),
        size: 8,
        signals: vec![
            signal("New_Signal_1", 1, 0, None),
            signal("New_Signal_3", 2, 1, Some(("New_Signal_5", vec![(10, 100)]))),
            signal("New_Signal_4", 2, 1, Some(("New_Signal_3", vec![(0, 3)]))),
            signal("New_Signal_5", 2, 1, Some(("New_Signal_4", vec![(0, 5)]))),
        ],
    }]);
}
