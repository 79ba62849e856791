use dbcppp_rs::dbc::{ExMuxInfo, RawMessage, RawSignal, ValueRange};
use dbcppp_rs::CanProcessor;

fn signal(name: &str, indicator: u32, switch_value: u64, parent: Option<(&str, Vec<(u64, u64)>)>) -> RawSignal {
    RawSignal {
        name: name.to_string(),
        unit: String::new(),
        comment: String::new(),
        value_descriptions: vec![],
        multiplexer_indicator: indicator,
        multiplexer_switch_value: switch_value,
        multiplexer_values: match parent {
            None => vec![],
            Some((switch, ranges)) => vec![ExMuxInfo {
                switch: switch.to_string(),
                ranges: ranges.into_iter().map(|(from, to)| ValueRange { from, to }).collect(),
            }],
        },
    }
}

fn message(id: u64, name: &str, signals: Vec<RawSignal>) -> RawMessage {
    RawMessage { id, name: name.to_string(), size: 8, signals }
}

fn test_error_in_network(network: Vec<RawMessage>, error_text: &str) {
    match CanProcessor::from_network(network) {
        Ok(_) => {
            panic!("should've gotten an error");
        }
        Err(e) => {
            if !e.message().contains(error_text) {
                panic!("Wrong error:\n{:?}", e);
            }
        }
    }
}

/// Two multiplexed signals that switch each other.
fn cycles1() -> Vec<RawMessage> {
    vec![message(
        0x100,
        "Cyclic_Message",
        vec![
            signal("New_Signal_1", 1, 0, None),
            signal("New_Signal_2", 2, 1, Some(("New_Signal_3", vec![(0, 10)]))),
            signal("New_Signal_3", 2, 1, Some(("New_Signal_2", vec![(0, 10)]))),
        ],
    )]
}

/// A longer loop of switches, reached from a signal outside it.
fn cycles2() -> Vec<RawMessage> {
    vec![
        message(0x10, "Plain_Message", vec![signal("Plain_Signal", 0, 0, None)]),
        message(
            0x200,
            "Cyclic_Message",
            vec![
                signal("New_Signal_1", 1, 0, None),
                signal("New_Signal_2", 2, 1, Some(("New_Signal_1", vec![(1, 176)]))),
                signal("New_Signal_3", 2, 1, Some(("New_Signal_5", vec![(10, 100)]))),
                signal("New_Signal_4", 2, 1, Some(("New_Signal_3", vec![(0, 3)]))),
                signal("New_Signal_5", 2, 1, Some(("New_Signal_4", vec![(0, 5)]))),
            ],
        ),
    ]
}

fn mux_invalid_switch() -> Vec<RawMessage> {
    vec![message(
        0x300,
        "New_Message_1",
        vec![
            signal("New_Signal_1", 1, 0, None),
            signal("New_Signal_2", 2, 1, Some(("New_Signal_1", vec![(1, 176)]))),
            signal("New_Signal_3", 2, 1, Some(("New_Signal_2", vec![(10, 100)]))),
            signal("New_Signal_4", 2, 1, Some(("Unknown_Signal", vec![(0, 3)]))),
        ],
    )]
}

#[test]
fn mux_parsing_tests_extended_multiplexing_cycles_1() {
    test_error_in_network(cycles1(), "found cycle in extended multiplexing specification");
}

#[test]
fn mux_parsing_tests_extended_multiplexing_cycles_2() {
    test_error_in_network(cycles2(), "found cycle in extended multiplexing specification");
}

#[test]
fn unknown_mux_switch() {
    test_error_in_network(
        mux_invalid_switch(),
        "Signal(New_Signal_4) has an invalid multiplexer switch: \"Unknown_Signal\"",
    );
}

#[test]
fn cycle_error_names_the_loop_and_the_message() {
    let e = CanProcessor::from_network(cycles2()).err().unwrap();
    assert_eq!(
        e.message(),
        "message #1 is invalid: found cycle in extended multiplexing specification: \
         New_Signal_3 -> New_Signal_5 -> New_Signal_4 -> New_Signal_3"
    );
}
