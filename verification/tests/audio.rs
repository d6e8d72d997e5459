use whisrs::audio::capture::{
    capture_route, find_named_device, supports_capture_format, CaptureRoute, SupportedRange,
};
use whisrs::audio::choices::{
    cpal_input_device_names, input_device_choices, InputDeviceChoice, PIPEWIRE_NODE_PREFIX,
};
use whisrs::audio::dump::{
    pipewire_capture_layout, pipewire_objects, pipewire_source_choices, CommandOutput,
};
use whisrs::audio::json::{parse_json, Json};
use whisrs::audio::layout::{
    parse_pipewire_channel_map, pipewire_capture_layout_from, PipeWireCaptureLayout,
};
use whisrs::audio::mono::{
    collect_samples, strongest_channel_index, strongest_channel_mono, PipeWireMonoProcessor,
};
use whisrs::audio::pipewire::pipewire_source_choices_from;
use whisrs::audio::recorder::{open_error_message, pw_record_args};
use whisrs::audio::samples::SampleFramer;
use whisrs::audio::stream::{PipeWireStream, StreamStep};
use whisrs::audio::wav::encode_wav;

fn text(value: &str) -> Json {
    Json::Text(value.to_string())
}

fn object(entries: Vec<(&str, Json)>) -> Json {
    Json::Object(
        entries
            .into_iter()
            .map(|(key, value)| (key.to_string(), value))
            .collect(),
    )
}

fn node(props: Vec<(&str, Json)>) -> Json {
    object(vec![
        ("type", text("PipeWire:Interface:Node")),
        ("info", object(vec![("props", object(props))])),
    ])
}

fn source(name: &str, description: &str) -> Json {
    node(vec![
        ("media.class", text("Audio/Source")),
        ("node.name", text(name)),
        ("node.description", text(description)),
    ])
}

fn device(id: &str, label: &str) -> InputDeviceChoice {
    InputDeviceChoice {
        id: id.to_string(),
        label: label.to_string(),
    }
}

fn pairs(choices: &[InputDeviceChoice]) -> Vec<(&str, &str)> {
    choices
        .iter()
        .map(|c| (c.id.as_str(), c.label.as_str()))
        .collect()
}

fn printed(dump: &str) -> Option<CommandOutput> {
    Some(CommandOutput {
        success: true,
        stdout: dump.as_bytes().to_vec(),
    })
}

#[test]
fn encode_wav_produces_valid_output() {
    let samples: Vec<i16> = (0..1600).map(|i| (i % 256) as i16).collect();
    let wav = encode_wav(&samples).unwrap();

    // WAV files start with "RIFF".
    assert_eq!(&wav[..4], b"RIFF");

    // Verify we can read it back with hound.
    let cursor = std::io::Cursor::new(&wav);
    let reader = hound::WavReader::new(cursor).unwrap();
    let spec = reader.spec();
    assert_eq!(spec.channels, 1);
    assert_eq!(spec.sample_rate, 16_000);
    assert_eq!(spec.bits_per_sample, 16);

    let read_samples: Vec<i16> = reader.into_samples::<i16>().map(|s| s.unwrap()).collect();
    assert_eq!(read_samples.len(), 1600);
    assert_eq!(read_samples, samples);
}

#[test]
fn encode_wav_empty_samples() {
    let wav = encode_wav(&[]).unwrap();
    assert_eq!(&wav[..4], b"RIFF");
}

#[test]
fn wav_bytes_are_exact() {
    let wav = encode_wav(&[1, -2, i16::MIN, i16::MAX]).unwrap();
    let mut expected: Vec<u8> = Vec::new();
    expected.extend_from_slice(b"RIFF");
    expected.extend_from_slice(&44u32.to_le_bytes());
    expected.extend_from_slice(b"WAVEfmt ");
    expected.extend_from_slice(&16u32.to_le_bytes());
    expected.extend_from_slice(&1u16.to_le_bytes());
    expected.extend_from_slice(&1u16.to_le_bytes());
    expected.extend_from_slice(&16_000u32.to_le_bytes());
    expected.extend_from_slice(&32_000u32.to_le_bytes());
    expected.extend_from_slice(&2u16.to_le_bytes());
    expected.extend_from_slice(&16u16.to_le_bytes());
    expected.extend_from_slice(b"data");
    expected.extend_from_slice(&8u32.to_le_bytes());
    expected.extend_from_slice(&[1, 0, 0xfe, 0xff, 0, 0x80, 0xff, 0x7f]);
    assert_eq!(wav, expected);
}

#[test]
fn wav_data_decode_to_the_samples() {
    let samples: Vec<i16> = (-300..300).map(|i| (i * 109) as i16).collect();
    let wav = encode_wav(&samples).unwrap();
    let mut framer = SampleFramer::new(1);
    assert_eq!(framer.push(&wav[44..]), Some(samples));
}

#[test]
fn pipewire_choices_are_one_per_source_node() {
    let dump = Json::Array(vec![
        object(vec![
            ("type", text("PipeWire:Interface:Node")),
            (
                "info",
                object(vec![(
                    "props",
                    object(vec![
                        ("media.class", text("Audio/Source")),
                        ("node.name", text("alsa_input.internal")),
                        ("node.description", text("Internal Microphone")),
                    ]),
                )]),
            ),
        ]),
        object(vec![
            ("type", text("PipeWire:Interface:Node")),
            (
                "info",
                object(vec![(
                    "props",
                    object(vec![
                        ("media.class", text("Audio/Sink")),
                        ("node.name", text("alsa_output.speakers")),
                        ("node.description", text("Speakers")),
                    ]),
                )]),
            ),
        ]),
    ]);

    assert_eq!(
        pipewire_source_choices_from(&dump),
        vec![InputDeviceChoice {
            id: format!("{PIPEWIRE_NODE_PREFIX}alsa_input.internal"),
            label: "Internal Microphone".to_string(),
        }]
    );
}

#[test]
fn pipewire_capture_preserves_multichannel_array_layout() {
    let dump = Json::Array(vec![object(vec![
        ("type", text("PipeWire:Interface:Node")),
        (
            "info",
            object(vec![(
                "props",
                object(vec![
                    ("media.class", text("Audio/Source")),
                    ("node.name", text("alsa_input.apple_t2")),
                    ("alsa.card_name", text("Apple T2 Audio")),
                    ("audio.channels", Json::Number(Some(3))),
                    ("audio.position", text("[ AUX0, AUX1, AUX2 ]")),
                ]),
            )]),
        ),
    ])]);

    assert_eq!(
        pipewire_capture_layout_from(&dump, "alsa_input.apple_t2"),
        Some(PipeWireCaptureLayout {
            channels: 3,
            channel_map: Some("AUX0,AUX1,AUX2".to_string()),
            apple_t2: true,
        })
    );
}

#[test]
fn pipewire_capture_layout_rejects_mismatched_positions() {
    let dump = Json::Array(vec![object(vec![(
        "info",
        object(vec![(
            "props",
            object(vec![
                ("media.class", text("Audio/Source")),
                ("node.name", text("broken")),
                ("audio.channels", Json::Number(Some(3))),
                ("audio.position", text("[ AUX0, AUX1 ]")),
            ]),
        )]),
    )])]);

    assert_eq!(pipewire_capture_layout_from(&dump, "broken"), None);
}

#[test]
fn strongest_channel_is_selected_for_mono_capture() {
    // Three interleaved channels; the middle channel carries the signal.
    let samples = [1, 100, 2, 3, -200, 4, 5, 300, 6];
    assert_eq!(strongest_channel_mono(&samples, 3), vec![100, -200, 300]);
}

#[test]
fn mono_capture_is_unchanged() {
    let samples = [1, -2, 3, -4];
    assert_eq!(strongest_channel_mono(&samples, 1), samples);
}

#[test]
fn incomplete_frame_is_left_out_of_mono() {
    assert_eq!(strongest_channel_mono(&[1, 9, 2, 8, 7], 2), vec![9, 8]);
    assert_eq!(strongest_channel_mono(&[5, 6], 0), vec![5, 6]);
}

#[test]
fn last_of_equally_strong_channels_is_selected() {
    assert_eq!(strongest_channel_index(&[7, -7, 7, 3], 4), 2);
    assert_eq!(strongest_channel_index(&[], 3), 2);
    assert_eq!(strongest_channel_index(&[i16::MIN, i16::MAX], 2), 0);
}

#[test]
fn apple_t2_keeps_its_first_channel() {
    let mut t2 = PipeWireMonoProcessor::new(2, true);
    assert_eq!(t2.downmix(&[1, 50, 2, 60]), vec![50, 60]);
    assert_eq!(t2.downmix(&[900, 3, 901, 4]), vec![3, 4]);

    let mut other = PipeWireMonoProcessor::new(2, false);
    assert_eq!(other.downmix(&[1, 50, 2, 60]), vec![50, 60]);
    assert_eq!(other.downmix(&[900, 3, 901, 4]), vec![900, 901]);
}

#[test]
fn processor_without_channels_is_mono() {
    let mut processor = PipeWireMonoProcessor::new(0, true);
    assert_eq!(processor.downmix(&[4, 5, 6]), vec![4, 5, 6]);
}

#[test]
fn chunks_are_collected_in_order() {
    assert_eq!(
        collect_samples(&vec![vec![1, 2], vec![], vec![3]]),
        vec![1, 2, 3]
    );
    assert_eq!(collect_samples(&vec![]), Vec::<i16>::new());
}

#[test]
fn framing_ignores_where_reads_end() {
    let bytes: Vec<u8> = (0..=255).collect();
    let mut whole = SampleFramer::new(3);
    let expected = whole.push(&bytes).unwrap();
    assert_eq!(expected.len(), 126);
    assert_eq!(expected[1], i16::from_le_bytes([2, 3]));
    assert_eq!(expected[125], i16::from_le_bytes([250, 251]));

    for size in [1, 2, 5, 7, 100] {
        let mut framer = SampleFramer::new(3);
        let mut samples = Vec::new();
        for piece in bytes.chunks(size) {
            if let Some(more) = framer.push(piece) {
                samples.extend(more);
            }
        }
        assert_eq!(samples, expected);
    }
}

#[test]
fn stream_turns_reads_into_chunks() {
    let layout = PipeWireCaptureLayout {
        channels: 2,
        channel_map: None,
        apple_t2: false,
    };
    let mut stream = PipeWireStream::new(&layout);
    assert_eq!(stream.on_read(&[1, 0, 200]), StreamStep::Wait);
    assert_eq!(
        stream.on_read(&[0, 3, 0, 201, 0, 9]),
        StreamStep::Chunk(vec![200, 201])
    );
    assert_eq!(
        stream.on_read(&[1, 2, 0]),
        StreamStep::Chunk(vec![265])
    );
    assert_eq!(stream.on_read(&[]), StreamStep::End);
}

#[test]
fn chunks_ignore_where_reads_end() {
    let bytes: Vec<u8> = (0..61).map(|i| i * 3).collect();
    for channels in 1..=4_usize {
        let layout = PipeWireCaptureLayout {
            channels: channels as u16,
            channel_map: None,
            apple_t2: false,
        };
        for size in [1, 2, 3, 5, 7, 8, 60, 61] {
            let mut stream = PipeWireStream::new(&layout);
            let mut samples: Vec<i16> = Vec::new();
            for read in bytes.chunks(size) {
                match stream.on_read(read) {
                    StreamStep::Chunk(chunk) => {
                        assert!(!chunk.is_empty());
                        samples.extend(chunk);
                    }
                    step => assert_eq!(step, StreamStep::Wait),
                }
            }
            assert_eq!(stream.on_read(&[]), StreamStep::End);
            assert_eq!(samples.len(), bytes.len() / 2 / channels);
            if channels == 1 {
                let expected: Vec<i16> = bytes
                    .chunks_exact(2)
                    .map(|pair| i16::from_le_bytes([pair[0], pair[1]]))
                    .collect();
                assert_eq!(samples, expected);
            }
        }
    }
}

#[test]
fn apple_t2_stream_is_one_channel_wherever_reads_end() {
    // Of each frame the second sample is the loudest at first, the third later.
    let frames: Vec<[i16; 3]> = (0..20_i16)
        .map(|i| [i, -400 - i, if i < 8 { 3 } else { 9_000 + i }])
        .collect();
    let mut bytes: Vec<u8> = frames
        .iter()
        .flat_map(|frame| frame.iter().flat_map(|sample| sample.to_le_bytes()))
        .collect();
    bytes.extend([1, 2, 3]);
    let layout = PipeWireCaptureLayout {
        channels: 3,
        channel_map: None,
        apple_t2: true,
    };
    for (size, channel) in [(1, 1), (5, 1), (6, 1), (13, 1), (48, 1), (123, 2)] {
        let mut stream = PipeWireStream::new(&layout);
        let mut samples: Vec<i16> = Vec::new();
        for read in bytes.chunks(size) {
            if let StreamStep::Chunk(chunk) = stream.on_read(read) {
                assert!(!chunk.is_empty());
                samples.extend(chunk);
            }
        }
        let expected: Vec<i16> = frames.iter().map(|frame| frame[channel]).collect();
        assert_eq!(samples, expected);
    }
}

#[test]
fn downmixed_samples_are_of_their_frames() {
    let frames: Vec<[i16; 2]> = vec![[5, -1], [6, -2], [-3, 70], [-4, 80]];
    let bytes: Vec<u8> = frames
        .iter()
        .flat_map(|frame| frame.iter().flat_map(|sample| sample.to_le_bytes()))
        .collect();
    let layout = PipeWireCaptureLayout {
        channels: 2,
        channel_map: None,
        apple_t2: false,
    };
    for (size, expected) in [
        (8, vec![5, 6, 70, 80]),
        (16, vec![-1, -2, 70, 80]),
        (12, vec![-1, -2, 70, 80]),
    ] {
        let mut stream = PipeWireStream::new(&layout);
        let mut samples: Vec<i16> = Vec::new();
        for read in bytes.chunks(size) {
            if let StreamStep::Chunk(chunk) = stream.on_read(read) {
                samples.extend(chunk);
            }
        }
        assert_eq!(samples, expected);
        assert!(samples.iter().zip(&frames).all(|(s, frame)| frame.contains(s)));
    }
}

#[test]
fn sources_are_ordered_by_label_without_case() {
    let dump = Json::Array(vec![
        source("n1", "zeta"),
        source("n2", "Beta"),
        source("n3", "ÉCLAIR"),
        source("n4", "alpha"),
        source("n5", "éclair"),
        source("n6", "BETA"),
        source("n7", "Éclair"),
    ]);
    let choices = pipewire_source_choices_from(&dump);
    assert_eq!(
        pairs(&choices),
        vec![
            ("pipewire-node:n4", "alpha"),
            ("pipewire-node:n2", "Beta"),
            ("pipewire-node:n6", "BETA"),
            ("pipewire-node:n1", "zeta"),
            ("pipewire-node:n3", "ÉCLAIR"),
            ("pipewire-node:n5", "éclair"),
            ("pipewire-node:n7", "Éclair"),
        ]
    );
}

#[test]
fn source_label_falls_back_to_nick_and_name() {
    let dump = Json::Array(vec![
        node(vec![
            ("media.class", text("Audio/Source")),
            ("node.name", text("bare")),
            ("node.description", Json::Null),
        ]),
        node(vec![
            ("media.class", text("Audio/Source")),
            ("node.name", text("a")),
            ("node.nick", text("Nick")),
        ]),
        node(vec![("media.class", text("Audio/Source"))]),
        object(vec![("type", text("PipeWire:Interface:Node"))]),
        object(vec![(
            "info",
            object(vec![("props", object(vec![("node.name", text("untyped"))]))]),
        )]),
        Json::Bool(true),
    ]);
    let choices = pipewire_source_choices_from(&dump);
    assert_eq!(
        pairs(&choices),
        vec![
            ("pipewire-node:bare", "bare"),
            ("pipewire-node:a", "Nick"),
        ]
    );
    assert_eq!(pipewire_source_choices_from(&Json::Null), vec![]);
}

#[test]
fn json_is_parsed() {
    assert_eq!(
        parse_json(br#" {"b": [null, true, 7, -7, 7.5, 18446744073709551615], "a": "x\ny"} "#),
        Some(object(vec![
            ("a", text("x\ny")),
            (
                "b",
                Json::Array(vec![
                    Json::Null,
                    Json::Bool(true),
                    Json::Number(Some(7)),
                    Json::Number(None),
                    Json::Number(None),
                    Json::Number(Some(u64::MAX)),
                ])
            ),
        ]))
    );
    assert_eq!(parse_json(b"[1,"), None);
    assert_eq!(parse_json(b"[] []"), None);
    assert_eq!(parse_json(&[b'"', 0xff, b'"']), None);
}

#[test]
fn dump_is_read_from_command_output() {
    let dump = r#"[
        {"type": "PipeWire:Interface:Client", "info": {"props": {"media.class": "Audio/Source", "node.name": "client"}}},
        {"type": "PipeWire:Interface:Node", "info": {"props": {"media.class": "Audio/Source", "node.name": "usb", "node.description": "USB"}}},
        {"type": "PipeWire:Interface:Node", "info": {"props": {"media.class": "Audio/Source", "node.name": "array", "node.nick": "Array",
            "audio.channels": 2, "audio.position": "[ FL, FR ]"}}}
    ]"#;
    let output = printed(dump);
    assert_eq!(
        pairs(&pipewire_source_choices(&output)),
        vec![
            ("pipewire-node:array", "Array"),
            ("pipewire-node:usb", "USB"),
        ]
    );
    assert_eq!(
        pipewire_capture_layout(&output, "array"),
        PipeWireCaptureLayout {
            channels: 2,
            channel_map: Some("FL,FR".to_string()),
            apple_t2: false,
        }
    );
    assert_eq!(
        pipewire_capture_layout(&output, "usb"),
        PipeWireCaptureLayout::default()
    );
}

#[test]
fn unusable_command_output_is_no_dump() {
    let failed = Some(CommandOutput {
        success: false,
        stdout: b"[]".to_vec(),
    });
    assert_eq!(pipewire_objects(&failed), None);
    assert_eq!(pipewire_objects(&None), None);
    assert_eq!(pipewire_objects(&printed("no json")), None);
    assert_eq!(pipewire_objects(&printed("[]")), Some(Json::Array(vec![])));
    assert_eq!(pipewire_source_choices(&failed), vec![]);
    assert_eq!(
        pipewire_capture_layout(&None, "x"),
        PipeWireCaptureLayout {
            channels: 1,
            channel_map: None,
            apple_t2: false,
        }
    );
}

fn layout_with(channels: Json, position: Json) -> Option<PipeWireCaptureLayout> {
    let dump = Json::Array(vec![node(vec![
        ("media.class", text("Audio/Source")),
        ("node.name", text("mic")),
        ("audio.channels", channels),
        ("audio.position", position),
    ])]);
    pipewire_capture_layout_from(&dump, "mic")
}

#[test]
fn layout_falls_back_to_mono_or_none() {
    let mono = Some(PipeWireCaptureLayout::default());
    assert_eq!(layout_with(Json::Number(Some(0)), Json::Null), mono);
    assert_eq!(layout_with(Json::Number(Some(1)), Json::Null), mono);
    assert_eq!(layout_with(Json::Number(Some(65)), Json::Null), mono);
    assert_eq!(layout_with(Json::Number(Some(65_535)), Json::Null), mono);
    assert_eq!(layout_with(Json::Number(Some(65_536)), Json::Null), None);
    assert_eq!(layout_with(Json::Number(None), text("[A,B]")), None);
    assert_eq!(layout_with(text("2"), text("[A,B]")), None);
    assert_eq!(layout_with(Json::Number(Some(2)), Json::Null), None);
    assert_eq!(
        layout_with(Json::Number(Some(2)), text("[A,B]")),
        Some(PipeWireCaptureLayout {
            channels: 2,
            channel_map: Some("A,B".to_string()),
            apple_t2: false,
        })
    );
    assert_eq!(pipewire_capture_layout_from(&Json::Null, "mic"), None);
    assert_eq!(
        pipewire_capture_layout_from(&Json::Array(vec![Json::Null]), "mic"),
        None
    );
}

#[test]
fn second_card_name_marks_apple_t2() {
    let dump = Json::Array(vec![
        node(vec![
            ("media.class", text("Audio/Sink")),
            ("node.name", text("mic")),
        ]),
        node(vec![
            ("media.class", text("Audio/Source")),
            ("node.name", text("mic")),
            ("alsa.card_name", text("Other")),
            ("api.alsa.card.name", text("Apple T2 Audio")),
            ("audio.channels", Json::Number(Some(2))),
            ("audio.position", text("[A,B]")),
        ]),
    ]);
    let layout = pipewire_capture_layout_from(&dump, "mic").unwrap();
    assert!(layout.apple_t2);
    assert_eq!(layout.channels, 2);
}

#[test]
fn channel_maps_are_parsed_strictly() {
    let parse = |positions: &str, channels: u16| parse_pipewire_channel_map(positions, channels);
    assert_eq!(parse(" [FL , FR]\n", 2), Some("FL,FR".to_string()));
    assert_eq!(parse("[ FL,, FR, ]", 2), Some("FL,FR".to_string()));
    assert_eq!(parse("[\u{3000}FL\u{a0}]", 1), Some("FL".to_string()));
    assert_eq!(parse("[]", 0), Some(String::new()));
    assert_eq!(parse("FL,FR", 2), None);
    assert_eq!(parse("[FL,FR", 2), None);
    assert_eq!(parse("[", 0), None);
    assert_eq!(parse("", 0), None);
    assert_eq!(parse("[F L,FR]", 2), None);
    assert_eq!(parse("[FÉ,FR]", 2), None);
    assert_eq!(parse("[--raw]", 1), None);
    assert_eq!(parse("[FL,FR]", 3), None);
}

#[test]
fn record_arguments_follow_the_layout() {
    assert_eq!(
        pw_record_args("mic", &PipeWireCaptureLayout::default()),
        vec!["--target", "mic", "--rate", "16000", "--channels", "1", "--format", "s16", "--raw", "-"]
    );
    let array = PipeWireCaptureLayout {
        channels: 12,
        channel_map: Some("A,B".to_string()),
        apple_t2: true,
    };
    assert_eq!(
        pw_record_args("mic", &array),
        vec![
            "--target", "mic", "--rate", "16000", "--channels", "12", "--channel-map", "A,B",
            "--format", "s16", "--raw", "-"
        ]
    );
}

#[test]
fn open_error_message_holds_trimmed_detail() {
    assert_eq!(
        open_error_message("mic", "exit status: 1", " no such node\n"),
        "pw-record could not open PipeWire microphone mic: exit status: 1 — no such node"
    );
    assert_eq!(
        open_error_message("mic", "exit status: 1", " \n"),
        "pw-record could not open PipeWire microphone mic: exit status: 1"
    );
}

#[test]
fn sources_are_offered_behind_the_pipewire_default() {
    let choices = input_device_choices(
        "pipewire-node:b",
        vec![device("pipewire-node:a", "A"), device("pipewire-node:b", "B")],
        vec!["front".to_string()],
    );
    assert_eq!(
        pairs(&choices),
        vec![
            ("pipewire", "PipeWire default"),
            ("pipewire-node:a", "A"),
            ("pipewire-node:b", "B"),
        ]
    );
}

#[test]
fn host_devices_are_offered_without_sources() {
    let choices = input_device_choices("default", vec![], vec!["a".to_string(), "b".to_string()]);
    assert_eq!(
        pairs(&choices),
        vec![("default", "System default"), ("a", "a"), ("b", "b")]
    );
}

#[test]
fn configured_device_is_always_offered() {
    let choices = input_device_choices("gone", vec![device("x", "X")], vec![]);
    assert_eq!(
        pairs(&choices),
        vec![("gone", "gone"), ("pipewire", "PipeWire default"), ("x", "X")]
    );
    let alone = input_device_choices("gone", vec![], vec![]);
    assert_eq!(
        pairs(&alone),
        vec![("gone", "gone"), ("default", "System default")]
    );
}

#[test]
fn offered_ids_occur_once() {
    let choices = input_device_choices(
        "x",
        vec![device("x", "First"), device("x", "Second"), device("pipewire", "Third")],
        vec![],
    );
    assert_eq!(
        pairs(&choices),
        vec![("pipewire", "PipeWire default"), ("x", "First")]
    );
}

#[test]
fn device_names_are_sorted_and_distinct() {
    let reported: Vec<Option<String>> = ["b", "a", "é", "b", "", "B", "z", "ab"]
        .iter()
        .map(|name| Some(name.to_string()))
        .chain(vec![None])
        .collect();
    assert_eq!(
        cpal_input_device_names(&reported),
        vec!["", "B", "a", "ab", "b", "z", "é"]
    );
    assert_eq!(cpal_input_device_names(&vec![]), Vec::<String>::new());
}

#[test]
fn configured_device_is_routed() {
    assert_eq!(
        capture_route("pipewire-node:alsa_input.x"),
        CaptureRoute::PipeWireNode("alsa_input.x".to_string())
    );
    assert_eq!(
        capture_route(PIPEWIRE_NODE_PREFIX),
        CaptureRoute::PipeWireNode(String::new())
    );
    assert_eq!(capture_route("default"), CaptureRoute::DefaultDevice);
    assert_eq!(capture_route("DeFault"), CaptureRoute::DefaultDevice);
    assert_eq!(
        capture_route("defaults"),
        CaptureRoute::NamedDevice("defaults".to_string())
    );
    assert_eq!(
        capture_route("pipewire"),
        CaptureRoute::NamedDevice("pipewire".to_string())
    );
}

#[test]
fn source_choice_is_captured_from_its_node() {
    let choices = pipewire_source_choices_from(&Json::Array(vec![source("mic.0", "Mic")]));
    assert_eq!(
        capture_route(&choices[0].id),
        CaptureRoute::PipeWireNode("mic.0".to_string())
    );
}

#[test]
fn device_is_found_by_name() {
    let reported = vec![None, Some("a".to_string()), Some("b".to_string()), Some("b".to_string())];
    assert_eq!(find_named_device(&reported, "b"), Some(2));
    assert_eq!(find_named_device(&reported, "B"), None);
    assert_eq!(find_named_device(&vec![], "a"), None);
}

#[test]
fn capture_format_is_looked_for() {
    let range = SupportedRange {
        channels: 1,
        min_sample_rate: 16_000,
        max_sample_rate: 16_000,
        is_i16: true,
    };
    assert!(supports_capture_format(&vec![range]));
    assert!(supports_capture_format(&vec![
        SupportedRange { channels: 2, ..range },
        SupportedRange { min_sample_rate: 8_000, max_sample_rate: 48_000, ..range },
    ]));
    assert!(!supports_capture_format(&vec![
        SupportedRange { channels: 2, ..range },
        SupportedRange { min_sample_rate: 16_001, max_sample_rate: 48_000, ..range },
        SupportedRange { min_sample_rate: 8_000, max_sample_rate: 15_999, ..range },
        SupportedRange { is_i16: false, ..range },
    ]));
    assert!(!supports_capture_format(&vec![]));
}
