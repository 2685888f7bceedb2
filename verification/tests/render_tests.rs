use javaminer::classfile::MeasureMeta;
use javaminer::classfile::MusicMeta;
use javaminer::codecity::Building;
use javaminer::codecity::Package;
use javaminer::codecity::Rect;
use javaminer::freeminer::block_hex;
use javaminer::freeminer::build_array;
use javaminer::freeminer::compute_position;
use javaminer::freeminer::hex;
use javaminer::freeminer::meta_bytes;
use javaminer::freeminer::node_pos;
use javaminer::freeminer::push_variable;
use javaminer::freeminer::to_bytes;
use javaminer::freeminer::voxels_to_blob;
use javaminer::freeminer::NodeBlob;
use javaminer::melo::chord_text;
use javaminer::melo::get_base;
use javaminer::melo::get_complexity_shift;
use javaminer::melo::get_tone;
use javaminer::melo::get_tone_count;
use javaminer::melo::measure_text;
use javaminer::melo::melo_text;
use javaminer::midi::midi_events;
use javaminer::midi::NoteEvent;
use javaminer::supercollider::dec_string;
use javaminer::supercollider::supercollider_text;
use std::io::Write;

fn music_one(name: &str, size: usize, lines: u16, complexity: u16) -> Vec<MusicMeta> {
    vec![MusicMeta {
        name: name.to_string(),
        method_count: 1,
        field_count: 0,
        code_size: size,
        methods: vec![MeasureMeta { size, lines, complexity }],
    }]
}

#[test]
fn hex_dumps_upper_case() {
    assert_eq!(hex(&vec![0xAB, 0x01, 0xFF]), "AB01FF");
    assert_eq!(hex(&Vec::new()), "");
}

#[test]
fn variable_wire_form() {
    let mut v: Vec<u8> = Vec::new();
    push_variable(&mut v, "ab", "xyz");
    assert_eq!(
        v,
        vec![0, 2, b'a', b'b', 0, 0, 0, 3, b'x', b'y', b'z']
    );
}

#[test]
fn meta_bytes_layout() {
    let m = meta_bytes("hi", 5);
    assert_eq!(&m[0..9], &[1, 0, 1, 0, 5, 0, 0, 0, 3]);
    assert_eq!(&m[9..11], &[0, 8]);
    assert_eq!(&m[11..19], b"formspec");
    assert_eq!(&m[19..23], &[0, 0, 0, 20]);
    assert_eq!(&m[23..43], b"field[text;;${text}]");
    // the block ends with the EndInventory marker
    assert_eq!(&m[m.len() - 13..], b"EndInventory\n");
    // both text variables carry the sign text
    let tail = &m[43..];
    assert_eq!(&tail[0..2], &[0, 8]);
    assert_eq!(&tail[2..10], b"infotext");
    assert_eq!(&tail[10..14], &[0, 0, 0, 2]);
    assert_eq!(&tail[14..16], b"hi");
}

#[test]
fn blob_to_bytes_layout() {
    let mut param0 = vec![3u16; 4096];
    param0[0] = 0x0102;
    let blob = NodeBlob { param0, param1: vec![7u8; 4096], param2: vec![0u8; 4096] };
    let bytes = to_bytes(&blob);
    assert_eq!(bytes.len(), 16384);
    assert_eq!(bytes[0], 1);
    assert_eq!(bytes[1], 2);
    assert_eq!(bytes[2], 0);
    assert_eq!(bytes[3], 3);
    assert_eq!(bytes[8192], 7);
    assert_eq!(bytes[12288], 0);
}

#[test]
fn positions() {
    assert_eq!(node_pos(1, 2, 3), (3 * 16 + 2) * 16 + 1);
    assert_eq!(compute_position(1, 2, 3), 1 + 4096 * (2 + 4096 * 3));
}

#[test]
fn voxels_cut_into_blob() {
    let mut root = Package::new("_root_");
    root.buildings.push(Building {
        name: "a".to_string(),
        rect: Rect::new(1, 1),
        height: 2,
    });
    root.pack().unwrap();
    assert_eq!(root.size(), (3, 3));
    assert_eq!(root.height(), 3);
    let voxels = build_array(&root);
    let blob = voxels_to_blob(&voxels, 0, 0, 0);
    // the ground layer is lit where it is strictly inside the extents
    assert_eq!(blob.param0[node_pos(0, 0, 0)], 0);
    assert_eq!(blob.param0[node_pos(1, 0, 1)], 0);
    assert_eq!(blob.param1[node_pos(0, 0, 0)], 0xf);
    // the building occupies (1, 1) one layer up
    assert_eq!(blob.param0[node_pos(1, 1, 1)], 0);
    // off the building's footprint the upper layer is air
    assert_eq!(blob.param0[node_pos(0, 1, 0)], 3);
    assert_eq!(blob.param1[node_pos(0, 1, 0)], 0);
    // outside the blob's filled region everything is air
    assert_eq!(blob.param0[node_pos(5, 5, 5)], 3);
    assert_eq!(blob.param2[node_pos(1, 1, 1)], 0);
}

#[test]
fn block_text_is_header_and_compressed_parts() {
    let blob = NodeBlob {
        param0: vec![0xe; 4096],
        param1: vec![0u8; 4096],
        param2: vec![0u8; 4096],
    };
    let s = block_hex(&blob, "", 0);
    assert_eq!(&s[0..8], "19060202");
    // zlib streams at the default level open with 78 9C
    assert_eq!(&s[8..12], "789C");
    // the same bytes compressed by flate2 directly give the same hex
    let mut e = flate2::write::ZlibEncoder::new(Vec::new(), flate2::Compression::default());
    e.write_all(&to_bytes(&blob)).unwrap();
    let blob_hex = hex(&e.finish().unwrap());
    assert_eq!(&s[8..8 + blob_hex.len()], blob_hex.as_str());
    let mut e2 = flate2::write::ZlibEncoder::new(Vec::new(), flate2::Compression::default());
    e2.write_all(&meta_bytes("", 0)).unwrap();
    let meta_hex = hex(&e2.finish().unwrap());
    assert_eq!(
        &s[8 + blob_hex.len()..8 + blob_hex.len() + meta_hex.len()],
        meta_hex.as_str()
    );
    // what follows is the fixed node name table
    let rest = &s[8 + blob_hex.len() + meta_hex.len()..];
    assert!(rest.starts_with("0000000000024900000A"));
}

#[test]
fn melo_tone_functions() {
    assert_eq!(get_tone_count(8), 2);
    assert_eq!(get_tone_count(100), 8);
    assert_eq!(get_base(4), 4);
    assert_eq!(get_base(30), 20);
    assert_eq!(get_base(1000), 18);
    assert_eq!(get_complexity_shift(0), 2);
    assert_eq!(get_complexity_shift(4), 3);
    assert_eq!(get_complexity_shift(25), 8);
    assert_eq!(get_tone(5, 0, 0), "a");
    assert_eq!(get_tone(4, 0, 1), "b");
}

#[test]
fn melo_measure_and_chord() {
    let m = MeasureMeta { size: 4, lines: 8, complexity: 0 };
    assert_eq!(measure_text(&m), "G b |");
    assert_eq!(chord_text(&m, 2), "d |");
    let silent = MeasureMeta { size: 4, lines: 3, complexity: 0 };
    assert_eq!(measure_text(&silent), "");
    assert_eq!(chord_text(&silent, 0), "");
}

#[test]
fn melo_whole_file() {
    let music = music_one("X", 4, 8, 0);
    let expected = "tempo: 200\n\nvoice Right { channel: 2 }\nvoice Left { channel: 1, octave: -1 }\n\nplay Right\n{\n:|G b |\n}\n\nplay Left\n{\n:|G |\n:|b |\n:|d |\n}\n\n";
    assert_eq!(melo_text(&music), expected);
}

#[test]
fn midi_events_from_music() {
    let music = vec![MusicMeta {
        name: "X".to_string(),
        method_count: 2,
        field_count: 0,
        code_size: 128,
        methods: vec![
            MeasureMeta { size: 0, lines: 0, complexity: 0 },
            MeasureMeta { size: 128, lines: 1, complexity: 100 },
        ],
    }];
    let events = midi_events(&music);
    assert_eq!(events.len(), 1);
    assert_eq!(
        events[0],
        NoteEvent { note: 80, duration: 512, velocity: 100, off_velocity: 128 }
    );
    // long methods are capped at a whole note
    let music2 = music_one("Y", 4, 1000, 10);
    let events2 = midi_events(&music2);
    assert_eq!(events2[0].duration, 4096);
    assert_eq!(events2[0].note, 41);
    assert_eq!(events2[0].velocity, 60);
}

#[test]
fn supercollider_script() {
    assert_eq!(dec_string(0), "0");
    assert_eq!(dec_string(10205), "10205");
    let music = music_one("X", 5, 8, 2);
    assert_eq!(
        supercollider_text(&music),
        "\"X\".postln;\n~class.(5, 8, 2);\n"
    );
    let silent = music_one("X", 5, 0, 2);
    assert_eq!(supercollider_text(&silent), "");
}
