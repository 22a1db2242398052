use tas2563::bulk::{CommandIterator, FramingError, CFG_META_BURST};
use tas2563::cfgtransform::analyzer::{analyze, dedup, regenerate, RegisterAddress, RegisterState};
use tas2563::cfgtransform::ast::{Command, Commands, WriteCommand};
use tas2563::cfgtransform::bulk::{AddressOverflowError, BulkGenerator, GenerateError};

fn write(register: u8, bytes: Vec<u8>) -> Command {
    Command::Write(WriteCommand {
        address: 0x98,
        register,
        bytes,
    })
}

fn addressed(entries: &[(u8, u8, u8, u8)]) -> Vec<(RegisterAddress, u8)> {
    entries
        .iter()
        .map(|&(book, page, register, value)| {
            (
                RegisterAddress {
                    book,
                    page,
                    register,
                },
                value,
            )
        })
        .collect()
}

fn decode_all(bytes: &[u8]) -> Result<Vec<(u8, u8)>, FramingError> {
    CommandIterator::new(bytes).writes()
}

fn flat(cmds: &[Command]) -> Vec<(u8, u8)> {
    let mut out = Vec::new();
    for c in cmds {
        if let Command::Write(w) = c {
            for (i, v) in w.bytes.iter().enumerate() {
                out.push((w.register.wrapping_add(i as u8), *v));
            }
        }
    }
    out
}

#[test]
fn regenerate_idem() {
    let data: RegisterState = dedup(&addressed(&[
        (0x01, 0x01, 0x04, 0xff),
        (0x01, 0x01, 0x01, 0xff),
        (0x01, 0x01, 0x02, 0xff),
        (0x01, 0x01, 0x03, 0xff),
        (0x01, 0x01, 0x05, 0xff),
        (0x01, 0x01, 0x04, 0xfe),
        (0x01, 0x01, 0x07, 0xff),
        (0x00, 0x00, 0x07, 0xff),
    ]));

    let cmds = regenerate(data.entries().to_vec());
    let cmds: Vec<_> = cmds.collect();
    let result = dedup(&analyze(&cmds));

    assert_eq!(data, result);
}

#[test]
fn regenerate_scenario_bursts_and_breaks() {
    let data = dedup(&addressed(&[
        (0, 0, 0x07, 0xff),
        (1, 1, 0x01, 0xff),
        (1, 1, 0x02, 0xff),
        (1, 1, 0x03, 0xff),
        (1, 1, 0x04, 0xfe),
        (1, 1, 0x05, 0xff),
        (1, 1, 0x07, 0xff),
    ]));
    let cmds = regenerate(data.entries().to_vec()).collect();
    let expected = vec![
        write(0x00, vec![0x00]),
        write(0x7f, vec![0x00]),
        write(0x07, vec![0xff]),
        write(0x00, vec![0x01]),
        write(0x7f, vec![0x01]),
        write(0x01, vec![0xff, 0xff, 0xff, 0xfe, 0xff]),
        write(0x07, vec![0xff]),
    ];
    let shape = |cs: &Vec<Command>| -> Vec<(u8, Vec<u8>)> {
        cs.iter()
            .map(|c| match c {
                Command::Write(w) => (w.register, w.bytes.clone()),
                Command::Delay(d) => panic!("unexpected delay {}", d),
            })
            .collect()
    };
    assert_eq!(shape(&cmds), shape(&expected));
}

#[test]
fn regenerate_book_change_only() {
    let data = dedup(&addressed(&[(0, 3, 0x10, 0x01), (2, 3, 0x10, 0x02)]));
    let cmds = regenerate(data.entries().to_vec()).collect();
    let registers: Vec<(u8, Vec<u8>)> = cmds
        .iter()
        .map(|c| match c {
            Command::Write(w) => (w.register, w.bytes.clone()),
            Command::Delay(_) => unreachable!(),
        })
        .collect();
    assert_eq!(
        registers,
        vec![
            (0x00, vec![0x03]),
            (0x7f, vec![0x00]),
            (0x10, vec![0x01]),
            (0x7f, vec![0x02]),
            (0x10, vec![0x02]),
        ]
    );
}

#[test]
fn regenerate_stops_burst_below_book_register() {
    let data = dedup(&addressed(&[(0, 0, 0x7d, 1), (0, 0, 0x7e, 2), (0, 0, 0x80, 3)]));
    let cmds = regenerate(data.entries().to_vec()).collect();
    assert_eq!(cmds.len(), 4);
    match &cmds[2] {
        Command::Write(w) => {
            assert_eq!(w.register, 0x7d);
            assert_eq!(w.bytes, vec![1, 2]);
        }
        Command::Delay(_) => unreachable!(),
    }
    assert_eq!(dedup(&analyze(&cmds)), data);
}

#[test]
fn regenerate_caps_bursts_at_127() {
    let entries: Vec<(u8, u8, u8, u8)> = (1..=0x7eu8)
        .chain(0x80..=0xffu8)
        .map(|r| (0, 0, r, r))
        .collect();
    let data = dedup(&addressed(&entries));
    let cmds = regenerate(data.entries().to_vec()).collect();
    for c in &cmds {
        if let Command::Write(w) = c {
            assert!(w.bytes.len() <= 127);
        }
    }
    // 0x01..=0x7e is one burst of 126; 0x80..=0xff is 128 entries, so 127 and 1.
    assert_eq!(cmds.len(), 2 + 1 + 2);
    assert_eq!(dedup(&analyze(&cmds)), data);
}

#[test]
fn analyze_tracks_bank_and_drops_delays() {
    let cmds = vec![
        write(0x00, vec![0x02]),
        write(0x7f, vec![0x8c]),
        Command::Delay(10),
        write(0x30, vec![0xaa, 0xbb]),
        write(0x00, vec![0x00]),
        write(0x30, vec![0xcc]),
    ];
    assert_eq!(
        analyze(&cmds),
        addressed(&[
            (0x8c, 0x02, 0x30, 0xaa),
            (0x8c, 0x02, 0x31, 0xbb),
            (0x8c, 0x00, 0x30, 0xcc),
        ])
    );
}

#[test]
fn analyze_meta_registers_inside_a_burst() {
    // Bytes of a burst that land on the page register select a page.
    let cmds = vec![write(0x7e, vec![0x11, 0x05, 0x22])];
    assert_eq!(
        analyze(&cmds),
        addressed(&[(0x00, 0x00, 0x7e, 0x11), (0x05, 0x00, 0x80, 0x22)])
    );
}

#[test]
fn dedup_last_write_wins() {
    let state = dedup(&addressed(&[
        (0, 0, 5, 1),
        (0, 1, 5, 2),
        (0, 0, 5, 3),
        (0, 0, 4, 4),
    ]));
    assert_eq!(state.len(), 3);
    assert_eq!(
        state.entries(),
        &addressed(&[(0, 0, 4, 4), (0, 0, 5, 3), (0, 1, 5, 2)])[..]
    );
    let a = RegisterAddress {
        book: 0,
        page: 0,
        register: 5,
    };
    assert_eq!(state.get(&a), Some(3));
    let missing = RegisterAddress {
        book: 9,
        page: 0,
        register: 5,
    };
    assert_eq!(state.get(&missing), None);
}

#[test]
fn dedup_idempotent_on_concrete_log() {
    let cmds = vec![
        write(0x00, vec![0x01]),
        write(0x10, vec![1, 2, 3]),
        write(0x11, vec![9]),
        Command::Delay(1),
        write(0x7f, vec![0x02]),
        write(0x10, vec![7]),
    ];
    let once = dedup(&analyze(&cmds));
    let regenerated = regenerate(once.entries().to_vec()).collect();
    let twice = dedup(&analyze(&regenerated));
    assert_eq!(once, twice);
}

#[test]
fn register_state_insert_and_order() {
    let mut state = RegisterState::new();
    assert_eq!(state.len(), 0);
    let b = RegisterAddress {
        book: 1,
        page: 0,
        register: 0,
    };
    let a = RegisterAddress {
        book: 0,
        page: 9,
        register: 9,
    };
    state.insert(b, 1);
    state.insert(a, 2);
    state.insert(b, 3);
    assert_eq!(state.entries(), &[(a, 2), (b, 3)][..]);
}

#[test]
fn commands_iter_in_file_order() {
    let cmds = Commands(vec![write(0x01, vec![1]), Command::Delay(3)]);
    assert_eq!(cmds.iter().len(), 2);
    assert_eq!(cmds.iter()[1], Command::Delay(3));
}

#[test]
fn single() {
    let command = Command::Write(WriteCommand {
        address: 0x1b, // Not used
        register: 0x4b,
        bytes: vec![0x0f],
    });
    let bulk = BulkGenerator::generate(&[command]).unwrap();

    assert_eq!(bulk, &[0x4b, 0x0f]);
    assert_eq!(bulk.len() % 2, 0); // The byte buffer is made of 16-bit words
}

#[test]
fn burst_even() {
    let command = Command::Write(WriteCommand {
        address: 0x1b, // Not used
        register: 0x4c,
        bytes: vec![0x01, 0x02],
    });
    let bulk = BulkGenerator::generate(&[command]).unwrap();

    assert_eq!(bulk, &[CFG_META_BURST, 0x02, 0x4c, 0x01, 0x02, 0x00]);
    assert_eq!(bulk.len() % 2, 0); // The byte buffer is made of 16-bit words
}

#[test]
fn burst_odd() {
    let command = Command::Write(WriteCommand {
        address: 0x1b, // Not used
        register: 0x4d,
        bytes: vec![0x01, 0x02, 0x03],
    });
    let bulk = BulkGenerator::generate(&[command]).unwrap();

    assert_eq!(bulk, &[CFG_META_BURST, 0x03, 0x4d, 0x01, 0x02, 0x03]);
    assert_eq!(bulk.len() % 2, 0); // The byte buffer is made of 16-bit words
}

#[test]
fn mix() {
    let commands = vec![
        Command::Write(WriteCommand {
            address: 0x1b, // Not used
            register: 0x5a,
            bytes: vec![0x0f],
        }),
        Command::Write(WriteCommand {
            address: 0x1b, // Not used
            register: 0x5c,
            bytes: vec![0x0f, 0xa0],
        }),
        Command::Write(WriteCommand {
            address: 0x1b, // Not used
            register: 0x5e,
            bytes: vec![0x01],
        }),
    ];
    let bulk = BulkGenerator::generate(&commands).unwrap();

    assert_eq!(
        bulk,
        &[
            0x5a,
            0x0f,
            CFG_META_BURST,
            0x02,
            0x5c,
            0x0f,
            0xa0,
            0x00,
            0x5e,
            0x01
        ]
    );
    assert_eq!(bulk.len() % 2, 0); // The byte buffer is made of 16-bit words
}

#[test]
fn generate_skips_delays() {
    let commands = vec![Command::Delay(5), write(0x10, vec![0x20]), Command::Delay(0)];
    assert_eq!(BulkGenerator::generate(&commands).unwrap(), vec![0x10, 0x20]);
    assert_eq!(BulkGenerator::generate(&[]).unwrap(), Vec::<u8>::new());
}

#[test]
fn generate_longest_burst() {
    let bytes: Vec<u8> = (0..127u8).collect();
    let bulk = BulkGenerator::generate(&[write(0x01, bytes.clone())]).unwrap();
    assert_eq!(bulk.len(), 3 + 127);
    assert_eq!(&bulk[..3], &[CFG_META_BURST, 127, 0x01]);
    assert_eq!(&bulk[3..], &bytes[..]);
}

#[test]
fn generate_rejects_overlong_burst() {
    let commands = vec![
        write(0x01, vec![0; 127]),
        Command::Delay(1),
        write(0x01, vec![0; 128]),
        write(0x01, vec![0; 200]),
    ];
    assert_eq!(
        BulkGenerator::generate(&commands),
        Err(GenerateError::AddressOverflow(AddressOverflowError {
            index: 2,
            len: 128
        }))
    );
}

#[test]
fn generate_rejects_single_write_to_burst_marker() {
    let commands = vec![
        write(0x10, vec![1]),
        write(CFG_META_BURST, vec![1, 2]),
        write(CFG_META_BURST, vec![7]),
        write(0x01, vec![0; 128]),
    ];
    assert_eq!(
        BulkGenerator::generate(&commands),
        Err(GenerateError::ReservedRegister { index: 2 })
    );
    // As part of a burst the marker value is a plain register.
    let bulk = BulkGenerator::generate(&commands[..2]).unwrap();
    assert_eq!(
        decode_all(&bulk),
        Ok(vec![(0x10, 1), (CFG_META_BURST, 1), (0xfe, 2)])
    );
}

#[test]
fn test_file() {
    // The commands of a register dump: bank selects, a page change, a write of 0x54 that
    // continues over three more lines, and a last write.
    let cmds = vec![
        write(0x00, vec![0x00]),
        write(0x7f, vec![0x00]),
        write(0x00, vec![0x05]),
        write(0x54, vec![0x00, 0x00, 0x00, 0x00]),
        write(0x08, vec![0x3f]),
    ];
    let bulk = BulkGenerator::generate(&cmds).unwrap();

    assert_eq!(
        bulk,
        &[0, 0, 127, 0, 0, 5, 253, 4, 84, 0, 0, 0, 0, 0, 8, 63]
    );
}

#[test]
fn codec_round_trip_concrete() {
    let cmds = vec![
        write(0x5a, vec![0x0f]),
        write(0x5c, vec![0x0f, 0xa0]),
        Command::Delay(2),
        write(0xfe, vec![1, 2, 3]),
        write(0x20, (0..127u8).collect()),
        write(0x5e, vec![0x01]),
    ];
    let bulk = BulkGenerator::generate(&cmds).unwrap();
    assert_eq!(bulk.len() % 2, 0);
    assert_eq!(decode_all(&bulk), Ok(flat(&cmds)));
}

#[test]
fn compile_pipeline_end_to_end() {
    let cmds = vec![
        write(0x00, vec![0x00]),
        write(0x7f, vec![0x00]),
        write(0x00, vec![0x05]),
        write(0x54, vec![0x00]),
        Command::Delay(0),
        write(0x08, vec![0x3f]),
        write(0x55, vec![0x01, 0x02]),
    ];
    let state = dedup(&analyze(&cmds));
    let regenerated = regenerate(state.entries().to_vec()).collect();
    let bulk = BulkGenerator::generate(&regenerated).unwrap();
    assert_eq!(
        bulk,
        vec![0x00, 0x05, 0x7f, 0x00, 0x08, 0x3f, CFG_META_BURST, 3, 0x54, 0x00, 0x01, 0x02]
    );
}
