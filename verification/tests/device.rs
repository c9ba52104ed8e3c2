use engine_metal::device::buffer::{next_read, read_got, share, Buffer, Got, READ_MOST};
use engine_metal::device::{heater, spinner};
use engine_metal::device::heater::{
    always, arm, pause, running, shape, Action, Burner, Config, Kernel, Shared, Words,
};
use engine_metal::experts::source::Source;
use engine_metal::fault::{Fault, Refusal, Step, Unmapped, What};
use engine_metal::mapping::{page, Answer, Mapping};

fn word(text: &str) -> Option<String> {
    Some(text.to_string())
}

fn unsaid() -> Words {
    Words {
        on: None,
        inflight: None,
        arm: None,
        kernel: None,
        alu_threads: None,
        alu_iters: None,
        log: None,
    }
}

#[test]
fn mapping_every_case() {
    an_empty_artifact_is_refused_by_name();
}

fn an_empty_artifact_is_refused_by_name() {
    let fault = Mapping::spanned(Ok(0), 4096, &"empty".to_string())
        .expect_err("a zero-byte artifact does not map");
    match fault {
        Fault::Mapped { step: Step::Size, file, reason } => {
            assert_eq!(file, "empty");
            let said = reason.text();
            assert!(said.contains("holds no bytes"), "the refusal says why: {said}");
        }
        other => panic!("{other:?}"),
    }
}

#[test]
fn a_mapping_spans_whole_pages() {
    let named = "artifact".to_string();
    assert!(matches!(Mapping::spanned(Ok(1), 4096, &named), Ok((1, 4096))));
    assert!(matches!(Mapping::spanned(Ok(4096), 4096, &named), Ok((4096, 4096))));
    assert!(matches!(Mapping::spanned(Ok(4097), 4096, &named), Ok((4097, 8192))));
    assert!(matches!(
        Mapping::spanned(Ok(u64::MAX), 4096, &named),
        Err(Fault::Mapped { step: Step::Size, reason: Unmapped::TooLong(u64::MAX), .. })
    ));
    assert!(matches!(
        Mapping::spanned(Err("gone".to_string()), 4096, &named),
        Err(Fault::Mapped { step: Step::Stat, reason: Unmapped::Said(why), .. }) if why == "gone"
    ));
    assert_eq!((page(16384), page(0), page(-1)), (16384, 4096, 4096));
}

#[test]
fn a_mapping_is_where_it_was_placed() {
    let map = Mapping::of_file(10, 4096, Answer::At(77), "artifact".to_string()).unwrap();
    assert_eq!((map.at, map.len(), map.span(), map.is_empty()), (77, 10, 4096, false));
    assert_eq!(map.path(), "artifact");
    assert!(matches!(
        Mapping::of_file(10, 4096, Answer::Null, "artifact".to_string()),
        Err(Fault::Mapped { step: Step::Place, reason: Unmapped::Null, .. })
    ));
    assert!(matches!(
        Mapping::of_file(10, 4096, Answer::Failed("no".to_string()), "artifact".to_string()),
        Err(Fault::Mapped { step: Step::Place, reason: Unmapped::Said(_), .. })
    ));
    let source = Source::artifact(&map, Some(8), Some(1), Default::default());
    assert_eq!((source.len(), source.backing()), (10, Some((8, 1))));
    assert_eq!(source.get(3, 7), Some((3, 10)));
    assert_eq!(source.get(4, 7), None);
    assert_eq!(source.get(usize::MAX, 1), None);
}

#[test]
fn a_span_outside_the_reservation_is_refused() {
    let buffer = Buffer { bytes: 100 };
    assert!(buffer.span(90, 10).is_ok());
    assert!(buffer.span(100, 0).is_ok());
    assert!(matches!(
        buffer.span(91, 10),
        Err(Fault::Ceiling { what: What::Reservation, need: 101, have: 100 })
    ));
    assert!(matches!(
        buffer.span(u64::MAX, 1),
        Err(Fault::Ceiling { need: u64::MAX, have: 100, .. })
    ));
    assert_eq!(buffer.address_at(1000, 100), Some(1100));
    assert_eq!(buffer.address_at(1000, 101), None);
    assert_eq!(buffer.address_at(u64::MAX, 1), None);
}

#[test]
fn copies_are_checked_before_they_are_made() {
    let buffer = Buffer { bytes: 100 };
    let inside = vec![(0, 95, 5), (95, 0, 5)];
    let past = vec![(0, 95, 5), (0, 96, 5)];
    assert!(buffer.copier(&inside).is_ok());
    assert!(matches!(
        buffer.copier(&past),
        Err(Fault::Ceiling { need: 101, .. })
    ));
    // A file's offsets are not the reservation's.
    assert!(buffer.file_writer(&past).is_ok());
    assert!(buffer.file_writer(&vec![(96, 0, 5)]).is_err());
}

#[test]
fn jobs_are_shared_out_evenly() {
    assert_eq!(share(10, 4), 3);
    assert_eq!(share(12, 4), 3);
    assert_eq!(share(3, 16), 1);
    assert_eq!(share(5, 0), 5);
}

#[test]
fn a_read_goes_on_until_it_is_done() {
    assert!(matches!(next_read(10, 5, 0), Ok(Some((5, 10)))));
    assert!(matches!(next_read(10, 5, 5), Ok(None)));
    assert!(matches!(next_read(0, 3 << 30, 1 << 30), Ok(Some((want, 0x4000_0000)))
        if want as u64 == READ_MOST));
    assert!(matches!(
        next_read(i64::MAX as u64, 5, 1),
        Err(Fault::Residency(Refusal::OffsetTooFar { at: 0x8000_0000_0000_0000 }))
    ));
    assert!(matches!(read_got(10, 5, 1, 4, Got::Bytes(3)), Ok(4)));
    assert!(matches!(
        read_got(10, 5, 1, 4, Got::Bytes(0)),
        Err(Fault::Residency(Refusal::EndOfFile { at: 11, short: 4 }))
    ));
    assert!(matches!(
        read_got(10, 5, 1, 4, Got::Failed("bad sector".to_string())),
        Err(Fault::Residency(Refusal::ReadFailed { want: 4, at: 11, why })) if why == "bad sector"
    ));
}

#[test]
fn the_heater_is_off_until_asked_for() {
    assert!(heater::wanted(&unsaid()).is_none());
    for said in ["0", "off", " False", "no", "warm", "-1", ""] {
        assert!(heater::wanted(&Words { on: word(said), ..unsaid() }).is_none(), "{said}");
    }
    let on = heater::wanted(&Words { on: word("ON"), ..unsaid() }).unwrap();
    assert_eq!(on.kernel, Kernel::Alu { threads: 1024, iters: 8192 });
    assert_eq!((on.inflight, on.always), (2, true));
    let sized = heater::wanted(&Words { on: word("32"), ..unsaid() }).unwrap();
    assert_eq!(sized.kernel, Kernel::Mem { mib: 32 });
    assert!(!sized.always);
    let said = heater::wanted(&Words {
        on: word("auto"),
        inflight: word("3"),
        arm: word("reads"),
        kernel: word("Spin"),
        alu_threads: word("64"),
        alu_iters: word("99999999999"),
        log: Some(b"heat.csv".to_vec()),
    })
    .unwrap();
    assert_eq!(said.kernel, Kernel::Spin { threads: 64, iters: u32::MAX });
    assert_eq!((said.inflight, said.always), (3, false));
    assert_eq!(said.log, Some(b"heat.csv".to_vec()));
    let mem = Words { on: word("on"), kernel: word("mem"), inflight: word("0"), ..unsaid() };
    let mem = heater::wanted(&mem).unwrap();
    assert_eq!((mem.kernel, mem.inflight), (Kernel::Mem { mib: 16 }, 2));
}

fn config(kernel: Kernel) -> Config {
    Config { kernel, inflight: 2, always: true, log: None }
}

#[test]
fn a_pause_takes_back_what_arming_gave() {
    let spin = config(Kernel::Spin { threads: 1, iters: 1 });
    let mut shared = Some(Shared::new(&spin));
    assert!(running(&shared) && always(&shared));
    assert!(arm(&mut shared));
    assert!(!arm(&mut shared));
    assert!(shared.as_ref().unwrap().armed);
    pause(&mut shared);
    assert!(!shared.as_ref().unwrap().armed);
    let mut none = None;
    assert!(!arm(&mut none));
    pause(&mut none);
    assert!(!running(&none) && !always(&none));
}

#[test]
fn a_window_closes_with_every_kernel_landed() {
    let mut burner = Burner::new(2);
    assert_eq!(burner.step(false, false), Action::Sleep);
    assert_eq!(burner.step(true, false), Action::Begin);
    assert_eq!(burner.step(true, false), Action::Fire);
    assert!(!burner.fire(true));
    assert_eq!(burner.step(true, false), Action::Fire);
    assert!(!burner.fire(true));
    assert_eq!(burner.step(true, false), Action::Await);
    burner.land();
    // Paused: what is queued lands, and nothing more is queued.
    assert_eq!(burner.step(false, false), Action::Await);
    burner.land();
    assert_eq!(burner.step(false, false), Action::Close(2));
    assert_eq!(burner.step(false, true), Action::Leave);
}

#[test]
fn a_kernel_the_device_refuses_stops_the_heater() {
    let mut burner = Burner::new(1);
    burner.step(true, false);
    assert_eq!(burner.step(true, false), Action::Fire);
    assert!(burner.fire(false));
    assert_eq!(burner.step(true, true), Action::Again);
    assert_eq!(burner.step(true, true), Action::Close(0));
}

#[test]
fn kernels_have_their_shapes() {
    assert_eq!(shape(Kernel::Mem { mib: 16 }), (16 << 20, None));
    assert_eq!(shape(Kernel::Alu { threads: 1024, iters: 9 }), (4096, Some(9)));
    assert_eq!(shape(Kernel::Spin { threads: 3, iters: 4 }), (12, Some(4)));
}

#[test]
fn starting_says_what_it_came_to() {
    let asked = Some(config(Kernel::Mem { mib: 16 }));
    let shared = Some(Shared::new(asked.as_ref().unwrap()));
    assert!(heater::start(&None, &asked).is_none());
    let off = heater::start(&None, &None).unwrap();
    assert_eq!(
        off.text(),
        "heater off (`PIE_METAL_HEATER=<MiB>` holds the clock up through long reads)"
    );
    assert_eq!(heater::start(&shared, &asked).unwrap().text(), "heater already running");
    assert_eq!(
        heater::Started::Refused("no device".to_string()).text(),
        "heater not started: no device"
    );
    assert_eq!(
        heater::Started::On(Kernel::Mem { mib: 16 }, 2, false, word("heat.csv")).text(),
        "heater on: 16 MiB scale x 2 in flight, armed after a read, logged to heat.csv"
    );
    assert_eq!(
        heater::Started::On(Kernel::Spin { threads: 8, iters: 9 }, 1, true, None).text(),
        "heater on: 8 threads spinning up to 9 x 256 FMAs x 1 in flight, armed at every gap"
    );
}

#[test]
fn the_spinner_is_off_until_asked_for() {
    assert!(!spinner::wanted(&None));
    assert!(!spinner::wanted(&word("off")));
    assert!(spinner::wanted(&word("1")));
    assert!(spinner::start(true, false).is_none());
    assert_eq!(
        spinner::start(false, false).unwrap().text(),
        "cpu heater off (`PIE_METAL_CPU_HEATER=1` keeps the host awake between reads)"
    );
    assert_eq!(spinner::start(true, true).unwrap().text(), "cpu heater already running");
    assert_eq!(
        spinner::Started::On.text(),
        "cpu heater on: one thread spinning for the load's life"
    );
}
