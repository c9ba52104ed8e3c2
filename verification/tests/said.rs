use engine_metal::doubles::{say_amount, say_percent, GIB, MIB, MS};
use engine_metal::experts::fire::CacheReport;
use engine_metal::experts::landing::source_span;
use engine_metal::experts::plan::Word;
use engine_metal::experts::tally::{CutRecord, FireRecord, Tally};
use engine_metal::fault::{Fault, Flight, Name, Refusal, Step, Unmapped, What, Why};
use engine_metal::ids::{dump_rows, id_at, push_word, read_rows, routing_span};

fn report() -> CacheReport {
    CacheReport {
        policy: Word::Budget(3 << 29),
        slots: 3,
        pairs: 8,
        per_slot: 3 << 19,
        resident: 2,
        distinct: 5,
        hits: 2,
        misses: 1,
        bytes_read: 1 << 28,
        segments: 4,
        copy_ns: 1_250_000,
        wait_ns: 49_999,
        gpu_ns: 50_001,
        ring_fills: 0,
        ring_copied: 1,
        ring_read: 2,
        ring_bytes: 1 << 30,
        ring_wait_ns: 2_000_000,
    }
}

#[test]
fn a_report_says_what_the_pool_did() {
    let said = "expert-cache: 3 seats x 1.50 MiB (0.00 GiB) over 8 (layer, expert) pairs [budget \
                1.50 GiB]; 2 resident, 5 distinct ever seated; 2 hits / 1 misses (66.7% hit) \
                across 4 segments; 0.250 GiB read from disk (1.2 ms copying, 0.0 ms waiting on \
                the device, 0.1 ms of device time in the cut frames)";
    assert_eq!(report().text(), said);
    assert_eq!(
        CacheReport { ring_fills: 6, ..report() }.text(),
        format!(
            "{said}; prefill ring: 6 fills, 1 experts copied from seats, 2 read (1.000 GiB), 2.0 \
             ms waited for a fill"
        )
    );
    let idle = CacheReport { hits: 0, misses: 0, ..report() }.text();
    assert!(idle.contains("0 hits / 0 misses (0.0% hit)"));
}

#[test]
fn every_policy_has_its_word() {
    assert_eq!(Word::Off.text(), "off: every expert resident");
    assert_eq!(Word::Whole.text(), "budget holds the plan whole");
    assert_eq!(Word::Dense.text(), "no routed experts in this plan");
    assert_eq!(Word::Slots(7).text(), "PIE_EXPERT_CACHE=7");
    assert_eq!(
        Word::Auto { free: 9 << 30, headroom: 4 << 30, dense: 1 << 29 }.text(),
        "auto: free 9.00 GiB - headroom 4.00 GiB - dense 0.50 GiB"
    );
}

#[test]
fn amounts_are_said_as_doubles_print() {
    for (n, of, d) in [
        (0, MIB, 2),
        (1, MIB, 2),
        (5243, MIB, 2),
        (1_250_000, MS, 1),
        (1_350_000, MS, 1),
        (999_950_000, MS, 1),
        (1_000_499_999, MS, 3),
        (u64::MAX, GIB, 2),
        (u64::MAX, GIB, 3),
        (9_007_199_254_740_993, MS, 3),
        (123_456_789_012_345_678, MS, 1),
    ] {
        let mut said = String::new();
        say_amount(&mut said, n, of, d);
        assert_eq!(said, format!("{:.*}", d as usize, n as f64 / of as f64), "{n}");
    }
}

#[test]
fn percents_are_said_as_doubles_print() {
    for (part, whole) in [
        (0, 1),
        (1, 3),
        (2, 3),
        (1, 8),
        (1, 16),
        (999, 1000),
        (9995, 10000),
        (1, 1),
        (1_234_567, 7_654_321),
        (184_467_440_737_095_516, u64::MAX),
    ] {
        let mut said = String::new();
        say_percent(&mut said, part, whole);
        assert_eq!(said, format!("{:.1}", part as f64 * 100.0 / whole as f64), "{part}/{whole}");
    }
}

#[test]
fn records_are_said_as_lines() {
    let fire = FireRecord {
        rows: 1,
        cuts: 2,
        copies: 3,
        hits: 4,
        misses: 5,
        bytes_read: 6,
        cut_ns: 7_000_000,
        copy_ns: 8_500,
        wait_ns: 9_499,
        walk_ns: 1_234_567,
        gpu_cut_ns: 0,
        gpu_tail_ns: 10_000_500,
        ple_ns: 2_000,
        ple_reads: 11,
        ple_prefetch_misses: 12,
        t_ns: 13_000_000_000,
    };
    assert_eq!(
        fire.line(14),
        "14,1,2,3,4,5,6,7.000,0.009,0.009,1.235,0.000,10.001,13000.000,0.002,11,12"
    );
    let cut = CutRecord {
        fire: 1,
        group: 2,
        rows: 3,
        misses: 4,
        hits: 5,
        copies: 6,
        bytes_read: 7,
        copy_ns: 8_000_000,
        wait_ns: 500_000,
        gpu_ns: 1_000,
        cut_ns: 0,
    };
    assert_eq!(cut.line(), "1,2,3,4,5,6,7,8.000,0.500,0.001,0.000");
}

#[test]
fn a_walk_is_said_by_way_of_seconds() {
    let zero = FireRecord {
        rows: 0,
        cuts: 0,
        copies: 0,
        hits: 0,
        misses: 0,
        bytes_read: 0,
        cut_ns: 0,
        copy_ns: 0,
        wait_ns: 0,
        walk_ns: 0,
        gpu_cut_ns: 0,
        gpu_tail_ns: 0,
        ple_ns: 0,
        ple_reads: 0,
        ple_prefetch_misses: 0,
        t_ns: 0,
    };
    let said = |ns: u64| {
        let fire = FireRecord { wait_ns: ns, walk_ns: ns, t_ns: ns, ..zero };
        let line = fire.line(0);
        let cells: Vec<String> = line.split(',').map(|cell| cell.to_string()).collect();
        let trace = fire.trace();
        let walk = trace.rsplit("walk ").next().unwrap().to_string();
        (cells[9].clone(), cells[10].clone(), cells[13].clone(), walk)
    };
    let (wait, walk, opened, _) = said(4_500);
    assert_eq!((wait.as_str(), walk.as_str(), opened.as_str()), ("0.004", "0.005", "0.005"));
    let mut ns: u64 = 1;
    for _ in 0..4_000 {
        ns = ns.wrapping_mul(6_364_136_223_846_793_005).wrapping_add(1_442_695_040_888_963_407);
        for span in [ns, ns >> 20, ns >> 33, ns >> 44, (ns >> 50) * 500, (ns >> 24) / 1_000_000_000 * 1_000_000_000 + 1] {
            let ms = std::time::Duration::from_nanos(span).as_secs_f64() * 1e3;
            let (_, walk, opened, trace) = said(span);
            assert_eq!(walk, format!("{ms:.3}"), "{span}");
            assert_eq!(opened, walk);
            assert_eq!(trace, format!("{ms:.1} ms"), "{span}");
        }
    }
    assert_eq!(said(u64::MAX).1, format!("{:.3}", std::time::Duration::from_nanos(u64::MAX).as_secs_f64() * 1e3));
}

#[test]
fn records_of_a_run_add_up_to_the_counters() {
    let mut tally = Tally::new(0);
    let mut sums = [0u64; 5];
    for fire in 1..=5u64 {
        if fire % 2 == 1 {
            tally.open(fire * 10);
        }
        tally.segments += fire;
        tally.swaps += 2 * fire;
        tally.hits += 3;
        tally.misses += fire * fire;
        tally.bytes_read += 100 + fire;
        tally.rows_read += fire;
        tally.rows_missed += 1;
        let record = tally.close(1, 0);
        let said =
            [record.cuts, record.copies, record.hits, record.misses, record.bytes_read];
        for (sum, slice) in sums.iter_mut().zip(said) {
            *sum += slice;
        }
        assert_eq!((record.ple_reads, record.ple_prefetch_misses), (fire, 1));
        assert_eq!((tally.rows_read, tally.rows_missed), (0, 0));
        assert_eq!(
            sums,
            [tally.segments, tally.swaps, tally.hits, tally.misses, tally.bytes_read]
        );
        assert_eq!(tally.fires(), fire);
    }
}

#[test]
fn faults_are_said_in_words() {
    assert_eq!(Unmapped::Empty.text(), "the artifact holds no bytes");
    assert_eq!(Unmapped::Said("gone".to_string()).text(), "gone");
    assert_eq!(Name::Param("up".to_string()).text(), "up");
    assert!(Name::Value(3).text().contains('3'));
    assert!(Step::Open.text() != Step::Stat.text());
    assert_eq!(What::SeatSource.text(), "bytes of the seat source");
    assert!(!Why::BandShape.text().is_empty());
    for reader in [Flight::Experts, Flight::Ring, Flight::Rows] {
        assert!(Refusal::ReaderPanicked { reader }.text().ends_with("thread panicked"));
    }
    assert_eq!(
        Refusal::TwoRouters { region: 2, first: 3, second: 4 }.text().contains('2'),
        true
    );
}

#[test]
fn a_copy_beyond_its_source_is_refused() {
    assert!(matches!(source_span(10, 5, 15), Ok((10, 15))));
    assert!(matches!(
        source_span(10, 6, 15),
        Err(Fault::Ceiling { what: What::SeatSource, need: 16, have: 15 })
    ));
}

#[test]
fn words_read_back_as_they_were_laid() {
    let mut raw = Vec::new();
    for word in [0, 1, u32::MAX, 1 << 31, 0x0102_0304] {
        push_word(&mut raw, word);
    }
    assert_eq!(raw[16..], [4, 3, 2, 1]);
    let ids: Vec<i32> = (0..5).map(|i| id_at(&raw, i)).collect();
    assert_eq!(ids, vec![0, 1, -1, i32::MIN, 0x0102_0304]);
    assert_eq!(read_rows(&raw, 2), vec![vec![0, 1], vec![-1, i32::MIN]]);
}

#[test]
fn a_routing_vector_is_read_where_its_rows_start() {
    assert_eq!(routing_span(100, 3, 2, 8), (100 + 3 * 8 * 4, 2 * 8 * 4));
}

#[test]
fn rows_are_dumped_as_text() {
    let mut raw = Vec::new();
    for id in [5, -1, 7, i32::MIN] {
        push_word(&mut raw, id as u32);
    }
    assert_eq!(dump_rows(3, &raw, 2), "3\t5 -1\n3\t7 -2147483648\n");
}
