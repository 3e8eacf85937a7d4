use tmto_tables::chain::build_chain;
use tmto_tables::reduction::DOMAIN;
use tmto_tables::table::{build_table, new_table, Chain, Table};
use tmto_tables::text::{artifact_name, parse_table, render_table};

fn pairs(t: &Table) -> Vec<(u64, u64)> {
    t.chains.iter().map(|c| (c.start, c.end)).collect()
}

#[test]
fn table_starts_are_consecutive_modulo_domain() {
    let t = build_table(DOMAIN - 2, 4, 2, 3);
    assert_eq!(t.reduction, 3);
    assert_eq!(t.ncolumns, 2);
    assert_eq!(t.nchains(), 4);
    assert_eq!(
        pairs(&t),
        vec![
            (274877906941, 207497244259),
            (274877906942, 256183677550),
            (0, 247882930438),
            (1, 45826586076),
        ]
    );
}

#[test]
fn table_chain_ends_match_chain_builder() {
    let t = build_table(1000, 5, 3, 9);
    for (i, c) in t.chains.iter().enumerate() {
        assert_eq!(c.start, 1000 + i as u64);
        assert_eq!(c.end, build_chain(c.start, 9, 3));
    }
}

#[test]
fn empty_table_has_no_chain() {
    let t = build_table(7, 0, 10, 1);
    assert_eq!(t.nchains(), 0);
    assert_eq!(render_table(&t), b"nchain: 0, ncolumns: 10, redu:1\n".to_vec());
}

#[test]
fn random_table_lies_in_domain() {
    let t = new_table(6, 2, 77);
    assert_eq!(t.nchains(), 6);
    let s0 = t.chains[0].start;
    for (i, c) in t.chains.iter().enumerate() {
        assert!(c.start < DOMAIN && c.end < DOMAIN);
        assert_eq!(c.start, (s0 + i as u64) % DOMAIN);
        assert_eq!(c.end, build_chain(c.start, 77, 2));
    }
}

#[test]
fn render_exact_text() {
    let t = Table {
        reduction: 7,
        ncolumns: 5,
        chains: vec![Chain { start: 1, end: 2 }, Chain { start: 30, end: 400 }],
    };
    let text = String::from_utf8(render_table(&t)).unwrap();
    assert_eq!(text, "nchain: 2, ncolumns: 5, redu:7\n1, 2\n30, 400\n");
}

#[test]
fn parse_round_trips_rendered_table() {
    let t = build_table(DOMAIN - 1, 3, 4, 255);
    let bytes = render_table(&t);
    let back = parse_table(&bytes).expect("a rendered table parses");
    assert_eq!(back.reduction, 255);
    assert_eq!(back.ncolumns, 4);
    assert_eq!(pairs(&back), pairs(&t));
}

#[test]
fn parse_round_trips_large_numbers() {
    let t = Table {
        reduction: 0,
        ncolumns: u64::MAX,
        chains: vec![Chain { start: u64::MAX, end: 0 }],
    };
    let back = parse_table(&render_table(&t)).unwrap();
    assert_eq!(back.ncolumns, u64::MAX);
    assert_eq!(pairs(&back), vec![(u64::MAX, 0)]);
}

#[test]
fn parse_rejects_malformed_text() {
    let bad: Vec<&[u8]> = vec![
        b"",
        b"nchain: 1, ncolumns: 5, redu:7\n",
        b"nchain: 1, ncolumns: 5, redu:7 \n1, 2\n",
        b"nchain: 1, ncolumns: 5, redu:7\n1, 2",
        b"nchain: 1, ncolumns: 5, redu:7\n01, 2\n",
        b"nchain: 1, ncolumns: 5, redu:256\n1, 2\n",
        b"nchain: 2, ncolumns: 5, redu:7\n1, 2\n",
        b"nchain: 1, ncolumns: 5, redu:7\n1,2\n",
        b"nchain: 1, ncolumns: 18446744073709551616, redu:7\n1, 2\n",
    ];
    for b in bad {
        assert!(parse_table(b).is_none(), "{:?}", String::from_utf8_lossy(b));
    }
}

#[test]
fn parse_accepts_hand_written_table() {
    let t = parse_table(b"nchain: 2, ncolumns: 5, redu:7\n1, 2\n30, 400\n").unwrap();
    assert_eq!(t.reduction, 7);
    assert_eq!(t.ncolumns, 5);
    assert_eq!(pairs(&t), vec![(1, 2), (30, 400)]);
}

#[test]
fn artifact_named_by_reduction() {
    assert_eq!(artifact_name(12), b"12.txt".to_vec());
    assert_eq!(artifact_name(0), b"0.txt".to_vec());
    assert_eq!(artifact_name(255), b"255.txt".to_vec());
}

#[test]
fn two_tables_three_chains_five_columns() {
    for r in [1u8, 2] {
        let t = new_table(3, 5, r);
        let text = String::from_utf8(render_table(&t)).unwrap();
        let lines: Vec<&str> = text.lines().collect();
        assert_eq!(lines.len(), 4);
        assert_eq!(lines[0], format!("nchain: 3, ncolumns: 5, redu:{}", r));
        for line in &lines[1..] {
            let parts: Vec<u64> = line.split(", ").map(|p| p.parse().unwrap()).collect();
            assert_eq!(parts.len(), 2);
            assert!(parts[0] < 274877906943 && parts[1] < 274877906943);
        }
    }
    assert_ne!(artifact_name(1), artifact_name(2));
}

#[test]
fn same_base_gives_identical_artifacts() {
    let a = render_table(&build_table(123456, 4, 6, 42));
    let b = render_table(&build_table(123456, 4, 6, 42));
    assert_eq!(a, b);
}
