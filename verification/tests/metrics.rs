use beecrab::chunks::chunks;
use beecrab::core_metrics;
use beecrab::lines::lines_readable;
use beecrab::metrics::{Aggregate, Metrics};
use beecrab::{compute_metrics, render_metrics};

fn report_of(input: &[u8]) -> String {
    let mut metrics = Metrics::new();
    metrics.compute(input);
    String::from_utf8(metrics.render()).unwrap()
}

#[test]
fn aggregate_new_and_update() {
    let mut a = Aggregate::new(-15);
    assert_eq!(a, Aggregate { min: -15, max: -15, sum: -15, count: 1 });
    a.update(30);
    a.update(-40);
    assert_eq!(a, Aggregate { min: -40, max: 30, sum: -25, count: 3 });
}

#[test]
fn aggregate_extend_merges() {
    let mut a = Aggregate::new(10);
    a.extend_one(Aggregate { min: -5, max: 7, sum: 2, count: 2 });
    assert_eq!(a, Aggregate { min: -5, max: 10, sum: 12, count: 3 });
    let mut b = Aggregate::new(0);
    b.extend(vec![Aggregate::new(3), Aggregate::new(-3), Aggregate::new(9)]);
    assert_eq!(b, Aggregate { min: -3, max: 9, sum: 9, count: 4 });
}

#[test]
fn empty_metrics_render_empty_braces() {
    assert_eq!(String::from_utf8(Metrics::new().render()).unwrap(), "{}\n");
}

#[test]
fn renders_sorted_stations_with_rounded_means() {
    let input = b"Hamburg;12.0\nBulawayo;8.9\nPalembang;38.8\nHamburg;34.2\n";
    assert_eq!(
        report_of(input),
        "{Bulawayo=8.9/8.9/8.9, Hamburg=12.0/23.1/34.2, Palembang=38.8/38.8/38.8}\n"
    );
}

#[test]
fn negative_means_round_half_up() {
    // -0.1 and -0.2: the mean -0.15 rounds up to -0.1
    let input = b"x;-0.1\nx;-0.2\n";
    assert_eq!(report_of(input), "{x=-0.2/-0.1/-0.1}\n");
    // -0.1 and -0.4: the mean -0.25 rounds up to -0.2
    assert_eq!(report_of(b"y;-0.1\ny;-0.4\n"), "{y=-0.4/-0.2/-0.1}\n");
}

#[test]
fn bytes_after_the_last_newline_are_not_read() {
    assert_eq!(report_of(b"a;1.0\nb;2.0"), "{a=1.0/1.0/1.0}\n");
}

#[test]
fn station_is_everything_before_the_last_semicolon() {
    assert_eq!(report_of(b"a;b;-5.5\n"), "{a;b=-5.5/-5.5/-5.5}\n");
}

#[test]
fn stations_sort_by_bytes() {
    let input = "Zürich;1.0\nAbéché;2.0\nab;3.0\nA;4.0\n".as_bytes();
    assert_eq!(
        report_of(input),
        "{A=4.0/4.0/4.0, Abéché=2.0/2.0/2.0, Zürich=1.0/1.0/1.0, ab=3.0/3.0/3.0}\n"
    );
}

#[test]
fn computing_in_pieces_matches_computing_at_once() {
    let input = b"a;1.0\nb;-2.5\na;3.5\nc;0.0\nb;7.1\n";
    let mut whole = Metrics::new();
    whole.compute(input);
    let mut pieces = Metrics::new();
    pieces.compute(&input[..13]);
    pieces.compute(&input[13..]);
    assert_eq!(whole.render(), pieces.render());
}

#[test]
fn merging_chunk_metrics_matches_computing_at_once() {
    let input: &[u8] = b"a;1.0\nb;-2.5\na;3.5\nc;0.0\nb;7.1\nd;9.9\na;-9.9\n";
    let mut whole = Metrics::new();
    whole.compute(input);
    let mut parts = Vec::new();
    for range in chunks(input, 3) {
        let mut part = Metrics::new();
        part.compute(&input[range]);
        parts.push(part);
    }
    let mut merged = Metrics::new();
    merged.extend(parts);
    let expected = "{a=-9.9/-1.8/3.5, b=-2.5/2.3/7.1, c=0.0/0.0/0.0, d=9.9/9.9/9.9}\n";
    assert_eq!(String::from_utf8(whole.render()).unwrap(), expected);
    assert_eq!(String::from_utf8(merged.render()).unwrap(), expected);
}

#[test]
fn extend_one_merges_a_single_metrics() {
    let mut first = Metrics::new();
    first.compute(b"a;1.0\nb;2.0\n");
    let mut second = Metrics::new();
    second.compute(b"b;4.0\nc;5.0\n");
    first.extend_one(second);
    assert_eq!(
        String::from_utf8(first.render()).unwrap(),
        "{a=1.0/1.0/1.0, b=2.0/3.0/4.0, c=5.0/5.0/5.0}\n"
    );
}

#[test]
fn readable_lines() {
    assert!(lines_readable(b"a;1.0\nb;-2.5\ntrailing"));
    assert!(!lines_readable(b"a;1.0\nno separator\n"));
    assert!(!lines_readable(b"a;1\n"));
    assert!(lines_readable(b""));
}

#[test]
fn compute_metrics_starts_empty() {
    let metrics = compute_metrics(b"a;1.0\n");
    assert!(metrics.is_empty());
}

#[test]
fn core_metrics_new_and_update() {
    let mut m = core_metrics::Metrics::new(20);
    m.update(-10);
    assert_eq!(m, core_metrics::Metrics { min: -10, max: 20, sum: 10, count: 2 });
}

#[test]
fn render_metrics_truncates_means() {
    let entries: Vec<(&[u8], core_metrics::Metrics)> = vec![
        (b"b", core_metrics::Metrics { min: -10, max: -5, sum: -15, count: 2 }),
        (b"a", core_metrics::Metrics { min: 1, max: 2, sum: 3, count: 2 }),
    ];
    assert_eq!(
        String::from_utf8(render_metrics(&entries)).unwrap(),
        "{a=0.1/0.1/0.2, b=-1.0/-0.7/-0.5}\n"
    );
}

#[test]
fn long_input_is_read_in_blocks_and_tail() {
    // 70 lines of 11 bytes: many 32-byte blocks, with separators at every offset
    let mut input = Vec::new();
    for i in 0..70 {
        let station = [b'a' + (i % 5) as u8, b'b', b'c'];
        input.extend_from_slice(&station);
        input.push(b';');
        let t = (i * 7) % 100;
        input.extend_from_slice(format!("{}.{}", t / 10, t % 10).as_bytes());
        input.push(b'\n');
    }
    let mut expected: Vec<(Vec<u8>, i64, i64, i64)> = Vec::new();
    for s in 0..5u8 {
        let temps: Vec<i64> = (0..70).filter(|i| i % 5 == s as i64).map(|i| (i * 7) % 100).collect();
        let sum: i64 = temps.iter().sum();
        let count = temps.len() as i64;
        let mean = (2 * sum + count).div_euclid(2 * count);
        expected.push((vec![b'a' + s, b'b', b'c'], *temps.iter().min().unwrap(), mean, *temps.iter().max().unwrap()));
    }
    let rows: Vec<String> = expected
        .iter()
        .map(|(st, mi, me, ma)| {
            format!(
                "{}={}.{}/{}.{}/{}.{}",
                String::from_utf8(st.clone()).unwrap(),
                mi / 10,
                mi % 10,
                me / 10,
                me % 10,
                ma / 10,
                ma % 10
            )
        })
        .collect();
    assert_eq!(report_of(&input), format!("{{{}}}\n", rows.join(", ")));
}
