use bench_plots::bench_id::BenchId;
use bench_plots::json::{BenchData, BenchResult};
use bench_plots::plot::{sort_points, Plot, Plots, Point, XAxisRange, YAxisRange};
use bench_plots::time::{str_to_datetime, Timestamp};

fn data(group: &str, name: &str, params: &str, t: f64) -> BenchData {
    BenchData {
        id: BenchId { group_name: group.to_string(), bench_name: name.to_string(), params: params.to_string() },
        result: BenchResult { time: t.to_bits() },
    }
}

fn plot<'a>(s: &'a Plots, g: &str) -> &'a Plot {
    &s.groups.iter().find(|e| e.0 == g).unwrap().1
}

fn series(s: &Plots, g: &str, p: &str) -> Vec<(i64, f64)> {
    plot(s, g).lines.iter().find(|e| e.0 == p).unwrap().1.iter().map(|q| (q.x.secs, f64::from_bits(q.y))).collect()
}

const A: &str = "28db40f:2024-01-30T19:07:04-05:00";
const B: &str = "1111111:2024-02-01T10:00:00Z";
const C: &str = "2222222:2024-01-15T00:00:00Z";

#[test]
fn commit_time_drops_eight_characters() {
    let t = str_to_datetime(A).unwrap();
    assert_eq!(t, Timestamp { secs: 1706659624, nanos: 0 });
    assert!(str_to_datetime("short").is_none());
    assert!(str_to_datetime("28db40f:not a time").is_none());
}

#[test]
fn ingest_sorts_and_sets_ranges() {
    let mut s = Plots::new();
    let r = s.add_data(&vec![data("G", B, "rc=1", 3.0), data("G", A, "rc=1", 5.0), data("G", C, "rc=2", 1.0)]);
    assert!(r.is_ok());
    assert_eq!(series(&s, "G", "rc=1"), vec![(1706659624, 5.0), (1706781600, 3.0)]);
    assert_eq!(series(&s, "G", "rc=2"), vec![(1705276800, 1.0)]);
    let p = plot(&s, "G");
    assert_eq!(p.x_axis.min.secs, 1705276800);
    assert_eq!(p.x_axis.max.secs, 1706781600);
    assert_eq!(f64::from_bits(p.y_axis.min), 1.0);
    assert_eq!(f64::from_bits(p.y_axis.max), 5.0);
}

#[test]
fn batches_give_the_same_series() {
    let (a, b, c) = (data("G", A, "p", 2.0), data("G", B, "p", 1.0), data("G", C, "p", 4.0));
    let mut s1 = Plots::new();
    s1.add_data(&vec![a, b]).ok().unwrap();
    s1.add_data(&vec![c]).ok().unwrap();
    let mut s2 = Plots::new();
    let (a, b, c) = (data("G", A, "p", 2.0), data("G", B, "p", 1.0), data("G", C, "p", 4.0));
    s2.add_data(&vec![a, b, c]).ok().unwrap();
    assert_eq!(series(&s1, "G", "p"), series(&s2, "G", "p"));
    assert_eq!(plot(&s1, "G").y_axis.min, plot(&s2, "G").y_axis.min);
    assert_eq!(plot(&s1, "G").x_axis.max, plot(&s2, "G").x_axis.max);
}

#[test]
fn same_record_twice_gives_two_points() {
    let mut s = Plots::new();
    s.add_data(&vec![data("G", A, "p", 2.0)]).ok().unwrap();
    s.add_data(&vec![data("G", A, "p", 2.0)]).ok().unwrap();
    assert_eq!(series(&s, "G", "p"), vec![(1706659624, 2.0), (1706659624, 2.0)]);
}

#[test]
fn bad_timestamp_leaves_store_unchanged() {
    let mut s = Plots::new();
    s.add_data(&vec![data("G", A, "p", 2.0)]).ok().unwrap();
    let e = s.add_data(&vec![data("G", B, "p", 1.0), data("H", "oops", "p", 1.0)]).err().unwrap();
    assert_eq!(e.record, 1);
    assert_eq!(s.groups.len(), 1);
    assert_eq!(series(&s, "G", "p"), vec![(1706659624, 2.0)]);
}

#[test]
fn groups_are_kept_apart() {
    let mut s = Plots::new();
    s.add_data(&vec![data("G", A, "p", 2.0), data("H", B, "p", 7.0), data("G", B, "q", -1.0)]).ok().unwrap();
    assert_eq!(s.groups.len(), 2);
    assert_eq!(plot(&s, "G").lines.len(), 2);
    assert_eq!(f64::from_bits(plot(&s, "G").y_axis.min), -1.0);
    assert_eq!(f64::from_bits(plot(&s, "H").y_axis.max), 7.0);
    assert_eq!(series(&s, "H", "p"), vec![(1706781600, 7.0)]);
}

#[test]
fn points_order_by_time_then_value() {
    let t = Timestamp { secs: 10, nanos: 0 };
    let u = Timestamp { secs: 10, nanos: 5 };
    let mut v = vec![
        Point { x: u, y: 1.0f64.to_bits() },
        Point { x: t, y: 3.0f64.to_bits() },
        Point { x: t, y: (-2.0f64).to_bits() },
        Point { x: t, y: 0.5f64.to_bits() },
    ];
    sort_points(&mut v);
    let got: Vec<(u32, f64)> = v.iter().map(|p| (p.x.nanos, f64::from_bits(p.y))).collect();
    assert_eq!(got, vec![(0, -2.0), (0, 0.5), (0, 3.0), (5, 1.0)]);
}

#[test]
fn ranges_start_inverted() {
    let mut x = XAxisRange::default();
    x.set_min_max(Timestamp { secs: 5, nanos: 1 });
    assert_eq!(x.min, Timestamp { secs: 5, nanos: 1 });
    assert_eq!(x.max, Timestamp { secs: 5, nanos: 1 });
    x.set_min_max(Timestamp { secs: -3, nanos: 0 });
    assert_eq!(x.min.secs, -3);
    assert_eq!(x.max.secs, 5);
    let mut y = YAxisRange::default();
    assert_eq!(f64::from_bits(y.min), f64::MAX);
    assert_eq!(f64::from_bits(y.max), f64::MIN);
    y.set_min_max((-0.25f64).to_bits());
    assert_eq!(f64::from_bits(y.min), -0.25);
    assert_eq!(f64::from_bits(y.max), -0.25);
    y.set_min_max(8.0f64.to_bits());
    y.set_min_max((-9.0f64).to_bits());
    assert_eq!(f64::from_bits(y.min), -9.0);
    assert_eq!(f64::from_bits(y.max), 8.0);
}

#[test]
fn add_points_uses_the_given_times() {
    let mut s = Plots::new();
    let recs = vec![data("G", "no time here", "p", 4.0), data("G", "nor here", "p", 1.5)];
    let times = vec![Timestamp { secs: 200, nanos: 0 }, Timestamp { secs: 100, nanos: 7 }];
    s.add_points(&recs, &times);
    let p = plot(&s, "G");
    let got: Vec<(i64, u32, f64)> =
        p.lines[0].1.iter().map(|q| (q.x.secs, q.x.nanos, f64::from_bits(q.y))).collect();
    assert_eq!(got, vec![(100, 7, 1.5), (200, 0, 4.0)]);
    assert_eq!(p.x_axis.min, Timestamp { secs: 100, nanos: 7 });
    assert_eq!(p.x_axis.max, Timestamp { secs: 200, nanos: 0 });
    assert_eq!(f64::from_bits(p.y_axis.min), 1.5);
    assert_eq!(f64::from_bits(p.y_axis.max), 4.0);
}
