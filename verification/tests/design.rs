//! Rules, verdicts, reports and the command line, in exact arithmetic.

use vyges_ant::check::is_unsettled;
use vyges_ant::cli::{parse, Command};
use vyges_ant::graph::LayerBox;
use vyges_ant::names::{insert_name, split_terminal};
use vyges_ant::report::{can_check, summarize};
use vyges_ant::{
    check_design, check_net, read_net, Exact, LayerInfo, LayerRules, NetAntenna, Pwl, Ratio,
    RegionExposure, Report, RoutedNet, RuleTable, Scalar, Terminal, Violation,
};

fn q(n: i128, d: i128) -> Exact {
    Exact::Value(n, d)
}

fn n(v: i64) -> Exact {
    Exact::of(v)
}

/// Equal as numbers, whatever the fractions.
fn same(a: Exact, b: Exact) -> bool {
    a.le(b) && b.le(a)
}

fn wire(layer: i64, x0: i32, x1: i32) -> LayerBox {
    LayerBox {
        layer,
        x0,
        y0: 0,
        x1,
        y1: 10,
        is_routing: true,
        from_via: false,
    }
}

fn cut(layer: i64, x0: i32, x1: i32) -> LayerBox {
    LayerBox {
        is_routing: false,
        from_via: true,
        ..wire(layer, x0, x1)
    }
}

fn terminal(name: &str, gate: Exact, diff: Exact, pin: LayerBox) -> Terminal<Exact> {
    Terminal {
        name: name.to_string(),
        gate_area_um2: gate,
        diff_area_um2: diff,
        pin_boxes: vec![pin],
    }
}

fn layers() -> Vec<LayerInfo> {
    vec![
        LayerInfo {
            number: 1,
            name: "met1".to_string(),
            thickness: 5,
        },
        LayerInfo {
            number: 3,
            name: "met2".to_string(),
            thickness: 0,
        },
    ]
}

fn par(limit: i64) -> LayerRules<Exact> {
    LayerRules {
        valid: true,
        par: n(limit),
        ..Default::default()
    }
}

fn table(pairs: Vec<(&str, LayerRules<Exact>)>) -> RuleTable<Exact> {
    let mut t = RuleTable::new();
    for (name, r) in pairs {
        t.insert(name.to_string(), r);
    }
    t
}

fn region(layer: &str, pins: &[&str], gate: i64, diff: i64, areas: [i64; 4]) -> RegionExposure<Exact> {
    RegionExposure {
        layer: layer.to_string(),
        layer_number: 1,
        pins: pins.iter().map(|p| p.to_string()).collect(),
        gate_area_um2: n(gate),
        diff_area_um2: n(diff),
        area_um2: n(areas[0]),
        side_area_um2: n(areas[1]),
        cum_area_um2: n(areas[2]),
        cum_side_area_um2: n(areas[3]),
    }
}

fn net(name: &str, regions: Vec<RegionExposure<Exact>>) -> NetAntenna<Exact> {
    NetAntenna {
        net: name.to_string(),
        diff_area_um2: n(0),
        regions,
        gates_unanchored: 0,
    }
}

fn check(na: &NetAntenna<Exact>, rules: &RuleTable<Exact>) -> Vec<Violation<Exact>> {
    let mut out = Vec::new();
    check_net(na, rules, &mut out);
    out
}

// ---- exact arithmetic -------------------------------------------------------------------------

#[test]
fn fractions_are_exact() {
    assert!(same(q(1, 3).plus(q(1, 6)), q(1, 2)));
    assert!(same(q(1, 3).minus(q(1, 2)), q(-1, 6)));
    assert!(same(q(2, 3).times(q(3, 4)), q(1, 2)));
    assert!(same(q(2, 3).over(q(4, 3)), q(1, 2)));
    assert!(same(q(2, 3).over(q(-4, 3)), q(-1, 2)));
    assert!(q(1, 3).lt(q(1, 2)));
    assert!(!q(1, 2).lt(q(2, 4)));
    assert!(q(1, 2).le(q(2, 4)));
    assert_eq!(Exact::zero(), q(0, 1));
    assert_eq!(Exact::one(), q(1, 1));
    assert_eq!(Exact::of(-7), q(-7, 1));
}

/// Results are in lowest terms, and sums are taken over the least common denominator.
#[test]
fn fractions_are_kept_small() {
    assert_eq!(q(1, 3).plus(q(1, 6)), q(1, 2));
    assert_eq!(q(6, 4).minus(q(1, 4)), q(5, 4));
    assert_eq!(q(-6, 4).times(q(2, 9)), q(-1, 3));
    assert_eq!(q(6, 4).over(q(-9, 2)), q(-1, 3));
    assert_eq!(q(0, 7).plus(q(0, 5)), q(0, 1));
    let tenth = q(1, 10_000_000_000);
    let mut sum = n(0);
    for _ in 0..100 {
        sum = sum.plus(tenth);
    }
    assert_eq!(sum, q(1, 100_000_000));
    let big = q(i128::MAX, 3);
    assert_eq!(big.times(q(3, i128::MAX)), n(1));
    assert_eq!(big.over(big), n(1));
    assert_eq!(big.minus(big), n(0));
}

/// Any two fractions compare, though their products would not fit.
#[test]
fn large_fractions_compare() {
    let m = i128::MAX;
    assert!(q(m - 1, m).lt(q(m, m - 1)));
    assert!(q(m - 2, m - 1).lt(q(m - 1, m)));
    assert!(!q(m - 1, m).lt(q(m - 2, m - 1)));
    assert!(q(-m, m - 1).lt(q(-(m - 1), m)));
    assert!(q(i128::MIN, m).lt(q(i128::MIN, m - 1)) == false);
    assert!(q(i128::MIN, m - 1).lt(q(i128::MIN, m)));
    assert!(q(m, m).le(n(1)) && n(1).le(q(m, m)));
    assert!(!q(1, 0).le(q(1, 0)) && !q(1, -1).lt(n(5)));
}

#[test]
fn what_is_undefined_compares_with_nothing() {
    let none = n(1).over(n(0));
    assert_eq!(none, Exact::Undefined);
    assert_eq!(none.plus(n(1)), Exact::Undefined);
    assert_eq!(n(1).minus(none), Exact::Undefined);
    assert_eq!(none.times(none), Exact::Undefined);
    assert_eq!(none.over(n(2)), Exact::Undefined);
    assert!(!none.lt(n(1)) && !n(1).lt(none) && !none.le(none));
    assert_eq!(q(i128::MAX, 1).plus(n(1)), Exact::Undefined);
    assert_eq!(q(i128::MAX, 1).times(n(2)), Exact::Undefined);
    assert_eq!(q(i128::MIN, 1).over(n(-1)), Exact::Undefined);
}

// ---- curves and rules -------------------------------------------------------------------------

#[test]
fn ratio_names() {
    assert_eq!(Ratio::Par.as_str(), "PAR");
    assert_eq!(Ratio::Car.as_str(), "CAR");
    assert_eq!(Ratio::Psr.as_str(), "PSR");
    assert_eq!(Ratio::Csr.as_str(), "CSR");
}

#[test]
fn curves_hold_interpolate_and_follow_the_last_slope() {
    let c = Pwl(vec![(n(0), n(100)), (n(10), n(200)), (n(20), n(600))]);
    assert!(!c.is_empty());
    assert!(same(c.eval(n(-5)).unwrap(), n(100)));
    assert!(same(c.eval(n(5)).unwrap(), n(150)));
    assert!(same(c.eval(n(10)).unwrap(), n(200)));
    assert!(same(c.eval(n(15)).unwrap(), n(400)));
    assert!(same(c.eval(n(20)).unwrap(), n(600)));
    assert!(same(c.eval(n(30)).unwrap(), n(1000)));
}

/// More diffusion never lowers what a rising curve permits, inside the table or past its end.
#[test]
fn a_rising_curve_never_falls() {
    let c = Pwl(vec![(n(0), n(4)), (q(1, 8), n(4)), (q(1, 4), n(26)), (n(22), n(116))]);
    let mut before = c.eval(n(-1)).unwrap();
    for k in 0..400 {
        let now = c.eval(q(k, 16)).unwrap();
        assert!(before.le(now), "fell at {k}/16");
        before = now;
    }
}

#[test]
fn steps_and_gaps_in_a_curve() {
    let step = Pwl(vec![(n(0), n(1)), (n(5), n(2)), (n(5), n(9)), (n(8), n(9))]);
    assert!(same(step.eval(n(5)).unwrap(), n(2)));
    assert!(same(step.eval(n(6)).unwrap(), n(9)));
    let ends_in_a_step = Pwl(vec![(n(0), n(1)), (n(5), n(2)), (n(5), n(9))]);
    assert!(same(ends_in_a_step.eval(n(50)).unwrap(), n(9)));
    let empty: Pwl<Exact> = Pwl(vec![]);
    assert!(empty.is_empty());
    assert_eq!(empty.eval(n(1)), None);
    let undefined = Pwl(vec![(n(0), n(1)), (Exact::Undefined, n(5)), (n(9), n(2))]);
    assert_eq!(undefined.eval(n(4)), None);
}

#[test]
fn metal_is_reduced_by_its_own_curve() {
    let r = LayerRules {
        diff_metal_factor: n(3),
        minus_diff_factor: n(5),
        plus_diff_factor: n(2),
        area_diff_reduce: Pwl(vec![(n(0), n(1)), (n(4), q(1, 2))]),
        ..par(10)
    };
    // With diffusion 4: (3 * 100 * 1/2 - 5 * 4) / (2 + 2 * 4) = 13.
    let (value, limit) = r.evaluate(Ratio::Par, n(100), n(2), n(4));
    assert!(same(value, n(13)));
    assert!(same(limit, n(10)));
    // Without: 100 / 2.
    let (value, limit) = r.evaluate(Ratio::Car, n(100), n(2), n(0));
    assert!(same(value, n(50)));
    assert!(same(limit, n(0)));
}

#[test]
fn exceeding_is_strict_and_needs_a_limit_and_a_gate() {
    assert_eq!(LayerRules::exceeds(n(10), n(100), n(10)), None);
    assert!(same(LayerRules::exceeds(n(10), n(101), n(10)).unwrap(), q(101, 10)));
    assert_eq!(LayerRules::exceeds(n(0), n(100), n(1)), None);
    assert_eq!(LayerRules::exceeds(n(-1), n(100), n(1)), None);
    assert_eq!(LayerRules::exceeds(n(10), n(100), n(0)), None);
    assert_eq!(LayerRules::exceeds(n(10), n(100), n(-1)), None);
    // Large fractions are still compared as the numbers they are.
    let big: i128 = (1 << 42) - 1;
    assert!(LayerRules::exceeds(q(big, 1), q(big, 1), q(big - 1, big)).is_some());
    assert_eq!(LayerRules::exceeds(q(big, big - 1), q(big, 1), q(big, 1)), None);
    assert!(LayerRules::exceeds(q(1, big), q(big - 1, big), q(big, 1)).is_none());
}

#[test]
fn what_was_stated_last_of_a_layer_holds() {
    let t = table(vec![("met1", par(1)), ("met2", par(2)), ("met1", par(3))]);
    assert_eq!(t.get(&"met1".to_string()).unwrap().par, n(3));
    assert_eq!(t.get(&"met2".to_string()).unwrap().par, n(2));
    assert!(t.get(&"met3".to_string()).is_none());
}

// ---- verdicts ---------------------------------------------------------------------------------

#[test]
fn the_four_ratios_come_in_order() {
    let all = LayerRules {
        valid: true,
        par: n(1),
        car: n(1),
        psr: n(1),
        csr: n(1),
        ..Default::default()
    };
    let na = net("n", vec![region("met1", &["a/A"], 1, 0, [2, 3, 4, 5])]);
    let v = check(&na, &table(vec![("met1", all)]));
    let got: Vec<Ratio> = v.iter().map(|x| x.ratio).collect();
    assert_eq!(got, vec![Ratio::Par, Ratio::Car, Ratio::Psr, Ratio::Csr]);
    let metal: Vec<bool> = v
        .iter()
        .zip([2, 4, 3, 5])
        .map(|(x, m)| same(x.metal_area_um2, n(m)))
        .collect();
    assert_eq!(metal, vec![true; 4]);
    assert!(v.iter().all(|x| x.net == "n" && x.layer == "met1" && x.pin == "a/A"));
}

/// One verdict on a pin that is listed twice, with the limit, gate and diffusion of the first
/// conductor and the metal of all.
#[test]
fn a_pin_on_two_conductors_has_one_verdict() {
    let r = LayerRules {
        valid: true,
        diff_par: Pwl(vec![(n(0), n(5)), (n(10), n(500))]),
        ..Default::default()
    };
    let na = net(
        "n",
        vec![
            region("met1", &["a/A", "a/A"], 2, 0, [8, 0, 8, 0]),
            region("met1", &["b/A", "a/A"], 1, 10, [7, 0, 7, 0]),
        ],
    );
    let v = check(&na, &table(vec![("met1", r)]));
    assert_eq!(v.len(), 1);
    assert_eq!(v[0].pin, "a/A");
    assert!(same(v[0].value, n(11)));
    assert!(same(v[0].limit, n(5)));
    assert!(same(v[0].gate_area_um2, n(2)));
    assert!(same(v[0].diff_area_um2, n(0)));
    assert!(same(v[0].metal_area_um2, n(15)));
}

/// The ratios of many conductors add up, whatever their denominators have in common.
#[test]
fn an_excess_over_many_conductors_is_found() {
    let piece = |k: i128| RegionExposure {
        area_um2: q(10_000_000_000 + k, 10_000_000_000),
        ..region("met1", &["a/A"], 1, 0, [0, 0, 0, 0])
    };
    let na = net("n", (0..8).map(piece).collect());
    let v = check(&na, &table(vec![("met1", par(8))]));
    assert_eq!(v.len(), 1);
    assert!(same(v[0].value, n(8).plus(q(28, 10_000_000_000))));
    assert!(!is_unsettled(&na, &table(vec![("met1", par(8))])));
}

/// What is no number neither passes nor fails: it shows.
#[test]
fn what_cannot_be_judged_shows() {
    let rules = table(vec![("met1", par(8))]);
    let vast = |k: i128| RegionExposure {
        area_um2: q(i128::MAX - k, 2 * k + 3),
        ..region("met1", &["a/A"], 1, 0, [0, 0, 0, 0])
    };
    let over = net("n", vec![vast(0), vast(1)]);
    assert!(check(&over, &rules).is_empty());
    assert!(is_unsettled(&over, &rules));
    let unknown = net(
        "m",
        vec![RegionExposure {
            side_area_um2: Exact::Undefined,
            ..region("met1", &["a/A"], 1, 0, [1, 0, 1, 0])
        }],
    );
    assert!(is_unsettled(&unknown, &rules));
    let fine = net("k", vec![region("met1", &["a/A"], 1, 0, [1, 0, 1, 0])]);
    assert!(!is_unsettled(&fine, &rules));
    // Where no limit is stated nothing is left open.
    assert!(!is_unsettled(&unknown, &RuleTable::new()));
    let r = summarize(&[Some(over), None, Some(unknown), Some(fine)], &rules);
    assert_eq!(r.nets_unsettled, 2);
    assert_eq!(r.count, 0);
}

#[test]
fn verdicts_are_appended() {
    let na = net("n", vec![region("met1", &["a/A"], 1, 0, [2, 0, 2, 0])]);
    let rules = table(vec![("met1", par(1))]);
    let mut out = Vec::new();
    check_net(&na, &rules, &mut out);
    check_net(&na, &rules, &mut out);
    assert_eq!(out.len(), 2);
}

#[test]
fn conductors_without_gate_area_have_no_part() {
    let na = net(
        "n",
        vec![
            region("met1", &["a/A"], 0, 0, [1000, 0, 1000, 0]),
            region("met1", &["a/A"], 1, 0, [2, 0, 2, 0]),
        ],
    );
    let v = check(&na, &table(vec![("met1", par(1))]));
    assert_eq!(v.len(), 1);
    assert!(same(v[0].value, n(2)));
    assert!(same(v[0].gate_area_um2, n(1)));
}

// ---- reading a net ----------------------------------------------------------------------------

#[test]
fn a_net_is_read_stage_by_stage() {
    let boxes = [wire(1, 0, 40), cut(2, 30, 34), wire(3, 30, 130)];
    let terminals = [
        terminal("u1/A", q(1, 2), n(0), wire(1, 0, 4)),
        terminal("d1/D", n(0), n(7), wire(3, 126, 130)),
        terminal("u2/A", n(1), q(1, 4), wire(3, 60, 62)),
        terminal("lost/A", n(1), n(0), wire(1, 500, 510)),
    ];
    let na = read_net(&"n1".to_string(), &boxes, &terminals, &layers(), n(10)).unwrap();
    assert_eq!(na.net, "n1");
    assert!(same(na.diff_area_um2, q(29, 4)));
    assert_eq!(na.gates_unanchored, 1);
    assert_eq!(na.regions.len(), 2);
    assert!(na.regions[0].layer_number < na.regions[1].layer_number);

    // At the stage of the first layer only u1 is there: 36 by 10 units left of its pin.
    let first = &na.regions[0];
    assert_eq!((first.layer.as_str(), first.layer_number), ("met1", 1));
    assert_eq!(first.pins, vec!["u1/A"]);
    assert!(same(first.gate_area_um2, q(1, 2)));
    assert!(same(first.diff_area_um2, n(0)));
    assert!(same(first.area_um2, q(360, 100)));
    assert!(same(first.side_area_um2, q(92 * 5, 100)));
    assert!(same(first.cum_area_um2, q(360, 100)));

    // At the next all are one: the pins of u2 and of the diode took 20 and 40 of the 1000.
    let second = &na.regions[1];
    assert_eq!(second.layer, "met2");
    assert_eq!(second.pins, vec!["u1/A", "u2/A"]);
    assert!(same(second.gate_area_um2, q(3, 2)));
    assert!(same(second.diff_area_um2, q(29, 4)));
    assert!(same(second.area_um2, q(940, 100)));
    assert!(same(second.cum_area_um2, q(1300, 100)));
    // No thickness is stated for this layer; the side area below it is still there.
    assert!(same(second.side_area_um2, n(0)));
    assert!(same(second.cum_side_area_um2, q(92 * 5, 100)));
}

/// Side area accumulates layer by layer, each with its own thickness: 40 * 1 + 40 * 2.
#[test]
fn side_area_accumulates_with_each_layers_thickness() {
    let boxes = [wire(1, 0, 10), cut(2, 4, 6), wire(3, 0, 10)];
    let t = [terminal("u/A", n(1), n(0), wire(0, 0, 10))];
    let info = |number: i64, thickness: i64| LayerInfo {
        number,
        name: format!("met{number}"),
        thickness,
    };
    let known = [info(1, 1), info(3, 2)];
    let na = read_net(&"n".to_string(), &boxes, &t, &known, n(1)).unwrap();
    assert_eq!(na.regions.len(), 2);
    assert!(same(na.regions[0].side_area_um2, n(40)));
    assert!(same(na.regions[0].cum_side_area_um2, n(40)));
    assert!(same(na.regions[1].side_area_um2, n(80)));
    assert!(same(na.regions[1].cum_side_area_um2, n(120)));
    let scaled = read_net(&"n".to_string(), &boxes, &t, &known, n(10)).unwrap();
    assert!(same(scaled.regions[1].cum_side_area_um2, q(120, 100)));
}

/// A gate that touches only a cut above every routing layer is at no stage: it is counted.
#[test]
fn a_gate_above_all_routing_is_counted() {
    let boxes = [wire(1, 0, 40), cut(2, 100, 104)];
    let t = [
        terminal("high/A", n(1), n(0), wire(3, 100, 104)),
        terminal("u/A", n(1), n(0), wire(0, 0, 4)),
    ];
    let na = read_net(&"n".to_string(), &boxes, &t, &layers(), n(10)).unwrap();
    assert_eq!(na.gates_unanchored, 1);
    assert_eq!(na.regions.len(), 1);
    assert_eq!(na.regions[0].pins, vec!["u/A"]);
    let alone = read_net(&"n".to_string(), &boxes, &t[..1], &layers(), n(10)).unwrap();
    assert_eq!((alone.regions.len(), alone.gates_unanchored), (0, 1));
}

/// Whether a net can be read is a matter of what is measured, not of what is drawn.
#[test]
fn a_net_drawn_many_times_over_fits() {
    let vast = LayerBox {
        x0: i32::MIN,
        x1: i32::MAX,
        y1: i32::MAX,
        ..wire(1, 0, 0)
    };
    let mut one = RoutedNet {
        net: "n".to_string(),
        boxes: vec![vast, vast, vast],
        terminals: vec![terminal("u/A", n(1), n(0), wire(0, 0, 4))],
    };
    assert!(one.fits());
    let na = read_net(&one.net, &one.boxes, &one.terminals, &layers(), n(1)).unwrap();
    assert!(same(na.regions[0].area_um2, n(4294967295 * 2147483647)));
    assert!(can_check(&[one.clone()]) && can_check(&design()));
    one.boxes.push(LayerBox { layer: 3, ..vast });
    assert!(!one.fits());
    assert!(!can_check(&[one]));
}

#[test]
fn a_net_without_routing_metal_is_not_routed() {
    let none: [Terminal<Exact>; 0] = [];
    assert!(read_net(&"n".to_string(), &[], &none, &layers(), n(10)).is_none());
    assert!(read_net(&"n".to_string(), &[cut(2, 0, 5)], &none, &layers(), n(10)).is_none());
    let covering = [terminal("u/A", n(1), n(0), wire(1, -5, 50))];
    assert!(read_net(&"n".to_string(), &[wire(1, 0, 40)], &covering, &layers(), n(10)).is_none());
}

#[test]
fn an_unknown_layer_has_no_name_and_no_thickness() {
    let t = [terminal("u/A", n(1), n(0), wire(9, 0, 4))];
    let na = read_net(&"n".to_string(), &[wire(9, 0, 40)], &t, &layers(), n(1)).unwrap();
    assert_eq!(na.regions[0].layer, "");
    assert!(same(na.regions[0].side_area_um2, n(0)));
    assert!(same(na.regions[0].area_um2, n(360)));
}

#[test]
fn reading_twice_reads_the_same() {
    let boxes = [wire(1, 0, 40), cut(2, 30, 34), wire(3, 30, 130)];
    let t = [
        terminal("u1/A", n(1), n(0), wire(1, 0, 4)),
        terminal("u2/A", n(1), n(0), wire(3, 60, 62)),
    ];
    let name = "n".to_string();
    let a = read_net(&name, &boxes, &t, &layers(), n(10)).unwrap();
    let b = read_net(&name, &boxes, &t, &layers(), n(10)).unwrap();
    assert_eq!(format!("{a:?}"), format!("{b:?}"));
    // A pin box that is inside out is read one way too.
    let inverted = [terminal("u1/A", n(1), n(0), wire(1, 30, 12))];
    let c = read_net(&name, &boxes, &inverted, &layers(), n(10)).unwrap();
    let d = read_net(&name, &boxes, &inverted, &layers(), n(10)).unwrap();
    assert_eq!(format!("{c:?}"), format!("{d:?}"));
}

// ---- reports ----------------------------------------------------------------------------------

fn design() -> Vec<RoutedNet<Exact>> {
    vec![
        RoutedNet {
            net: "hot".to_string(),
            boxes: vec![wire(1, 0, 104)],
            terminals: vec![terminal("u1/A", n(1), n(0), wire(1, 0, 4))],
        },
        RoutedNet {
            net: "no_gate".to_string(),
            boxes: vec![wire(1, 0, 40)],
            terminals: vec![terminal("d/D", n(0), n(1), wire(1, 0, 4))],
        },
        RoutedNet {
            net: "unrouted".to_string(),
            boxes: vec![],
            terminals: vec![terminal("u2/A", n(1), n(0), wire(1, 0, 4))],
        },
        RoutedNet {
            net: "upper".to_string(),
            boxes: vec![wire(3, 0, 40)],
            terminals: vec![
                terminal("u3/A", n(1), n(0), wire(3, 0, 4)),
                terminal("u4/A", n(1), n(0), wire(3, 400, 404)),
            ],
        },
    ]
}

#[test]
fn a_design_with_violations() {
    // 1000 units, 10 to the micrometre, over a gate of 1: a ratio of 10.
    let r = check_design(10, &design(), &layers(), &table(vec![("met1", par(9))]));
    assert_eq!(r.status, "violations");
    assert_eq!(r.count, 1);
    assert_eq!((r.nets_checked, r.nets_no_gate, r.nets_unrouted), (2, 1, 1));
    assert_eq!(r.gates_unanchored, 1);
    assert_eq!(r.nets_unsettled, 0);
    assert_eq!(r.layers_without_rules, vec!["met2"]);
    assert!(!r.no_rules_found && !r.no_routing_found);
    assert_eq!(r.violations[0].net, "hot");
    assert!(same(r.violations[0].value, n(10)));
    assert_eq!(r.exit_code(), 1);
}

/// A routed net whose gates are all unanchored has a gate: it is not among those without one.
#[test]
fn a_net_with_only_unanchored_gates_is_not_gateless() {
    let nets = [RoutedNet {
        net: "adrift".to_string(),
        boxes: vec![wire(1, 0, 40)],
        terminals: vec![terminal("u/A", n(1), n(0), wire(1, 400, 404))],
    }];
    let r = check_design(10, &nets, &layers(), &table(vec![("met1", par(9))]));
    assert_eq!((r.nets_checked, r.nets_no_gate, r.nets_unrouted), (1, 0, 0));
    assert_eq!(r.gates_unanchored, 1);
    assert!(r.violations.is_empty());
}

#[test]
fn a_clean_design() {
    let r = check_design(10, &design(), &layers(), &table(vec![("met1", par(10))]));
    assert_eq!(r.status, "clean");
    assert_eq!(r.count, 0);
    assert!(r.violations.is_empty());
    assert_eq!(r.nets_checked + r.nets_no_gate + r.nets_unrouted, 4);
    assert_eq!(r.exit_code(), 0);
}

#[test]
fn a_design_without_rules_is_vacuous() {
    let r = check_design(10, &design(), &layers(), &RuleTable::new());
    assert_eq!(r.status, "vacuous");
    assert!(r.no_rules_found && !r.no_routing_found);
    assert_eq!(r.layers_without_rules, vec!["met1", "met2"]);
    assert_eq!(r.exit_code(), 2);
}

#[test]
fn a_design_without_routing_is_vacuous() {
    let nets: Vec<RoutedNet<Exact>> = design()
        .into_iter()
        .filter(|x| x.net == "unrouted")
        .collect();
    let r = check_design(10, &nets, &layers(), &table(vec![("met1", par(9))]));
    assert_eq!(r.status, "vacuous");
    assert!(!r.no_rules_found && r.no_routing_found);
    assert_eq!(r.nets_unrouted, 1);
    assert_eq!(r.exit_code(), 2);
}

#[test]
fn a_design_without_a_scale_is_refused() {
    for dbu in [0, -10] {
        let r: Report<Exact> = check_design(dbu, &design(), &layers(), &table(vec![("met1", par(9))]));
        assert_eq!(r.status, "error");
        assert_eq!((r.count, r.nets_checked, r.nets_unrouted), (0, 0, 0));
        assert!(r.no_rules_found && !r.no_routing_found);
        assert_eq!(r.exit_code(), 2);
    }
}

#[test]
fn layers_without_rules_are_listed_once_in_order() {
    let nets = [
        Some(net(
            "a",
            vec![
                region("via9", &["x/A"], 1, 0, [1, 0, 1, 0]),
                region("met", &["x/A"], 1, 0, [1, 0, 1, 0]),
            ],
        )),
        None,
        Some(net(
            "b",
            vec![
                region("met10", &["y/A"], 1, 0, [1, 0, 1, 0]),
                region("met", &["y/A"], 1, 0, [1, 0, 1, 0]),
                region("ruled", &["y/A"], 1, 0, [1, 0, 1, 0]),
            ],
        )),
    ];
    let r = summarize(&nets, &table(vec![("ruled", par(5)), ("met", LayerRules::default())]));
    assert_eq!(r.layers_without_rules, vec!["met", "met10", "via9"]);
    assert_eq!(r.status, "clean");
}

// ---- names ------------------------------------------------------------------------------------

#[test]
fn terminal_names_split_at_the_last_slash() {
    let split = |s: &str| split_terminal(&s.to_string());
    assert_eq!(
        split("core/alu/u7/A"),
        Some(("core/alu/u7".to_string(), "A".to_string()))
    );
    assert_eq!(split("u1/A"), Some(("u1".to_string(), "A".to_string())));
    assert_eq!(split("top"), None);
    assert_eq!(split("u1/"), Some(("u1".to_string(), String::new())));
    assert_eq!(split("/A"), Some((String::new(), "A".to_string())));
}

#[test]
fn names_are_kept_in_order() {
    let mut v: Vec<String> = Vec::new();
    for x in ["met2", "li1", "met10", "met2", "met", "via"] {
        insert_name(&mut v, &x.to_string());
    }
    assert_eq!(v, vec!["li1", "met", "met10", "met2", "via"]);
}

// ---- the command line -------------------------------------------------------------------------

fn asked(line: &str) -> String {
    let args: Vec<String> = line.split_whitespace().map(|a| a.to_string()).collect();
    format!("{:?}", parse(&args))
}

fn shown(c: Command) -> String {
    format!("{c:?}")
}

#[test]
fn requests() {
    let s = |x: &str| x.to_string();
    assert_eq!(asked(""), shown(Command::Nothing));
    assert_eq!(asked("--help"), shown(Command::Help));
    assert_eq!(asked("check a.odb -h"), shown(Command::Help));
    assert_eq!(asked("frobnicate --describe --help"), shown(Command::Describe));
    assert_eq!(asked("check a.odb"), shown(Command::Check(s("a.odb"), None)));
    assert_eq!(
        asked("check --json a.odb -o r.json"),
        shown(Command::Check(s("a.odb"), Some(s("r.json"))))
    );
    assert_eq!(
        asked("check a.odb b.odb -o x -o y"),
        shown(Command::Check(s("b.odb"), Some(s("y"))))
    );
    assert_eq!(
        asked("explain --net n1 a.odb"),
        shown(Command::Explain(s("a.odb"), s("n1")))
    );
}

#[test]
fn requests_that_cannot_be_met() {
    let s = |x: &str| x.to_string();
    assert_eq!(asked("frobnicate"), shown(Command::UnknownCommand(s("frobnicate"))));
    assert_eq!(asked("check -x a.odb"), shown(Command::UnknownOption(s("-x"))));
    assert_eq!(asked("explain --json a.odb"), shown(Command::UnknownOption(s("--json"))));
    assert_eq!(asked("check a.odb -o"), shown(Command::MissingFile));
    assert_eq!(asked("explain a.odb --net"), shown(Command::MissingName));
    assert_eq!(asked("check --json"), shown(Command::CheckWithoutDatabase));
    assert_eq!(asked("explain a.odb"), shown(Command::ExplainWithoutNet));
    assert_eq!(asked("explain --net n1"), shown(Command::ExplainWithoutNet));
}
