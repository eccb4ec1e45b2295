use echelon::model::{
    alert_email_html, alert_email_subject, alert_wear_label, calc_wear, calc_wear_bearing,
    calc_wear_geartrain, create_wear_reading, measurement_node, try_calc_wear, wear_string,
    WearReading, WearResult, PARTICLE_BINS,
};
use echelon::time::UnixTime;

fn reading(machine_type: &str, counts: Vec<i32>) -> WearReading {
    create_wear_reading(
        UnixTime { secs: 1_711_929_600, nanos: 0 },
        "第一工場".to_string(),
        machine_type.to_string(),
        "PI1000-A001".to_string(),
        "v2".to_string(),
        counts,
    )
}

fn counts_with(small: [i32; 3], large: i32) -> Vec<i32> {
    let mut c = vec![0; PARTICLE_BINS];
    c[0] = small[0];
    c[1] = small[1];
    c[2] = small[2];
    c[3] = 100_000;
    c[79] = 100_000;
    c[101] = large;
    c
}

#[test]
fn create_wear_reading_keeps_fields_and_counts() {
    let data: Vec<i32> = (0..110).collect();
    let r = reading("混合", data);
    assert_eq!(r.counts.len(), PARTICLE_BINS);
    assert_eq!(r.count(0), 0);
    assert_eq!(r.count(101), 101);
    assert_eq!(r.facility_name, "第一工場");
    assert_eq!(r.machine_type, "混合");
    assert_eq!(r.equipment_id, "PI1000-A001");
    assert_eq!(r.equipment_version, "v2");
    assert_eq!(r.time, UnixTime { secs: 1_711_929_600, nanos: 0 });
}

#[test]
fn wear_labels() {
    assert_eq!(wear_string(WearResult::Nominal), "正常");
    assert_eq!(wear_string(WearResult::Warning), "警告");
    assert_eq!(wear_string(WearResult::Critical), "危険");
    assert_eq!(alert_wear_label(&WearResult::Nominal), "通常");
    assert_eq!(alert_wear_label(&WearResult::Warning), "警告");
    assert_eq!(alert_wear_label(&WearResult::Critical), "危険");
}

#[test]
fn severity_levels() {
    assert_eq!(WearResult::Nominal.severity(), 1);
    assert_eq!(WearResult::Warning.severity(), 2);
    assert_eq!(WearResult::Critical.severity(), 3);
}

#[test]
fn bearing_thresholds() {
    let r = |a, b, c| calc_wear_bearing(&reading("ボールベアリング", counts_with([a, b, c], 0)));
    assert_eq!(r(1000, 1000, 1000), WearResult::Nominal);
    assert_eq!(r(1000, 1000, 1001), WearResult::Warning);
    assert_eq!(r(2000, 2000, 1000), WearResult::Warning);
    assert_eq!(r(2000, 2000, 1001), WearResult::Critical);
    assert_eq!(r(-5, 0, 0), WearResult::Nominal);
}

#[test]
fn geartrain_thresholds() {
    assert_eq!(calc_wear_geartrain(&reading("ギアトレイン", counts_with([9000, 0, 0], 0))), WearResult::Nominal);
    assert_eq!(calc_wear_geartrain(&reading("ギアトレイン", counts_with([0, 0, 0], 1))), WearResult::Critical);
}

#[test]
fn wear_by_machine_type() {
    let c = counts_with([6000, 0, 0], 0);
    assert_eq!(calc_wear(&reading("ボールベアリング", c.clone())), WearResult::Critical);
    assert_eq!(calc_wear(&reading("ギアトレイン", c.clone())), WearResult::Nominal);
    assert_eq!(calc_wear(&reading("ポンプ", c.clone())), WearResult::Nominal);
}

#[test]
fn mixed_takes_the_more_severe() {
    assert_eq!(calc_wear(&reading("混合", counts_with([3001, 0, 0], 0))), WearResult::Warning);
    assert_eq!(calc_wear(&reading("混合", counts_with([3001, 0, 0], 2))), WearResult::Critical);
    assert_eq!(calc_wear(&reading("混合", counts_with([0, 0, 0], 2))), WearResult::Critical);
    assert_eq!(calc_wear(&reading("混合", counts_with([0, 0, 0], 0))), WearResult::Nominal);
}

#[test]
fn overflowing_sums_are_refused() {
    let r = reading("ボールベアリング", counts_with([i32::MAX, 1, 0], 0));
    assert_eq!(try_calc_wear(&r), None);
    let g = reading("ギアトレイン", counts_with([i32::MAX, 1, 0], 0));
    assert_eq!(try_calc_wear(&g), Some(WearResult::Nominal));
    let ok = reading("混合", counts_with([5001, 0, 0], 0));
    assert_eq!(try_calc_wear(&ok), Some(WearResult::Critical));
}

#[test]
fn alert_mail_text() {
    let r = reading("混合", counts_with([0, 0, 0], 0));
    assert_eq!(alert_email_subject(), "摩耗検知アラート");
    assert_eq!(
        alert_email_html(&r, &WearResult::Warning),
        "<p>第一工場に設置されているPI1000-A001の摩耗状態は<strong>警告</strong>です。</p>"
    );
}

#[test]
fn measurement_node_summary() {
    let r = reading("ギアトレイン", counts_with([0, 0, 0], 3));
    let n = measurement_node(&r).unwrap();
    assert_eq!(n.measurement_date, "2024-04-01 00:00:00 UTC");
    assert_eq!(n.result, "危険");
    assert_eq!(n.equipment_id, "PI1000-A001");
    assert_eq!(n.equipment_version, "v2");
    assert_eq!(n.facility_name, "第一工場");
    assert_eq!(n.machine_type, "ギアトレイン");
}

#[test]
fn measurement_node_out_of_range_time() {
    let mut r = reading("ギアトレイン", counts_with([0, 0, 0], 0));
    r.time = UnixTime { secs: i64::MAX, nanos: 0 };
    assert!(measurement_node(&r).is_none());
}
