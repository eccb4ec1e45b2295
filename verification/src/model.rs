//! Wear readings (particle counts per size, 0 µm to 101 µm) and the wear
//! classification of bearings and gear trains.
use vstd::prelude::*;
use vstd::string::*;
use crate::text::same_text;
use crate::time::{UnixTime, chrono_utc_display, display_utc};

verus! {

broadcast use vstd::string::group_string_axioms;

/// Number of particle-size bins of a reading (0 µm to 101 µm).
pub const PARTICLE_BINS: usize = 102;

/// The wear state of a machine.
#[derive(Clone, Copy, Debug, PartialEq, Eq, Structural)]
pub enum WearResult {
    Nominal,
    Warning,
    Critical,
}

impl WearResult {
    /// The severity: 1 nominal, 2 warning, 3 critical.
    pub open spec fn level(self) -> int {
        match self {
            WearResult::Nominal => 1,
            WearResult::Warning => 2,
            WearResult::Critical => 3,
        }
    }

    /// The severity: 1 nominal, 2 warning, 3 critical.
    pub fn severity(&self) -> (r: i32)
        ensures
            r == self.level(),
    {
        match self {
            WearResult::Nominal => 1,
            WearResult::Warning => 2,
            WearResult::Critical => 3,
        }
    }
}

/// One measurement of a machine: when, where, what, and the particle count
/// of each size bin.
#[derive(Debug)]
pub struct WearReading {
    pub time: UnixTime,
    pub facility_name: String,
    pub machine_type: String,
    pub equipment_id: String,
    pub equipment_version: String,
    /// `counts[i]` is the number of particles of `i` µm.
    pub counts: Vec<i32>,
}

impl WearReading {
    /// A reading has one count per size bin.
    pub open spec fn wf(&self) -> bool {
        self.counts@.len() == PARTICLE_BINS
    }

    /// The count of particles of `size` µm.
    pub fn count(&self, size: usize) -> (r: i32)
        requires
            self.wf(),
            size < PARTICLE_BINS,
        ensures
            r == self.counts@[size as int],
    {
        self.counts[size]
    }
}

/// A node summary shown by the measurement overview.
#[derive(Debug)]
pub struct MeasurementNode {
    pub equipment_id: String,
    pub equipment_version: String,
    pub facility_name: String,
    pub machine_type: String,
    pub measurement_date: String,
    pub result: String,
}

/// The sum of `c[lo..hi]`.
pub open spec fn sum_range(c: Seq<i32>, lo: int, hi: int) -> int
    decreases hi - lo,
{
    if hi <= lo {
        0
    } else {
        sum_range(c, lo, hi - 1) + c[hi - 1]
    }
}

/// Adding up `c[lo..hi]` from left to right stays within `i32` at every step.
pub open spec fn sums_fit(c: Seq<i32>, lo: int, hi: int) -> bool {
    forall|k: int| lo < k <= hi ==> i32::MIN <= #[trigger] sum_range(c, lo, k) <= i32::MAX
}

/// Bearing wear from the 0–2 µm particles: above 5000 critical, above
/// 3000 warning, otherwise nominal.
pub open spec fn bearing_wear(c: Seq<i32>) -> WearResult {
    let s = sum_range(c, 0, 3);
    if s > 5000 {
        WearResult::Critical
    } else if s > 3000 {
        WearResult::Warning
    } else {
        WearResult::Nominal
    }
}

/// Gear-train wear from the 80–101 µm particles: any positive total is
/// critical, otherwise nominal.
pub open spec fn geartrain_wear(c: Seq<i32>) -> WearResult {
    if sum_range(c, 80, 102) > 0 {
        WearResult::Critical
    } else {
        WearResult::Nominal
    }
}

/// The wear of a reading by machine type: ball bearing, gear train, or
/// mixed (the more severe of both); any other type is nominal.
pub open spec fn wear_of(r: &WearReading) -> WearResult {
    let t = r.machine_type@;
    if t == "ボールベアリング"@ {
        bearing_wear(r.counts@)
    } else if t == "ギアトレイン"@ {
        geartrain_wear(r.counts@)
    } else if t == "混合"@ {
        if bearing_wear(r.counts@).level() > geartrain_wear(r.counts@).level() {
            bearing_wear(r.counts@)
        } else {
            geartrain_wear(r.counts@)
        }
    } else {
        WearResult::Nominal
    }
}

/// Classifying the reading adds its counts without leaving `i32`.
pub open spec fn wear_fits(r: &WearReading) -> bool {
    let t = r.machine_type@;
    &&& (t == "ボールベアリング"@ || t == "混合"@) ==> sums_fit(r.counts@, 0, 3)
    &&& (t == "ギアトレイン"@ || t == "混合"@) ==> sums_fit(r.counts@, 80, 102)
}

/// The displayed name of a wear state.
pub open spec fn wear_label(w: WearResult) -> Seq<char> {
    match w {
        WearResult::Nominal => "正常"@,
        WearResult::Warning => "警告"@,
        WearResult::Critical => "危険"@,
    }
}

/// The name of a wear state in alert mail.
pub open spec fn alert_label(w: WearResult) -> Seq<char> {
    match w {
        WearResult::Nominal => "通常"@,
        WearResult::Warning => "警告"@,
        WearResult::Critical => "危険"@,
    }
}

/// A reading built from its metadata and the first 102 counts of `data`.
pub fn create_wear_reading(
    time: UnixTime,
    facility_name: String,
    machine_type: String,
    equipment_id: String,
    equipment_version: String,
    data: Vec<i32>,
) -> (r: WearReading)
    requires
        data@.len() >= PARTICLE_BINS,
    ensures
        r.wf(),
        r.time == time,
        r.facility_name@ == facility_name@,
        r.machine_type@ == machine_type@,
        r.equipment_id@ == equipment_id@,
        r.equipment_version@ == equipment_version@,
        r.counts@ == data@.take(PARTICLE_BINS as int),
{
    let mut counts: Vec<i32> = Vec::with_capacity(PARTICLE_BINS);
    let mut i: usize = 0;
    while i < PARTICLE_BINS
        invariant
            i <= PARTICLE_BINS,
            data@.len() >= PARTICLE_BINS,
            counts@ == data@.take(i as int),
        decreases PARTICLE_BINS - i,
    {
        counts.push(data[i]);
        i = i + 1;
        assert(counts@ =~= data@.take(i as int));
    }
    WearReading { time, facility_name, machine_type, equipment_id, equipment_version, counts }
}

/// The displayed name of a wear state: 正常, 警告 or 危険.
pub fn wear_string(wear_result: WearResult) -> (r: String)
    ensures
        r@ == wear_label(wear_result),
{
    match wear_result {
        WearResult::Nominal => "正常".to_string(),
        WearResult::Warning => "警告".to_string(),
        WearResult::Critical => "危険".to_string(),
    }
}

/// Adds `c[lo..hi]` from left to right in `i32`.
fn sum_counts(c: &Vec<i32>, lo: usize, hi: usize) -> (r: i32)
    requires
        lo < hi <= c@.len(),
        sums_fit(c@, lo as int, hi as int),
    ensures
        r == sum_range(c@, lo as int, hi as int),
{
    let mut s: i32 = c[lo];
    let mut k = lo + 1;
    assert(sum_range(c@, lo as int, lo as int) == 0);
    assert(sum_range(c@, lo as int, lo + 1) == c@[lo as int]);
    while k < hi
        invariant
            lo < k <= hi <= c@.len(),
            sums_fit(c@, lo as int, hi as int),
            s == sum_range(c@, lo as int, k as int),
        decreases hi - k,
    {
        assert(i32::MIN <= sum_range(c@, lo as int, k + 1) <= i32::MAX);
        s = s + c[k];
        k = k + 1;
    }
    s
}

/// Bearing wear (see `bearing_wear`).
pub fn calc_wear_bearing(wear_reading: &WearReading) -> (r: WearResult)
    requires
        wear_reading.wf(),
        sums_fit(wear_reading.counts@, 0, 3),
    ensures
        r == bearing_wear(wear_reading.counts@),
{
    let particle_sum = sum_counts(&wear_reading.counts, 0, 3);
    if particle_sum > 5000 {
        WearResult::Critical
    } else if particle_sum > 3000 {
        WearResult::Warning
    } else {
        WearResult::Nominal
    }
}

/// Gear-train wear (see `geartrain_wear`).
pub fn calc_wear_geartrain(wear_reading: &WearReading) -> (r: WearResult)
    requires
        wear_reading.wf(),
        sums_fit(wear_reading.counts@, 80, 102),
    ensures
        r == geartrain_wear(wear_reading.counts@),
{
    let particle_sum = sum_counts(&wear_reading.counts, 80, 102);
    if particle_sum > 0 {
        WearResult::Critical
    } else {
        WearResult::Nominal
    }
}

/// The wear of a reading by its machine type (see `wear_of`).
pub fn calc_wear(wear_reading: &WearReading) -> (r: WearResult)
    requires
        wear_reading.wf(),
        wear_fits(wear_reading),
    ensures
        r == wear_of(wear_reading),
{
    let t = wear_reading.machine_type.as_str();
    if same_text(t, "ボールベアリング") {
        calc_wear_bearing(wear_reading)
    } else if same_text(t, "ギアトレイン") {
        calc_wear_geartrain(wear_reading)
    } else if same_text(t, "混合") {
        let result_bearing = calc_wear_bearing(wear_reading);
        let result_geartrain = calc_wear_geartrain(wear_reading);
        if result_bearing.severity() > result_geartrain.severity() {
            calc_wear_bearing(wear_reading)
        } else {
            calc_wear_geartrain(wear_reading)
        }
    } else {
        WearResult::Nominal
    }
}

/// Whether `c[lo..hi]` adds up within `i32` from left to right.
fn sums_fit_check(c: &Vec<i32>, lo: usize, hi: usize) -> (r: bool)
    requires
        lo < hi <= c@.len(),
    ensures
        r == sums_fit(c@, lo as int, hi as int),
{
    let mut s: i64 = c[lo] as i64;
    let mut k = lo + 1;
    assert(sum_range(c@, lo as int, lo as int) == 0);
    assert(sum_range(c@, lo as int, lo + 1) == c@[lo as int]);
    while k < hi
        invariant
            lo < k <= hi <= c@.len(),
            s == sum_range(c@, lo as int, k as int),
            i32::MIN <= s <= i32::MAX,
            forall|j: int| lo < j <= k ==> i32::MIN <= #[trigger] sum_range(c@, lo as int, j) <= i32::MAX,
        decreases hi - k,
    {
        s = s + c[k] as i64;
        k = k + 1;
        assert(s == sum_range(c@, lo as int, k as int));
        if s < i32::MIN as i64 || s > i32::MAX as i64 {
            assert(!(i32::MIN <= sum_range(c@, lo as int, k as int) <= i32::MAX));
            return false;
        }
    }
    true
}

/// The wear of a reading, or `None` where adding its counts would leave
/// `i32` (where `calc_wear` cannot be called).
pub fn try_calc_wear(wear_reading: &WearReading) -> (r: Option<WearResult>)
    requires
        wear_reading.wf(),
    ensures
        r == (if wear_fits(wear_reading) {
            Some(wear_of(wear_reading))
        } else {
            None::<WearResult>
        }),
{
    let t = wear_reading.machine_type.as_str();
    let bearing = same_text(t, "ボールベアリング");
    let gear = same_text(t, "ギアトレイン");
    let mixed = same_text(t, "混合");
    if (bearing || mixed) && !sums_fit_check(&wear_reading.counts, 0, 3) {
        return None;
    }
    if (gear || mixed) && !sums_fit_check(&wear_reading.counts, 80, 102) {
        return None;
    }
    Some(calc_wear(wear_reading))
}

/// The name of a wear state in alert mail: 通常, 警告 or 危険.
pub fn alert_wear_label(wear_result: &WearResult) -> (r: String)
    ensures
        r@ == alert_label(*wear_result),
{
    match wear_result {
        WearResult::Nominal => "通常".to_string(),
        WearResult::Warning => "警告".to_string(),
        WearResult::Critical => "危険".to_string(),
    }
}

/// The subject of a wear alert mail.
pub fn alert_email_subject() -> (r: String)
    ensures
        r@ == "摩耗検知アラート"@,
{
    "摩耗検知アラート".to_string()
}

/// The HTML body of a wear alert mail: where the equipment is, which it
/// is, and its wear state.
pub fn alert_email_html(reading: &WearReading, wear_result: &WearResult) -> (r: String)
    ensures
        r@ == "<p>"@ + reading.facility_name@ + "に設置されている"@ + reading.equipment_id@
            + "の摩耗状態は<strong>"@ + alert_label(*wear_result) + "</strong>です。</p>"@,
{
    let mut s = "<p>".to_string();
    s.append(reading.facility_name.as_str());
    s.append("に設置されている");
    s.append(reading.equipment_id.as_str());
    s.append("の摩耗状態は<strong>");
    let label = alert_wear_label(wear_result);
    s.append(label.as_str());
    s.append("</strong>です。</p>");
    s
}

/// The overview entry of a reading: its metadata, its time as chrono
/// displays it, and its wear state; `None` when the time cannot be displayed.
pub fn measurement_node(reading: &WearReading) -> (r: Option<MeasurementNode>)
    requires
        reading.wf(),
        wear_fits(reading),
    ensures
        match r {
            Some(n) => {
                &&& chrono_utc_display(reading.time.secs, reading.time.nanos) == Some(
                    n.measurement_date@,
                )
                &&& n.equipment_id@ == reading.equipment_id@
                &&& n.equipment_version@ == reading.equipment_version@
                &&& n.facility_name@ == reading.facility_name@
                &&& n.machine_type@ == reading.machine_type@
                &&& n.result@ == wear_label(wear_of(reading))
            },
            None => chrono_utc_display(reading.time.secs, reading.time.nanos) is None,
        },
{
    let measurement_date = match display_utc(reading.time) {
        Some(d) => d,
        None => {
            return None;
        },
    };
    let wear_result = calc_wear(reading);
    Some(
        MeasurementNode {
            equipment_id: reading.equipment_id.clone(),
            equipment_version: reading.equipment_version.clone(),
            facility_name: reading.facility_name.clone(),
            machine_type: reading.machine_type.clone(),
            measurement_date,
            result: wear_string(wear_result),
        },
    )
}

/// A mixed machine is as worn as the more worn of its parts: its wear is
/// the wear of its bearing or of its gear train, and at least as severe as
/// each.
pub proof fn lemma_mixed_is_more_severe(r: &WearReading)
    requires
        r.machine_type@ == "混合"@,
    ensures
        wear_of(r) == bearing_wear(r.counts@) || wear_of(r) == geartrain_wear(r.counts@),
        wear_of(r).level() >= bearing_wear(r.counts@).level(),
        wear_of(r).level() >= geartrain_wear(r.counts@).level(),
{
    reveal_strlit("混合");
    reveal_strlit("ボールベアリング");
    reveal_strlit("ギアトレイン");
    assert("混合"@ != "ボールベアリング"@) by {
        assert("混合"@.len() != "ボールベアリング"@.len());
    }
    assert("混合"@ != "ギアトレイン"@) by {
        assert("混合"@.len() != "ギアトレイン"@.len());
    }
}

/// More particles never mean less wear: each classification is monotone in
/// the particle total it looks at.
pub proof fn lemma_wear_monotone(c1: Seq<i32>, c2: Seq<i32>)
    ensures
        sum_range(c1, 0, 3) <= sum_range(c2, 0, 3) ==> bearing_wear(c1).level() <= bearing_wear(
            c2,
        ).level(),
        sum_range(c1, 80, 102) <= sum_range(c2, 80, 102) ==> geartrain_wear(c1).level()
            <= geartrain_wear(c2).level(),
{
}

} // verus!
