//! Wear readings from CSV files fetched over FTP: the CSV format, the
//! file names of a directory listing, and where a new pass resumes.
use vstd::prelude::*;
use vstd::string::*;
use crate::model::{PARTICLE_BINS, WearReading, create_wear_reading};
use crate::text::{
    chars_of, is_ws, lemma_text_lt_asym, lemma_text_lt_trans, line_piece_spans, lines,
    line_pieces, parse_i32_span, parse_i32_spec, split_on, split_spans, spans_pick,
    strip_terminator, strip_terminator_span, substring, text_less, text_lt, trim, trim_span,
    word_spans, words,
};
use crate::time::{UnixTime, chrono_parse_offset_datetime, parse_offset_datetime};

verus! {

broadcast use vstd::string::group_string_axioms;

/// Why a CSV line or file gave no reading.
#[derive(Clone, Copy, Debug, PartialEq, Eq, Structural)]
pub enum CsvError {
    /// The time field is not a date and time.
    InvalidTime,
    /// A count field is not a 32-bit integer.
    InvalidNumber,
    /// The file has no line at all.
    EmptyCsv,
    /// No line of the file after the header is a reading.
    NoReadings,
}

/// The comma-separated fields of a CSV line.
pub open spec fn csv_values(line: Seq<char>) -> Seq<Seq<char>> {
    split_on(line, ',')
}

/// The time text of a line: its fourth field, trimmed, with the Japan
/// time-zone offset appended.
pub open spec fn csv_time_text(line: Seq<char>) -> Seq<char> {
    trim(csv_values(line)[3]) + " +0900"@
}

/// The time of a line, as chrono parses its time text.
pub open spec fn csv_time(line: Seq<char>) -> Option<(i64, u32)> {
    chrono_parse_offset_datetime(csv_time_text(line), "%m/%d/%Y %H:%M:%S %z"@)
}

/// The first count position at or after `i` (counts are the 102 fields
/// after the first six) that is missing or not a number; 102 if none.
pub open spec fn counts_scan(vals: Seq<Seq<char>>, i: int) -> int
    decreases 102 - i,
{
    if i >= 102 {
        102
    } else if i + 6 >= vals.len() || parse_i32_spec(trim(vals[i + 6])) is None {
        i
    } else {
        counts_scan(vals, i + 1)
    }
}

/// Reading the line fails hard: it has fewer than four fields, or its
/// time parses and a count field is missing before any bad one.
pub open spec fn csv_line_panics(line: Seq<char>) -> bool {
    let v = csv_values(line);
    ||| v.len() < 4
    ||| (csv_time(line) is Some && counts_scan(v, 0) < 102 && counts_scan(v, 0) + 6 >= v.len())
}

/// The 102 counts of a line.
pub open spec fn csv_counts(line: Seq<char>) -> Seq<i32> {
    let v = csv_values(line);
    Seq::new(102, |i: int| parse_i32_spec(trim(v[i + 6]))->0)
}

/// The time and counts a line holds, or why it holds none.
pub open spec fn csv_line_result(line: Seq<char>) -> Result<(UnixTime, Seq<i32>), CsvError> {
    match csv_time(line) {
        None => Err(CsvError::InvalidTime),
        Some(t) => if counts_scan(csv_values(line), 0) < 102 {
            Err(CsvError::InvalidNumber)
        } else {
            Ok((UnixTime { secs: t.0, nanos: t.1 }, csv_counts(line)))
        },
    }
}

/// The readings held by the lines `ls`, in order; lines that hold none are
/// skipped.
pub open spec fn csv_readings(ls: Seq<Seq<char>>) -> Seq<(UnixTime, Seq<i32>)>
    decreases ls.len(),
{
    if ls.len() == 0 {
        Seq::empty()
    } else {
        let r = csv_readings(ls.drop_last());
        match csv_line_result(ls.last()) {
            Ok(x) => r.push(x),
            Err(_) => r,
        }
    }
}

/// Some data line of the file (every line but the first) fails hard.
pub open spec fn csv_file_panics(content: Seq<char>) -> bool {
    exists|j: int| 1 <= j < lines(content).len() && csv_line_panics(#[trigger] lines(content)[j])
}

/// The outcome of reading a line: it fails hard, it holds no reading, or
/// it holds a reading.
pub enum LineScan {
    Panics,
    Failed(CsvError),
    Parsed(UnixTime, Vec<i32>),
}

/// Reads the time and counts of a CSV line.
fn scan_csv_line(csv_data: &str) -> (r: LineScan)
    ensures
        match r {
            LineScan::Panics => csv_line_panics(csv_data@),
            LineScan::Failed(e) => !csv_line_panics(csv_data@) && csv_line_result(csv_data@) == Err::<
                (UnixTime, Seq<i32>),
                CsvError,
            >(e),
            LineScan::Parsed(t, c) => !csv_line_panics(csv_data@) && csv_line_result(csv_data@)
                == Ok::<(UnixTime, Seq<i32>), CsvError>((t, c@)) && c@.len() == PARTICLE_BINS,
        },
{
    let v = chars_of(csv_data);
    let n = v.len();
    let spans = split_spans(&v, 0, n, ',');
    let ghost vals = csv_values(csv_data@);
    assert(v@.subrange(0, n as int) =~= v@);
    if spans.len() < 4 {
        return LineScan::Panics;
    }
    let (a, b) = spans[3];
    let (ta, tb) = trim_span(&v, a, b);
    let mut text = substring(csv_data, ta, tb);
    text.append(" +0900");
    assert(text@ == csv_time_text(csv_data@));
    let time = match parse_offset_datetime(text.as_str(), "%m/%d/%Y %H:%M:%S %z") {
        Ok(t) => t,
        Err(_) => {
            return LineScan::Failed(CsvError::InvalidTime);
        },
    };
    let mut data: Vec<i32> = Vec::with_capacity(PARTICLE_BINS);
    let mut i: usize = 0;
    while i < PARTICLE_BINS
        invariant
            v@ == csv_data@,
            vals == csv_values(csv_data@),
            spans_pick(v@, spans@, vals),
            spans@.len() >= 4,
            csv_time(csv_data@) == Some((time.secs, time.nanos)),
            i <= PARTICLE_BINS,
            counts_scan(vals, 0) == counts_scan(vals, i as int),
            data@.len() == i,
            forall|j: int| 0 <= j < i ==> data@[j] == parse_i32_spec(trim(vals[j + 6]))->0,
        decreases PARTICLE_BINS - i,
    {
        if i + 6 >= spans.len() {
            return LineScan::Panics;
        }
        let (a, b) = spans[i + 6];
        let (x, y) = trim_span(&v, a, b);
        match parse_i32_span(&v, x, y) {
            Some(c) => {
                data.push(c);
            },
            None => {
                return LineScan::Failed(CsvError::InvalidNumber);
            },
        }
        i = i + 1;
    }
    assert(data@ =~= csv_counts(csv_data@));
    LineScan::Parsed(time, data)
}

/// The reading of a CSV line: the fourth field is the time (Japan time),
/// fields 7 to 108 are the counts.
pub fn parse_wear_reading_from_csv_line(
    csv_data: &str,
    facility_name: String,
    machine_type: String,
    equipment_id: String,
    equipment_version: String,
) -> (r: Result<WearReading, CsvError>)
    requires
        !csv_line_panics(csv_data@),
    ensures
        match r {
            Ok(w) => {
                &&& w.wf()
                &&& csv_line_result(csv_data@) == Ok::<(UnixTime, Seq<i32>), CsvError>(
                    (w.time, w.counts@),
                )
                &&& w.facility_name@ == facility_name@
                &&& w.machine_type@ == machine_type@
                &&& w.equipment_id@ == equipment_id@
                &&& w.equipment_version@ == equipment_version@
            },
            Err(e) => csv_line_result(csv_data@) == Err::<(UnixTime, Seq<i32>), CsvError>(e),
        },
{
    match scan_csv_line(csv_data) {
        LineScan::Panics => {
            assert(false);
            Err(CsvError::InvalidNumber)
        },
        LineScan::Failed(e) => Err(e),
        LineScan::Parsed(time, data) => {
            let w = create_wear_reading(
                time,
                facility_name,
                machine_type,
                equipment_id,
                equipment_version,
                data,
            );
            assert(w.counts@ =~= data@);
            Ok(w)
        },
    }
}

/// The reading of a CSV line, or `None` where the line fails hard (where
/// `parse_wear_reading_from_csv_line` cannot be called).
pub fn checked_parse_wear_reading_from_csv_line(
    csv_data: &str,
    facility_name: String,
    machine_type: String,
    equipment_id: String,
    equipment_version: String,
) -> (r: Option<Result<WearReading, CsvError>>)
    ensures
        csv_line_panics(csv_data@) <==> r is None,
        r matches Some(Ok(w)) ==> {
            &&& w.wf()
            &&& csv_line_result(csv_data@) == Ok::<(UnixTime, Seq<i32>), CsvError>(
                (w.time, w.counts@),
            )
            &&& w.facility_name@ == facility_name@
            &&& w.machine_type@ == machine_type@
            &&& w.equipment_id@ == equipment_id@
            &&& w.equipment_version@ == equipment_version@
        },
        r matches Some(Err(e)) ==> csv_line_result(csv_data@) == Err::<(UnixTime, Seq<i32>), CsvError>(e),
{
    match scan_csv_line(csv_data) {
        LineScan::Panics => None,
        _ => Some(
            parse_wear_reading_from_csv_line(
                csv_data,
                facility_name,
                machine_type,
                equipment_id,
                equipment_version,
            ),
        ),
    }
}

/// `out` holds one reading per entry of `g`, with the given metadata.
pub open spec fn readings_built(
    out: Seq<WearReading>,
    g: Seq<(UnixTime, Seq<i32>)>,
    facility_name: Seq<char>,
    machine_type: Seq<char>,
    equipment_id: Seq<char>,
    equipment_version: Seq<char>,
) -> bool {
    &&& out.len() == g.len()
    &&& forall|j: int|
        0 <= j < out.len() ==> {
            &&& (#[trigger] out[j]).wf()
            &&& (out[j].time, out[j].counts@) == g[j]
            &&& out[j].facility_name@ == facility_name
            &&& out[j].machine_type@ == machine_type
            &&& out[j].equipment_id@ == equipment_id
            &&& out[j].equipment_version@ == equipment_version
        }
}

/// What reading a CSV file gives: `EmptyCsv` for a file without lines,
/// `NoReadings` where no line after the header holds a reading, and else
/// the readings of those lines, in order, with the given metadata.
pub open spec fn csv_file_outcome(
    content: Seq<char>,
    r: Result<Vec<WearReading>, CsvError>,
    facility_name: Seq<char>,
    machine_type: Seq<char>,
    equipment_id: Seq<char>,
    equipment_version: Seq<char>,
) -> bool {
    if lines(content).len() == 0 {
        r == Err::<Vec<WearReading>, CsvError>(CsvError::EmptyCsv)
    } else {
        let g = csv_readings(lines(content).drop_first());
        if g.len() == 0 {
            r == Err::<Vec<WearReading>, CsvError>(CsvError::NoReadings)
        } else {
            r matches Ok(v) && readings_built(
                v@,
                g,
                facility_name,
                machine_type,
                equipment_id,
                equipment_version,
            )
        }
    }
}

/// Reads every line of a CSV file; `None` where a data line fails hard.
fn read_csv_file(
    csv_data: &str,
    facility_name: String,
    machine_type: String,
    equipment_id: String,
    equipment_version: String,
) -> (r: Option<Result<Vec<WearReading>, CsvError>>)
    ensures
        r is None <==> csv_file_panics(csv_data@),
        r matches Some(x) ==> csv_file_outcome(
            csv_data@,
            x,
            facility_name@,
            machine_type@,
            equipment_id@,
            equipment_version@,
        ),
{
    let v = chars_of(csv_data);
    let pieces = line_piece_spans(&v);
    let n = pieces.len();
    let ghost ls = lines(csv_data@);
    assert(ls.len() == n);
    if n == 0 {
        return Some(Err(CsvError::EmptyCsv));
    }
    let ghost data_lines = ls.drop_first();
    let mut out: Vec<WearReading> = Vec::new();
    let mut k: usize = 1;
    assert(data_lines.take(0) =~= Seq::<Seq<char>>::empty());
    while k < n
        invariant
            v@ == csv_data@,
            n == pieces@.len(),
            n == ls.len(),
            n >= 1,
            ls == lines(csv_data@),
            data_lines == ls.drop_first(),
            spans_pick(v@, pieces@, line_pieces(v@)),
            1 <= k <= n,
            forall|j: int| 1 <= j < k ==> !csv_line_panics(#[trigger] ls[j]),
            readings_built(
                out@,
                csv_readings(data_lines.take(k - 1)),
                facility_name@,
                machine_type@,
                equipment_id@,
                equipment_version@,
            ),
        decreases n - k,
    {
        let (pa, pb) = pieces[k];
        let (a, b) = strip_terminator_span(&v, pa, pb);
        let line = substring(csv_data, a, b);
        let ghost prev = csv_readings(data_lines.take(k - 1));
        proof {
            assert(line@ == ls[k as int]);
            assert(data_lines.take(k as int).drop_last() =~= data_lines.take(k - 1));
            assert(data_lines.take(k as int).last() == ls[k as int]);
        }
        match scan_csv_line(line.as_str()) {
            LineScan::Parsed(time, data) => {
                let w = create_wear_reading(
                    time,
                    facility_name.clone(),
                    machine_type.clone(),
                    equipment_id.clone(),
                    equipment_version.clone(),
                    data,
                );
                assert(w.counts@ =~= data@);
                out.push(w);
                proof {
                    let g = csv_readings(data_lines.take(k as int));
                    assert(g == prev.push((time, data@)));
                    assert forall|j: int| 0 <= j < out@.len() implies {
                        &&& (#[trigger] out@[j]).wf()
                        &&& (out@[j].time, out@[j].counts@) == g[j]
                        &&& out@[j].facility_name@ == facility_name@
                        &&& out@[j].machine_type@ == machine_type@
                        &&& out@[j].equipment_id@ == equipment_id@
                        &&& out@[j].equipment_version@ == equipment_version@
                    } by {}
                }
            },
            LineScan::Failed(_) => {
                assert(csv_readings(data_lines.take(k as int)) == prev);
            },
            LineScan::Panics => {
                assert(csv_line_panics(lines(csv_data@)[k as int]));
                return None;
            },
        }
        k = k + 1;
    }
    assert(data_lines.take(n - 1) =~= data_lines);
    if out.len() == 0 {
        return Some(Err(CsvError::NoReadings));
    }
    Some(Ok(out))
}

/// The readings of a CSV file: the first line is a header; every other
/// line that holds a reading gives one, in order.
pub fn parse_wear_reading_from_csv_file(
    csv_data: &str,
    facility_name: String,
    machine_type: String,
    equipment_id: String,
    equipment_version: String,
) -> (r: Result<Vec<WearReading>, CsvError>)
    requires
        !csv_file_panics(csv_data@),
    ensures
        csv_file_outcome(
            csv_data@,
            r,
            facility_name@,
            machine_type@,
            equipment_id@,
            equipment_version@,
        ),
{
    match read_csv_file(csv_data, facility_name, machine_type, equipment_id, equipment_version) {
        Some(r) => r,
        None => {
            assert(false);
            Err(CsvError::EmptyCsv)
        },
    }
}

/// The readings of a CSV file, or `None` where a data line fails hard
/// (where `parse_wear_reading_from_csv_file` cannot be called).
pub fn checked_parse_wear_reading_from_csv_file(
    csv_data: &str,
    facility_name: String,
    machine_type: String,
    equipment_id: String,
    equipment_version: String,
) -> (r: Option<Result<Vec<WearReading>, CsvError>>)
    ensures
        r is None <==> csv_file_panics(csv_data@),
        r matches Some(x) ==> csv_file_outcome(
            csv_data@,
            x,
            facility_name@,
            machine_type@,
            equipment_id@,
            equipment_version@,
        ),
{
    read_csv_file(csv_data, facility_name, machine_type, equipment_id, equipment_version)
}

/// The words `ws` joined with single spaces.
pub open spec fn join_words(ws: Seq<Seq<char>>) -> Seq<char>
    decreases ws.len(),
{
    if ws.len() == 0 {
        Seq::empty()
    } else if ws.len() == 1 {
        ws[0]
    } else {
        join_words(ws.drop_last()) + seq![' '] + ws.last()
    }
}

/// The file name on a line of a Unix-style directory listing: its words
/// from the ninth on, joined with single spaces.
pub open spec fn listing_name(line: Seq<char>) -> Seq<char> {
    join_words(words(line).skip(8))
}

/// The texts of a sequence of strings.
pub open spec fn string_views(s: Seq<String>) -> Seq<Seq<char>> {
    s.map_values(|x: String| x@)
}

/// `s` is in the order of `str`'s `cmp`.
pub open spec fn texts_sorted(s: Seq<Seq<char>>) -> bool {
    forall|i: int, j: int| 0 <= i < j < s.len() ==> !text_lt(#[trigger] s[j], #[trigger] s[i])
}

/// The file name on a listing line.
fn listing_entry_name(line: &str) -> (r: String)
    requires
        words(line@).len() >= 8,
    ensures
        r@ == listing_name(line@),
{
    let v = chars_of(line);
    let n = v.len();
    let spans = word_spans(&v, 0, n);
    let ghost ws = words(line@);
    assert(v@.subrange(0, n as int) =~= v@);
    let mut out = String::new();
    let mut k: usize = 8;
    assert(ws.skip(8).take(0) =~= Seq::<Seq<char>>::empty());
    while k < spans.len()
        invariant
            v@ == line@,
            ws == words(line@),
            spans_pick(v@, spans@, ws),
            8 <= k <= spans@.len(),
            out@ == join_words(ws.skip(8).take(k - 8)),
        decreases spans@.len() - k,
    {
        let (a, b) = spans[k];
        let w = substring(line, a, b);
        if k > 8 {
            out.append(" ");
        }
        out.append(w.as_str());
        proof {
            let t = ws.skip(8).take(k + 1 - 8);
            assert(t.drop_last() =~= ws.skip(8).take(k - 8));
            assert(t.last() == ws[k as int]);
            reveal_strlit(" ");
            assert(" "@ =~= seq![' ']);
            if k == 8 {
                assert(t =~= seq![ws[8]]);
            }
        }
        k = k + 1;
    }
    assert(ws.skip(8).take(spans@.len() - 8) =~= ws.skip(8));
    out
}

/// The file names of a Unix-style directory listing (each line's words
/// from the ninth on, joined with spaces), sorted in the order of `str`'s
/// `cmp`.
pub fn list_files_by_date(listing: &Vec<String>) -> (r: Vec<String>)
    requires
        forall|i: int| 0 <= i < listing@.len() ==> words((#[trigger] listing@[i])@).len() >= 8,
    ensures
        texts_sorted(string_views(r@)),
        string_views(r@).to_multiset() == listing@.map_values(
            |l: String| listing_name(l@),
        ).to_multiset(),
{
    let ghost names = listing@.map_values(|l: String| listing_name(l@));
    let mut out: Vec<String> = Vec::new();
    let mut k: usize = 0;
    assert(names.take(0) =~= Seq::<Seq<char>>::empty());
    assert(string_views(out@) =~= Seq::<Seq<char>>::empty());
    while k < listing.len()
        invariant
            names == listing@.map_values(|l: String| listing_name(l@)),
            forall|i: int| 0 <= i < listing@.len() ==> words((#[trigger] listing@[i])@).len() >= 8,
            k <= listing@.len(),
            texts_sorted(string_views(out@)),
            string_views(out@).to_multiset() == names.take(k as int).to_multiset(),
        decreases listing@.len() - k,
    {
        let name = listing_entry_name(listing[k].as_str());
        let key = chars_of(name.as_str());
        let ghost old_views = string_views(out@);
        let mut p: usize = 0;
        while p < out.len() && !text_less(&key, &chars_of(out[p].as_str()))
            invariant
                p <= out@.len(),
                old_views == string_views(out@),
                key@ == name@,
                forall|i: int| 0 <= i < p ==> !text_lt(key@, #[trigger] old_views[i]),
            decreases out@.len() - p,
        {
            p = p + 1;
        }
        proof {
            assert(p < out@.len() ==> text_lt(key@, old_views[p as int]));
        }
        out.insert(p, name);
        proof {
            let nv = string_views(out@);
            assert(nv =~= old_views.insert(p as int, name@));
            assert forall|i: int, j: int| 0 <= i < j < nv.len() implies !text_lt(
                #[trigger] nv[j],
                #[trigger] nv[i],
            ) by {
                if j < p {
                } else if j == p {
                } else if i > p {
                    assert(nv[i] == old_views[i - 1]);
                    assert(nv[j] == old_views[j - 1]);
                } else if i == p {
                    assert(nv[j] == old_views[j - 1]);
                    lemma_text_lt_asym(name@, old_views[p as int]);
                    if j - 1 > p {
                        if text_lt(old_views[j - 1], name@) {
                            lemma_text_lt_trans(old_views[j - 1], name@, old_views[p as int]);
                        }
                    }
                } else {
                    assert(nv[i] == old_views[i]);
                    assert(nv[j] == old_views[j - 1]);
                }
            }
            assert(names.take(k + 1) =~= names.take(k as int).push(name@));
            vstd::seq_lib::to_multiset_build(names.take(k as int), name@);
            vstd::seq_lib::to_multiset_insert(old_views, p as int, name@);
        }
        k = k + 1;
    }
    assert(names.take(listing@.len() as int) =~= names);
    out
}

/// Where a pass resumes in the sorted file names: just after the first file
/// named `last_file` (the file the previous pass ended with), or at the
/// start when no file has that name.
pub open spec fn resume_index(files: Seq<Seq<char>>, last_file: Seq<char>) -> int {
    if exists|i: int| 0 <= i < files.len() && files[i] == last_file {
        1 + choose|i: int|
            0 <= i < files.len() && files[i] == last_file && forall|j: int|
                0 <= j < i ==> files[j] != last_file
    } else {
        0
    }
}

/// Where a pass over the sorted file names starts: after the first file
/// named `last_file` (at the start if none is), or at the last file in a
/// one-shot pass.  An index equal to the number of files means that there
/// is no new file.
pub fn observe_start_index(files: &Vec<String>, last_file: &str, oneshot: bool) -> (r: usize)
    requires
        oneshot ==> files@.len() > 0,
    ensures
        oneshot ==> r == files@.len() - 1,
        !oneshot ==> r == resume_index(string_views(files@), last_file@),
        r <= files@.len(),
{
    let ghost fv = string_views(files@);
    let mut i: usize = 0;
    while i < files.len()
        invariant
            fv == string_views(files@),
            i <= files@.len(),
            oneshot ==> files@.len() > 0,
            forall|j: int| 0 <= j < i ==> fv[j] != last_file@,
        decreases files@.len() - i,
    {
        if crate::text::same_text(files[i].as_str(), last_file) {
            proof {
                assert(fv[i as int] == last_file@);
                let c = choose|c: int|
                    0 <= c < fv.len() && fv[c] == last_file@ && forall|j: int|
                        0 <= j < c ==> fv[j] != last_file@;
                assert(c == i) by {
                    if c < i {
                    } else if c > i {
                    }
                }
            }
            if oneshot {
                return files.len() - 1;
            }
            return i + 1;
        }
        i = i + 1;
    }
    assert(!exists|j: int| 0 <= j < fv.len() && fv[j] == last_file@);
    if oneshot {
        files.len() - 1
    } else {
        0
    }
}

} // verus!
