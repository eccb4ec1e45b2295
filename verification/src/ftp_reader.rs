//! The FTP reader's logic: the state it keeps between runs, the entries of
//! a Windows-style directory listing, the order in which files are read,
//! the lines of a file from a given line on, and the decisions of a pass.
use vstd::prelude::*;
use vstd::string::*;
use crate::observation::string_views;
use crate::text::{
    after_words, after_words_at, chars_of, lemma_lines_append, line_piece_spans, line_pieces, lines,
    same_text, spans_pick,
    std_to_uppercase, strip_terminator_span, substring, to_uppercase, trim, trim_span, word_spans,
    words,
};
use crate::time::{UnixTime, chrono_parse_naive_datetime, parse_naive_datetime, time_le};

verus! {

broadcast use vstd::string::group_string_axioms;

/// A file of the remote directory: its name and when it was last modified.
pub struct FtpFileEntry {
    pub name: String,
    pub modified: UnixTime,
}

impl View for FtpFileEntry {
    type V = (Seq<char>, UnixTime);

    open spec fn view(&self) -> (Seq<char>, UnixTime) {
        (self.name@, self.modified)
    }
}

/// The views of a sequence of entries.
pub open spec fn entry_views(s: Seq<FtpFileEntry>) -> Seq<(Seq<char>, UnixTime)> {
    s.map_values(|e: FtpFileEntry| e@)
}

/// `c` is one of the characters that start the AM/PM marker.
pub open spec fn is_am_pm(c: char) -> bool {
    c == 'A' || c == 'P'
}

/// The first position of `A` or `P` in `t`.
pub open spec fn first_am_pm(t: Seq<char>) -> Option<int> {
    if exists|i: int| 0 <= i < t.len() && is_am_pm(t[i]) {
        Some(
            choose|i: int|
                0 <= i < t.len() && is_am_pm(t[i]) && forall|j: int| 0 <= j < i ==> !is_am_pm(t[j]),
        )
    } else {
        None
    }
}

/// The date and time text made of a date word and a time word: the date,
/// a space, the time with a space put before its AM/PM marker; `None` when
/// the time has no marker.
pub open spec fn listing_time_text(d: Seq<char>, t: Seq<char>) -> Option<Seq<char>> {
    match first_am_pm(t) {
        None => None,
        Some(k) => Some(d + " "@ + t.subrange(0, k) + " "@ + t.subrange(k, t.len() as int)),
    }
}

/// The date and time text of a listing line, from its first two words.
pub open spec fn dir_line_time_text(line: Seq<char>) -> Option<Seq<char>> {
    listing_time_text(words(line)[0], words(line)[1])
}

/// The name on a listing line: what follows its first three words (date,
/// time, and size or `<DIR>`), trimmed, so that it starts at the fourth
/// word and keeps the spaces inside a name.
pub open spec fn listing_name(line: Seq<char>) -> Seq<char> {
    trim(after_words(line, 3))
}

/// The entry a line of a Windows-style directory listing
/// (`MM-DD-YY  HH:MMAM  size-or-<DIR>  name`) stands for: `None` for a line
/// of fewer than four words, a directory, a date and time that do not
/// parse, or an empty name.  The name is the rest of the line from its
/// fourth word on, trimmed (see `listing_name`).
pub open spec fn dir_line_entry(line: Seq<char>) -> Option<(Seq<char>, UnixTime)> {
    let p = words(line);
    if p.len() < 4 || std_to_uppercase(p[2]) == "<DIR>"@ {
        None
    } else {
        match dir_line_time_text(line) {
            None => None,
            Some(text) => match chrono_parse_naive_datetime(text, "%m-%d-%y %I:%M %p"@) {
                None => None,
                Some(t) => {
                    let name = listing_name(line);
                    if name.len() == 0 {
                        None
                    } else {
                        Some((name, UnixTime { secs: t.0, nanos: t.1 }))
                    }
                },
            },
        }
    }
}

/// The first position of `A` or `P` among the characters `[lo, hi)` of `v`,
/// relative to `lo`.
fn find_am_pm(v: &Vec<char>, lo: usize, hi: usize) -> (r: Option<usize>)
    requires
        lo <= hi <= v@.len(),
    ensures
        match r {
            Some(k) => k < hi - lo && first_am_pm(v@.subrange(lo as int, hi as int)) == Some(
                k as int,
            ),
            None => first_am_pm(v@.subrange(lo as int, hi as int)) is None,
        },
{
    let ghost t = v@.subrange(lo as int, hi as int);
    let mut i: usize = lo;
    while i < hi
        invariant
            lo <= i <= hi <= v@.len(),
            t == v@.subrange(lo as int, hi as int),
            forall|j: int| 0 <= j < i - lo ==> !is_am_pm(#[trigger] t[j]),
        decreases hi - i,
    {
        if v[i] == 'A' || v[i] == 'P' {
            proof {
                let k = i - lo;
                assert(is_am_pm(t[k]));
                let c = choose|c: int|
                    0 <= c < t.len() && is_am_pm(t[c]) && forall|j: int|
                        0 <= j < c ==> !is_am_pm(t[j]);
                assert(c == k) by {
                    if c < k {
                    } else if c > k {
                    }
                }
            }
            return Some(i - lo);
        }
        i = i + 1;
    }
    assert(!exists|j: int| 0 <= j < t.len() && is_am_pm(t[j]));
    None
}

/// The date and time text made of a date word and a time word.
fn time_text(d: &str, t: &str) -> (r: Option<String>)
    ensures
        match r {
            Some(x) => listing_time_text(d@, t@) == Some(x@),
            None => listing_time_text(d@, t@) is None,
        },
{
    let v = chars_of(t);
    let n = v.len();
    assert(v@.subrange(0, n as int) =~= t@);
    let pos = match find_am_pm(&v, 0, n) {
        Some(k) => k,
        None => {
            return None;
        },
    };
    let time = substring(t, 0, pos);
    let am_pm = substring(t, pos, n);
    let mut text = String::from_str(d);
    text.append(" ");
    let ghost s1 = text@;
    text.append(time.as_str());
    let ghost s2 = text@;
    text.append(" ");
    let ghost s3 = text@;
    text.append(am_pm.as_str());
    assert(s1 == d@ + " "@);
    assert(s2 == s1 + t@.subrange(0, pos as int));
    assert(s3 == s2 + " "@);
    assert(text@ == s3 + t@.subrange(pos as int, t@.len() as int));
    Some(text)
}

/// The name on a listing line, from its fourth word on.
fn name_of(line: &str) -> (r: String)
    ensures
        r@ == listing_name(line@),
{
    let v = chars_of(line);
    let n = v.len();
    let start = after_words_at(&v, 3);
    let (a, b) = trim_span(&v, start, n);
    substring(line, a, b)
}

/// The entry a line of a Windows-style directory listing stands for.
pub fn parse_windows_dir_line(line: &str) -> (r: Option<FtpFileEntry>)
    ensures
        match r {
            Some(e) => dir_line_entry(line@) == Some(e@),
            None => dir_line_entry(line@) is None,
        },
{
    let v = chars_of(line);
    let n = v.len();
    let spans = word_spans(&v, 0, n);
    let ghost p = words(line@);
    assert(v@.subrange(0, n as int) =~= v@);
    if spans.len() < 4 {
        return None;
    }
    let kind = substring(line, spans[2].0, spans[2].1);
    let upper = to_uppercase(kind.as_str());
    if same_text(upper.as_str(), "<DIR>") {
        return None;
    }
    let date = substring(line, spans[0].0, spans[0].1);
    let time = substring(line, spans[1].0, spans[1].1);
    let text = match time_text(date.as_str(), time.as_str()) {
        Some(x) => x,
        None => {
            return None;
        },
    };
    let modified = match parse_naive_datetime(text.as_str(), "%m-%d-%y %I:%M %p") {
        Ok(t) => t,
        Err(_) => {
            return None;
        },
    };
    let name = name_of(line);
    if name.as_str().unicode_len() == 0 {
        return None;
    }
    Some(FtpFileEntry { name, modified })
}

/// The entries the lines `ls` of a listing stand for, in order; lines that
/// stand for none are left out.
pub open spec fn listing_entries(ls: Seq<Seq<char>>) -> Seq<(Seq<char>, UnixTime)>
    decreases ls.len(),
{
    if ls.len() == 0 {
        Seq::empty()
    } else {
        let r = listing_entries(ls.drop_last());
        match dir_line_entry(ls.last()) {
            Some(e) => r.push(e),
            None => r,
        }
    }
}

/// `a` is strictly earlier than `b`.
pub open spec fn time_lt(a: UnixTime, b: UnixTime) -> bool {
    a.secs < b.secs || (a.secs == b.secs && a.nanos < b.nanos)
}

/// The entries are in order of modification time.
pub open spec fn modified_sorted(s: Seq<(Seq<char>, UnixTime)>) -> bool {
    forall|i: int, j: int| 0 <= i < j < s.len() ==> time_le(#[trigger] s[i].1, #[trigger] s[j].1)
}

/// Whether an entry was modified at `c`.
pub open spec fn modified_at(c: UnixTime) -> spec_fn((Seq<char>, UnixTime)) -> bool {
    |e: (Seq<char>, UnixTime)| e.1 == c
}

/// The entries of `s` modified at `c`, in their order in `s`.
pub open spec fn with_modified(s: Seq<(Seq<char>, UnixTime)>, c: UnixTime) -> Seq<
    (Seq<char>, UnixTime),
> {
    s.filter(modified_at(c))
}

/// `r` is `s` sorted stably by modification time: `r` is in order of time,
/// and the entries of each time come in the order they have in `s`.
pub open spec fn stably_sorted_by_time(
    r: Seq<(Seq<char>, UnixTime)>,
    s: Seq<(Seq<char>, UnixTime)>,
) -> bool {
    &&& modified_sorted(r)
    &&& forall|c: UnixTime| #[trigger] with_modified(r, c) == with_modified(s, c)
}

/// Files sorted by time come earliest first: of two entries of a sorted
/// list, the earlier one was modified no later (seconds, then nanoseconds).
pub proof fn lemma_sorted_files_earliest_first(
    r: Seq<(Seq<char>, UnixTime)>,
    s: Seq<(Seq<char>, UnixTime)>,
    i: int,
    j: int,
)
    requires
        stably_sorted_by_time(r, s),
        0 <= i < j < r.len(),
    ensures
        r[i].1.secs < r[j].1.secs || (r[i].1.secs == r[j].1.secs && r[i].1.nanos <= r[j].1.nanos),
{
}

proof fn lemma_none_modified_at(s: Seq<(Seq<char>, UnixTime)>, c: UnixTime)
    requires
        forall|i: int| 0 <= i < s.len() ==> (#[trigger] s[i]).1 != c,
    ensures
        with_modified(s, c) == Seq::<(Seq<char>, UnixTime)>::empty(),
    decreases s.len(),
{
    if s.len() == 0 {
        reveal(Seq::filter);
        assert(with_modified(s, c) =~= Seq::<(Seq<char>, UnixTime)>::empty());
    } else {
        lemma_none_modified_at(s.drop_last(), c);
        s.drop_last().lemma_filter_push(s.last(), modified_at(c));
        assert(s.drop_last().push(s.last()) =~= s);
    }
}

/// Inserting `x` after the entries no later than it, and before the first
/// later one, keeps the order of time, and adds `x` at the end of the
/// entries of its time.
proof fn lemma_insert_by_time(
    o: Seq<(Seq<char>, UnixTime)>,
    p: int,
    x: (Seq<char>, UnixTime),
    c: UnixTime,
)
    requires
        modified_sorted(o),
        0 <= p <= o.len(),
        forall|i: int| 0 <= i < p ==> !time_lt(x.1, (#[trigger] o[i]).1),
        p < o.len() ==> time_lt(x.1, o[p].1),
    ensures
        modified_sorted(o.insert(p, x)),
        with_modified(o.insert(p, x), c) == if x.1 == c {
            with_modified(o, c).push(x)
        } else {
            with_modified(o, c)
        },
{
    let n = o.insert(p, x);
    assert forall|i: int, j: int| 0 <= i < j < n.len() implies time_le(
        #[trigger] n[i].1,
        #[trigger] n[j].1,
    ) by {
        if j < p {
        } else if j == p {
            assert(!time_lt(x.1, o[i].1));
        } else if i > p {
            assert(n[i] == o[i - 1]);
            assert(n[j] == o[j - 1]);
        } else if i == p {
            assert(n[j] == o[j - 1]);
            assert(time_le(o[p].1, o[j - 1].1) || j - 1 == p);
        } else {
            assert(n[i] == o[i]);
            assert(n[j] == o[j - 1]);
        }
    }
    let a = o.subrange(0, p);
    let b = o.subrange(p, o.len() as int);
    let pred = modified_at(c);
    assert(n =~= a.push(x) + b);
    assert(o =~= a + b);
    Seq::filter_distributes_over_add(a.push(x), b, pred);
    Seq::filter_distributes_over_add(a, b, pred);
    a.lemma_filter_push(x, pred);
    if x.1 == c {
        assert forall|i: int| 0 <= i < b.len() implies (#[trigger] b[i]).1 != c by {
            assert(b[i] == o[p + i]);
            assert(time_lt(x.1, o[p].1));
            if i > 0 {
                assert(time_le(o[p].1, o[p + i].1));
            }
        }
        lemma_none_modified_at(b, c);
        assert(a.filter(pred).push(x) + b.filter(pred) =~= a.filter(pred).push(x));
        assert(a.filter(pred) + b.filter(pred) =~= a.filter(pred));
    }
}

/// The files of a Windows-style directory listing, in order of
/// modification time; files of the same time keep their listing order.
pub fn get_sorted_files(listing: &Vec<String>) -> (r: Vec<FtpFileEntry>)
    ensures
        stably_sorted_by_time(entry_views(r@), listing_entries(string_views(listing@))),
{
    let ghost ls = string_views(listing@);
    let mut out: Vec<FtpFileEntry> = Vec::new();
    let mut k: usize = 0;
    proof {
        reveal(Seq::filter);
        assert(ls.take(0) =~= Seq::<Seq<char>>::empty());
        assert(entry_views(out@) =~= Seq::<(Seq<char>, UnixTime)>::empty());
        assert forall|c: UnixTime| #[trigger]
            with_modified(entry_views(out@), c) == with_modified(
                listing_entries(ls.take(0)),
                c,
            ) by {
            assert(with_modified(entry_views(out@), c) =~= Seq::<(Seq<char>, UnixTime)>::empty());
        }
    }
    while k < listing.len()
        invariant
            ls == string_views(listing@),
            k <= listing@.len(),
            stably_sorted_by_time(entry_views(out@), listing_entries(ls.take(k as int))),
        decreases listing@.len() - k,
    {
        let ghost before = listing_entries(ls.take(k as int));
        proof {
            assert(ls.take(k + 1).drop_last() =~= ls.take(k as int));
            assert(ls.take(k + 1).last() == listing@[k as int]@);
        }
        match parse_windows_dir_line(listing[k].as_str()) {
            None => {},
            Some(e) => {
                let ghost o = entry_views(out@);
                let mut p: usize = 0;
                while p < out.len() && !(e.modified.secs < out[p].modified.secs || (
                e.modified.secs == out[p].modified.secs && e.modified.nanos
                    < out[p].modified.nanos))
                    invariant
                        p <= out@.len(),
                        o == entry_views(out@),
                        forall|i: int| 0 <= i < p ==> !time_lt(e@.1, (#[trigger] o[i]).1),
                    decreases out@.len() - p,
                {
                    p = p + 1;
                }
                let ghost x = e@;
                out.insert(p, e);
                proof {
                    assert(entry_views(out@) =~= o.insert(p as int, x));
                    assert forall|c: UnixTime| #[trigger]
                        with_modified(entry_views(out@), c) == with_modified(before.push(x), c) by {
                        lemma_insert_by_time(o, p as int, x, c);
                        before.lemma_filter_push(x, modified_at(c));
                    }
                    lemma_insert_by_time(o, p as int, x, x.1);
                }
            },
        }
        k = k + 1;
    }
    assert(ls.take(listing@.len() as int) =~= ls);
    out
}

/// The number of lines of `content`, and its lines from line
/// `start_line_index` on (none when it starts past the end), without their
/// line terminators.
pub fn read_file_from_line(content: &str, start_line_index: usize) -> (r: (usize, Vec<String>))
    ensures
        r.0 == lines(content@).len(),
        string_views(r.1@) == if start_line_index <= lines(content@).len() {
            lines(content@).skip(start_line_index as int)
        } else {
            Seq::<Seq<char>>::empty()
        },
{
    let v = chars_of(content);
    let pieces = line_piece_spans(&v);
    let n = pieces.len();
    let ghost ls = lines(content@);
    assert(ls.len() == n);
    let mut out: Vec<String> = Vec::new();
    if start_line_index >= n {
        assert(string_views(out@) =~= Seq::<Seq<char>>::empty());
        assert(ls.skip(n as int) =~= Seq::<Seq<char>>::empty());
        return (n, out);
    }
    let mut k: usize = start_line_index;
    assert(string_views(out@) =~= ls.subrange(start_line_index as int, k as int));
    while k < n
        invariant
            v@ == content@,
            n == pieces@.len(),
            n == ls.len(),
            ls == lines(content@),
            spans_pick(v@, pieces@, line_pieces(v@)),
            start_line_index <= k <= n,
            string_views(out@) == ls.subrange(start_line_index as int, k as int),
        decreases n - k,
    {
        let (pa, pb) = pieces[k];
        let (a, b) = strip_terminator_span(&v, pa, pb);
        let line = substring(content, a, b);
        assert(line@ == ls[k as int]);
        let ghost prev = string_views(out@);
        out.push(line);
        assert(string_views(out@) =~= prev.push(ls[k as int]));
        assert(ls.subrange(start_line_index as int, k + 1) =~= prev.push(ls[k as int]));
        k = k + 1;
    }
    assert(ls.subrange(start_line_index as int, n as int) =~= ls.skip(start_line_index as int));
    (n, out)
}

/// What the reader keeps between runs: the file it reads and how many of
/// that file's lines it has already passed on.
pub struct FtpReaderState {
    pub last_file: Option<String>,
    pub last_line_index: usize,
}

impl View for FtpReaderState {
    type V = (Option<Seq<char>>, usize);

    open spec fn view(&self) -> (Option<Seq<char>>, usize) {
        (
            match self.last_file {
                Some(f) => Some(f@),
                None => None,
            },
            self.last_line_index,
        )
    }
}

impl Default for FtpReaderState {
    /// No file yet, at its first line.
    fn default() -> (r: Self)
        ensures
            r@ == (None::<Seq<char>>, 0usize),
    {
        FtpReaderState { last_file: None, last_line_index: 0 }
    }
}

/// The first position of an entry named `name`.
pub open spec fn first_named(list: Seq<(Seq<char>, UnixTime)>, name: Seq<char>) -> Option<int> {
    if exists|i: int| 0 <= i < list.len() && list[i].0 == name {
        Some(
            choose|i: int|
                0 <= i < list.len() && list[i].0 == name && forall|j: int|
                    0 <= j < i ==> list[j].0 != name,
        )
    } else {
        None
    }
}

/// Where reading resumes in a new file list, and the state it resumes
/// with: at the first file named as the saved file, with the saved line;
/// where there is none, at the first file from its first line, or nowhere
/// on an empty list (with the state cleared, or kept when no file was saved).
pub open spec fn resume_in_list(
    st: (Option<Seq<char>>, usize),
    list: Seq<(Seq<char>, UnixTime)>,
) -> (Option<int>, (Option<Seq<char>>, usize)) {
    let found = match st.0 {
        Some(n) => first_named(list, n),
        None => None,
    };
    match found {
        Some(i) => (Some(i), st),
        None => if list.len() > 0 {
            (Some(0), (Some(list[0].0), 0usize))
        } else if st.0 is Some {
            (None, (None, 0usize))
        } else {
            (None, st)
        },
    }
}

/// Whether two file lists hold the same names and times, in the same order.
fn same_file_list(a: &Vec<FtpFileEntry>, b: &Vec<FtpFileEntry>) -> (r: bool)
    ensures
        r == (entry_views(a@) == entry_views(b@)),
{
    if a.len() != b.len() {
        assert(entry_views(a@).len() != entry_views(b@).len());
        return false;
    }
    let mut i: usize = 0;
    while i < a.len()
        invariant
            a@.len() == b@.len(),
            i <= a@.len(),
            forall|j: int| 0 <= j < i ==> a@[j]@ == b@[j]@,
        decreases a@.len() - i,
    {
        if !same_text(a[i].name.as_str(), b[i].name.as_str()) || a[i].modified != b[i].modified {
            assert(entry_views(a@)[i as int] != entry_views(b@)[i as int]);
            return false;
        }
        i = i + 1;
    }
    assert(entry_views(a@) =~= entry_views(b@));
    true
}

/// The position of the first entry named `name`.
fn position_named(list: &Vec<FtpFileEntry>, name: &str) -> (r: Option<usize>)
    ensures
        match r {
            Some(i) => first_named(entry_views(list@), name@) == Some(i as int) && i
                < list@.len() && list@[i as int].name@ == name@,
            None => first_named(entry_views(list@), name@) is None,
        },
{
    let ghost nv = entry_views(list@);
    let mut i: usize = 0;
    while i < list.len()
        invariant
            nv == entry_views(list@),
            i <= list@.len(),
            forall|j: int| 0 <= j < i ==> nv[j].0 != name@,
        decreases list@.len() - i,
    {
        if same_text(list[i].name.as_str(), name) {
            proof {
                assert(nv[i as int].0 == name@);
                let c = choose|c: int|
                    0 <= c < nv.len() && nv[c].0 == name@ && forall|j: int|
                        0 <= j < c ==> nv[j].0 != name@;
                assert(c == i) by {
                    if c < i {
                    } else if c > i {
                    }
                }
            }
            return Some(i);
        }
        i = i + 1;
    }
    assert(!exists|j: int| 0 <= j < nv.len() && nv[j].0 == name@);
    None
}

/// What a pass does after reading the file being read.
#[derive(Clone, Copy, Debug, PartialEq, Eq, Structural)]
pub enum ReadStep {
    /// Pass the new lines on, in order.
    Forward,
    /// The file was done; reading moved on to the next file.
    MovedOn,
    /// No new line; wait for the file to grow.
    Wait,
}

/// The reader's progress through the files of the remote directory: its
/// saved state, the file list it last saw, and the position in that list
/// of the file it reads.
pub struct FtpReaderProgress {
    pub state: FtpReaderState,
    pub file_list: Vec<FtpFileEntry>,
    pub current_file_index: Option<usize>,
}

/// The effect of taking the file list `new_list`: an unchanged list (same
/// names and times in the same order) changes nothing; a changed one
/// replaces the list and resumes as `resume_in_list` says.
pub open spec fn file_list_applied(
    o: FtpReaderProgress,
    f: FtpReaderProgress,
    new_list: Seq<FtpFileEntry>,
    changed: bool,
) -> bool {
    &&& changed == (entry_views(o.file_list@) != entry_views(new_list))
    &&& !changed ==> f == o
    &&& changed ==> {
        let (idx, st) = resume_in_list(o.state@, entry_views(new_list));
        &&& f.file_list@ == new_list
        &&& f.current_file_index == match idx {
            Some(i) => Some(i as usize),
            None => None::<usize>,
        }
        &&& f.state@ == st
    }
}

/// Taking the same file list twice changes nothing the second time: a
/// file list is acted on once, when it changes.
pub proof fn lemma_file_list_taken_once(
    a: FtpReaderProgress,
    b: FtpReaderProgress,
    c: FtpReaderProgress,
    l1: Seq<FtpFileEntry>,
    l2: Seq<FtpFileEntry>,
    changed1: bool,
    changed2: bool,
)
    requires
        file_list_applied(a, b, l1, changed1),
        file_list_applied(b, c, l2, changed2),
        entry_views(l1) == entry_views(l2),
    ensures
        !changed2,
        c == b,
{
}

/// A changed list that still holds the file being read resumes at that
/// file (its first occurrence), with the saved state kept: no line is
/// read twice or skipped because the directory changed.
pub proof fn lemma_resume_keeps_place(
    st: (Option<Seq<char>>, usize),
    list: Seq<(Seq<char>, UnixTime)>,
    i: int,
)
    requires
        st.0 is Some,
        0 <= i < list.len(),
        list[i].0 == st.0->0,
        forall|j: int| 0 <= j < i ==> list[j].0 != st.0->0,
    ensures
        resume_in_list(st, list) == (Some(i), st),
{
    let n = st.0->0;
    let c = choose|c: int|
        0 <= c < list.len() && list[c].0 == n && forall|j: int| 0 <= j < c ==> list[j].0 != n;
    assert(c == i) by {
        if c < i {
        } else if c > i {
        }
    }
}

/// A changed, non-empty list that does not hold the file being read
/// restarts reading at the list's first file, from its first line: no file
/// of the new list is skipped.
pub proof fn lemma_missing_file_restarts_at_first(
    o: FtpReaderProgress,
    f: FtpReaderProgress,
    new_list: Seq<FtpFileEntry>,
)
    requires
        file_list_applied(o, f, new_list, true),
        new_list.len() > 0,
        forall|i: int| 0 <= i < new_list.len() ==> o.state@.0 != Some((#[trigger] new_list[i]).name@),
    ensures
        f.file_list@ == new_list,
        f.current_file_index == Some(0usize),
        f.state@ == (Some(new_list[0].name@), 0usize),
{
    let l = entry_views(new_list);
    if o.state@.0 is Some {
        let n = o.state@.0->0;
        assert forall|i: int| 0 <= i < l.len() implies l[i].0 != n by {
            assert(l[i] == new_list[i]@);
        }
    }
    assert(l[0] == new_list[0]@);
}

impl FtpReaderProgress {
    /// The position of the file being read is in the list, and the saved
    /// state names that file.
    pub open spec fn wf(&self) -> bool {
        match self.current_file_index {
            Some(i) => i < self.file_list@.len() && self.state@.0 == Some(
                self.file_list@[i as int].name@,
            ),
            None => true,
        }
    }

    /// Progress with the saved state and no file list yet.
    pub fn new(state: FtpReaderState) -> (r: Self)
        ensures
            r.wf(),
            r.state@ == state@,
            r.file_list@.len() == 0,
            r.current_file_index is None,
    {
        FtpReaderProgress { state, file_list: Vec::new(), current_file_index: None }
    }

    /// Takes a freshly listed file list.  An unchanged list changes
    /// nothing; a changed one replaces the list and resumes as
    /// `resume_in_list` says.  Returns whether the list changed (and the
    /// state is then to be saved).
    pub fn apply_file_list(&mut self, new_list: Vec<FtpFileEntry>) -> (changed: bool)
        requires
            old(self).wf(),
        ensures
            final(self).wf(),
            file_list_applied(*old(self), *final(self), new_list@, changed),
    {
        if same_file_list(&self.file_list, &new_list) {
            return false;
        }
        let ghost nv = entry_views(new_list@);
        self.file_list = new_list;
        self.current_file_index = None;
        let found = match &self.state.last_file {
            Some(name) => position_named(&self.file_list, name.as_str()),
            None => None,
        };
        match found {
            Some(i) => {
                self.current_file_index = Some(i);
            },
            None => {
                let had_file = self.state.last_file.is_some();
                if self.file_list.len() > 0 {
                    let first = self.file_list[0].name.clone();
                    self.state = FtpReaderState { last_file: Some(first), last_line_index: 0 };
                    self.current_file_index = Some(0);
                } else if had_file {
                    self.state = FtpReaderState::default();
                }
            },
        }
        true
    }

    /// The file to read next: its position, its name and the line to read
    /// it from; `None` when no file is being read.
    pub fn current_file(&self) -> (r: Option<(usize, String, usize)>)
        ensures
            match self.current_file_index {
                Some(i) if i < self.file_list@.len() => r matches Some(x) && x.0 == i
                    && x.1@ == self.file_list@[i as int].name@ && x.2
                    == self.state.last_line_index,
                _ => r is None,
            },
    {
        match self.current_file_index {
            Some(i) => {
                if i < self.file_list.len() {
                    Some((i, self.file_list[i].name.clone(), self.state.last_line_index))
                } else {
                    None
                }
            },
            None => None,
        }
    }

    /// One more line of the current file has been passed on.
    pub fn record_line_forwarded(&mut self)
        requires
            old(self).wf(),
            old(self).state.last_line_index < usize::MAX,
        ensures
            final(self).wf(),
            final(self).state.last_line_index == old(self).state.last_line_index + 1,
            final(self).state@.0 == old(self).state@.0,
            final(self).file_list@ == old(self).file_list@,
            final(self).current_file_index == old(self).current_file_index,
    {
        self.state.last_line_index = self.state.last_line_index + 1;
    }

    /// The new lines of the file at `idx` have all been passed on: the
    /// state names that file.
    pub fn finish_file_lines(&mut self, idx: usize)
        requires
            old(self).wf(),
            idx < old(self).file_list@.len(),
            old(self).current_file_index == Some(idx),
        ensures
            final(self).wf(),
            final(self).state@ == (
                Some(old(self).file_list@[idx as int].name@),
                old(self).state.last_line_index,
            ),
            final(self).file_list@ == old(self).file_list@,
            final(self).current_file_index == old(self).current_file_index,
    {
        let name = self.file_list[idx].name.clone();
        self.state.last_file = Some(name);
    }

    /// A read of the file at `idx`, which has `total_lines` lines, gave no
    /// new line.  Where the state is at or past the end of the file and a
    /// next file exists, reading moves to the next file, from its first
    /// line, and `true` is returned; otherwise nothing changes.
    pub fn after_empty_read(&mut self, idx: usize, total_lines: usize) -> (moved: bool)
        requires
            old(self).wf(),
            idx < old(self).file_list@.len(),
            old(self).current_file_index == Some(idx),
        ensures
            final(self).wf(),
            moved == (old(self).state.last_line_index >= total_lines && idx + 1 < old(
                self,
            ).file_list@.len()),
            moved ==> {
                &&& final(self).current_file_index == Some((idx + 1) as usize)
                &&& final(self).state@ == (
                    Some(old(self).file_list@[idx + 1].name@),
                    0usize,
                )
                &&& final(self).file_list@ == old(self).file_list@
            },
            !moved ==> *final(self) == *old(self),
    {
        let next_file_exists = idx < self.file_list.len() - 1;
        let reached_eof = self.state.last_line_index >= total_lines;
        if reached_eof && next_file_exists {
            let next = self.file_list[idx + 1].name.clone();
            self.current_file_index = Some(idx + 1);
            self.state = FtpReaderState { last_file: Some(next), last_line_index: 0 };
            true
        } else {
            false
        }
    }

    /// What a pass does after reading the file at `idx`, which has
    /// `total_lines` lines, from the saved position, the read having given
    /// `new_lines` lines: with new lines, pass them on (nothing changes yet:
    /// each line passed on is then recorded with `record_line_forwarded`,
    /// and the file with `finish_file_lines`); without, move on to the next
    /// file where this one is done (as `after_empty_read`), or wait.
    pub fn after_read(&mut self, idx: usize, total_lines: usize, new_lines: usize) -> (r: ReadStep)
        requires
            old(self).wf(),
            idx < old(self).file_list@.len(),
            old(self).current_file_index == Some(idx),
        ensures
            final(self).wf(),
            new_lines > 0 ==> r == ReadStep::Forward && *final(self) == *old(self),
            new_lines == 0 ==> {
                let moved = old(self).state.last_line_index >= total_lines && idx + 1 < old(
                    self,
                ).file_list@.len();
                &&& r == if moved {
                    ReadStep::MovedOn
                } else {
                    ReadStep::Wait
                }
                &&& moved ==> {
                    &&& final(self).current_file_index == Some((idx + 1) as usize)
                    &&& final(self).state@ == (Some(old(self).file_list@[idx + 1].name@), 0usize)
                    &&& final(self).file_list@ == old(self).file_list@
                }
                &&& !moved ==> *final(self) == *old(self)
            },
    {
        if new_lines > 0 {
            ReadStep::Forward
        } else if self.after_empty_read(idx, total_lines) {
            ReadStep::MovedOn
        } else {
            ReadStep::Wait
        }
    }

    /// After a failed pass no file is being read until the list changes.
    pub fn reset_after_error(&mut self)
        ensures
            final(self).wf(),
            final(self).current_file_index is None,
            final(self).state@ == old(self).state@,
            final(self).file_list@ == old(self).file_list@,
    {
        self.current_file_index = None;
    }
}

/// The pause before the next pass, in seconds: one after a pass that did
/// something, three after an idle one, ten after a failed one (`None`).
pub fn poll_delay_secs(pass: Option<bool>) -> (r: u64)
    ensures
        r == match pass {
            Some(true) => 1u64,
            Some(false) => 3u64,
            None => 10u64,
        },
{
    match pass {
        Some(true) => 1,
        Some(false) => 3,
        None => 10,
    }
}

/// Reading resumes exactly at the new lines: after a read from line `s` of
/// a file whose lines are all complete, passing on every line it returned
/// brings the position to the file's line count, and a read from there of
/// the file grown by `b` returns the lines of `b` and nothing else.  The
/// two reads together pass on the lines of the grown file from line `s`
/// on, each once and in order.
pub proof fn lemma_read_resumes_at_new_lines(a: Seq<char>, b: Seq<char>, s: int)
    requires
        0 <= s <= lines(a).len(),
        a.len() == 0 || a.last() == '\n',
    ensures
        s + lines(a).skip(s).len() == lines(a).len(),
        lines(a + b).skip(s + lines(a).skip(s).len()) == lines(b),
        lines(a).skip(s) + lines(a + b).skip(s + lines(a).skip(s).len()) == lines(a + b).skip(s),
{
    lemma_lines_append(a, b);
    assert((lines(a) + lines(b)).skip(lines(a).len() as int) =~= lines(b));
    assert(lines(a).skip(s) + lines(b) =~= (lines(a) + lines(b)).skip(s));
}

} // verus!
