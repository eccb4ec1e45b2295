//! Character-level text processing: whitespace trimming, splitting, line
//! splitting and decimal integer parsing, each stated over `Seq<char>`.
use vstd::prelude::*;
use vstd::string::*;

verus! {

broadcast use vstd::string::group_string_axioms;

/// A span `[start, end)` of character positions.
pub type Span = (usize, usize);

/// Unicode `White_Space` characters, as `char::is_whitespace` recognises them.
pub open spec fn is_ws(c: char) -> bool {
    ||| ('\u{9}' <= c && c <= '\u{d}')
    ||| c == ' '
    ||| c == '\u{85}'
    ||| c == '\u{a0}'
    ||| c == '\u{1680}'
    ||| ('\u{2000}' <= c && c <= '\u{200a}')
    ||| c == '\u{2028}'
    ||| c == '\u{2029}'
    ||| c == '\u{202f}'
    ||| c == '\u{205f}'
    ||| c == '\u{3000}'
}

/// `s` with its leading whitespace removed.
pub open spec fn trim_start(s: Seq<char>) -> Seq<char>
    decreases s.len(),
{
    if s.len() > 0 && is_ws(s[0]) {
        trim_start(s.drop_first())
    } else {
        s
    }
}

/// `s` with its trailing whitespace removed.
pub open spec fn trim_end(s: Seq<char>) -> Seq<char>
    decreases s.len(),
{
    if s.len() > 0 && is_ws(s.last()) {
        trim_end(s.drop_last())
    } else {
        s
    }
}

/// `str::trim`: leading and trailing whitespace removed.
pub open spec fn trim(s: Seq<char>) -> Seq<char> {
    trim_end(trim_start(s))
}

/// `str::split` on a single character: the pieces between separators
/// (always at least one piece).
pub open spec fn split_on(s: Seq<char>, sep: char) -> Seq<Seq<char>>
    decreases s.len(),
{
    if s.len() == 0 {
        seq![Seq::<char>::empty()]
    } else {
        let r = split_on(s.drop_last(), sep);
        if s.last() == sep {
            r.push(Seq::<char>::empty())
        } else {
            r.update(r.len() - 1, r.last().push(s.last()))
        }
    }
}

/// `str::split_whitespace`: the maximal runs of non-whitespace characters.
pub open spec fn words(s: Seq<char>) -> Seq<Seq<char>>
    decreases s.len(),
{
    if s.len() == 0 {
        Seq::<Seq<char>>::empty()
    } else {
        let r = words(s.drop_last());
        if is_ws(s.last()) {
            r
        } else if s.len() >= 2 && !is_ws(s[s.len() - 2]) {
            r.update(r.len() - 1, r.last().push(s.last()))
        } else {
            r.push(seq![s.last()])
        }
    }
}

/// `str::split_inclusive('\n')`: each piece ends with `'\n'` except possibly
/// the last one; there is no empty piece.
pub open spec fn line_pieces(s: Seq<char>) -> Seq<Seq<char>>
    decreases s.len(),
{
    if s.len() == 0 {
        Seq::<Seq<char>>::empty()
    } else {
        let r = line_pieces(s.drop_last());
        if s.len() >= 2 && s[s.len() - 2] != '\n' {
            r.update(r.len() - 1, r.last().push(s.last()))
        } else {
            r.push(seq![s.last()])
        }
    }
}

/// A piece with its line terminator (`"\n"` or `"\r\n"`) removed.
pub open spec fn strip_terminator(p: Seq<char>) -> Seq<char> {
    if p.len() > 0 && p.last() == '\n' {
        let q = p.drop_last();
        if q.len() > 0 && q.last() == '\r' {
            q.drop_last()
        } else {
            q
        }
    } else {
        p
    }
}

/// `str::lines`.
pub open spec fn lines(s: Seq<char>) -> Seq<Seq<char>> {
    line_pieces(s).map_values(|p: Seq<char>| strip_terminator(p))
}

pub open spec fn is_digit(c: char) -> bool {
    '0' <= c && c <= '9'
}

pub open spec fn digit_value(c: char) -> int {
    (c as int) - ('0' as int)
}

pub open spec fn all_digits(s: Seq<char>) -> bool {
    forall|i: int| 0 <= i < s.len() ==> is_digit(#[trigger] s[i])
}

/// The value of a string of decimal digits.
pub open spec fn digits_value(s: Seq<char>) -> int
    decreases s.len(),
{
    if s.len() == 0 {
        0
    } else {
        10 * digits_value(s.drop_last()) + digit_value(s.last())
    }
}

/// Decimal digits with a sign: `None` when `body` is empty, holds a
/// non-digit, or its signed value does not fit in `i32`.
pub open spec fn parse_signed_digits(neg: bool, body: Seq<char>) -> Option<i32> {
    if body.len() == 0 || !all_digits(body) {
        None
    } else {
        let v = if neg {
            -digits_value(body)
        } else {
            digits_value(body)
        };
        if i32::MIN <= v && v <= i32::MAX {
            Some(v as i32)
        } else {
            None
        }
    }
}

/// `str::parse::<i32>`: an optional `+` or `-`, then one or more decimal
/// digits, whose value fits in `i32`.
pub open spec fn parse_i32_spec(s: Seq<char>) -> Option<i32> {
    if s.len() > 0 && s[0] == '-' {
        parse_signed_digits(true, s.drop_first())
    } else if s.len() > 0 && s[0] == '+' {
        parse_signed_digits(false, s.drop_first())
    } else {
        parse_signed_digits(false, s)
    }
}

/// `s` with its leading run of non-whitespace characters removed.
pub open spec fn skip_word(s: Seq<char>) -> Seq<char>
    decreases s.len(),
{
    if s.len() > 0 && !is_ws(s[0]) {
        skip_word(s.drop_first())
    } else {
        s
    }
}

/// What follows the first `k` words of `s` (as `words` counts them): the
/// leading whitespace and then one word are removed, `k` times.
pub open spec fn after_words(s: Seq<char>, k: nat) -> Seq<char>
    decreases k,
{
    if k == 0 {
        s
    } else {
        after_words(skip_word(trim_start(s)), (k - 1) as nat)
    }
}

/// Every span lies in `s` and picks out the corresponding piece.
pub open spec fn spans_pick(s: Seq<char>, spans: Seq<Span>, pieces: Seq<Seq<char>>) -> bool {
    &&& spans.len() == pieces.len()
    &&& forall|k: int|
        0 <= k < spans.len() ==> {
            &&& (#[trigger] spans[k]).0 <= spans[k].1 <= s.len()
            &&& s.subrange(spans[k].0 as int, spans[k].1 as int) == pieces[k]
        }
}

/// `char::is_whitespace`.
pub fn is_whitespace(c: char) -> (r: bool)
    ensures
        r == is_ws(c),
{
    ('\u{9}' <= c && c <= '\u{d}') || c == ' ' || c == '\u{85}' || c == '\u{a0}' || c
        == '\u{1680}' || ('\u{2000}' <= c && c <= '\u{200a}') || c == '\u{2028}' || c
        == '\u{2029}' || c == '\u{202f}' || c == '\u{205f}' || c == '\u{3000}'
}

/// Copies the characters of `s` into a vector.
pub fn chars_of(s: &str) -> (v: Vec<char>)
    ensures
        v@ == s@,
{
    let mut v: Vec<char> = Vec::new();
    for c in it: s.chars()
        invariant
            it.seq() == s@,
            v@ == it.seq().take(it.index() as int),
    {
        v.push(c);
    }
    v
}

/// The characters `[a, b)` of `s` as an owned string.
pub fn substring(s: &str, a: usize, b: usize) -> (r: String)
    requires
        a <= b <= s@.len(),
    ensures
        r@ == s@.subrange(a as int, b as int),
{
    s.substring_char(a, b).to_string()
}

proof fn lemma_trim_start_skip(s: Seq<char>, i: int)
    requires
        0 <= i <= s.len(),
        forall|j: int| 0 <= j < i ==> is_ws(#[trigger] s[j]),
    ensures
        trim_start(s) == trim_start(s.subrange(i, s.len() as int)),
    decreases i,
{
    if i > 0 {
        assert(s.drop_first() =~= s.subrange(1, s.len() as int));
        lemma_trim_start_skip(s.drop_first(), i - 1);
        assert(s.drop_first().subrange(i - 1, s.drop_first().len() as int) =~= s.subrange(
            i,
            s.len() as int,
        ));
    } else {
        assert(s.subrange(0, s.len() as int) =~= s);
    }
}

proof fn lemma_skip_word_skip(s: Seq<char>, i: int)
    requires
        0 <= i <= s.len(),
        forall|j: int| 0 <= j < i ==> !is_ws(#[trigger] s[j]),
    ensures
        skip_word(s) == skip_word(s.subrange(i, s.len() as int)),
    decreases i,
{
    if i > 0 {
        assert(s.drop_first() =~= s.subrange(1, s.len() as int));
        lemma_skip_word_skip(s.drop_first(), i - 1);
        assert(s.drop_first().subrange(i - 1, s.drop_first().len() as int) =~= s.subrange(
            i,
            s.len() as int,
        ));
    } else {
        assert(s.subrange(0, s.len() as int) =~= s);
    }
}

proof fn lemma_trim_end_skip(s: Seq<char>, k: int)
    requires
        0 <= k <= s.len(),
        forall|j: int| k <= j < s.len() ==> is_ws(#[trigger] s[j]),
    ensures
        trim_end(s) == trim_end(s.subrange(0, k)),
    decreases s.len() - k,
{
    if k < s.len() {
        assert(s.drop_last() =~= s.subrange(0, s.len() - 1));
        lemma_trim_end_skip(s.drop_last(), k);
        assert(s.drop_last().subrange(0, k) =~= s.subrange(0, k));
    } else {
        assert(s.subrange(0, k) =~= s);
    }
}

/// Trims the span `[lo, hi)` of `v`: the returned span holds `trim` of it.
pub fn trim_span(v: &Vec<char>, lo: usize, hi: usize) -> (r: Span)
    requires
        lo <= hi <= v@.len(),
    ensures
        lo <= r.0 <= r.1 <= hi,
        v@.subrange(r.0 as int, r.1 as int) == trim(v@.subrange(lo as int, hi as int)),
{
    let ghost s = v@.subrange(lo as int, hi as int);
    let mut a = lo;
    while a < hi && is_whitespace(v[a])
        invariant
            lo <= a <= hi <= v@.len(),
            s == v@.subrange(lo as int, hi as int),
            forall|j: int| lo <= j < a ==> is_ws(#[trigger] v@[j]),
        decreases hi - a,
    {
        a = a + 1;
    }
    proof {
        assert forall|j: int| 0 <= j < a - lo implies is_ws(#[trigger] s[j]) by {
            assert(s[j] == v@[lo + j]);
        }
        lemma_trim_start_skip(s, a - lo);
        assert(s.subrange(a - lo, s.len() as int) =~= v@.subrange(a as int, hi as int));
        if a < hi {
            assert(!is_ws(v@[a as int]));
            assert(v@.subrange(a as int, hi as int)[0] == v@[a as int]);
        }
    }
    let ghost t = v@.subrange(a as int, hi as int);
    assert(trim_start(s) == t);
    let mut b = hi;
    while b > a && is_whitespace(v[b - 1])
        invariant
            lo <= a <= b <= hi <= v@.len(),
            t == v@.subrange(a as int, hi as int),
            forall|j: int| b <= j < hi ==> is_ws(#[trigger] v@[j]),
        decreases b - a,
    {
        b = b - 1;
    }
    proof {
        assert forall|j: int| b - a <= j < t.len() implies is_ws(#[trigger] t[j]) by {
            assert(t[j] == v@[a + j]);
        }
        lemma_trim_end_skip(t, b - a);
        assert(t.subrange(0, b - a) =~= v@.subrange(a as int, b as int));
        if b > a {
            assert(v@.subrange(a as int, b as int).last() == v@[b - 1]);
        }
    }
    (a, b)
}

/// Splits the span `[lo, hi)` of `v` at each occurrence of `sep`.
pub fn split_spans(v: &Vec<char>, lo: usize, hi: usize, sep: char) -> (r: Vec<Span>)
    requires
        lo <= hi <= v@.len(),
    ensures
        spans_pick(v@, r@, split_on(v@.subrange(lo as int, hi as int), sep)),
        forall|k: int| 0 <= k < r@.len() ==> lo <= (#[trigger] r@[k]).0,
{
    let mut spans: Vec<Span> = Vec::new();
    let mut start = lo;
    let mut i = lo;
    assert(v@.subrange(lo as int, lo as int) =~= Seq::<char>::empty());
    assert(v@.subrange(start as int, i as int) =~= Seq::<char>::empty());
    while i < hi
        invariant
            lo <= start <= i <= hi <= v@.len(),
            split_on(v@.subrange(lo as int, i as int), sep).len() == spans@.len() + 1,
            spans_pick(
                v@,
                spans@,
                split_on(v@.subrange(lo as int, i as int), sep).take(spans@.len() as int),
            ),
            v@.subrange(start as int, i as int) == split_on(
                v@.subrange(lo as int, i as int),
                sep,
            ).last(),
            forall|k: int| 0 <= k < spans@.len() ==> lo <= (#[trigger] spans@[k]).0,
        decreases hi - i,
    {
        let ghost old_pieces = split_on(v@.subrange(lo as int, i as int), sep);
        let ghost p = v@.subrange(lo as int, i + 1);
        assert(p.drop_last() =~= v@.subrange(lo as int, i as int));
        assert(p.last() == v@[i as int]);
        if v[i] == sep {
            spans.push((start, i));
            start = i + 1;
            proof {
                let np = split_on(p, sep);
                assert(np == old_pieces.push(Seq::<char>::empty()));
                assert(np.take(spans@.len() as int) =~= old_pieces);
                assert(v@.subrange(start as int, i + 1) =~= Seq::<char>::empty());
            }
        } else {
            proof {
                let np = split_on(p, sep);
                assert(np == old_pieces.update(
                    old_pieces.len() - 1,
                    old_pieces.last().push(v@[i as int]),
                ));
                assert(np.take(spans@.len() as int) =~= old_pieces.take(spans@.len() as int));
                assert(v@.subrange(start as int, i + 1) =~= v@.subrange(
                    start as int,
                    i as int,
                ).push(v@[i as int]));
            }
        }
        i = i + 1;
    }
    let ghost pieces = split_on(v@.subrange(lo as int, hi as int), sep);
    spans.push((start, hi));
    assert(pieces =~= pieces.take(spans@.len() - 1).push(pieces.last()));
    spans
}

/// Splits the span `[lo, hi)` of `v` into its maximal non-whitespace runs.
pub fn word_spans(v: &Vec<char>, lo: usize, hi: usize) -> (r: Vec<Span>)
    requires
        lo <= hi <= v@.len(),
    ensures
        spans_pick(v@, r@, words(v@.subrange(lo as int, hi as int))),
        forall|k: int| 0 <= k < r@.len() ==> lo <= (#[trigger] r@[k]).0,
{
    let mut spans: Vec<Span> = Vec::new();
    let mut i = lo;
    let mut in_word = false;
    let mut start = lo;
    assert(v@.subrange(lo as int, lo as int) =~= Seq::<char>::empty());
    while i < hi
        invariant
            lo <= start <= i <= hi <= v@.len(),
            in_word ==> i > lo && !is_ws(v@[i - 1]),
            !in_word ==> (i == lo || is_ws(v@[i - 1])),
            in_word ==> words(v@.subrange(lo as int, i as int)).len() == spans@.len() + 1,
            in_word ==> v@.subrange(start as int, i as int) == words(
                v@.subrange(lo as int, i as int),
            ).last(),
            !in_word ==> words(v@.subrange(lo as int, i as int)).len() == spans@.len(),
            spans_pick(
                v@,
                spans@,
                words(v@.subrange(lo as int, i as int)).take(spans@.len() as int),
            ),
            forall|k: int| 0 <= k < spans@.len() ==> lo <= (#[trigger] spans@[k]).0,
        decreases hi - i,
    {
        let ghost old_w = words(v@.subrange(lo as int, i as int));
        let ghost p = v@.subrange(lo as int, i + 1);
        assert(p.drop_last() =~= v@.subrange(lo as int, i as int));
        assert(p.last() == v@[i as int]);
        proof {
            if p.len() >= 2 {
                assert(p[p.len() - 2] == v@[i - 1]);
            }
        }
        let c = v[i];
        if is_whitespace(c) {
            if in_word {
                spans.push((start, i));
                in_word = false;
                proof {
                    assert(words(p) == old_w);
                    assert(old_w.take(spans@.len() as int) =~= old_w);
                }
            } else {
                assert(words(p) == old_w);
            }
        } else {
            if in_word {
                proof {
                    let np = words(p);
                    assert(np == old_w.update(old_w.len() - 1, old_w.last().push(c)));
                    assert(np.take(spans@.len() as int) =~= old_w.take(spans@.len() as int));
                    assert(v@.subrange(start as int, i + 1) =~= v@.subrange(
                        start as int,
                        i as int,
                    ).push(c));
                }
            } else {
                start = i;
                in_word = true;
                proof {
                    let np = words(p);
                    assert(np == old_w.push(seq![c]));
                    assert(np.take(spans@.len() as int) =~= old_w.take(spans@.len() as int));
                    assert(v@.subrange(start as int, i + 1) =~= seq![c]);
                }
            }
        }
        i = i + 1;
    }
    let ghost w = words(v@.subrange(lo as int, hi as int));
    if in_word {
        spans.push((start, hi));
        assert(w =~= w.take(spans@.len() - 1).push(w.last()));
    } else {
        assert(w.take(spans@.len() as int) =~= w);
    }
    spans
}

/// The pieces of `v` as split by `str::split_inclusive('\n')`.
pub fn line_piece_spans(v: &Vec<char>) -> (r: Vec<Span>)
    ensures
        spans_pick(v@, r@, line_pieces(v@)),
{
    let mut spans: Vec<Span> = Vec::new();
    let mut i: usize = 0;
    let mut start: usize = 0;
    let n = v.len();
    assert(v@.subrange(0, 0) =~= Seq::<char>::empty());
    while i < n
        invariant
            n == v@.len(),
            start <= i <= n,
            i > 0 ==> start < i,
            i > 0 && v@[i - 1] == '\n' ==> line_pieces(v@.subrange(0, i as int)).len()
                == spans@.len(),
            i > 0 && v@[i - 1] != '\n' ==> line_pieces(v@.subrange(0, i as int)).len()
                == spans@.len() + 1,
            i > 0 && v@[i - 1] != '\n' ==> v@.subrange(start as int, i as int) == line_pieces(
                v@.subrange(0, i as int),
            ).last(),
            i == 0 ==> spans@.len() == 0,
            spans_pick(
                v@,
                spans@,
                line_pieces(v@.subrange(0, i as int)).take(spans@.len() as int),
            ),
        decreases n - i,
    {
        let ghost old_p = line_pieces(v@.subrange(0, i as int));
        let ghost p = v@.subrange(0, i + 1);
        assert(p.drop_last() =~= v@.subrange(0, i as int));
        assert(p.last() == v@[i as int]);
        proof {
            if p.len() >= 2 {
                assert(p[p.len() - 2] == v@[i - 1]);
            }
        }
        let c = v[i];
        if i > 0 && v[i - 1] != '\n' {
            // continue the open piece
            proof {
                let np = line_pieces(p);
                assert(np == old_p.update(old_p.len() - 1, old_p.last().push(c)));
                assert(np.take(spans@.len() as int) =~= old_p.take(spans@.len() as int));
                assert(v@.subrange(start as int, i + 1) =~= v@.subrange(
                    start as int,
                    i as int,
                ).push(c));
            }
        } else {
            // start a new piece
            start = i;
            proof {
                let np = line_pieces(p);
                assert(np == old_p.push(seq![c]));
                assert(np.take(spans@.len() as int) =~= old_p.take(spans@.len() as int));
                assert(v@.subrange(start as int, i + 1) =~= seq![c]);
            }
        }
        if c == '\n' {
            spans.push((start, i + 1));
            proof {
                let np = line_pieces(p);
                assert(np.take(spans@.len() as int) =~= np);
            }
        }
        i = i + 1;
    }
    let ghost lp = line_pieces(v@);
    assert(v@.subrange(0, n as int) =~= v@);
    if n > 0 && v[n - 1] != '\n' {
        spans.push((start, n));
        assert(lp =~= lp.take(spans@.len() - 1).push(lp.last()));
    } else if n > 0 {
        assert(lp.take(spans@.len() as int) =~= lp);
    } else {
        assert(lp =~= Seq::<Seq<char>>::empty());
    }
    spans
}

/// The span of a piece with its line terminator removed.
pub fn strip_terminator_span(v: &Vec<char>, a: usize, b: usize) -> (r: Span)
    requires
        a <= b <= v@.len(),
    ensures
        a <= r.0 <= r.1 <= b,
        r.0 == a,
        v@.subrange(r.0 as int, r.1 as int) == strip_terminator(
            v@.subrange(a as int, b as int),
        ),
{
    let ghost p = v@.subrange(a as int, b as int);
    if b > a && v[b - 1] == '\n' {
        assert(p.last() == v@[b - 1]);
        assert(p.drop_last() =~= v@.subrange(a as int, b - 1));
        if b - 1 > a && v[b - 2] == '\r' {
            assert(p.drop_last().last() == v@[b - 2]);
            assert(p.drop_last().drop_last() =~= v@.subrange(a as int, b - 2));
            (a, b - 2)
        } else {
            (a, b - 1)
        }
    } else {
        (a, b)
    }
}

proof fn lemma_digits_value_nonneg(s: Seq<char>)
    requires
        all_digits(s),
    ensures
        digits_value(s) >= 0,
    decreases s.len(),
{
    if s.len() > 0 {
        assert(all_digits(s.drop_last())) by {
            assert forall|i: int| 0 <= i < s.drop_last().len() implies is_digit(
                #[trigger] s.drop_last()[i],
            ) by {
                assert(s.drop_last()[i] == s[i]);
            }
        }
        lemma_digits_value_nonneg(s.drop_last());
        assert(is_digit(s[s.len() - 1]));
    }
}

proof fn lemma_digits_value_mono(s: Seq<char>, k: int)
    requires
        all_digits(s),
        0 <= k <= s.len(),
    ensures
        digits_value(s.take(k)) <= digits_value(s),
    decreases s.len(),
{
    if k < s.len() {
        assert(all_digits(s.drop_last())) by {
            assert forall|i: int| 0 <= i < s.drop_last().len() implies is_digit(
                #[trigger] s.drop_last()[i],
            ) by {
                assert(s.drop_last()[i] == s[i]);
            }
        }
        lemma_digits_value_mono(s.drop_last(), k);
        assert(s.drop_last().take(k) =~= s.take(k));
        lemma_digits_value_nonneg(s.drop_last());
        assert(is_digit(s[s.len() - 1]));
    } else {
        assert(s.take(k) =~= s);
    }
}

/// `str::parse::<i32>` on the span `[lo, hi)` of `v`.
pub fn parse_i32_span(v: &Vec<char>, lo: usize, hi: usize) -> (r: Option<i32>)
    requires
        lo <= hi <= v@.len(),
    ensures
        r == parse_i32_spec(v@.subrange(lo as int, hi as int)),
{
    let ghost s = v@.subrange(lo as int, hi as int);
    let mut neg = false;
    let mut i = lo;
    if lo < hi && (v[lo] == '-' || v[lo] == '+') {
        neg = v[lo] == '-';
        i = lo + 1;
    }
    let ghost body = v@.subrange(i as int, hi as int);
    proof {
        if s.len() > 0 && (s[0] == '-' || s[0] == '+') {
            assert(body =~= s.drop_first());
        } else {
            assert(body =~= s);
        }
    }
    assert(parse_i32_spec(s) == parse_signed_digits(neg, body));
    if i == hi {
        return None;
    }
    let start = i;
    let mut acc: i64 = 0;
    assert(body.take(0) =~= Seq::<char>::empty());
    while i < hi
        invariant
            lo <= start <= i <= hi <= v@.len(),
            start < hi,
            body == v@.subrange(start as int, hi as int),
            s == v@.subrange(lo as int, hi as int),
            parse_i32_spec(s) == parse_signed_digits(neg, body),
            all_digits(body.take(i - start)),
            acc == digits_value(body.take(i - start)),
            0 <= acc <= 0x8000_0000,
        decreases hi - i,
    {
        let c = v[i];
        assert(body[i - start] == c);
        if !('0' <= c && c <= '9') {
            assert(!all_digits(body));
            return None;
        }
        let d = (c as u32 - '0' as u32) as i64;
        proof {
            assert(body.take(i - start + 1).drop_last() =~= body.take(i - start));
            assert(body.take(i - start + 1).last() == c);
            assert(all_digits(body.take(i - start + 1))) by {
                assert forall|j: int| 0 <= j < body.take(i - start + 1).len() implies is_digit(
                    #[trigger] body.take(i - start + 1)[j],
                ) by {
                    if j < i - start {
                        assert(body.take(i - start + 1)[j] == body.take(i - start)[j]);
                    }
                }
            }
        }
        acc = acc * 10 + d;
        i = i + 1;
        if acc > 0x8000_0000 {
            proof {
                if all_digits(body) {
                    lemma_digits_value_mono(body, i - start);
                }
            }
            return None;
        }
    }
    assert(body.take(i - start) =~= body);
    if neg {
        Some((0 - acc) as i32)
    } else if acc <= 0x7fff_ffff {
        Some(acc as i32)
    } else {
        None
    }
}

/// The position in `v` at which what follows its first `k` words starts.
pub fn after_words_at(v: &Vec<char>, k: usize) -> (r: usize)
    ensures
        r <= v@.len(),
        v@.subrange(r as int, v@.len() as int) == after_words(v@, k as nat),
{
    let n = v.len();
    let mut i: usize = 0;
    let mut c: usize = 0;
    assert(v@.subrange(0, n as int) =~= v@);
    while c < k
        invariant
            i <= n == v@.len(),
            c <= k,
            after_words(v@, k as nat) == after_words(
                v@.subrange(i as int, n as int),
                (k - c) as nat,
            ),
        decreases k - c,
    {
        let ghost s = v@.subrange(i as int, n as int);
        let i0 = i;
        while i < n && is_whitespace(v[i])
            invariant
                i0 <= i <= n == v@.len(),
                forall|j: int| i0 <= j < i ==> is_ws(#[trigger] v@[j]),
            decreases n - i,
        {
            i = i + 1;
        }
        let ghost t = v@.subrange(i as int, n as int);
        proof {
            assert forall|j: int| 0 <= j < i - i0 implies is_ws(#[trigger] s[j]) by {
                assert(s[j] == v@[i0 + j]);
            }
            lemma_trim_start_skip(s, i - i0);
            assert(s.subrange(i - i0, s.len() as int) =~= t);
            if i < n {
                assert(t[0] == v@[i as int]);
            }
        }
        assert(trim_start(s) == t);
        let i1 = i;
        while i < n && !is_whitespace(v[i])
            invariant
                i1 <= i <= n == v@.len(),
                forall|j: int| i1 <= j < i ==> !is_ws(#[trigger] v@[j]),
            decreases n - i,
        {
            i = i + 1;
        }
        proof {
            assert forall|j: int| 0 <= j < i - i1 implies !is_ws(#[trigger] t[j]) by {
                assert(t[j] == v@[i1 + j]);
            }
            lemma_skip_word_skip(t, i - i1);
            assert(t.subrange(i - i1, t.len() as int) =~= v@.subrange(i as int, n as int));
            if i < n {
                assert(v@.subrange(i as int, n as int)[0] == v@[i as int]);
            }
        }
        assert(skip_word(t) == v@.subrange(i as int, n as int));
        c = c + 1;
    }
    i
}

/// Whether two strings hold the same characters.
pub fn same_text(a: &str, b: &str) -> (r: bool)
    ensures
        r == (a@ == b@),
{
    let x = chars_of(a);
    let y = chars_of(b);
    if x.len() != y.len() {
        return false;
    }
    let n = x.len();
    let mut i: usize = 0;
    while i < n
        invariant
            n == x@.len(),
            n == y@.len(),
            x@ == a@,
            y@ == b@,
            i <= n,
            forall|j: int| 0 <= j < i ==> x@[j] == y@[j],
        decreases n - i,
    {
        if x[i] != y[i] {
            return false;
        }
        i = i + 1;
    }
    assert(x@ =~= y@);
    true
}

/// The order of `str`'s `cmp`: lexicographic by code point (UTF-8 keeps the
/// code point order of characters).
pub open spec fn text_lt(a: Seq<char>, b: Seq<char>) -> bool
    decreases a.len(),
{
    if b.len() == 0 {
        false
    } else if a.len() == 0 {
        true
    } else if a[0] != b[0] {
        a[0] < b[0]
    } else {
        text_lt(a.drop_first(), b.drop_first())
    }
}

/// No text comes before a text that comes before it.
pub proof fn lemma_text_lt_asym(a: Seq<char>, b: Seq<char>)
    requires
        text_lt(a, b),
    ensures
        !text_lt(b, a),
    decreases a.len(),
{
    if a.len() > 0 && b.len() > 0 && a[0] == b[0] {
        lemma_text_lt_asym(a.drop_first(), b.drop_first());
    }
}

/// The order of texts is transitive.
pub proof fn lemma_text_lt_trans(a: Seq<char>, b: Seq<char>, c: Seq<char>)
    requires
        text_lt(a, b),
        text_lt(b, c),
    ensures
        text_lt(a, c),
    decreases a.len(),
{
    if a.len() > 0 && a[0] == b[0] && b[0] == c[0] {
        lemma_text_lt_trans(a.drop_first(), b.drop_first(), c.drop_first());
    }
}

/// Of two different texts, one comes first.
pub proof fn lemma_text_lt_total(a: Seq<char>, b: Seq<char>)
    requires
        a != b,
    ensures
        text_lt(a, b) || text_lt(b, a),
    decreases a.len(),
{
    if a.len() == 0 {
        assert(b.len() > 0) by {
            if b.len() == 0 {
                assert(a =~= b);
            }
        }
    } else if b.len() > 0 && a[0] == b[0] {
        if a.drop_first() == b.drop_first() {
            assert(a =~= seq![a[0]] + a.drop_first());
            assert(b =~= seq![b[0]] + b.drop_first());
        }
        lemma_text_lt_total(a.drop_first(), b.drop_first());
    }
}

/// The order of texts is code-point lexicographic: where `a` and `b` first
/// differ at position `k`, `a` comes first exactly when its character
/// there is the smaller.
pub proof fn lemma_text_lt_first_difference(a: Seq<char>, b: Seq<char>, k: int)
    requires
        0 <= k < a.len(),
        k < b.len(),
        forall|j: int| 0 <= j < k ==> a[j] == b[j],
        a[k] != b[k],
    ensures
        text_lt(a, b) == (a[k] < b[k]),
    decreases k,
{
    if k > 0 {
        assert(a[0] == b[0]);
        lemma_text_lt_first_difference(a.drop_first(), b.drop_first(), k - 1);
    }
}

/// A proper prefix comes first, and nothing comes before itself.
pub proof fn lemma_text_lt_prefix(a: Seq<char>, b: Seq<char>)
    requires
        a.len() <= b.len(),
        b.take(a.len() as int) == a,
    ensures
        text_lt(a, b) == (a.len() < b.len()),
        !text_lt(b, a),
    decreases a.len(),
{
    if a.len() > 0 {
        assert(a[0] == b[0]) by {
            assert(b.take(a.len() as int)[0] == b[0]);
        }
        assert(b.drop_first().take(a.drop_first().len() as int) =~= a.drop_first()) by {
            assert forall|j: int| 0 <= j < a.len() - 1 implies b.drop_first()[j] == a.drop_first()[j] by {
                assert(b.take(a.len() as int)[j + 1] == b[j + 1]);
            }
        }
        lemma_text_lt_prefix(a.drop_first(), b.drop_first());
    }
}

/// Whether `a` comes before `b` in the order of `str`'s `cmp`.
pub fn text_less(a: &Vec<char>, b: &Vec<char>) -> (r: bool)
    ensures
        r == text_lt(a@, b@),
{
    let mut i: usize = 0;
    assert(a@.skip(0) =~= a@);
    assert(b@.skip(0) =~= b@);
    while i < a.len() && i < b.len() && a[i] == b[i]
        invariant
            i <= a@.len(),
            i <= b@.len(),
            text_lt(a@, b@) == text_lt(a@.skip(i as int), b@.skip(i as int)),
        decreases a@.len() - i,
    {
        assert(a@.skip(i as int).drop_first() =~= a@.skip(i + 1));
        assert(b@.skip(i as int).drop_first() =~= b@.skip(i + 1));
        i = i + 1;
    }
    if i == b.len() {
        false
    } else if i == a.len() {
        true
    } else {
        a[i] < b[i]
    }
}

/// What `str::to_uppercase` gives for `s` (Unicode case mapping).
pub uninterp spec fn std_to_uppercase(s: Seq<char>) -> Seq<char>;

/// Calls `str::to_uppercase`.  Claimed: the result is the one named by
/// `std_to_uppercase` for `s`.
#[verifier::external_body]
pub(crate) fn to_uppercase(s: &str) -> (r: String)
    ensures
        r@ == std_to_uppercase(s@),
{
    s.to_uppercase()
}

proof fn lemma_line_pieces_nonempty(s: Seq<char>)
    requires
        s.len() > 0,
    ensures
        line_pieces(s).len() > 0,
    decreases s.len(),
{
    if s.len() >= 2 {
        lemma_line_pieces_nonempty(s.drop_last());
    }
}

proof fn lemma_line_pieces_append(a: Seq<char>, b: Seq<char>)
    requires
        a.len() == 0 || a.last() == '\n',
    ensures
        line_pieces(a + b) == line_pieces(a) + line_pieces(b),
    decreases b.len(),
{
    if b.len() == 0 {
        assert(a + b =~= a);
        assert(line_pieces(a) + line_pieces(b) =~= line_pieces(a));
    } else {
        let s = a + b;
        lemma_line_pieces_append(a, b.drop_last());
        assert(s.drop_last() =~= a + b.drop_last());
        assert(s.last() == b.last());
        let r = line_pieces(s.drop_last());
        let rb = line_pieces(b.drop_last());
        if b.len() >= 2 {
            assert(s[s.len() - 2] == b[b.len() - 2]);
            lemma_line_pieces_nonempty(b.drop_last());
            if b[b.len() - 2] != '\n' {
                assert(r.update(r.len() - 1, r.last().push(b.last())) =~= line_pieces(a) + rb.update(
                    rb.len() - 1,
                    rb.last().push(b.last()),
                ));
            } else {
                assert(r.push(seq![b.last()]) =~= line_pieces(a) + rb.push(seq![b.last()]));
            }
        } else {
            assert(b.drop_last() =~= Seq::<char>::empty());
            assert(line_pieces(b.drop_last()) =~= Seq::<Seq<char>>::empty());
            if a.len() > 0 {
                assert(s[s.len() - 2] == a.last());
            }
            assert(r.push(seq![b.last()]) =~= line_pieces(a) + rb.push(seq![b.last()]));
        }
    }
}

/// A text that grows by whole lines keeps its lines: where `a` is empty or
/// ends with a line feed, the lines of `a + b` are the lines of `a`
/// followed by the lines of `b`.  A reader that remembers how many lines of
/// a growing file it has passed on therefore resumes exactly at the new ones.
pub proof fn lemma_lines_append(a: Seq<char>, b: Seq<char>)
    requires
        a.len() == 0 || a.last() == '\n',
    ensures
        lines(a + b) == lines(a) + lines(b),
{
    lemma_line_pieces_append(a, b);
    let f = |p: Seq<char>| strip_terminator(p);
    assert((line_pieces(a) + line_pieces(b)).map_values(f) =~= line_pieces(a).map_values(f)
        + line_pieces(b).map_values(f));
}

} // verus!
