use vstd::prelude::*;

verus! {

/// Field separator between a key and its value.
pub const SEP: u8 = 59;

/// Record terminator.
pub const NL: u8 = 10;

pub const MINUS: u8 = 45;

pub const DOT: u8 = 46;

pub open spec fn is_digit(b: u8) -> bool {
    48 <= b <= 57
}

pub open spec fn digit_value(b: u8) -> int {
    b as int - 48
}

pub open spec fn is_negative(v: Seq<u8>) -> bool {
    v.len() > 0 && v[0] == MINUS
}

/// Number of bytes after the optional sign.
pub open spec fn unsigned_len(v: Seq<u8>) -> int {
    if is_negative(v) {
        v.len() - 1
    } else {
        v.len() as int
    }
}

/// A value field: an optional `-`, one or two digits, `.`, one digit.
pub open spec fn is_value_text(v: Seq<u8>) -> bool {
    let n = v.len() as int;
    &&& (unsigned_len(v) == 3 || unsigned_len(v) == 4)
    &&& is_digit(v[n - 1])
    &&& v[n - 2] == DOT
    &&& is_digit(v[n - 3])
    &&& unsigned_len(v) == 4 ==> is_digit(v[n - 4])
}

/// The value of a field in tenths, exactly: `"-12.3"` is `-123`.
pub open spec fn value_of(v: Seq<u8>) -> int {
    let n = v.len() as int;
    let tens = if unsigned_len(v) == 4 {
        digit_value(v[n - 4])
    } else {
        0
    };
    let magnitude = 100 * tens + 10 * digit_value(v[n - 3]) + digit_value(v[n - 1]);
    if is_negative(v) {
        -magnitude
    } else {
        magnitude
    }
}

pub proof fn lemma_value_range(v: Seq<u8>)
    requires
        is_value_text(v),
    ensures
        -999 <= value_of(v) <= 999,
{
}

/// Decodes the value field `data[start..end]` into tenths.
///
/// The three digits sit at fixed distances from the end of the field; the
/// byte four back is the tens digit exactly when it is a digit, so the field
/// must not be preceded by a digit when it has no tens digit.
pub fn parse_value(data: &[u8], start: usize, end: usize) -> (r: i16)
    requires
        start < end <= data@.len(),
        is_value_text(data@.subrange(start as int, end as int)),
        end - start == 3 ==> start >= 1 && !is_digit(data@[start - 1]),
    ensures
        r as int == value_of(data@.subrange(start as int, end as int)),
{
    let ghost v = data@.subrange(start as int, end as int);
    assert(end >= 4);
    let last = data[end - 1];
    let mid = data[end - 3];
    let high = data[end - 4];
    assert(last & 0x0F == last - 48) by (bit_vector)
        requires
            48 <= last <= 57,
    ;
    assert(mid & 0x0F == mid - 48) by (bit_vector)
        requires
            48 <= mid <= 57,
    ;
    let dec = (last & 0x0F) as i16;
    let unit = (mid & 0x0F) as i16;
    // one subtraction both decodes the digit and tells whether it is one
    let ten = high.wrapping_sub(48u8);
    let has_tens = ten < 10;
    assert(has_tens <==> is_digit(high));
    assert(has_tens <==> unsigned_len(v) == 4) by {
        if v.len() >= 4 {
            assert(v[v.len() - 4] == high);
        }
        if end - start == 4 && is_negative(v) {
            assert(v[0] == high);
        }
    }
    let weight: i16 = if has_tens { 100 } else { 0 };
    let magnitude: i16 = dec + 10 * unit + weight * (ten as i16);
    let negative = data[start] == MINUS;
    assert(negative == is_negative(v));
    // two's complement negation without a branch: (x ^ -1) - (-1) == -x
    let mask: i16 = if negative { -1 } else { 0 };
    assert(0 <= magnitude <= 999);
    assert((magnitude ^ mask) - mask == if mask == -1 { -magnitude } else { magnitude as int })
        by (bit_vector)
        requires
            mask == 0 || mask == -1,
            0 <= magnitude <= 999,
    ;
    (magnitude ^ mask) - mask
}

/// Index of the first `b` in `s` at or after `from`; `s.len()` when there is none.
pub open spec fn first_from(s: Seq<u8>, b: u8, from: int) -> int
    decreases s.len() - from,
{
    if from >= s.len() {
        s.len() as int
    } else if s[from] == b {
        from
    } else {
        first_from(s, b, from + 1)
    }
}

pub proof fn lemma_first_from(s: Seq<u8>, b: u8, from: int)
    requires
        0 <= from <= s.len(),
    ensures
        from <= first_from(s, b, from) <= s.len(),
        first_from(s, b, from) < s.len() ==> s[first_from(s, b, from)] == b,
        forall|j: int| from <= j < first_from(s, b, from) ==> s[j] != b,
    decreases s.len() - from,
{
    if from < s.len() && s[from] != b {
        lemma_first_from(s, b, from + 1);
    }
}

/// `i` is the first `b` at or after `from` (or the end, when none is there).
pub proof fn lemma_first_from_at(s: Seq<u8>, b: u8, from: int, i: int)
    requires
        0 <= from <= i <= s.len(),
        i < s.len() ==> s[i] == b,
        forall|j: int| from <= j < i ==> s[j] != b,
    ensures
        first_from(s, b, from) == i,
    decreases i - from,
{
    if from < i {
        lemma_first_from_at(s, b, from + 1, i);
    }
}

/// Relies on memchr::memchr: the index of the first occurrence of `needle`
/// in `haystack`, or `None` when it does not occur.
#[verifier::external_body]
fn memchr_first(needle: u8, haystack: &[u8]) -> (r: Option<usize>)
    ensures
        match r {
            Some(i) => i < haystack@.len() && haystack@[i as int] == needle && forall|j: int|
                0 <= j < i ==> haystack@[j] != needle,
            None => forall|j: int| 0 <= j < haystack@.len() ==> haystack@[j] != needle,
        },
{
    memchr::memchr(needle, haystack)
}

/// Linear search for the first `b` at or after `from`.
pub fn search_from(data: &[u8], from: usize, b: u8) -> (r: Option<usize>)
    requires
        from <= data@.len(),
    ensures
        r == (if first_from(data@, b, from as int) < data@.len() {
            Some(first_from(data@, b, from as int) as usize)
        } else {
            None
        }),
{
    let rest = vstd::slice::slice_subrange(data, from, data.len());
    match memchr_first(b, rest) {
        Some(i) => {
            proof {
                assert forall|j: int| from <= j < from + i implies data@[j] != b by {
                    assert(rest@[j - from] == data@[j]);
                }
                assert(rest@[i as int] == data@[from + i]);
                lemma_first_from_at(data@, b, from as int, from + i);
            }
            Some(from + i)
        },
        None => {
            proof {
                assert forall|j: int| from <= j < data@.len() implies data@[j] != b by {
                    assert(rest@[j - from] == data@[j]);
                }
                lemma_first_from_at(data@, b, from as int, data@.len() as int);
            }
            None
        },
    }
}

/// Width of the first window: most records are found whole inside it.
pub const WIDE: usize = 16;

/// Width of the window after a separator: a value field and its terminator
/// take at most seven bytes.
pub const NARROW: usize = 8;

/// End of the window of `width` bytes that starts at `from`, cut at the end of `data`.
pub open spec fn window_end(len: int, from: int, width: int) -> int {
    if from + width <= len {
        from + width
    } else {
        len
    }
}

/// One pass over the window `data[from..from + width]` that looks for the
/// first separator and the first terminator at once.
fn scan_window(data: &[u8], from: usize, width: usize) -> (r: (Option<usize>, Option<usize>))
    requires
        from <= data@.len(),
    ensures
        ({
            let stop = window_end(data@.len() as int, from as int, width as int);
            &&& r.0 matches Some(i) ==> i == first_from(data@, SEP, from as int) && i < stop
            &&& r.0 is None ==> first_from(data@, SEP, from as int) >= stop
            &&& r.1 matches Some(i) ==> i == first_from(data@, NL, from as int) && i < stop
            &&& r.1 is None ==> first_from(data@, NL, from as int) >= stop
        }),
{
    let stop = if width <= data.len() - from {
        from + width
    } else {
        data.len()
    };
    let mut sep: Option<usize> = None;
    let mut nl: Option<usize> = None;
    let mut i = from;
    proof {
        lemma_first_from(data@, SEP, from as int);
        lemma_first_from(data@, NL, from as int);
    }
    while i < stop
        invariant
            from <= i <= stop <= data@.len(),
            stop == window_end(data@.len() as int, from as int, width as int),
            sep matches Some(k) ==> k == first_from(data@, SEP, from as int),
            sep is None ==> forall|j: int| from <= j < i ==> data@[j] != SEP,
            nl matches Some(k) ==> k == first_from(data@, NL, from as int),
            nl is None ==> forall|j: int| from <= j < i ==> data@[j] != NL,
            sep matches Some(k) ==> k < i,
            nl matches Some(k) ==> k < i,
        decreases stop - i,
    {
        let c = data[i];
        if c == SEP && sep.is_none() {
            proof {
                lemma_first_from_at(data@, SEP, from as int, i as int);
            }
            sep = Some(i);
        }
        if c == NL && nl.is_none() {
            proof {
                lemma_first_from_at(data@, NL, from as int, i as int);
            }
            nl = Some(i);
        }
        i = i + 1;
    }
    (sep, nl)
}

/// The first `NL` after the separator at `sep`: a narrow window first, then
/// a linear search over the rest.
fn find_terminator(data: &[u8], sep: usize) -> (r: Option<usize>)
    requires
        sep < data@.len(),
    ensures
        r == (if first_from(data@, NL, sep + 1) < data@.len() {
            Some(first_from(data@, NL, sep + 1) as usize)
        } else {
            None
        }),
{
    assert(data@.len() == data.len());
    let from = sep + 1;
    let (_, nl) = scan_window(data, from, NARROW);
    match nl {
        Some(i) => Some(i),
        None => {
            let stop = if NARROW <= data.len() - from {
                from + NARROW
            } else {
                data.len()
            };
            proof {
                lemma_first_from(data@, NL, from as int);
                lemma_first_from(data@, NL, stop as int);
                lemma_first_from_at(
                    data@,
                    NL,
                    from as int,
                    first_from(data@, NL, stop as int),
                );
            }
            search_from(data, stop, NL)
        },
    }
}

/// Offsets of the separator and the terminator of the record that starts at
/// `from`, or `None` when no separator followed by a terminator is left.
///
/// A window of `WIDE` bytes is examined first; when it holds only the
/// separator, a narrow window after it is searched for the terminator; when
/// it holds neither, the separator is searched for linearly.
pub fn find_next(data: &[u8], from: usize) -> (r: Option<(usize, usize)>)
    requires
        from <= data@.len(),
    ensures
        r == (if has_record(data@, from as int) {
            Some((sep_from(data@, from as int) as usize, nl_from(data@, from as int) as usize))
        } else {
            None
        }),
{
    proof {
        lemma_first_from(data@, SEP, from as int);
    }
    let (sep, nl) = scan_window(data, from, WIDE);
    let sc = match sep {
        Some(sc) => {
            if let Some(nl) = nl {
                if nl > sc {
                    proof {
                        lemma_first_from(data@, NL, from as int);
                        lemma_first_from_at(data@, NL, sc + 1, nl as int);
                    }
                    return Some((sc, nl));
                }
            }
            sc
        },
        None => {
            let stop = if WIDE <= data.len() - from {
                from + WIDE
            } else {
                data.len()
            };
            proof {
                lemma_first_from(data@, SEP, stop as int);
                lemma_first_from_at(data@, SEP, from as int, first_from(data@, SEP, stop as int));
            }
            match search_from(data, stop, SEP) {
                Some(sc) => sc,
                None => {
                    return None;
                },
            }
        },
    };
    match find_terminator(data, sc) {
        Some(nl) => Some((sc, nl)),
        None => None,
    }
}

/// Offset of the separator of the record that starts at `p`.
pub open spec fn sep_from(s: Seq<u8>, p: int) -> int {
    first_from(s, SEP, p)
}

/// Offset of the terminator of the record that starts at `p`.
pub open spec fn nl_from(s: Seq<u8>, p: int) -> int {
    first_from(s, NL, sep_from(s, p) + 1)
}

/// A separator followed by a terminator is found from `p` on.
pub open spec fn has_record(s: Seq<u8>, p: int) -> bool {
    0 <= p <= s.len() && sep_from(s, p) < s.len() && nl_from(s, p) < s.len()
}

pub open spec fn record_key(s: Seq<u8>, p: int) -> Seq<u8> {
    s.subrange(p, sep_from(s, p))
}

pub open spec fn record_value(s: Seq<u8>, p: int) -> Seq<u8> {
    s.subrange(sep_from(s, p) + 1, nl_from(s, p))
}

/// Where the record after the one at `p` starts.
pub open spec fn record_end(s: Seq<u8>, p: int) -> int {
    nl_from(s, p) + 1
}

/// The (key, value field) pairs of the records met from `p` on whose first
/// byte is at most `stop`.
pub open spec fn records_in(s: Seq<u8>, p: int, stop: int) -> Seq<(Seq<u8>, Seq<u8>)>
    decreases s.len() - p,
    via records_in_decreases
{
    if p > stop || !has_record(s, p) {
        seq![]
    } else {
        seq![(record_key(s, p), record_value(s, p))] + records_in(s, record_end(s, p), stop)
    }
}

#[via_fn]
proof fn records_in_decreases(s: Seq<u8>, p: int, stop: int) {
    if has_record(s, p) {
        lemma_record_bounds(s, p);
    }
}

pub proof fn lemma_record_bounds(s: Seq<u8>, p: int)
    requires
        has_record(s, p),
    ensures
        p <= sep_from(s, p) < nl_from(s, p) < s.len(),
        s[sep_from(s, p)] == SEP,
        s[nl_from(s, p)] == NL,
        forall|j: int| p <= j < sep_from(s, p) ==> s[j] != SEP,
        forall|j: int| sep_from(s, p) < j < nl_from(s, p) ==> s[j] != NL,
{
    lemma_first_from(s, SEP, p);
    lemma_first_from(s, NL, sep_from(s, p) + 1);
}

/// Whether `data[start..end]` is a value field of the accepted shape.
pub fn is_value_field(data: &[u8], start: usize, end: usize) -> (r: bool)
    requires
        start <= end <= data@.len(),
    ensures
        r == is_value_text(data@.subrange(start as int, end as int)),
{
    let ghost v = data@.subrange(start as int, end as int);
    let n = end - start;
    if n == 0 {
        return false;
    }
    let negative = data[start] == MINUS;
    let body = if negative { n - 1 } else { n };
    assert(body == unsigned_len(v));
    if body != 3 && body != 4 {
        return false;
    }
    let last = data[end - 1];
    let dot = data[end - 2];
    let unit = data[end - 3];
    assert(v[v.len() - 1] == last && v[v.len() - 2] == dot && v[v.len() - 3] == unit);
    let ok = 48 <= last && last <= 57 && dot == DOT && 48 <= unit && unit <= 57;
    if body == 4 {
        let ten = data[end - 4];
        assert(v[v.len() - 4] == ten);
        ok && 48 <= ten && ten <= 57
    } else {
        ok
    }
}

/// Every value field of `recs` has the accepted shape.
pub open spec fn values_ok(recs: Seq<(Seq<u8>, Seq<u8>)>) -> bool {
    forall|i: int| 0 <= i < recs.len() ==> is_value_text(#[trigger] recs[i].1)
}

/// Walks the records of `data` from `current` on, stopping at the first one
/// that starts after `end`.
pub struct Finder<'a> {
    data: &'a [u8],
    current: usize,
    end: usize,
}

impl<'a> Finder<'a> {
    pub closed spec fn wf(&self) -> bool {
        self.current <= self.data@.len() && self.end < self.data@.len()
    }

    /// The records that are still to come, in order.
    pub closed spec fn remaining(&self) -> Seq<(Seq<u8>, Seq<u8>)> {
        records_in(self.data@, self.current as int, self.end as int)
    }

    pub fn new(data: &'a [u8], start: usize, end: usize) -> (r: Self)
        requires
            data@.len() > start,
            data@.len() > end,
        ensures
            r.wf(),
            r.remaining() == records_in(data@, start as int, end as int),
    {
        Finder { data, current: start, end }
    }

    /// The key and the decoded value of the next record.
    pub fn next(&mut self) -> (r: Option<(&'a [u8], i16)>)
        requires
            old(self).wf(),
            values_ok(old(self).remaining()),
        ensures
            final(self).wf(),
            old(self).remaining().len() == 0 ==> r is None && final(self).remaining() == old(
                self,
            ).remaining(),
            old(self).remaining().len() > 0 ==> {
                &&& r matches Some((k, t)) && k@ == old(self).remaining()[0].0 && t as int
                    == value_of(old(self).remaining()[0].1)
                &&& final(self).remaining() == old(self).remaining().drop_first()
            },
    {
        if self.end < self.current {
            return None;
        }
        let ghost s = self.data@;
        let ghost p = self.current as int;
        assert(s.len() == self.data.len());
        match find_next(self.data, self.current) {
            None => None,
            Some((sc, nl)) => {
                proof {
                    lemma_record_bounds(s, p);
                    assert(is_value_text(old(self).remaining()[0].1));
                }
                let key = vstd::slice::slice_subrange(self.data, self.current, sc);
                let t = parse_value(self.data, sc + 1, nl);
                self.current = nl + 1;
                proof {
                    assert(self.remaining() =~= records_in(s, p, self.end as int).drop_first());
                }
                Some((key, t))
            },
        }
    }
}

} // verus!
