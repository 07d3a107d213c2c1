use vstd::prelude::*;

use crate::error::LogError;

verus! {

/// The logical name of a segment. Identifiers order by position, then by
/// generation; within one log the greatest identifier names the active segment.
#[derive(Clone, Copy, PartialEq, Eq, Structural, Debug, PartialOrd, Ord, Hash)]
pub struct SegmentId {
    pub pos: u64,
    pub gen: u64,
}

impl SegmentId {
    /// The identifier as the `(position, generation)` pair it orders by.
    pub open spec fn spec_key(self) -> (u64, u64) {
        (self.pos, self.gen)
    }

    pub fn key(&self) -> (r: (u64, u64))
        ensures
            r == self.spec_key(),
    {
        (self.pos, self.gen)
    }
}

/// Strict lexicographic order on `(position, generation)` keys.
pub open spec fn key_lt(a: (u64, u64), b: (u64, u64)) -> bool {
    a.0 < b.0 || (a.0 == b.0 && a.1 < b.1)
}

/// The identifier with the next position and the same generation.
pub open spec fn next_pos_of(id: SegmentId) -> SegmentId {
    SegmentId { pos: (id.pos + 1) as u64, gen: id.gen }
}

pub open spec fn digit_char(d: int) -> char {
    if d == 0 {
        '0'
    } else if d == 1 {
        '1'
    } else if d == 2 {
        '2'
    } else if d == 3 {
        '3'
    } else if d == 4 {
        '4'
    } else if d == 5 {
        '5'
    } else if d == 6 {
        '6'
    } else if d == 7 {
        '7'
    } else if d == 8 {
        '8'
    } else {
        '9'
    }
}

/// The value of a decimal digit, or -1 for any other character.
pub open spec fn char_digit(c: char) -> int {
    if c == '0' {
        0
    } else if c == '1' {
        1
    } else if c == '2' {
        2
    } else if c == '3' {
        3
    } else if c == '4' {
        4
    } else if c == '5' {
        5
    } else if c == '6' {
        6
    } else if c == '7' {
        7
    } else if c == '8' {
        8
    } else if c == '9' {
        9
    } else {
        -1
    }
}

pub open spec fn is_digit(c: char) -> bool {
    char_digit(c) >= 0
}

pub open spec fn all_digits(s: Seq<char>) -> bool {
    forall|i: int| 0 <= i < s.len() ==> is_digit(#[trigger] s[i])
}

/// Canonical decimal text of `n`, without leading zeros.
pub open spec fn decimal(n: nat) -> Seq<char>
    decreases n,
{
    if n < 10 {
        seq![digit_char(n as int)]
    } else {
        decimal(n / 10).push(digit_char((n % 10) as int))
    }
}

/// The number that a string of decimal digits denotes.
pub open spec fn decimal_value(s: Seq<char>) -> int
    decreases s.len(),
{
    if s.len() == 0 {
        0
    } else {
        decimal_value(s.drop_last()) * 10 + char_digit(s.last())
    }
}

/// A non-empty run of digits whose value fits in a `u64`.
pub open spec fn is_u64_text(s: Seq<char>) -> bool {
    s.len() > 0 && all_digits(s) && decimal_value(s) <= u64::MAX
}

pub open spec fn log_suffix() -> Seq<char> {
    seq!['.', 'l', 'o', 'g']
}

/// The filename of a segment: `{position}_{generation}.log`.
pub open spec fn filename_of(id: SegmentId) -> Seq<char> {
    decimal(id.pos as nat) + seq!['_'] + decimal(id.gen as nat) + log_suffix()
}

pub open spec fn has_log_suffix(s: Seq<char>) -> bool {
    s.len() >= 4 && s.subrange(s.len() - 4, s.len() as int) == log_suffix()
}

/// A name without its four-character suffix.
pub open spec fn stem_of(s: Seq<char>) -> Seq<char> {
    s.subrange(0, s.len() - 4)
}

/// `t` is two numbers joined by the separator at index `k`.
pub open spec fn splits_at(t: Seq<char>, k: int) -> bool {
    0 < k < t.len() && t[k] == '_' && is_u64_text(t.subrange(0, k)) && is_u64_text(
        t.subrange(k + 1, t.len() as int),
    )
}

/// The identifier that a filename names, if it has the segment filename shape.
pub open spec fn parse_filename(s: Seq<char>) -> Result<SegmentId, LogError> {
    if has_log_suffix(s) && exists|k: int| splits_at(stem_of(s), k) {
        let t = stem_of(s);
        let k = choose|k: int| splits_at(t, k);
        Ok(
            SegmentId {
                pos: decimal_value(t.subrange(0, k)) as u64,
                gen: decimal_value(t.subrange(k + 1, t.len() as int)) as u64,
            },
        )
    } else {
        Err(LogError::MalformedSegmentName)
    }
}

proof fn lemma_decimal(n: nat)
    ensures
        decimal(n).len() > 0,
        all_digits(decimal(n)),
        decimal_value(decimal(n)) == n,
    decreases n,
{
    if n < 10 {
        let s = decimal(n);
        assert(s.drop_last() =~= Seq::<char>::empty());
        assert(decimal_value(s.drop_last()) == 0);
        assert(s.last() == digit_char(n as int));
        assert(char_digit(digit_char(n as int)) == n);
    } else {
        lemma_decimal(n / 10);
        let s = decimal(n);
        assert(s.drop_last() =~= decimal(n / 10));
        assert(char_digit(digit_char((n % 10) as int)) == n % 10);
        assert(decimal_value(s) == (n / 10) * 10 + n % 10);
        assert forall|i: int| 0 <= i < s.len() implies is_digit(#[trigger] s[i]) by {
            if i < s.len() - 1 {
                assert(s[i] == decimal(n / 10)[i]);
            }
        }
    }
}

proof fn lemma_split_unique(t: Seq<char>, k1: int, k2: int)
    requires
        splits_at(t, k1),
        splits_at(t, k2),
    ensures
        k1 == k2,
{
    if k1 < k2 {
        assert(t.subrange(0, k2)[k1] == t[k1]);
    } else if k2 < k1 {
        assert(t.subrange(0, k1)[k2] == t[k2]);
    }
}

proof fn lemma_decimal_value_push(s: Seq<char>, from: int, i: int)
    requires
        0 <= from <= i < s.len(),
    ensures
        decimal_value(s.subrange(from, i + 1)) == decimal_value(s.subrange(from, i)) * 10
            + char_digit(s[i]),
{
    assert(s.subrange(from, i + 1).drop_last() =~= s.subrange(from, i));
}

/// Filenames of segments are `{position}_{generation}.log`, position and
/// generation in decimal.
pub fn segment_id_to_filename(id: &SegmentId) -> (r: String)
    ensures
        r@ == filename_of(*id),
{
    let mut s = String::new();
    push_decimal(&mut s, id.pos);
    let sep = "_";
    let suffix = ".log";
    proof {
        reveal_strlit("_");
        reveal_strlit(".log");
    }
    s.append(sep);
    push_decimal(&mut s, id.gen);
    s.append(suffix);
    proof {
        assert(sep@ =~= seq!['_']);
        assert(suffix@ =~= log_suffix());
    }
    s
}

fn digit_str(d: u64) -> (r: &'static str)
    requires
        d < 10,
    ensures
        r@ == seq![digit_char(d as int)],
{
    proof {
        reveal_strlit("0");
        reveal_strlit("1");
        reveal_strlit("2");
        reveal_strlit("3");
        reveal_strlit("4");
        reveal_strlit("5");
        reveal_strlit("6");
        reveal_strlit("7");
        reveal_strlit("8");
        reveal_strlit("9");
    }
    let r = if d == 0 {
        "0"
    } else if d == 1 {
        "1"
    } else if d == 2 {
        "2"
    } else if d == 3 {
        "3"
    } else if d == 4 {
        "4"
    } else if d == 5 {
        "5"
    } else if d == 6 {
        "6"
    } else if d == 7 {
        "7"
    } else if d == 8 {
        "8"
    } else {
        "9"
    };
    assert(r@ =~= seq![digit_char(d as int)]);
    r
}

pub(crate) fn push_decimal(s: &mut String, n: u64)
    ensures
        final(s)@ == old(s)@ + decimal(n as nat),
    decreases n,
{
    if n >= 10 {
        push_decimal(s, n / 10);
    }
    s.append(digit_str(n % 10));
    proof {
        if n >= 10 {
            assert(decimal(n as nat) == decimal((n / 10) as nat).push(digit_char((n % 10) as int)));
        }
        assert(final(s)@ =~= old(s)@ + decimal(n as nat));
    }
}

fn digit_of(c: char) -> (r: Option<u64>)
    ensures
        r == (if is_digit(c) {
            Some(char_digit(c) as u64)
        } else {
            None::<u64>
        }),
{
    if c == '0' {
        Some(0)
    } else if c == '1' {
        Some(1)
    } else if c == '2' {
        Some(2)
    } else if c == '3' {
        Some(3)
    } else if c == '4' {
        Some(4)
    } else if c == '5' {
        Some(5)
    } else if c == '6' {
        Some(6)
    } else if c == '7' {
        Some(7)
    } else if c == '8' {
        Some(8)
    } else if c == '9' {
        Some(9)
    } else {
        None
    }
}

/// Scans the digits of `s` from `from` on, stopping at the first other
/// character or at `to`; returns where it stopped and the number read, if
/// the digits form one that fits in a `u64`.
fn scan_number(s: &str, from: usize, to: usize) -> (r: (usize, Option<u64>))
    requires
        from <= to <= s@.len(),
    ensures
        from <= r.0 <= to,
        all_digits(s@.subrange(from as int, r.0 as int)),
        r.0 < to ==> !is_digit(s@[r.0 as int]),
        r.1 == (if is_u64_text(s@.subrange(from as int, r.0 as int)) {
            Some(decimal_value(s@.subrange(from as int, r.0 as int)) as u64)
        } else {
            None::<u64>
        }),
{
    let mut i: usize = from;
    let mut acc: u64 = 0;
    let mut overflow = false;
    let mut stopped = false;
    while i < to && !stopped
        invariant
            from <= i <= to <= s@.len(),
            all_digits(s@.subrange(from as int, i as int)),
            stopped ==> i < to && !is_digit(s@[i as int]),
            !overflow ==> acc == decimal_value(s@.subrange(from as int, i as int)),
            overflow ==> decimal_value(s@.subrange(from as int, i as int)) > u64::MAX,
        decreases to - i + (if stopped { 0int } else { 1int }),
    {
        let c = s.get_char(i);
        match digit_of(c) {
            None => {
                stopped = true;
            },
            Some(d) => {
                proof {
                    lemma_decimal_value_push(s@, from as int, i as int);
                    let t = s@.subrange(from as int, i as int + 1);
                    assert forall|j: int| 0 <= j < t.len() implies is_digit(#[trigger] t[j]) by {
                        if j < t.len() - 1 {
                            assert(t[j] == s@.subrange(from as int, i as int)[j]);
                        }
                    }
                }
                if !overflow {
                    if acc > (u64::MAX - d) / 10 {
                        overflow = true;
                        assert(acc * 10 + d > u64::MAX) by (nonlinear_arith)
                            requires
                                acc > (u64::MAX - d) / 10,
                                d < 10,
                        ;
                    } else {
                        assert(acc * 10 + d <= u64::MAX) by (nonlinear_arith)
                            requires
                                acc <= (u64::MAX - d) / 10,
                                d < 10,
                        ;
                        acc = acc * 10 + d;
                    }
                } else {
                    assert(decimal_value(s@.subrange(from as int, i as int)) * 10 + d > u64::MAX)
                        by (nonlinear_arith)
                        requires
                            decimal_value(s@.subrange(from as int, i as int)) > u64::MAX,
                            d >= 0,
                    ;
                }
                i = i + 1;
            },
        }
    }
    if !overflow && i > from {
        (i, Some(acc))
    } else {
        (i, None)
    }
}

fn ends_with_log(s: &str, len: usize) -> (r: bool)
    requires
        len == s@.len(),
    ensures
        r == has_log_suffix(s@),
{
    if len < 4 {
        return false;
    }
    let r = s.get_char(len - 4) == '.' && s.get_char(len - 3) == 'l' && s.get_char(len - 2)
        == 'o' && s.get_char(len - 1) == 'g';
    proof {
        let t = s@.subrange(len - 4, len as int);
        if r {
            assert(t =~= log_suffix());
        } else {
            assert(t[0] != '.' || t[1] != 'l' || t[2] != 'o' || t[3] != 'g');
            assert(t != log_suffix());
        }
    }
    r
}

/// Whether a directory entry's name carries the segment file suffix.
pub fn is_segment_filename(name: &str) -> (r: bool)
    ensures
        r == has_log_suffix(name@),
{
    ends_with_log(name, name.unicode_len())
}

/// Reads the identifier back from a segment filename.
pub fn segment_id_from_filename(filename: &str) -> (r: Result<SegmentId, LogError>)
    ensures
        r == parse_filename(filename@),
{
    let len = filename.unicode_len();
    if !ends_with_log(filename, len) {
        return Err(LogError::MalformedSegmentName);
    }
    let stem_len = len - 4;
    let ghost s = filename@;
    let ghost t = stem_of(s);
    let (k, p) = scan_number(filename, 0, stem_len);
    proof {
        assert(t.subrange(0, k as int) =~= s.subrange(0, k as int));
        // every split of the stem must sit where the first number stops
        assert forall|j: int| splits_at(t, j) implies j == k by {
            if j < k {
                assert(s.subrange(0, k as int)[j] == t[j]);
            } else if k < j {
                assert(t.subrange(0, j)[k as int] == t[k as int]);
            }
        }
    }
    if k >= stem_len || filename.get_char(k) != '_' {
        return Err(LogError::MalformedSegmentName);
    }
    let (e, g) = scan_number(filename, k + 1, stem_len);
    proof {
        assert(t.subrange(k + 1, e as int) =~= s.subrange(k + 1, e as int));
        if splits_at(t, k as int) && e < stem_len {
            assert(t.subrange(k + 1, t.len() as int)[e - k - 1] == t[e as int]);
        }
    }
    if e != stem_len {
        return Err(LogError::MalformedSegmentName);
    }
    match (p, g) {
        (Some(p), Some(g)) => {
            proof {
                assert(t.subrange(k + 1, t.len() as int) =~= s.subrange(k + 1, e as int));
                assert(splits_at(t, k as int));
                let kk = choose|kk: int| splits_at(t, kk);
                lemma_split_unique(t, k as int, kk);
            }
            Ok(SegmentId { pos: p, gen: g })
        },
        _ => {
            proof {
                assert(t.subrange(k + 1, t.len() as int) =~= s.subrange(k + 1, e as int));
            }
            Err(LogError::MalformedSegmentName)
        },
    }
}

/// The identifier that follows `id` by position; the generation is kept.
pub fn next_segment_id_pos(id: &SegmentId) -> (r: SegmentId)
    requires
        id.pos < u64::MAX,
    ensures
        r == next_pos_of(*id),
        key_lt(id.spec_key(), r.spec_key()),
{
    SegmentId { pos: id.pos + 1, gen: id.gen }
}

/// Reading back the filename of any identifier gives that identifier.
pub proof fn lemma_filename_round_trip(id: SegmentId)
    ensures
        parse_filename(filename_of(id)) == Ok::<SegmentId, LogError>(id),
{
    let s = filename_of(id);
    let a = decimal(id.pos as nat);
    let b = decimal(id.gen as nat);
    lemma_decimal(id.pos as nat);
    lemma_decimal(id.gen as nat);
    assert(s.subrange(s.len() - 4, s.len() as int) =~= log_suffix());
    let t = stem_of(s);
    assert(t =~= a + seq!['_'] + b);
    let k = a.len() as int;
    assert(t.subrange(0, k) =~= a);
    assert(t.subrange(k + 1, t.len() as int) =~= b);
    assert(splits_at(t, k));
    let kk = choose|kk: int| splits_at(t, kk);
    lemma_split_unique(t, k, kk);
}

} // verus!
