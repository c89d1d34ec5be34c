//! Tagged identifiers over the three disjoint OSM id spaces, and their
//! textual form: a discriminant character `N`/`W`/`R` followed by the
//! decimal signed 64-bit id, as in `W42`.

use vstd::arithmetic::div_mod::lemma_div_decreases;
use vstd::prelude::*;
use vstd::string::StringExecFns;

verus! {

/// An object id, unique only within its own kind's id space: a Node and a
/// Way may share a numeric value and still name different objects.
#[derive(Clone, Copy, Debug, PartialEq, Eq, PartialOrd, Ord, Hash, Structural)]
pub enum OsmId {
    Node(i64),
    Way(i64),
    Relation(i64),
}

/// Why a textual object id failed to parse: the leading kind letter was
/// missing or not one of `N`/`W`/`R`, or the digits after it were not a
/// decimal signed 64-bit integer.
#[derive(Clone, Copy, Debug, PartialEq, Eq, Structural)]
pub enum ParseOsmIdError {
    InvalidDiscriminant,
    InvalidInnerId,
}

impl OsmId {
    /// The numeric id without its kind.
    pub open spec fn spec_inner(self) -> i64 {
        match self {
            OsmId::Node(v) => v,
            OsmId::Way(v) => v,
            OsmId::Relation(v) => v,
        }
    }

    pub fn as_i64(&self) -> (r: i64)
        ensures
            r == self.spec_inner(),
    {
        match self {
            OsmId::Node(v) => *v,
            OsmId::Way(v) => *v,
            OsmId::Relation(v) => *v,
        }
    }
}

pub open spec fn is_dec_digit(c: char) -> bool {
    '0' <= c && c <= '9'
}

pub open spec fn digit_val(c: char) -> int {
    c as int - '0' as int
}

pub open spec fn digit_char(d: int) -> char {
    if d == 0 {
        '0'
    } else if d == 1 {
        '1'
    } else if d == 2 {
        '2'
    } else if d == 3 {
        '3'
    } else if d == 4 {
        '4'
    } else if d == 5 {
        '5'
    } else if d == 6 {
        '6'
    } else if d == 7 {
        '7'
    } else if d == 8 {
        '8'
    } else {
        '9'
    }
}

/// The decimal digit characters of `n`, most significant first.
pub open spec fn dec_digits(n: nat) -> Seq<char>
    decreases n,
{
    if n < 10 {
        seq![digit_char(n as int)]
    } else {
        dec_digits(n / 10) + seq![digit_char((n % 10) as int)]
    }
}

/// The decimal form of `v`, with a leading `-` when `v` is negative.
pub open spec fn int_dec_str(v: int) -> Seq<char> {
    if v < 0 {
        seq!['-'] + dec_digits((-v) as nat)
    } else {
        dec_digits(v as nat)
    }
}

/// The value of a non-empty all-digit sequence; `None` otherwise.
pub open spec fn digits_val(s: Seq<char>) -> Option<int>
    decreases s.len(),
{
    if s.len() == 0 {
        None
    } else if s.len() == 1 {
        if is_dec_digit(s[0]) {
            Some(digit_val(s[0]))
        } else {
            None
        }
    } else {
        match digits_val(s.drop_last()) {
            None => None,
            Some(v) => if is_dec_digit(s.last()) {
                Some(v * 10 + digit_val(s.last()))
            } else {
                None
            },
        }
    }
}

/// The value of an optionally signed decimal sequence; `None` otherwise.
pub open spec fn signed_dec_val(s: Seq<char>) -> Option<int> {
    if s.len() > 0 && (s[0] == '-' || s[0] == '+') {
        match digits_val(s.subrange(1, s.len() as int)) {
            None => None,
            Some(v) => Some(if s[0] == '-' { -v } else { v }),
        }
    } else {
        digits_val(s)
    }
}

/// A signed decimal value, rejected when it does not fit in 64 bits.
pub open spec fn spec_parse_i64(s: Seq<char>) -> Option<int> {
    match signed_dec_val(s) {
        None => None,
        Some(v) => if i64::MIN <= v <= i64::MAX {
            Some(v)
        } else {
            None
        },
    }
}

/// The textual form of an id: kind letter, then the decimal inner id.
pub open spec fn spec_osm_id_str(id: OsmId) -> Seq<char> {
    match id {
        OsmId::Node(v) => seq!['N'] + int_dec_str(v as int),
        OsmId::Way(v) => seq!['W'] + int_dec_str(v as int),
        OsmId::Relation(v) => seq!['R'] + int_dec_str(v as int),
    }
}

/// How a textual id parses: a missing or multi-byte first character fails
/// as an invalid discriminant; then the inner id is read, and only then is
/// the discriminant letter matched, so `Xabc` blames the inner id.
pub open spec fn spec_parse_osm_id(s: Seq<char>) -> Result<OsmId, ParseOsmIdError> {
    if s.len() == 0 || s[0] as int >= 128 {
        Err(ParseOsmIdError::InvalidDiscriminant)
    } else {
        match spec_parse_i64(s.subrange(1, s.len() as int)) {
            None => Err(ParseOsmIdError::InvalidInnerId),
            Some(v) => if s[0] == 'N' {
                Ok(OsmId::Node(v as i64))
            } else if s[0] == 'W' {
                Ok(OsmId::Way(v as i64))
            } else if s[0] == 'R' {
                Ok(OsmId::Relation(v as i64))
            } else {
                Err(ParseOsmIdError::InvalidDiscriminant)
            },
        }
    }
}

fn push_digit_char(d: u64, out: &mut String)
    requires
        d < 10,
    ensures
        final(out)@ == old(out)@ + seq![digit_char(d as int)],
{
    proof {
        reveal_strlit("0");
        reveal_strlit("1");
        reveal_strlit("2");
        reveal_strlit("3");
        reveal_strlit("4");
        reveal_strlit("5");
        reveal_strlit("6");
        reveal_strlit("7");
        reveal_strlit("8");
        reveal_strlit("9");
    }
    if d == 0 {
        out.append("0");
    } else if d == 1 {
        out.append("1");
    } else if d == 2 {
        out.append("2");
    } else if d == 3 {
        out.append("3");
    } else if d == 4 {
        out.append("4");
    } else if d == 5 {
        out.append("5");
    } else if d == 6 {
        out.append("6");
    } else if d == 7 {
        out.append("7");
    } else if d == 8 {
        out.append("8");
    } else {
        out.append("9");
    }
    proof {
        assert(out@ =~= old(out)@ + seq![digit_char(d as int)]);
    }
}

fn push_u64_digits(n: u64, out: &mut String)
    ensures
        final(out)@ == old(out)@ + dec_digits(n as nat),
    decreases n,
{
    if n < 10 {
        push_digit_char(n, out);
    } else {
        proof {
            lemma_div_decreases(n as int, 10);
        }
        push_u64_digits(n / 10, out);
        push_digit_char(n % 10, out);
        proof {
            assert(out@ =~= old(out)@ + dec_digits(n as nat));
        }
    }
}

fn push_i64_dec(v: i64, out: &mut String)
    ensures
        final(out)@ == old(out)@ + int_dec_str(v as int),
{
    if v < 0 {
        proof {
            reveal_strlit("-");
        }
        out.append("-");
        let magnitude: u64 = (-(v as i128)) as u64;
        push_u64_digits(magnitude, out);
        proof {
            assert(out@ =~= old(out)@ + int_dec_str(v as int));
        }
    } else {
        push_u64_digits(v as u64, out);
    }
}

impl OsmId {
    /// Serializes the id as its kind letter followed by the decimal inner
    /// id, e.g. `W42`.
    pub fn to_osm_string(&self) -> (s: String)
        ensures
            s@ == spec_osm_id_str(*self),
    {
        let mut out = String::new();
        match self {
            OsmId::Node(v) => {
                proof {
                    reveal_strlit("N");
                }
                out.append("N");
                push_i64_dec(*v, &mut out);
            },
            OsmId::Way(v) => {
                proof {
                    reveal_strlit("W");
                }
                out.append("W");
                push_i64_dec(*v, &mut out);
            },
            OsmId::Relation(v) => {
                proof {
                    reveal_strlit("R");
                }
                out.append("R");
                push_i64_dec(*v, &mut out);
            },
        }
        proof {
            assert(out@ =~= spec_osm_id_str(*self));
        }
        out
    }
}

/// A digit run's value is never negative.
pub proof fn lemma_digits_val_nonneg(s: Seq<char>)
    ensures
        digits_val(s) is Some ==> digits_val(s)->0 >= 0,
    decreases s.len(),
{
    if s.len() > 1 {
        lemma_digits_val_nonneg(s.drop_last());
    }
}

/// A digit run that has a value consists of decimal digits only.
pub proof fn lemma_digits_val_all_digits(s: Seq<char>)
    ensures
        digits_val(s) is Some ==> forall|i: int| 0 <= i < s.len() ==> is_dec_digit(s[i]),
    decreases s.len(),
{
    if s.len() > 1 {
        lemma_digits_val_all_digits(s.drop_last());
        if digits_val(s) is Some {
            assert forall|i: int| 0 <= i < s.len() implies is_dec_digit(s[i]) by {
                if i < s.len() - 1 {
                    assert(s[i] == s.drop_last()[i]);
                }
            }
        }
    }
}

/// The value of a digit run dominates the value of any of its prefixes.
pub proof fn lemma_digits_val_prefix(s: Seq<char>, i: int)
    requires
        1 <= i <= s.len(),
        digits_val(s) is Some,
    ensures
        digits_val(s.subrange(0, i)) is Some,
        digits_val(s.subrange(0, i))->0 <= digits_val(s)->0,
    decreases s.len(),
{
    if i == s.len() {
        assert(s.subrange(0, i) =~= s);
    } else {
        assert(s.len() >= 2);
        let head = s.drop_last();
        assert(head =~= s.subrange(0, s.len() - 1));
        lemma_digits_val_nonneg(head);
        lemma_digits_val_prefix(head, i);
        assert(head.subrange(0, i) =~= s.subrange(0, i));
    }
}

/// Produced digit characters are decimal digits with the intended values.
pub proof fn lemma_digit_char_val(d: int)
    requires
        0 <= d < 10,
    ensures
        is_dec_digit(digit_char(d)),
        digit_val(digit_char(d)) == d,
{
}

/// Formatting a natural number yields digits that evaluate back to it.
pub proof fn lemma_dec_digits_val(n: nat)
    ensures
        digits_val(dec_digits(n)) == Some(n as int),
    decreases n,
{
    if n < 10 {
        lemma_digit_char_val(n as int);
    } else {
        lemma_dec_digits_val(n / 10);
        lemma_digit_char_val((n % 10) as int);
        let head = dec_digits(n / 10);
        let whole = dec_digits(n);
        assert(whole.drop_last() =~= head);
        assert(whole.last() == digit_char((n % 10) as int));
        assert((n / 10) * 10 + n % 10 == n) by {
            vstd::arithmetic::div_mod::lemma_fundamental_div_mod(n as int, 10);
        }
    }
}

/// Every character of a formatted natural number is a decimal digit.
pub proof fn lemma_dec_digits_are_digits(n: nat)
    ensures
        forall|i: int| 0 <= i < dec_digits(n).len() ==> is_dec_digit(dec_digits(n)[i]),
    decreases n,
{
    if n < 10 {
        lemma_digit_char_val(n as int);
    } else {
        lemma_dec_digits_are_digits(n / 10);
        lemma_digit_char_val((n % 10) as int);
        let head = dec_digits(n / 10);
        assert forall|i: int| 0 <= i < dec_digits(n).len() implies is_dec_digit(
            dec_digits(n)[i],
        ) by {
            if i < head.len() {
                assert(dec_digits(n)[i] == head[i]);
            }
        }
    }
}

/// A small unsigned decimal with an optional `+` sign, rejected outside
/// `0..=255` — how an `admin_level` tag is read.
pub open spec fn spec_parse_u8(s: Seq<char>) -> Option<int> {
    let v = if s.len() > 0 && s[0] == '+' {
        digits_val(s.subrange(1, s.len() as int))
    } else {
        digits_val(s)
    };
    match v {
        Some(x) => if 0 <= x <= 255 {
            Some(x)
        } else {
            None
        },
        None => None,
    }
}

/// Reads an optionally `+`-signed decimal byte, as `admin_level` tags are
/// written.
pub fn parse_u8_str(s: &str) -> (r: Option<u8>)
    ensures
        match r {
            Some(v) => spec_parse_u8(s@) == Some(v as int),
            None => spec_parse_u8(s@) is None,
        },
{
    let n = s.unicode_len();
    if n == 0 {
        return None;
    }
    let c0 = s.get_char(0);
    let dstart: usize = if c0 == '+' {
        1
    } else {
        0
    };
    proof {
        if c0 == '+' {
            assert(s@.subrange(1, s@.len() as int) == s@.subrange(1, n as int));
        } else {
            assert(s@.subrange(0, n as int) =~= s@);
        }
        lemma_digits_val_nonneg(s@.subrange(dstart as int, n as int));
    }
    match parse_digits_u64(s, dstart, n) {
        None => None,
        Some(m) => {
            if m > 255 {
                None
            } else {
                Some(m as u8)
            }
        },
    }
}

/// Reads the digit run `s[start..end]` as a `u64`; `None` when some
/// character is not a digit, the run is empty, or the value overflows.
fn parse_digits_u64(s: &str, start: usize, end: usize) -> (r: Option<u64>)
    requires
        start <= end,
        end as nat <= s@.len(),
    ensures
        ({
            let t = s@.subrange(start as int, end as int);
            match r {
                Some(v) => digits_val(t) == Some(v as int),
                None => digits_val(t) is None || digits_val(t)->0 > u64::MAX as int,
            }
        }),
{
    let ghost t = s@.subrange(start as int, end as int);
    if start == end {
        return None;
    }
    let mut acc: u64 = 0;
    let mut i: usize = start;
    while i < end
        invariant
            start <= i <= end,
            end as nat <= s@.len(),
            t == s@.subrange(start as int, end as int),
            i > start ==> digits_val(s@.subrange(start as int, i as int)) == Some(acc as int),
            i == start ==> acc == 0,
        decreases end - i,
    {
        let c = s.get_char(i);
        let code = c as u32;
        if code < 48 || code > 57 {
            proof {
                lemma_digits_val_all_digits(t);
                assert(t[i - start] == s@[i as int]);
            }
            return None;
        }
        let d: u64 = (code - 48) as u64;
        proof {
            let prev = s@.subrange(start as int, i as int);
            let cur = s@.subrange(start as int, i as int + 1);
            assert(cur.last() == s@[i as int]);
            assert(cur.drop_last() =~= prev);
            assert(digit_val(s@[i as int]) == d as int);
            if i == start {
                assert(cur.len() == 1);
                assert(digits_val(cur) == Some(d as int));
            } else {
                assert(digits_val(cur) == Some(acc as int * 10 + d as int));
            }
        }
        let scaled = match acc.checked_mul(10) {
            Some(a) => a.checked_add(d),
            None => None,
        };
        match scaled {
            Some(a) => {
                acc = a;
            },
            None => {
                proof {
                    let cur = s@.subrange(start as int, i as int + 1);
                    let curlen = cur.len() as int;
                    assert(digits_val(cur)->0 > u64::MAX as int);
                    if digits_val(t) is Some {
                        lemma_digits_val_prefix(t, curlen);
                        assert(t.subrange(0, curlen) =~= cur);
                    }
                }
                return None;
            },
        }
        i += 1;
    }
    Some(acc)
}

/// Reads `s[start..end]` as an optionally signed decimal `i64`.
fn parse_i64_range(s: &str, start: usize, end: usize) -> (r: Option<i64>)
    requires
        start <= end,
        end as nat <= s@.len(),
    ensures
        ({
            let t = s@.subrange(start as int, end as int);
            match r {
                Some(v) => spec_parse_i64(t) == Some(v as int),
                None => spec_parse_i64(t) is None,
            }
        }),
{
    let ghost t = s@.subrange(start as int, end as int);
    if start == end {
        return None;
    }
    let c0 = s.get_char(start);
    let negative = c0 == '-';
    let positive = c0 == '+';
    let dstart = if negative || positive {
        start + 1
    } else {
        start
    };
    proof {
        assert(t[0] == s@[start as int]);
        assert(t.subrange(dstart - start, t.len() as int) =~= s@.subrange(
            dstart as int,
            end as int,
        ));
        lemma_digits_val_nonneg(s@.subrange(dstart as int, end as int));
    }
    match parse_digits_u64(s, dstart, end) {
        None => None,
        Some(m) => {
            if negative {
                if m > 9223372036854775808u64 {
                    None
                } else if m == 9223372036854775808u64 {
                    Some(i64::MIN)
                } else {
                    Some(-(m as i64))
                }
            } else {
                if m > 9223372036854775807u64 {
                    None
                } else {
                    Some(m as i64)
                }
            }
        },
    }
}

impl OsmId {
    /// Parses a textual id such as `W42` back into an [`OsmId`],
    /// distinguishing a bad kind letter from a bad numeric id.
    pub fn parse_osm_string(s: &str) -> (r: Result<OsmId, ParseOsmIdError>)
        ensures
            r == spec_parse_osm_id(s@),
    {
        let n = s.unicode_len();
        if n == 0 {
            return Err(ParseOsmIdError::InvalidDiscriminant);
        }
        let c0 = s.get_char(0);
        if c0 as u32 >= 128 {
            return Err(ParseOsmIdError::InvalidDiscriminant);
        }
        proof {
            assert(s@.subrange(1, s@.len() as int) == s@.subrange(1, n as int));
        }
        match parse_i64_range(s, 1, n) {
            None => Err(ParseOsmIdError::InvalidInnerId),
            Some(v) => {
                if c0 == 'N' {
                    Ok(OsmId::Node(v))
                } else if c0 == 'W' {
                    Ok(OsmId::Way(v))
                } else if c0 == 'R' {
                    Ok(OsmId::Relation(v))
                } else {
                    Err(ParseOsmIdError::InvalidDiscriminant)
                }
            },
        }
    }
}

/// Law: an id's textual form parses back to exactly that id.
pub proof fn lemma_osm_id_round_trip(id: OsmId)
    ensures
        spec_parse_osm_id(spec_osm_id_str(id)) == Ok::<OsmId, ParseOsmIdError>(id),
{
    let s = spec_osm_id_str(id);
    let v = id.spec_inner() as int;
    let rest = s.subrange(1, s.len() as int);
    assert(rest =~= int_dec_str(v));
    if v < 0 {
        let digits = dec_digits((-v) as nat);
        assert(rest[0] == '-');
        assert(rest.subrange(1, rest.len() as int) =~= digits);
        lemma_dec_digits_val((-v) as nat);
        assert(signed_dec_val(rest) == Some(v));
    } else {
        lemma_dec_digits_val(v as nat);
        lemma_dec_digits_are_digits(v as nat);
        assert(is_dec_digit(rest[0]));
        assert(rest[0] != '-' && rest[0] != '+');
        assert(signed_dec_val(rest) == Some(v));
    }
    assert(spec_parse_i64(rest) == Some(v));
}

} // verus!
