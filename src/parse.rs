//! Reading segments from text of the form `x1,y1 -> x2,y2`, and writing them
//! back in that form.
use vstd::prelude::*;

use crate::geometry::{Line, Point};
use crate::text::{chars_of, copy_range, find, find_exec};

verus! {

/// Which coordinate of a point did not read as an integer.
#[derive(Clone, Copy, Debug, PartialEq, Eq, Structural)]
pub enum Coordinate {
    X,
    Y,
}

/// Why a line of text is not a segment.
#[derive(Clone, Copy, Debug, PartialEq, Eq, Structural)]
pub enum ParseError {
    /// No ` -> ` separates the two endpoints.
    MissingArrow,
    /// No `,` separates the coordinates of an endpoint.
    MissingComma,
    /// A coordinate is not a decimal integer that fits in `i32`.
    InvalidInteger(Coordinate),
}

pub open spec fn is_digit(c: char) -> bool {
    '0' <= c && c <= '9'
}

pub open spec fn digit_value(c: char) -> int {
    c as int - '0' as int
}

/// A non-empty run of decimal digits.
pub open spec fn all_digits(s: Seq<char>) -> bool {
    s.len() > 0 && forall|i: int| 0 <= i < s.len() ==> is_digit(s[i])
}

/// The number that a run of decimal digits writes.
pub open spec fn digits_value(s: Seq<char>) -> int
    decreases s.len(),
{
    if s.len() == 0 {
        0
    } else {
        10 * digits_value(s.drop_last()) + digit_value(s.last())
    }
}

/// The integer that `s` writes: an optional `+` or `-`, then decimal digits.
pub open spec fn integer_value(s: Seq<char>) -> Option<int> {
    if s.len() > 0 && s[0] == '-' && all_digits(s.drop_first()) {
        Some(-digits_value(s.drop_first()))
    } else if s.len() > 0 && s[0] == '+' && all_digits(s.drop_first()) {
        Some(digits_value(s.drop_first()))
    } else if all_digits(s) {
        Some(digits_value(s))
    } else {
        None
    }
}

/// The `i32` that `s` writes, if it writes one in range.
pub open spec fn i32_value(s: Seq<char>) -> Option<i32> {
    match integer_value(s) {
        Some(v) => if i32::MIN <= v <= i32::MAX {
            Some(v as i32)
        } else {
            None
        },
        None => None,
    }
}

/// Bound above which an accumulated magnitude can no longer fit in `i32`.
const MAGNITUDE_CAP: i64 = 2147483649;

spec fn capped(v: int) -> int {
    if v < MAGNITUDE_CAP { v } else { MAGNITUDE_CAP as int }
}

/// The number written by the digits `cs[lo..]`, or `None` if some character
/// there is not a digit; numbers of `MAGNITUDE_CAP` or more come back as
/// `MAGNITUDE_CAP`.
fn capped_digits(cs: &Vec<char>, lo: usize) -> (r: Option<i64>)
    requires
        lo <= cs@.len(),
    ensures
        r matches Some(v) ==> (forall|i: int| lo <= i < cs@.len() ==> is_digit(#[trigger] cs@[i]))
            && v == capped(digits_value(cs@.subrange(lo as int, cs@.len() as int))),
        r is None ==> exists|i: int| lo <= i < cs@.len() && !is_digit(#[trigger] cs@[i]),
{
    let n: usize = cs.len();
    let mut acc: i64 = 0;
    let mut i: usize = lo;
    while i < n
        invariant
            n == cs@.len(),
            lo <= i <= n,
            forall|j: int| lo <= j < i ==> is_digit(#[trigger] cs@[j]),
            acc == capped(digits_value(cs@.subrange(lo as int, i as int))),
        decreases n - i,
    {
        let c = cs[i];
        if !('0' <= c && c <= '9') {
            return None;
        }
        let d: i64 = (c as u32 - '0' as u32) as i64;
        let ghost prev = cs@.subrange(lo as int, i as int);
        let ghost next = cs@.subrange(lo as int, i + 1);
        assert(next.drop_last() =~= prev);
        proof {
            let v = digits_value(prev);
            assert(v >= 0) by {
                lemma_digits_value_nonneg(prev);
            }
            assert(capped(10 * v + d) == capped(10 * capped(v) + d)) by (nonlinear_arith)
                requires
                    v >= 0,
                    0 <= d <= 9,
                    MAGNITUDE_CAP == 2147483649,
            ;
        }
        let t: i64 = 10 * acc + d;
        acc = if t < MAGNITUDE_CAP {
            t
        } else {
            MAGNITUDE_CAP
        };
        i = i + 1;
    }
    Some(acc)
}

/// Digits write a number that is at least zero.
pub proof fn lemma_digits_value_nonneg(s: Seq<char>)
    requires
        forall|i: int| 0 <= i < s.len() ==> is_digit(s[i]),
    ensures
        digits_value(s) >= 0,
    decreases s.len(),
{
    if s.len() > 0 {
        lemma_digits_value_nonneg(s.drop_last());
    }
}

/// The `i32` that `cs` writes: an optional sign, then decimal digits.
pub fn parse_i32(cs: &Vec<char>) -> (r: Option<i32>)
    ensures
        r == i32_value(cs@),
{
    let n: usize = cs.len();
    if n == 0 {
        return None;
    }
    let ghost s = cs@;
    let first = cs[0];
    if first == '-' || first == '+' {
        if n == 1 {
            assert(!all_digits(s));
            return None;
        }
        assert(s.drop_first() =~= s.subrange(1, n as int));
        match capped_digits(cs, 1) {
            None => {
                let ghost k = choose|k: int| 1 <= k < s.len() && !is_digit(#[trigger] s[k]);
                assert(!is_digit(s.drop_first()[k - 1]));
                assert(!all_digits(s));
                None
            },
            Some(v) => {
                proof {
                    lemma_digits_value_nonneg(s.drop_first());
                }
                if first == '-' {
                    if v <= 2147483648 {
                        Some((-v) as i32)
                    } else {
                        None
                    }
                } else {
                    if v <= 2147483647 {
                        Some(v as i32)
                    } else {
                        None
                    }
                }
            },
        }
    } else {
        assert(s =~= s.subrange(0, n as int));
        match capped_digits(cs, 0) {
            None => None,
            Some(v) => {
                proof {
                    lemma_digits_value_nonneg(s);
                }
                if v <= 2147483647 {
                    Some(v as i32)
                } else {
                    None
                }
            },
        }
    }
}

/// The point that `s` writes as `x,y`, split at its first comma.
pub open spec fn point_of(s: Seq<char>) -> Result<Point, ParseError> {
    match find(s, seq![',']) {
        None => Err(ParseError::MissingComma),
        Some(i) => match i32_value(s.subrange(0, i)) {
            None => Err(ParseError::InvalidInteger(Coordinate::X)),
            Some(x) => match i32_value(s.subrange(i + 1, s.len() as int)) {
                None => Err(ParseError::InvalidInteger(Coordinate::Y)),
                Some(y) => Ok(Point { x, y }),
            },
        },
    }
}

/// The separator between the two endpoints of a segment.
pub open spec fn arrow() -> Seq<char> {
    seq![' ', '-', '>', ' ']
}

/// The segment that `s` writes as `x1,y1 -> x2,y2`, split at its first arrow.
pub open spec fn line_of(s: Seq<char>) -> Result<Line, ParseError> {
    match find(s, arrow()) {
        None => Err(ParseError::MissingArrow),
        Some(i) => match point_of(s.subrange(0, i)) {
            Err(e) => Err(e),
            Ok(p1) => match point_of(s.subrange(i + 4, s.len() as int)) {
                Err(e) => Err(e),
                Ok(p2) => Ok(Line { p1, p2 }),
            },
        },
    }
}

fn point_from_chars(cs: &Vec<char>) -> (r: Result<Point, ParseError>)
    ensures
        r == point_of(cs@),
{
    let n: usize = cs.len();
    let comma = vec![','];
    assert(comma@ =~= seq![',']);
    match find_exec(cs, &comma) {
        None => Err(ParseError::MissingComma),
        Some(i) => {
            proof {
                crate::text::lemma_find_found(cs@, comma@, 0);
                assert(crate::text::occurs_at(cs@, comma@, i as int));
            }
            let xs = copy_range(cs, 0, i);
            match parse_i32(&xs) {
                None => Err(ParseError::InvalidInteger(Coordinate::X)),
                Some(x) => {
                    let ys = copy_range(cs, i + 1, n);
                    match parse_i32(&ys) {
                        None => Err(ParseError::InvalidInteger(Coordinate::Y)),
                        Some(y) => Ok(Point { x, y }),
                    }
                },
            }
        },
    }
}

pub(crate) fn line_from_chars(cs: &Vec<char>) -> (r: Result<Line, ParseError>)
    ensures
        r == line_of(cs@),
{
    let n: usize = cs.len();
    let sep = vec![' ', '-', '>', ' '];
    assert(sep@ =~= arrow());
    match find_exec(cs, &sep) {
        None => Err(ParseError::MissingArrow),
        Some(i) => {
            proof {
                crate::text::lemma_find_found(cs@, sep@, 0);
                assert(crate::text::occurs_at(cs@, sep@, i as int));
            }
            let first = copy_range(cs, 0, i);
            match point_from_chars(&first) {
                Err(e) => Err(e),
                Ok(p1) => {
                    let second = copy_range(cs, i + 4, n);
                    match point_from_chars(&second) {
                        Err(e) => Err(e),
                        Ok(p2) => Ok(Line { p1, p2 }),
                    }
                },
            }
        },
    }
}

impl Point {
    /// Reads a point written `x,y`.
    pub fn parse(s: &str) -> (r: Result<Point, ParseError>)
        ensures
            r == point_of(s@),
    {
        let cs = chars_of(s);
        point_from_chars(&cs)
    }
}

impl Line {
    /// Reads a segment written `x1,y1 -> x2,y2`.
    pub fn parse(s: &str) -> (r: Result<Line, ParseError>)
        ensures
            r == line_of(s@),
    {
        let cs = chars_of(s);
        line_from_chars(&cs)
    }
}

/// The character of the decimal digit `d`.
pub open spec fn digit_char(d: int) -> char {
    (d + 48) as char
}

/// The decimal digits of `n`, without leading zeros.
pub open spec fn nat_text(n: nat) -> Seq<char>
    decreases n,
{
    if n < 10 {
        seq![digit_char(n as int)]
    } else {
        nat_text(n / 10).push(digit_char((n % 10) as int))
    }
}

/// `v` in decimal, with a `-` in front when it is negative.
pub open spec fn int_text(v: int) -> Seq<char> {
    if v < 0 {
        seq!['-'] + nat_text((-v) as nat)
    } else {
        nat_text(v as nat)
    }
}

/// `p` written as `x,y`.
pub open spec fn point_text(p: Point) -> Seq<char> {
    int_text(p.x as int) + seq![','] + int_text(p.y as int)
}

/// `l` written as `x1,y1 -> x2,y2`.
pub open spec fn line_text(l: Line) -> Seq<char> {
    point_text(l.p1) + arrow() + point_text(l.p2)
}

proof fn lemma_nat_text(n: nat)
    ensures
        all_digits(nat_text(n)),
        digits_value(nat_text(n)) == n,
    decreases n,
{
    let t = nat_text(n);
    if n >= 10 {
        lemma_nat_text(n / 10);
        assert(t.drop_last() =~= nat_text(n / 10));
        assert(digit_value(t.last()) == n % 10);
        assert(10 * (n / 10) + n % 10 == n);
    } else {
        assert(t.drop_last() =~= Seq::<char>::empty());
        assert(digit_value(t.last()) == n);
    }
    assert(digits_value(t) == 10 * digits_value(t.drop_last()) + digit_value(t.last()));
}

proof fn lemma_int_text(v: int)
    requires
        i32::MIN <= v <= i32::MAX,
    ensures
        i32_value(int_text(v)) == Some(v as i32),
        forall|i: int|
            0 <= i < int_text(v).len() ==> is_digit(#[trigger] int_text(v)[i]) || int_text(v)[i]
                == '-',
{
    let t = int_text(v);
    if v < 0 {
        lemma_nat_text((-v) as nat);
        assert(t.drop_first() =~= nat_text((-v) as nat));
        assert forall|i: int| 0 <= i < t.len() implies is_digit(#[trigger] t[i]) || t[i] == '-' by {
            if i > 0 {
                assert(t[i] == t.drop_first()[i - 1]);
            }
        }
    } else {
        lemma_nat_text(v as nat);
    }
}

proof fn lemma_point_text(p: Point)
    ensures
        point_of(point_text(p)) == Ok::<Point, ParseError>(p),
        forall|i: int| 0 <= i < point_text(p).len() ==> #[trigger] point_text(p)[i] != ' ',
{
    let xt = int_text(p.x as int);
    let yt = int_text(p.y as int);
    let t = point_text(p);
    lemma_int_text(p.x as int);
    lemma_int_text(p.y as int);
    let k = xt.len() as int;
    assert(t.subrange(k, k + 1) =~= seq![',']);
    assert forall|j: int| 0 <= j < k implies !crate::text::occurs_at(t, seq![','], j) by {
        assert(t[j] == xt[j]);
        assert(t.subrange(j, j + 1)[0] == t[j]);
    }
    crate::text::lemma_find_first(t, seq![','], 0, k);
    assert(t.subrange(0, k) =~= xt);
    assert(t.subrange(k + 1, t.len() as int) =~= yt);
    assert forall|i: int| 0 <= i < t.len() implies #[trigger] t[i] != ' ' by {
        if i < k {
            assert(t[i] == xt[i]);
        } else if i > k {
            assert(t[i] == yt[i - k - 1]);
        }
    }
}

/// Writing a segment and reading the text back gives the same segment.
pub proof fn lemma_write_then_parse(l: Line)
    ensures
        line_of(line_text(l)) == Ok::<Line, ParseError>(l),
{
    let at = point_text(l.p1);
    let bt = point_text(l.p2);
    let t = line_text(l);
    lemma_point_text(l.p1);
    lemma_point_text(l.p2);
    let k = at.len() as int;
    assert(t.subrange(k, k + 4) =~= arrow());
    assert forall|j: int| 0 <= j < k implies !crate::text::occurs_at(t, arrow(), j) by {
        assert(t[j] == at[j]);
        if j + 4 <= t.len() {
            assert(t.subrange(j, j + 4)[0] == t[j]);
        }
    }
    crate::text::lemma_find_first(t, arrow(), 0, k);
    assert(t.subrange(0, k) =~= at);
    assert(t.subrange(k + 4, t.len() as int) =~= bt);
}

/// Text that reads as a segment, written back out, reads as the same
/// coordinates again.
pub proof fn lemma_parse_then_write(s: Seq<char>)
    requires
        line_of(s) is Ok,
    ensures
        line_of(line_text(line_of(s)->Ok_0)) == line_of(s),
{
    lemma_write_then_parse(line_of(s)->Ok_0);
}

/// Relies on `String::push`: appends the character at the end.
#[verifier::external_body]
fn push_char(s: &mut String, c: char)
    ensures
        final(s)@ == old(s)@.push(c),
{
    s.push(c)
}

fn push_nat(out: &mut String, n: u32)
    ensures
        final(out)@ == old(out)@ + nat_text(n as nat),
    decreases n,
{
    if n >= 10 {
        push_nat(out, n / 10);
    }
    let d: u32 = n % 10;
    push_char(out, (d + 48) as u8 as char);
    proof {
        if n >= 10 {
            assert(nat_text(n as nat) == nat_text((n / 10) as nat).push(digit_char(d as int)));
        }
    }
    assert(final(out)@ =~= old(out)@ + nat_text(n as nat));
}

fn push_int(out: &mut String, v: i32)
    ensures
        final(out)@ == old(out)@ + int_text(v as int),
{
    if v < 0 {
        push_char(out, '-');
        let m: u32 = if v == i32::MIN {
            2147483648
        } else {
            (-v) as u32
        };
        push_nat(out, m);
        assert(final(out)@ =~= old(out)@ + int_text(v as int));
    } else {
        push_nat(out, v as u32);
    }
}

impl Point {
    /// The point written as `x,y`.
    pub fn to_text(&self) -> (r: String)
        ensures
            r@ == point_text(*self),
    {
        let mut out = String::new();
        push_int(&mut out, self.x);
        push_char(&mut out, ',');
        push_int(&mut out, self.y);
        assert(out@ =~= point_text(*self));
        out
    }
}

impl Line {
    /// The segment written as `x1,y1 -> x2,y2`.
    pub fn to_text(&self) -> (r: String)
        ensures
            r@ == line_text(*self),
    {
        let mut out = String::new();
        push_int(&mut out, self.p1.x);
        push_char(&mut out, ',');
        push_int(&mut out, self.p1.y);
        push_char(&mut out, ' ');
        push_char(&mut out, '-');
        push_char(&mut out, '>');
        push_char(&mut out, ' ');
        push_int(&mut out, self.p2.x);
        push_char(&mut out, ',');
        push_int(&mut out, self.p2.y);
        assert(out@ =~= line_text(*self));
        out
    }
}

impl std::str::FromStr for Point {
    type Err = ParseError;

    fn from_str(s: &str) -> (r: Result<Point, ParseError>)
        ensures
            r == point_of(s@),
    {
        Point::parse(s)
    }
}

impl std::str::FromStr for Line {
    type Err = ParseError;

    fn from_str(s: &str) -> (r: Result<Line, ParseError>)
        ensures
            r == line_of(s@),
    {
        Line::parse(s)
    }
}

} // verus!
