//! One location of a routing instance, and the parsing and rendering of its
//! textual row form: exactly 7 integers (`id x y demand start due service`),
//! or 9 with a trailing pickup/delivery pair.

use crate::numeric::{float_val, is_square, scaled_val, sqrt_of, sqrt_fl, sqrt_scaled};
use crate::text::{
    dec_digits, dec_int, i32_token, pad_left, parse_i32_token, push_chars, push_i64,
    push_padded_i64, push_u64, str_chars, tokenize, tokens_of,
};
use vstd::prelude::*;

verus! {

/// One location: the depot (`id` 0) or a client.
#[derive(Clone, Copy, Debug, PartialEq)]
pub struct Point {
    pub id: i32,
    pub x: i32,
    pub y: i32,
    pub demand: i32,
    pub start: i32,
    pub due: i32,
    pub service: i32,
    pub pickup_delivery: Option<(i32, i32)>,
}

/// The squared Euclidean distance between two points.
pub open spec fn dist_sq(a: Point, b: Point) -> int {
    (a.x - b.x) * (a.x - b.x) + (a.y - b.y) * (a.y - b.y)
}

/// Diagnostic for a row token that is not an integer.
pub open spec fn msg_point_field(line: Seq<char>, i: int, tok: Seq<char>) -> Seq<char> {
    "can't parse line `"@ + line + "': error in trying to parse field "@ + dec_int(i) + ": `"@
        + tok + "' can not be parsed "@
}

/// Diagnostic for a row with the wrong number of integers.
pub open spec fn msg_point_count(line: Seq<char>, n: int) -> Seq<char> {
    "expected 7 or 9 integers in line `"@ + line + "', have "@ + dec_int(n) + " numbers"@
}

/// The first token that does not parse as an `i32`, from position `i` on.
pub open spec fn first_bad_token(ts: Seq<Seq<char>>, i: int) -> Option<int>
    decreases ts.len() - i,
{
    if i < 0 || i >= ts.len() {
        None
    } else if i32_token(ts[i]) is None {
        Some(i)
    } else {
        first_bad_token(ts, i + 1)
    }
}

/// The point a row of 7 or 9 well-formed integer tokens describes.
pub open spec fn point_of_tokens(ts: Seq<Seq<char>>) -> Point {
    Point {
        id: i32_token(ts[0])->Some_0 as i32,
        x: i32_token(ts[1])->Some_0 as i32,
        y: i32_token(ts[2])->Some_0 as i32,
        demand: i32_token(ts[3])->Some_0 as i32,
        start: i32_token(ts[4])->Some_0 as i32,
        due: i32_token(ts[5])->Some_0 as i32,
        service: i32_token(ts[6])->Some_0 as i32,
        pickup_delivery: if ts.len() > 7 {
            Some((i32_token(ts[7])->Some_0 as i32, i32_token(ts[8])->Some_0 as i32))
        } else {
            None
        },
    }
}

/// What parsing one row yields: the point, or the first diagnostic.
pub open spec fn spec_parse_point(line: Seq<char>) -> Result<Point, Seq<char>> {
    let ts = tokens_of(line);
    match first_bad_token(ts, 0) {
        Some(i) => Err(msg_point_field(line, i, ts[i])),
        None => if ts.len() != 7 && ts.len() != 9 {
            Err(msg_point_count(line, ts.len() as int))
        } else {
            Ok(point_of_tokens(ts))
        },
    }
}

/// Parses one instance row, already split into characters.
pub fn parse_point_chars(line: &Vec<char>) -> (r: Result<Point, String>)
    ensures
        match r {
            Ok(p) => spec_parse_point(line@) == Ok::<Point, Seq<char>>(p),
            Err(m) => spec_parse_point(line@) is Err && m@ == spec_parse_point(line@)->Err_0,
        },
{
    let ts = tokenize(line);
    let ghost tsd = ts.deep_view();
    let mut vs: Vec<i32> = Vec::new();
    let mut i: usize = 0;
    while i < ts.len()
        invariant
            i <= ts@.len(),
            vs@.len() == i,
            tsd == ts.deep_view(),
            tsd == tokens_of(line@),
            tsd.len() == ts@.len(),
            first_bad_token(tsd, 0) == first_bad_token(tsd, i as int),
            forall|k: int|
                0 <= k < i ==> i32_token(tsd[k]) == Some(#[trigger] vs@[k] as int),
        decreases ts@.len() - i,
    {
        assert(tsd[i as int] == ts@[i as int].deep_view());
        assert(ts@[i as int].deep_view() =~= ts@[i as int]@);
        match parse_i32_token(&ts[i]) {
            Some(v) => {
                vs.push(v);
                assert(first_bad_token(tsd, i as int) == first_bad_token(tsd, i as int + 1));
            },
            None => {
                assert(first_bad_token(tsd, i as int) == Some(i as int));
                let mut m = String::new();
                m.append("can't parse line `");
                push_chars(&mut m, line, 0, line.len());
                m.append("': error in trying to parse field ");
                push_u64(&mut m, i as u64);
                assert(dec_digits(i as u64 as nat) == dec_int(i as int));
                m.append(": `");
                let tok = &ts[i];
                push_chars(&mut m, tok, 0, tok.len());
                m.append("' can not be parsed ");
                proof {
                    assert(line@.subrange(0, line@.len() as int) =~= line@);
                    assert(tok@.subrange(0, tok@.len() as int) =~= tok@);
                    assert(m@ =~= msg_point_field(line@, i as int, tsd[i as int]));
                }
                return Err(m);
            },
        }
        i = i + 1;
    }
    let n = vs.len();
    if n != 7 && n != 9 {
        let mut m = String::new();
        m.append("expected 7 or 9 integers in line `");
        push_chars(&mut m, line, 0, line.len());
        m.append("', have ");
        push_u64(&mut m, n as u64);
        assert(dec_digits(n as u64 as nat) == dec_int(n as int));
        m.append(" numbers");
        proof {
            assert(line@.subrange(0, line@.len() as int) =~= line@);
            assert(m@ =~= msg_point_count(line@, n as int));
        }
        return Err(m);
    }
    let p = Point {
        id: vs[0],
        x: vs[1],
        y: vs[2],
        demand: vs[3],
        start: vs[4],
        due: vs[5],
        service: vs[6],
        pickup_delivery: if n > 7 {
            Some((vs[7], vs[8]))
        } else {
            None
        },
    };
    assert(p == point_of_tokens(tsd));
    Ok(p)
}

/// Parses one instance row.
pub fn parse_point(s: &str) -> (r: Result<Point, String>)
    ensures
        match r {
            Ok(p) => spec_parse_point(s@) == Ok::<Point, Seq<char>>(p),
            Err(m) => spec_parse_point(s@) is Err && m@ == spec_parse_point(s@)->Err_0,
        },
{
    let cs = str_chars(s);
    parse_point_chars(&cs)
}

impl core::str::FromStr for Point {
    type Err = String;

    fn from_str(s: &str) -> Result<Point, String> {
        parse_point(s)
    }
}

/// The textual row form of a point: padded columns for a plain point, a
/// tab-separated row for one carrying a pickup/delivery pair.
pub open spec fn point_text(p: Point) -> Seq<char> {
    match p.pickup_delivery {
        None => pad_left(dec_int(p.id as int), 5) + " "@ + pad_left(dec_int(p.x as int), 7) + " "@
            + pad_left(dec_int(p.y as int), 10) + " "@ + pad_left(dec_int(p.demand as int), 10)
            + " "@ + pad_left(dec_int(p.start as int), 10) + " "@ + pad_left(
            dec_int(p.due as int),
            10,
        ) + " "@ + pad_left(dec_int(p.service as int), 10) + "\n"@,
        Some((pu, de)) => dec_int(p.id as int) + "\t"@ + dec_int(p.x as int) + "\t"@ + dec_int(
            p.y as int,
        ) + "\t"@ + dec_int(p.demand as int) + "\t"@ + dec_int(p.start as int) + "\t"@ + dec_int(
            p.due as int,
        ) + "\t"@ + dec_int(p.service as int) + "\t"@ + dec_int(pu as int) + "\t"@ + dec_int(
            de as int,
        ) + "\n"@,
    }
}

/// The squared distance of any two points is small: coordinates are 32-bit.
pub proof fn lemma_dist_sq_bound(a: Point, b: Point)
    ensures
        0 <= dist_sq(a, b) < 0x40000000000000000,
{
    let dx = a.x - b.x;
    let dy = a.y - b.y;
    assert(0 <= dx * dx < 0x10000000000000000 && 0 <= dy * dy < 0x10000000000000000)
        by (nonlinear_arith)
        requires
            -0x100000000 < dx < 0x100000000,
            -0x100000000 < dy < 0x100000000,
    ;
}

impl Point {
    /// Renders the point as one instance row, as [`point_text`] states.
    pub fn to_text(&self) -> (r: String)
        ensures
            r@ == point_text(*self),
    {
        let mut m = String::new();
        match self.pickup_delivery {
            None => {
                push_padded_i64(&mut m, self.id as i64, 5);
                m.append(" ");
                push_padded_i64(&mut m, self.x as i64, 7);
                m.append(" ");
                push_padded_i64(&mut m, self.y as i64, 10);
                m.append(" ");
                push_padded_i64(&mut m, self.demand as i64, 10);
                m.append(" ");
                push_padded_i64(&mut m, self.start as i64, 10);
                m.append(" ");
                push_padded_i64(&mut m, self.due as i64, 10);
                m.append(" ");
                push_padded_i64(&mut m, self.service as i64, 10);
                m.append("\n");
            },
            Some((pu, de)) => {
                push_i64(&mut m, self.id as i64);
                m.append("\t");
                push_i64(&mut m, self.x as i64);
                m.append("\t");
                push_i64(&mut m, self.y as i64);
                m.append("\t");
                push_i64(&mut m, self.demand as i64);
                m.append("\t");
                push_i64(&mut m, self.start as i64);
                m.append("\t");
                push_i64(&mut m, self.due as i64);
                m.append("\t");
                push_i64(&mut m, self.service as i64);
                m.append("\t");
                push_i64(&mut m, pu as i64);
                m.append("\t");
                push_i64(&mut m, de as i64);
                m.append("\n");
            },
        }
        assert(m@ =~= point_text(*self));
        m
    }

    /// The Euclidean distance to `other`: always the working-precision root
    /// of the squared distance, and the exact integer root whenever the
    /// squared distance is a perfect square.
    pub fn dist(&self, other: &Point) -> (r: bigdecimal::BigDecimal)
        ensures
            scaled_val(r) == Some(sqrt_scaled(dist_sq(*self, *other))),
            0 <= scaled_val(r)->Some_0,
            is_square(dist_sq(*self, *other)) ==> float_val(r) == Some(
                sqrt_of(dist_sq(*self, *other)),
            ),
    {
        let dx: i64 = self.x as i64 - other.x as i64;
        let dy: i64 = self.y as i64 - other.y as i64;
        proof {
            assert(dx * dx + dy * dy == dist_sq(*self, *other));
            assert(0 <= dx * dx <= 0x10000000000000000i128 && 0 <= dy * dy
                <= 0x10000000000000000i128) by (nonlinear_arith)
                requires
                    -0x100000000i128 <= dx <= 0x100000000i128,
                    -0x100000000i128 <= dy <= 0x100000000i128,
            ;
        }
        let s: i128 = (dx as i128) * (dx as i128) + (dy as i128) * (dy as i128);
        sqrt_fl(s)
    }
}

} // verus!
