//! The obstacle-loading boundary: raw records from the external
//! vector-graphic adapter become an `ObstacleSet`, or the load fails
//! atomically with a structured error — a partial obstacle set would be an
//! invisible gap in a wall, so no record is ever skipped silently.
//!
//! A record carries a geometry kind (the bytes `line` stand for a straight
//! finite segment) and its four coordinate fields `x1, y1, x2, y2` as
//! ASCII decimal numbers in the source's native top-left, y-down
//! coordinate space. Coordinates are parsed into integer milli-units —
//! the value truncated toward zero after the third fraction digit, at
//! most twelve integer digits — and remapped into the engine's
//! origin-centred space the same way for every record: a source point
//! `(x, y)` becomes `(y - half_height, half_width - x)`.
use vstd::prelude::*;

use crate::geom::COORD_LIMIT;
use crate::geom::ObstacleSet;
use crate::geom::Point;
use crate::geom::Segment;
use crate::geom::seg_in_bounds;

verus! {

/// One raw record from the external source: the geometry kind named in
/// the source, and the coordinate fields as raw bytes.
#[derive(Debug)]
pub struct RawRecord {
    pub geometry: Vec<u8>,
    pub fields: Vec<Vec<u8>>,
}

/// Why a record is malformed.
#[derive(Clone, Copy, PartialEq, Eq, Structural, Debug)]
pub enum MalformedKind {
    /// Fewer than four coordinate fields; `field` is the number present.
    MissingField { field: usize },
    /// The field at `field` is not an ASCII decimal number this loader
    /// accepts.
    NotNumeric { field: usize },
    /// The field at `field` maps to a coordinate beyond `COORD_LIMIT`.
    OutOfRange { field: usize },
}

/// Why a load fails. The whole load fails on the first bad record; no
/// partial obstacle set is ever produced.
#[derive(Clone, Copy, PartialEq, Eq, Structural, Debug)]
pub enum LoadError {
    /// The record at `record_index` is missing a field or holds a bad
    /// value.
    Malformed { record_index: usize, detail: MalformedKind },
    /// The record at `record_index` is not a straight finite segment.
    UnsupportedGeometry { record_index: usize },
}

/// An ASCII decimal digit.
pub open spec fn is_ascii_digit(c: u8) -> bool {
    48 <= c <= 57
}

/// Every byte of the sequence is an ASCII digit.
pub open spec fn all_digits(s: Seq<u8>) -> bool {
    forall|i: int| 0 <= i < s.len() ==> is_ascii_digit(#[trigger] s[i])
}

/// The number the digit sequence denotes in base ten.
pub open spec fn digits_value(s: Seq<u8>) -> int
    decreases s.len(),
{
    if s.len() == 0 {
        0
    } else {
        digits_value(s.drop_last()) * 10 + (s.last() - 48)
    }
}

/// Ten to the `n`-th.
pub open spec fn pow10(n: nat) -> int
    decreases n,
{
    if n == 0 {
        1
    } else {
        10 * pow10((n - 1) as nat)
    }
}

/// Index of the first `.` of the sequence, or its length if none occurs.
pub open spec fn dot_index(s: Seq<u8>) -> int
    decreases s.len(),
{
    if s.len() == 0 {
        0
    } else if s.first() == 46 {
        0
    } else {
        1 + dot_index(s.drop_first())
    }
}

/// The number starts with an explicit sign byte.
pub open spec fn has_sign(s: Seq<u8>) -> bool {
    s.len() > 0 && (s[0] == 43 || s[0] == 45)
}

/// The number without its sign byte.
pub open spec fn number_body(s: Seq<u8>) -> Seq<u8> {
    if has_sign(s) {
        s.drop_first()
    } else {
        s
    }
}

/// The number denotes a negative value.
pub open spec fn is_negative_number(s: Seq<u8>) -> bool {
    s.len() > 0 && s[0] == 45
}

/// The integer digits of the (sign-stripped) number.
pub open spec fn int_part(b: Seq<u8>) -> Seq<u8> {
    b.take(dot_index(b))
}

/// The fraction digits of the (sign-stripped) number; empty when there is
/// no dot.
pub open spec fn frac_part(b: Seq<u8>) -> Seq<u8> {
    if dot_index(b) == b.len() {
        Seq::<u8>::empty()
    } else {
        b.skip(dot_index(b) + 1)
    }
}

/// A number body this loader accepts: one to twelve integer digits,
/// optionally a dot followed by at least one digit, nothing else.
pub open spec fn numeric_body(b: Seq<u8>) -> bool {
    &&& 1 <= dot_index(b) <= 12
    &&& all_digits(int_part(b))
    &&& (dot_index(b) == b.len() || (frac_part(b).len() >= 1 && all_digits(frac_part(b))))
}

/// The fraction digits as milli-units: the first three digits, padded
/// with zeros on the right; digits past the third are truncated
/// (toward zero).
pub open spec fn frac_milli(f: Seq<u8>) -> int {
    if f.len() >= 3 {
        digits_value(f.take(3))
    } else if f.len() == 2 {
        digits_value(f) * 10
    } else if f.len() == 1 {
        digits_value(f) * 100
    } else {
        0
    }
}

/// Magnitude of the number in milli-units.
pub open spec fn magnitude_milli(b: Seq<u8>) -> int {
    digits_value(int_part(b)) * 1000 + frac_milli(frac_part(b))
}

/// What the byte sequence parses to in milli-units, or nothing when it is
/// not a number this loader accepts.
pub open spec fn parse_milli(s: Seq<u8>) -> Option<int> {
    let b = number_body(s);
    if numeric_body(b) {
        Some(
            if is_negative_number(s) {
                -magnitude_milli(b)
            } else {
                magnitude_milli(b)
            },
        )
    } else {
        None
    }
}

/// `pow10` is positive and monotone.
proof fn lemma_pow10_pos_mono(a: nat, b: nat)
    requires
        a <= b,
    ensures
        1 <= pow10(a) <= pow10(b),
    decreases b,
{
    if b == 0 {
    } else if a == b {
        lemma_pow10_pos_mono(0, (b - 1) as nat);
    } else {
        lemma_pow10_pos_mono(a, (b - 1) as nat);
    }
}

/// `pow10(12)` written out.
proof fn lemma_pow10_twelve()
    ensures
        pow10(12) == 1000000000000,
{
    assert(pow10(0) == 1);
    assert(pow10(1) == 10);
    assert(pow10(2) == 100);
    assert(pow10(3) == 1000);
    assert(pow10(4) == 10000);
    assert(pow10(5) == 100000);
    assert(pow10(6) == 1000000);
    assert(pow10(7) == 10000000);
    assert(pow10(8) == 100000000);
    assert(pow10(9) == 1000000000);
    assert(pow10(10) == 10000000000);
    assert(pow10(11) == 100000000000);
    assert(pow10(12) == 1000000000000);
}

/// A scan that saw no dot before `i`, and a dot (or the end) at `i`,
/// found the first dot.
proof fn lemma_dot_index(s: Seq<u8>, i: int)
    requires
        0 <= i <= s.len(),
        forall|k: int| 0 <= k < i ==> s[k] != 46,
        i < s.len() ==> s[i] == 46,
    ensures
        dot_index(s) == i,
    decreases i,
{
    if i == 0 {
    } else {
        assert(s.first() != 46);
        assert forall|k: int| 0 <= k < i - 1 implies s.drop_first()[k] != 46 by {
            assert(s.drop_first()[k] == s[k + 1]);
        }
        if i - 1 < s.len() - 1 {
            assert(s.drop_first()[i - 1] == s[i]);
        }
        lemma_dot_index(s.drop_first(), i - 1);
    }
}

/// Parses an ASCII decimal number into milli-units, exactly as
/// `parse_milli` says; an accepted value's magnitude is under 10^15.
pub fn parse_milli_units(s: &Vec<u8>) -> (r: Option<i64>)
    ensures
        match r {
            Some(v) => parse_milli(s@) == Some(v as int) && -1000000000000000 <= v
                <= 1000000000000000,
            None => parse_milli(s@) is None,
        },
{
    let n = s.len();
    let (neg, start): (bool, usize) = if n > 0 && (s[0] == 43 || s[0] == 45) {
        (s[0] == 45, 1)
    } else {
        (false, 0)
    };
    let ghost b = s@.skip(start as int);
    proof {
        assert(b =~= number_body(s@));
        assert(neg == is_negative_number(s@));
    }
    // find the first dot
    let mut dot: usize = start;
    while dot < n && s[dot] != 46
        invariant
            start <= dot <= n,
            n == s@.len(),
            start <= n,
            forall|k: int| start <= k < dot ==> s@[k] != 46,
        decreases n - dot,
    {
        dot += 1;
    }
    proof {
        assert forall|k: int| 0 <= k < dot - start implies b[k] != 46 by {
            assert(b[k] == s@[k + start]);
        }
        if dot < n {
            assert(b[dot - start] == s@[dot as int]);
        }
        lemma_dot_index(b, dot - start);
    }
    let di = dot - start;
    if di < 1 || di > 12 {
        return None;
    }
    // integer digits, folded left to right
    let mut acc: u64 = 0;
    let mut j: usize = start;
    proof {
        assert(b.take(0) =~= Seq::<u8>::empty());
        lemma_pow10_twelve();
    }
    while j < dot
        invariant
            start <= j <= dot <= n,
            n == s@.len(),
            1 <= dot - start <= 12,
            b == s@.skip(start as int),
            b == number_body(s@),
            dot_index(b) == dot - start,
            forall|k: int| 0 <= k < j - start ==> is_ascii_digit(#[trigger] b[k]),
            acc == digits_value(b.take(j - start)),
            0 <= acc < pow10((j - start) as nat),
            pow10(12) == 1000000000000,
        decreases dot - j,
    {
        let c = s[j];
        if c < 48 || c > 57 {
            proof {
                assert(b[j - start] == s@[j as int]);
                assert(int_part(b)[j - start] == b[j - start]);
                assert(!is_ascii_digit(int_part(b)[j - start]));
                assert(!all_digits(int_part(b)));
                assert(parse_milli(s@) is None);
            }
            return None;
        }
        proof {
            assert(b[j - start] == s@[j as int]);
            let k = j - start;
            assert(b.take(k + 1).drop_last() =~= b.take(k));
            assert(b.take(k + 1).last() == b[k]);
            lemma_pow10_pos_mono((k + 1) as nat, 12);
        }
        acc = acc * 10 + ((c - 48) as u64);
        j += 1;
    }
    proof {
        assert(b.take(dot - start) == int_part(b));
    }
    // fraction digits: all must be digits; the first three carry value
    let mut fr: u64 = 0;
    if dot < n {
        if dot + 1 >= n {
            proof {
                assert(frac_part(b).len() == 0);
            }
            return None;
        }
        let ghost f = frac_part(b);
        proof {
            assert(f =~= s@.skip(dot + 1));
        }
        let mut k: usize = dot + 1;
        while k < n
            invariant
                dot + 1 <= k <= n,
                n == s@.len(),
                b == number_body(s@),
                f == frac_part(b),
                f =~= s@.skip(dot + 1),
                forall|m: int| dot + 1 <= m < k ==> is_ascii_digit(#[trigger] s@[m]),
            decreases n - k,
        {
            let c = s[k];
            if c < 48 || c > 57 {
                proof {
                    assert(f[k - (dot + 1)] == s@[k as int]);
                    assert(!is_ascii_digit(f[k - (dot + 1)]));
                    assert(!all_digits(frac_part(b)));
                    assert(parse_milli(s@) is None);
                }
                return None;
            }
            k += 1;
        }
        proof {
            assert forall|m: int| 0 <= m < f.len() implies is_ascii_digit(#[trigger] f[m]) by {
                assert(f[m] == s@[m + dot + 1]);
            }
        }
        let flen = n - (dot + 1);
        let d0 = (s[dot + 1] - 48) as u64;
        if flen == 1 {
            fr = d0 * 100;
            proof {
                reveal_with_fuel(digits_value, 5);
                assert(f.drop_last() =~= Seq::<u8>::empty());
                assert(f.last() == s@[dot + 1]);
                assert(fr == frac_milli(f));
            }
        } else {
            let d1 = (s[dot + 2] - 48) as u64;
            if flen == 2 {
                fr = (d0 * 10 + d1) * 10;
                proof {
                    reveal_with_fuel(digits_value, 5);
                    assert(f.drop_last() =~= f.take(1));
                    assert(f.take(1).drop_last() =~= Seq::<u8>::empty());
                    assert(f.take(1).last() == s@[dot + 1]);
                    assert(f.last() == s@[dot + 2]);
                    assert(fr == frac_milli(f));
                }
            } else {
                let d2 = (s[dot + 3] - 48) as u64;
                fr = (d0 * 10 + d1) * 10 + d2;
                proof {
                    reveal_with_fuel(digits_value, 5);
                    let t3 = f.take(3);
                    assert(t3.drop_last() =~= f.take(2));
                    assert(f.take(2).drop_last() =~= f.take(1));
                    assert(f.take(1).drop_last() =~= Seq::<u8>::empty());
                    assert(f.take(1).last() == s@[dot + 1]);
                    assert(f.take(2).last() == s@[dot + 2]);
                    assert(t3.last() == s@[dot + 3]);
                    assert(fr == frac_milli(f));
                }
            }
        }
    }
    proof {
        lemma_pow10_pos_mono((dot - start) as nat, 12);
        assert(acc < 1000000000000);
        assert(fr <= 999);
    }
    let mag: i64 = (acc as i64) * 1000 + (fr as i64);
    let v: i64 = if neg {
        -mag
    } else {
        mag
    };
    proof {
        assert(numeric_body(b));
        assert(mag == magnitude_milli(b));
    }
    Some(v)
}

/// The bytes `line`: the one geometry kind that is a straight finite
/// segment.
pub open spec fn is_line_kind(g: Seq<u8>) -> bool {
    g == seq![108u8, 105u8, 110u8, 101u8]
}

/// Runtime check for `is_line_kind`.
fn is_line_bytes(g: &Vec<u8>) -> (r: bool)
    ensures
        r == is_line_kind(g@),
{
    let ghost l: Seq<u8> = seq![108u8, 105u8, 110u8, 101u8];
    proof {
        assert(l.len() == 4 && l[0] == 108 && l[1] == 105 && l[2] == 110 && l[3] == 101);
    }
    if g.len() != 4 {
        return false;
    }
    let r = g[0] == 108 && g[1] == 105 && g[2] == 110 && g[3] == 101;
    proof {
        if r {
            assert(g@ =~= l);
        }
    }
    r
}

/// The value the field at `k` parses to, zero when it does not parse.
pub open spec fn parsed(rec: RawRecord, k: int) -> int {
    match parse_milli(rec.fields@[k]@) {
        Some(v) => v,
        None => 0,
    }
}

/// The engine coordinate a parsed source value becomes: source points are
/// top-left-origin `(x, y)`; even fields (`x` values) map to `half_width
/// - v`, odd fields (`y` values) to `v - half_height`.
pub open spec fn mapped_coord(v: int, k: int, hw: int, hh: int) -> int {
    if k % 2 == 0 {
        hw - v
    } else {
        v - hh
    }
}

/// The mapped coordinate of field `k` fits the engine's bound.
pub open spec fn coord_fits(rec: RawRecord, k: int, hw: int, hh: int) -> bool {
    -COORD_LIMIT <= mapped_coord(parsed(rec, k), k, hw, hh) <= COORD_LIMIT
}

/// The error one record produces, or `None` when it is clean: an
/// unsupported geometry kind; else the first missing, non-numeric or
/// out-of-range field, in field order.
pub open spec fn record_error(rec: RawRecord, idx: usize, hw: int, hh: int) -> Option<LoadError> {
    if !is_line_kind(rec.geometry@) {
        Some(LoadError::UnsupportedGeometry { record_index: idx })
    } else if rec.fields@.len() < 4 {
        Some(
            LoadError::Malformed {
                record_index: idx,
                detail: MalformedKind::MissingField { field: rec.fields@.len() as usize },
            },
        )
    } else if parse_milli(rec.fields@[0]@) is None {
        Some(
            LoadError::Malformed {
                record_index: idx,
                detail: MalformedKind::NotNumeric { field: 0 },
            },
        )
    } else if parse_milli(rec.fields@[1]@) is None {
        Some(
            LoadError::Malformed {
                record_index: idx,
                detail: MalformedKind::NotNumeric { field: 1 },
            },
        )
    } else if parse_milli(rec.fields@[2]@) is None {
        Some(
            LoadError::Malformed {
                record_index: idx,
                detail: MalformedKind::NotNumeric { field: 2 },
            },
        )
    } else if parse_milli(rec.fields@[3]@) is None {
        Some(
            LoadError::Malformed {
                record_index: idx,
                detail: MalformedKind::NotNumeric { field: 3 },
            },
        )
    } else if !coord_fits(rec, 0, hw, hh) {
        Some(
            LoadError::Malformed {
                record_index: idx,
                detail: MalformedKind::OutOfRange { field: 0 },
            },
        )
    } else if !coord_fits(rec, 1, hw, hh) {
        Some(
            LoadError::Malformed {
                record_index: idx,
                detail: MalformedKind::OutOfRange { field: 1 },
            },
        )
    } else if !coord_fits(rec, 2, hw, hh) {
        Some(
            LoadError::Malformed {
                record_index: idx,
                detail: MalformedKind::OutOfRange { field: 2 },
            },
        )
    } else if !coord_fits(rec, 3, hw, hh) {
        Some(
            LoadError::Malformed {
                record_index: idx,
                detail: MalformedKind::OutOfRange { field: 3 },
            },
        )
    } else {
        None
    }
}

/// The segment a clean record denotes, in the engine's origin-centred
/// space: field 0,1 give the first endpoint, field 2,3 the second.
pub open spec fn record_segment(rec: RawRecord, hw: int, hh: int) -> Segment {
    Segment {
        a: Point {
            x: mapped_coord(parsed(rec, 1), 1, hw, hh) as i64,
            y: mapped_coord(parsed(rec, 0), 0, hw, hh) as i64,
        },
        b: Point {
            x: mapped_coord(parsed(rec, 3), 3, hw, hh) as i64,
            y: mapped_coord(parsed(rec, 2), 2, hw, hh) as i64,
        },
    }
}

/// Builds the obstacle set from the raw records, atomically: every record
/// must be a straight segment with four readable, in-range coordinates,
/// else the whole load fails with the first record's error and no set is
/// produced. `half_width` and `half_height` are the source area's half
/// extents in milli-units, fixing the affine remap.
pub fn load_obstacles(records: &Vec<RawRecord>, half_width: i64, half_height: i64) -> (r: Result<
    ObstacleSet,
    LoadError,
>)
    requires
        0 <= half_width <= COORD_LIMIT,
        0 <= half_height <= COORD_LIMIT,
    ensures
        r matches Ok(obs) ==> obs.wf() && obs@.len() == records@.len() && forall|i: int|
            0 <= i < records@.len() ==> obs@[i] == record_segment(
                #[trigger] records@[i],
                half_width as int,
                half_height as int,
            ),
        (r is Ok) <==> (forall|i: int|
            0 <= i < records@.len() ==> record_error(
                #[trigger] records@[i],
                i as usize,
                half_width as int,
                half_height as int,
            ) is None),
        r matches Err(e) ==> exists|i: int|
            0 <= i < records@.len() && record_error(
                #[trigger] records@[i],
                i as usize,
                half_width as int,
                half_height as int,
            ) == Some(e) && (forall|j: int|
                0 <= j < i ==> record_error(
                    #[trigger] records@[j],
                    j as usize,
                    half_width as int,
                    half_height as int,
                ) is None),
{
    let ghost hw = half_width as int;
    let ghost hh = half_height as int;
    let mut segs: Vec<Segment> = Vec::new();
    let mut i: usize = 0;
    while i < records.len()
        invariant
            0 <= half_width <= COORD_LIMIT,
            0 <= half_height <= COORD_LIMIT,
            hw == half_width as int,
            hh == half_height as int,
            0 <= i <= records@.len(),
            segs@.len() == i,
            forall|j: int|
                0 <= j < i ==> record_error(#[trigger] records@[j], j as usize, hw, hh) is None,
            forall|j: int|
                0 <= j < i ==> segs@[j] == record_segment(#[trigger] records@[j], hw, hh),
            forall|j: int| 0 <= j < i ==> seg_in_bounds(#[trigger] segs@[j]),
        decreases records@.len() - i,
    {
        let rec = &records[i];
        if !is_line_bytes(&rec.geometry) {
            return Err(LoadError::UnsupportedGeometry { record_index: i });
        }
        if rec.fields.len() < 4 {
            return Err(
                LoadError::Malformed {
                    record_index: i,
                    detail: MalformedKind::MissingField { field: rec.fields.len() },
                },
            );
        }
        let v0 = match parse_milli_units(&rec.fields[0]) {
            Some(v) => v,
            None => {
                return Err(
                    LoadError::Malformed {
                        record_index: i,
                        detail: MalformedKind::NotNumeric { field: 0 },
                    },
                );
            },
        };
        let v1 = match parse_milli_units(&rec.fields[1]) {
            Some(v) => v,
            None => {
                return Err(
                    LoadError::Malformed {
                        record_index: i,
                        detail: MalformedKind::NotNumeric { field: 1 },
                    },
                );
            },
        };
        let v2 = match parse_milli_units(&rec.fields[2]) {
            Some(v) => v,
            None => {
                return Err(
                    LoadError::Malformed {
                        record_index: i,
                        detail: MalformedKind::NotNumeric { field: 2 },
                    },
                );
            },
        };
        let v3 = match parse_milli_units(&rec.fields[3]) {
            Some(v) => v,
            None => {
                return Err(
                    LoadError::Malformed {
                        record_index: i,
                        detail: MalformedKind::NotNumeric { field: 3 },
                    },
                );
            },
        };
        let ay = half_width - v0;
        let ax = v1 - half_height;
        let by = half_width - v2;
        let bx = v3 - half_height;
        if ay < -COORD_LIMIT || ay > COORD_LIMIT {
            return Err(
                LoadError::Malformed {
                    record_index: i,
                    detail: MalformedKind::OutOfRange { field: 0 },
                },
            );
        }
        if ax < -COORD_LIMIT || ax > COORD_LIMIT {
            return Err(
                LoadError::Malformed {
                    record_index: i,
                    detail: MalformedKind::OutOfRange { field: 1 },
                },
            );
        }
        if by < -COORD_LIMIT || by > COORD_LIMIT {
            return Err(
                LoadError::Malformed {
                    record_index: i,
                    detail: MalformedKind::OutOfRange { field: 2 },
                },
            );
        }
        if bx < -COORD_LIMIT || bx > COORD_LIMIT {
            return Err(
                LoadError::Malformed {
                    record_index: i,
                    detail: MalformedKind::OutOfRange { field: 3 },
                },
            );
        }
        segs.push(Segment { a: Point { x: ax, y: ay }, b: Point { x: bx, y: by } });
        i += 1;
    }
    match ObstacleSet::from_segments(segs) {
        Some(obs) => Ok(obs),
        None => {
            proof {
                assert(false);
            }
            Err(LoadError::UnsupportedGeometry { record_index: 0 })
        },
    }
}

} // verus!
