//! Extraction of waypoints from the text of a geospatial document.
//!
//! The document is scanned line by line for the opening coordinate marker.
//! The first non-blank line after the marker is the payload: a
//! whitespace-separated run of tokens, each a comma-separated group
//! `longitude,latitude[,altitude]`. A token whose first two fields do not
//! parse as fixed-point numbers is skipped; the rest of the payload is still
//! used. Scanning stops after that one payload line.

use vstd::prelude::*;

use crate::Waypoint;

verus! {

/// `b` is an ASCII decimal digit.
pub open spec fn is_digit(b: u8) -> bool {
    48 <= b && b <= 57
}

/// Numeric value of a digit byte.
pub open spec fn digit_val(b: u8) -> int {
    b - 48
}

/// Every byte of `s` is a digit.
pub open spec fn all_digits(s: Seq<u8>) -> bool {
    forall|i: int| 0 <= i < s.len() ==> is_digit(s[i])
}

/// Value of a run of digit bytes, most significant first.
pub open spec fn digits_val(s: Seq<u8>) -> int
    decreases s.len(),
{
    if s.len() == 0 {
        0
    } else {
        digits_val(s.drop_last()) * 10 + digit_val(s.last())
    }
}

/// Ten to the power `n`.
pub open spec fn pow10(n: nat) -> int
    decreases n,
{
    if n == 0 {
        1
    } else {
        10 * pow10((n - 1) as nat)
    }
}

/// Index of the first occurrence of `sep` in `s`, or -1 if there is none.
pub open spec fn find_byte(s: Seq<u8>, sep: u8) -> int
    decreases s.len(),
{
    if s.len() == 0 {
        -1
    } else if s[0] == sep {
        0
    } else {
        let r = find_byte(s.skip(1), sep);
        if r < 0 {
            -1
        } else {
            r + 1
        }
    }
}

/// `b` is horizontal whitespace or a carriage return.
pub open spec fn is_space(b: u8) -> bool {
    b == 32 || b == 9 || b == 13
}

/// Index of the first whitespace byte of `s`, or -1 if there is none.
pub open spec fn find_space(s: Seq<u8>) -> int
    decreases s.len(),
{
    if s.len() == 0 {
        -1
    } else if is_space(s[0]) {
        0
    } else {
        let r = find_space(s.skip(1));
        if r < 0 {
            -1
        } else {
            r + 1
        }
    }
}

proof fn lemma_find_byte(s: Seq<u8>, sep: u8)
    ensures
        find_byte(s, sep) == -1 ==> forall|i: int| 0 <= i < s.len() ==> s[i] != sep,
        find_byte(s, sep) != -1 ==> 0 <= find_byte(s, sep) < s.len() && s[find_byte(s, sep)] == sep
            && forall|i: int| 0 <= i < find_byte(s, sep) ==> s[i] != sep,
    decreases s.len(),
{
    if s.len() == 0 {
    } else if s[0] == sep {
    } else {
        let rest = s.skip(1);
        lemma_find_byte(rest, sep);
        assert(forall|i: int| 0 <= i < rest.len() ==> rest[i] == s[i + 1]);
        let r = find_byte(rest, sep);
        if r < 0 {
            assert(find_byte(s, sep) == -1);
            assert forall|i: int| 0 <= i < s.len() implies s[i] != sep by {
                if i > 0 {
                    assert(s[i] == rest[i - 1]);
                }
            }
        } else {
            assert(find_byte(s, sep) == r + 1);
            assert(s[r + 1] == rest[r]);
            assert forall|i: int| 0 <= i < r + 1 implies s[i] != sep by {
                if i > 0 {
                    assert(s[i] == rest[i - 1]);
                }
            }
        }
    }
}

proof fn lemma_find_byte_at(s: Seq<u8>, sep: u8, k: int)
    requires
        0 <= k < s.len(),
        s[k] == sep,
        forall|i: int| 0 <= i < k ==> s[i] != sep,
    ensures
        find_byte(s, sep) == k,
{
    lemma_find_byte(s, sep);
}

proof fn lemma_find_byte_none(s: Seq<u8>, sep: u8)
    requires
        forall|i: int| 0 <= i < s.len() ==> s[i] != sep,
    ensures
        find_byte(s, sep) == -1,
{
    lemma_find_byte(s, sep);
}

proof fn lemma_find_space(s: Seq<u8>)
    ensures
        find_space(s) == -1 ==> forall|i: int| 0 <= i < s.len() ==> !is_space(s[i]),
        find_space(s) != -1 ==> 0 <= find_space(s) < s.len() && is_space(s[find_space(s)])
            && forall|i: int| 0 <= i < find_space(s) ==> !is_space(s[i]),
    decreases s.len(),
{
    if s.len() == 0 {
    } else if is_space(s[0]) {
    } else {
        let rest = s.skip(1);
        lemma_find_space(rest);
        assert(forall|i: int| 0 <= i < rest.len() ==> rest[i] == s[i + 1]);
        let r = find_space(rest);
        if r < 0 {
            assert(find_space(s) == -1);
            assert forall|i: int| 0 <= i < s.len() implies !is_space(s[i]) by {
                if i > 0 {
                    assert(s[i] == rest[i - 1]);
                }
            }
        } else {
            assert(find_space(s) == r + 1);
            assert(s[r + 1] == rest[r]);
            assert forall|i: int| 0 <= i < r + 1 implies !is_space(s[i]) by {
                if i > 0 {
                    assert(s[i] == rest[i - 1]);
                }
            }
        }
    }
}

proof fn lemma_find_space_at(s: Seq<u8>, k: int)
    requires
        0 <= k < s.len(),
        is_space(s[k]),
        forall|i: int| 0 <= i < k ==> !is_space(s[i]),
    ensures
        find_space(s) == k,
{
    lemma_find_space(s);
}

proof fn lemma_find_space_none(s: Seq<u8>)
    requires
        forall|i: int| 0 <= i < s.len() ==> !is_space(s[i]),
    ensures
        find_space(s) == -1,
{
    lemma_find_space(s);
}

proof fn lemma_pow10_pos(n: nat)
    ensures
        pow10(n) >= 1,
    decreases n,
{
    if n > 0 {
        lemma_pow10_pos((n - 1) as nat);
    }
}

proof fn lemma_pow10_mono(m: nat, n: nat)
    requires
        m <= n,
    ensures
        pow10(m) <= pow10(n),
    decreases n,
{
    if m < n {
        lemma_pow10_mono(m, (n - 1) as nat);
        lemma_pow10_pos((n - 1) as nat);
    }
}

proof fn lemma_digits_val_bound(s: Seq<u8>)
    requires
        all_digits(s),
    ensures
        0 <= digits_val(s) < pow10(s.len()),
    decreases s.len(),
{
    if s.len() > 0 {
        let head = s.drop_last();
        assert(all_digits(head));
        lemma_digits_val_bound(head);
        assert(pow10(s.len()) == 10 * pow10(head.len()));
        assert(digits_val(head) * 10 + digit_val(s.last()) < pow10(head.len()) * 10) by (nonlinear_arith)
            requires
                digits_val(head) < pow10(head.len()),
                digit_val(s.last()) < 10,
        ;
    }
}

/// The first two fields of a token may each begin with one sign byte.
pub open spec fn has_sign(s: Seq<u8>) -> bool {
    s.len() > 0 && (s[0] == 45 || s[0] == 43)
}

/// The field with its sign byte, if any, removed.
pub open spec fn field_body(s: Seq<u8>) -> Seq<u8> {
    if has_sign(s) {
        s.skip(1)
    } else {
        s
    }
}

/// An unsigned field body is well formed when it is a run of one to twelve
/// digits, optionally followed by a dot and at least one more digit.
pub open spec fn wf_body(b: Seq<u8>) -> bool {
    let d = find_byte(b, 46);
    if d < 0 {
        1 <= b.len() <= 12 && all_digits(b)
    } else {
        1 <= d <= 12 && all_digits(b.take(d)) && d + 2 <= b.len() && all_digits(b.skip(d + 1))
    }
}

/// Micro-unit value of a fraction: the first six digits count, further
/// digits are cut off, missing ones count as zero.
pub open spec fn frac_micro(f: Seq<u8>) -> int {
    if f.len() <= 6 {
        digits_val(f) * pow10((6 - f.len()) as nat)
    } else {
        digits_val(f.take(6))
    }
}

/// Micro-unit value of an unsigned field body.
pub open spec fn body_micro(b: Seq<u8>) -> int {
    let d = find_byte(b, 46);
    if d < 0 {
        digits_val(b) * 1_000_000
    } else {
        digits_val(b.take(d)) * 1_000_000 + frac_micro(b.skip(d + 1))
    }
}

/// A whole coordinate field is well formed: an optional sign followed by a
/// well-formed body.
pub open spec fn wf_field(s: Seq<u8>) -> bool {
    wf_body(field_body(s))
}

/// Signed micro-unit value of a coordinate field.
pub open spec fn field_micro(s: Seq<u8>) -> int {
    if s.len() > 0 && s[0] == 45 {
        -body_micro(field_body(s))
    } else {
        body_micro(field_body(s))
    }
}

proof fn lemma_frac_micro_bound(f: Seq<u8>)
    requires
        all_digits(f),
    ensures
        0 <= frac_micro(f) < 1_000_000,
{
    assert(pow10(6) == 1_000_000) by {
        reveal_with_fuel(pow10, 7);
    }
    if f.len() <= 6 {
        lemma_digits_val_bound(f);
        lemma_pow10_pos((6 - f.len()) as nat);
        lemma_pow10_mono(f.len(), 6);
        assert(digits_val(f) * pow10((6 - f.len()) as nat) < pow10(f.len()) * pow10(
            (6 - f.len()) as nat,
        )) by (nonlinear_arith)
            requires
                0 <= digits_val(f) < pow10(f.len()),
                pow10((6 - f.len()) as nat) >= 1,
        ;
        lemma_pow10_add(f.len(), (6 - f.len()) as nat);
        assert(digits_val(f) * pow10((6 - f.len()) as nat) >= 0) by (nonlinear_arith)
            requires
                digits_val(f) >= 0,
                pow10((6 - f.len()) as nat) >= 1,
        ;
    } else {
        let six = f.take(6);
        assert(all_digits(six));
        lemma_digits_val_bound(six);
    }
}

proof fn lemma_pow10_add(m: nat, n: nat)
    ensures
        pow10(m) * pow10(n) == pow10(m + n),
    decreases m,
{
    if m == 0 {
    } else {
        lemma_pow10_add((m - 1) as nat, n);
        assert(pow10(m) * pow10(n) == 10 * (pow10((m - 1) as nat) * pow10(n))) by (nonlinear_arith)
            requires
                pow10(m) == 10 * pow10((m - 1) as nat),
        ;
    }
}

/// A well-formed body denotes fewer than 10^18 micro-units: it has at most
/// twelve integer digits, and only six fraction digits count.
pub proof fn lemma_body_micro_bound(b: Seq<u8>)
    requires
        wf_body(b),
    ensures
        0 <= body_micro(b) < 1_000_000_000_000_000_000,
{
    assert(pow10(12) == 1_000_000_000_000) by {
        reveal_with_fuel(pow10, 13);
    }
    let d = find_byte(b, 46);
    if d < 0 {
        lemma_digits_val_bound(b);
        lemma_pow10_mono(b.len(), 12);
    } else {
        lemma_digits_val_bound(b.take(d));
        lemma_pow10_mono(b.take(d).len(), 12);
        lemma_frac_micro_bound(b.skip(d + 1));
    }
}

/// A well-formed field always denotes a value strictly inside the range of
/// an `i64` micro-unit coordinate.
pub proof fn lemma_field_micro_bound(s: Seq<u8>)
    requires
        wf_field(s),
    ensures
        -1_000_000_000_000_000_000 < field_micro(s) < 1_000_000_000_000_000_000,
{
    lemma_body_micro_bound(field_body(s));
}

fn find_byte_from(v: &Vec<u8>, from: usize, sep: u8) -> (r: Option<usize>)
    requires
        from <= v.len(),
    ensures
        match r {
            Some(k) => from <= k < v.len() && v@[k as int] == sep && find_byte(
                v@.skip(from as int),
                sep,
            ) == k - from && forall|t: int| from <= t < k ==> v@[t] != sep,
            None => find_byte(v@.skip(from as int), sep) == -1 && forall|t: int|
                from <= t < v.len() ==> v@[t] != sep,
        },
{
    let ghost s = v@.skip(from as int);
    let mut k: usize = from;
    while k < v.len()
        invariant
            from <= k <= v.len(),
            s == v@.skip(from as int),
            forall|t: int| from <= t < k ==> v@[t] != sep,
        decreases v.len() - k,
    {
        if v[k] == sep {
            proof {
                assert(forall|t: int| 0 <= t < s.len() ==> s[t] == v@[from + t]);
                lemma_find_byte_at(s, sep, k - from);
            }
            return Some(k);
        }
        k += 1;
    }
    proof {
        assert(forall|t: int| 0 <= t < s.len() ==> s[t] == v@[from + t]);
        lemma_find_byte_none(s, sep);
    }
    None
}

fn find_space_from(v: &Vec<u8>, from: usize) -> (r: Option<usize>)
    requires
        from <= v.len(),
    ensures
        match r {
            Some(k) => from <= k < v.len() && is_space(v@[k as int]) && find_space(
                v@.skip(from as int),
            ) == k - from && forall|t: int| from <= t < k ==> !is_space(v@[t]),
            None => find_space(v@.skip(from as int)) == -1 && forall|t: int|
                from <= t < v.len() ==> !is_space(v@[t]),
        },
{
    let ghost s = v@.skip(from as int);
    let mut k: usize = from;
    while k < v.len()
        invariant
            from <= k <= v.len(),
            s == v@.skip(from as int),
            forall|t: int| from <= t < k ==> !is_space(v@[t]),
        decreases v.len() - k,
    {
        let b = v[k];
        if b == 32 || b == 9 || b == 13 {
            proof {
                assert(forall|t: int| 0 <= t < s.len() ==> s[t] == v@[from + t]);
                lemma_find_space_at(s, k - from);
            }
            return Some(k);
        }
        k += 1;
    }
    proof {
        assert(forall|t: int| 0 <= t < s.len() ==> s[t] == v@[from + t]);
        lemma_find_space_none(s);
    }
    None
}

fn copy_range(v: &Vec<u8>, a: usize, b: usize) -> (r: Vec<u8>)
    requires
        a <= b <= v.len(),
    ensures
        r@ == v@.subrange(a as int, b as int),
{
    let mut r: Vec<u8> = Vec::new();
    let mut j: usize = a;
    while j < b
        invariant
            a <= j <= b <= v.len(),
            r@ == v@.subrange(a as int, j as int),
        decreases b - j,
    {
        r.push(v[j]);
        proof {
            assert(r@ =~= v@.subrange(a as int, j + 1));
        }
        j += 1;
    }
    r
}

/// Value of the digit run `v[a..b]`, or `None` if some byte is not a digit.
fn parse_digits(v: &Vec<u8>, a: usize, b: usize) -> (r: Option<i64>)
    requires
        a <= b <= v.len(),
        b - a <= 12,
    ensures
        match r {
            Some(val) => all_digits(v@.subrange(a as int, b as int)) && val == digits_val(
                v@.subrange(a as int, b as int),
            ) && 0 <= val < pow10((b - a) as nat),
            None => !all_digits(v@.subrange(a as int, b as int)),
        },
{
    proof {
        assert(pow10(12) == 1_000_000_000_000) by {
            reveal_with_fuel(pow10, 13);
        }
    }
    let mut acc: i64 = 0;
    let mut j: usize = a;
    while j < b
        invariant
            a <= j <= b <= v.len(),
            b - a <= 12,
            all_digits(v@.subrange(a as int, j as int)),
            acc == digits_val(v@.subrange(a as int, j as int)),
            0 <= acc < pow10((j - a) as nat),
            pow10(12) == 1_000_000_000_000,
        decreases b - j,
    {
        let d = v[j];
        if d < 48 || d > 57 {
            proof {
                assert(v@.subrange(a as int, b as int)[j - a] == d);
            }
            return None;
        }
        proof {
            lemma_pow10_mono((j - a) as nat, 11);
            assert(pow10(11) * 10 == pow10(12)) by {
                reveal_with_fuel(pow10, 13);
            }
            let ghost head = v@.subrange(a as int, j as int);
            let ghost full = v@.subrange(a as int, j + 1);
            assert(full.drop_last() =~= head);
            assert(full.last() == d);
        }
        acc = acc * 10 + (d - 48) as i64;
        j += 1;
    }
    Some(acc)
}

/// Micro-unit value of the fraction run `v[a..b]`, or `None` if some byte is
/// not a digit.
fn parse_frac(v: &Vec<u8>, a: usize, b: usize) -> (r: Option<i64>)
    requires
        a <= b <= v.len(),
    ensures
        match r {
            Some(val) => all_digits(v@.subrange(a as int, b as int)) && val == frac_micro(
                v@.subrange(a as int, b as int),
            ) && 0 <= val < 1_000_000,
            None => !all_digits(v@.subrange(a as int, b as int)),
        },
{
    let ghost whole = v@.subrange(a as int, b as int);
    // every fraction byte must be a digit, even the ones beyond the first six
    let mut j: usize = a;
    while j < b
        invariant
            a <= j <= b <= v.len(),
            whole == v@.subrange(a as int, b as int),
            forall|t: int| 0 <= t < j - a ==> is_digit(whole[t]),
        decreases b - j,
    {
        let d = v[j];
        if d < 48 || d > 57 {
            proof {
                assert(whole[j - a] == d);
            }
            return None;
        }
        j += 1;
    }
    assert(all_digits(whole));
    // the first six digits carry the value
    let keep: usize = if b - a < 6 {
        b - a
    } else {
        6
    };
    let kept = parse_digits(v, a, a + keep);
    let mut val: i64 = match kept {
        Some(x) => x,
        None => {
            proof {
                assert(v@.subrange(a as int, a + keep)[0] == whole[0]);
                assert(false);
            }
            0
        },
    };
    proof {
        assert(v@.subrange(a as int, a + keep) =~= whole.take(keep as int));
        lemma_digits_val_bound(whole.take(keep as int));
        lemma_pow10_mono(keep as nat, 6);
        assert(pow10(6) == 1_000_000) by {
            reveal_with_fuel(pow10, 7);
        }
    }
    if b - a >= 6 {
        proof {
            assert(keep == 6);
            assert(v@.subrange(a as int, a + 6) =~= whole.take(6));
            assert(val == digits_val(whole.take(6)));
            if b - a > 6 {
                assert(frac_micro(whole) == digits_val(whole.take(6)));
            } else {
                assert(whole.take(6) =~= whole);
                assert(pow10((6 - whole.len()) as nat) == 1) by {
                    reveal_with_fuel(pow10, 1);
                }
                assert(frac_micro(whole) == digits_val(whole) * pow10((6 - whole.len()) as nat));
                assert(frac_micro(whole) == digits_val(whole));
            }
            assert(val == frac_micro(whole));
            assert(0 <= val < 1_000_000);
        }
        return Some(val);
    }
    // scale short fractions up to six digits
    let mut k: usize = 0;
    let pad: usize = 6 - (b - a);
    while k < pad
        invariant
            0 <= k <= pad,
            pad == 6 - whole.len(),
            whole.len() <= 6,
            all_digits(whole),
            whole == v@.subrange(a as int, b as int),
            val == digits_val(whole) * pow10(k as nat),
            0 <= val < pow10((whole.len() + k) as nat),
        decreases pad - k,
    {
        proof {
            lemma_pow10_mono((whole.len() + k) as nat, 5);
            assert(pow10(5) * 10 == pow10(6)) by {
                reveal_with_fuel(pow10, 7);
            }
            assert(pow10(6) == 1_000_000) by {
                reveal_with_fuel(pow10, 7);
            }
            assert(digits_val(whole) * pow10((k + 1) as nat) == digits_val(whole) * pow10(k as nat)
                * 10) by (nonlinear_arith)
                requires
                    pow10((k + 1) as nat) == 10 * pow10(k as nat),
            ;
        }
        val = val * 10;
        k += 1;
    }
    proof {
        lemma_pow10_mono((whole.len() + pad) as nat, 6);
        assert(pow10(6) == 1_000_000) by {
            reveal_with_fuel(pow10, 7);
        }
    }
    Some(val)
}

/// Parses one coordinate field into signed micro-units.
///
/// Returns `Some` exactly on well-formed fields: an optional sign, one to
/// twelve integer digits, and optionally a dot with at least one fraction
/// digit. Fraction digits past the sixth are cut off.
pub fn parse_field(f: &Vec<u8>) -> (r: Option<i64>)
    ensures
        match r {
            Some(val) => wf_field(f@) && val == field_micro(f@),
            None => !wf_field(f@),
        },
{
    let n = f.len();
    if n == 0 {
        return None;
    }
    let b0 = f[0];
    let neg = b0 == 45;
    let start: usize = if b0 == 45 || b0 == 43 {
        1
    } else {
        0
    };
    let ghost body = field_body(f@);
    proof {
        if start == 0 {
            assert(body =~= f@.skip(0));
            assert(body =~= f@);
        }
    }
    if start >= n {
        // a bare sign has an empty body
        proof {
            assert(body.len() == 0);
        }
        return None;
    }
    let dot = find_byte_from(f, start, 46);
    proof {
        assert(body =~= f@.skip(start as int));
    }
    let int_end: usize = match dot {
        Some(d) => d,
        None => n,
    };
    let int_len = int_end - start;
    if int_len < 1 || int_len > 12 {
        return None;
    }
    let int_val = match parse_digits(f, start, int_end) {
        Some(x) => x,
        None => {
            proof {
                let ghost d = find_byte(body, 46);
                if d < 0 {
                    assert(body =~= f@.subrange(start as int, int_end as int));
                } else {
                    assert(body.take(d) =~= f@.subrange(start as int, int_end as int));
                }
            }
            return None;
        },
    };
    let frac_val: i64 = match dot {
        Some(d) => {
            if d + 1 >= n {
                // a dot with nothing after it
                return None;
            }
            match parse_frac(f, d + 1, n) {
                Some(x) => x,
                None => {
                    proof {
                        assert(body.skip(int_len + 1) =~= f@.subrange(d + 1, n as int));
                    }
                    return None;
                },
            }
        },
        None => 0,
    };
    proof {
        let ghost d = find_byte(body, 46);
        match dot {
            Some(dd) => {
                assert(d == int_len);
                assert(body.take(d) =~= f@.subrange(start as int, int_end as int));
                assert(body.skip(d + 1) =~= f@.subrange(dd + 1, n as int));
            },
            None => {
                assert(d == -1);
                assert(body =~= f@.subrange(start as int, int_end as int));
            },
        }
        assert(wf_body(body));
        lemma_pow10_mono(int_len as nat, 12);
        assert(pow10(12) == 1_000_000_000_000) by {
            reveal_with_fuel(pow10, 13);
        }
    }
    let mag: i64 = int_val * 1_000_000 + frac_val;
    proof {
        assert(mag == body_micro(body));
    }
    if neg {
        Some(-mag)
    } else {
        Some(mag)
    }
}

/// The longitude field of a token: everything before the first comma.
pub open spec fn lon_field(t: Seq<u8>) -> Seq<u8> {
    t.take(find_byte(t, 44))
}

/// The latitude field of a token: everything between the first comma and
/// the second one, or the end of the token.
pub open spec fn lat_field(t: Seq<u8>) -> Seq<u8> {
    let rest = t.skip(find_byte(t, 44) + 1);
    let j = find_byte(rest, 44);
    if j < 0 {
        rest
    } else {
        rest.take(j)
    }
}

/// A token is well formed when it has at least two comma-separated fields
/// and the first two are well-formed numbers. Fields after the second, such
/// as an altitude, are ignored whatever they hold.
pub open spec fn wf_token(t: Seq<u8>) -> bool {
    find_byte(t, 44) >= 0 && wf_field(lon_field(t)) && wf_field(lat_field(t))
}

/// The waypoint a well-formed token denotes: the payload writes longitude
/// first, the waypoint stores latitude first.
pub open spec fn token_waypoint(t: Seq<u8>) -> Waypoint {
    Waypoint {
        latitude: field_micro(lat_field(t)) as i64,
        longitude: field_micro(lon_field(t)) as i64,
    }
}

/// What one token contributes to the waypoint list.
pub open spec fn token_waypoint_opt(t: Seq<u8>) -> Option<Waypoint> {
    if wf_token(t) {
        Some(token_waypoint(t))
    } else {
        None
    }
}

/// Parses one payload token; malformed tokens yield `None`.
pub fn parse_token(tok: &Vec<u8>) -> (r: Option<Waypoint>)
    ensures
        r == token_waypoint_opt(tok@),
{
    let n = tok.len();
    let comma = match find_byte_from(tok, 0, 44) {
        Some(k) => k,
        None => {
            proof {
                assert(tok@.skip(0) =~= tok@);
            }
            return None;
        },
    };
    proof {
        assert(tok@.skip(0) =~= tok@);
    }
    let lon_bytes = copy_range(tok, 0, comma);
    let lat_end = match find_byte_from(tok, comma + 1, 44) {
        Some(j) => j,
        None => n,
    };
    let lat_bytes = copy_range(tok, comma + 1, lat_end);
    proof {
        assert(lon_bytes@ =~= lon_field(tok@));
        let rest = tok@.skip(comma + 1);
        assert(forall|t: int| 0 <= t < rest.len() ==> rest[t] == tok@[comma + 1 + t]);
        let j = find_byte(rest, 44);
        if lat_end < n {
            assert(j == lat_end - (comma + 1));
            assert(rest.take(j) =~= tok@.subrange(comma + 1, lat_end as int));
        } else {
            assert(j == -1);
            assert(rest =~= tok@.subrange(comma + 1, n as int));
        }
        assert(lat_bytes@ =~= lat_field(tok@));
    }
    let lon = match parse_field(&lon_bytes) {
        Some(v) => v,
        None => {
            return None;
        },
    };
    let lat = match parse_field(&lat_bytes) {
        Some(v) => v,
        None => {
            return None;
        },
    };
    proof {
        lemma_field_micro_bound(lon_field(tok@));
        lemma_field_micro_bound(lat_field(tok@));
    }
    Some(Waypoint { latitude: lat, longitude: lon })
}

/// The maximal whitespace-free runs of `s`, in order.
pub open spec fn words_of(s: Seq<u8>) -> Seq<Seq<u8>>
    decreases s.len(),
{
    if s.len() == 0 {
        Seq::empty()
    } else if is_space(s[0]) {
        words_of(s.skip(1))
    } else {
        let e = find_space(s);
        if e < 1 || e >= s.len() {
            seq![s]
        } else {
            seq![s.take(e)] + words_of(s.skip(e))
        }
    }
}

/// Splits a line into its whitespace-separated words.
fn split_words(line: &Vec<u8>) -> (r: Vec<Vec<u8>>)
    ensures
        r@.map_values(|w: Vec<u8>| w@) == words_of(line@),
{
    let n = line.len();
    let mut words: Vec<Vec<u8>> = Vec::new();
    let mut p: usize = 0;
    proof {
        assert(line@.skip(0) =~= line@);
    }
    while p < n
        invariant
            p <= n,
            n == line.len(),
            words@.map_values(|w: Vec<u8>| w@) + words_of(line@.skip(p as int)) == words_of(
                line@,
            ),
        decreases n - p,
    {
        let ghost before = words@.map_values(|w: Vec<u8>| w@);
        let ghost cur = line@.skip(p as int);
        let b = line[p];
        if b == 32 || b == 9 || b == 13 {
            proof {
                assert(cur[0] == b);
                assert(cur.skip(1) =~= line@.skip(p + 1));
            }
            p += 1;
        } else {
            proof {
                assert(cur[0] == b);
            }
            let e = match find_space_from(line, p) {
                Some(k) => k,
                None => n,
            };
            let word = copy_range(line, p, e);
            proof {
                assert(forall|t: int| 0 <= t < cur.len() ==> cur[t] == line@[p + t]);
                if e < n {
                    assert(find_space(cur) == e - p);
                    assert(cur.take(e - p) =~= line@.subrange(p as int, e as int));
                    assert(cur.skip(e - p) =~= line@.skip(e as int));
                    assert(words_of(cur) == seq![word@] + words_of(line@.skip(e as int)));
                } else {
                    lemma_find_space_none(cur);
                    assert(cur =~= line@.subrange(p as int, n as int));
                    assert(words_of(cur) == seq![word@]);
                    assert(line@.skip(n as int) =~= Seq::<u8>::empty());
                    assert(words_of(line@.skip(n as int)) =~= Seq::<Seq<u8>>::empty());
                }
            }
            words.push(word);
            proof {
                assert(words@.map_values(|w: Vec<u8>| w@) =~= before + seq![word@]);
                assert(before + seq![word@] + words_of(line@.skip(e as int)) =~= before + (
                seq![word@] + words_of(line@.skip(e as int))));
            }
            p = e;
        }
    }
    proof {
        assert(line@.skip(n as int) =~= Seq::<u8>::empty());
        assert(words@.map_values(|w: Vec<u8>| w@) + Seq::<Seq<u8>>::empty() =~= words@.map_values(
            |w: Vec<u8>| w@,
        ));
    }
    words
}

/// The waypoints a payload line denotes: one per well-formed token, in
/// token order, with malformed tokens skipped.
pub open spec fn payload_waypoints(line: Seq<u8>) -> Seq<Waypoint> {
    words_of(line).filter_map(|t: Seq<u8>| token_waypoint_opt(t))
}

/// Parses one payload line of whitespace-separated coordinate tokens.
pub fn parse_payload(line: &Vec<u8>) -> (r: Vec<Waypoint>)
    ensures
        r@ == payload_waypoints(line@),
{
    let words = split_words(line);
    let ghost ws = words@.map_values(|w: Vec<u8>| w@);
    let mut out: Vec<Waypoint> = Vec::new();
    proof {
        assert(ws.take(0) =~= Seq::<Seq<u8>>::empty());
        reveal_with_fuel(Seq::filter_map, 1);
    }
    let mut i: usize = 0;
    while i < words.len()
        invariant
            i <= words.len(),
            ws == words@.map_values(|w: Vec<u8>| w@),
            ws == words_of(line@),
            out@ == ws.take(i as int).filter_map(|t: Seq<u8>| token_waypoint_opt(t)),
        decreases words.len() - i,
    {
        let ghost prev = out@;
        match parse_token(&words[i]) {
            Some(w) => {
                out.push(w);
            },
            None => {
            },
        }
        proof {
            ws.lemma_filter_map_take_succ(|t: Seq<u8>| token_waypoint_opt(t), i as int);
            assert(ws[i as int] == words@[i as int]@);
            match token_waypoint_opt(ws[i as int]) {
                Some(w) => {
                    assert(out@ =~= prev + seq![w]);
                },
                None => {
                },
            }
        }
        i += 1;
    }
    proof {
        assert(ws.take(words.len() as int) =~= ws);
    }
    out
}

proof fn lemma_filter_map_is_filter_then_map(ts: Seq<Seq<u8>>)
    ensures
        ts.filter_map(|t: Seq<u8>| token_waypoint_opt(t)) == ts.filter(
            |t: Seq<u8>| wf_token(t),
        ).map_values(|t: Seq<u8>| token_waypoint(t)),
    decreases ts.len(),
{
    reveal(Seq::filter);
    reveal_with_fuel(Seq::filter_map, 1);
    let f = |t: Seq<u8>| token_waypoint_opt(t);
    let p = |t: Seq<u8>| wf_token(t);
    let m = |t: Seq<u8>| token_waypoint(t);
    if ts.len() == 0 {
        assert(ts.filter_map(f) =~= Seq::<Waypoint>::empty());
        assert(ts.filter(p).map_values(m) =~= Seq::<Waypoint>::empty());
    } else {
        let head = ts.drop_last();
        let last = ts.last();
        lemma_filter_map_is_filter_then_map(head);
        if wf_token(last) {
            assert(ts.filter(p) == head.filter(p).push(last));
            assert(ts.filter(p).map_values(m) =~= head.filter(p).map_values(m).push(
                token_waypoint(last),
            ));
            assert(ts.filter_map(f) =~= head.filter_map(f).push(token_waypoint(last)));
        } else {
            assert(ts.filter(p) == head.filter(p));
            assert(ts.filter_map(f) == head.filter_map(f));
        }
    }
}

/// Law: a payload line yields exactly one waypoint per well-formed token,
/// in token order — the malformed tokens are dropped and everything after
/// them is still scanned.
pub proof fn lemma_one_waypoint_per_token(line: Seq<u8>)
    ensures
        payload_waypoints(line) == words_of(line).filter(|t: Seq<u8>| wf_token(t)).map_values(
            |t: Seq<u8>| token_waypoint(t),
        ),
{
    lemma_filter_map_is_filter_then_map(words_of(line));
}

/// The lines of a document, split at newline bytes; the final newline, if
/// any, ends the last line rather than opening an empty one.
pub open spec fn lines_of(s: Seq<u8>) -> Seq<Seq<u8>>
    decreases s.len(),
{
    if s.len() == 0 {
        Seq::empty()
    } else {
        let k = find_byte(s, 10);
        if k < 0 || k >= s.len() {
            seq![s]
        } else {
            seq![s.take(k)] + lines_of(s.skip(k + 1))
        }
    }
}

/// A line with no content: empty or whitespace throughout.
pub open spec fn is_blank(line: Seq<u8>) -> bool {
    forall|i: int| 0 <= i < line.len() ==> is_space(line[i])
}

/// The bytes of the opening coordinate marker, `<coordinates>`.
pub open spec fn marker() -> Seq<u8> {
    seq![60u8, 99u8, 111u8, 111u8, 114u8, 100u8, 105u8, 110u8, 97u8, 116u8, 101u8, 115u8, 62u8]
}

/// The line holds the opening coordinate marker somewhere.
pub open spec fn has_marker(line: Seq<u8>) -> bool {
    exists|i: int| 0 <= i && i + 13 <= line.len() && #[trigger] line.subrange(i, i + 13) == marker()
}

/// Waypoints of a run of lines once the marker line has been passed: the
/// first non-blank line is the payload, and scanning ends with it.
pub open spec fn payload_after(lines: Seq<Seq<u8>>) -> Seq<Waypoint>
    decreases lines.len(),
{
    if lines.len() == 0 {
        Seq::empty()
    } else if is_blank(lines[0]) {
        payload_after(lines.skip(1))
    } else {
        payload_waypoints(lines[0])
    }
}

/// Waypoints of a run of lines: everything up to the first marker line is
/// skipped, and the first non-blank line after it is the payload.
pub open spec fn scan_lines(lines: Seq<Seq<u8>>) -> Seq<Waypoint>
    decreases lines.len(),
{
    if lines.len() == 0 {
        Seq::empty()
    } else if has_marker(lines[0]) {
        payload_after(lines.skip(1))
    } else {
        scan_lines(lines.skip(1))
    }
}

/// The waypoints a whole document denotes. A document without a marker, or
/// with a payload of no well-formed token, denotes the empty list.
pub open spec fn document_waypoints(doc: Seq<u8>) -> Seq<Waypoint> {
    scan_lines(lines_of(doc))
}

/// Splits a document into its lines.
fn split_lines(doc: &Vec<u8>) -> (r: Vec<Vec<u8>>)
    ensures
        r@.map_values(|l: Vec<u8>| l@) == lines_of(doc@),
{
    let n = doc.len();
    let mut lines: Vec<Vec<u8>> = Vec::new();
    let mut p: usize = 0;
    proof {
        assert(doc@.skip(0) =~= doc@);
    }
    while p < n
        invariant
            p <= n,
            n == doc.len(),
            lines@.map_values(|l: Vec<u8>| l@) + lines_of(doc@.skip(p as int)) == lines_of(doc@),
        decreases n - p,
    {
        let ghost before = lines@.map_values(|l: Vec<u8>| l@);
        let ghost cur = doc@.skip(p as int);
        let e = match find_byte_from(doc, p, 10) {
            Some(k) => k,
            None => n,
        };
        let line = copy_range(doc, p, e);
        let next: usize = if e < n {
            e + 1
        } else {
            n
        };
        proof {
            assert(forall|t: int| 0 <= t < cur.len() ==> cur[t] == doc@[p + t]);
            if e < n {
                assert(find_byte(cur, 10) == e - p);
                assert(cur.take(e - p) =~= doc@.subrange(p as int, e as int));
                assert(cur.skip(e - p + 1) =~= doc@.skip(e + 1));
                assert(lines_of(cur) == seq![line@] + lines_of(doc@.skip(e + 1)));
            } else {
                lemma_find_byte_none(cur, 10);
                assert(cur =~= doc@.subrange(p as int, n as int));
                assert(lines_of(cur) == seq![line@]);
                assert(doc@.skip(n as int) =~= Seq::<u8>::empty());
                assert(lines_of(doc@.skip(n as int)) =~= Seq::<Seq<u8>>::empty());
            }
        }
        lines.push(line);
        proof {
            assert(lines@.map_values(|l: Vec<u8>| l@) =~= before + seq![line@]);
            assert(before + seq![line@] + lines_of(doc@.skip(next as int)) =~= before + (
            seq![line@] + lines_of(doc@.skip(next as int))));
        }
        p = next;
    }
    proof {
        assert(doc@.skip(n as int) =~= Seq::<u8>::empty());
        assert(lines@.map_values(|l: Vec<u8>| l@) + Seq::<Seq<u8>>::empty() =~= lines@.map_values(
            |l: Vec<u8>| l@,
        ));
    }
    lines
}

fn marker_bytes() -> (m: Vec<u8>)
    ensures
        m@ == marker(),
{
    let mut m: Vec<u8> = Vec::new();
    m.push(60);
    m.push(99);
    m.push(111);
    m.push(111);
    m.push(114);
    m.push(100);
    m.push(105);
    m.push(110);
    m.push(97);
    m.push(116);
    m.push(101);
    m.push(115);
    m.push(62);
    proof {
        assert(m@ =~= marker());
    }
    m
}

fn match_at(line: &Vec<u8>, m: &Vec<u8>, s: usize) -> (r: bool)
    requires
        m@ == marker(),
        s + 13 <= line.len(),
    ensures
        r == (line@.subrange(s as int, s as int + 13) == marker()),
{
    let mut k: usize = 0;
    while k < 13
        invariant
            k <= 13,
            s + 13 <= line.len(),
            m@ == marker(),
            forall|t: int| 0 <= t < k ==> line@[s + t] == marker()[t],
        decreases 13 - k,
    {
        if line[s + k] != m[k] {
            proof {
                assert(line@.subrange(s as int, s as int + 13)[k as int] != marker()[k as int]);
            }
            return false;
        }
        k += 1;
    }
    proof {
        assert(line@.subrange(s as int, s as int + 13) =~= marker());
    }
    true
}

/// Whether a line holds the opening coordinate marker.
fn has_marker_line(line: &Vec<u8>) -> (r: bool)
    ensures
        r == has_marker(line@),
{
    let n = line.len();
    if n < 13 {
        proof {
            assert(!has_marker(line@));
        }
        return false;
    }
    let m = marker_bytes();
    let mut s: usize = 0;
    while s <= n - 13
        invariant
            n == line.len(),
            13 <= n,
            s <= n,
            m@ == marker(),
            forall|i: int| 0 <= i < s ==> #[trigger] line@.subrange(i, i + 13) != marker(),
        decreases n - s,
    {
        if match_at(line, &m, s) {
            proof {
                assert(has_marker(line@));
            }
            return true;
        }
        s += 1;
    }
    proof {
        assert forall|i: int| 0 <= i && i + 13 <= n implies #[trigger] line@.subrange(i, i + 13) != marker() by {
            assert(i < s);
        }
    }
    false
}

/// Whether a line is empty or whitespace throughout.
fn is_blank_line(line: &Vec<u8>) -> (r: bool)
    ensures
        r == is_blank(line@),
{
    let mut i: usize = 0;
    while i < line.len()
        invariant
            i <= line.len(),
            forall|t: int| 0 <= t < i ==> is_space(line@[t]),
        decreases line.len() - i,
    {
        let b = line[i];
        if !(b == 32 || b == 9 || b == 13) {
            return false;
        }
        i += 1;
    }
    true
}

/// Extracts the waypoint list from the bytes of a document.
///
/// The document is scanned line by line for the opening coordinate marker;
/// the first non-blank line after it is parsed as the payload and scanning
/// stops there. A document without a marker yields the empty list.
pub fn parse_document(doc: &Vec<u8>) -> (r: Vec<Waypoint>)
    ensures
        r@ == document_waypoints(doc@),
{
    let lines = split_lines(doc);
    let ghost ls = lines@.map_values(|l: Vec<u8>| l@);
    let n = lines.len();
    let mut i: usize = 0;
    proof {
        assert(ls.skip(0) =~= ls);
    }
    while i < n
        invariant
            i <= n,
            n == lines.len(),
            ls == lines@.map_values(|l: Vec<u8>| l@),
            ls == lines_of(doc@),
            scan_lines(ls) == scan_lines(ls.skip(i as int)),
        decreases n - i,
    {
        proof {
            assert(ls.skip(i as int)[0] == ls[i as int]);
            assert(ls[i as int] == lines@[i as int]@);
        }
        if has_marker_line(&lines[i]) {
            proof {
                assert(ls.skip(i as int).skip(1) =~= ls.skip(i + 1));
                assert(scan_lines(ls) == payload_after(ls.skip(i + 1)));
            }
            let mut j: usize = i + 1;
            while j < n
                invariant
                    i < j <= n,
                    n == lines.len(),
                    ls == lines@.map_values(|l: Vec<u8>| l@),
                    ls == lines_of(doc@),
                    scan_lines(ls) == payload_after(ls.skip(j as int)),
                decreases n - j,
            {
                proof {
                    assert(ls.skip(j as int)[0] == ls[j as int]);
                    assert(ls[j as int] == lines@[j as int]@);
                }
                if !is_blank_line(&lines[j]) {
                    let out = parse_payload(&lines[j]);
                    proof {
                        assert(payload_after(ls.skip(j as int)) == payload_waypoints(
                            ls[j as int],
                        ));
                    }
                    return out;
                }
                proof {
                    assert(ls.skip(j as int).skip(1) =~= ls.skip(j + 1));
                }
                j += 1;
            }
            proof {
                assert(ls.skip(n as int) =~= Seq::<Seq<u8>>::empty());
            }
            return Vec::new();
        }
        proof {
            assert(ls.skip(i as int).skip(1) =~= ls.skip(i + 1));
        }
        i += 1;
    }
    proof {
        assert(ls.skip(n as int) =~= Seq::<Seq<u8>>::empty());
    }
    Vec::new()
}

/// The bytes of the closing coordinate marker, `</coordinates>`.
pub open spec fn close_marker() -> Seq<u8> {
    seq![
        60u8,
        47u8,
        99u8,
        111u8,
        111u8,
        114u8,
        100u8,
        105u8,
        110u8,
        97u8,
        116u8,
        101u8,
        115u8,
        62u8,
    ]
}

/// The decimal digits of `n`, most significant first, without leading
/// zeros except for `n == 0` itself.
pub open spec fn digits_of(n: nat) -> Seq<u8>
    decreases n,
{
    if n < 10 {
        seq![(n + 48) as u8]
    } else {
        digits_of(n / 10).push((n % 10 + 48) as u8)
    }
}

/// The last `width` decimal digits of `n`, zero padded on the left.
pub open spec fn frac_digits(n: nat, width: nat) -> Seq<u8>
    decreases width,
{
    if width == 0 {
        Seq::empty()
    } else {
        frac_digits(n / 10, (width - 1) as nat).push((n % 10 + 48) as u8)
    }
}

/// A non-negative micro-unit value written as integer digits, a dot, and
/// exactly six fraction digits.
pub open spec fn render_magnitude(m: nat) -> Seq<u8> {
    digits_of(m / 1_000_000) + seq![46u8] + frac_digits(m % 1_000_000, 6)
}

/// A signed micro-unit coordinate written as a payload field.
pub open spec fn render_coord(v: int) -> Seq<u8> {
    if v < 0 {
        seq![45u8] + render_magnitude((-v) as nat)
    } else {
        render_magnitude(v as nat)
    }
}

/// A waypoint written as a payload token, longitude first.
pub open spec fn render_token(w: Waypoint) -> Seq<u8> {
    render_coord(w.longitude as int) + seq![44u8] + render_coord(w.latitude as int)
}

/// A waypoint list written as one payload line, tokens separated by single
/// spaces.
pub open spec fn render_payload(ws: Seq<Waypoint>) -> Seq<u8>
    decreases ws.len(),
{
    if ws.len() == 0 {
        Seq::empty()
    } else if ws.len() == 1 {
        render_token(ws[0])
    } else {
        render_token(ws[0]) + seq![32u8] + render_payload(ws.skip(1))
    }
}

/// A waypoint list written as a whole document: the opening marker line,
/// the payload line, and the closing marker line.
pub open spec fn render_document(ws: Seq<Waypoint>) -> Seq<u8> {
    marker() + seq![10u8] + render_payload(ws) + seq![10u8] + close_marker()
}

/// A coordinate value the payload format can carry: at most twelve integer
/// digits of micro-units.
pub open spec fn valid_coord(c: int) -> bool {
    -1_000_000_000_000_000_000 < c < 1_000_000_000_000_000_000
}

/// Every coordinate of every waypoint of `ws` is representable.
pub open spec fn all_valid(ws: Seq<Waypoint>) -> bool {
    forall|i: int|
        0 <= i < ws.len() ==> valid_coord(#[trigger] ws[i].latitude as int) && valid_coord(
            ws[i].longitude as int,
        )
}

/// Every byte a rendered coordinate may hold: digits, the dot, the sign.
pub open spec fn coord_bytes(s: Seq<u8>) -> bool {
    forall|i: int| 0 <= i < s.len() ==> (is_digit(#[trigger] s[i]) || s[i] == 46 || s[i] == 45)
}

/// Every byte a rendered token may hold: a coordinate byte or the comma.
pub open spec fn token_bytes(s: Seq<u8>) -> bool {
    forall|i: int|
        0 <= i < s.len() ==> (is_digit(#[trigger] s[i]) || s[i] == 46 || s[i] == 45 || s[i] == 44)
}

proof fn lemma_digits_of(n: nat)
    ensures
        digits_of(n).len() >= 1,
        all_digits(digits_of(n)),
        digits_val(digits_of(n)) == n,
    decreases n,
{
    if n < 10 {
        let s = digits_of(n);
        assert(s =~= seq![(n + 48) as u8]);
        assert(s.drop_last() =~= Seq::<u8>::empty());
        assert(digits_val(s) == digits_val(s.drop_last()) * 10 + digit_val(s.last()));
    } else {
        lemma_digits_of(n / 10);
        let head = digits_of(n / 10);
        let s = digits_of(n);
        assert(s == head.push((n % 10 + 48) as u8));
        assert(s.drop_last() =~= head);
        assert(s.last() == (n % 10 + 48) as u8);
        assert(n / 10 * 10 + n % 10 == n);
        assert(all_digits(s)) by {
            assert(forall|i: int| 0 <= i < head.len() ==> s[i] == head[i]);
        }
    }
}

proof fn lemma_digits_of_len(n: nat, k: nat)
    requires
        n < pow10(k),
        k >= 1,
    ensures
        digits_of(n).len() <= k,
    decreases n,
{
    if n < 10 {
    } else {
        if k == 1 {
            assert(pow10(1) == 10) by {
                reveal_with_fuel(pow10, 2);
            }
        }
        assert(10 * (n / 10) <= n);
        assert(n / 10 < pow10((k - 1) as nat)) by (nonlinear_arith)
            requires
                n < 10 * pow10((k - 1) as nat),
                10 * (n / 10) <= n,
        ;
        lemma_digits_of_len(n / 10, (k - 1) as nat);
    }
}

proof fn lemma_frac_digits(n: nat, width: nat)
    requires
        n < pow10(width),
    ensures
        frac_digits(n, width).len() == width,
        all_digits(frac_digits(n, width)),
        digits_val(frac_digits(n, width)) == n,
    decreases width,
{
    if width == 0 {
        assert(pow10(0) == 1);
    } else {
        assert(10 * (n / 10) <= n);
        assert(n / 10 < pow10((width - 1) as nat)) by (nonlinear_arith)
            requires
                n < 10 * pow10((width - 1) as nat),
                10 * (n / 10) <= n,
        ;
        lemma_frac_digits(n / 10, (width - 1) as nat);
        let head = frac_digits(n / 10, (width - 1) as nat);
        let s = frac_digits(n, width);
        assert(s == head.push((n % 10 + 48) as u8));
        assert(s.drop_last() =~= head);
        assert(n / 10 * 10 + n % 10 == n);
        assert(all_digits(s)) by {
            assert(forall|i: int| 0 <= i < head.len() ==> s[i] == head[i]);
        }
    }
}

proof fn lemma_parse_render_coord(v: int)
    requires
        valid_coord(v),
    ensures
        coord_bytes(render_coord(v)),
        render_coord(v).len() >= 1,
        wf_field(render_coord(v)),
        field_micro(render_coord(v)) == v,
{
    assert(pow10(12) == 1_000_000_000_000) by {
        reveal_with_fuel(pow10, 13);
    }
    assert(pow10(6) == 1_000_000) by {
        reveal_with_fuel(pow10, 7);
    }
    let m = (if v < 0 {
        -v
    } else {
        v
    }) as nat;
    let ip = m / 1_000_000;
    let fp = m % 1_000_000;
    assert(1_000_000 * ip <= m);
    assert(ip < 1_000_000_000_000);
    lemma_digits_of(ip);
    lemma_digits_of_len(ip, 12);
    lemma_frac_digits(fp, 6);
    let ids = digits_of(ip);
    let fds = frac_digits(fp, 6);
    let mag = render_magnitude(m);
    let dl = ids.len() as int;
    assert(mag =~= ids + seq![46u8] + fds);
    assert(mag[dl] == 46);
    assert(forall|i: int| 0 <= i < dl ==> mag[i] == ids[i]);
    assert(forall|i: int| 0 <= i < 6 ==> mag[dl + 1 + i] == fds[i]);
    lemma_find_byte_at(mag, 46, dl);
    assert(mag.take(dl) =~= ids);
    assert(mag.skip(dl + 1) =~= fds);
    assert(wf_body(mag));
    assert(frac_micro(fds) == digits_val(fds) * pow10(0));
    assert(digits_val(fds) * pow10(0) == fp);
    assert(1_000_000 * ip + fp == m);
    assert(body_micro(mag) == digits_val(ids) * 1_000_000 + frac_micro(fds));
    assert(body_micro(mag) == m);
    assert(coord_bytes(mag));
    let s = render_coord(v);
    if v < 0 {
        assert(s =~= seq![45u8] + mag);
        assert(s[0] == 45);
        assert(has_sign(s));
        assert(field_body(s) =~= mag);
        assert(field_micro(s) == -body_micro(mag));
        assert(coord_bytes(s)) by {
            assert(forall|i: int| 0 <= i < mag.len() ==> s[i + 1] == mag[i]);
        }
    } else {
        assert(s == mag);
        assert(s[0] == ids[0]);
        assert(is_digit(s[0]));
        assert(!has_sign(s));
        assert(field_body(s) == s);
        assert(field_micro(s) == body_micro(mag));
    }
}

proof fn lemma_parse_render_token(w: Waypoint)
    requires
        valid_coord(w.latitude as int),
        valid_coord(w.longitude as int),
    ensures
        token_bytes(render_token(w)),
        render_token(w).len() >= 1,
        wf_token(render_token(w)),
        token_waypoint(render_token(w)) == w,
{
    let lon = render_coord(w.longitude as int);
    let lat = render_coord(w.latitude as int);
    lemma_parse_render_coord(w.longitude as int);
    lemma_parse_render_coord(w.latitude as int);
    let t = render_token(w);
    assert(t =~= lon + seq![44u8] + lat);
    assert(t[lon.len() as int] == 44);
    assert(forall|i: int| 0 <= i < lon.len() ==> t[i] == lon[i]);
    assert(forall|i: int| 0 <= i < lat.len() ==> t[lon.len() + 1 + i] == lat[i]);
    lemma_find_byte_at(t, 44, lon.len() as int);
    assert(lon_field(t) =~= lon);
    let rest = t.skip(lon.len() as int + 1);
    assert(rest =~= lat);
    lemma_find_byte_none(lat, 44);
    assert(lat_field(t) == rest);
    assert(token_bytes(t));
    lemma_field_micro_bound(lat);
    lemma_field_micro_bound(lon);
    assert(token_waypoint(t) == w);
}

/// The rendered tokens of a waypoint list, one per waypoint, in order.
pub open spec fn rendered_tokens(ws: Seq<Waypoint>) -> Seq<Seq<u8>> {
    Seq::new(ws.len(), |i: int| render_token(ws[i]))
}

proof fn lemma_words_of_render_payload(ws: Seq<Waypoint>)
    requires
        all_valid(ws),
    ensures
        words_of(render_payload(ws)) == rendered_tokens(ws),
        forall|i: int| 0 <= i < render_payload(ws).len() ==> #[trigger] render_payload(ws)[i]
            != 10,
        ws.len() >= 1 ==> render_payload(ws).len() >= 1 && !is_space(render_payload(ws)[0]),
    decreases ws.len(),
{
    if ws.len() == 0 {
        assert(rendered_tokens(ws) =~= Seq::<Seq<u8>>::empty());
        assert(words_of(render_payload(ws)) =~= Seq::<Seq<u8>>::empty());
    } else if ws.len() == 1 {
        let t = render_token(ws[0]);
        lemma_parse_render_token(ws[0]);
        assert(forall|i: int| 0 <= i < t.len() ==> !is_space(#[trigger] t[i]) && t[i] != 10);
        lemma_find_space_none(t);
        assert(words_of(t) == seq![t]);
        assert(rendered_tokens(ws) =~= seq![t]);
    } else {
        let t = render_token(ws[0]);
        let tail = ws.skip(1);
        let rest = render_payload(tail);
        lemma_parse_render_token(ws[0]);
        assert(all_valid(tail)) by {
            assert(forall|i: int| 0 <= i < tail.len() ==> tail[i] == ws[i + 1]);
        }
        lemma_words_of_render_payload(tail);
        let s = render_payload(ws);
        assert(s =~= t + seq![32u8] + rest);
        assert(forall|i: int| 0 <= i < t.len() ==> s[i] == t[i]);
        assert(forall|i: int| 0 <= i < rest.len() ==> s[t.len() + 1 + i] == rest[i]);
        assert(forall|i: int| 0 <= i < t.len() ==> !is_space(#[trigger] t[i]) && t[i] != 10);
        assert(s[t.len() as int] == 32);
        lemma_find_space_at(s, t.len() as int);
        assert(rest.len() >= 1);
        assert(find_space(s) == t.len());
        assert(1 <= t.len() < s.len());
        assert(words_of(s) == seq![s.take(t.len() as int)] + words_of(s.skip(t.len() as int)));
        assert(s.take(t.len() as int) =~= t);
        let after = s.skip(t.len() as int);
        assert(after[0] == 32);
        assert(is_space(after[0]));
        assert(words_of(after) == words_of(after.skip(1)));
        assert(after.skip(1) =~= rest);
        assert(words_of(s) == seq![t] + rendered_tokens(tail));
        assert(rendered_tokens(ws) =~= seq![t] + rendered_tokens(tail));
    }
}

proof fn lemma_rendered_tokens_parse(ws: Seq<Waypoint>)
    requires
        all_valid(ws),
    ensures
        rendered_tokens(ws).filter_map(|t: Seq<u8>| token_waypoint_opt(t)) == ws,
    decreases ws.len(),
{
    let f = |t: Seq<u8>| token_waypoint_opt(t);
    let rt = rendered_tokens(ws);
    reveal_with_fuel(Seq::filter_map, 1);
    if ws.len() == 0 {
        assert(rt =~= Seq::<Seq<u8>>::empty());
        assert(rt.filter_map(f) =~= Seq::<Waypoint>::empty());
        assert(ws =~= Seq::<Waypoint>::empty());
    } else {
        let head = ws.drop_last();
        assert(all_valid(head)) by {
            assert(forall|i: int| 0 <= i < head.len() ==> head[i] == ws[i]);
        }
        lemma_rendered_tokens_parse(head);
        assert(rt.drop_last() =~= rendered_tokens(head));
        lemma_parse_render_token(ws.last());
        assert(rt.last() == render_token(ws.last()));
        assert(f(rt.last()) == Some(ws.last()));
        assert(rt.filter_map(f) == rt.drop_last().filter_map(f) + seq![ws.last()]);
        assert(rendered_tokens(head).filter_map(f) + seq![ws.last()] =~= ws);
    }
}

proof fn lemma_lines_of_prefix(a: Seq<u8>, rest: Seq<u8>)
    requires
        forall|i: int| 0 <= i < a.len() ==> #[trigger] a[i] != 10,
    ensures
        lines_of(a + seq![10u8] + rest) == seq![a] + lines_of(rest),
{
    let s = a + seq![10u8] + rest;
    assert(s[a.len() as int] == 10);
    assert(forall|i: int| 0 <= i < a.len() ==> s[i] == a[i]);
    lemma_find_byte_at(s, 10, a.len() as int);
    assert(s.len() > 0);
    assert(0 <= a.len() < s.len());
    assert(lines_of(s) == seq![s.take(a.len() as int)] + lines_of(s.skip(a.len() as int + 1)));
    assert(s.take(a.len() as int) =~= a);
    assert(s.skip(a.len() as int + 1) =~= rest);
}

proof fn lemma_marker_facts()
    ensures
        marker().len() == 13,
        forall|i: int| 0 <= i < marker().len() ==> #[trigger] marker()[i] != 10,
        has_marker(marker()),
{
    assert(forall|i: int| 0 <= i < marker().len() ==> #[trigger] marker()[i] != 10);
    assert(has_marker(marker())) by {
        assert(marker().subrange(0int, 0int + 13) =~= marker());
    }
}

proof fn lemma_close_marker_facts()
    ensures
        close_marker().len() == 14,
        forall|i: int| 0 <= i < close_marker().len() ==> #[trigger] close_marker()[i] != 10,
        !is_blank(close_marker()),
        payload_waypoints(close_marker()) == Seq::<Waypoint>::empty(),
{
    let cm = close_marker();
    assert(forall|i: int| 0 <= i < cm.len() ==> #[trigger] cm[i] != 10);
    assert(cm[0] == 60 && !is_space(cm[0]));
    assert(forall|i: int| 0 <= i < cm.len() ==> !is_space(#[trigger] cm[i]));
    lemma_find_space_none(cm);
    assert(words_of(cm) == seq![cm]);
    assert(forall|i: int| 0 <= i < cm.len() ==> #[trigger] cm[i] != 44);
    lemma_find_byte_none(cm, 44);
    assert(!wf_token(cm));
    reveal_with_fuel(Seq::filter_map, 2);
    assert(seq![cm].drop_last() =~= Seq::<Seq<u8>>::empty());
    assert(payload_waypoints(cm) =~= Seq::<Waypoint>::empty());
}

#[verifier::rlimit(100)]
#[verifier::spinoff_prover]
proof fn lemma_render_document_lines(ws: Seq<Waypoint>)
    requires
        all_valid(ws),
    ensures
        lines_of(render_document(ws)) == seq![marker(), render_payload(ws), close_marker()],
{
    let doc = render_document(ws);
    let pl = render_payload(ws);
    let cm = close_marker();
    lemma_words_of_render_payload(ws);
    lemma_marker_facts();
    lemma_close_marker_facts();
    let rest1 = pl + seq![10u8] + cm;
    assert(doc =~= marker() + seq![10u8] + rest1);
    lemma_lines_of_prefix(marker(), rest1);
    lemma_lines_of_prefix(pl, cm);
    lemma_find_byte_none(cm, 10);
    assert(lines_of(cm) == seq![cm]);
    assert(lines_of(doc) =~= seq![marker(), pl, cm]);
}

/// Law: a document rendered from any representable waypoint list parses
/// back to exactly that list — one waypoint per token, order kept, and the
/// longitude-first payload order swapped back into latitude-first storage.
#[verifier::rlimit(100)]
#[verifier::spinoff_prover]
pub proof fn lemma_render_parse_round_trip(ws: Seq<Waypoint>)
    requires
        all_valid(ws),
    ensures
        document_waypoints(render_document(ws)) == ws,
{
    let pl = render_payload(ws);
    let cm = close_marker();
    lemma_words_of_render_payload(ws);
    lemma_marker_facts();
    lemma_close_marker_facts();
    lemma_render_document_lines(ws);
    let lines = seq![marker(), pl, cm];
    assert(scan_lines(lines) == payload_after(lines.skip(1)));
    assert(lines.skip(1) =~= seq![pl, cm]);
    let two = seq![pl, cm];
    if ws.len() == 0 {
        assert(pl =~= Seq::<u8>::empty());
        assert(is_blank(pl));
        assert(payload_after(two) == payload_after(two.skip(1)));
        assert(two.skip(1) =~= seq![cm]);
        assert(payload_after(seq![cm]) == payload_waypoints(cm));
        assert(ws =~= Seq::<Waypoint>::empty());
    } else {
        assert(!is_blank(pl)) by {
            assert(!is_space(pl[0]));
        }
        assert(payload_after(two) == payload_waypoints(pl));
        lemma_rendered_tokens_parse(ws);
        assert(payload_waypoints(pl) == ws);
    }
}

} // verus!

