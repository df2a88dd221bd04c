//! Decimal numbers and human-readable durations.
//!
//! The share-id grammar carries an unsigned point count (`points:200`) and
//! a duration (`expire:2h30m`).  A duration is one or more groups, each a
//! decimal number followed by a unit: `ms`, `s`, `m`, `h` or `d`; the
//! groups add up, as in `2h30m`.

use vstd::prelude::*;

verus! {

pub open spec fn is_digit(c: char) -> bool {
    '0' <= c && c <= '9'
}

pub open spec fn digit_val(c: char) -> int {
    c as int - '0' as int
}

/// The value of a string of decimal digits.
pub open spec fn digits_val(s: Seq<char>) -> int
    decreases s.len(),
{
    if s.len() == 0 {
        0
    } else {
        digits_val(s.drop_last()) * 10 + digit_val(s.last())
    }
}

pub open spec fn all_digits(s: Seq<char>) -> bool {
    forall|i: int| 0 <= i < s.len() ==> is_digit(#[trigger] s[i])
}

pub proof fn lemma_digits_val_nonneg(s: Seq<char>)
    requires
        all_digits(s),
    ensures
        digits_val(s) >= 0,
    decreases s.len(),
{
    if s.len() > 0 {
        assert(all_digits(s.drop_last()));
        lemma_digits_val_nonneg(s.drop_last());
        assert(is_digit(s.last()));
    }
}

/// The value of a digit string never falls below the value of any prefix.
pub proof fn lemma_digits_val_prefix(s: Seq<char>, j: int)
    requires
        all_digits(s),
        0 <= j <= s.len(),
    ensures
        digits_val(s.subrange(0, j)) <= digits_val(s),
    decreases s.len() - j,
{
    if j < s.len() {
        let p = s.subrange(0, j);
        let q = s.subrange(0, j + 1);
        assert(q.drop_last() =~= p);
        assert(all_digits(p));
        lemma_digits_val_nonneg(p);
        assert(is_digit(q.last()));
        assert(digits_val(q) == digits_val(p) * 10 + digit_val(q.last()));
        assert(digits_val(p) * 10 >= digits_val(p)) by (nonlinear_arith)
            requires
                digits_val(p) >= 0,
        ;
        lemma_digits_val_prefix(s, j + 1);
    } else {
        assert(s.subrange(0, j) =~= s);
    }
}

/// Whether a digit string names a value that fits in `usize`.
pub open spec fn valid_usize(s: Seq<char>) -> bool {
    s.len() > 0 && all_digits(s) && digits_val(s) <= usize::MAX
}

/// Parse an unsigned decimal integer; reject anything else, the empty
/// string and values over `usize::MAX`.
pub fn parse_usize_chars(v: &Vec<char>) -> (r: Result<usize, ()>)
    ensures
        r matches Ok(n) ==> valid_usize(v@) && n == digits_val(v@),
        r is Err ==> !valid_usize(v@),
{
    let n = v.len();
    if n == 0 {
        return Err(());
    }
    let mut cur: usize = 0;
    let mut i: usize = 0;
    while i < n
        invariant
            0 <= i <= n,
            n == v@.len(),
            all_digits(v@.subrange(0, i as int)),
            cur == digits_val(v@.subrange(0, i as int)),
        decreases n - i,
    {
        let c = v[i];
        if !(c >= '0' && c <= '9') {
            assert(!is_digit(v@[i as int]));
            return Err(());
        }
        let d = (c as u32 - '0' as u32) as usize;
        let next = match cur.checked_mul(10) {
            Some(m) => m.checked_add(d),
            None => None,
        };
        proof {
            assert(v@.subrange(0, i + 1).drop_last() =~= v@.subrange(0, i as int));
        }
        match next {
            Some(m) => {
                cur = m;
            },
            None => {
                proof {
                    if valid_usize(v@) {
                        lemma_digits_val_prefix(v@, i + 1);
                    }
                }
                return Err(());
            },
        }
        i = i + 1;
    }
    proof {
        assert(v@.subrange(0, n as int) =~= v@);
    }
    Ok(cur)
}

/// Whether a digit string names a value that fits in `u64`.
pub open spec fn valid_u64(s: Seq<char>) -> bool {
    s.len() > 0 && all_digits(s) && digits_val(s) <= u64::MAX
}

/// Parse an unsigned decimal integer into a `u64`.
pub fn parse_u64_chars(v: &Vec<char>) -> (r: Result<u64, ()>)
    ensures
        r matches Ok(n) ==> valid_u64(v@) && n == digits_val(v@),
        r is Err ==> !valid_u64(v@),
{
    let n = v.len();
    if n == 0 {
        return Err(());
    }
    let mut cur: u64 = 0;
    let mut i: usize = 0;
    while i < n
        invariant
            0 <= i <= n,
            n == v@.len(),
            all_digits(v@.subrange(0, i as int)),
            cur == digits_val(v@.subrange(0, i as int)),
        decreases n - i,
    {
        let c = v[i];
        if !(c >= '0' && c <= '9') {
            assert(!is_digit(v@[i as int]));
            return Err(());
        }
        let d = (c as u32 - '0' as u32) as u64;
        let next = match cur.checked_mul(10) {
            Some(m) => m.checked_add(d),
            None => None,
        };
        proof {
            assert(v@.subrange(0, i + 1).drop_last() =~= v@.subrange(0, i as int));
        }
        match next {
            Some(m) => {
                cur = m;
            },
            None => {
                proof {
                    if valid_u64(v@) {
                        lemma_digits_val_prefix(v@, i + 1);
                    }
                }
                return Err(());
            },
        }
        i = i + 1;
    }
    proof {
        assert(v@.subrange(0, n as int) =~= v@);
    }
    Ok(cur)
}

/// The longest digit prefix of the string, and the rest.
pub open spec fn take_digits(s: Seq<char>) -> (Seq<char>, Seq<char>)
    decreases s.len(),
{
    if s.len() > 0 && is_digit(s[0]) {
        let (d, r) = take_digits(s.drop_first());
        (seq![s[0]] + d, r)
    } else {
        (Seq::empty(), s)
    }
}

/// The longest prefix without a digit, and the rest.
pub open spec fn take_nondigits(s: Seq<char>) -> (Seq<char>, Seq<char>)
    decreases s.len(),
{
    if s.len() > 0 && !is_digit(s[0]) {
        let (d, r) = take_nondigits(s.drop_first());
        (seq![s[0]] + d, r)
    } else {
        (Seq::empty(), s)
    }
}

pub proof fn lemma_take_digits(s: Seq<char>)
    ensures
        take_digits(s).0 + take_digits(s).1 =~= s,
        take_digits(s).0.len() + take_digits(s).1.len() == s.len(),
        all_digits(take_digits(s).0),
        take_digits(s).1.len() > 0 ==> !is_digit(take_digits(s).1[0]),
    decreases s.len(),
{
    if s.len() > 0 && is_digit(s[0]) {
        lemma_take_digits(s.drop_first());
        assert(take_digits(s).0 + take_digits(s).1 =~= seq![s[0]] + (take_digits(
            s.drop_first(),
        ).0 + take_digits(s.drop_first()).1));
        assert(seq![s[0]] + s.drop_first() =~= s);
    }
}

pub proof fn lemma_take_nondigits(s: Seq<char>)
    ensures
        take_nondigits(s).0 + take_nondigits(s).1 =~= s,
        take_nondigits(s).0.len() + take_nondigits(s).1.len() == s.len(),
        forall|i: int| 0 <= i < take_nondigits(s).0.len() ==> !is_digit(
            #[trigger] take_nondigits(s).0[i],
        ),
        take_nondigits(s).1.len() > 0 ==> is_digit(take_nondigits(s).1[0]),
    decreases s.len(),
{
    if s.len() > 0 && !is_digit(s[0]) {
        lemma_take_nondigits(s.drop_first());
        assert(take_nondigits(s).0 + take_nondigits(s).1 =~= seq![s[0]] + (take_nondigits(
            s.drop_first(),
        ).0 + take_nondigits(s.drop_first()).1));
        assert(seq![s[0]] + s.drop_first() =~= s);
    }
}

/// Microseconds per unit name, for the units the grammar knows.
pub open spec fn unit_micros(u: Seq<char>) -> Option<int> {
    if u =~= seq!['m', 's'] {
        Some(1000int)
    } else if u =~= seq!['s'] {
        Some(1000000int)
    } else if u =~= seq!['m'] {
        Some(60000000int)
    } else if u =~= seq!['h'] {
        Some(3600000000int)
    } else if u =~= seq!['d'] {
        Some(86400000000int)
    } else {
        None
    }
}

/// The value of a duration string in microseconds: groups of a number and
/// a unit, added up.  `Err` on an empty string, a missing number, an
/// unknown unit or a trailing group.
pub open spec fn duration_micros(s: Seq<char>) -> Result<int, ()>
    decreases s.len(),
    via duration_micros_decreases
{
    {
        let (ds, r1) = take_digits(s);
        let (us, r2) = take_nondigits(r1);
        if ds.len() == 0 {
            Err(())
        } else {
            match unit_micros(us) {
                Option::None => Err(()),
                Option::Some(mul) => {
                    if r2.len() == 0 {
                        Ok(digits_val(ds) * mul)
                    } else {
                        match duration_micros(r2) {
                            Result::Err(e) => Err(e),
                            Result::Ok(v) => Ok(digits_val(ds) * mul + v),
                        }
                    }
                },
            }
        }
    }
}

#[via_fn]
proof fn duration_micros_decreases(s: Seq<char>) {
    lemma_take_digits(s);
    lemma_take_nondigits(take_digits(s).1);
}

/// Whether the string is a duration whose microsecond value fits in `i64`.
pub open spec fn valid_duration(s: Seq<char>) -> bool {
    &&& duration_micros(s) is Ok
    &&& duration_micros(s)->Ok_0 <= i64::MAX
}

/// Every group of a duration is worth at least nothing, so the total never
/// falls below any suffix total.
pub proof fn lemma_duration_micros_nonneg(s: Seq<char>)
    requires
        duration_micros(s) is Ok,
    ensures
        duration_micros(s)->Ok_0 >= 0,
    decreases s.len(),
{
    let (ds, r1) = take_digits(s);
    let (us, r2) = take_nondigits(r1);
    lemma_take_digits(s);
    lemma_take_nondigits(r1);
    let mul = unit_micros(us)->Some_0;
    lemma_digits_val_nonneg(ds);
    assert(digits_val(ds) * mul >= 0) by (nonlinear_arith)
        requires
            digits_val(ds) >= 0,
            mul >= 0,
    ;
    if r2.len() > 0 {
        lemma_duration_micros_nonneg(r2);
    }
}

/// Parse a duration such as `10s` or `2h30m` into microseconds; reject
/// anything the grammar does not describe and values over `i64::MAX`.
#[verifier::rlimit(100)]
pub fn parse_duration_chars(v: &Vec<char>) -> (r: Result<i64, ()>)
    ensures
        r matches Ok(us) ==> valid_duration(v@) && us == duration_micros(v@)->Ok_0,
        r is Err ==> !valid_duration(v@),
{
    let n = v.len();
    let mut total: i64 = 0;
    let mut pos: usize = 0;
    let mut any = false;

    // Parsed groups so far add to `total`; the rest of the string still
    // has to parse on its own and fit in the remaining headroom.
    while pos < n
        invariant
            0 <= pos <= n,
            n == v@.len(),
            0 <= total,
            any <==> pos > 0,
            pos == 0 ==> total == 0,
            any && pos == n ==> valid_duration(v@) && duration_micros(v@) == Ok::<int, ()>(
                total as int,
            ),
            any && pos < n ==> (valid_duration(v@) <==> (duration_micros(
                v@.subrange(pos as int, n as int),
            ) is Ok && total + duration_micros(v@.subrange(pos as int, n as int))->Ok_0
                <= i64::MAX)),
            any && pos < n ==> (duration_micros(v@.subrange(pos as int, n as int)) is Ok
                ==> duration_micros(v@) == Ok::<int, ()>(
                total + duration_micros(v@.subrange(pos as int, n as int))->Ok_0,
            )),
        decreases n - pos,
    {
        let ghost rest = v@.subrange(pos as int, n as int);
        // digit run
        let dstart = pos;
        let mut p = pos;
        while p < n
            invariant
                dstart <= p <= n,
                n == v@.len(),
                forall|k: int| dstart <= k < p ==> is_digit(#[trigger] v@[k]),
            ensures
                dstart <= p <= n,
                forall|k: int| dstart <= k < p ==> is_digit(#[trigger] v@[k]),
                p == n || !is_digit(v@[p as int]),
            decreases n - p,
        {
            let c = v[p];
            if !(c >= '0' && c <= '9') {
                break;
            }
            p = p + 1;
        }
        let ghost gd = take_digits(rest);
        proof {
            lemma_take_digits_run(rest, (p - dstart) as int);
            assert(gd.0 =~= v@.subrange(dstart as int, p as int));
            assert(gd.1 =~= v@.subrange(p as int, n as int));
        }
        if p == dstart {
            // no digits at the head of the group
            return Err(());
        }
        let mut num_vec: Vec<char> = Vec::new();
        let mut q = dstart;
        while q < p
            invariant
                dstart <= q <= p <= n,
                n == v@.len(),
                num_vec@ == v@.subrange(dstart as int, q as int),
            decreases p - q,
        {
            num_vec.push(v[q]);
            proof {
                assert(num_vec@ =~= v@.subrange(dstart as int, q + 1));
            }
            q = q + 1;
        }
        // unit run
        let ustart = p;
        let mut u = p;
        while u < n
            invariant
                ustart <= u <= n,
                n == v@.len(),
                forall|k: int| ustart <= k < u ==> !is_digit(#[trigger] v@[k]),
            ensures
                ustart <= u <= n,
                forall|k: int| ustart <= k < u ==> !is_digit(#[trigger] v@[k]),
                u == n || is_digit(v@[u as int]),
            decreases n - u,
        {
            let c = v[u];
            if c >= '0' && c <= '9' {
                break;
            }
            u = u + 1;
        }
        let ghost gu = take_nondigits(gd.1);
        proof {
            lemma_take_nondigits_run(gd.1, (u - ustart) as int);
            assert(gu.0 =~= v@.subrange(ustart as int, u as int));
            assert(gu.1 =~= v@.subrange(u as int, n as int));
        }
        let mut unit_vec: Vec<char> = Vec::new();
        let mut w = ustart;
        while w < u
            invariant
                ustart <= w <= u <= n,
                n == v@.len(),
                unit_vec@ == v@.subrange(ustart as int, w as int),
            decreases u - w,
        {
            unit_vec.push(v[w]);
            proof {
                assert(unit_vec@ =~= v@.subrange(ustart as int, w + 1));
            }
            w = w + 1;
        }
        let mul: i64 = if unit_vec.len() == 2 && unit_vec[0] == 'm' && unit_vec[1] == 's' {
            1000
        } else if unit_vec.len() == 1 && unit_vec[0] == 's' {
            1000000
        } else if unit_vec.len() == 1 && unit_vec[0] == 'm' {
            60000000
        } else if unit_vec.len() == 1 && unit_vec[0] == 'h' {
            3600000000
        } else if unit_vec.len() == 1 && unit_vec[0] == 'd' {
            86400000000
        } else {
            proof {
                assert(unit_micros(gu.0) is None) by {
                    if unit_vec@ =~= seq!['m', 's'] {
                        assert(false);
                    }
                    if unit_vec@ =~= seq!['s'] {
                        assert(false);
                    }
                    if unit_vec@ =~= seq!['m'] {
                        assert(false);
                    }
                    if unit_vec@ =~= seq!['h'] {
                        assert(false);
                    }
                    if unit_vec@ =~= seq!['d'] {
                        assert(false);
                    }
                }
                assert(gd.0.len() > 0);
                assert(duration_micros(rest) is Err);
                if pos == 0 {
                    assert(rest =~= v@);
                }
            }
            return Err(());
        };
        proof {
            assert(unit_micros(gu.0) == Some(mul as int));
            lemma_take_digits(rest);
            if pos == 0 {
                assert(rest =~= v@);
            }
        }
        let ghost dv = digits_val(gd.0);
        let ghost g = dv * (mul as int);
        let num = match parse_u64_chars(&num_vec) {
            Ok(x) => x,
            Err(()) => {
                proof {
                    assert(dv > u64::MAX);
                    lemma_digits_val_nonneg(gd.0);
                    assert(g >= dv) by (nonlinear_arith)
                        requires
                            dv >= 0,
                            g == dv * (mul as int),
                            mul >= 1,
                    ;
                    if duration_micros(rest) is Ok {
                        lemma_group_overflow(rest, i64::MAX as int);
                    }
                }
                return Err(());
            },
        };
        if num > i64::MAX as u64 {
            proof {
                assert(dv == num);
                assert(g >= dv) by (nonlinear_arith)
                    requires
                        dv >= 0,
                        g == dv * (mul as int),
                        mul >= 1,
                ;
                if duration_micros(rest) is Ok {
                    lemma_group_overflow(rest, i64::MAX as int);
                }
            }
            return Err(());
        }
        let group = match (num as i64).checked_mul(mul) {
            Some(gr) => gr,
            None => {
                proof {
                    lemma_digits_val_nonneg(gd.0);
                    assert(g > i64::MAX);
                    if duration_micros(rest) is Ok {
                        lemma_group_overflow(rest, i64::MAX as int);
                    }
                }
                return Err(());
            },
        };
        assert(group == g);
        let new_total = match total.checked_add(group) {
            Some(t) => t,
            None => {
                proof {
                    if duration_micros(rest) is Ok {
                        if gu.1.len() > 0 {
                            lemma_duration_micros_nonneg(gu.1);
                        }
                        assert(duration_micros(rest)->Ok_0 >= g);
                        assert(total + duration_micros(rest)->Ok_0 > i64::MAX);
                    }
                }
                return Err(());
            },
        };
        proof {
            if gu.1.len() == 0 {
                assert(v@.subrange(u as int, n as int).len() == 0);
                assert(u == n);
                assert(duration_micros(rest) == Ok::<int, ()>(g));
            } else {
                assert(u < n);
                if duration_micros(gu.1) is Ok {
                    assert(duration_micros(rest) == Ok::<int, ()>(
                        g + duration_micros(gu.1)->Ok_0,
                    ));
                } else {
                    assert(duration_micros(rest) is Err);
                }
            }
        }
        total = new_total;
        any = true;
        pos = u;
    }
    if !any {
        proof {
            assert(n == 0);
            assert(take_digits(v@).0.len() == 0);
        }
        return Err(());
    }
    Ok(total)
}

/// A maximal digit run at the head of a string is what `take_digits` takes.
proof fn lemma_take_digits_run(s: Seq<char>, k: int)
    requires
        0 <= k <= s.len(),
        forall|i: int| 0 <= i < k ==> is_digit(#[trigger] s[i]),
        k == s.len() || !is_digit(s[k]),
    ensures
        take_digits(s).0 == s.subrange(0, k),
        take_digits(s).1 == s.subrange(k, s.len() as int),
    decreases k,
{
    if k == 0 {
        assert(s.subrange(0, 0) =~= Seq::<char>::empty());
        assert(s.subrange(0, s.len() as int) =~= s);
    } else {
        let t = s.drop_first();
        lemma_take_digits_run(t, k - 1);
        assert(seq![s[0]] + t.subrange(0, k - 1) =~= s.subrange(0, k));
        assert(t.subrange(k - 1, t.len() as int) =~= s.subrange(k, s.len() as int));
    }
}

/// A maximal digit-free run at the head of a string is what
/// `take_nondigits` takes.
proof fn lemma_take_nondigits_run(s: Seq<char>, k: int)
    requires
        0 <= k <= s.len(),
        forall|i: int| 0 <= i < k ==> !is_digit(#[trigger] s[i]),
        k == s.len() || is_digit(s[k]),
    ensures
        take_nondigits(s).0 == s.subrange(0, k),
        take_nondigits(s).1 == s.subrange(k, s.len() as int),
    decreases k,
{
    if k == 0 {
        assert(s.subrange(0, 0) =~= Seq::<char>::empty());
        assert(s.subrange(0, s.len() as int) =~= s);
    } else {
        let t = s.drop_first();
        lemma_take_nondigits_run(t, k - 1);
        assert(seq![s[0]] + t.subrange(0, k - 1) =~= s.subrange(0, k));
        assert(t.subrange(k - 1, t.len() as int) =~= s.subrange(k, s.len() as int));
    }
}

/// If the leading group of a duration is worth more than `cap`, the whole
/// duration is worth more than `cap`.
proof fn lemma_group_overflow(s: Seq<char>, cap: int)
    requires
        duration_micros(s) is Ok,
        digits_val(take_digits(s).0) * unit_micros(take_nondigits(take_digits(s).1).0)->Some_0
            > cap,
    ensures
        duration_micros(s)->Ok_0 > cap,
{
    let r2 = take_nondigits(take_digits(s).1).1;
    if r2.len() > 0 {
        lemma_duration_micros_nonneg(r2);
    }
}

} // verus!
