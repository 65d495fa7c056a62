//! Rendering of durations as `{h}h{m}m{s}s` strings for reports.

use vstd::prelude::*;
use vstd::string::StringExecFns;

verus! {

/// The character for one decimal digit.
pub open spec fn digit_char(d: int) -> char {
    if d == 0 {
        '0'
    } else if d == 1 {
        '1'
    } else if d == 2 {
        '2'
    } else if d == 3 {
        '3'
    } else if d == 4 {
        '4'
    } else if d == 5 {
        '5'
    } else if d == 6 {
        '6'
    } else if d == 7 {
        '7'
    } else if d == 8 {
        '8'
    } else {
        '9'
    }
}

/// The decimal rendering of a non-negative number, most significant digit
/// first, with no leading zeros (except for the number zero itself).
pub open spec fn dec_rep(n: int) -> Seq<char>
    decreases n,
{
    if n < 10 {
        seq![digit_char(n)]
    } else {
        dec_rep(n / 10).push(digit_char(n % 10))
    }
}

/// The rendering of a duration of `d` seconds: hours, minutes and seconds,
/// where the hour and minute parts are omitted when zero.
pub open spec fn duration_rep(d: int) -> Seq<char> {
    let h = d / 3600;
    let m = (d % 3600) / 60;
    let s = d % 60;
    (if h > 0 {
        dec_rep(h).push('h')
    } else {
        Seq::<char>::empty()
    }) + (if m > 0 {
        dec_rep(m).push('m')
    } else {
        Seq::<char>::empty()
    }) + dec_rep(s).push('s')
}

/// Append the decimal rendering of `n` to `out`.
fn push_dec(out: &mut String, n: u64)
    ensures
        final(out)@ == old(out)@ + dec_rep(n as int),
    decreases n,
{
    if n >= 10 {
        push_dec(out, n / 10);
    }
    let d: u64 = n % 10;
    if d == 0 {
        proof { reveal_strlit("0"); }
        out.append("0");
    } else if d == 1 {
        proof { reveal_strlit("1"); }
        out.append("1");
    } else if d == 2 {
        proof { reveal_strlit("2"); }
        out.append("2");
    } else if d == 3 {
        proof { reveal_strlit("3"); }
        out.append("3");
    } else if d == 4 {
        proof { reveal_strlit("4"); }
        out.append("4");
    } else if d == 5 {
        proof { reveal_strlit("5"); }
        out.append("5");
    } else if d == 6 {
        proof { reveal_strlit("6"); }
        out.append("6");
    } else if d == 7 {
        proof { reveal_strlit("7"); }
        out.append("7");
    } else if d == 8 {
        proof { reveal_strlit("8"); }
        out.append("8");
    } else {
        proof { reveal_strlit("9"); }
        out.append("9");
    }
    proof {
        if n < 10 {
            assert(dec_rep(n as int) =~= seq![digit_char(n as int)]);
        } else {
            assert(dec_rep(n as int) =~= dec_rep(n as int / 10).push(digit_char(n as int % 10)));
        }
        assert(out@ =~= old(out)@ + dec_rep(n as int));
    }
}

/// Render a non-negative duration in seconds as `{h}h{m}m{s}s`, omitting the
/// hour and minute parts when they are zero.
pub fn format_duration(d: i64) -> (r: String)
    requires
        d >= 0,
    ensures
        r@ == duration_rep(d as int),
{
    let du: u64 = d as u64;
    let h: u64 = du / 3600;
    let m: u64 = (du % 3600) / 60;
    let s: u64 = du % 60;
    let mut out = String::new();
    if h > 0 {
        push_dec(&mut out, h);
        proof { reveal_strlit("h"); }
        out.append("h");
    }
    if m > 0 {
        push_dec(&mut out, m);
        proof { reveal_strlit("m"); }
        out.append("m");
    }
    push_dec(&mut out, s);
    proof { reveal_strlit("s"); }
    out.append("s");
    proof {
        assert(out@ =~= duration_rep(d as int));
    }
    out
}

} // verus!
