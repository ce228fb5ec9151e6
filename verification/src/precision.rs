//! Deriving decimal exponents from the exchange's tick-size strings.
//!
//! A trading pair's price and size precisions arrive as power-of-ten
//! literals, such as `"0.001"` for a tick size of a thousandth. `exp` turns
//! such a literal into the signed decimal exponent used to parse every later
//! price or size string of that pair.

use vstd::prelude::*;
use vstd::string::StringSliceAdditionalSpecFns;

verus! {

/// One step of the tick-size scan over the alphabet `0`, `1`, `.`: the
/// state is the accumulated exponent and the per-zero increment.
pub open spec fn exp_step(st: (int, int), c: u8) -> Option<(int, int)> {
    if c == 48 {
        Some((st.0 + st.1, st.1))
    } else if c == 46 {
        if st.0 != 0 {
            None
        } else {
            Some((-1int, -1int))
        }
    } else if c == 49 {
        if st.1 == 1 {
            None
        } else {
            Some((st.0, 1int))
        }
    } else {
        None
    }
}

/// The scan carried over a whole string from state `st`.
pub open spec fn exp_scan(s: Seq<u8>, st: (int, int)) -> Option<(int, int)>
    decreases s.len(),
{
    if s.len() == 0 {
        Some(st)
    } else {
        match exp_step(st, s[0]) {
            None => None,
            Some(st2) => exp_scan(s.drop_first(), st2),
        }
    }
}

/// The exponent a tick-size string denotes, if it is well-formed.
pub open spec fn exp_spec(s: Seq<u8>) -> Option<int> {
    match exp_scan(s, (0int, 0int)) {
        None => None,
        Some(st) => Some(st.0),
    }
}

/// Derive a decimal exponent from a power-of-ten literal: `"100"` gives 2,
/// `"0.001"` gives -3. Zeros count positions away from the lone `1`; a
/// second `1` once one was seen, a dot after a nonzero accumulation, or any
/// character outside `0`, `1` and `.` is rejected.
pub fn exp(s: &str) -> (r: Result<i8, ()>)
    ensures
        match r {
            Ok(v) => exp_spec(s.spec_bytes()) matches Some(k) && v == k as i8,
            Err(_) => exp_spec(s.spec_bytes()) is None,
        },
{
    let bytes: &[u8] = s.as_bytes();
    let n = bytes.len();
    let ghost bs = s.spec_bytes();
    let mut x: i128 = 0;
    let mut q: i128 = 0;
    let mut i: usize = 0;
    proof {
        assert(bs.subrange(0, n as int) =~= bs);
    }
    while i < n
        invariant
            bs == s.spec_bytes(),
            bytes@ == bs,
            n == bs.len(),
            i <= n,
            -(i as int) <= x <= i as int,
            -1 <= q <= 1,
            exp_scan(bs, (0int, 0int)) == exp_scan(
                bs.subrange(i as int, n as int),
                (x as int, q as int),
            ),
        decreases n - i,
    {
        let b = bytes[i];
        let ghost pre = bs.subrange(i as int, n as int);
        proof {
            assert(pre[0] == bs[i as int]);
            assert(pre.drop_first() =~= bs.subrange(i as int + 1, n as int));
        }
        if b == 48 {
            x = x + q;
        } else if b == 46 {
            if x != 0 {
                return Err(());
            }
            x = -1;
            q = -1;
        } else if b == 49 {
            if q == 1 {
                return Err(());
            }
            q = 1;
        } else {
            return Err(());
        }
        i += 1;
    }
    proof {
        assert(bs.subrange(n as int, n as int) =~= Seq::<u8>::empty());
    }
    Ok(x as i8)
}

} // verus!
