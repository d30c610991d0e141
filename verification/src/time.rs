//! Integer-millisecond durations and their human-readable formatting.
//!
//! A duration below one second renders as `0.mmm`; below ten seconds as
//! `s.mmm`; below a minute as `ss.mmm` (two-digit seconds); below an hour as
//! `m:ss.mmm`; and from an hour on as `h:m:ss.mmm`.

use vstd::prelude::*;

verus! {

/// Milliseconds in `u32`.
pub type Milliseconds = u32;

/// Milliseconds in a second.
pub const SEC: Milliseconds = 1_000;

/// Milliseconds in a minute.
pub const MIN: Milliseconds = 60_000;

/// Milliseconds in an hour.
pub const HOUR: Milliseconds = 3_600_000;

/// The decimal digit `d` as a character.
pub open spec fn digit_char(d: nat) -> char {
    if d == 0 {
        '0'
    } else if d == 1 {
        '1'
    } else if d == 2 {
        '2'
    } else if d == 3 {
        '3'
    } else if d == 4 {
        '4'
    } else if d == 5 {
        '5'
    } else if d == 6 {
        '6'
    } else if d == 7 {
        '7'
    } else if d == 8 {
        '8'
    } else {
        '9'
    }
}

/// The decimal representation of `n`, most significant digit first.
pub open spec fn dec_str(n: nat) -> Seq<char>
    decreases n,
{
    if n < 10 {
        seq![digit_char(n)]
    } else {
        dec_str(n / 10).push(digit_char(n % 10))
    }
}

/// The decimal representation of `n < 1000`, zero-padded to three digits.
pub open spec fn pad3(n: nat) -> Seq<char> {
    if n < 10 {
        seq!['0', '0', digit_char(n)]
    } else if n < 100 {
        seq!['0'] + dec_str(n)
    } else {
        dec_str(n)
    }
}

/// The decimal representation of `n < 100`, zero-padded to two digits.
pub open spec fn pad2(n: nat) -> Seq<char> {
    if n < 10 {
        seq!['0', digit_char(n)]
    } else {
        dec_str(n)
    }
}

/// The human-readable rendering of a duration of `t` milliseconds.
pub open spec fn readable_spec(t: nat) -> Seq<char> {
    let secs_and_millis = pad2((t % (MIN as nat)) / (SEC as nat)) + seq!['.'] + pad3(t % (SEC as nat));
    if t < SEC {
        seq!['0', '.'] + pad3(t)
    } else if t < 10 * SEC {
        dec_str(t / (SEC as nat)) + seq!['.'] + pad3(t % (SEC as nat))
    } else if t < MIN {
        secs_and_millis
    } else if t < HOUR {
        dec_str(t / (MIN as nat)) + seq![':'] + secs_and_millis
    } else {
        dec_str(t / (HOUR as nat)) + seq![':'] + dec_str((t % (HOUR as nat)) / (MIN as nat))
            + seq![':'] + secs_and_millis
    }
}

/// Formats a time type into a human-readable string.
pub trait HumanReadable {
    /// The characters of the human-readable form.
    spec fn readable_view(&self) -> Seq<char>;

    /// The human-readable string of the type.
    fn to_readable_string(&self) -> (r: String)
        ensures
            r@ == self.readable_view(),
    ;
}

/// The decimal digit `d` as a one-character string slice.
fn digit_str(d: u32) -> (r: &'static str)
    requires
        d < 10,
    ensures
        r@ == seq![digit_char(d as nat)],
{
    proof {
        reveal_strlit("0");
        reveal_strlit("1");
        reveal_strlit("2");
        reveal_strlit("3");
        reveal_strlit("4");
        reveal_strlit("5");
        reveal_strlit("6");
        reveal_strlit("7");
        reveal_strlit("8");
        reveal_strlit("9");
    }
    match d {
        0 => "0",
        1 => "1",
        2 => "2",
        3 => "3",
        4 => "4",
        5 => "5",
        6 => "6",
        7 => "7",
        8 => "8",
        _ => "9",
    }
}

/// The decimal representation of `n` as a string.
fn u32_dec(n: u32) -> (r: String)
    ensures
        r@ == dec_str(n as nat),
    decreases n,
{
    if n < 10 {
        String::from_str(digit_str(n))
    } else {
        let mut s = u32_dec(n / 10);
        s.append(digit_str(n % 10));
        proof {
            assert(dec_str(n as nat) =~= dec_str((n / 10) as nat) + seq![digit_char((n % 10) as nat)]);
        }
        s
    }
}

/// The decimal representation of `n < 1000`, zero-padded to three digits.
fn u32_pad3(n: u32) -> (r: String)
    requires
        n < 1000,
    ensures
        r@ == pad3(n as nat),
{
    proof {
        reveal_strlit("00");
        reveal_strlit("0");
    }
    if n < 10 {
        let mut s = String::from_str("00");
        s.append(digit_str(n));
        proof {
            assert(s@ =~= pad3(n as nat));
        }
        s
    } else if n < 100 {
        let mut s = String::from_str("0");
        let d = u32_dec(n);
        s.append(d.as_str());
        s
    } else {
        u32_dec(n)
    }
}

/// The decimal representation of `n < 100`, zero-padded to two digits.
fn u32_pad2(n: u32) -> (r: String)
    requires
        n < 100,
    ensures
        r@ == pad2(n as nat),
{
    proof {
        reveal_strlit("0");
    }
    if n < 10 {
        let mut s = String::from_str("0");
        s.append(digit_str(n));
        proof {
            assert(s@ =~= pad2(n as nat));
        }
        s
    } else {
        u32_dec(n)
    }
}

impl HumanReadable for Milliseconds {
    open spec fn readable_view(&self) -> Seq<char> {
        readable_spec(*self as nat)
    }

    fn to_readable_string(&self) -> (r: String)
        ensures
            r@ == self.readable_view(),
    {
        let t = *self;
        proof {
            reveal_strlit("0.");
            reveal_strlit(".");
            reveal_strlit(":");
        }

        if t < SEC {
            let mut s = String::from_str("0.");
            let m = u32_pad3(t);
            s.append(m.as_str());
            proof {
                assert(s@ =~= readable_spec(t as nat));
            }
            return s;
        } else if t < SEC * 10 {
            let mut s = u32_dec(t / SEC);
            s.append(".");
            let m = u32_pad3(t % SEC);
            s.append(m.as_str());
            proof {
                assert(s@ =~= readable_spec(t as nat));
            }
            return s;
        }

        let mut secs_and_millis = u32_pad2((t % MIN) / SEC);
        secs_and_millis.append(".");
        let m = u32_pad3(t % SEC);
        secs_and_millis.append(m.as_str());

        if t < MIN {
            proof {
                assert(secs_and_millis@ =~= readable_spec(t as nat));
            }
            secs_and_millis
        } else if t < HOUR {
            let mut s = u32_dec(t / MIN);
            s.append(":");
            s.append(secs_and_millis.as_str());
            proof {
                assert(s@ =~= readable_spec(t as nat));
            }
            s
        } else {
            let mut s = u32_dec(t / HOUR);
            s.append(":");
            let mins = u32_dec((t % HOUR) / MIN);
            s.append(mins.as_str());
            s.append(":");
            s.append(secs_and_millis.as_str());
            proof {
                assert(s@ =~= readable_spec(t as nat));
            }
            s
        }
    }
}

} // verus!
