use vstd::prelude::*;
use vstd::string::StringExecFns;

verus! {

#[verifier::external_type_specification]
#[verifier::external_body]
pub struct ExGetrandomError(getrandom::Error);

/// Relies on getrandom::fill: on success the buffer holds bytes from the
/// system's cryptographically secure source; nothing is promised of them.
#[verifier::external_body]
fn fill_random(buf: &mut [u8; 8]) -> (r: Result<(), getrandom::Error>) {
    getrandom::fill(buf)
}

/// The character of the temporary-name alphabet `A-Z a-z 0-9 - _` at
/// position `x`.
pub open spec fn name_char(x: u8) -> u8
    recommends
        x < 64,
{
    if x < 26 {
        (65 + x) as u8
    } else if x < 52 {
        (97 + (x - 26)) as u8
    } else if x < 62 {
        (48 + (x - 52)) as u8
    } else if x == 62 {
        45
    } else {
        95
    }
}

/// The suffix that eight random bytes give: each byte masked to its low
/// six bits picks one character of the alphabet.
pub open spec fn suffix_of(rand: Seq<u8>) -> Seq<u8> {
    rand.map_values(|b: u8| name_char(b & 0x3f))
}

/// The name made of `prefix` and the suffix that `rand` gives.
pub fn temp_name(prefix: &[u8], rand: &[u8; 8]) -> (r: Vec<u8>)
    ensures
        r@ == prefix@ + suffix_of(rand@),
{
    let mut r: Vec<u8> = Vec::new();
    let mut i: usize = 0;
    while i < prefix.len()
        invariant
            0 <= i <= prefix@.len(),
            r@ == prefix@.take(i as int),
        decreases prefix@.len() - i,
    {
        r.push(prefix[i]);
        assert(r@ =~= prefix@.take(i as int + 1));
        i += 1;
    }
    let mut k: usize = 0;
    assert(prefix@.take(prefix@.len() as int) =~= prefix@);
    assert(r@ =~= prefix@ + suffix_of(rand@).take(0));
    while k < 8
        invariant
            0 <= k <= 8,
            rand@.len() == 8,
            r@ == prefix@ + suffix_of(rand@).take(k as int),
        decreases 8 - k,
    {
        let byte: u8 = rand[k];
        let x: u8 = byte & 0x3f;
        assert(x < 64) by (bit_vector)
            requires
                x == byte & 0x3f,
        ;
        let c: u8 = if x < 26 {
            65 + x
        } else if x < 52 {
            97 + (x - 26)
        } else if x < 62 {
            48 + (x - 52)
        } else if x == 62 {
            45
        } else {
            95
        };
        r.push(c);
        assert(r@ =~= prefix@ + suffix_of(rand@).take(k as int + 1));
        k += 1;
    }
    assert(suffix_of(rand@).take(8) =~= suffix_of(rand@));
    r
}

/// A fresh temporary file name: `prefix` followed by eight characters of
/// the alphabet drawn from the system's secure random source; `None` where
/// that source failed.
pub fn temp_filename(prefix: &[u8]) -> (r: Option<Vec<u8>>)
    ensures
        match r {
            Some(name) => exists|rand: Seq<u8>|
                rand.len() == 8 && name@ == prefix@ + #[trigger] suffix_of(rand),
            None => true,
        },
{
    let mut rand: [u8; 8] = [0u8; 8];
    match fill_random(&mut rand) {
        Ok(()) => {
            let name = temp_name(prefix, &rand);
            assert(rand@.len() == 8);
            Some(name)
        },
        Err(_) => None,
    }
}

/// The decimal digit `d` as a character.
pub open spec fn digit_char(d: nat) -> char
    recommends
        d < 10,
{
    if d == 0 {
        '0'
    } else if d == 1 {
        '1'
    } else if d == 2 {
        '2'
    } else if d == 3 {
        '3'
    } else if d == 4 {
        '4'
    } else if d == 5 {
        '5'
    } else if d == 6 {
        '6'
    } else if d == 7 {
        '7'
    } else if d == 8 {
        '8'
    } else {
        '9'
    }
}

/// The decimal text of `n`, without leading zeros.
pub open spec fn decimal(n: nat) -> Seq<char>
    decreases n,
{
    if n < 10 {
        seq![digit_char(n)]
    } else {
        decimal(n / 10).push(digit_char(n % 10))
    }
}

fn digit_str(d: u64) -> (r: &'static str)
    requires
        d < 10,
    ensures
        r@ == seq![digit_char(d as nat)],
{
    proof {
        reveal_strlit("0");
        reveal_strlit("1");
        reveal_strlit("2");
        reveal_strlit("3");
        reveal_strlit("4");
        reveal_strlit("5");
        reveal_strlit("6");
        reveal_strlit("7");
        reveal_strlit("8");
        reveal_strlit("9");
    }
    if d == 0 {
        "0"
    } else if d == 1 {
        "1"
    } else if d == 2 {
        "2"
    } else if d == 3 {
        "3"
    } else if d == 4 {
        "4"
    } else if d == 5 {
        "5"
    } else if d == 6 {
        "6"
    } else if d == 7 {
        "7"
    } else if d == 8 {
        "8"
    } else {
        "9"
    }
}

/// Appends the decimal text of `n`.
fn push_decimal(s: &mut String, n: u64)
    ensures
        final(s)@ == old(s)@ + decimal(n as nat),
    decreases n,
{
    if n < 10 {
        s.append(digit_str(n));
    } else {
        push_decimal(s, n / 10);
        s.append(digit_str(n % 10));
        assert(final(s)@ =~= old(s)@ + decimal(n as nat));
    }
}

/// Divides by 1024 while the quotient is at least 1024 and a larger unit
/// remains (up to the seventh): the quotient, the last remainder and the
/// number of divisions.
pub open spec fn reduce(s: nat, f: nat, i: nat) -> (nat, nat, nat)
    decreases s,
{
    if s >= 1024 && i < 7 {
        reduce(s / 1024, s % 1024, i + 1)
    } else {
        (s, f, i)
    }
}

/// `n / 1024` rounded to the nearest integer, ties to even.
pub open spec fn round_div_1024(n: nat) -> nat {
    let q = n / 1024;
    let r = n % 1024;
    if r > 512 || (r == 512 && q % 2 == 1) {
        q + 1
    } else {
        q
    }
}

/// The unit names, from bytes up.
pub open spec fn unit_name(i: nat) -> Seq<char> {
    if i == 0 {
        "bytes"@
    } else if i == 1 {
        "KiB"@
    } else if i == 2 {
        "MiB"@
    } else if i == 3 {
        "GiB"@
    } else if i == 4 {
        "TiB"@
    } else if i == 5 {
        "PiB"@
    } else if i == 6 {
        "EiB"@
    } else {
        "ZiB"@
    }
}

/// A byte count in human-readable units: whole bytes below 1024, else the
/// value in the largest binary unit that keeps it at least 1, with one
/// decimal rounded to the nearest tenth (ties to even).
pub open spec fn size_text(size: u64) -> Seq<char> {
    let (s, f, i) = reduce(size as nat, 0, 0);
    if i == 0 {
        decimal(s) + " "@ + unit_name(0)
    } else {
        let t = s * 10 + round_div_1024(f * 10);
        decimal(t / 10) + "."@ + decimal(t % 10) + " "@ + unit_name(i)
    }
}

fn unit_str(i: u64) -> (r: &'static str)
    requires
        i < 8,
    ensures
        r@ == unit_name(i as nat),
{
    if i == 0 {
        "bytes"
    } else if i == 1 {
        "KiB"
    } else if i == 2 {
        "MiB"
    } else if i == 3 {
        "GiB"
    } else if i == 4 {
        "TiB"
    } else if i == 5 {
        "PiB"
    } else if i == 6 {
        "EiB"
    } else {
        "ZiB"
    }
}

/// Formats a byte count for people, such as `5 bytes` or `1.5 KiB`.
pub fn size_to_string(size: u64) -> (r: String)
    ensures
        r@ == size_text(size),
{
    let mut s: u64 = size;
    let mut f: u64 = 0;
    let mut i: u64 = 0;
    assert(pow1024(0) == 1);
    assert(size as nat >= s as nat * pow1024(0)) by (nonlinear_arith)
        requires
            pow1024(0) == 1,
            s == size,
    ;
    while s >= 1024 && i < 7
        invariant
            i <= 7,
            f < 1024,
            reduce(s as nat, f as nat, i as nat) == reduce(size as nat, 0, 0),
            size as nat >= s as nat * pow1024(i as nat),
        decreases s,
    {
        let ghost s0 = s as nat;
        let ghost p = pow1024(i as nat);
        f = s % 1024;
        s = s / 1024;
        i = i + 1;
        assert(pow1024(i as nat) == 1024 * p);
        assert(s0 >= 1024 * (s as nat)) by (nonlinear_arith)
            requires
                s as nat == s0 / 1024,
        ;
        assert(s0 * p >= (s as nat) * (1024 * p)) by (nonlinear_arith)
            requires
                s0 >= 1024 * (s as nat),
        ;
    }
    let ghost red = reduce(size as nat, 0, 0);
    assert(red == (s as nat, f as nat, i as nat));
    let mut r = String::new();
    if i == 0 {
        push_decimal(&mut r, s);
        r.append(" ");
        r.append(unit_str(0));
        proof {
            reveal_strlit(" ");
        }
        assert(r@ =~= size_text(size));
    } else {
        assert(s < 1024) by {
            if s >= 1024 {
                assert(i == 7);
                reveal_with_fuel(pow1024, 8);
                assert(pow1024(7) == 1024 * 1024 * 1024 * 1024 * 1024 * 1024 * 1024);
                assert((s as nat) * pow1024(7) >= 1024 * pow1024(7)) by (nonlinear_arith)
                    requires
                        s >= 1024,
                ;
            }
        };
        let q: u64 = f * 10 / 1024;
        let rem: u64 = f * 10 % 1024;
        let round: u64 = if rem > 512 || (rem == 512 && q % 2 == 1) {
            q + 1
        } else {
            q
        };
        let t: u64 = s * 10 + round;
        push_decimal(&mut r, t / 10);
        r.append(".");
        push_decimal(&mut r, t % 10);
        r.append(" ");
        r.append(unit_str(i));
        proof {
            reveal_strlit(" ");
            reveal_strlit(".");
        }
        assert(r@ =~= size_text(size));
    }
    r
}

pub open spec fn pow1024(k: nat) -> nat
    decreases k,
{
    if k == 0 {
        1
    } else {
        1024 * pow1024((k - 1) as nat)
    }
}

/// A root directory path that ends with `/`, so that relative paths can be
/// appended to it.
pub fn with_trailing_slash(dir: &Vec<u8>) -> (r: Vec<u8>)
    ensures
        r@ == (if dir@.len() > 0 && dir@.last() == 47u8 {
            dir@
        } else {
            dir@.push(47u8)
        }),
{
    let mut r = dir.clone();
    if r.len() == 0 || r[r.len() - 1] != 47u8 {
        r.push(47u8);
    }
    r
}

} // verus!
