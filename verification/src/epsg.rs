//! EPSG codes of the WGS 84 / UTM projections.
use vstd::prelude::*;

verus! {

/// The decimal digit character for `d` in `0 ..= 9`.
pub open spec fn digit_char(d: int) -> char {
    (d + 48) as char
}

/// The decimal digits of `n`, most significant first, without leading zeros.
pub open spec fn decimal_digits(n: nat) -> Seq<char>
    decreases n,
{
    if n < 10 {
        seq![digit_char(n as int)]
    } else {
        decimal_digits(n / 10) + seq![digit_char((n % 10) as int)]
    }
}

/// `z` in decimal, zero-padded to at least two characters, the sign counted
/// in the width.
pub open spec fn two_digit_decimal(z: int) -> Seq<char> {
    if 0 <= z < 10 {
        seq!['0', digit_char(z)]
    } else if z < 0 {
        seq!['-'] + decimal_digits((-z) as nat)
    } else {
        decimal_digits(z as nat)
    }
}

/// The EPSG code of UTM zone `utm_zone`: `EPSG:327zz` in the northern form,
/// `EPSG:326zz` otherwise.
pub open spec fn epsg_utm_code(northern: bool, utm_zone: int) -> Seq<char> {
    "EPSG:32"@ + seq![if northern { '7' } else { '6' }] + two_digit_decimal(utm_zone)
}

/// Reads a string of decimal digits back as a number.
pub open spec fn digits_value(s: Seq<char>) -> int
    decreases s.len(),
{
    if s.len() == 0 {
        0
    } else {
        10 * digits_value(s.drop_last()) + (s.last() as int - 48)
    }
}

/// Every character of `s` is one of `0` to `9`.
pub open spec fn all_digits(s: Seq<char>) -> bool {
    forall|i: int| 0 <= i < s.len() ==> '0' <= #[trigger] s[i] <= '9'
}

/// Writing `n` in decimal and reading it back gives `n`; the text is made of
/// digits only, is not empty, and starts with `0` only when `n` is 0.
pub proof fn lemma_decimal_digits_read_back(n: nat)
    ensures
        digits_value(decimal_digits(n)) == n,
        all_digits(decimal_digits(n)),
        decimal_digits(n).len() >= 1,
        n < 10 <==> decimal_digits(n).len() == 1,
        n >= 1 ==> decimal_digits(n)[0] != '0',
    decreases n,
{
    let d = decimal_digits(n);
    if n < 10 {
        assert(d.drop_last() =~= Seq::<char>::empty());
        assert(digits_value(Seq::<char>::empty()) == 0);
        assert(d.last() == digit_char(n as int));
        assert(digits_value(d) == 10 * digits_value(d.drop_last()) + (d.last() as int - 48));
    } else {
        lemma_decimal_digits_read_back(n / 10);
        let prefix = decimal_digits(n / 10);
        assert(d.drop_last() =~= prefix);
        assert(d.last() == digit_char((n % 10) as int));
        assert(digits_value(d) == 10 * digits_value(d.drop_last()) + (d.last() as int - 48));
        assert(d[0] == prefix[0]);
        assert forall|i: int| 0 <= i < d.len() implies '0' <= #[trigger] d[i] <= '9' by {
            if i < prefix.len() {
                assert(d[i] == prefix[i]);
            }
        }
    }
}

/// The zone part of an EPSG code, read back, is the zone: for a zone of at
/// least 0 the code is `EPSG:32`, the hemisphere digit, then at least two
/// digits whose value is the zone; below 100 exactly the tens and the units.
pub proof fn lemma_epsg_code_zone(northern: bool, utm_zone: int)
    requires
        utm_zone >= 0,
    ensures
        ({
            let code = epsg_utm_code(northern, utm_zone);
            &&& code.len() >= 10
            &&& code.subrange(0, 7) == "EPSG:32"@
            &&& code[7] == (if northern { '7' } else { '6' })
            &&& all_digits(code.subrange(8, code.len() as int))
            &&& digits_value(code.subrange(8, code.len() as int)) == utm_zone
            &&& utm_zone >= 10 ==> code[8] != '0'
            &&& utm_zone < 100 ==> code == "EPSG:32"@ + seq![
                if northern { '7' } else { '6' },
                ((utm_zone / 10) + 48) as char,
                ((utm_zone % 10) + 48) as char,
            ]
        }),
{
    reveal_strlit("EPSG:32");
    let code = epsg_utm_code(northern, utm_zone);
    let zone = two_digit_decimal(utm_zone);
    assert(code.subrange(0, 7) =~= "EPSG:32"@);
    assert(code.subrange(8, code.len() as int) =~= zone);
    lemma_decimal_digits_read_back(utm_zone as nat);
    lemma_two_digit_read_back(utm_zone);
    if utm_zone < 10 {
    } else if utm_zone < 100 {
        let q = (utm_zone / 10) as nat;
        assert(decimal_digits(q) == seq![digit_char(q as int)]);
        assert(zone =~= seq![digit_char(q as int), digit_char(utm_zone % 10)]);
    }
    if utm_zone < 100 {
        assert(code =~= "EPSG:32"@ + seq![
            if northern { '7' } else { '6' },
            ((utm_zone / 10) + 48) as char,
            ((utm_zone % 10) + 48) as char,
        ]);
    }
}

fn digit_str(d: u32) -> (s: &'static str)
    requires
        d < 10,
    ensures
        s@ == seq![digit_char(d as int)],
{
    match d {
        0 => {
            proof { reveal_strlit("0"); }
            "0"
        },
        1 => {
            proof { reveal_strlit("1"); }
            "1"
        },
        2 => {
            proof { reveal_strlit("2"); }
            "2"
        },
        3 => {
            proof { reveal_strlit("3"); }
            "3"
        },
        4 => {
            proof { reveal_strlit("4"); }
            "4"
        },
        5 => {
            proof { reveal_strlit("5"); }
            "5"
        },
        6 => {
            proof { reveal_strlit("6"); }
            "6"
        },
        7 => {
            proof { reveal_strlit("7"); }
            "7"
        },
        8 => {
            proof { reveal_strlit("8"); }
            "8"
        },
        _ => {
            proof { reveal_strlit("9"); }
            "9"
        },
    }
}

fn append_decimal(s: &mut String, n: u32)
    ensures
        final(s)@ == old(s)@ + decimal_digits(n as nat),
    decreases n,
{
    if n >= 10 {
        append_decimal(s, n / 10);
    }
    s.append(digit_str(n % 10));
}

/// Writes `z` as `{:02}` does: in decimal, zero-padded to two characters.
pub fn format_two_digit(z: i32) -> (s: String)
    ensures
        s@ == two_digit_decimal(z as int),
        z >= 0 ==> s@.len() >= 2 && all_digits(s@) && digits_value(s@) == z,
        0 <= z < 100 ==> s@.len() == 2,
        z >= 10 ==> s@[0] != '0',
        z < 0 ==> s@.len() >= 2 && s@[0] == '-' && all_digits(s@.drop_first())
            && digits_value(s@.drop_first()) == -z && s@[1] != '0',
{
    let mut s = String::new();
    if 0 <= z && z < 10 {
        proof { reveal_strlit("0"); }
        s.append("0");
        s.append(digit_str(z as u32));
    } else if z < 0 {
        proof { reveal_strlit("-"); }
        s.append("-");
        let magnitude: u32 = if z == i32::MIN { 2147483648u32 } else { (-z) as u32 };
        append_decimal(&mut s, magnitude);
    } else {
        append_decimal(&mut s, z as u32);
    }
    proof {
        lemma_two_digit_read_back(z as int);
    }
    s
}

/// The two-digit form of `z`, read back, is `z`: at least two characters,
/// all digits for `z` of at least 0, a `-` then the digits of `-z` below 0.
pub proof fn lemma_two_digit_read_back(z: int)
    ensures
        z >= 0 ==> two_digit_decimal(z).len() >= 2 && all_digits(two_digit_decimal(z))
            && digits_value(two_digit_decimal(z)) == z,
        0 <= z < 100 ==> two_digit_decimal(z).len() == 2,
        z >= 10 ==> two_digit_decimal(z)[0] != '0',
        z < 0 ==> two_digit_decimal(z).len() >= 2 && two_digit_decimal(z)[0] == '-'
            && all_digits(two_digit_decimal(z).drop_first())
            && digits_value(two_digit_decimal(z).drop_first()) == -z
            && two_digit_decimal(z)[1] != '0',
{
    let t = two_digit_decimal(z);
    if z >= 0 {
        lemma_decimal_digits_read_back(z as nat);
        if z < 10 {
            let zero = seq!['0'];
            assert(t.drop_last() =~= zero);
            assert(zero.drop_last() =~= Seq::<char>::empty());
            assert(digits_value(Seq::<char>::empty()) == 0);
            assert(zero.last() == '0');
            assert(digits_value(zero) == 10 * digits_value(zero.drop_last()) + (zero.last() as int - 48));
            assert(digits_value(zero) == 0);
            assert(t.last() == digit_char(z));
            assert(digits_value(t) == 10 * digits_value(t.drop_last()) + (t.last() as int - 48));
        } else if z < 100 {
            lemma_decimal_digits_read_back((z / 10) as nat);
        }
    } else {
        lemma_decimal_digits_read_back((-z) as nat);
        assert(t.drop_first() =~= decimal_digits((-z) as nat));
        assert(t[1] == t.drop_first()[0]);
    }
}

/// The EPSG code of the WGS 84 / UTM projection for zone `utm_zone`, in the
/// northern (`327..`) or southern (`326..`) series.
pub fn epsg_utm_str(northern: bool, utm_zone: i32) -> (code: String)
    ensures
        code@ == epsg_utm_code(northern, utm_zone as int),
        0 <= utm_zone < 100 ==> code@.len() == 10,
        0 <= utm_zone < 100 ==> code@ == "EPSG:32"@ + seq![
            if northern { '7' } else { '6' },
            ((utm_zone / 10) + 48) as char,
            ((utm_zone % 10) + 48) as char,
        ],
        0 <= utm_zone ==> code@.len() >= 10 && all_digits(code@.subrange(8, code@.len() as int))
            && digits_value(code@.subrange(8, code@.len() as int)) == utm_zone,
        10 <= utm_zone ==> code@[8] != '0',
{
    let mut code = String::from_str("EPSG:32");
    if northern {
        code.append("7");
        proof { reveal_strlit("7"); }
    } else {
        code.append("6");
        proof { reveal_strlit("6"); }
    }
    let zone = format_two_digit(utm_zone);
    code.append(zone.as_str());
    proof {
        reveal_strlit("EPSG:32");
        let spec_code = epsg_utm_code(northern, utm_zone as int);
        assert(code@ =~= spec_code);
        if utm_zone >= 0 {
            lemma_epsg_code_zone(northern, utm_zone as int);
            let tail = spec_code.subrange(8, spec_code.len() as int);
            assert(all_digits(tail));
            assert(digits_value(tail) == utm_zone);
            assert(code@.subrange(8, code@.len() as int) == tail);
        }
    }
    code
}

} // verus!
