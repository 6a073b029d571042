//! Text shown in the optional size and permission columns.

use vstd::prelude::*;

verus! {

/// The character that stands for one permission bit: `letter` when the bit
/// is set in `mode`, `-` when it is not.
pub open spec fn flag_char(mode: u32, bit: u32, letter: char) -> char {
    if mode & bit != 0 {
        letter
    } else {
        '-'
    }
}

/// The nine-character `rwxrwxrwx` rendering of the low permission bits.
pub open spec fn permission_text(mode: u32) -> Seq<char> {
    seq![
        flag_char(mode, 0o400, 'r'),
        flag_char(mode, 0o200, 'w'),
        flag_char(mode, 0o100, 'x'),
        flag_char(mode, 0o040, 'r'),
        flag_char(mode, 0o020, 'w'),
        flag_char(mode, 0o010, 'x'),
        flag_char(mode, 0o004, 'r'),
        flag_char(mode, 0o002, 'w'),
        flag_char(mode, 0o001, 'x'),
    ]
}

fn append_flag(s: &mut String, set: bool, letter: char)
    requires
        letter == 'r' || letter == 'w' || letter == 'x',
    ensures
        final(s)@ == old(s)@.push(if set { letter } else { '-' }),
{
    proof {
        reveal_strlit("-");
        reveal_strlit("r");
        reveal_strlit("w");
        reveal_strlit("x");
    }
    if !set {
        s.append("-");
    } else if letter == 'r' {
        s.append("r");
    } else if letter == 'w' {
        s.append("w");
    } else {
        s.append("x");
    }
}

/// Formats a Unix file mode as the nine characters `rwxrwxrwx`, with `-`
/// for each permission bit that is not set.
pub fn format_permissions(mode: u32) -> (r: String)
    ensures
        r@ == permission_text(mode),
{
    let mut s = String::new();
    append_flag(&mut s, mode & 0o400 != 0, 'r');
    append_flag(&mut s, mode & 0o200 != 0, 'w');
    append_flag(&mut s, mode & 0o100 != 0, 'x');
    append_flag(&mut s, mode & 0o040 != 0, 'r');
    append_flag(&mut s, mode & 0o020 != 0, 'w');
    append_flag(&mut s, mode & 0o010 != 0, 'x');
    append_flag(&mut s, mode & 0o004 != 0, 'r');
    append_flag(&mut s, mode & 0o002 != 0, 'w');
    append_flag(&mut s, mode & 0o001 != 0, 'x');
    assert(s@ =~= permission_text(mode));
    s
}

pub open spec fn digit_char(d: nat) -> char {
    if d == 0 {
        '0'
    } else if d == 1 {
        '1'
    } else if d == 2 {
        '2'
    } else if d == 3 {
        '3'
    } else if d == 4 {
        '4'
    } else if d == 5 {
        '5'
    } else if d == 6 {
        '6'
    } else if d == 7 {
        '7'
    } else if d == 8 {
        '8'
    } else {
        '9'
    }
}

/// Decimal digits of `n`, without leading zeros.
pub open spec fn decimal(n: nat) -> Seq<char>
    decreases n,
{
    if n < 10 {
        seq![digit_char(n)]
    } else {
        decimal(n / 10).push(digit_char(n % 10))
    }
}

/// `bytes / unit` in tenths, rounded to the nearest tenth, a tie to the even
/// one.
pub open spec fn tenths(bytes: nat, unit: nat) -> nat
    recommends
        unit > 0,
{
    let q = (bytes * 10) / unit;
    let r = (bytes * 10) % unit;
    if 2 * r > unit || (2 * r == unit && q % 2 == 1) {
        q + 1
    } else {
        q
    }
}

/// A number of tenths written with one decimal place.
pub open spec fn one_place(t: nat) -> Seq<char> {
    decimal(t / 10) + seq!['.', digit_char(t % 10)]
}

pub open spec fn unit_suffix(k: nat) -> Seq<char> {
    if k == 1 {
        seq![' ', 'K', 'i', 'B']
    } else if k == 2 {
        seq![' ', 'M', 'i', 'B']
    } else if k == 3 {
        seq![' ', 'G', 'i', 'B']
    } else {
        seq![' ', 'T', 'i', 'B']
    }
}

pub const KIB: u64 = 1024;
pub const MIB: u64 = 1048576;
pub const GIB: u64 = 1073741824;
pub const TIB: u64 = 1099511627776;

/// Human-readable size: whole bytes below 1 KiB, else the size in the
/// largest binary unit up to TiB that it reaches, with one decimal place.
pub open spec fn size_text(bytes: u64) -> Seq<char> {
    if bytes < KIB {
        decimal(bytes as nat) + seq![' ', 'B']
    } else if bytes < MIB {
        one_place(tenths(bytes as nat, KIB as nat)) + unit_suffix(1)
    } else if bytes < GIB {
        one_place(tenths(bytes as nat, MIB as nat)) + unit_suffix(2)
    } else if bytes < TIB {
        one_place(tenths(bytes as nat, GIB as nat)) + unit_suffix(3)
    } else {
        one_place(tenths(bytes as nat, TIB as nat)) + unit_suffix(4)
    }
}

fn append_digit(s: &mut String, d: u128)
    requires
        d < 10,
    ensures
        final(s)@ == old(s)@.push(digit_char(d as nat)),
{
    proof {
        reveal_strlit("0");
        reveal_strlit("1");
        reveal_strlit("2");
        reveal_strlit("3");
        reveal_strlit("4");
        reveal_strlit("5");
        reveal_strlit("6");
        reveal_strlit("7");
        reveal_strlit("8");
        reveal_strlit("9");
    }
    let t = if d == 0 {
        "0"
    } else if d == 1 {
        "1"
    } else if d == 2 {
        "2"
    } else if d == 3 {
        "3"
    } else if d == 4 {
        "4"
    } else if d == 5 {
        "5"
    } else if d == 6 {
        "6"
    } else if d == 7 {
        "7"
    } else if d == 8 {
        "8"
    } else {
        "9"
    };
    s.append(t);
}

fn append_decimal(s: &mut String, n: u128)
    ensures
        final(s)@ == old(s)@ + decimal(n as nat),
    decreases n,
{
    if n >= 10 {
        append_decimal(s, n / 10);
    }
    append_digit(s, n % 10);
    proof {
        if n < 10 {
            assert(n % 10 == n);
        }
    }
    assert(s@ =~= old(s)@ + decimal(n as nat));
}

fn append_text(s: &mut String, t: &str)
    ensures
        final(s)@ == old(s)@ + t@,
{
    s.append(t);
}

/// Formats a size in bytes into a human-readable string using binary
/// prefixes (KiB, MiB, GiB, TiB).
pub fn format_size(bytes: u64) -> (r: String)
    ensures
        r@ == size_text(bytes),
{
    proof {
        reveal_strlit(" B");
        reveal_strlit(" KiB");
        reveal_strlit(" MiB");
        reveal_strlit(" GiB");
        reveal_strlit(" TiB");
        reveal_strlit(".");
    }
    let mut s = String::new();
    if bytes < KIB {
        append_decimal(&mut s, bytes as u128);
        append_text(&mut s, " B");
        assert(s@ =~= size_text(bytes));
        return s;
    }
    let (unit, suffix): (u64, &str) = if bytes < MIB {
        (KIB, " KiB")
    } else if bytes < GIB {
        (MIB, " MiB")
    } else if bytes < TIB {
        (GIB, " GiB")
    } else {
        (TIB, " TiB")
    };
    let scaled = bytes as u128 * 10;
    let q = scaled / unit as u128;
    let r = scaled % unit as u128;
    let t = if 2 * r > unit as u128 || (2 * r == unit as u128 && q % 2 == 1) {
        q + 1
    } else {
        q
    };
    append_decimal(&mut s, t / 10);
    append_text(&mut s, ".");
    append_digit(&mut s, t % 10);
    append_text(&mut s, suffix);
    assert(s@ =~= size_text(bytes));
    s
}

} // verus!
