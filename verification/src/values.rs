//! Element values as they are printed: a mantissa with at most two decimals
//! and an SI suffix.

use vstd::prelude::*;

verus! {

/// The suffixes, three decades apart from `f` for ten to the minus fifteenth.
pub const SUFFIXES: usize = 10;

/// A mantissa that is due for the next suffix, in hundredths.
pub const FULL_MANTISSA: u32 = 100_000;

/// `String::push`: the character is put behind the string's last one, and the
/// rest of the string is kept.
pub assume_specification[ String::push ](s: &mut String, c: char)
    ensures
        final(s)@ == old(s)@.push(c),
;

/// The suffix of a row. `Meg` is mega, since `M` is milli in netlists.
pub open spec fn suffix(row: int) -> Seq<char> {
    if row == 0 {
        seq!['f']
    } else if row == 1 {
        seq!['p']
    } else if row == 2 {
        seq!['n']
    } else if row == 3 {
        seq!['u']
    } else if row == 4 {
        seq!['m']
    } else if row == 6 {
        seq!['k']
    } else if row == 7 {
        seq!['M', 'e', 'g']
    } else if row == 8 {
        seq!['G']
    } else if row == 9 {
        seq!['T']
    } else {
        seq![]
    }
}

/// The character of a decimal digit.
pub open spec fn digit(d: int) -> char {
    (48 + d) as u32 as char
}

/// A number in decimal digits.
pub open spec fn decimal(n: nat) -> Seq<char>
    decreases n,
{
    if n < 10 {
        seq![digit(n as int)]
    } else {
        decimal(n / 10).push(digit((n % 10) as int))
    }
}

/// What stands behind the whole part of a mantissa: as many decimals as are
/// needed, and no point where none is.
pub open spec fn decimals(hundredths: nat) -> Seq<char> {
    let tenth = digit((hundredths / 10 % 10) as int);
    if hundredths % 100 == 0 {
        seq![]
    } else if hundredths % 10 == 0 {
        seq!['.', tenth]
    } else {
        seq!['.', tenth, digit((hundredths % 10) as int)]
    }
}

/// A mantissa without trailing zeros.
pub open spec fn mantissa_text(hundredths: nat) -> Seq<char> {
    decimal(hundredths / 100) + decimals(hundredths)
}

/// A value as it is printed: a full mantissa goes over to the next suffix, and
/// has no text where there is none.
pub open spec fn si_text(negative: bool, row: int, hundredths: nat) -> Option<Seq<char>> {
    let sign = if negative {
        seq!['-']
    } else {
        seq![]
    };
    if hundredths < FULL_MANTISSA {
        Some(sign + mantissa_text(hundredths) + suffix(row))
    } else if row + 1 < SUFFIXES {
        Some(sign + mantissa_text(hundredths / 1000) + suffix(row + 1))
    } else {
        None
    }
}

/// The mantissa has at most three significant digits.
pub open spec fn is_short(hundredths: nat) -> bool {
    ||| hundredths < 1000
    ||| hundredths < 10_000 && hundredths % 10 == 0
    ||| hundredths % 100 == 0
}

fn push_digit(text: &mut String, d: u32)
    requires
        d < 10,
    ensures
        final(text)@ == old(text)@.push(digit(d as int)),
{
    let c: char = match d {
        0 => '0',
        1 => '1',
        2 => '2',
        3 => '3',
        4 => '4',
        5 => '5',
        6 => '6',
        7 => '7',
        8 => '8',
        _ => '9',
    };
    text.push(c);
}

fn push_decimal(text: &mut String, n: u32)
    ensures
        final(text)@ == old(text)@ + decimal(n as nat),
    decreases n,
{
    if n >= 10 {
        push_decimal(text, n / 10);
    }
    push_digit(text, n % 10);
    assert(text@ =~= old(text)@ + decimal(n as nat));
}

fn push_mantissa(text: &mut String, hundredths: u32)
    ensures
        final(text)@ == old(text)@ + mantissa_text(hundredths as nat),
{
    push_decimal(text, hundredths / 100);
    if hundredths % 100 != 0 {
        text.push('.');
        push_digit(text, hundredths / 10 % 10);
        if hundredths % 10 != 0 {
            push_digit(text, hundredths % 10);
        }
    }
    assert(text@ =~= old(text)@ + mantissa_text(hundredths as nat));
}

fn push_suffix(text: &mut String, row: usize)
    ensures
        final(text)@ == old(text)@ + suffix(row as int),
{
    match row {
        0 => text.push('f'),
        1 => text.push('p'),
        2 => text.push('n'),
        3 => text.push('u'),
        4 => text.push('m'),
        6 => text.push('k'),
        7 => {
            text.push('M');
            text.push('e');
            text.push('g');
        },
        8 => text.push('G'),
        9 => text.push('T'),
        _ => {},
    }
    assert(text@ =~= old(text)@ + suffix(row as int));
}

/// Writes a value with its SI suffix: a mantissa without trailing zeros at the
/// suffix of its row, where a mantissa of a thousand goes over to the next
/// suffix. There is no text where that would be past the last one.
pub fn format_scaled(negative: bool, row: usize, hundredths: u32) -> (r: Option<String>)
    requires
        row < SUFFIXES,
    ensures
        match r {
            Some(text) => si_text(negative, row as int, hundredths as nat) == Some(text@),
            None => si_text(negative, row as int, hundredths as nat) is None,
        },
{
    let mut text: String = String::new();
    if negative {
        text.push('-');
    }
    let ghost sign = text@;
    assert(sign =~= if negative {
        seq!['-']
    } else {
        seq![]
    });
    if hundredths < FULL_MANTISSA {
        push_mantissa(&mut text, hundredths);
        push_suffix(&mut text, row);
        Some(text)
    } else if row + 1 < SUFFIXES {
        push_mantissa(&mut text, hundredths / 1000);
        push_suffix(&mut text, row + 1);
        Some(text)
    } else {
        None
    }
}

proof fn decimal_is_digits(n: nat)
    ensures
        decimal(n).len() >= 1,
        n < 10 ==> decimal(n).len() == 1,
        n < 100 ==> decimal(n).len() <= 2,
        n < 1000 ==> decimal(n).len() <= 3,
        forall|i: int| 0 <= i < decimal(n).len() ==> '0' <= #[trigger] decimal(n)[i] <= '9',
    decreases n,
{
    if n >= 10 {
        decimal_is_digits(n / 10);
    }
}

/// A mantissa never ends in a point, and one that has decimals never ends in a
/// zero.
pub proof fn mantissas_are_trimmed(hundredths: nat)
    ensures
        mantissa_text(hundredths).len() > 0,
        mantissa_text(hundredths).last() != '.',
        mantissa_text(hundredths).contains('.') ==> mantissa_text(hundredths).last() != '0',
{
    decimal_is_digits(hundredths / 100);
    let text = mantissa_text(hundredths);
    let whole = decimal(hundredths / 100);
    if hundredths % 100 == 0 {
        assert(text =~= whole);
        assert('0' <= whole.last() <= '9');
    }
}

/// A mantissa of at most three significant digits takes at most three, with a
/// point if it has decimals.
pub proof fn mantissas_are_short(hundredths: nat)
    requires
        hundredths < FULL_MANTISSA,
        is_short(hundredths),
    ensures
        mantissa_text(hundredths).len() <= 4,
        !mantissa_text(hundredths).contains('.') ==> mantissa_text(hundredths).len() <= 3,
{
    decimal_is_digits(hundredths / 100);
    let text = mantissa_text(hundredths);
    if hundredths % 100 != 0 {
        assert(text[decimal(hundredths / 100).len() as int] == '.');
    }
}

proof fn decimal_is_unique(a: nat, b: nat)
    requires
        decimal(a) == decimal(b),
    ensures
        a == b,
    decreases a,
{
    decimal_is_digits(a / 10);
    decimal_is_digits(b / 10);
    assert(decimal(a).last() == digit((a % 10) as int));
    assert(decimal(b).last() == digit((b % 10) as int));
    if a >= 10 && b >= 10 {
        assert(decimal(a).drop_last() =~= decimal(a / 10));
        assert(decimal(b).drop_last() =~= decimal(b / 10));
        decimal_is_unique(a / 10, b / 10);
    }
}

/// Two mantissas of one text are the same.
#[verifier::rlimit(60)]
pub proof fn mantissas_are_unique(a: nat, b: nat)
    requires
        mantissa_text(a) == mantissa_text(b),
    ensures
        a == b,
{
    decimal_is_digits(a / 100);
    decimal_is_digits(b / 100);
    let (s, t) = (decimal(a / 100), decimal(b / 100));
    let text = mantissa_text(a);
    if s.len() < t.len() {
        assert(text.len() >= t.len());
        assert(text[s.len() as int] == '.');
        assert(text[s.len() as int] == t[s.len() as int]);
        assert(false);
    }
    if t.len() < s.len() {
        assert(text.len() >= s.len());
        assert(mantissa_text(b)[t.len() as int] == '.');
        assert(text[t.len() as int] == s[t.len() as int]);
        assert(false);
    }
    assert(text.take(s.len() as int) =~= s);
    assert(mantissa_text(b).take(t.len() as int) =~= t);
    decimal_is_unique(a / 100, b / 100);
    assert(text.skip(s.len() as int) =~= decimals(a));
    assert(mantissa_text(b).skip(t.len() as int) =~= decimals(b));
    let (da, db) = (decimals(a), decimals(b));
    assert(da.len() == db.len());
    if da.len() > 0 {
        assert(da[1] == db[1]);
        assert(digit((a / 10 % 10) as int) == digit((b / 10 % 10) as int));
        if da.len() > 2 {
            assert(da[2] == db[2]);
            assert(digit((a % 10) as int) == digit((b % 10) as int));
        }
    }
}

/// The number that a text of decimal digits reads as.
pub open spec fn reads_as(s: Seq<char>) -> int
    decreases s.len(),
{
    if s.len() == 0 {
        0
    } else {
        10 * reads_as(s.drop_last()) + (s.last() as int - '0' as int)
    }
}

/// The digits of a number read back as the number, and none of them is in vain.
pub proof fn decimals_read_back(n: nat)
    ensures
        reads_as(decimal(n)) == n,
        decimal(n).len() >= 1,
        decimal(n).len() > 1 ==> decimal(n)[0] != '0',
        forall|k: int| 0 <= k < decimal(n).len() ==> '0' <= #[trigger] decimal(n)[k] <= '9',
    decreases n,
{
    if n < 10 {
        let s = decimal(n);
        assert(s.drop_last().len() == 0);
        assert(reads_as(s.drop_last()) == 0);
        assert(s.last() == digit(n as int));
    } else {
        decimals_read_back(n / 10);
        let s = decimal(n);
        let head = decimal(n / 10);
        assert(s.drop_last() =~= head);
        assert(s.last() == digit((n % 10) as int));
        assert(s[0] == head[0]);
        if head.len() == 1 {
            assert(head.drop_last().len() == 0);
            assert(reads_as(head) == 10 * reads_as(head.drop_last()) + (head.last() as int
                - '0' as int));
            assert(head[0] as int - '0' as int == n / 10);
        }
    }
}

/// A mantissa's text is its whole part and, behind a point, its tenths and
/// hundredths as far as they are not zero at the end.
pub proof fn mantissas_read_back(whole: nat, tenths: int, hundredths: int)
    requires
        0 <= tenths < 10,
        0 <= hundredths < 10,
    ensures
        ({
            let text = mantissa_text((100 * whole + 10 * tenths + hundredths) as nat);
            let w = decimal(whole);
            let t = (48 + tenths) as u32 as char;
            let h = (48 + hundredths) as u32 as char;
            &&& tenths == 0 && hundredths == 0 ==> text =~= w
            &&& tenths != 0 && hundredths == 0 ==> text =~= w + seq!['.', t]
            &&& hundredths != 0 ==> text =~= w + seq!['.', t, h]
        }),
{
    let n = (100 * whole + 10 * tenths + hundredths) as nat;
    assert(n / 100 == whole);
    assert(n / 10 % 10 == tenths);
    assert(n % 10 == hundredths);
    assert(n % 100 == 10 * tenths + hundredths);
}

/// The suffixes run from femto to tera in steps of a thousand, with nothing
/// behind a plain number; a mantissa of a thousand goes over to the next, and
/// a negative value has a minus sign.
pub proof fn suffixes_run_from_femto_to_tera(negative: bool, hundredths: nat, row: int)
    requires
        0 <= row < 10,
        hundredths < 100_000,
    ensures
        ({
            let text = |s: Seq<char>, h: nat|
                (if negative {
                    seq!['-']
                } else {
                    seq![]
                }) + mantissa_text(h) + s;
            let rows = seq![
                seq!['f'],
                seq!['p'],
                seq!['n'],
                seq!['u'],
                seq!['m'],
                Seq::<char>::empty(),
                seq!['k'],
                seq!['M', 'e', 'g'],
                seq!['G'],
                seq!['T'],
            ];
            &&& si_text(negative, row, hundredths) == Some(text(rows[row], hundredths))
            &&& row < 9 ==> si_text(negative, row, 100_000) == Some(text(rows[row + 1], 100))
            &&& row == 9 ==> si_text(negative, row, 100_000) is None
        }),
{
}

} // verus!
