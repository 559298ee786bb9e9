//! The outcomes of attacks, as shown in the combat log.

use crate::nouns::{fits_in_text, nouns_replaced, without_matches, Nouns, StrExt};
use vstd::prelude::*;
use vstd::string::*;

verus! {

/// The outcome of an attack.
#[derive(Clone, Copy, Debug, PartialEq, Eq, Structural)]
pub enum Log {
    /// An attack that dealt damage
    Hit { damage: u32 },
    /// An attack that succeeded
    Success,
    /// An attack that failed to do damage.
    Miss,
    /// An attack that dealt too little damage to pierce.
    Glance,
}

/// The decimal digits of `n`, most significant first.
pub open spec fn decimal(n: nat) -> Seq<char>
    decreases n,
{
    if n < 10 {
        seq![digit_char(n)]
    } else {
        decimal(n / 10).push(digit_char(n % 10))
    }
}

/// The character of a decimal digit.
pub open spec fn digit_char(d: nat) -> char {
    if d == 0 {
        '0'
    } else if d == 1 {
        '1'
    } else if d == 2 {
        '2'
    } else if d == 3 {
        '3'
    } else if d == 4 {
        '4'
    } else if d == 5 {
        '5'
    } else if d == 6 {
        '6'
    } else if d == 7 {
        '7'
    } else if d == 8 {
        '8'
    } else {
        '9'
    }
}

/// How an outcome reads in the combat log.
pub open spec fn log_text(log: Log) -> Seq<char> {
    match log {
        Log::Hit { damage } => seq!['-'] + decimal(damage as nat) + seq![' ', 'H', 'P'],
        Log::Success => seq!['S', 'u', 'c', 'c', 'e', 's', 's'],
        Log::Miss => seq!['M', 'i', 's', 's'],
        Log::Glance => seq!['G', 'l', 'a', 'n', 'c', 'i', 'n', 'g', ' ', 'B', 'l', 'o', 'w'],
    }
}

/// The number that a string of decimal digits, most significant first, reads as: each
/// character counts for its code less that of `'0'`.
pub open spec fn read_decimal(s: Seq<char>) -> int
    decreases s.len(),
{
    if s.len() == 0 {
        0
    } else {
        read_decimal(s.drop_last()) * 10 + (s.last() as int - '0' as int)
    }
}

proof fn lemma_digit_char_code(d: nat)
    requires
        d < 10,
    ensures
        digit_char(d) as int == '0' as int + d,
{
}

/// The digits written for `n` are decimal digits, and they read back as `n`.
pub proof fn lemma_decimal_reads_back(n: nat)
    ensures
        read_decimal(decimal(n)) == n,
        forall|i: int| 0 <= i < decimal(n).len() ==> '0' <= #[trigger] decimal(n)[i] <= '9',
    decreases n,
{
    if n < 10 {
        lemma_digit_char_code(n);
        let s = decimal(n);
        assert(s == seq![digit_char(n)]);
        assert(s.drop_last() =~= Seq::<char>::empty());
        assert(read_decimal(s.drop_last()) == 0);
        assert(s.last() == digit_char(n));
        assert(read_decimal(s) == read_decimal(s.drop_last()) * 10 + (s.last() as int - '0' as int));
    } else {
        lemma_decimal_reads_back(n / 10);
        lemma_digit_char_code(n % 10);
        let s = decimal(n / 10).push(digit_char(n % 10));
        assert(decimal(n) == s);
        assert(s.drop_last() =~= decimal(n / 10));
        assert(s.last() == digit_char(n % 10));
        assert(read_decimal(s) == read_decimal(s.drop_last()) * 10 + (s.last() as int - '0' as int));
        assert(n == (n / 10) * 10 + n % 10) by (nonlinear_arith);
        assert forall|i: int| 0 <= i < s.len() implies '0' <= #[trigger] s[i] <= '9' by {
            if i < s.len() - 1 {
                assert(s[i] == decimal(n / 10)[i]);
            }
        }
    }
}

/// The text of a hit is `-`, the damage in decimal digits, and ` HP`: the digits between the
/// two read back as the damage.
pub proof fn lemma_hit_text_reads_back(damage: u32)
    ensures
        ({
            let t = log_text(Log::Hit { damage });
            &&& t.len() >= 5
            &&& t[0] == '-'
            &&& t.subrange(t.len() - 3, t.len() as int) == seq![' ', 'H', 'P']
            &&& read_decimal(t.subrange(1, t.len() - 3)) == damage
        }),
{
    let d = decimal(damage as nat);
    lemma_decimal_reads_back(damage as nat);
    let t = log_text(Log::Hit { damage });
    assert(d.len() >= 1);
    assert(t.subrange(1, t.len() - 3) =~= d);
    assert(t.subrange(t.len() - 3, t.len() as int) =~= seq![' ', 'H', 'P']);
}

fn digit_str(d: u32) -> (res: &'static str)
    requires
        d < 10,
    ensures
        res@ == seq![digit_char(d as nat)],
{
    proof {
        reveal_strlit("0");
        reveal_strlit("1");
        reveal_strlit("2");
        reveal_strlit("3");
        reveal_strlit("4");
        reveal_strlit("5");
        reveal_strlit("6");
        reveal_strlit("7");
        reveal_strlit("8");
        reveal_strlit("9");
    }
    if d == 0 {
        "0"
    } else if d == 1 {
        "1"
    } else if d == 2 {
        "2"
    } else if d == 3 {
        "3"
    } else if d == 4 {
        "4"
    } else if d == 5 {
        "5"
    } else if d == 6 {
        "6"
    } else if d == 7 {
        "7"
    } else if d == 8 {
        "8"
    } else {
        "9"
    }
}

/// Appends the decimal digits of `n` to `s`.
pub fn push_decimal(s: &mut String, n: u32)
    ensures
        final(s)@ == old(s)@ + decimal(n as nat),
    decreases n,
{
    if n < 10 {
        s.append(digit_str(n));
    } else {
        push_decimal(s, n / 10);
        s.append(digit_str(n % 10));
    }
}

impl Log {
    /// Whether the attack was weak: it missed, or merely glanced off.
    pub fn is_weak(&self) -> (res: bool)
        ensures
            res == (*self == Log::Miss || *self == Log::Glance),
    {
        match self {
            Log::Hit { .. } | Log::Success => false,
            Log::Miss | Log::Glance => true,
        }
    }

    /// How the outcome reads in the combat log, such as `-5 HP`.
    pub fn to_text(&self) -> (res: String)
        ensures
            res@ == log_text(*self),
    {
        proof {
            reveal_strlit("-");
            reveal_strlit(" HP");
            reveal_strlit("Success");
            reveal_strlit("Miss");
            reveal_strlit("Glancing Blow");
        }
        match self {
            Log::Hit { damage } => {
                let mut s = String::from_str("-");
                push_decimal(&mut s, *damage);
                s.append(" HP");
                s
            },
            Log::Success => String::from_str("Success"),
            Log::Miss => String::from_str("Miss"),
            Log::Glance => String::from_str("Glancing Blow"),
        }
    }
}

/// An attack of `magnitude` against `pierce`: a magnitude that pierces is absorbed entirely,
/// anything else goes through as it is. Hands back what goes through, and whether it pierced.
pub fn apply_pierce(pierce: i32, magnitude: i32) -> (res: (i32, bool))
    ensures
        res == (if 0 < magnitude <= pierce { (0i32, true) } else { (magnitude, false) }),
{
    if magnitude > 0 && magnitude <= pierce {
        (0, true)
    } else {
        (magnitude, false)
    }
}

/// A combat message: the tags prefixed with `target_` name the target, then those prefixed with
/// `self_` name the user.
pub fn format_combat(user: &Nouns, target: &Nouns, s: &str) -> (res: Option<String>)
    requires
        fits_in_text(*user),
        fits_in_text(*target),
    ensures
        exists|first: Option<String>|
            nouns_replaced(without_matches(s@, "target_"@), *target, first) && match first {
                Some(t) => nouns_replaced(without_matches(t@, "self_"@), *user, res),
                None => res is None,
            },
{
    let first = s.replace_prefixed_nouns(target, "target_");
    match first {
        Some(t) => t.replace_prefixed_nouns(user, "self_"),
        None => None,
    }
}

} // verus!
