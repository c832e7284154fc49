//! Configuration values: a raw string value identified by the section it
//! belongs to and its key, validated and parsed into numbers. The top-level
//! configuration of the game lives here as well; reading configuration
//! files is the surrounding program's business, the library only validates
//! and converts what it is handed.

use vstd::prelude::*;

use crate::tank::TankCfgs;

verus! {

/// Marker for a configuration section that validated values belong to.
pub trait Config {

}

/// All game configuration: the tank kinds.
pub struct GameCfgs {
    pub tanks: TankCfgs,
}

impl Config for crate::tank::TankCfg {

}

impl Config for crate::map::MapCfg {

}

/// Whether `c` is a decimal digit.
pub open spec fn is_digit(c: char) -> bool {
    48 <= c as int <= 57
}

/// The numeric value of a digit.
pub open spec fn digit_val(c: char) -> int {
    c as int - 48
}

/// Whether `s` is a non-empty string of decimal digits.
pub open spec fn is_dec(s: Seq<char>) -> bool {
    s.len() > 0 && forall|i: int| 0 <= i < s.len() ==> is_digit(#[trigger] s[i])
}

/// The number denoted by a string of decimal digits.
pub open spec fn dec_val(s: Seq<char>) -> int
    decreases s.len(),
{
    if s.len() == 0 {
        0
    } else {
        dec_val(s.drop_last()) * 10 + digit_val(s.last())
    }
}

/// A string of digits denotes a non-negative number.
pub proof fn lemma_dec_val_nonneg(s: Seq<char>)
    requires
        forall|i: int| 0 <= i < s.len() ==> is_digit(#[trigger] s[i]),
    ensures
        dec_val(s) >= 0,
    decreases s.len(),
{
    if s.len() > 0 {
        lemma_dec_val_nonneg(s.drop_last());
    }
}

/// Digits only grow a number: every prefix denotes at most the whole.
pub proof fn lemma_dec_prefix_le(s: Seq<char>, i: int)
    requires
        0 <= i <= s.len(),
        forall|j: int| 0 <= j < s.len() ==> is_digit(#[trigger] s[j]),
    ensures
        dec_val(s.take(i)) <= dec_val(s),
    decreases s.len() - i,
{
    if i < s.len() {
        assert(s.take(i + 1).drop_last() =~= s.take(i));
        assert(s.take(i + 1).last() == s[i]);
        assert forall|j: int| 0 <= j < s.take(i).len() implies is_digit(
            #[trigger] s.take(i)[j],
        ) by {}
        lemma_dec_val_nonneg(s.take(i));
        assert(dec_val(s.take(i + 1)) == dec_val(s.take(i)) * 10 + digit_val(s[i]));
        assert(dec_val(s.take(i)) * 10 >= dec_val(s.take(i))) by (nonlinear_arith)
            requires
                dec_val(s.take(i)) >= 0,
        ;
        lemma_dec_prefix_le(s, i + 1);
    } else {
        assert(s.take(i) =~= s);
    }
}

/// Parses a non-empty string of decimal digits into a number, exactly when
/// it is one and fits.
pub fn parse_u32(s: &str) -> (r: Option<u32>)
    ensures
        r is Some <==> (is_dec(s@) && dec_val(s@) <= u32::MAX),
        r is Some ==> r->0 == dec_val(s@),
{
    let n: usize = s.unicode_len();
    if n == 0 {
        return None;
    }
    let mut i: usize = 0;
    let mut acc: u64 = 0;
    while i < n
        invariant
            0 <= i <= n,
            n == s@.len(),
            forall|j: int| 0 <= j < i ==> is_digit(#[trigger] s@[j]),
            acc == dec_val(s@.take(i as int)),
            acc <= u32::MAX,
        decreases n - i,
    {
        let c: char = s.get_char(i);
        let cu: u32 = c as u32;
        if cu < 48 || cu > 57 {
            proof {
                assert(!is_digit(s@[i as int]));
            }
            return None;
        }
        let d: u64 = (cu - 48) as u64;
        let acc2: u64 = acc * 10 + d;
        proof {
            assert(s@.take(i as int + 1).drop_last() =~= s@.take(i as int));
            assert(s@.take(i as int + 1).last() == s@[i as int]);
            assert(acc2 == dec_val(s@.take(i as int + 1)));
        }
        if acc2 > 0xFFFF_FFFF {
            proof {
                if is_dec(s@) {
                    lemma_dec_prefix_le(s@, i as int + 1);
                }
            }
            return None;
        }
        acc = acc2;
        i += 1;
    }
    proof {
        assert(s@.take(n as int) =~= s@);
    }
    Some(acc as u32)
}

/// A raw configuration value: the section it belongs to, its key, and the
/// string found there.
pub struct Str<'a, C: Config> {
    cfg: &'a C,
    key: &'a str,
    val: &'a str,
}

impl<'a, C: Config> Str<'a, C> {
    /// The key the value was found under.
    pub closed spec fn spec_key(self) -> Seq<char> {
        self.key@
    }

    /// The raw string value.
    pub closed spec fn spec_val(self) -> Seq<char> {
        self.val@
    }

    /// Wraps the raw value `val` found under `key` in section `cfg`.
    pub fn new(cfg: &'a C, key: &'a str, val: &'a str) -> (s: Str<'a, C>)
        ensures
            s.spec_key() == key@,
            s.spec_val() == val@,
    {
        Str { cfg, key, val }
    }

    /// Passes the value through, insisting that it is non-empty.
    pub fn not_empty(self) -> (s: Self)
        requires
            self.spec_val().len() > 0,
        ensures
            s == self,
    {
        self
    }

    /// Hands the value over for numeric conversion.
    pub fn to(self) -> (v: Val<'a, C>)
        ensures
            v.spec_val() == self.spec_val(),
    {
        Val { s: self }
    }

    /// The raw string value.
    pub fn get(&self) -> (r: &'a str)
        ensures
            r@ == self.spec_val(),
    {
        self.val
    }
}

/// A configuration value on its way to becoming a number.
pub struct Val<'a, C: Config> {
    s: Str<'a, C>,
}

impl<'a, C: Config> Val<'a, C> {
    /// The raw string value.
    pub closed spec fn spec_val(self) -> Seq<char> {
        self.s.spec_val()
    }

    /// The number the value denotes: present exactly when the value is a
    /// non-empty string of decimal digits denoting a number that fits.
    pub fn get(&self) -> (r: Option<u32>)
        ensures
            r is Some <==> (is_dec(self.spec_val()) && dec_val(self.spec_val()) <= u32::MAX),
            r is Some ==> r->0 == dec_val(self.spec_val()),
    {
        parse_u32(self.s.val)
    }
}

} // verus!
