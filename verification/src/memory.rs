//! How much of its memory the diary hands to the oracle.
use crate::text::chars_of;
use vstd::prelude::*;

verus! {

/// Turns of dialogue handed over when nothing else is set.
pub const USUAL_TURNS: usize = 6;

/// Remembered pages listed for the oracle to choose from.
pub const CATALOG: usize = 40;

/// Is `c` a decimal digit?
pub open spec fn is_digit(c: char) -> bool {
    0x30 <= c as u32 <= 0x39
}

/// The number that a run of digits stands for.
pub open spec fn decimal(s: Seq<char>) -> int
    decreases s.len(),
{
    if s.len() == 0 {
        0
    } else {
        decimal(s.drop_last()) * 10 + (s.last() as u32 - 0x30)
    }
}

/// `s` without a plus sign in front.
pub open spec fn unsigned(s: Seq<char>) -> Seq<char> {
    if s.len() > 0 && s[0] == '+' {
        s.skip(1)
    } else {
        s
    }
}

/// The number that a text stands for: digits only, at least one, after an optional plus sign,
/// and no more than fits.
pub open spec fn number(s: Seq<char>) -> Option<usize> {
    let digits = unsigned(s);
    if digits.len() > 0 && (forall|i: int| 0 <= i < digits.len() ==> is_digit(#[trigger] digits[i]))
        && decimal(digits) <= usize::MAX {
        Some(decimal(digits) as usize)
    } else {
        None
    }
}

/// More digits never make a number smaller.
proof fn lemma_decimal_grows(s: Seq<char>, n: int)
    requires
        0 <= n <= s.len(),
        forall|i: int| 0 <= i < s.len() ==> is_digit(#[trigger] s[i]),
    ensures
        0 <= decimal(s.take(n)) <= decimal(s),
    decreases s.len(),
{
    if n == s.len() {
        assert(s.take(n) =~= s);
        if s.len() > 0 {
            assert forall|i: int| 0 <= i < s.drop_last().len() implies is_digit(
                #[trigger] s.drop_last()[i],
            ) by {
                assert(is_digit(s[i]));
            }
            lemma_decimal_grows(s.drop_last(), n - 1);
            assert(s.drop_last().take(n - 1) =~= s.drop_last());
            assert(is_digit(s[n - 1]));
        }
    } else {
        assert forall|i: int| 0 <= i < s.drop_last().len() implies is_digit(
            #[trigger] s.drop_last()[i],
        ) by {
            assert(is_digit(s[i]));
        }
        lemma_decimal_grows(s.drop_last(), n);
        assert(s.drop_last().take(n) =~= s.take(n));
        assert(is_digit(s[s.len() - 1]));
    }
}

/// Read a number.
pub fn parse_number(s: &str) -> (n: Option<usize>)
    ensures
        n == number(s@),
{
    let cs = chars_of(s);
    let start: usize = if cs.len() > 0 && cs[0] == '+' {
        1
    } else {
        0
    };
    let ghost digits = unsigned(s@);
    assert(digits =~= cs@.subrange(start as int, cs@.len() as int));
    if start == cs.len() {
        return None;
    }
    let mut n: usize = 0;
    let mut i: usize = start;
    assert(digits.take(0) =~= Seq::empty());
    while i < cs.len()
        invariant
            start <= i <= cs@.len(),
            start < cs@.len(),
            cs@ == s@,
            digits == unsigned(s@),
            digits == cs@.subrange(start as int, cs@.len() as int),
            forall|k: int| 0 <= k < i - start ==> is_digit(#[trigger] digits[k]),
            n == decimal(digits.take(i - start)),
        decreases cs@.len() - i,
    {
        let c: u32 = cs[i] as u32;
        let ghost k = i - start;
        assert(digits[k] == cs@[i as int]);
        if c < 0x30 || c > 0x39 {
            assert(!is_digit(digits[k]));
            return None;
        }
        let d: usize = (c - 0x30) as usize;
        assert(digits.take(k + 1).drop_last() =~= digits.take(k));
        assert(decimal(digits.take(k + 1)) == n * 10 + d);
        let tenfold: u128 = n as u128 * 10 + d as u128;
        if tenfold > usize::MAX as u128 {
            proof {
                if forall|j: int| 0 <= j < digits.len() ==> is_digit(#[trigger] digits[j]) {
                    lemma_decimal_grows(digits, k + 1);
                }
            }
            return None;
        }
        n = tenfold as usize;
        i += 1;
    }
    assert(digits.take(digits.len() as int) =~= digits);
    Some(n)
}

/// How many turns of dialogue are handed to the oracle, given what is set for it: the usual
/// number where nothing is, or nothing that is a number.
pub open spec fn turns_for(setting: Option<&str>) -> usize {
    match setting {
        Some(s) => match number(s@) {
            Some(n) => n,
            None => USUAL_TURNS,
        },
        None => USUAL_TURNS,
    }
}

/// How many turns of dialogue are handed to the oracle, given what is set for it.
fn memory_turns(setting: Option<&str>) -> (n: usize)
    ensures
        n == turns_for(setting),
{
    match setting {
        Some(s) => match parse_number(s) {
            Some(n) => n,
            None => USUAL_TURNS,
        },
        None => USUAL_TURNS,
    }
}

/// What goes to the oracle alongside a page.
#[derive(Clone, Copy, Debug, PartialEq, Eq, Structural)]
pub struct Context {
    /// So many turns of recent dialogue.
    pub turns: usize,
    /// So many remembered pages to choose from.
    pub pages: usize,
}

/// What goes to the oracle alongside a page: nothing from a diary that does not remember.
pub fn build_ctx(remembers: bool, setting: Option<&str>) -> (ctx: Option<Context>)
    ensures
        ctx == if remembers {
            Some(Context { turns: turns_for(setting), pages: CATALOG })
        } else {
            None
        },
{
    if remembers {
        Some(Context { turns: memory_turns(setting), pages: CATALOG })
    } else {
        None
    }
}

/// The digit that stands for `d`.
pub open spec fn digit(d: nat) -> char {
    seq!['0', '1', '2', '3', '4', '5', '6', '7', '8', '9'][d as int]
}

/// `n` written down in digits.
pub open spec fn written_number(n: nat) -> Seq<char>
    decreases n,
{
    if n < 10 {
        seq![digit(n)]
    } else {
        written_number(n / 10).push(digit(n % 10))
    }
}

proof fn lemma_written_number(n: nat)
    ensures
        decimal(written_number(n)) == n,
        written_number(n).len() > 0,
        forall|i: int| 0 <= i < written_number(n).len() ==> is_digit(#[trigger] written_number(n)[i]),
        written_number(n)[0] != '+',
    decreases n,
{
    let s = written_number(n);
    if n < 10 {
        assert(s.drop_last() =~= Seq::empty());
        assert(decimal(s.drop_last()) == 0);
    } else {
        lemma_written_number(n / 10);
        assert(s.drop_last() =~= written_number(n / 10));
        assert(s[0] == written_number(n / 10)[0]);
        assert forall|i: int| 0 <= i < s.len() implies is_digit(#[trigger] s[i]) by {
            if i < s.len() - 1 {
                assert(s[i] == written_number(n / 10)[i]);
            }
        }
    }
}

/// A number is read as it was written, with or without a plus sign; one that is too great for
/// the machine is not read at all.
pub proof fn numbers_are_read_as_written(s: &str, n: nat, read: Option<usize>)
    requires
        call_ensures(parse_number, (s,), read),
        s@ == written_number(n) || s@ == seq!['+'] + written_number(n),
    ensures
        n <= usize::MAX ==> read == Some(n as usize),
        n > usize::MAX ==> read is None,
{
    lemma_written_number(n);
    let w = written_number(n);
    assert((seq!['+'] + w).skip(1) =~= w);
}

/// May the character stand at place `i` of a number?
pub open spec fn may_stand(s: Seq<char>, i: int) -> bool {
    0x30 <= s[i] as u32 <= 0x39 || (i == 0 && s[i] == '+')
}

/// What holds no digit, or anything besides digits and a plus sign in front, is no number.
pub proof fn only_digits_make_a_number(s: &str, read: Option<usize>)
    requires
        call_ensures(parse_number, (s,), read),
    ensures
        (exists|i: int| 0 <= i < s@.len() && !#[trigger] may_stand(s@, i)) ==> read is None,
        s@.len() == 0 ==> read is None,
        s@.len() == 1 && s@[0] == '+' ==> read is None,
{
    if exists|i: int| 0 <= i < s@.len() && !#[trigger] may_stand(s@, i) {
        let i = choose|i: int| 0 <= i < s@.len() && !#[trigger] may_stand(s@, i);
        let digits = unsigned(s@);
        let k = if s@[0] == '+' {
            i - 1
        } else {
            i
        };
        assert(digits[k] == s@[i]);
        assert(!is_digit(digits[k]));
    }
}

/// A diary that remembers hands over as many turns as are set, and six where none or nothing
/// readable is, next to forty pages; one that does not remember hands over nothing.
pub proof fn memory_is_handed_over_as_set(
    remembers: bool,
    setting: Option<&str>,
    ctx: Option<Context>,
    n: nat,
)
    requires
        call_ensures(build_ctx, (remembers, setting), ctx),
        n <= usize::MAX,
    ensures
        ctx is Some <==> remembers,
        ctx matches Some(c) ==> {
            &&& c.pages == 40
            &&& setting is None ==> c.turns == 6
            &&& (setting is Some && setting->0@ == written_number(n)) ==> c.turns == n
            &&& (setting is Some && exists|i: int|
                0 <= i < setting->0@.len() && !#[trigger] may_stand(setting->0@, i)) ==> c.turns == 6
        },
{
    if let Some(s) = setting {
        lemma_written_number(n);
        if exists|i: int| 0 <= i < s@.len() && !#[trigger] may_stand(s@, i) {
            let i = choose|i: int| 0 <= i < s@.len() && !#[trigger] may_stand(s@, i);
            let digits = unsigned(s@);
            let k = if s@[0] == '+' {
                i - 1
            } else {
                i
            };
            assert(digits[k] == s@[i]);
            assert(!is_digit(digits[k]));
        }
    }
}

} // verus!
