//! Free-text amounts and the integer quantities read from them.
use vstd::prelude::*;
use vstd::string::StrSliceExecFns;
use vstd::string::StringExecFns;

verus! {

/// Largest quantity that an amount can denote.
pub const MAX_QUANTITY: u32 = 4294967295;

pub open spec fn is_digit(c: char) -> bool {
    '0' <= c && c <= '9'
}

pub open spec fn digit_value(c: char) -> int {
    c as int - '0' as int
}

pub open spec fn digit_char(d: int) -> char
    recommends
        0 <= d < 10,
{
    ((d + '0' as int) as u32) as char
}

pub open spec fn all_digits(s: Seq<char>) -> bool {
    forall|i: int| 0 <= i < s.len() ==> #[trigger] is_digit(s[i])
}

/// The number that a string of decimal digits denotes.
pub open spec fn digits_value(s: Seq<char>) -> int
    decreases s.len(),
{
    if s.len() == 0 {
        0
    } else {
        digits_value(s.drop_last()) * 10 + digit_value(s.last())
    }
}

/// The quantity that a free-text amount stands for: the number written by a
/// non-empty run of decimal digits that fits the quantity range, else zero.
pub open spec fn quantity_of(s: Seq<char>) -> int {
    if 0 < s.len() && all_digits(s) && digits_value(s) <= MAX_QUANTITY {
        digits_value(s)
    } else {
        0
    }
}

/// The decimal rendering of a natural number, without leading zeros.
pub open spec fn decimal_of(n: nat) -> Seq<char>
    decreases n,
{
    if n < 10 {
        seq![digit_char(n as int)]
    } else {
        decimal_of(n / 10).push(digit_char((n % 10) as int))
    }
}

proof fn lemma_digits_value_nonneg(s: Seq<char>)
    requires
        all_digits(s),
    ensures
        0 <= digits_value(s),
    decreases s.len(),
{
    if s.len() > 0 {
        assert(is_digit(s[s.len() - 1]));
        lemma_digits_value_nonneg(s.drop_last());
    }
}

/// A quantity lies between zero and the largest quantity.
pub proof fn lemma_quantity_range(s: Seq<char>)
    ensures
        0 <= quantity_of(s) <= MAX_QUANTITY,
{
    if 0 < s.len() && all_digits(s) {
        lemma_digits_value_nonneg(s);
    }
}

/// A prefix of a digit string denotes no more than the whole string.
proof fn lemma_prefix_value_le(s: Seq<char>, i: int)
    requires
        all_digits(s),
        0 <= i <= s.len(),
    ensures
        digits_value(s.subrange(0, i)) <= digits_value(s),
    decreases s.len(),
{
    if i < s.len() {
        let d = s.drop_last();
        assert(is_digit(s[s.len() - 1]));
        assert(all_digits(d));
        lemma_prefix_value_le(d, i);
        assert(d.subrange(0, i) =~= s.subrange(0, i));
        lemma_digits_value_nonneg(d);
    } else {
        assert(s.subrange(0, i) =~= s);
    }
}

proof fn lemma_digit_char(d: int)
    requires
        0 <= d < 10,
    ensures
        is_digit(digit_char(d)),
        digit_value(digit_char(d)) == d,
{
    let c = digit_char(d);
    assert((c as u32) == (d + 48) as u32);
}

/// Rendering a number in decimal and reading it back gives the number.
pub proof fn lemma_decimal_round_trip(n: nat)
    ensures
        0 < decimal_of(n).len(),
        all_digits(decimal_of(n)),
        digits_value(decimal_of(n)) == n,
    decreases n,
{
    if n >= 10 {
        lemma_decimal_round_trip(n / 10);
        lemma_digit_char((n % 10) as int);
        let s = decimal_of(n);
        assert(s.drop_last() =~= decimal_of(n / 10));
        assert(s.last() == digit_char((n % 10) as int));
        assert(digits_value(s) == digits_value(decimal_of(n / 10)) * 10 + (n % 10) as int);
        assert((n / 10) * 10 + n % 10 == n);
        assert forall|i: int| 0 <= i < s.len() implies #[trigger] is_digit(s[i]) by {
            if i < s.len() - 1 {
                assert(s[i] == decimal_of(n / 10)[i]);
            }
        }
    } else {
        lemma_digit_char(n as int);
        let s = decimal_of(n);
        assert(s.drop_last() =~= Seq::<char>::empty());
        assert(digits_value(Seq::<char>::empty()) == 0);
        assert(s.last() == digit_char(n as int));
        assert(digits_value(s) == digit_value(s.last()));
    }
}

/// A quantity written in decimal reads back as itself.
pub proof fn lemma_quantity_of_decimal(n: nat)
    requires
        n <= MAX_QUANTITY,
    ensures
        quantity_of(decimal_of(n)) == n,
{
    lemma_decimal_round_trip(n);
}

/// Reads the quantity that a free-text amount stands for; an amount that is
/// not a plain decimal number in range counts as zero.
pub fn parse_quantity(text: &str) -> (r: u32)
    ensures
        r == quantity_of(text@),
{
    let n = text.unicode_len();
    let mut value: u64 = 0;
    let mut i: usize = 0;
    while i < n
        invariant
            n == text@.len(),
            0 <= i <= n,
            all_digits(text@.subrange(0, i as int)),
            value == digits_value(text@.subrange(0, i as int)),
            value <= MAX_QUANTITY,
        decreases n - i,
    {
        let c = text.get_char(i);
        let ghost pre = text@.subrange(0, i as int);
        let ghost next = text@.subrange(0, i + 1);
        proof {
            assert(next.drop_last() =~= pre);
            assert(next.last() == c);
        }
        if !('0' <= c && c <= '9') {
            proof {
                assert(!is_digit(text@[i as int]));
            }
            return 0;
        }
        let d = (c as u32 - '0' as u32) as u64;
        value = value * 10 + d;
        proof {
            assert forall|k: int| 0 <= k < next.len() implies #[trigger] is_digit(next[k]) by {
                if k < i {
                    assert(next[k] == pre[k]);
                }
            }
        }
        if value > MAX_QUANTITY as u64 {
            proof {
                if all_digits(text@) {
                    lemma_prefix_value_le(text@, i + 1);
                }
            }
            return 0;
        }
        i = i + 1;
    }
    proof {
        assert(text@.subrange(0, n as int) =~= text@);
    }
    if n == 0 {
        0
    } else {
        value as u32
    }
}

fn digit_text(d: u32) -> (r: &'static str)
    requires
        d < 10,
    ensures
        r@ == seq![digit_char(d as int)],
{
    proof {
        reveal_strlit("0");
        reveal_strlit("1");
        reveal_strlit("2");
        reveal_strlit("3");
        reveal_strlit("4");
        reveal_strlit("5");
        reveal_strlit("6");
        reveal_strlit("7");
        reveal_strlit("8");
        reveal_strlit("9");
    }
    let r = match d {
        0 => "0",
        1 => "1",
        2 => "2",
        3 => "3",
        4 => "4",
        5 => "5",
        6 => "6",
        7 => "7",
        8 => "8",
        _ => "9",
    };
    assert(r@ =~= seq![digit_char(d as int)]);
    r
}

/// Writes a quantity as an amount: its decimal digits, without leading zeros.
pub fn render_quantity(n: u32) -> (r: String)
    ensures
        r@ == decimal_of(n as nat),
{
    let mut m: u32 = n;
    let mut acc = String::new();
    loop
        invariant
            decimal_of(n as nat) == decimal_of(m as nat) + acc@,
        decreases m,
    {
        let d = digit_text(m % 10);
        acc = <String as StringExecFns>::from_str(d).concat(acc.as_str());
        if m < 10 {
            proof {
                assert(decimal_of(m as nat) =~= seq![digit_char(m as int)]);
            }
            return acc;
        }
        proof {
            assert(decimal_of(m as nat) == decimal_of((m / 10) as nat).push(digit_char((m % 10) as int)));
            assert(decimal_of(n as nat) =~= decimal_of((m / 10) as nat) + acc@);
        }
        m = m / 10;
    }
}

} // verus!
