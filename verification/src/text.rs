//! Text as sequences of characters: reading a string's characters, appending
//! to a string, and decimal numerals.

use vstd::prelude::*;
use vstd::string::*;

verus! {

/// Appends one character to a string.
///
/// Trusted: the body is a call of `String::push`, which the standard library
/// documents as appending the given `char` to the end of the string. The
/// contract says exactly that of the string's characters.
#[verifier::external_body]
pub(crate) fn push_char(s: &mut String, c: char)
    ensures
        final(s)@ == old(s)@.push(c),
{
    s.push(c)
}

/// The characters of a string, in order.
pub fn chars_of(s: &str) -> (chars: Vec<char>)
    ensures
        chars@ == s@,
{
    let mut chars: Vec<char> = Vec::new();
    for c in it: s.chars()
        invariant
            it.seq() == s@,
            chars@ == it.seq().take(it.index() as int),
    {
        chars.push(c);
    }
    chars
}

/// The character that writes the decimal digit `d`.
pub open spec fn digit_char(d: nat) -> char
    recommends
        d < 10,
{
    (48 + d) as char
}

/// The value of a decimal digit character.
pub open spec fn digit_value(c: char) -> nat
    recommends
        is_digit_char(c),
{
    (c as nat - 48) as nat
}

/// Whether `c` is one of the ten decimal digits.
pub open spec fn is_digit_char(c: char) -> bool {
    '0' <= c <= '9'
}

/// The decimal numeral of `n`, without leading zeros.
pub open spec fn decimal(n: nat) -> Seq<char>
    decreases n,
{
    if n < 10 {
        seq![digit_char(n)]
    } else {
        decimal(n / 10).push(digit_char(n % 10))
    }
}

/// The number that a sequence of decimal digits writes; leading zeros count
/// for nothing.
pub open spec fn decimal_value(digits: Seq<char>) -> nat
    decreases digits.len(),
{
    if digits.len() == 0 {
        0
    } else {
        decimal_value(digits.drop_last()) * 10 + digit_value(digits.last())
    }
}

/// Reading a numeral back gives the number it was written from.
pub proof fn lemma_decimal_value_of_decimal(n: nat)
    ensures
        decimal_value(decimal(n)) == n,
        decimal(n).len() > 0,
        forall|i: int| 0 <= i < decimal(n).len() ==> is_digit_char(#[trigger] decimal(n)[i]),
    decreases n,
{
    if n < 10 {
        assert(decimal(n).drop_last() =~= Seq::<char>::empty());
        assert(decimal_value(decimal(n).drop_last()) == 0);
    } else {
        lemma_decimal_value_of_decimal(n / 10);
        assert(decimal(n).drop_last() =~= decimal(n / 10));
    }
}

/// Two numbers with the same decimal numeral are the same number.
pub proof fn lemma_decimal_injective(a: nat, b: nat)
    requires
        decimal(a) == decimal(b),
    ensures
        a == b,
{
    lemma_decimal_value_of_decimal(a);
    lemma_decimal_value_of_decimal(b);
}

/// The character of one decimal digit.
fn digit(d: u8) -> (c: char)
    requires
        d < 10,
    ensures
        c == digit_char(d as nat),
{
    (d + 48) as char
}

/// Appends the decimal numeral of `n` to `out`.
pub fn push_decimal(out: &mut String, n: u64)
    ensures
        final(out)@ == old(out)@ + decimal(n as nat),
    decreases n,
{
    if n >= 10 {
        push_decimal(out, n / 10);
    }
    push_char(out, digit((n % 10) as u8));
    assert(out@ =~= old(out)@ + decimal(n as nat));
}

/// The decimal digit after the digit `c`.
pub open spec fn next_digit(c: char) -> char
    recommends
        '0' <= c < '9',
{
    (c as u32 + 1) as char
}

/// The numeral of the number after the one that `digits` writes: the nines
/// at its end become zeros, and the digit before them goes up by one, or a
/// one is put in front.
pub open spec fn successor(digits: Seq<char>) -> Seq<char>
    decreases digits.len(),
{
    if digits.len() == 0 {
        seq!['1']
    } else if digits.last() == '9' {
        successor(digits.drop_last()).push('0')
    } else {
        digits.drop_last().push(next_digit(digits.last()))
    }
}

/// The successor of the numeral of a number is the numeral of the next
/// number.
pub proof fn lemma_successor(n: nat)
    ensures
        successor(decimal(n)) == decimal(n + 1),
    decreases n,
{
    if n < 10 {
        assert(decimal(n).drop_last() =~= Seq::<char>::empty());
        if n == 9 {
            assert(successor(Seq::<char>::empty()) =~= decimal(1));
        }
    } else {
        assert(decimal(n).drop_last() =~= decimal(n / 10));
        if n % 10 == 9 {
            lemma_successor(n / 10);
        }
    }
    assert(successor(decimal(n)) =~= decimal(n + 1));
}

/// Where the digits from position `i` on are nines, the successor turns
/// them into zeros behind the successor of what stands before them.
proof fn lemma_successor_of_nines(digits: Seq<char>, i: int)
    requires
        0 <= i <= digits.len(),
        forall|k: int| i <= k < digits.len() ==> digits[k] == '9',
    ensures
        successor(digits) == successor(digits.take(i)) + Seq::new(
            (digits.len() - i) as nat,
            |k: int| '0',
        ),
    decreases digits.len() - i,
{
    if i < digits.len() {
        assert(digits.drop_last().take(i) =~= digits.take(i));
        lemma_successor_of_nines(digits.drop_last(), i);
    } else {
        assert(digits.take(i) =~= digits);
    }
    assert(successor(digits) =~= successor(digits.take(i)) + Seq::new(
        (digits.len() - i) as nat,
        |k: int| '0',
    ));
}

/// The successor of a numeral.
fn successor_of(numeral: &Vec<char>) -> (digits: Vec<char>)
    requires
        forall|i: int| 0 <= i < numeral@.len() ==> is_digit_char(numeral@[i]),
    ensures
        digits@ == successor(numeral@),
{
    let mut digits: Vec<char> = Vec::new();
    let mut n: usize = 0;
    while n < numeral.len()
        invariant
            n <= numeral.len(),
            digits@ == numeral@.take(n as int),
        decreases numeral.len() - n,
    {
        digits.push(numeral[n]);
        proof {
            assert(numeral@.take(n + 1) =~= numeral@.take(n as int).push(numeral@[n as int]));
        }
        n += 1;
    }
    proof {
        assert(numeral@.take(numeral.len() as int) =~= numeral@);
    }
    let mut i: usize = digits.len();
    while i > 0 && digits[i - 1] == '9'
        invariant
            i <= digits.len(),
            digits@.len() == numeral@.len(),
            forall|k: int| 0 <= k < i ==> digits@[k] == numeral@[k],
            forall|k: int| i <= k < digits@.len() ==> numeral@[k] == '9' && digits@[k] == '0',
        decreases i,
    {
        digits.set(i - 1, '0');
        i -= 1;
    }
    proof {
        lemma_successor_of_nines(numeral@, i as int);
    }
    if i == 0 {
        digits.insert(0, '1');
        proof {
            assert(numeral@.take(0) =~= Seq::<char>::empty());
            assert(digits@ =~= successor(numeral@));
        }
    } else {
        let c: char = digits[i - 1];
        digits.set(i - 1, ((c as u8) + 1) as char);
        proof {
            let head = numeral@.take(i as int);
            assert(head.last() == c);
            assert(successor(head) == head.drop_last().push(next_digit(c)));
            assert(digits@ =~= successor(numeral@));
        }
    }
    digits
}

/// A natural number of any size, kept as its decimal numeral.
pub struct Numeral {
    digits: Vec<char>,
}

impl View for Numeral {
    type V = nat;

    closed spec fn view(&self) -> nat {
        decimal_value(self.digits@)
    }
}

impl Numeral {
    #[verifier::type_invariant]
    closed spec fn well_formed(&self) -> bool {
        self.digits@ == decimal(decimal_value(self.digits@))
    }

    /// The number 0.
    pub fn zero() -> (n: Numeral)
        ensures
            n@ == 0,
    {
        let mut digits: Vec<char> = Vec::new();
        digits.push('0');
        proof {
            assert(digits@ =~= decimal(0));
            lemma_decimal_value_of_decimal(0);
        }
        Numeral { digits }
    }

    /// Goes on to the next number.
    pub fn increment(&mut self)
        ensures
            final(self)@ == old(self)@ + 1,
    {
        proof {
            use_type_invariant(&*self);
            lemma_decimal_value_of_decimal(self@);
            lemma_successor(self@);
            lemma_decimal_value_of_decimal(self@ + 1);
        }
        self.digits = successor_of(&self.digits);
    }

    /// Appends the numeral to `out`.
    pub fn write(&self, out: &mut String)
        ensures
            final(out)@ == old(out)@ + decimal(self@),
    {
        proof {
            use_type_invariant(self);
        }
        let mut i: usize = 0;
        while i < self.digits.len()
            invariant
                i <= self.digits.len(),
                out@ == old(out)@ + self.digits@.take(i as int),
            decreases self.digits.len() - i,
        {
            push_char(out, self.digits[i]);
            proof {
                assert(self.digits@.take(i + 1) =~= self.digits@.take(i as int).push(
                    self.digits@[i as int],
                ));
                assert(out@ =~= old(out)@ + self.digits@.take(i + 1));
            }
            i += 1;
        }
        proof {
            assert(self.digits@.take(self.digits.len() as int) =~= self.digits@);
        }
    }
}

impl Clone for Numeral {
    fn clone(&self) -> (res: Self)
        ensures
            res@ == self@,
    {
        proof {
            use_type_invariant(self);
        }
        let mut digits: Vec<char> = Vec::new();
        let mut i: usize = 0;
        while i < self.digits.len()
            invariant
                i <= self.digits.len(),
                digits@ == self.digits@.take(i as int),
            decreases self.digits.len() - i,
        {
            digits.push(self.digits[i]);
            proof {
                assert(self.digits@.take(i + 1) =~= self.digits@.take(i as int).push(
                    self.digits@[i as int],
                ));
            }
            i += 1;
        }
        proof {
            assert(self.digits@.take(self.digits.len() as int) =~= self.digits@);
        }
        Numeral { digits }
    }
}

} // verus!
