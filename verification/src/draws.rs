//! Ids that are free: how many there are, and how one is found.

use vstd::prelude::*;

use crate::rules;
use crate::text;

verus! {

/// How many texts of eight hexadecimal digits there are.
pub const NUMBER_COUNT: u64 = 0x1_0000_0000;

/// The last digits of a number, in hexadecimal.
pub open spec fn digits_of(v: nat, n: nat) -> Seq<char>
    decreases n,
{
    if n == 0 {
        seq![]
    } else {
        digits_of(v / 16, (n - 1) as nat).push(rules::hex_digit((v % 16) as u8))
    }
}

/// How many numbers `n` digits tell apart.
spec fn numbers_of(n: nat) -> nat
    decreases n,
{
    if n == 0 {
        1
    } else {
        16 * numbers_of((n - 1) as nat)
    }
}

proof fn lemma_digits(v: nat, n: nat)
    ensures
        digits_of(v, n).len() == n,
        forall|i: int| 0 <= i < n ==> text::is_lower_hex(#[trigger] digits_of(v, n)[i]),
    decreases n,
{
    if n > 0 {
        lemma_digits(v / 16, (n - 1) as nat);
        assert(text::is_lower_hex(rules::hex_digit((v % 16) as u8)));
    }
}

proof fn lemma_digits_differ(a: nat, b: nat, n: nat)
    requires
        a < numbers_of(n),
        b < numbers_of(n),
        digits_of(a, n) == digits_of(b, n),
    ensures
        a == b,
    decreases n,
{
    if n > 0 {
        let x = digits_of(a, n);
        let y = digits_of(b, n);
        assert(x.drop_last() =~= digits_of(a / 16, (n - 1) as nat));
        assert(y.drop_last() =~= digits_of(b / 16, (n - 1) as nat));
        assert(x.last() == y.last());
        lemma_digits_differ(a / 16, b / 16, (n - 1) as nat);
    }
}

/// A prefix and the eight digits of a number.
pub open spec fn numbered(prefix: Seq<char>, v: nat) -> Seq<char> {
    prefix + digits_of(v, 8)
}

pub(crate) proof fn lemma_numbered(prefix: Seq<char>, v: nat)
    ensures
        numbered(prefix, v).len() == prefix.len() + 8,
        forall|i: int|
            prefix.len() <= i < prefix.len() + 8 ==> text::is_lower_hex(
                #[trigger] numbered(prefix, v)[i],
            ),
{
    lemma_digits(v, 8);
    assert forall|i: int| prefix.len() <= i < prefix.len() + 8 implies text::is_lower_hex(
        #[trigger] numbered(prefix, v)[i],
    ) by {
        assert(numbered(prefix, v)[i] == digits_of(v, 8)[i - prefix.len()]);
    }
}

proof fn lemma_numbered_differ(prefix: Seq<char>, a: nat, b: nat)
    requires
        a < NUMBER_COUNT,
        b < NUMBER_COUNT,
        numbered(prefix, a) == numbered(prefix, b),
    ensures
        a == b,
{
    assert(numbered(prefix, a).skip(prefix.len() as int) =~= digits_of(a, 8));
    assert(numbered(prefix, b).skip(prefix.len() as int) =~= digits_of(b, 8));
    reveal_with_fuel(numbers_of, 9);
    lemma_digits_differ(a, b, 8);
}

/// Fewer texts than there are numbers do not take up every numbered one.
proof fn lemma_some_is_free(prefix: Seq<char>, start: nat, taken: Seq<Seq<char>>)
    requires
        taken.len() < NUMBER_COUNT,
    ensures
        exists|k: int|
            0 <= k < NUMBER_COUNT && !taken.contains(
                #[trigger] numbered(prefix, ((start + k) % NUMBER_COUNT as int) as nat),
            ),
{
    let at = |k: int| numbered(prefix, ((start + k) % NUMBER_COUNT as int) as nat);
    let all = Seq::new(NUMBER_COUNT as nat, at);
    if forall|k: int|
        0 <= k < NUMBER_COUNT ==> taken.contains(
            #[trigger] numbered(prefix, ((start + k) % NUMBER_COUNT as int) as nat),
        ) {
        assert forall|i: int, j: int| 0 <= i < j < all.len() implies all[i] != all[j] by {
            let a = (start + i) % NUMBER_COUNT as int;
            let b = (start + j) % NUMBER_COUNT as int;
            if all[i] == all[j] {
                lemma_numbered_differ(prefix, a as nat, b as nat);
                assert(a != b);
            }
        }
        all.unique_seq_to_set();
        taken.lemma_cardinality_of_set();
        assert(all.to_set().subset_of(taken.to_set())) by {
            assert forall|x: Seq<char>| all.to_set().contains(x) implies taken.to_set().contains(
                x,
            ) by {
                let i = choose|i: int| 0 <= i < all.len() && all[i] == x;
                assert(x == numbered(prefix, ((start + i) % NUMBER_COUNT as int) as nat));
            }
        }
        vstd::set_lib::lemma_len_subset(all.to_set(), taken.to_set());
    }
}

/// The value of a hexadecimal digit.
fn value_of(c: char) -> (r: u32)
    ensures
        r < 16,
{
    let n: u32 = c as u32;
    if 48 <= n && n <= 57 {
        n - 48
    } else if 97 <= n && n <= 102 {
        n - 87
    } else {
        0
    }
}

/// The number that the last eight digits of a text write down: where a search starts,
/// which makes no difference to whether it finds something.
fn number_of(digits: &str) -> (r: u32)
{
    let mut number: u32 = 0;
    let mut i: usize = 0;
    let n: usize = digits.unicode_len();
    while i < n
        invariant
            i <= n == digits@.len(),
        decreases n - i,
    {
        number = (number % 0x1000_0000) * 16 + value_of(digits.get_char(i));
        i = i + 1;
    }
    number
}

/// The last digits of a number, in hexadecimal.
fn show_digits(v: u32, n: u32) -> (r: String)
    ensures
        r@ == digits_of(v as nat, n as nat),
    decreases n,
{
    if n == 0 {
        String::new()
    } else {
        let mut out = show_digits(v / 16, n - 1);
        let digit: u8 = (v % 16) as u8;
        out.push(
            if digit < 10 {
                (48 + digit) as char
            } else {
                (87 + digit) as char
            },
        );
        out
    }
}

/// A numbered text that is not among the taken ones. The search starts at the number
/// that the digits write down and steps on from there.
pub fn next_free(prefix: &str, digits: &str, taken: &[String], more: &[String]) -> (r: String)
    requires
        taken@.len() + more@.len() < NUMBER_COUNT,
    ensures
        exists|v: nat| r@ == #[trigger] numbered(prefix@, v),
        !text::texts(taken@).contains(r@),
        !text::texts(more@).contains(r@),
{
    let ghost all = text::texts(taken@) + text::texts(more@);
    let start: u32 = number_of(digits);
    proof {
        lemma_some_is_free(prefix@, start as nat, all);
    }
    let ghost at = choose|k: int|
        0 <= k < NUMBER_COUNT && !all.contains(
            #[trigger] numbered(prefix@, ((start + k) % NUMBER_COUNT as int) as nat),
        );
    let mut k: u64 = 0;
    loop
        invariant
            0 <= k <= at < NUMBER_COUNT,
            all == text::texts(taken@) + text::texts(more@),
            !all.contains(numbered(prefix@, ((start + at) % NUMBER_COUNT as int) as nat)),
        decreases NUMBER_COUNT - k,
    {
        let v: u32 = ((start as u64 + k) % NUMBER_COUNT) as u32;
        let id = prefix.to_owned().concat(show_digits(v, 8).as_str());
        assert(id@ == numbered(prefix@, v as nat));
        if !text::holds(taken, id.as_str()) && !text::holds(more, id.as_str()) {
            return id;
        }
        proof {
            let a = text::texts(taken@);
            let b = text::texts(more@);
            if a.contains(id@) {
                let i = choose|i: int| 0 <= i < a.len() && a[i] == id@;
                assert(all[i] == id@);
            } else {
                let i = choose|i: int| 0 <= i < b.len() && b[i] == id@;
                assert(all[a.len() + i] == id@);
            }
            assert(all.contains(id@));
        }
        k = k + 1;
    }
}

} // verus!
