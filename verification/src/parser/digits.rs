//! Printed numbers are read back.

use super::common::{decimal, is_digit, number, unsigned_part};
use crate::common::text::{digit_char, int_text, nat_text};
use vstd::prelude::*;

verus! {

proof fn lemma_digit(d: nat)
    requires
        d < 10,
    ensures
        is_digit(digit_char(d)),
        digit_char(d) as int - '0' as int == d,
{
    let all = seq!['0', '1', '2', '3', '4', '5', '6', '7', '8', '9'];
    assert(all[0] == '0' && all[1] == '1' && all[2] == '2' && all[3] == '3' && all[4] == '4'
        && all[5] == '5' && all[6] == '6' && all[7] == '7' && all[8] == '8' && all[9] == '9');
}

proof fn lemma_prefix(a: Seq<char>, b: Seq<char>, k: nat)
    requires
        k <= a.len(),
        k <= b.len(),
        forall|i: int| 0 <= i < k ==> a[i] == b[i],
    ensures
        decimal(a, k) == decimal(b, k),
    decreases k,
{
    if k > 0 {
        lemma_prefix(a, b, (k - 1) as nat);
    }
}

proof fn lemma_nat_read(n: nat)
    ensures
        nat_text(n).len() > 0,
        forall|i: int| 0 <= i < nat_text(n).len() ==> is_digit(#[trigger] nat_text(n)[i]),
        decimal(nat_text(n), nat_text(n).len()) == n,
    decreases n,
{
    let s = nat_text(n);
    if n < 10 {
        lemma_digit(n);
        assert(decimal(s, 0) == 0);
        assert(decimal(s, 1) == n);
    } else {
        lemma_nat_read(n / 10);
        lemma_digit(n % 10);
        let front = nat_text(n / 10);
        lemma_prefix(s, front, front.len());
        assert forall|i: int| 0 <= i < s.len() implies is_digit(#[trigger] s[i]) by {
            if i < front.len() {
                assert(s[i] == front[i]);
            }
        }
    }
}

/// A printed 32-bit integer is read back as the same integer.
pub proof fn lemma_number_reads_back(n: int)
    requires
        i32::MIN <= n <= i32::MAX,
    ensures
        number(int_text(n)) == Some(n),
{
    let s = int_text(n);
    if n < 0 {
        let digits = nat_text((-n) as nat);
        lemma_nat_read((-n) as nat);
        assert(s[0] == '-');
        assert(s.skip(1) =~= digits);
        assert(unsigned_part(s) == digits);
    } else {
        lemma_nat_read(n as nat);
        assert(is_digit(s[0]));
        assert(unsigned_part(s) == s);
    }
}

} // verus!
