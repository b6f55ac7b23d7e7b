//! Fallback ids for nodes that are given none.

use vstd::prelude::*;
use crate::number::{decimal_digits, is_digit, lemma_decimal_digits, push_decimal};
use crate::text::{chars_of, is_whitespace, string_of};

verus! {

/// The source of fallback ids: a counter that only goes up. Hand the same
/// one to every call that may need a fresh id, and no id is given twice.
#[derive(Debug)]
pub struct IdGen {
    next: u64,
}

impl View for IdGen {
    type V = nat;

    /// The number of the next id.
    closed spec fn view(&self) -> nat {
        self.next as nat
    }
}

impl IdGen {
    /// A source that starts at 0.
    pub fn new() -> (ids: Self)
        ensures
            ids@ == 0,
    {
        IdGen { next: 0 }
    }

    /// A source that starts at `next`.
    pub fn starting_at(next: u64) -> (ids: Self)
        ensures
            ids@ == next,
    {
        IdGen { next }
    }

    /// The number of the next id.
    pub fn next_number(&self) -> (n: u64)
        ensures
            n == self@,
    {
        self.next
    }
}

/// The `n`-th fallback id: `doc-id-` and `n` in decimal.
pub open spec fn generated_id(n: nat) -> Seq<char> {
    "doc-id-"@ + decimal_digits(n)
}

/// A fallback id is never empty and holds no whitespace.
pub proof fn lemma_generated_id(n: nat)
    ensures
        generated_id(n).len() > 0,
        forall|i: int| 0 <= i < generated_id(n).len() ==> !is_whitespace(#[trigger] generated_id(n)[i]),
{
    reveal_strlit("doc-id-");
    lemma_decimal_digits(n);
    let digits = decimal_digits(n);
    let id = generated_id(n);
    assert forall|i: int| 0 <= i < id.len() implies !is_whitespace(#[trigger] id[i]) by {
        if i >= 7 {
            assert(id[i] == digits[i - 7]);
            assert(is_digit(digits[i - 7]));
        }
    }
}

/// Two numbers never give the same fallback id.
pub proof fn lemma_generated_ids_differ(a: nat, b: nat)
    requires
        a != b,
    ensures
        generated_id(a) != generated_id(b),
{
    reveal_strlit("doc-id-");
    lemma_decimal_digits(a);
    lemma_decimal_digits(b);
    if generated_id(a) == generated_id(b) {
        assert(generated_id(a).skip(7) =~= decimal_digits(a));
        assert(generated_id(b).skip(7) =~= decimal_digits(b));
    }
}

/// The next fallback id. The counter must not be used up.
pub fn new_id(ids: &mut IdGen) -> (id: String)
    requires
        old(ids)@ < u64::MAX,
    ensures
        id@ == generated_id(old(ids)@),
        final(ids)@ == old(ids)@ + 1,
{
    let mut out = chars_of("doc-id-");
    push_decimal(&mut out, ids.next);
    ids.next = ids.next + 1;
    string_of(&out)
}

} // verus!
