use vstd::prelude::*;
use crate::game::BettingAction;

verus! {

/// The position of the first space at or after `i`; the length if none.
pub open spec fn first_space(s: Seq<u8>, i: int) -> int
    decreases s.len() - i,
{
    if i >= s.len() || i < 0 {
        s.len() as int
    } else if s[i] == 32 {
        i
    } else {
        first_space(s, i + 1)
    }
}

/// The token that starts at `from`: the bytes up to the next space.
pub open spec fn token(s: Seq<u8>, from: int) -> Seq<u8> {
    s.subrange(from, first_space(s, from))
}

pub open spec fn is_digit(b: u8) -> bool {
    48 <= b <= 57
}

/// Whether every byte is a decimal digit.
pub open spec fn all_digits(t: Seq<u8>) -> bool {
    forall|i: int| 0 <= i < t.len() ==> is_digit(#[trigger] t[i])
}

/// The value of a string of decimal digits.
pub open spec fn decimal(t: Seq<u8>) -> int
    decreases t.len(),
{
    if t.len() == 0 {
        0
    } else {
        decimal(t.drop_last()) * 10 + (t.last() - 48)
    }
}

/// The digits of a number: one or more decimal digits, after an optional `+`.
pub open spec fn number_digits(t: Seq<u8>) -> Seq<u8> {
    if t.len() > 0 && t[0] == 43 {
        t.drop_first()
    } else {
        t
    }
}

/// Whether the token is a number that fits a `u32`.
pub open spec fn is_u32(t: Seq<u8>) -> bool {
    let d = number_digits(t);
    d.len() > 0 && all_digits(d) && decimal(d) <= u32::MAX
}

/// The action that a text request names: `raise <amount>`, `allin`, `call`
/// or `fold` as its first token, the amount being the second; any other
/// request, or a raise without a number that fits a `u32`, is a fold.
pub open spec fn parsed_action(s: Seq<u8>) -> BettingAction {
    let first = token(s, 0);
    let end = first_space(s, 0);
    if first == seq![114u8, 97, 105, 115, 101] {
        if end < s.len() && is_u32(token(s, end + 1)) {
            BettingAction::Raise(decimal(number_digits(token(s, end + 1))) as u32)
        } else {
            BettingAction::Fold
        }
    } else if first == seq![97u8, 108, 108, 105, 110] {
        BettingAction::AllIn
    } else if first == seq![99u8, 97, 108, 108] {
        BettingAction::Call
    } else {
        BettingAction::Fold
    }
}

pub proof fn lemma_decimal_prefix(t: Seq<u8>, k: int)
    requires
        0 <= k <= t.len(),
        all_digits(t),
    ensures
        decimal(t.subrange(0, k)) <= decimal(t),
        decimal(t) >= 0,
    decreases t.len(),
{
    if t.len() > 0 {
        let d = t.drop_last();
        assert(all_digits(d)) by {
            assert forall|i: int| 0 <= i < d.len() implies is_digit(#[trigger] d[i]) by {
                assert(d[i] == t[i]);
            }
        }
        assert(is_digit(t[t.len() - 1]));
        if k == t.len() {
            assert(t.subrange(0, k) =~= t);
            lemma_decimal_prefix(d, d.len() as int);
        } else {
            assert(t.subrange(0, k) =~= d.subrange(0, k));
            lemma_decimal_prefix(d, k);
        }
    }
}

fn find_space(s: &[u8], from: usize) -> (r: usize)
    requires
        from <= s@.len(),
    ensures
        r as int == first_space(s@, from as int),
        from <= r <= s@.len(),
{
    let mut i = from;
    while i < s.len()
        invariant
            from <= i <= s@.len(),
            first_space(s@, i as int) == first_space(s@, from as int),
        decreases s@.len() - i,
    {
        if s[i] == 32 {
            return i;
        }
        i = i + 1;
    }
    i
}

fn token_is(s: &[u8], from: usize, to: usize, word: &[u8]) -> (r: bool)
    requires
        from <= to <= s@.len(),
    ensures
        r == (s@.subrange(from as int, to as int) == word@),
{
    if to - from != word.len() {
        return false;
    }
    let mut k: usize = 0;
    while k < word.len()
        invariant
            to - from == word@.len(),
            from <= to <= s@.len(),
            k <= word@.len(),
            forall|j: int| 0 <= j < k ==> s@[from + j] == word@[j],
        decreases word@.len() - k,
    {
        if s[from + k] != word[k] {
            assert(s@.subrange(from as int, to as int)[k as int] != word@[k as int]);
            return false;
        }
        k = k + 1;
    }
    assert(s@.subrange(from as int, to as int) =~= word@);
    true
}

/// The value of the number in `s[from..to]`, if it is one that fits a `u32`.
fn parse_u32(s: &[u8], from: usize, to: usize) -> (r: Option<u32>)
    requires
        from <= to <= s@.len(),
    ensures
        r is Some <==> is_u32(s@.subrange(from as int, to as int)),
        r is Some ==> r->Some_0 as int == decimal(number_digits(s@.subrange(from as int, to as int))),
{
    let ghost t = s@.subrange(from as int, to as int);
    let mut start = from;
    if from < to && s[from] == 43 {
        start = from + 1;
    }
    let ghost d = s@.subrange(start as int, to as int);
    assert(number_digits(t) =~= d);
    if start == to {
        return None;
    }
    let mut value: u64 = 0;
    let mut i = start;
    while i < to
        invariant
            from <= start < to <= s@.len(),
            start <= i <= to,
            d == s@.subrange(start as int, to as int),
            t == s@.subrange(from as int, to as int),
            number_digits(t) == d,
            all_digits(s@.subrange(start as int, i as int)),
            value as int == decimal(s@.subrange(start as int, i as int)),
            value <= u32::MAX,
        decreases to - i,
    {
        let b = s[i];
        if b < 48 || b > 57 {
            assert(!all_digits(d)) by {
                assert(d[i - start] == b);
            }
            return None;
        }
        let next = value * 10 + (b - 48) as u64;
        proof {
            let p = s@.subrange(start as int, i + 1);
            assert(p.drop_last() =~= s@.subrange(start as int, i as int));
            assert(all_digits(p)) by {
                assert forall|j: int| 0 <= j < p.len() implies is_digit(#[trigger] p[j]) by {
                    if j < p.len() - 1 {
                        assert(p[j] == s@.subrange(start as int, i as int)[j]);
                    }
                }
            }
        }
        if next > 0xffff_ffff {
            proof {
                let p = s@.subrange(start as int, i + 1);
                assert(decimal(p) == next);
                if all_digits(d) {
                    assert(d.subrange(0, i + 1 - start) =~= p);
                    lemma_decimal_prefix(d, i + 1 - start);
                }
            }
            return None;
        }
        value = next;
        i = i + 1;
    }
    assert(s@.subrange(start as int, to as int) =~= d);
    Some(value as u32)
}

/// The action that a text request names (see `parsed_action`); a request
/// that names none is a fold.
pub fn parse_action(request: &[u8]) -> (r: BettingAction)
    ensures
        r == parsed_action(request@),
{
    let end = find_space(request, 0);
    assert(token(request@, 0) == request@.subrange(0, end as int));
    if token_is(request, 0, end, &[114u8, 97, 105, 115, 101]) {
        if end < request.len() {
            let end2 = find_space(request, end + 1);
            match parse_u32(request, end + 1, end2) {
                Some(v) => BettingAction::Raise(v),
                None => BettingAction::Fold,
            }
        } else {
            BettingAction::Fold
        }
    } else if token_is(request, 0, end, &[97u8, 108, 108, 105, 110]) {
        BettingAction::AllIn
    } else if token_is(request, 0, end, &[99u8, 97, 108, 108]) {
        BettingAction::Call
    } else {
        BettingAction::Fold
    }
}

} // verus!
