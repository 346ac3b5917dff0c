//! Character sequences: searching, file names and decimal numbers.

use vstd::prelude::*;
use vstd::std_specs::iter::IteratorSpec;
use vstd::string::*;

verus! {

/// `pat` stands in `text` at index `i`.
pub open spec fn occurs_at(text: Seq<char>, pat: Seq<char>, i: int) -> bool {
    &&& 0 <= i
    &&& i + pat.len() <= text.len()
    &&& text.subrange(i, i + pat.len()) =~= pat
}

/// `pat` stands somewhere in `text`.
pub open spec fn occurs(text: Seq<char>, pat: Seq<char>) -> bool {
    exists|i: int| occurs_at(text, pat, i)
}

/// The first index at or after `from` at which `pat` stands in `text`.
pub open spec fn position(text: Seq<char>, pat: Seq<char>, from: int) -> Option<int>
    decreases text.len() - from,
{
    if from < 0 || from + pat.len() > text.len() {
        None
    } else if text.subrange(from, from + pat.len()) =~= pat {
        Some(from)
    } else {
        position(text, pat, from + 1)
    }
}

/// `position` finds the least index from `from` on at which the pattern stands.
pub proof fn lemma_position_is_first(text: Seq<char>, pat: Seq<char>, from: int)
    requires
        0 <= from,
    ensures
        match position(text, pat, from) {
            Some(i) => {
                &&& from <= i
                &&& occurs_at(text, pat, i)
                &&& forall|k: int| from <= k < i ==> !occurs_at(text, pat, k)
            },
            None => forall|k: int| from <= k ==> !occurs_at(text, pat, k),
        },
    decreases text.len() - from,
{
    if from + pat.len() > text.len() {
    } else if text.subrange(from, from + pat.len()) =~= pat {
    } else {
        lemma_position_is_first(text, pat, from + 1);
    }
}

/// An index at which the pattern stands, with none before it from `from` on,
/// is what `position` finds.
pub proof fn lemma_first_is_position(text: Seq<char>, pat: Seq<char>, from: int, i: int)
    requires
        0 <= from <= i,
        occurs_at(text, pat, i),
        forall|k: int| from <= k < i ==> !occurs_at(text, pat, k),
    ensures
        position(text, pat, from) == Some(i),
    decreases i - from,
{
    if from < i {
        assert(!occurs_at(text, pat, from));
        lemma_first_is_position(text, pat, from + 1, i);
    }
}

/// The characters of `s`.
pub fn chars_of(s: &str) -> (v: Vec<char>)
    ensures
        v@ == s@,
{
    let mut v: Vec<char> = Vec::new();
    let mut it = s.chars();
    proof {
        axiom_spec_iter(s);
    }
    loop
        invariant
            v@ + it.remaining() == s@,
            it.obeys_prophetic_iter_laws(),
            it.decrease() is Some,
        decreases it.decrease()->0,
    {
        let ghost before = it;
        let next = it.next();
        proof {
            next_postcondition(&before, &it, next);
        }
        match next {
            Some(c) => {
                v.push(c);
                assert(v@ + it.remaining() =~= s@);
            },
            None => {
                assert(v@ =~= s@);
                return v;
            },
        }
    }
}

/// Whether `pat` stands in `text` at index `i`.
pub fn matches_at(text: &Vec<char>, pat: &Vec<char>, i: usize) -> (r: bool)
    requires
        i + pat@.len() <= text@.len(),
    ensures
        r == occurs_at(text@, pat@, i as int),
{
    let n: usize = pat.len();
    let len: usize = text.len();
    let mut j: usize = 0;
    while j < n
        invariant
            n == pat@.len(),
            len == text@.len(),
            j <= n,
            i + n <= len,
            forall|k: int| 0 <= k < j ==> text@[i + k] == pat@[k],
        decreases n - j,
    {
        if text[i + j] != pat[j] {
            assert(text@.subrange(i as int, i + n)[j as int] != pat@[j as int]);
            return false;
        }
        j += 1;
    }
    assert(text@.subrange(i as int, i + n) =~= pat@);
    true
}

/// The first index at or after `from` at which `pat` stands in `text`.
pub fn find(text: &Vec<char>, pat: &Vec<char>, from: usize) -> (r: Option<usize>)
    ensures
        match position(text@, pat@, from as int) {
            Some(i) => r == Some(i as usize) && i <= usize::MAX,
            None => r is None,
        },
{
    let n: usize = text.len();
    let m: usize = pat.len();
    proof {
        lemma_position_is_first(text@, pat@, from as int);
    }
    if m > n || from > n - m {
        return None;
    }
    if m == 0 {
        assert(occurs_at(text@, pat@, from as int));
        return Some(from);
    }
    let mut i: usize = from;
    while i <= n - m
        invariant
            n == text@.len(),
            m == pat@.len(),
            1 <= m <= n,
            from <= i <= n - m + 1,
            forall|k: int| from <= k < i ==> !occurs_at(text@, pat@, k),
        decreases n - m + 1 - i,
    {
        if matches_at(text, pat, i) {
            proof {
                lemma_first_is_position(text@, pat@, from as int, i as int);
            }
            return Some(i);
        }
        i += 1;
    }
    proof {
        lemma_position_is_first(text@, pat@, from as int);
        if let Some(p) = position(text@, pat@, from as int) {
            assert(!occurs_at(text@, pat@, p));
        }
    }
    None
}

/// The decimal digit of `d`, for `d` under ten.
pub open spec fn digit(d: nat) -> char {
    if d == 0 {
        '0'
    } else if d == 1 {
        '1'
    } else if d == 2 {
        '2'
    } else if d == 3 {
        '3'
    } else if d == 4 {
        '4'
    } else if d == 5 {
        '5'
    } else if d == 6 {
        '6'
    } else if d == 7 {
        '7'
    } else if d == 8 {
        '8'
    } else {
        '9'
    }
}

/// `n` in decimal, without leading zeros.
pub open spec fn decimal(n: nat) -> Seq<char>
    decreases n,
{
    if n < 10 {
        seq![digit(n)]
    } else {
        decimal(n / 10).push(digit(n % 10))
    }
}

/// The one-character text of the decimal digit `d`.
fn digit_text(d: usize) -> (r: &'static str)
    requires
        d < 10,
    ensures
        r@ == seq![digit(d as nat)],
{
    proof {
        reveal_strlit("0");
        reveal_strlit("1");
        reveal_strlit("2");
        reveal_strlit("3");
        reveal_strlit("4");
        reveal_strlit("5");
        reveal_strlit("6");
        reveal_strlit("7");
        reveal_strlit("8");
        reveal_strlit("9");
    }
    let r = if d == 0 {
        "0"
    } else if d == 1 {
        "1"
    } else if d == 2 {
        "2"
    } else if d == 3 {
        "3"
    } else if d == 4 {
        "4"
    } else if d == 5 {
        "5"
    } else if d == 6 {
        "6"
    } else if d == 7 {
        "7"
    } else if d == 8 {
        "8"
    } else {
        "9"
    };
    assert(r@ =~= seq![digit(d as nat)]);
    r
}

/// `n` written in decimal.
pub fn decimal_string(n: usize) -> (s: String)
    ensures
        s@ == decimal(n as nat),
    decreases n,
{
    if n < 10 {
        String::from_str(digit_text(n))
    } else {
        let mut s = decimal_string(n / 10);
        s.append(digit_text(n % 10));
        assert(s@ =~= decimal(n as nat));
        s
    }
}

} // verus!
