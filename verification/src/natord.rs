//! Natural ("human") ordering of file names: runs of digits compare by
//! their numeric value, other characters compare case-insensitively.

use vstd::prelude::*;
use std::cmp::Ordering;
use crate::text::{
    is_digit, digit_value, lower_first, char_lower_first, chars_of, digit_of, is_ascii_char, ascii_lower, all_ascii,
};

verus! {

/// Length of the run of ASCII digits that starts `s`.
pub open spec fn digit_run(s: Seq<char>) -> nat
    decreases s.len(),
{
    if s.len() > 0 && is_digit(s[0]) {
        1 + digit_run(s.skip(1))
    } else {
        0
    }
}

/// `x * 10`, saturating at `u64::MAX`.
pub open spec fn sat_times_ten(x: u64) -> u64 {
    if x * 10 > u64::MAX {
        u64::MAX
    } else {
        (x * 10) as u64
    }
}

/// `x + d`, saturating at `u64::MAX`.
pub open spec fn sat_plus(x: u64, d: nat) -> u64 {
    if x + d > u64::MAX {
        u64::MAX
    } else {
        (x + d) as u64
    }
}

/// Value of a run of digits, read left to right with saturating arithmetic.
pub open spec fn number_value(d: Seq<char>) -> u64
    decreases d.len(),
{
    if d.len() == 0 {
        0
    } else {
        sat_plus(sat_times_ten(number_value(d.drop_last())), digit_value(d.last()))
    }
}

pub proof fn lemma_digit_run_bounds(s: Seq<char>)
    ensures
        digit_run(s) <= s.len(),
        s.len() > 0 && is_digit(s[0]) ==> digit_run(s) >= 1,
        forall|i: int| 0 <= i < digit_run(s) ==> is_digit(#[trigger] s[i]),
        digit_run(s) < s.len() ==> !is_digit(s[digit_run(s) as int]),
    decreases s.len(),
{
    if s.len() > 0 && is_digit(s[0]) {
        lemma_digit_run_bounds(s.skip(1));
        assert forall|i: int| 0 <= i < digit_run(s) implies is_digit(#[trigger] s[i]) by {
            if i > 0 {
                assert(s.skip(1)[i - 1] == s[i]);
            }
        }
        if digit_run(s) < s.len() {
            assert(s.skip(1)[digit_run(s.skip(1)) as int] == s[digit_run(s) as int]);
        }
    }
}


/// Value of the run of digits that starts `s`.
pub open spec fn run_value(s: Seq<char>) -> u64 {
    number_value(s.take(digit_run(s) as int))
}

/// What follows the run of digits that starts `s`.
pub open spec fn after_run(s: Seq<char>) -> Seq<char> {
    s.skip(digit_run(s) as int)
}

/// The characters of `s` from index `i` on.
pub open spec fn suffix_at(s: Seq<char>, i: usize) -> Seq<char> {
    s.skip(i as int)
}

/// The characters of `s` in `[i, j)`.
pub open spec fn span(s: Seq<char>, i: usize, j: usize) -> Seq<char> {
    s.subrange(i as int, j as int)
}

pub proof fn lemma_suffix_facts(s: Seq<char>, i: usize)
    requires
        i < s.len(),
        s.len() <= usize::MAX,
    ensures
        suffix_at(s, i)[0] == s[i as int],
        suffix_at(s, (i + 1) as usize) == suffix_at(s, i).skip(1),
        suffix_at(s, i).len() == s.len() - i,
{
    assert(suffix_at(s, (i + 1) as usize) =~= suffix_at(s, i).skip(1));
}

pub proof fn lemma_run_facts(s: Seq<char>, i: usize, j: usize, v: u64)
    requires
        i <= s.len(),
        j == i + digit_run(suffix_at(s, i)),
        v == number_value(span(s, i, j)),
    ensures
        v == run_value(suffix_at(s, i)),
        suffix_at(s, j) == after_run(suffix_at(s, i)),
        j <= s.len(),
{
    lemma_digit_run_bounds(suffix_at(s, i));
    assert(span(s, i, j) =~= suffix_at(s, i).take(digit_run(suffix_at(s, i)) as int));
    assert(suffix_at(s, j) =~= after_run(suffix_at(s, i)));
}

/// A character as natural order compares it: its lower-case form (the
/// first character of its Unicode lower-case mapping, which for an ASCII
/// character is its ASCII lower-case form).
pub open spec fn fold_case(c: char) -> char {
    if is_ascii_char(c) {
        ascii_lower(c)
    } else {
        lower_first(c)
    }
}

/// Natural order of two names: equal digit runs and equal (lower-cased)
/// characters are skipped, the first difference decides, and a name that
/// runs out first is the smaller.
pub open spec fn natord(a: Seq<char>, b: Seq<char>) -> Ordering
    decreases a.len() + b.len(),
{
    if a.len() == 0 && b.len() == 0 {
        Ordering::Equal
    } else if a.len() == 0 {
        Ordering::Less
    } else if b.len() == 0 {
        Ordering::Greater
    } else if is_digit(a[0]) && is_digit(b[0]) {
        proof {
            lemma_digit_run_bounds(a);
            lemma_digit_run_bounds(b);
        }
        let va = run_value(a);
        let vb = run_value(b);
        if va < vb {
            Ordering::Less
        } else if va > vb {
            Ordering::Greater
        } else {
            natord(after_run(a), after_run(b))
        }
    } else {
        let la = fold_case(a[0]);
        let lb = fold_case(b[0]);
        if la < lb {
            Ordering::Less
        } else if la > lb {
            Ordering::Greater
        } else {
            natord(a.skip(1), b.skip(1))
        }
    }
}

/// The reverse of an ordering.
pub open spec fn reversed(o: Ordering) -> Ordering {
    match o {
        Ordering::Less => Ordering::Greater,
        Ordering::Equal => Ordering::Equal,
        Ordering::Greater => Ordering::Less,
    }
}

/// Comparing the other way round gives the reverse answer.
pub proof fn law_natord_antisymmetric(a: Seq<char>, b: Seq<char>)
    ensures
        natord(b, a) == reversed(natord(a, b)),
    decreases a.len() + b.len(),
{
    if a.len() > 0 && b.len() > 0 {
        lemma_digit_run_bounds(a);
        lemma_digit_run_bounds(b);
        if is_digit(a[0]) && is_digit(b[0]) {
            law_natord_antisymmetric(after_run(a), after_run(b));
        } else {
            law_natord_antisymmetric(a.skip(1), b.skip(1));
        }
    }
}

/// A name compares equal to itself.
pub proof fn law_natord_reflexive(a: Seq<char>)
    ensures
        natord(a, a) == Ordering::Equal,
    decreases a.len(),
{
    if a.len() > 0 {
        lemma_digit_run_bounds(a);
        if is_digit(a[0]) {
            law_natord_reflexive(after_run(a));
        } else {
            law_natord_reflexive(a.skip(1));
        }
    }
}

proof fn lemma_fold_ascii(c: char)
    requires
        is_ascii_char(c),
    ensures
        is_digit(c) ==> fold_case(c) == c,
        !is_digit(c) ==> !is_digit(fold_case(c)),
{
}

proof fn lemma_ascii_rest(s: Seq<char>)
    requires
        all_ascii(s),
        s.len() > 0,
    ensures
        is_ascii_char(s[0]),
        all_ascii(s.skip(1)),
        all_ascii(after_run(s)),
{
    lemma_digit_run_bounds(s);
    assert forall|i: int| 0 <= i < s.skip(1).len() implies is_ascii_char(#[trigger] s.skip(1)[i]) by {
        assert(s.skip(1)[i] == s[i + 1]);
    }
    assert forall|i: int| 0 <= i < after_run(s).len() implies is_ascii_char(#[trigger] after_run(s)[i]) by {
        assert(after_run(s)[i] == s[i + digit_run(s)]);
    }
}

/// On ASCII names natural order is transitive: a name no later than one
/// that is no later than a third is no later than the third, and earlier
/// where either step is.
pub proof fn law_natord_transitive(a: Seq<char>, b: Seq<char>, c: Seq<char>)
    requires
        all_ascii(a),
        all_ascii(b),
        all_ascii(c),
        natord(a, b) != Ordering::Greater,
        natord(b, c) != Ordering::Greater,
    ensures
        natord(a, c) != Ordering::Greater,
        (natord(a, b) == Ordering::Less || natord(b, c) == Ordering::Less) ==> natord(a, c) == Ordering::Less,
    decreases a.len() + b.len() + c.len(),
{
    if a.len() == 0 || b.len() == 0 || c.len() == 0 {
        return;
    }
    lemma_ascii_rest(a);
    lemma_ascii_rest(b);
    lemma_ascii_rest(c);
    lemma_digit_run_bounds(a);
    lemma_digit_run_bounds(b);
    lemma_digit_run_bounds(c);
    lemma_fold_ascii(a[0]);
    lemma_fold_ascii(b[0]);
    lemma_fold_ascii(c[0]);
    let da = is_digit(a[0]);
    let db = is_digit(b[0]);
    let dc = is_digit(c[0]);
    if da && db && dc {
        if run_value(a) == run_value(b) && run_value(b) == run_value(c) {
            law_natord_transitive(after_run(a), after_run(b), after_run(c));
        }
    } else if !da && !db && !dc {
        if fold_case(a[0]) == fold_case(b[0]) && fold_case(b[0]) == fold_case(c[0]) {
            law_natord_transitive(a.skip(1), b.skip(1), c.skip(1));
        }
    } else if da && db && !dc {
        assert(fold_case(b[0]) < fold_case(c[0]));
    } else if !da && !db && dc {
        if fold_case(a[0]) == fold_case(b[0]) {
            assert(natord(a, c) == natord(b, c));
        }
    } else if !da && db && dc {
        assert(fold_case(a[0]) < b[0]);
    } else if da && !db && !dc {
        if fold_case(b[0]) == fold_case(c[0]) {
            assert(natord(a, c) == natord(a, b));
        }
    }
}

/// Reads the run of digits of `s` that starts at `start`: returns its
/// saturating value and the index just past it.
pub fn collect_number(s: &Vec<char>, start: usize) -> (r: (u64, usize))
    requires
        start <= s.len(),
    ensures
        r.1 == start + digit_run(suffix_at(s@, start)),
        r.0 == number_value(span(s@, start, r.1)),
{
    let mut n: u64 = 0;
    let mut i: usize = start;
    proof {
        lemma_digit_run_bounds(s@.skip(start as int));
        assert(s@.subrange(start as int, start as int) =~= Seq::<char>::empty());
    }
    while i < s.len() && is_ascii_digit_char(s[i])
        invariant
            start <= i <= s.len(),
            i <= start + digit_run(s@.skip(start as int)),
            digit_run(s@.skip(start as int)) <= s@.len() - start,
            forall|t: int| 0 <= t < digit_run(s@.skip(start as int)) ==> is_digit(#[trigger] s@.skip(start as int)[t]),
            digit_run(s@.skip(start as int)) < s@.len() - start ==> !is_digit(s@.skip(start as int)[digit_run(s@.skip(start as int)) as int]),
            n == number_value(s@.subrange(start as int, i as int)),
        decreases s.len() - i,
    {
        let d = digit_of(s[i]);
        let ghost prev = s@.subrange(start as int, i as int);
        let m: u64 = if n > u64::MAX / 10 { u64::MAX } else { n * 10 };
        n = if m > u64::MAX - d { u64::MAX } else { m + d };
        proof {
            let next = s@.subrange(start as int, i + 1);
            assert(next.drop_last() =~= prev);
            assert(next.last() == s@[i as int]);
            assert(s@.skip(start as int)[i - start] == s@[i as int]);
            if i - start >= digit_run(s@.skip(start as int)) {
                assert(i - start == digit_run(s@.skip(start as int)));
            }
        }
        i = i + 1;
    }
    proof {
        let k = digit_run(s@.skip(start as int));
        if i < start + k {
            assert(s@.skip(start as int)[i - start] == s@[i as int]);
        }
    }
    (n, i)
}

/// `c` is one of `0`..=`9`.
pub fn is_ascii_digit_char(c: char) -> (r: bool)
    ensures
        r == is_digit(c),
{
    '0' <= c && c <= '9'
}

/// Natural order of the file names `a` and `b`.
pub fn natord_compare(a: &str, b: &str) -> (r: Ordering)
    ensures
        r == natord(a@, b@),
{
    let av = chars_of(a);
    let bv = chars_of(b);
    let mut i: usize = 0;
    let mut j: usize = 0;
    proof {
        assert(suffix_at(av@, 0) =~= av@);
        assert(suffix_at(bv@, 0) =~= bv@);
    }
    loop
        invariant
            av@ == a@,
            bv@ == b@,
            i <= av.len(),
            j <= bv.len(),
            natord(a@, b@) == natord(suffix_at(av@, i), suffix_at(bv@, j)),
        decreases (av.len() - i) + (bv.len() - j),
    {
        if i == av.len() && j == bv.len() {
            proof {
                assert(suffix_at(av@, i).len() == 0);
                assert(suffix_at(bv@, j).len() == 0);
            }
            return Ordering::Equal;
        } else if i == av.len() {
            proof {
                lemma_suffix_facts(bv@, j);
                assert(suffix_at(av@, i).len() == 0);
            }
            return Ordering::Less;
        } else if j == bv.len() {
            proof {
                lemma_suffix_facts(av@, i);
                assert(suffix_at(bv@, j).len() == 0);
            }
            return Ordering::Greater;
        }
        proof {
            lemma_suffix_facts(av@, i);
            lemma_suffix_facts(bv@, j);
        }
        let ac = av[i];
        let bc = bv[j];
        if is_ascii_digit_char(ac) && is_ascii_digit_char(bc) {
            let (na, ni) = collect_number(&av, i);
            let (nb, nj) = collect_number(&bv, j);
            proof {
                lemma_run_facts(av@, i, ni, na);
                lemma_run_facts(bv@, j, nj, nb);
                lemma_digit_run_bounds(suffix_at(av@, i));
                lemma_digit_run_bounds(suffix_at(bv@, j));
            }
            if na < nb {
                return Ordering::Less;
            } else if na > nb {
                return Ordering::Greater;
            }
            i = ni;
            j = nj;
        } else {
            let la = char_lower_first(ac);
            let lb = char_lower_first(bc);
            if la < lb {
                return Ordering::Less;
            } else if la > lb {
                return Ordering::Greater;
            }
            i = i + 1;
            j = j + 1;
        }
    }
}

} // verus!
