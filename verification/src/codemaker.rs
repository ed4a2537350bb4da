//! Codemaker: draws the secret and scores a guess against it.
//!
//! The hint for a pair of codes counts, first, the positions where the two
//! codes agree, and second, how many of the remaining digits of one code
//! can be matched one-to-one against an equal digit of the other. The
//! second count is a multiset matching: a digit of the guess consumes one
//! occurrence in the secret, so duplicates are never credited twice.

use vstd::prelude::*;
use crate::code;
use crate::code::ParseError;
use crate::code::all_code_digits;
use crate::code::is_code_digit;
use crate::code::spec_parse;
use crate::code::valid_code;

verus! {

/// The smaller of two counts.
pub open spec fn min_nat(x: nat, y: nat) -> nat {
    if x <= y {
        x
    } else {
        y
    }
}

/// Number of occurrences of `c` in `s`.
pub open spec fn occurrences(s: Seq<char>, c: char) -> nat
    decreases s.len(),
{
    if s.len() == 0 {
        0
    } else {
        (if s[0] == c {
            1nat
        } else {
            0nat
        }) + occurrences(s.skip(1), c)
    }
}

/// How many digits of `a` can be matched one-to-one against an equal digit
/// of `b`: for each symbol of the alphabet, the smaller of the two
/// occurrence counts.
pub open spec fn multiset_matches(a: Seq<char>, b: Seq<char>) -> nat {
    min_nat(occurrences(a, '1'), occurrences(b, '1')) + min_nat(
        occurrences(a, '2'),
        occurrences(b, '2'),
    ) + min_nat(occurrences(a, '3'), occurrences(b, '3')) + min_nat(
        occurrences(a, '4'),
        occurrences(b, '4'),
    ) + min_nat(occurrences(a, '5'), occurrences(b, '5')) + min_nat(
        occurrences(a, '6'),
        occurrences(b, '6'),
    )
}

/// The two sequences paired up position by position, truncated to the
/// shorter one.
pub open spec fn zipped(a: Seq<char>, b: Seq<char>) -> Seq<(char, char)> {
    Seq::new(min_nat(a.len(), b.len()), |i: int| (a[i], b[i]))
}

/// Number of pairs whose two components are equal.
pub open spec fn equal_count(ps: Seq<(char, char)>) -> nat
    decreases ps.len(),
{
    if ps.len() == 0 {
        0
    } else {
        (if ps[0].0 == ps[0].1 {
            1nat
        } else {
            0nat
        }) + equal_count(ps.skip(1))
    }
}

/// The pairs whose two components differ, in order.
pub open spec fn unequal_pairs(ps: Seq<(char, char)>) -> Seq<(char, char)>
    decreases ps.len(),
{
    if ps.len() == 0 {
        Seq::empty()
    } else if ps[0].0 != ps[0].1 {
        seq![ps[0]] + unequal_pairs(ps.skip(1))
    } else {
        unequal_pairs(ps.skip(1))
    }
}

/// The first components of a pair sequence.
pub open spec fn firsts(ps: Seq<(char, char)>) -> Seq<char> {
    ps.map_values(|p: (char, char)| p.0)
}

/// The second components of a pair sequence.
pub open spec fn seconds(ps: Seq<(char, char)>) -> Seq<char> {
    ps.map_values(|p: (char, char)| p.1)
}

/// The hint's first component: positions where the two codes agree.
pub open spec fn correct_count(a: Seq<char>, b: Seq<char>) -> nat {
    equal_count(zipped(a, b))
}

/// The hint's second component: digits that occur in both codes but at
/// disagreeing positions, matched as a multiset.
pub open spec fn present_count(a: Seq<char>, b: Seq<char>) -> nat {
    multiset_matches(
        firsts(unequal_pairs(zipped(a, b))),
        seconds(unequal_pairs(zipped(a, b))),
    )
}

/// `s` with the first occurrence of `c` removed, or `s` itself when `c`
/// does not occur.
pub open spec fn remove_first(s: Seq<char>, c: char) -> Seq<char>
    decreases s.len(),
{
    if s.len() == 0 {
        s
    } else if s[0] == c {
        s.skip(1)
    } else {
        seq![s[0]] + remove_first(s.skip(1), c)
    }
}

/// The tally carried by a scoring accumulator.
pub fn tally(acc: (usize, Vec<char>)) -> (r: usize)
    ensures
        r == acc.0,
{
    acc.0
}

/// Pair two codes up position by position, truncating to the shorter one.
pub fn zip(a: Vec<char>, b: Vec<char>) -> (r: Vec<(char, char)>)
    ensures
        r@ == zipped(a@, b@),
{
    let n = if a.len() <= b.len() {
        a.len()
    } else {
        b.len()
    };
    let mut r: Vec<(char, char)> = Vec::new();
    let mut i: usize = 0;
    while i < n
        invariant
            i <= n,
            n == min_nat(a@.len(), b@.len()),
            a@.len() >= n && b@.len() >= n,
            r@ == zipped(a@, b@).take(i as int),
        decreases n - i,
    {
        r.push((a[i], b[i]));
        proof {
            assert(zipped(a@, b@).take(i + 1) =~= zipped(a@, b@).take(i as int).push(
                (a@[i as int], b@[i as int]),
            ));
        }
        i += 1;
    }
    proof {
        assert(zipped(a@, b@).take(n as int) =~= zipped(a@, b@));
    }
    r
}

/// Split a pair sequence back into its two columns.
pub fn unzip(pairs: Vec<(char, char)>) -> (r: (Vec<char>, Vec<char>))
    ensures
        r.0@ == firsts(pairs@),
        r.1@ == seconds(pairs@),
{
    let mut xs: Vec<char> = Vec::new();
    let mut ys: Vec<char> = Vec::new();
    let mut i: usize = 0;
    while i < pairs.len()
        invariant
            i <= pairs.len(),
            xs@ == firsts(pairs@).take(i as int),
            ys@ == seconds(pairs@).take(i as int),
        decreases pairs.len() - i,
    {
        xs.push(pairs[i].0);
        ys.push(pairs[i].1);
        proof {
            assert(firsts(pairs@).take(i + 1) =~= firsts(pairs@).take(i as int).push(
                pairs@[i as int].0,
            ));
            assert(seconds(pairs@).take(i + 1) =~= seconds(pairs@).take(i as int).push(
                pairs@[i as int].1,
            ));
        }
        i += 1;
    }
    proof {
        assert(firsts(pairs@).take(pairs@.len() as int) =~= firsts(pairs@));
        assert(seconds(pairs@).take(pairs@.len() as int) =~= seconds(pairs@));
    }
    (xs, ys)
}

/// Keep only the pairs whose two components differ.
pub fn unequal(pairs: Vec<(char, char)>) -> (r: Vec<(char, char)>)
    ensures
        r@ == unequal_pairs(pairs@),
{
    let mut r: Vec<(char, char)> = Vec::new();
    let mut i: usize = 0;
    proof {
        assert(pairs@.skip(0) =~= pairs@);
        assert(Seq::<(char, char)>::empty() + unequal_pairs(pairs@) =~= unequal_pairs(pairs@));
    }
    while i < pairs.len()
        invariant
            i <= pairs.len(),
            r@ + unequal_pairs(pairs@.skip(i as int)) == unequal_pairs(pairs@),
        decreases pairs.len() - i,
    {
        proof {
            assert(pairs@.skip(i as int)[0] == pairs@[i as int]);
            assert(pairs@.skip(i as int).skip(1) =~= pairs@.skip(i + 1));
        }
        let p = pairs[i];
        if p.0 != p.1 {
            r.push(p);
            proof {
                assert(unequal_pairs(pairs@.skip(i as int)) == seq![pairs@[i as int]]
                    + unequal_pairs(pairs@.skip(i + 1)));
                assert(r@ + unequal_pairs(pairs@.skip(i + 1)) =~= r@.drop_last() + (seq![
                    pairs@[i as int]] + unequal_pairs(pairs@.skip(i + 1))));
            }
        }
        i += 1;
    }
    proof {
        assert(pairs@.skip(pairs@.len() as int) =~= Seq::<(char, char)>::empty());
        assert(unequal_pairs(Seq::<(char, char)>::empty()) =~= Seq::<(char, char)>::empty());
        assert(r@ + Seq::<(char, char)>::empty() =~= r@);
    }
    r
}

/// Each pair sequence splits into its equal and its unequal pairs.
proof fn lemma_equal_plus_unequal(ps: Seq<(char, char)>)
    ensures
        equal_count(ps) + unequal_pairs(ps).len() == ps.len(),
    decreases ps.len(),
{
    if ps.len() > 0 {
        lemma_equal_plus_unequal(ps.skip(1));
    }
}

/// Appending a character raises its occurrence count by one and leaves
/// every other count unchanged.
proof fn lemma_occurrences_push(s: Seq<char>, x: char, c: char)
    ensures
        occurrences(s.push(x), c) == occurrences(s, c) + (if x == c {
            1nat
        } else {
            0nat
        }),
    decreases s.len(),
{
    if s.len() == 0 {
        assert(s.push(x)[0] == x);
        assert(s.push(x).skip(1) =~= s);
    } else {
        assert(s.push(x)[0] == s[0]);
        assert(s.push(x).skip(1) =~= s.skip(1).push(x));
        lemma_occurrences_push(s.skip(1), x, c);
    }
}

/// Prepending a character raises its occurrence count by one and leaves
/// every other count unchanged.
proof fn lemma_occurrences_cons(x: char, t: Seq<char>, c: char)
    ensures
        occurrences(seq![x] + t, c) == occurrences(t, c) + (if x == c {
            1nat
        } else {
            0nat
        }),
{
    assert((seq![x] + t)[0] == x);
    assert((seq![x] + t).skip(1) =~= t);
}

/// Removing the first occurrence of `d` lowers the count of `d` by one
/// and leaves every other count unchanged.
proof fn lemma_remove_first_occurrences(s: Seq<char>, d: char, c: char)
    requires
        occurrences(s, d) > 0,
    ensures
        occurrences(remove_first(s, d), c) == occurrences(s, c) - (if c == d {
            1nat
        } else {
            0nat
        }),
    decreases s.len(),
{
    if s[0] == d {
        assert(remove_first(s, d) == s.skip(1));
    } else {
        lemma_remove_first_occurrences(s.skip(1), d, c);
        lemma_occurrences_cons(s[0], remove_first(s.skip(1), d), c);
    }
}

/// Removing a character keeps every remaining character in the alphabet.
proof fn lemma_remove_first_digits(s: Seq<char>, d: char)
    requires
        all_code_digits(s),
    ensures
        all_code_digits(remove_first(s, d)),
    decreases s.len(),
{
    if s.len() == 0 {
    } else if s[0] == d {
        assert forall|j: int| 0 <= j < s.skip(1).len() implies is_code_digit(s.skip(1)[j]) by {
            assert(s.skip(1)[j] == s[j + 1]);
        }
    } else {
        assert forall|j: int| 0 <= j < s.skip(1).len() implies is_code_digit(s.skip(1)[j]) by {
            assert(s.skip(1)[j] == s[j + 1]);
        }
        lemma_remove_first_digits(s.skip(1), d);
        let t = seq![s[0]] + remove_first(s.skip(1), d);
        assert forall|j: int| 0 <= j < t.len() implies is_code_digit(t[j]) by {
            if j > 0 {
                assert(t[j] == remove_first(s.skip(1), d)[j - 1]);
            }
        }
    }
}

/// One step of the greedy matching: consuming the head digit of the guess
/// takes exactly one match when the secret still holds that digit, and
/// none otherwise.
proof fn lemma_matches_step(g: Seq<char>, s: Seq<char>)
    requires
        g.len() > 0,
        is_code_digit(g[0]),
    ensures
        occurrences(s, g[0]) > 0 ==> multiset_matches(g, s) == 1 + multiset_matches(
            g.skip(1),
            remove_first(s, g[0]),
        ),
        occurrences(s, g[0]) == 0 ==> multiset_matches(g, s) == multiset_matches(g.skip(1), s),
{
    let d = g[0];
    assert(occurrences(g, '1') == (if d == '1' {
        1nat
    } else {
        0nat
    }) + occurrences(g.skip(1), '1'));
    assert(occurrences(g, '2') == (if d == '2' {
        1nat
    } else {
        0nat
    }) + occurrences(g.skip(1), '2'));
    assert(occurrences(g, '3') == (if d == '3' {
        1nat
    } else {
        0nat
    }) + occurrences(g.skip(1), '3'));
    assert(occurrences(g, '4') == (if d == '4' {
        1nat
    } else {
        0nat
    }) + occurrences(g.skip(1), '4'));
    assert(occurrences(g, '5') == (if d == '5' {
        1nat
    } else {
        0nat
    }) + occurrences(g.skip(1), '5'));
    assert(occurrences(g, '6') == (if d == '6' {
        1nat
    } else {
        0nat
    }) + occurrences(g.skip(1), '6'));
    if occurrences(s, d) > 0 {
        lemma_remove_first_occurrences(s, d, '1');
        lemma_remove_first_occurrences(s, d, '2');
        lemma_remove_first_occurrences(s, d, '3');
        lemma_remove_first_occurrences(s, d, '4');
        lemma_remove_first_occurrences(s, d, '5');
        lemma_remove_first_occurrences(s, d, '6');
    }
}

/// Remove the first occurrence of a given digit from a code.
pub fn delete(x: char, xs: Vec<char>) -> (r: Vec<char>)
    ensures
        r@ == remove_first(xs@, x),
{
    let mut out: Vec<char> = Vec::new();
    let mut skipped = false;
    let mut i: usize = 0;
    proof {
        assert(xs@.take(0) =~= Seq::<char>::empty());
        assert(xs@.skip(0) =~= xs@);
        assert(remove_first(xs@, x) =~= xs@.take(0) + remove_first(xs@.skip(0), x));
    }
    while i < xs.len()
        invariant
            i <= xs.len(),
            skipped ==> out@ + xs@.skip(i as int) == remove_first(xs@, x),
            !skipped ==> out@ == xs@.take(i as int) && remove_first(xs@, x) == xs@.take(i as int)
                + remove_first(xs@.skip(i as int), x),
        decreases xs.len() - i,
    {
        proof {
            assert(xs@.skip(i as int)[0] == xs@[i as int]);
            assert(xs@.skip(i as int).skip(1) =~= xs@.skip(i + 1));
        }
        let c = xs[i];
        if !skipped && c == x {
            skipped = true;
            proof {
                assert(remove_first(xs@.skip(i as int), x) == xs@.skip(i + 1));
            }
        } else {
            out.push(c);
            proof {
                if skipped {
                    assert(out@ + xs@.skip(i + 1) =~= out@.drop_last() + xs@.skip(i as int));
                } else {
                    assert(out@ =~= xs@.take(i + 1));
                    assert(remove_first(xs@.skip(i as int), x) == seq![xs@[i as int]]
                        + remove_first(xs@.skip(i + 1), x));
                    assert(xs@.take(i as int) + (seq![xs@[i as int]] + remove_first(
                        xs@.skip(i + 1),
                        x,
                    )) =~= xs@.take(i + 1) + remove_first(xs@.skip(i + 1), x));
                }
            }
        }
        i += 1;
    }
    proof {
        assert(xs@.skip(xs@.len() as int) =~= Seq::<char>::empty());
        if skipped {
            assert(out@ + Seq::<char>::empty() =~= out@);
        } else {
            assert(xs@.take(xs@.len() as int) =~= xs@);
            assert(remove_first(Seq::<char>::empty(), x) =~= Seq::<char>::empty());
            assert(xs@ + Seq::<char>::empty() =~= xs@);
        }
    }
    out
}

/// Take an accumulator, containing a tally and secret code, and a digit.
/// Increment the tally and consume the digit's first occurrence if the
/// digit occurs in the code; otherwise hand the accumulator back as it is.
pub fn count(acc: (usize, Vec<char>), digit: char) -> (r: (usize, Vec<char>))
    requires
        acc.0 < usize::MAX,
    ensures
        occurrences(acc.1@, digit) > 0 ==> r.0 == acc.0 + 1 && r.1@ == remove_first(
            acc.1@,
            digit,
        ),
        occurrences(acc.1@, digit) == 0 ==> r.0 == acc.0 && r.1@ == acc.1@,
{
    let (so_far, secret) = acc;
    let mut has = false;
    let mut j: usize = 0;
    proof {
        assert(secret@.take(0) =~= Seq::<char>::empty());
    }
    while j < secret.len()
        invariant
            j <= secret.len(),
            has == (occurrences(secret@.take(j as int), digit) > 0),
        decreases secret.len() - j,
    {
        proof {
            assert(secret@.take(j + 1) =~= secret@.take(j as int).push(secret@[j as int]));
            lemma_occurrences_push(secret@.take(j as int), secret@[j as int], digit);
        }
        if secret[j] == digit {
            has = true;
        }
        j += 1;
    }
    proof {
        assert(secret@.take(secret@.len() as int) =~= secret@);
    }
    if has {
        (so_far + 1, delete(digit, secret))
    } else {
        (so_far, secret)
    }
}

/// Count the digits of the guess column that occur, unconsumed, in the
/// secret column: each guess digit spends one matching occurrence.
pub fn num_present(pairs: Vec<(char, char)>) -> (r: usize)
    requires
        all_code_digits(firsts(pairs@)),
        all_code_digits(seconds(pairs@)),
    ensures
        r == multiset_matches(firsts(pairs@), seconds(pairs@)),
{
    let ghost ps = pairs@;
    let (guess, secret) = unzip(pairs);
    let ghost s0 = secret@;
    let mut acc: (usize, Vec<char>) = (0, secret);
    let mut i: usize = 0;
    proof {
        assert(guess@.skip(0) =~= guess@);
    }
    while i < guess.len()
        invariant
            i <= guess.len(),
            guess@ == firsts(ps),
            all_code_digits(guess@),
            all_code_digits(acc.1@),
            acc.0 <= i,
            acc.0 + multiset_matches(guess@.skip(i as int), acc.1@) == multiset_matches(
                guess@,
                s0,
            ),
        decreases guess.len() - i,
    {
        let d = guess[i];
        proof {
            assert(is_code_digit(guess@[i as int]));
            assert(guess@.skip(i as int)[0] == guess@[i as int]);
            assert(guess@.skip(i as int).skip(1) =~= guess@.skip(i + 1));
            lemma_matches_step(guess@.skip(i as int), acc.1@);
            if occurrences(acc.1@, d) > 0 {
                lemma_remove_first_digits(acc.1@, d);
            }
        }
        acc = count(acc, d);
        i += 1;
    }
    proof {
        assert(guess@.skip(guess@.len() as int) =~= Seq::<char>::empty());
        assert(occurrences(Seq::<char>::empty(), '1') == 0);
        assert(occurrences(Seq::<char>::empty(), '2') == 0);
        assert(occurrences(Seq::<char>::empty(), '3') == 0);
        assert(occurrences(Seq::<char>::empty(), '4') == 0);
        assert(occurrences(Seq::<char>::empty(), '5') == 0);
        assert(occurrences(Seq::<char>::empty(), '6') == 0);
    }
    tally(acc)
}

/// Count the pairs guessed correctly in value and position.
pub fn num_correct(pairs: Vec<(char, char)>) -> (r: usize)
    ensures
        r == equal_count(pairs@),
{
    let ghost ps = pairs@;
    let n = pairs.len();
    let u = unequal(pairs);
    proof {
        lemma_equal_plus_unequal(ps);
    }
    n - u.len()
}

/// The columns of a pair sequence stay inside the alphabet when the pairs
/// with equal components are dropped.
proof fn lemma_unequal_digits(ps: Seq<(char, char)>)
    requires
        all_code_digits(firsts(ps)),
        all_code_digits(seconds(ps)),
    ensures
        all_code_digits(firsts(unequal_pairs(ps))),
        all_code_digits(seconds(unequal_pairs(ps))),
    decreases ps.len(),
{
    if ps.len() == 0 {
        assert(unequal_pairs(ps) =~= Seq::<(char, char)>::empty());
        assert(firsts(unequal_pairs(ps)).len() == 0);
        assert(seconds(unequal_pairs(ps)).len() == 0);
    } else {
        assert(firsts(ps.skip(1)) =~= firsts(ps).skip(1));
        assert(seconds(ps.skip(1)) =~= seconds(ps).skip(1));
        assert forall|j: int| 0 <= j < firsts(ps.skip(1)).len() implies is_code_digit(
            firsts(ps.skip(1))[j],
        ) by {
            assert(firsts(ps.skip(1))[j] == firsts(ps)[j + 1]);
        }
        assert forall|j: int| 0 <= j < seconds(ps.skip(1)).len() implies is_code_digit(
            seconds(ps.skip(1))[j],
        ) by {
            assert(seconds(ps.skip(1))[j] == seconds(ps)[j + 1]);
        }
        lemma_unequal_digits(ps.skip(1));
        if ps[0].0 != ps[0].1 {
            let u = seq![ps[0]] + unequal_pairs(ps.skip(1));
            assert(firsts(u) =~= seq![ps[0].0] + firsts(unequal_pairs(ps.skip(1))));
            assert(seconds(u) =~= seq![ps[0].1] + seconds(unequal_pairs(ps.skip(1))));
            assert(ps[0].0 == firsts(ps)[0] && ps[0].1 == seconds(ps)[0]);
            assert forall|j: int| 0 <= j < firsts(u).len() implies is_code_digit(
                firsts(u)[j],
            ) by {
                if j > 0 {
                    assert(firsts(u)[j] == firsts(unequal_pairs(ps.skip(1)))[j - 1]);
                }
            }
            assert forall|j: int| 0 <= j < seconds(u).len() implies is_code_digit(
                seconds(u)[j],
            ) by {
                if j > 0 {
                    assert(seconds(u)[j] == seconds(unequal_pairs(ps.skip(1)))[j - 1]);
                }
            }
        }
    }
}

/// The total number of alphabet digits in a sequence of alphabet digits
/// is its length.
proof fn lemma_digit_total_len(s: Seq<char>)
    requires
        all_code_digits(s),
    ensures
        occurrences(s, '1') + occurrences(s, '2') + occurrences(s, '3') + occurrences(s, '4')
            + occurrences(s, '5') + occurrences(s, '6') == s.len(),
    decreases s.len(),
{
    if s.len() > 0 {
        assert(is_code_digit(s[0]));
        assert forall|j: int| 0 <= j < s.skip(1).len() implies is_code_digit(s.skip(1)[j]) by {
            assert(s.skip(1)[j] == s[j + 1]);
        }
        lemma_digit_total_len(s.skip(1));
    }
}

/// Swapping the two codes swaps the two columns of the mismatched pairs
/// and keeps the number of agreeing positions.
proof fn lemma_swap(a: Seq<char>, b: Seq<char>)
    ensures
        equal_count(zipped(b, a)) == equal_count(zipped(a, b)),
        firsts(unequal_pairs(zipped(b, a))) == seconds(unequal_pairs(zipped(a, b))),
        seconds(unequal_pairs(zipped(b, a))) == firsts(unequal_pairs(zipped(a, b))),
    decreases a.len(),
{
    if a.len() == 0 || b.len() == 0 {
        assert(zipped(a, b) =~= Seq::<(char, char)>::empty());
        assert(zipped(b, a) =~= Seq::<(char, char)>::empty());
        assert(firsts(Seq::<(char, char)>::empty()) =~= Seq::<char>::empty());
        assert(seconds(Seq::<(char, char)>::empty()) =~= Seq::<char>::empty());
    } else {
        lemma_swap(a.skip(1), b.skip(1));
        let tab = zipped(a.skip(1), b.skip(1));
        let tba = zipped(b.skip(1), a.skip(1));
        assert(zipped(a, b) =~= seq![(a[0], b[0])] + tab);
        assert(zipped(b, a) =~= seq![(b[0], a[0])] + tba);
        assert((seq![(a[0], b[0])] + tab)[0] == (a[0], b[0]));
        assert((seq![(b[0], a[0])] + tba)[0] == (b[0], a[0]));
        assert((seq![(a[0], b[0])] + tab).skip(1) =~= tab);
        assert((seq![(b[0], a[0])] + tba).skip(1) =~= tba);
        if a[0] != b[0] {
            assert(unequal_pairs(zipped(a, b)) == seq![(a[0], b[0])] + unequal_pairs(tab));
            assert(unequal_pairs(zipped(b, a)) == seq![(b[0], a[0])] + unequal_pairs(tba));
            assert(firsts(seq![(a[0], b[0])] + unequal_pairs(tab)) =~= seq![a[0]] + firsts(
                unequal_pairs(tab),
            ));
            assert(seconds(seq![(a[0], b[0])] + unequal_pairs(tab)) =~= seq![b[0]] + seconds(
                unequal_pairs(tab),
            ));
            assert(firsts(seq![(b[0], a[0])] + unequal_pairs(tba)) =~= seq![b[0]] + firsts(
                unequal_pairs(tba),
            ));
            assert(seconds(seq![(b[0], a[0])] + unequal_pairs(tba)) =~= seq![a[0]] + seconds(
                unequal_pairs(tba),
            ));
        }
    }
}

/// Law: scoring is symmetric, the hint for `(a, b)` equals the hint for
/// `(b, a)`.
pub proof fn lemma_feedback_symmetric(a: Seq<char>, b: Seq<char>)
    ensures
        correct_count(a, b) == correct_count(b, a),
        present_count(a, b) == present_count(b, a),
{
    lemma_swap(a, b);
}

/// A code zipped against itself agrees everywhere.
proof fn lemma_zip_self(a: Seq<char>)
    ensures
        equal_count(zipped(a, a)) == a.len(),
        unequal_pairs(zipped(a, a)) == Seq::<(char, char)>::empty(),
    decreases a.len(),
{
    if a.len() == 0 {
        assert(zipped(a, a) =~= Seq::<(char, char)>::empty());
    } else {
        lemma_zip_self(a.skip(1));
        let t = zipped(a.skip(1), a.skip(1));
        assert(zipped(a, a) =~= seq![(a[0], a[0])] + t);
        assert((seq![(a[0], a[0])] + t)[0] == (a[0], a[0]));
        assert((seq![(a[0], a[0])] + t).skip(1) =~= t);
    }
}

/// Law: a code scored against itself is all correct, with nothing left
/// merely present.
pub proof fn lemma_feedback_identity(a: Seq<char>)
    requires
        valid_code(a),
    ensures
        correct_count(a, a) == 4,
        present_count(a, a) == 0,
{
    lemma_zip_self(a);
    assert(firsts(Seq::<(char, char)>::empty()) =~= Seq::<char>::empty());
    assert(seconds(Seq::<(char, char)>::empty()) =~= Seq::<char>::empty());
    assert(occurrences(Seq::<char>::empty(), '1') == 0);
    assert(occurrences(Seq::<char>::empty(), '2') == 0);
    assert(occurrences(Seq::<char>::empty(), '3') == 0);
    assert(occurrences(Seq::<char>::empty(), '4') == 0);
    assert(occurrences(Seq::<char>::empty(), '5') == 0);
    assert(occurrences(Seq::<char>::empty(), '6') == 0);
}

/// Law: the two hint counts together never exceed the code length.
pub proof fn lemma_feedback_bound(a: Seq<char>, b: Seq<char>)
    requires
        valid_code(a),
        valid_code(b),
    ensures
        correct_count(a, b) + present_count(a, b) <= 4,
{
    let zp = zipped(a, b);
    assert(zp.len() == 4);
    lemma_equal_plus_unequal(zp);
    assert forall|j: int| 0 <= j < firsts(zp).len() implies is_code_digit(firsts(zp)[j]) by {
        assert(firsts(zp)[j] == zp[j].0 && zp[j].0 == a[j]);
    }
    assert forall|j: int| 0 <= j < seconds(zp).len() implies is_code_digit(seconds(zp)[j]) by {
        assert(seconds(zp)[j] == zp[j].1 && zp[j].1 == b[j]);
    }
    lemma_unequal_digits(zp);
    let u = unequal_pairs(zp);
    lemma_digit_total_len(firsts(u));
    assert(firsts(u).len() == u.len());
}

/// Generate a secret code.
pub fn secret() -> (r: String)
    ensures
        valid_code(r@),
{
    code::random()
}

/// Take a secret code and a guess, and return a hint with the number
/// of correctly guessed digits and the number of digits that are not
/// correct but do occur in the secret.
/// This function is symmetric, i.e. f(a, b) = f(b, a).
pub fn feedback(s1: String, s2: String) -> (r: Result<(usize, usize), ParseError>)
    ensures
        match r {
            Ok(hint) => valid_code(s1@) && valid_code(s2@) && hint.0 == correct_count(s1@, s2@)
                && hint.1 == present_count(s1@, s2@) && hint.0 + hint.1 <= 4,
            Err(e) => (!valid_code(s1@) && spec_parse(s1@) == Err::<Seq<char>, ParseError>(e)) || (
            valid_code(s1@) && !valid_code(s2@) && spec_parse(s2@) == Err::<Seq<char>, ParseError>(
                e,
            )),
        },
{
    let code1 = match code::parse(s1.as_str()) {
        Ok(c) => c,
        Err(e) => {
            return Err(e);
        },
    };
    let code2 = match code::parse(s2.as_str()) {
        Ok(c) => c,
        Err(e) => {
            return Err(e);
        },
    };
    let ghost a = code1@;
    let ghost b = code2@;
    let pairs = zip(code1, code2);
    let ghost zp = pairs@;
    let n = pairs.len();
    let u = unequal(pairs);
    proof {
        lemma_equal_plus_unequal(zp);
        assert forall|j: int| 0 <= j < firsts(zp).len() implies is_code_digit(firsts(zp)[j]) by {
            assert(firsts(zp)[j] == zp[j].0 && zp[j].0 == a[j]);
        }
        assert forall|j: int| 0 <= j < seconds(zp).len() implies is_code_digit(
            seconds(zp)[j],
        ) by {
            assert(seconds(zp)[j] == zp[j].1 && zp[j].1 == b[j]);
        }
        lemma_unequal_digits(zp);
        lemma_feedback_bound(a, b);
    }
    let correct = n - u.len();
    let present = num_present(u);
    Ok((correct, present))
}

/// A run of `n` copies of one character.
pub open spec fn repeated(c: char, n: nat) -> Seq<char> {
    Seq::new(n, |i: int| c)
}

/// What `show` renders: a filled dot for each correct digit, an empty dot
/// for each merely present digit, and a fixed advisory line for a parse
/// error.
pub open spec fn spec_show(hint: Result<(usize, usize), ParseError>) -> Seq<char> {
    match hint {
        Ok(h) => repeated('●', h.0 as nat) + repeated('○', h.1 as nat),
        Err(ParseError::InvalidDigits) => "each digit should be between 1 and 6, e.g. 1234"@,
        Err(_) => "please enter 4 digits"@,
    }
}

/// Format a hint as a sequence of solid ● and empty ○ dots. A ● for each
/// correct digit, and a ○ for each digit that occurs in the secret code
/// but in the wrong position.
pub fn show(hint: Result<(usize, usize), ParseError>) -> (r: String)
    ensures
        r@ == spec_show(hint),
{
    match hint {
        Ok((correct, present)) => {
            proof {
                reveal_strlit("●");
                reveal_strlit("○");
            }
            let mut out = String::new();
            let mut k: usize = 0;
            while k < correct
                invariant
                    k <= correct,
                    out@ =~= repeated('●', k as nat),
                decreases correct - k,
            {
                out.append("●");
                proof {
                    reveal_strlit("●");
                    assert(out@ =~= repeated('●', (k + 1) as nat));
                }
                k += 1;
            }
            let mut j: usize = 0;
            while j < present
                invariant
                    j <= present,
                    out@ =~= repeated('●', correct as nat) + repeated('○', j as nat),
                decreases present - j,
            {
                out.append("○");
                proof {
                    reveal_strlit("○");
                    assert(out@ =~= repeated('●', correct as nat) + repeated(
                        '○',
                        (j + 1) as nat,
                    ));
                }
                j += 1;
            }
            proof {
                assert(repeated('○', 0) =~= Seq::<char>::empty());
            }
            out
        },
        Err(error) => match error {
            ParseError::StringTooShort | ParseError::StringTooLong => String::from_str(
                "please enter 4 digits",
            ),
            ParseError::InvalidDigits => String::from_str(
                "each digit should be between 1 and 6, e.g. 1234",
            ),
        },
    }
}

} // verus!

