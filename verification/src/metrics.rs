//! Text metrics.
//!
//! The unique-word ratio of a text is `(distinct tokens + alpha) divided by
//! (total tokens + alpha)`: the text is stripped of a fixed punctuation set
//! and split on single spaces, empty tokens counted, and `alpha` is a
//! smoothing constant that softens the ratio for short texts.  The ratio is
//! computed exactly.

use vstd::prelude::*;

use vstd::std_specs::iter::IteratorSpec;

use crate::ratio::{norm_parts, rat_eq, rat_fits, rat_norm, Rat, Ratio};

verus! {

/// The punctuation stripped before tokenizing.
pub open spec fn is_punct(c: char) -> bool {
    c == '.' || c == '!' || c == '?' || c == '-' || c == ','
}

/// The text with the punctuation removed.
pub open spec fn stripped(s: Seq<char>) -> Seq<char> {
    s.filter(|c: char| !is_punct(c))
}

/// The tokens of a text: the pieces between single spaces, empty pieces
/// kept, so a text always has at least one token.
pub open spec fn tokens_spec(s: Seq<char>) -> Seq<Seq<char>>
    decreases s.len(),
{
    if s.len() == 0 {
        seq![Seq::<char>::empty()]
    } else {
        let rest = tokens_spec(s.drop_last());
        if s.last() == ' ' {
            rest.push(Seq::<char>::empty())
        } else {
            rest.update(rest.len() - 1, rest.last().push(s.last()))
        }
    }
}

pub proof fn lemma_tokens_len(s: Seq<char>)
    ensures
        tokens_spec(s).len() >= 1,
        tokens_spec(s).len() <= s.len() + 1,
    decreases s.len(),
{
    if s.len() > 0 {
        lemma_tokens_len(s.drop_last());
    }
}

/// A token that differs from every earlier token: the distinct-token count
/// is the number of such first appearances.
pub open spec fn is_first(toks: Seq<Seq<char>>, i: int) -> bool {
    forall|j: int| 0 <= j < i ==> toks[j] != toks[i]
}

pub open spec fn distinct_count(toks: Seq<Seq<char>>) -> int
    decreases toks.len(),
{
    if toks.len() == 0 {
        0
    } else {
        distinct_count(toks.drop_last()) + if is_first(toks, toks.len() - 1) {
            1int
        } else {
            0int
        }
    }
}

pub proof fn lemma_distinct_bounds(toks: Seq<Seq<char>>)
    ensures
        0 <= distinct_count(toks) <= toks.len(),
    decreases toks.len(),
{
    if toks.len() > 0 {
        lemma_distinct_bounds(toks.drop_last());
    }
}

/// The unique-word ratio as an exact rational:
/// `(distinct + alpha) / (total + alpha)`.
pub open spec fn ratio_spec(s: Seq<char>, alpha: Rat) -> Rat {
    let toks = tokens_spec(stripped(s));
    Rat {
        num: distinct_count(toks) * alpha.den + alpha.num,
        den: toks.len() * alpha.den + alpha.num,
    }
}

/// Collects the characters of a text.
fn chars_of(s: &str) -> (out: Vec<char>)
    ensures
        out@ == s@,
{
    let mut out: Vec<char> = Vec::new();
    let mut it = s.chars();
    loop
        invariant
            it.obeys_prophetic_iter_laws(),
            it.decrease() is Some,
            out@ + it.remaining() == s@,
        decreases it.decrease()->0,
    {
        let ghost prev = it;
        match it.next() {
            Some(c) => {
                out.push(c);
                proof {
                    vstd::string::next_postcondition(&prev, &it, Some(c));
                    assert(out@ + it.remaining() =~= s@);
                }
            },
            None => {
                proof {
                    vstd::string::next_postcondition(&prev, &it, None);
                    assert(out@ =~= s@);
                }
                return out;
            },
        }
    }
}

/// Splits the stripped text into tokens.
fn token_list(text: &Vec<char>) -> (toks: Vec<Vec<char>>)
    ensures
        toks@.map_values(|t: Vec<char>| t@) == tokens_spec(stripped(text@)),
{
    let n = text.len();
    let mut toks: Vec<Vec<char>> = Vec::new();
    let mut cur: Vec<char> = Vec::new();
    let mut i: usize = 0;
    proof {
        reveal_with_fuel(Seq::filter, 2);
        assert(text@.take(0) =~= Seq::<char>::empty());
        assert(stripped(text@.take(0)) =~= Seq::<char>::empty());
        assert(tokens_spec(stripped(text@.take(0))) =~= seq![Seq::<char>::empty()]);
        assert(toks@.map_values(|t: Vec<char>| t@).push(cur@) =~= seq![Seq::<char>::empty()]);
    }
    while i < n
        invariant
            n == text@.len(),
            0 <= i <= n,
            toks@.map_values(|t: Vec<char>| t@).push(cur@) == tokens_spec(
                stripped(text@.take(i as int)),
            ),
        decreases n - i,
    {
        let c = text[i];
        let ghost stripped_before = stripped(text@.take(i as int));
        proof {
            reveal_with_fuel(Seq::filter, 2);
            assert(text@.take(i as int + 1).drop_last() =~= text@.take(i as int));
            assert(text@.take(i as int + 1).last() == text@[i as int]);
            assert(stripped(text@.take(i as int + 1)) == if is_punct(text@[i as int]) {
                stripped_before
            } else {
                stripped_before.push(text@[i as int])
            });
            if !is_punct(text@[i as int]) {
                assert(stripped_before.push(text@[i as int]).drop_last() =~= stripped_before);
            }
        }
        if c == '.' || c == '!' || c == '?' || c == '-' || c == ',' {
            // stripped away
        } else if c == ' ' {
            let ghost toks_before = toks@;
            toks.push(cur);
            cur = Vec::new();
            proof {
                assert(toks@.map_values(|t: Vec<char>| t@) =~= toks_before.map_values(
                    |t: Vec<char>| t@,
                ).push(toks@.last()@));
                assert(toks@.map_values(|t: Vec<char>| t@).push(cur@) =~= tokens_spec(
                    stripped(text@.take(i as int + 1)),
                ));
            }
        } else {
            let ghost cur_before = cur@;
            cur.push(c);
            proof {
                let m = toks@.map_values(|t: Vec<char>| t@);
                let full = tokens_spec(stripped(text@.take(i as int + 1)));
                let prevfull = tokens_spec(stripped_before);
                assert(prevfull == m.push(cur_before));
                assert(full == prevfull.update(prevfull.len() - 1, prevfull.last().push(
                    text@[i as int],
                )));
                assert(prevfull.last() == cur_before);
                assert(m.push(cur_before).update(m.len() as int, cur_before.push(c)) =~= m.push(
                    cur_before.push(c),
                ));
                assert(m.push(cur@) =~= full);
            }
        }
        i = i + 1;
    }
    proof {
        assert(text@.take(n as int) =~= text@);
    }
    toks.push(cur);
    toks
}

fn same_token(a: &Vec<char>, b: &Vec<char>) -> (r: bool)
    ensures
        r == (a@ == b@),
{
    let n = a.len();
    if n != b.len() {
        proof {
            assert(a@.len() != b@.len());
        }
        return false;
    }
    let mut i: usize = 0;
    while i < n
        invariant
            n == a@.len(),
            n == b@.len(),
            0 <= i <= n,
            forall|j: int| 0 <= j < i ==> a@[j] == b@[j],
        decreases n - i,
    {
        if a[i] != b[i] {
            return false;
        }
        i = i + 1;
    }
    proof {
        assert(a@ =~= b@);
    }
    true
}

/// Whether the token at `i` already appears among the earlier tokens.
fn token_seen(toks: &Vec<Vec<char>>, i: usize) -> (r: bool)
    requires
        i < toks@.len(),
    ensures
        r == exists|x: int| 0 <= x < i && (#[trigger] toks@[x])@ == toks@[i as int]@,
{
    let mut j: usize = 0;
    while j < i
        invariant
            i < toks@.len(),
            0 <= j <= i,
            forall|x: int| 0 <= x < j ==> (#[trigger] toks@[x])@ != toks@[i as int]@,
        decreases i - j,
    {
        if same_token(&toks[j], &toks[i]) {
            return true;
        }
        j = j + 1;
    }
    false
}

/// The number of distinct tokens in the list.
fn count_distinct(toks: &Vec<Vec<char>>) -> (r: usize)
    ensures
        r == distinct_count(toks@.map_values(|t: Vec<char>| t@)),
{
    let n = toks.len();
    let ghost m = toks@.map_values(|t: Vec<char>| t@);
    let mut r: usize = 0;
    let mut i: usize = 0;
    proof {
        assert(m.take(0) =~= Seq::<Seq<char>>::empty());
    }
    while i < n
        invariant
            n == toks@.len(),
            m == toks@.map_values(|t: Vec<char>| t@),
            0 <= i <= n,
            r <= i,
            r == distinct_count(m.take(i as int)),
        decreases n - i,
    {
        let seen_before = token_seen(toks, i);
        proof {
            let pre = m.take(i as int + 1);
            assert(pre.drop_last() =~= m.take(i as int));
            assert(pre.last() == m[i as int]);
            assert(is_first(pre, pre.len() - 1) == !seen_before) by {
                if seen_before {
                    let x = choose|x: int|
                        0 <= x < i && (#[trigger] toks@[x])@ == toks@[i as int]@;
                    assert(m[x] == toks@[x]@);
                    assert(m[i as int] == toks@[i as int]@);
                    assert(pre[x] == pre[pre.len() - 1]);
                } else {
                    assert forall|y: int| 0 <= y < pre.len() - 1 implies #[trigger] pre[y]
                        != pre[pre.len() - 1] by {
                        assert(pre[y] == m[y]);
                        assert(m[y] == toks@[y]@);
                        assert(m[i as int] == toks@[i as int]@);
                    }
                }
            }
            lemma_distinct_bounds(m.take(i as int));
        }
        if !seen_before {
            r = r + 1;
        }
        i = i + 1;
    }
    proof {
        assert(m.take(n as int) =~= m);
    }
    r
}

/// The unique-word ratio of `s` with smoothing constant `alpha`, exact.
/// `None` exactly when the reduced ratio leaves the magnitude bound.
pub fn unique_words_per_word(s: &str, alpha: &Ratio) -> (r: Option<Ratio>)
    requires
        alpha.wf(),
        alpha@.num >= 0,
    ensures
        match r {
            Some(q) => q.wf() && q@ == rat_norm(ratio_spec(s@, alpha@)) && rat_eq(
                q@,
                ratio_spec(s@, alpha@),
            ),
            None => !rat_fits(rat_norm(ratio_spec(s@, alpha@))),
        },
{
    let text = chars_of(s);
    let toks = token_list(&text);
    let distinct = count_distinct(&toks);
    let total = toks.len();
    let ghost tspec = tokens_spec(stripped(s@));
    proof {
        lemma_tokens_len(stripped(s@));
        lemma_distinct_bounds(tspec);
        assert(toks@.len() == tspec.len());
        assert(total >= 1);
    }
    proof {
        crate::ratio::lemma_mul_bound(distinct as int, alpha.den as int, 0x10000000000000000, 131072);
        crate::ratio::lemma_mul_bound(total as int, alpha.den as int, 0x10000000000000000, 131072);
    }
    let num = (distinct as i128) * (alpha.den as i128) + (alpha.num as i128);
    let den = (total as i128) * (alpha.den as i128) + (alpha.num as i128);
    proof {
        assert(den >= 1) by (nonlinear_arith)
            requires
                den == (total as i128) * (alpha.den as i128) + (alpha.num as i128),
                total >= 1,
                alpha.den >= 1,
                alpha.num >= 0,
        ;
    }
    norm_parts(num, den)
}

} // verus!
