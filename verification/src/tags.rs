//! The textual tag-list format.
//!
//! A post's tag list travels as a string: empty for no tags, otherwise the
//! canonical decimal ids between brackets, separated by a comma and a
//! space, as in `[1, 2, 3]`.  The printer is exact; the parser accepts
//! exactly such canonical prints and returns the printed list.

use vstd::prelude::*;

verus! {

/// The digit characters.
pub open spec fn digit_char(d: int) -> char {
    if d == 0 {
        '0'
    } else if d == 1 {
        '1'
    } else if d == 2 {
        '2'
    } else if d == 3 {
        '3'
    } else if d == 4 {
        '4'
    } else if d == 5 {
        '5'
    } else if d == 6 {
        '6'
    } else if d == 7 {
        '7'
    } else if d == 8 {
        '8'
    } else {
        '9'
    }
}

/// The canonical decimal print of a nonnegative number.
pub open spec fn dec_spec(n: int) -> Seq<char>
    decreases n,
{
    if n < 10 {
        seq![digit_char(n)]
    } else {
        dec_spec(n / 10).push(digit_char(n % 10))
    }
}

pub open spec fn inner_spec(v: Seq<i32>) -> Seq<char>
    decreases v.len(),
{
    if v.len() == 0 {
        Seq::empty()
    } else if v.len() == 1 {
        dec_spec(v[0] as int)
    } else {
        inner_spec(v.drop_last()) + seq![','] + seq![' '] + dec_spec(v.last() as int)
    }
}

/// The print of a whole tag list: nothing for an empty list, else the ids
/// between brackets.
pub open spec fn format_tags_spec(v: Seq<i32>) -> Seq<char> {
    if v.len() == 0 {
        Seq::empty()
    } else {
        seq!['['] + inner_spec(v) + seq![']']
    }
}

pub open spec fn all_nonneg(v: Seq<i32>) -> bool {
    forall|i: int| 0 <= i < v.len() ==> #[trigger] v[i] >= 0
}

fn digit_char_exec(d: i32) -> (c: char)
    requires
        0 <= d <= 9,
    ensures
        c == digit_char(d as int),
{
    match d {
        0 => '0',
        1 => '1',
        2 => '2',
        3 => '3',
        4 => '4',
        5 => '5',
        6 => '6',
        7 => '7',
        8 => '8',
        _ => '9',
    }
}

fn push_dec(out: &mut Vec<char>, n: i32)
    requires
        n >= 0,
    ensures
        final(out)@ == old(out)@ + dec_spec(n as int),
    decreases n,
{
    if n < 10 {
        out.push(digit_char_exec(n));
        proof {
            assert(final(out)@ =~= old(out)@ + dec_spec(n as int));
        }
    } else {
        push_dec(out, n / 10);
        out.push(digit_char_exec(n % 10));
        proof {
            assert(final(out)@ =~= old(out)@ + dec_spec(n as int));
        }
    }
}

/// Prints a tag list in the canonical format.
pub fn format_tags(tags: &Vec<i32>) -> (out: Vec<char>)
    requires
        all_nonneg(tags@),
    ensures
        out@ == format_tags_spec(tags@),
{
    let n = tags.len();
    let mut out: Vec<char> = Vec::new();
    if n == 0 {
        return out;
    }
    out.push('[');
    let mut i: usize = 0;
    proof {
        assert(tags@.take(0) =~= Seq::<i32>::empty());
        assert(out@ =~= seq!['['] + inner_spec(tags@.take(0)));
    }
    while i < n
        invariant
            n == tags@.len(),
            all_nonneg(tags@),
            0 < n,
            0 <= i <= n,
            out@ == seq!['['] + inner_spec(tags@.take(i as int)),
        decreases n - i,
    {
        proof {
            assert(tags@.take(i as int + 1).drop_last() =~= tags@.take(i as int));
            assert(tags@.take(i as int + 1).last() == tags@[i as int]);
        }
        if i > 0 {
            out.push(',');
            out.push(' ');
        }
        push_dec(&mut out, tags[i]);
        proof {
            if i == 0 {
                assert(out@ =~= seq!['['] + inner_spec(tags@.take(1)));
            } else {
                assert(out@ =~= seq!['['] + (inner_spec(tags@.take(i as int)) + seq![',']
                    + seq![' '] + dec_spec(tags@[i as int] as int)));
            }
        }
        i = i + 1;
    }
    out.push(']');
    proof {
        assert(tags@.take(n as int) =~= tags@);
        assert(out@ =~= format_tags_spec(tags@));
    }
    out
}

/// A canonical print is at least one character long and all digits.
proof fn lemma_dec_shape(n: int)
    requires
        n >= 0,
    ensures
        dec_spec(n).len() >= 1,
        forall|i: int| 0 <= i < dec_spec(n).len() ==> is_digit_spec(#[trigger] dec_spec(n)[i]),
        (dec_spec(n)[0] == '0') == (n == 0),
    decreases n,
{
    if n < 10 {
        assert(dec_spec(n) == seq![digit_char(n)]);
    } else {
        lemma_dec_shape(n / 10);
        let d = dec_spec(n);
        let d2 = dec_spec(n / 10);
        assert(d == d2.push(digit_char(n % 10)));
        assert(d[0] == d2[0]);
        assert(forall|i: int| 0 <= i < d2.len() ==> d[i] == d2[i]);
        assert(is_digit_spec(d[d.len() - 1]));
    }
}

/// The numeric value of a digit string.
pub open spec fn dec_val(s: Seq<char>) -> int
    decreases s.len(),
{
    if s.len() == 0 {
        0
    } else {
        dec_val(s.drop_last()) * 10 + digit_char_of(s.last())
    }
}

/// Printing and reading back a number is the identity.
proof fn lemma_dec_val_inverse(n: int)
    requires
        n >= 0,
    ensures
        dec_val(dec_spec(n)) == n,
    decreases n,
{
    if n < 10 {
        assert(dec_spec(n) == seq![digit_char(n)]);
        assert(dec_spec(n).drop_last() =~= Seq::<char>::empty());
        assert(dec_val(Seq::<char>::empty()) == 0);
        assert(dec_spec(n).last() == digit_char(n));
        assert(digit_char_of(digit_char(n)) == n);
        assert(dec_val(dec_spec(n)) == 0 * 10 + digit_char_of(digit_char(n)));
    } else {
        lemma_dec_val_inverse(n / 10);
        let d = dec_spec(n);
        assert(d.drop_last() =~= dec_spec(n / 10));
        assert(d.last() == digit_char(n % 10));
        assert(digit_char_of(digit_char(n % 10)) == n % 10);
        vstd::arithmetic::div_mod::lemma_fundamental_div_mod(n, 10);
        assert((n / 10) * 10 + n % 10 == n) by (nonlinear_arith)
            requires
                n == 10 * (n / 10) + n % 10,
        ;
    }
}

/// The value read from a prefix of a canonical print never exceeds the
/// printed number.
proof fn lemma_dec_prefix(n: int, k: int)
    requires
        n >= 0,
        1 <= k <= dec_spec(n).len(),
    ensures
        0 <= dec_val(dec_spec(n).take(k)) <= n,
    decreases n,
{
    let d = dec_spec(n);
    if n < 10 {
        assert(d.take(1) =~= d);
        lemma_dec_val_inverse(n);
    } else {
        let d2 = dec_spec(n / 10);
        assert(d == d2.push(digit_char(n % 10)));
        if k <= d2.len() {
            assert(d.take(k) =~= d2.take(k));
            lemma_dec_prefix(n / 10, k);
        } else {
            assert(d.take(k) =~= d);
            lemma_dec_val_inverse(n);
        }
    }
}

/// The printed tags from position `j` on: each preceded by the separator.
pub open spec fn tail_spec(v: Seq<i32>, j: int) -> Seq<char>
    decreases v.len() - j,
{
    if j < 0 || j >= v.len() {
        Seq::empty()
    } else {
        seq![','] + seq![' '] + dec_spec(v[j] as int) + tail_spec(v, j + 1)
    }
}

proof fn lemma_tail_drop_last(v: Seq<i32>, j: int)
    requires
        0 <= j <= v.len() - 1,
    ensures
        tail_spec(v, j) == tail_spec(v.drop_last(), j) + seq![','] + seq![' '] + dec_spec(
            v.last() as int,
        ),
    decreases v.len() - j,
{
    let dl = v.drop_last();
    if j == v.len() - 1 {
        assert(tail_spec(v, j + 1) =~= Seq::<char>::empty());
        assert(tail_spec(dl, j) =~= Seq::<char>::empty());
        assert(tail_spec(v, j) =~= tail_spec(dl, j) + seq![','] + seq![' '] + dec_spec(
            v.last() as int,
        ));
    } else {
        assert(dl[j] == v[j]);
        lemma_tail_drop_last(v, j + 1);
        assert(tail_spec(v, j) =~= tail_spec(dl, j) + seq![','] + seq![' '] + dec_spec(
            v.last() as int,
        ));
    }
}

/// A nonempty print decomposes as the first number and the separated rest.
proof fn lemma_inner_front(v: Seq<i32>)
    requires
        v.len() >= 1,
    ensures
        inner_spec(v) == dec_spec(v[0] as int) + tail_spec(v, 1),
    decreases v.len(),
{
    if v.len() == 1 {
        assert(tail_spec(v, 1) =~= Seq::<char>::empty());
        assert(inner_spec(v) =~= dec_spec(v[0] as int) + tail_spec(v, 1));
    } else {
        let dl = v.drop_last();
        lemma_inner_front(dl);
        lemma_tail_drop_last(v, 1);
        assert(dl[0] == v[0]);
        assert(inner_spec(v) =~= dec_spec(v[0] as int) + tail_spec(v, 1));
    }
}

/// Parses a printed tag list.  A successful parse is exact: the returned
/// list reprints to the very input, so only canonical prints are accepted
/// and the ids returned are the ids printed; and every canonical print is
/// accepted.
#[verifier::rlimit(100)]
pub fn parse_tags(text: &Vec<char>) -> (r: Option<Vec<i32>>)
    ensures
        match r {
            Some(v) => all_nonneg(v@) && format_tags_spec(v@) == text@,
            None => true,
        },
        (exists|w: Seq<i32>| all_nonneg(w) && format_tags_spec(w) == text@) ==> r is Some,
{
    let ghost can = exists|w: Seq<i32>| all_nonneg(w) && format_tags_spec(w) == text@;
    let ghost v: Seq<i32> = if can {
        choose|w: Seq<i32>| all_nonneg(w) && format_tags_spec(w) == text@
    } else {
        Seq::empty()
    };
    let n = text.len();
    let mut out: Vec<i32> = Vec::new();
    if n == 0 {
        proof {
            assert(format_tags_spec(out@) =~= text@);
        }
        return Some(out);
    }
    proof {
        if can {
            assert(v.len() >= 1);
            lemma_inner_front(v);
            lemma_dec_shape(v[0] as int);
            assert(text@ == seq!['['] + inner_spec(v) + seq![']']);
            assert(text@[0] == '[');
            assert(text@[n - 1] == ']');
            assert(n >= 3);
        }
    }
    if n < 3 || text[0] != '[' || text[n - 1] != ']' {
        return None;
    }
    let mut pos: usize = 1;
    proof {
        if can {
            assert(text@.skip(1) =~= inner_spec(v) + seq![']']);
            assert(text@.skip(1) =~= dec_spec(v[0] as int) + tail_spec(v, 1) + seq![']']);
        }
    }
    loop
        invariant
            n == text@.len(),
            3 <= n,
            text@[0] == '[',
            text@[n - 1] == ']',
            1 <= pos < n,
            all_nonneg(out@),
            out@.len() == 0 ==> pos == 1,
            out@.len() > 0 ==> seq!['['] + inner_spec(out@) == text@.take(pos as int),
            can == exists|w: Seq<i32>| all_nonneg(w) && format_tags_spec(w) == text@,
            can ==> v.len() >= 1 && all_nonneg(v) && text@ == seq!['['] + inner_spec(v) + seq![
                ']',
            ],
            can ==> out@.len() <= v.len() && out@ == v.take(out@.len() as int),
            can && out@.len() == 0 ==> text@.skip(1) == dec_spec(v[0] as int) + tail_spec(v, 1)
                + seq![']'],
            can && out@.len() > 0 ==> text@.skip(pos as int) == tail_spec(
                v,
                out@.len() as int,
            ) + seq![']'],
        ensures
            pos == n - 1,
            out@.len() > 0,
        decreases n - pos,
    {
        let ghost j = out@.len() as int;
        let ghost out_at_entry = out@;
        // between entries: the closing bracket ends the list, a separator
        // continues it
        if out.len() > 0 {
            if seq_done(text, pos) {
                break;
            }
            proof {
                if can {
                    if j == v.len() {
                        assert(tail_spec(v, j) =~= Seq::<char>::empty());
                        assert(text@.skip(pos as int) =~= seq![']']);
                        assert(n - pos == 1);
                        assert(text@[pos as int] == text@.skip(pos as int)[0]);
                        assert(false);
                    }
                    lemma_dec_shape(v[j] as int);
                    assert(text@.skip(pos as int) == (seq![','] + seq![' '] + dec_spec(
                        v[j] as int,
                    ) + tail_spec(v, j + 1)) + seq![']']);
                    assert(text@[pos as int] == text@.skip(pos as int)[0]);
                    assert(text@[pos as int + 1] == text@.skip(pos as int)[1]);
                    assert(n - pos >= 4);
                }
            }
            if pos >= n - 2 || text[pos] != ',' || text[pos + 1] != ' ' {
                return None;
            }
            let ghost before = text@.take(pos as int);
            pos = pos + 2;
            proof {
                assert(text@.take(pos as int) =~= before + seq![','] + seq![' ']);
                if can {
                    assert(text@.skip(pos as int) =~= text@.skip(pos as int - 2).skip(2));
                    assert(((seq![','] + seq![' '] + dec_spec(v[j] as int) + tail_spec(v, j + 1))
                        + seq![']']).skip(2) =~= dec_spec(v[j] as int) + tail_spec(v, j + 1)
                        + seq![']']);
                    assert(text@.skip(pos as int) =~= dec_spec(v[j] as int) + tail_spec(
                        v,
                        j + 1,
                    ) + seq![']']);
                }
            }
        }
        // the prefix read so far prints '[', the tags so far, and a
        // separator when at least one tag was read
        let start = pos;
        let ghost prefix = text@.take(start as int);
        proof {
            if out_at_entry.len() == 0 {
                assert(prefix =~= seq!['[']);
            }
            if can {
                assert(j < v.len());
                assert(text@.skip(start as int) == dec_spec(v[j] as int) + tail_spec(v, j + 1)
                    + seq![']']);
                assert(text@.subrange(start as int, start as int) =~= dec_spec(
                    v[j] as int,
                ).take(0));
            }
        }
        // one canonical decimal number
        let mut value: i32 = 0;
        let mut digits: usize = 0;
        while pos < n - 1 && is_digit(text[pos])
            invariant
                n == text@.len(),
                3 <= n,
                start <= pos <= n - 1,
                digits == pos - start,
                0 <= value,
                digits > 0 ==> dec_spec(value as int) == text@.subrange(
                    start as int,
                    pos as int,
                ),
                digits > 0 && value == 0 ==> pos == start + 1,
                digits == 0 ==> value == 0,
                can == exists|w: Seq<i32>| all_nonneg(w) && format_tags_spec(w) == text@,
                can ==> 0 <= j < v.len() && all_nonneg(v),
                can ==> text@.skip(start as int) == dec_spec(v[j] as int) + tail_spec(v, j + 1)
                    + seq![']'],
                can ==> pos - start <= dec_spec(v[j] as int).len(),
                can ==> text@.subrange(start as int, pos as int) == dec_spec(v[j] as int).take(
                    pos - start,
                ),
            decreases n - pos,
        {
            proof {
                if can {
                    let dj = dec_spec(v[j] as int);
                    let k = pos - start;
                    lemma_dec_shape(v[j] as int);
                    if k == dj.len() {
                        // the number is over; the guard's digit contradicts
                        // the separator or bracket that follows
                        if j + 1 < v.len() {
                            assert(tail_spec(v, j + 1) == seq![','] + seq![' '] + dec_spec(
                                v[j + 1] as int,
                            ) + tail_spec(v, j + 2));
                            assert(text@[pos as int] == text@.skip(start as int)[k]);
                            assert(text@[pos as int] == ',');
                        } else {
                            assert(tail_spec(v, j + 1) =~= Seq::<char>::empty());
                            assert(text@[pos as int] == text@.skip(start as int)[k]);
                            assert(text@[pos as int] == ']');
                        }
                        assert(false);
                    }
                    assert(k < dj.len());
                    assert(text@[pos as int] == text@.skip(start as int)[k]);
                    assert(text@[pos as int] == dj[k]);
                }
            }
            let d = digit_value(text[pos]);
            if digits > 0 && value == 0 {
                // a leading zero is not canonical
                proof {
                    if can {
                        let dj = dec_spec(v[j] as int);
                        let k = pos - start;
                        assert(dec_spec(0) == seq![digit_char(0)]);
                        assert(dj.take(k) == dec_spec(value as int));
                        assert(dj[0] == dj.take(k)[0]);
                        lemma_dec_shape(v[j] as int);
                        assert(v[j] as int == 0);
                        assert(dj.len() == 1);
                        assert(false);
                    }
                }
                return None;
            }
            if value > (i32::MAX - d) / 10 {
                proof {
                    if can {
                        let dj = dec_spec(v[j] as int);
                        let k = pos - start;
                        if digits > 0 {
                            lemma_dec_val_inverse(value as int);
                            assert(dec_val(dj.take(k)) == value);
                        } else {
                            assert(dj.take(0) =~= Seq::<char>::empty());
                            assert(dec_val(dj.take(k)) == value);
                        }
                        assert(dj.take(k + 1).drop_last() =~= dj.take(k));
                        assert(dj.take(k + 1).last() == dj[k]);
                        assert(dec_val(dj.take(k + 1)) == value * 10 + d);
                        lemma_dec_prefix(v[j] as int, k + 1);
                        assert(value * 10 + d <= i32::MAX);
                        vstd::arithmetic::div_mod::lemma_fundamental_div_mod(
                            (i32::MAX - d) as int,
                            10,
                        );
                        assert(value <= (i32::MAX - d) / 10) by (nonlinear_arith)
                            requires
                                value * 10 + d <= i32::MAX,
                                (i32::MAX - d) as int == 10 * ((i32::MAX - d) as int / 10) + (
                                i32::MAX - d) as int % 10,
                                0 <= (i32::MAX - d) as int % 10 < 10,
                                value >= 0,
                        ;
                        assert(false);
                    }
                }
                return None;
            }
            let ghost old_value = value as int;
            proof {
                vstd::arithmetic::div_mod::lemma_fundamental_div_mod((i32::MAX - d) as int, 10);
                assert(value * 10 + d <= i32::MAX) by (nonlinear_arith)
                    requires
                        value <= (i32::MAX - d) / 10,
                        (i32::MAX - d) as int == 10 * ((i32::MAX - d) as int / 10) + (i32::MAX
                            - d) as int % 10,
                        0 <= (i32::MAX - d) as int % 10 < 10,
                        value >= 0,
                        0 <= d <= 9,
                ;
            }
            value = value * 10 + d;
            proof {
                if digits == 0 {
                    assert(text@.subrange(start as int, pos as int + 1) =~= seq![
                        text@[pos as int],
                    ]);
                    assert(dec_spec(value as int) == seq![digit_char(value as int)]);
                } else {
                    assert(value as int / 10 == old_value && value as int % 10 == d as int) by {
                        vstd::arithmetic::div_mod::lemma_fundamental_div_mod_converse(
                            value as int,
                            10,
                            old_value,
                            d as int,
                        );
                    }
                    assert(dec_spec(value as int) == dec_spec(old_value).push(
                        digit_char(d as int),
                    ));
                    assert(text@.subrange(start as int, pos as int + 1) =~= text@.subrange(
                        start as int,
                        pos as int,
                    ).push(text@[pos as int]));
                }
                if can {
                    let dj = dec_spec(v[j] as int);
                    let k = pos - start;
                    assert(dj.take(k + 1) =~= dj.take(k).push(dj[k]));
                    assert(text@.subrange(start as int, pos as int + 1) =~= dj.take(k + 1));
                }
            }
            pos = pos + 1;
            digits = digits + 1;
        }
        proof {
            if can {
                let dj = dec_spec(v[j] as int);
                let k = pos - start;
                lemma_dec_shape(v[j] as int);
                if k < dj.len() {
                    // the guard cannot have stopped inside the number
                    assert(text@[pos as int] == text@.skip(start as int)[k]);
                    assert(text@[pos as int] == dj[k]);
                    assert(is_digit_spec(text@[pos as int]));
                    assert(n - start == dj.len() + tail_spec(v, j + 1).len() + 1);
                    assert(pos < n - 1);
                    assert(false);
                }
                assert(k == dj.len());
                assert(digits >= 1);
            }
        }
        if digits == 0 {
            return None;
        }
        let ghost out_before = out@;
        out.push(value);
        proof {
            assert(out@.drop_last() =~= out_before);
            assert(out@.last() == value);
            assert(text@.take(pos as int) =~= prefix + text@.subrange(start as int, pos as int));
            if out_before.len() == 0 {
                assert(inner_spec(out@) == dec_spec(value as int));
                assert(seq!['['] + inner_spec(out@) =~= text@.take(pos as int));
            } else {
                assert(inner_spec(out@) == inner_spec(out_before) + seq![','] + seq![' ']
                    + dec_spec(value as int));
                assert(prefix =~= seq!['['] + inner_spec(out_before) + seq![','] + seq![' ']);
                assert(seq!['['] + inner_spec(out@) =~= text@.take(pos as int));
            }
            if can {
                let dj = dec_spec(v[j] as int);
                // the value read is the value printed
                assert(dec_spec(value as int) == dj.take(dj.len() as int));
                assert(dj.take(dj.len() as int) =~= dj);
                lemma_dec_val_inverse(value as int);
                lemma_dec_val_inverse(v[j] as int);
                assert(value == v[j]);
                assert(v.take(j + 1) =~= v.take(j).push(v[j]));
                assert(out@ == v.take(out@.len() as int));
                assert(text@.skip(pos as int) =~= text@.skip(start as int).skip(dj.len() as int));
                assert((dj + tail_spec(v, j + 1) + seq![']']).skip(dj.len() as int) =~= tail_spec(
                    v,
                    j + 1,
                ) + seq![']']);
                assert(text@.skip(pos as int) =~= tail_spec(v, j + 1) + seq![']']);
            }
        }
        if pos == n - 1 {
            break;
        }
        proof {
            if can && out@.len() == v.len() {
                assert(tail_spec(v, out@.len() as int) =~= Seq::<char>::empty());
                assert(text@.skip(pos as int) =~= seq![']']);
                assert(false);
            }
        }
    }
    // nothing may follow the last tag but the closing bracket
    if pos != n - 1 {
        return None;
    }
    if out.len() == 0 {
        return None;
    }
    proof {
        assert(text@.take(n as int - 1).push(text@[n as int - 1]) =~= text@);
        assert(format_tags_spec(out@) =~= text@);
    }
    Some(out)
}

/// Whether position `pos` holds the closing bracket that ends the text.
fn seq_done(text: &Vec<char>, pos: usize) -> (r: bool)
    requires
        pos < text@.len(),
    ensures
        r == (pos == text@.len() - 1 && text@[pos as int] == ']'),
{
    pos == text.len() - 1 && text[pos] == ']'
}

/// The numeric value of a digit character.
pub open spec fn digit_char_of(c: char) -> int {
    if c == '0' {
        0
    } else if c == '1' {
        1
    } else if c == '2' {
        2
    } else if c == '3' {
        3
    } else if c == '4' {
        4
    } else if c == '5' {
        5
    } else if c == '6' {
        6
    } else if c == '7' {
        7
    } else if c == '8' {
        8
    } else {
        9
    }
}

pub open spec fn is_digit_spec(c: char) -> bool {
    c == '0' || c == '1' || c == '2' || c == '3' || c == '4' || c == '5' || c == '6' || c == '7'
        || c == '8' || c == '9'
}

fn is_digit(c: char) -> (r: bool)
    ensures
        r == is_digit_spec(c),
{
    c == '0' || c == '1' || c == '2' || c == '3' || c == '4' || c == '5' || c == '6' || c == '7'
        || c == '8' || c == '9'
}

fn digit_value(c: char) -> (d: i32)
    requires
        is_digit_spec(c),
    ensures
        0 <= d <= 9,
        d as int == digit_char_of(c),
        digit_char(d as int) == c,
{
    if c == '0' {
        0
    } else if c == '1' {
        1
    } else if c == '2' {
        2
    } else if c == '3' {
        3
    } else if c == '4' {
        4
    } else if c == '5' {
        5
    } else if c == '6' {
        6
    } else if c == '7' {
        7
    } else if c == '8' {
        8
    } else {
        9
    }
}

} // verus!
