use vstd::prelude::*;
use vstd::string::StrSliceExecFns;

verus! {

/// `s` without its spaces.
pub open spec fn strip_spaces(s: Seq<char>) -> Seq<char>
    decreases s.len(),
{
    if s.len() == 0 {
        seq![]
    } else if s.last() == ' ' {
        strip_spaces(s.drop_last())
    } else {
        strip_spaces(s.drop_last()).push(s.last())
    }
}

/// The pieces of `s` between its commas; there is one more piece than there are commas.
pub open spec fn split_commas(s: Seq<char>) -> Seq<Seq<char>>
    decreases s.len(),
{
    if s.len() == 0 {
        seq![seq![]]
    } else {
        let p = split_commas(s.drop_last());
        if s.last() == ',' {
            p.push(seq![])
        } else {
            p.update(p.len() - 1, p.last().push(s.last()))
        }
    }
}

/// Whether `c` is an ASCII decimal digit.
pub open spec fn is_digit(c: char) -> bool {
    '0' <= c && c <= '9'
}

/// The number that the decimal digits `d` write.
pub open spec fn digits_value(d: Seq<char>) -> int
    decreases d.len(),
{
    if d.len() == 0 {
        0
    } else {
        digits_value(d.drop_last()) * 10 + (d.last() as int - '0' as int)
    }
}

/// `p` without a leading `+`.
pub open spec fn unsigned_part(p: Seq<char>) -> Seq<char> {
    if p.len() > 0 && p[0] == '+' {
        p.drop_first()
    } else {
        p
    }
}

/// Whether every character of `d` is a decimal digit.
pub open spec fn all_digits(d: Seq<char>) -> bool {
    forall|i: int| 0 <= i < d.len() ==> is_digit(#[trigger] d[i])
}

/// The `usize` that the text `p` writes in decimal, after an optional `+`, or `None` where
/// it holds no digit, holds anything but digits, or writes a number that does not fit.
pub open spec fn piece_value(p: Seq<char>) -> Option<usize> {
    let d = unsigned_part(p);
    if d.len() > 0 && all_digits(d) && digits_value(d) <= usize::MAX {
        Some(digits_value(d) as usize)
    } else {
        None
    }
}

/// The pieces of a list of numbers written with commas between them; spaces are ignored.
pub open spec fn list_pieces(text: Seq<char>) -> Seq<Seq<char>> {
    split_commas(strip_spaces(text))
}

proof fn lemma_split_nonempty(s: Seq<char>)
    ensures
        split_commas(s).len() >= 1,
    decreases s.len(),
{
    if s.len() > 0 {
        lemma_split_nonempty(s.drop_last());
    }
}

/// The characters of `text` without its spaces.
fn stripped_chars(text: &str) -> (r: Vec<char>)
    ensures
        r@ == strip_spaces(text@),
{
    let n = text.unicode_len();
    let mut r: Vec<char> = Vec::new();
    let mut i: usize = 0;
    while i < n
        invariant
            n == text@.len(),
            i <= n,
            r@ == strip_spaces(text@.take(i as int)),
        decreases n - i,
    {
        let c = text.get_char(i);
        if c != ' ' {
            r.push(c);
        }
        proof {
            assert(text@.take(i as int + 1).drop_last() =~= text@.take(i as int));
        }
        i = i + 1;
    }
    assert(text@.take(n as int) =~= text@);
    r
}

/// The pieces of `s` between its commas.
fn split_at_commas(s: &Vec<char>) -> (r: Vec<Vec<char>>)
    ensures
        r@.len() == split_commas(s@).len(),
        forall|k: int| 0 <= k < r@.len() ==> #[trigger] r@[k]@ == split_commas(s@)[k],
{
    let mut done: Vec<Vec<char>> = Vec::new();
    let mut cur: Vec<char> = Vec::new();
    let mut i: usize = 0;
    while i < s.len()
        invariant
            i <= s@.len(),
            done@.len() + 1 == split_commas(s@.take(i as int)).len(),
            forall|k: int|
                0 <= k < done@.len() ==> #[trigger] done@[k]@ == split_commas(s@.take(i as int))[k],
            cur@ == split_commas(s@.take(i as int)).last(),
        decreases s@.len() - i,
    {
        proof {
            assert(s@.take(i as int + 1).drop_last() =~= s@.take(i as int));
            lemma_split_nonempty(s@.take(i as int));
        }
        let c = s[i];
        if c == ',' {
            done.push(cur);
            cur = Vec::new();
        } else {
            cur.push(c);
        }
        i = i + 1;
    }
    assert(s@.take(i as int) =~= s@);
    done.push(cur);
    done
}

/// The `usize` that the text `p` writes in decimal, after an optional `+`.
fn parse_piece(p: &Vec<char>) -> (r: Option<usize>)
    ensures
        r == piece_value(p@),
{
    let start: usize = if p.len() > 0 && p[0] == '+' {
        1
    } else {
        0
    };
    let ghost d = if p@.len() > 0 && p@[0] == '+' {
        p@.drop_first()
    } else {
        p@
    };
    let mut value: usize = 0;
    let mut too_big = false;
    let mut digits_only = true;
    let mut i: usize = start;
    while i < p.len()
        invariant
            start <= i <= p@.len(),
            start <= 1,
            d == p@.subrange(start as int, p@.len() as int),
            digits_only == (forall|j: int| 0 <= j < i - start ==> is_digit(#[trigger] d[j])),
            digits_only ==> too_big == (digits_value(d.take(i - start)) > usize::MAX),
            digits_only && !too_big ==> value == digits_value(d.take(i - start)),
            digits_only ==> digits_value(d.take(i - start)) >= 0,
        decreases p@.len() - i,
    {
        let c = p[i];
        let ghost t = d.take(i - start + 1);
        proof {
            assert(t.drop_last() =~= d.take(i - start));
            assert(t.last() == c);
        }
        if '0' <= c && c <= '9' {
            let digit = (c as u32 - '0' as u32) as usize;
            if !too_big && digits_only {
                match value.checked_mul(10) {
                    Some(v) => match v.checked_add(digit) {
                        Some(w) => {
                            value = w;
                        },
                        None => {
                            too_big = true;
                        },
                    },
                    None => {
                        too_big = true;
                    },
                }
            }
        } else {
            digits_only = false;
        }
        proof {
            if digits_only {
                assert forall|j: int| 0 <= j < i + 1 - start implies is_digit(#[trigger] d[j]) by {
                    if j < i - start {
                    } else {
                        assert(d[j] == c);
                    }
                }
            } else {
                if is_digit(c) {
                    let j = choose|j: int| 0 <= j < i - start && !is_digit(#[trigger] d[j]);
                    assert(!is_digit(d[j]));
                } else {
                    assert(!is_digit(d[i - start]));
                }
            }
        }
        i = i + 1;
    }
    proof {
        assert(d.take(i - start) =~= d);
        assert(d.len() == i - start);
        if p@.len() > 0 && p@[0] == '+' {
            assert(d =~= p@.drop_first());
        } else {
            assert(d =~= p@);
        }
    }
    assert(unsigned_part(p@) == d);
    if i == start || !digits_only || too_big {
        None
    } else {
        Some(value)
    }
}

/// Reads a list of numbers written with commas between them, such as `"1, 2,3"`; spaces
/// are ignored. `None` where a piece between commas is not a `usize` in decimal (an
/// optional `+`, then digits).
pub fn parse_digit_list(text: &str) -> (r: Option<Vec<usize>>)
    ensures
        r matches Some(v) ==> v@.len() == list_pieces(text@).len() && forall|k: int|
            0 <= k < v@.len() ==> piece_value(#[trigger] list_pieces(text@)[k]) == Some(v@[k]),
        r is None ==> exists|k: int|
            0 <= k < list_pieces(text@).len() && (#[trigger] piece_value(list_pieces(text@)[k]))
                is None,
{
    let chars = stripped_chars(text);
    let pieces = split_at_commas(&chars);
    let ghost ps = list_pieces(text@);
    let mut values: Vec<usize> = Vec::new();
    let mut k: usize = 0;
    while k < pieces.len()
        invariant
            ps == list_pieces(text@),
            pieces@.len() == ps.len(),
            forall|x: int| 0 <= x < pieces@.len() ==> #[trigger] pieces@[x]@ == ps[x],
            k <= pieces@.len(),
            values@.len() == k,
            forall|x: int| 0 <= x < k ==> piece_value(#[trigger] ps[x]) == Some(values@[x]),
        decreases pieces@.len() - k,
    {
        match parse_piece(&pieces[k]) {
            Some(v) => {
                values.push(v);
            },
            None => {
                assert(pieces@[k as int]@ == ps[k as int]);
                assert(piece_value(list_pieces(text@)[k as int]) is None);
                return None;
            },
        }
        k = k + 1;
    }
    Some(values)
}

} // verus!
