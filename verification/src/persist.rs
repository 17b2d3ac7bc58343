//! Saving and loading the ledger store as line-oriented text.
//!
//! The format is one `name,balance` line per account, newline
//! terminated, no header, order unspecified.  Loading is tolerant: a
//! line without a comma is skipped and an unparsable balance field
//! counts as zero, so one bad line never aborts a load.

use vstd::prelude::*;
use vstd::string::*;

use crate::storage::{
    balances_nonneg, lemma_map_of_contains, lemma_map_of_index, lemma_map_of_unfold_first, map_of,
    names_unique, Storage,
};

verus! {

/// True of a decimal digit character.
pub open spec fn is_digit_char(c: char) -> bool {
    48 <= c as int <= 57
}

/// The value of a decimal digit character.
pub open spec fn digit_val(c: char) -> int {
    c as int - 48
}

/// Every character of the sequence is a decimal digit.
pub open spec fn all_digits(s: Seq<char>) -> bool {
    forall|i: int| 0 <= i < s.len() ==> is_digit_char(#[trigger] s[i])
}

/// The value of a sequence of decimal digits, most significant first.
pub open spec fn dec_value(s: Seq<char>) -> int
    decreases s.len(),
{
    if s.len() == 0 {
        0
    } else {
        dec_value(s.drop_last()) * 10 + digit_val(s.last())
    }
}

/// The integer a text field denotes, if any: an optional single sign,
/// then at least one digit, with a value within `i64`'s range — exactly
/// the fields the saved format accepts as numbers.
pub open spec fn parse_i64(s: Seq<char>) -> Option<int> {
    if s.len() == 0 {
        None
    } else {
        let digits = if s[0] == '-' || s[0] == '+' {
            s.drop_first()
        } else {
            s
        };
        let signed = if s[0] == '-' {
            -dec_value(digits)
        } else {
            dec_value(digits)
        };
        if digits.len() == 0 || !all_digits(digits) {
            None
        } else if i64::MIN <= signed <= i64::MAX {
            Some(signed)
        } else {
            None
        }
    }
}

/// The balance a field loads as: unparsable fields default to zero.
pub open spec fn field_amount(s: Seq<char>) -> int {
    match parse_i64(s) {
        Some(v) => v,
        None => 0,
    }
}

/// Splits at the first occurrence of `c`: the parts before and after
/// it, or `None` when `c` does not occur at all.
pub open spec fn split_first(s: Seq<char>, c: char) -> Option<(Seq<char>, Seq<char>)>
    decreases s.len(),
{
    if s.len() == 0 {
        None
    } else if s[0] == c {
        Some((Seq::<char>::empty(), s.drop_first()))
    } else {
        match split_first(s.drop_first(), c) {
            None => None,
            Some(p) => Some((seq![s[0]] + p.0, p.1)),
        }
    }
}

/// The lines of a text, split on newline characters.  A trailing
/// newline ends the last line rather than opening an empty one, the way
/// a line-by-line reader sees a file.
pub open spec fn split_lines(text: Seq<char>) -> Seq<Seq<char>>
    decreases text.len(),
{
    if text.len() == 0 {
        Seq::empty()
    } else {
        let rest = split_lines(text.drop_first());
        if text[0] == '\n' {
            seq![Seq::<char>::empty()] + rest
        } else if rest.len() == 0 {
            seq![seq![text[0]]]
        } else {
            seq![seq![text[0]] + rest[0]] + rest.drop_first()
        }
    }
}

/// Loads one line into the map.  An empty line, or one without a comma,
/// is skipped.  Otherwise the text before the first comma names the
/// account, which is created at zero if absent, and the rest of the
/// line is the amount to credit it with.  A credit whose result would
/// be negative or above `i64::MAX` is dropped, leaving the (possibly
/// freshly created) account at its previous balance.
pub open spec fn apply_line(m: Map<Seq<char>, int>, line: Seq<char>) -> Map<Seq<char>, int> {
    match split_first(line, ',') {
        None => m,
        Some(p) => {
            let base = if m.contains_key(p.0) {
                m[p.0]
            } else {
                0
            };
            let credited = base + field_amount(p.1);
            if 0 <= credited <= i64::MAX {
                m.insert(p.0, credited)
            } else {
                m.insert(p.0, base)
            }
        },
    }
}

/// Loads a sequence of lines into the map, first line first.
pub open spec fn load_lines(m: Map<Seq<char>, int>, lines: Seq<Seq<char>>) -> Map<Seq<char>, int>
    decreases lines.len(),
{
    if lines.len() == 0 {
        m
    } else {
        load_lines(apply_line(m, lines.first()), lines.drop_first())
    }
}

/// The account map a saved text loads as.
pub open spec fn parse_csv(text: Seq<char>) -> Map<Seq<char>, int> {
    load_lines(Map::empty(), split_lines(text))
}

/// When `c` occurs nowhere in `s`, there is nothing to split at.
proof fn lemma_split_first_absent(s: Seq<char>, c: char)
    requires
        forall|i: int| 0 <= i < s.len() ==> s[i] != c,
    ensures
        split_first(s, c) is None,
    decreases s.len(),
{
    if s.len() > 0 {
        assert(forall|i: int| 0 <= i < s.drop_first().len() ==> s.drop_first()[i] == s[i + 1]);
        lemma_split_first_absent(s.drop_first(), c);
    }
}

/// When the first occurrence of `c` in `s` is at index `k`, the split
/// yields the text before it and the text after it.
proof fn lemma_split_first_at(s: Seq<char>, c: char, k: int)
    requires
        0 <= k < s.len(),
        s[k] == c,
        forall|i: int| 0 <= i < k ==> s[i] != c,
    ensures
        split_first(s, c) == Some((s.take(k), s.skip(k + 1))),
    decreases k,
{
    if k == 0 {
        assert(s.take(0) =~= Seq::<char>::empty());
        assert(s.skip(1) =~= s.drop_first());
    } else {
        let t = s.drop_first();
        assert(forall|i: int| 0 <= i < t.len() ==> t[i] == s[i + 1]);
        lemma_split_first_at(t, c, k - 1);
        assert(seq![s[0]] + t.take(k - 1) =~= s.take(k));
        assert(t.skip(k) =~= s.skip(k + 1));
    }
}

/// A non-empty text without a newline is a single line.
proof fn lemma_split_lines_no_nl(text: Seq<char>)
    requires
        text.len() > 0,
        forall|i: int| 0 <= i < text.len() ==> text[i] != '\n',
    ensures
        split_lines(text) == seq![text],
    decreases text.len(),
{
    let t = text.drop_first();
    assert(forall|i: int| 0 <= i < t.len() ==> t[i] == text[i + 1]);
    if t.len() == 0 {
        reveal_with_fuel(split_lines, 2);
        assert(seq![text[0]] =~= text);
        assert(seq![seq![text[0]]] =~~= seq![text]);
    } else {
        lemma_split_lines_no_nl(t);
        let rest = split_lines(t);
        assert(rest == seq![t]);
        assert(rest[0] == t);
        assert(rest.drop_first() =~~= Seq::<Seq<char>>::empty());
        assert(seq![text[0]] + t =~= text);
        assert(seq![seq![text[0]] + rest[0]] + rest.drop_first() =~~= seq![text]);
    }
}

/// When the first newline of a text is at index `k`, the first line is
/// the text before it and the rest of the lines follow it.
proof fn lemma_split_lines_first_nl(text: Seq<char>, k: int)
    requires
        0 <= k < text.len(),
        text[k] == '\n',
        forall|i: int| 0 <= i < k ==> text[i] != '\n',
    ensures
        split_lines(text) == seq![text.take(k)] + split_lines(text.skip(k + 1)),
    decreases k,
{
    if k == 0 {
        assert(text.take(0) =~= Seq::<char>::empty());
        assert(text.skip(1) =~= text.drop_first());
        assert(seq![Seq::<char>::empty()] + split_lines(text.drop_first()) =~~= seq![text.take(0)]
            + split_lines(text.skip(1)));
    } else {
        let t = text.drop_first();
        assert(forall|i: int| 0 <= i < t.len() ==> t[i] == text[i + 1]);
        lemma_split_lines_first_nl(t, k - 1);
        let rest = split_lines(t);
        assert(rest == seq![t.take(k - 1)] + split_lines(t.skip(k)));
        assert(rest.len() >= 1);
        assert(rest[0] == t.take(k - 1));
        assert(seq![text[0]] + t.take(k - 1) =~= text.take(k));
        assert(t.skip(k) =~= text.skip(k + 1));
        assert(rest.drop_first() =~~= split_lines(text.skip(k + 1)));
        assert(seq![seq![text[0]] + rest[0]] + rest.drop_first() =~~= seq![text.take(k)]
            + split_lines(text.skip(k + 1)));
    }
}

/// The value of a digit string is non-negative.
proof fn lemma_dec_value_nonneg(s: Seq<char>)
    requires
        all_digits(s),
    ensures
        dec_value(s) >= 0,
    decreases s.len(),
{
    if s.len() > 0 {
        assert(forall|i: int| 0 <= i < s.len() - 1 ==> s.drop_last()[i] == s[i]);
        lemma_dec_value_nonneg(s.drop_last());
    }
}

/// A digit string is worth at least any of its prefixes.
proof fn lemma_dec_value_prefix(s: Seq<char>, k: int)
    requires
        all_digits(s),
        0 <= k <= s.len(),
    ensures
        dec_value(s.take(k)) <= dec_value(s),
    decreases s.len() - k,
{
    if k == s.len() {
        assert(s.take(k) =~= s);
    } else {
        assert(s.take(k + 1).drop_last() =~= s.take(k));
        assert(s.take(k + 1).last() == s[k]);
        assert(forall|i: int| 0 <= i < k ==> s.take(k)[i] == s[i]);
        lemma_dec_value_nonneg(s.take(k));
        assert(dec_value(s.take(k + 1)) == dec_value(s.take(k)) * 10 + digit_val(s[k]));
        assert(dec_value(s.take(k)) * 10 >= dec_value(s.take(k))) by (nonlinear_arith)
            requires
                dec_value(s.take(k)) >= 0,
        ;
        lemma_dec_value_prefix(s, k + 1);
    }
}

/// Parses `data[start..end]` as a saved amount: the field's integer
/// value, or zero when the field is not a well-formed `i64`.
fn parse_field(data: &str, start: usize, end: usize) -> (a: i64)
    requires
        start <= end <= data@.len(),
    ensures
        a as int == field_amount(data@.subrange(start as int, end as int)),
{
    let ghost field = data@.subrange(start as int, end as int);
    if start == end {
        return 0;
    }
    let first = data.get_char(start);
    proof {
        assert(field[0] == first);
    }
    let neg = first == '-';
    let has_sign = neg || first == '+';
    let d_start = if has_sign {
        start + 1
    } else {
        start
    };
    let ghost digits = if has_sign {
        field.drop_first()
    } else {
        field
    };
    proof {
        assert(digits =~= data@.subrange(d_start as int, end as int));
    }
    if d_start == end {
        return 0;
    }
    let limit: u64 = if neg {
        9223372036854775808
    } else {
        9223372036854775807
    };
    let mut acc: u64 = 0;
    let mut i: usize = d_start;
    while i < end
        invariant
            d_start <= i <= end,
            start <= d_start < end,
            end <= data@.len(),
            field == data@.subrange(start as int, end as int),
            field.len() > 0,
            neg <==> field[0] == '-',
            digits == if field[0] == '-' || field[0] == '+' {
                field.drop_first()
            } else {
                field
            },
            digits == data@.subrange(d_start as int, end as int),
            digits.len() == end - d_start,
            acc <= limit,
            limit == 9223372036854775807u64 + if neg {
                1u64
            } else {
                0u64
            },
            acc as int == dec_value(digits.take(i - d_start)),
            all_digits(digits.take(i - d_start)),
        decreases end - i,
    {
        let c = data.get_char(i);
        proof {
            assert(digits[i - d_start] == c);
        }
        let u = c as u32;
        proof {
            assert(u as int == c as int);
        }
        if u < 48 || u > 57 {
            proof {
                assert(!is_digit_char(digits[i - d_start]));
                assert(!all_digits(digits));
                assert(parse_i64(field) is None);
            }
            return 0;
        }
        let d = (u - 48) as u64;
        proof {
            assert(digits.take(i - d_start + 1).drop_last() =~= digits.take(i - d_start));
            assert(digits.take(i - d_start + 1).last() == digits[i - d_start]);
        }
        if acc > (limit - d) / 10 {
            proof {
                assert(acc * 10 + d > limit) by (nonlinear_arith)
                    requires
                        acc > (limit - d) / 10,
                        d <= 9,
                        limit >= d,
                ;
                assert(dec_value(digits.take(i - d_start + 1)) > limit);
                if all_digits(digits) {
                    lemma_dec_value_prefix(digits, i - d_start + 1);
                    assert(dec_value(digits) > limit);
                }
                assert(parse_i64(field) is None);
            }
            return 0;
        }
        proof {
            assert(acc * 10 + d <= limit) by (nonlinear_arith)
                requires
                    acc <= (limit - d) / 10,
                    d <= 9,
                    limit >= d,
            ;
        }
        acc = acc * 10 + d;
        i = i + 1;
    }
    proof {
        assert(digits.take(end - d_start) =~= digits);
        assert(dec_value(digits) == acc as int);
        assert(all_digits(digits));
    }
    if neg {
        proof {
            assert(parse_i64(field) == Some(-(acc as int)));
        }
        if acc == 9223372036854775808 {
            i64::MIN
        } else {
            -(acc as i64)
        }
    } else {
        proof {
            assert(parse_i64(field) == Some(acc as int));
        }
        acc as i64
    }
}

impl Storage {
    /// Loads one line of saved text, `data[start..end]`, into the store,
    /// as [`apply_line`] describes.
    fn load_line(&mut self, data: &str, start: usize, end: usize)
        requires
            old(self).well_formed(),
            start <= end <= data@.len(),
        ensures
            final(self).well_formed(),
            final(self)@ == apply_line(old(self)@, data@.subrange(start as int, end as int)),
    {
        let ghost line = data@.subrange(start as int, end as int);
        let mut j: usize = start;
        while j < end && data.get_char(j) != ','
            invariant
                start <= j <= end,
                end <= data@.len(),
                line == data@.subrange(start as int, end as int),
                forall|t: int| start <= t < j ==> data@[t] != ',',
            decreases end - j,
        {
            j = j + 1;
        }
        if j == end {
            proof {
                assert(forall|t: int| 0 <= t < line.len() ==> line[t] != ',');
                lemma_split_first_absent(line, ',');
            }
            return;
        }
        proof {
            assert(line[j - start] == ',');
            assert(forall|t: int| 0 <= t < j - start ==> line[t] != ',');
            lemma_split_first_at(line, ',', j - start);
            assert(line.take(j - start) =~= data@.subrange(start as int, j as int));
            assert(line.skip(j - start + 1) =~= data@.subrange(j as int + 1, end as int));
        }
        let name = data.substring_char(start, j);
        let name_string = String::from_str(name);
        let amount: i64 = parse_field(data, j + 1, end);
        let ghost m0 = self@;
        let _ = self.add_user_internal(name_string.clone());
        let ghost m1 = self@;
        let base: i64 = match self.get_balance_internal(&name_string) {
            Some(b) => b,
            None => 0,
        };
        proof {
            self.lemma_balances_nonnegative();
            assert(m1.contains_key(name_string@));
            assert(base as int == if m0.contains_key(name_string@) {
                m0[name_string@]
            } else {
                0
            });
        }
        if amount >= 0 {
            if base <= i64::MAX - amount {
                let r = self.deposit_internal(&name_string, amount);
                proof {
                    assert(r is Ok);
                }
            } else {
                proof {
                    assert(m1.insert(name_string@, base as int) =~= m1);
                }
            }
        } else {
            if base + amount >= 0 {
                let r = self.deposit_internal(&name_string, amount);
                proof {
                    assert(r is Ok);
                }
            } else {
                proof {
                    assert(m1.insert(name_string@, base as int) =~= m1);
                }
            }
        }
        proof {
            assert(self@ =~= apply_line(m0, line));
        }
    }

    /// Reconstructs a store from saved text, line by line, exactly as
    /// [`parse_csv`] describes.
    pub fn load_from_str(data: &str) -> (s: Storage)
        ensures
            s.well_formed(),
            s@ == parse_csv(data@),
    {
        let n = data.unicode_len();
        let mut s = Storage::new();
        let mut pos: usize = 0;
        proof {
            assert(data@.skip(0) =~= data@);
        }
        while pos < n
            invariant
                n == data@.len(),
                pos <= n,
                s.well_formed(),
                load_lines(s@, split_lines(data@.skip(pos as int))) == parse_csv(data@),
            decreases n - pos,
        {
            let ghost rem = data@.skip(pos as int);
            let mut k: usize = pos;
            while k < n && data.get_char(k) != '\n'
                invariant
                    pos <= k <= n,
                    n == data@.len(),
                    forall|j: int| pos <= j < k ==> data@[j] != '\n',
                decreases n - k,
            {
                k = k + 1;
            }
            let ghost line = data@.subrange(pos as int, k as int);
            proof {
                assert(forall|j: int| 0 <= j < rem.len() ==> rem[j] == data@[pos + j]);
                if k < n {
                    assert(rem[k - pos] == '\n');
                    lemma_split_lines_first_nl(rem, k - pos);
                    assert(rem.take(k - pos) =~= line);
                    assert(rem.skip(k - pos + 1) =~= data@.skip(k as int + 1));
                    assert((seq![line] + split_lines(data@.skip(k as int + 1))).first() == line);
                    assert((seq![line] + split_lines(data@.skip(k as int + 1))).drop_first()
                        =~~= split_lines(data@.skip(k as int + 1)));
                } else {
                    lemma_split_lines_no_nl(rem);
                    assert(rem =~= line);
                    assert((seq![line]).first() == line);
                    assert((seq![line]).drop_first() =~~= Seq::<Seq<char>>::empty());
                    assert(split_lines(data@.skip(n as int)) =~~= Seq::<Seq<char>>::empty());
                }
            }
            s.load_line(data, pos, k);
            pos = if k < n {
                k + 1
            } else {
                n
            };
        }
        proof {
            assert(data@.skip(pos as int) =~= Seq::<char>::empty());
        }
        s
    }
}

/// The character of a decimal digit.
pub open spec fn digit_char(d: int) -> char {
    if d == 0 {
        '0'
    } else if d == 1 {
        '1'
    } else if d == 2 {
        '2'
    } else if d == 3 {
        '3'
    } else if d == 4 {
        '4'
    } else if d == 5 {
        '5'
    } else if d == 6 {
        '6'
    } else if d == 7 {
        '7'
    } else if d == 8 {
        '8'
    } else {
        '9'
    }
}

/// The canonical decimal digits of a non-negative value, most
/// significant first, without a leading zero (except for zero itself).
pub open spec fn dec_digits(v: int) -> Seq<char>
    recommends
        v >= 0,
    decreases v,
{
    if v < 10 {
        seq![digit_char(v)]
    } else {
        dec_digits(v / 10).push(digit_char(v % 10))
    }
}

/// A name the line format can carry: free of comma and newline.
pub open spec fn name_clean(n: Seq<char>) -> bool {
    !n.contains(',') && !n.contains('\n')
}

/// Every account name of the map is storable in the line format.
pub open spec fn names_clean(m: Map<Seq<char>, int>) -> bool {
    forall|n: Seq<char>| #[trigger] m.contains_key(n) ==> name_clean(n)
}

/// Every name of the snapshot sequence is storable in the line format.
pub open spec fn seq_names_clean(s: Seq<(String, i64)>) -> bool {
    forall|i: int| 0 <= i < s.len() ==> name_clean((#[trigger] s[i]).0@)
}

/// The saved line of one account, newline included.
pub open spec fn render_line(p: (String, i64)) -> Seq<char> {
    p.0@ + seq![','] + dec_digits(p.1 as int) + seq!['\n']
}

/// The saved text of a snapshot: its lines, in order.
pub open spec fn render(s: Seq<(String, i64)>) -> Seq<char>
    decreases s.len(),
{
    if s.len() == 0 {
        Seq::empty()
    } else {
        render_line(s.first()) + render(s.drop_first())
    }
}

/// The digits of a non-negative value: at least one character, all of
/// them decimal digits, reading back as the value itself.
proof fn lemma_dec_digits(v: int)
    requires
        v >= 0,
    ensures
        dec_digits(v).len() >= 1,
        all_digits(dec_digits(v)),
        dec_value(dec_digits(v)) == v,
    decreases v,
{
    if v < 10 {
        reveal_with_fuel(dec_value, 2);
        assert(seq![digit_char(v)].drop_last() =~= Seq::<char>::empty());
        assert(seq![digit_char(v)].last() == digit_char(v));
        assert(digit_val(digit_char(v)) == v);
    } else {
        lemma_dec_digits(v / 10);
        let d = dec_digits(v / 10);
        let c = digit_char(v % 10);
        assert(d.push(c).drop_last() =~= d);
        assert(d.push(c).last() == c);
        assert(0 <= v % 10 < 10);
        assert(digit_val(c) == v % 10);
        assert(dec_value(dec_digits(v)) == (v / 10) * 10 + v % 10);
        assert(forall|i: int|
            0 <= i < d.push(c).len() ==> is_digit_char(#[trigger] d.push(c)[i]));
    }
}

/// The rendered digits of a storable balance parse back to it.
proof fn lemma_parse_digits(v: int)
    requires
        0 <= v <= i64::MAX,
    ensures
        parse_i64(dec_digits(v)) == Some(v),
        field_amount(dec_digits(v)) == v,
{
    lemma_dec_digits(v);
    let d = dec_digits(v);
    assert(is_digit_char(d[0]));
    assert(d[0] != '-' && d[0] != '+');
}

/// Appending one pair to a snapshot appends its line to the text.
proof fn lemma_render_push(s: Seq<(String, i64)>, p: (String, i64))
    ensures
        render(s.push(p)) == render(s) + render_line(p),
    decreases s.len(),
{
    if s.len() == 0 {
        reveal_with_fuel(render, 2);
        assert(s.push(p).first() == p);
        assert(s.push(p).drop_first() =~= Seq::<(String, i64)>::empty());
        assert(render_line(p) + Seq::<char>::empty() =~= Seq::<char>::empty() + render_line(p));
    } else {
        assert(s.push(p).first() == s.first());
        assert(s.push(p).drop_first() =~= s.drop_first().push(p));
        lemma_render_push(s.drop_first(), p);
        assert(render_line(s.first()) + (render(s.drop_first()) + render_line(p)) =~= (render_line(
            s.first(),
        ) + render(s.drop_first())) + render_line(p));
    }
}

/// Loading the rendered text of a snapshot on top of a map that holds
/// none of the snapshot's names adds exactly the snapshot's accounts.
proof fn lemma_load_render(s: Seq<(String, i64)>, m: Map<Seq<char>, int>)
    requires
        names_unique(s),
        balances_nonneg(s),
        seq_names_clean(s),
        forall|i: int| 0 <= i < s.len() ==> !m.contains_key((#[trigger] s[i]).0@),
    ensures
        load_lines(m, split_lines(render(s))) == m.union_prefer_right(map_of(s)),
    decreases s.len(),
{
    if s.len() == 0 {
        assert(m.union_prefer_right(map_of(s)) =~= m);
    } else {
        let p = s.first();
        let name = p.0@;
        assert(s[0].1 >= 0);
        lemma_dec_digits(p.1 as int);
        lemma_parse_digits(p.1 as int);
        let digits = dec_digits(p.1 as int);
        let line = name + seq![','] + digits;
        let rest = s.drop_first();
        let rtext = render(rest);
        let text = render(s);
        assert(text == render_line(p) + rtext);
        let nl = name.len() as int;
        let ll = nl + 1 + digits.len() as int;
        assert(render_line(p).len() == ll + 1);
        assert forall|i: int| 0 <= i < ll implies text[i] != '\n' && text[i] == line[i] by {
            if i < nl {
                assert(text[i] == name[i]);
                if name[i] == '\n' {
                    assert(name.contains('\n'));
                }
            } else if i == nl {
                assert(text[i] == ',');
            } else {
                assert(text[i] == digits[i - nl - 1]);
                assert(is_digit_char(digits[i - nl - 1]));
            }
        }
        assert(text[ll] == '\n');
        lemma_split_lines_first_nl(text, ll);
        assert(text.take(ll) =~= line);
        assert(text.skip(ll + 1) =~= rtext);
        // the first line credits the first account
        assert forall|i: int| 0 <= i < nl implies line[i] != ',' by {
            assert(line[i] == name[i]);
            if name[i] == ',' {
                assert(name.contains(','));
            }
        }
        assert(line[nl] == ',');
        lemma_split_first_at(line, ',', nl);
        assert(line.take(nl) =~= name);
        assert(line.skip(nl + 1) =~= digits);
        assert(!m.contains_key(name));
        let m1 = m.insert(name, p.1 as int);
        assert(apply_line(m, line) == m1);
        assert((seq![line] + split_lines(rtext)).first() == line);
        assert((seq![line] + split_lines(rtext)).drop_first() =~~= split_lines(rtext));
        assert(load_lines(m, split_lines(text)) == load_lines(m1, split_lines(rtext)));
        // the remaining lines credit the remaining accounts
        assert(forall|k: int| 0 <= k < rest.len() ==> rest[k] == s[k + 1]);
        assert forall|i: int| 0 <= i < rest.len() implies !m1.contains_key(
            (#[trigger] rest[i]).0@,
        ) by {
            assert(rest[i].0@ != name);
            assert(!m.contains_key(rest[i].0@));
        }
        lemma_load_render(rest, m1);
        lemma_map_of_unfold_first(s);
        lemma_map_of_contains(rest, name);
        assert(!map_of(rest).contains_key(name));
        assert(m1.union_prefer_right(map_of(rest)) =~= m.union_prefer_right(
            map_of(rest).insert(name, p.1 as int),
        ));
    }
}

/// Round trip: a snapshot with unique storable names and non-negative
/// balances, rendered as saved text, loads back to exactly the map it
/// describes.
pub proof fn lemma_save_load_round_trip(s: Seq<(String, i64)>)
    requires
        names_unique(s),
        balances_nonneg(s),
        seq_names_clean(s),
    ensures
        parse_csv(render(s)) == map_of(s),
{
    lemma_load_render(s, Map::empty());
    assert(Map::<Seq<char>, int>::empty().union_prefer_right(map_of(s)) =~= map_of(s));
}

/// The one-character text of a decimal digit.
fn digit_str(d: u64) -> (r: &'static str)
    requires
        d < 10,
    ensures
        r@ == seq![digit_char(d as int)],
{
    proof {
        reveal_strlit("0");
        reveal_strlit("1");
        reveal_strlit("2");
        reveal_strlit("3");
        reveal_strlit("4");
        reveal_strlit("5");
        reveal_strlit("6");
        reveal_strlit("7");
        reveal_strlit("8");
        reveal_strlit("9");
    }
    if d == 0 {
        "0"
    } else if d == 1 {
        "1"
    } else if d == 2 {
        "2"
    } else if d == 3 {
        "3"
    } else if d == 4 {
        "4"
    } else if d == 5 {
        "5"
    } else if d == 6 {
        "6"
    } else if d == 7 {
        "7"
    } else if d == 8 {
        "8"
    } else {
        "9"
    }
}

/// The decimal text of a value, as the saved format writes it.
fn u64_to_string(v: u64) -> (s: String)
    ensures
        s@ == dec_digits(v as int),
    decreases v,
{
    if v < 10 {
        String::from_str(digit_str(v))
    } else {
        proof {
            assert(v / 10 < v) by (nonlinear_arith)
                requires
                    v >= 10,
            ;
        }
        let mut s = u64_to_string(v / 10);
        s.append(digit_str(v % 10));
        proof {
            assert(dec_digits((v / 10) as int) + seq![digit_char((v % 10) as int)] =~= dec_digits(
                (v / 10) as int,
            ).push(digit_char((v % 10) as int)));
            assert((v / 10) as int == v as int / 10);
            assert((v % 10) as int == v as int % 10);
        }
        s
    }
}

impl Storage {
    /// Serializes the store: one `name,balance` line per account, in
    /// the store's own (unspecified) order, overwriting nothing.  As
    /// long as no account name holds a comma or a newline, loading the
    /// result restores exactly this store.
    pub fn to_csv(&self) -> (out: String)
        requires
            self.well_formed(),
        ensures
            exists|snap: Seq<(String, i64)>|
                names_unique(snap) && map_of(snap) == self@ && out@ == #[trigger] render(snap),
            names_clean(self@) ==> parse_csv(out@) == self@,
    {
        let all = self.get_all();
        let mut out = String::new();
        let mut i: usize = 0;
        while i < all.len()
            invariant
                i <= all@.len(),
                balances_nonneg(all@),
                out@ == render(all@.take(i as int)),
            decreases all@.len() - i,
        {
            let ghost pre = out@;
            out.append(all[i].0.as_str());
            out.append(",");
            let num = u64_to_string(all[i].1 as u64);
            out.append(num.as_str());
            out.append("\n");
            proof {
                reveal_strlit(",");
                reveal_strlit("\n");
                assert(all@[i as int].1 >= 0);
                assert(","@ =~= seq![',']);
                assert("\n"@ =~= seq!['\n']);
                assert(out@ =~= pre + render_line(all@[i as int]));
                lemma_render_push(all@.take(i as int), all@[i as int]);
                assert(all@.take(i as int).push(all@[i as int]) =~= all@.take(i as int + 1));
            }
            i = i + 1;
        }
        proof {
            assert(all@.take(all@.len() as int) =~= all@);
            assert(names_unique(all@) && map_of(all@) == self@ && out@ == render(all@));
            if names_clean(self@) {
                assert forall|k: int| 0 <= k < all@.len() implies name_clean(
                    (#[trigger] all@[k]).0@,
                ) by {
                    lemma_map_of_index(all@, k);
                }
                lemma_save_load_round_trip(all@);
            }
        }
        out
    }
}

/// The seed accounts used when no saved file exists: four fixed names,
/// each opening at balance zero.
pub fn default_accounts() -> (r: Vec<String>)
    ensures
        r@.len() == 4,
        r@[0]@ == "John"@,
        r@[1]@ == "Alice"@,
        r@[2]@ == "Bob"@,
        r@[3]@ == "Vasya"@,
{
    let mut v: Vec<String> = Vec::new();
    v.push(String::from_str("John"));
    v.push(String::from_str("Alice"));
    v.push(String::from_str("Bob"));
    v.push(String::from_str("Vasya"));
    v
}

} // verus!
