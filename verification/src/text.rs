//! Text-level numeric validation and normalization.
//!
//! Everything here works on sequences of characters: recognizing signed
//! 64-bit integer text, recognizing plain decimal floating-point text, and
//! rendering such text with exactly three digits after the decimal point.

use vstd::prelude::*;

verus! {

/// A decimal digit character.
pub open spec fn is_digit(c: char) -> bool {
    '0' <= c && c <= '9'
}

/// The numeric value of a digit character.
pub open spec fn digit_val(c: char) -> nat {
    (c as int - 48) as nat
}

/// Every character of `s` is a decimal digit.
pub open spec fn all_digits(s: Seq<char>) -> bool {
    forall|i: int| 0 <= i < s.len() ==> is_digit(#[trigger] s[i])
}

/// The value of a digit string read in base 10 (0 for the empty string).
pub open spec fn digits_val(s: Seq<char>) -> nat
    decreases s.len(),
{
    if s.len() == 0 {
        0
    } else {
        digits_val(s.drop_last()) * 10 + digit_val(s.last())
    }
}

/// The length of an optional leading sign (`+` or `-`).
pub open spec fn sign_len(s: Seq<char>) -> int {
    if s.len() > 0 && (s[0] == '+' || s[0] == '-') {
        1
    } else {
        0
    }
}

/// `s` without its optional leading sign.
pub open spec fn num_body(s: Seq<char>) -> Seq<char> {
    s.subrange(sign_len(s), s.len() as int)
}

/// `s` carries a leading minus sign.
pub open spec fn is_neg(s: Seq<char>) -> bool {
    s.len() > 0 && s[0] == '-'
}

/// `s` is the decimal text of a signed 64-bit integer: an optional sign,
/// then one or more digits, whose value fits in `i64`.
pub open spec fn is_i64_text(s: Seq<char>) -> bool {
    let b = num_body(s);
    &&& b.len() > 0
    &&& all_digits(b)
    &&& (is_neg(s) ==> digits_val(b) <= 9223372036854775808)
    &&& (!is_neg(s) ==> digits_val(b) <= 9223372036854775807)
}

/// A digit string's value only grows as digits are appended: any prefix
/// reads as at most the whole.
pub proof fn lemma_digits_val_prefix(s: Seq<char>, j: int)
    requires
        0 <= j <= s.len(),
    ensures
        digits_val(s.subrange(0, j)) <= digits_val(s),
    decreases s.len() - j,
{
    if j == s.len() {
        assert(s.subrange(0, j) =~= s);
    } else {
        lemma_digits_val_prefix(s, j + 1);
        assert(s.subrange(0, j + 1).drop_last() =~= s.subrange(0, j));
        assert(digits_val(s.subrange(0, j + 1)) == digits_val(s.subrange(0, j)) * 10
            + digit_val(s.subrange(0, j + 1).last()));
    }
}

/// The index of the first `.` in `s`, or `s.len()` if there is none.
pub open spec fn dot_pos(s: Seq<char>) -> int
    decreases s.len(),
{
    if s.len() == 0 {
        0
    } else if s[0] == '.' {
        0
    } else {
        1 + dot_pos(s.subrange(1, s.len() as int))
    }
}

/// `dot_pos` is exactly the first position holding a dot.
pub proof fn lemma_dot_pos_of(s: Seq<char>, p: int)
    requires
        0 <= p <= s.len(),
        forall|j: int| 0 <= j < p ==> s[j] != '.',
        p == s.len() || s[p] == '.',
    ensures
        dot_pos(s) == p,
    decreases s.len(),
{
    if s.len() == 0 {
    } else if s[0] == '.' {
        assert(p == 0);
    } else {
        let t = s.subrange(1, s.len() as int);
        assert(p >= 1);
        assert(forall|j: int| 0 <= j < p - 1 ==> t[j] != '.');
        lemma_dot_pos_of(t, p - 1);
    }
}

/// The digits before the first dot (after the optional sign).
pub open spec fn int_part(s: Seq<char>) -> Seq<char> {
    let b = num_body(s);
    b.subrange(0, dot_pos(b))
}

/// The digits after the first dot, or empty if there is no dot.
pub open spec fn frac_part(s: Seq<char>) -> Seq<char> {
    let b = num_body(s);
    if dot_pos(b) < b.len() {
        b.subrange(dot_pos(b) + 1, b.len() as int)
    } else {
        Seq::empty()
    }
}

/// `s` is plain decimal floating-point text: an optional sign, digits, an
/// optional single dot, digits, with at least one digit in all.
pub open spec fn is_dbl_text(s: Seq<char>) -> bool {
    &&& all_digits(int_part(s))
    &&& all_digits(frac_part(s))
    &&& int_part(s).len() + frac_part(s).len() >= 1
}

/// `n` copies of the character `c`.
pub open spec fn char_repeat(c: char, n: nat) -> Seq<char> {
    Seq::new(n, |i: int| c)
}

/// The fractional digits cut or right-padded with zeros to exactly three.
pub open spec fn frac3(s: Seq<char>) -> Seq<char> {
    (frac_part(s) + char_repeat('0', 3)).subrange(0, 3)
}

/// The first dropped fractional digit calls for rounding away from zero.
pub open spec fn round_up(s: Seq<char>) -> bool {
    frac_part(s).len() > 3 && digit_val(frac_part(s)[3]) >= 5
}

/// The next digit character (`'9'` has no successor here).
pub open spec fn succ_digit(c: char) -> char {
    if c == '0' {
        '1'
    } else if c == '1' {
        '2'
    } else if c == '2' {
        '3'
    } else if c == '3' {
        '4'
    } else if c == '4' {
        '5'
    } else if c == '5' {
        '6'
    } else if c == '6' {
        '7'
    } else if c == '7' {
        '8'
    } else if c == '8' {
        '9'
    } else {
        '0'
    }
}

/// The digit string reading one more than `s`, with carry propagation
/// (`"129"` becomes `"130"`, `"999"` becomes `"1000"`).
pub open spec fn inc_digits(s: Seq<char>) -> Seq<char>
    decreases s.len(),
{
    if s.len() == 0 {
        seq!['1']
    } else if s.last() == '9' {
        inc_digits(s.drop_last()).push('0')
    } else {
        s.update(s.len() - 1, succ_digit(s.last()))
    }
}

/// `s` with leading zeros removed, keeping at least one digit.
pub open spec fn trim_zeros(s: Seq<char>) -> Seq<char>
    decreases s.len(),
{
    if s.len() == 0 {
        seq!['0']
    } else if s[0] != '0' || s.len() == 1 {
        s
    } else {
        trim_zeros(s.subrange(1, s.len() as int))
    }
}

/// All digits of the normalized rendering of `s`: the integer digits
/// followed by three fractional digits, rounded on the fourth.
pub open spec fn dbl_digits(s: Seq<char>) -> Seq<char> {
    let kept = int_part(s) + frac3(s);
    if round_up(s) {
        inc_digits(kept)
    } else {
        kept
    }
}

/// The normalized rendering of decimal text `s`: optional minus sign, the
/// integer digits without leading zeros, a dot, exactly three fractional
/// digits.
pub open spec fn dbl_norm(s: Seq<char>) -> Seq<char> {
    let d = dbl_digits(s);
    let sign: Seq<char> = if is_neg(s) {
        seq!['-']
    } else {
        Seq::empty()
    };
    sign + trim_zeros(d.subrange(0, d.len() - 3)) + seq!['.'] + d.subrange(
        d.len() - 3,
        d.len() as int,
    )
}

/// Incrementing a digit string whose trailing nines start right after
/// position `j` turns position `j` up by one and the nines into zeros.
pub proof fn lemma_inc_digits_trailing(o: Seq<char>, j: int)
    requires
        0 <= j < o.len(),
        o[j] != '9',
        forall|t: int| j < t < o.len() ==> o[t] == '9',
    ensures
        inc_digits(o) == o.subrange(0, j).push(succ_digit(o[j])) + char_repeat(
            '0',
            (o.len() - j - 1) as nat,
        ),
    decreases o.len(),
{
    if j == o.len() - 1 {
        assert(inc_digits(o) == o.update(o.len() - 1, succ_digit(o.last())));
        assert(o.update(o.len() - 1, succ_digit(o.last())) =~= o.subrange(0, j).push(
            succ_digit(o[j]),
        ) + char_repeat('0', 0));
    } else {
        assert(o.last() == '9');
        let od = o.drop_last();
        assert(forall|t: int| j < t < od.len() ==> od[t] == '9');
        lemma_inc_digits_trailing(od, j);
        assert(od.subrange(0, j) =~= o.subrange(0, j));
        assert(inc_digits(o) == inc_digits(od).push('0'));
        assert((od.subrange(0, j).push(succ_digit(od[j])) + char_repeat(
            '0',
            (od.len() - j - 1) as nat,
        )).push('0') =~= o.subrange(0, j).push(succ_digit(o[j])) + char_repeat(
            '0',
            (o.len() - j - 1) as nat,
        ));
    }
}

/// Incrementing a string of nines gives a one followed by zeros.
pub proof fn lemma_inc_digits_all_nines(o: Seq<char>)
    requires
        forall|t: int| 0 <= t < o.len() ==> o[t] == '9',
    ensures
        inc_digits(o) == seq!['1'] + char_repeat('0', o.len()),
    decreases o.len(),
{
    if o.len() == 0 {
        assert(inc_digits(o) =~= seq!['1'] + char_repeat('0', 0));
    } else {
        let od = o.drop_last();
        lemma_inc_digits_all_nines(od);
        assert(inc_digits(o) == inc_digits(od).push('0'));
        assert((seq!['1'] + char_repeat('0', od.len())).push('0') =~= seq!['1'] + char_repeat(
            '0',
            o.len(),
        ));
    }
}

/// Trimming a digit string whose first non-zero stands at `z` keeps
/// exactly the digits from `z` on.
pub proof fn lemma_trim_zeros_skip(s: Seq<char>, z: int)
    requires
        0 <= z < s.len(),
        forall|t: int| 0 <= t < z ==> s[t] == '0',
        s[z] != '0',
    ensures
        trim_zeros(s) == s.subrange(z, s.len() as int),
    decreases s.len(),
{
    if z == 0 {
        assert(s.subrange(0, s.len() as int) =~= s);
    } else {
        let t = s.subrange(1, s.len() as int);
        lemma_trim_zeros_skip(t, z - 1);
        assert(t.subrange(z - 1, t.len() as int) =~= s.subrange(z, s.len() as int));
    }
}

/// Trimming a string of zeros (or nothing) leaves a single zero.
pub proof fn lemma_trim_zeros_all_zeros(s: Seq<char>)
    requires
        forall|t: int| 0 <= t < s.len() ==> s[t] == '0',
    ensures
        trim_zeros(s) == seq!['0'],
    decreases s.len(),
{
    if s.len() == 0 {
    } else if s.len() == 1 {
        assert(s =~= seq!['0']);
    } else {
        lemma_trim_zeros_all_zeros(s.subrange(1, s.len() as int));
    }
}

/// Incrementing a digit string adds one to its value.
pub proof fn lemma_inc_digits_val(s: Seq<char>)
    requires
        all_digits(s),
    ensures
        digits_val(inc_digits(s)) == digits_val(s) + 1,
    decreases s.len(),
{
    if s.len() == 0 {
        assert(digits_val(seq!['1']) == 1) by {
            assert(digits_val(Seq::<char>::empty()) == 0);
            assert(seq!['1'].drop_last() =~= Seq::<char>::empty());
            assert(seq!['1'].last() == '1');
        }
    } else if s.last() == '9' {
        lemma_inc_digits_val(s.drop_last());
        let t = inc_digits(s.drop_last()).push('0');
        assert(t.drop_last() =~= inc_digits(s.drop_last()));
        assert(t.last() == '0');
    } else {
        let u = s.update(s.len() - 1, succ_digit(s.last()));
        assert(u.drop_last() =~= s.drop_last());
        assert(u.last() == succ_digit(s.last()));
        assert(is_digit(s[s.len() - 1]));
        assert(digit_val(succ_digit(s.last())) == digit_val(s.last()) + 1);
    }
}

/// A leading zero does not change a digit string's value.
proof fn lemma_digits_val_drop_zero(s: Seq<char>)
    requires
        s.len() > 0,
        s[0] == '0',
    ensures
        digits_val(s) == digits_val(s.subrange(1, s.len() as int)),
    decreases s.len(),
{
    if s.len() == 1 {
        assert(digits_val(Seq::<char>::empty()) == 0);
        assert(s.drop_last() =~= Seq::<char>::empty());
        assert(s.subrange(1, 1) =~= Seq::<char>::empty());
        assert(s.last() == '0');
    } else {
        let d = s.drop_last();
        lemma_digits_val_drop_zero(d);
        let t = s.subrange(1, s.len() as int);
        assert(t.drop_last() =~= d.subrange(1, d.len() as int));
        assert(t.last() == s.last());
    }
}

/// Trimming leading zeros does not change a digit string's value.
pub proof fn lemma_trim_zeros_val(s: Seq<char>)
    ensures
        digits_val(trim_zeros(s)) == digits_val(s),
    decreases s.len(),
{
    if s.len() == 0 {
        assert(digits_val(Seq::<char>::empty()) == 0);
        assert(seq!['0'].drop_last() =~= Seq::<char>::empty());
        assert(seq!['0'].last() == '0');
    } else if s[0] != '0' || s.len() == 1 {
    } else {
        lemma_digits_val_drop_zero(s);
        lemma_trim_zeros_val(s.subrange(1, s.len() as int));
    }
}

/// The rounding law of normalization: the digits kept by `dbl_digits`,
/// read as a number, are the integer digits followed by the first three
/// fraction digits, plus one exactly when the fourth fraction digit is
/// five or more.
pub proof fn lemma_dbl_digits_value(s: Seq<char>)
    requires
        is_dbl_text(s),
    ensures
        digits_val(dbl_digits(s)) == digits_val(int_part(s) + frac3(s)) + (if round_up(s) {
            1int
        } else {
            0int
        }),
{
    if round_up(s) {
        let kept = int_part(s) + frac3(s);
        assert forall|k: int| 0 <= k < kept.len() implies is_digit(#[trigger] kept[k]) by {
            if k < int_part(s).len() {
                assert(kept[k] == int_part(s)[k]);
            } else {
                assert(kept[k] == frac3(s)[k - int_part(s).len()]);
                assert(frac3(s)[k - int_part(s).len()] == if k - int_part(s).len() < frac_part(
                    s,
                ).len() {
                    frac_part(s)[k - int_part(s).len()]
                } else {
                    '0'
                });
            }
        }
        lemma_inc_digits_val(kept);
    }
}

/// Decides whether `s` is valid signed 64-bit integer text.
pub fn check_i64_text(s: &str) -> (b: bool)
    ensures
        b == is_i64_text(s@),
{
    let n = s.unicode_len();
    let mut start: usize = 0;
    let mut neg = false;
    if n > 0 {
        let c = s.get_char(0);
        if c == '-' {
            neg = true;
            start = 1;
        } else if c == '+' {
            start = 1;
        }
    }
    if start >= n {
        return false;
    }
    let limit: u64 = if neg {
        9223372036854775808
    } else {
        9223372036854775807
    };
    let mut acc: u64 = 0;
    let mut i: usize = start;
    while i < n
        invariant
            start <= i <= n,
            n == s@.len(),
            start as int == sign_len(s@),
            start < n,
            neg == is_neg(s@),
            limit == if neg {
                9223372036854775808u64
            } else {
                9223372036854775807u64
            },
            all_digits(s@.subrange(start as int, i as int)),
            acc == digits_val(s@.subrange(start as int, i as int)),
            acc <= limit,
        decreases n - i,
    {
        let c = s.get_char(i);
        if c < '0' || c > '9' {
            proof {
                assert(num_body(s@)[i - start as int] == s@[i as int]);
            }
            return false;
        }
        let d: u64 = (c as u32 - 48) as u64;
        proof {
            assert(s@.subrange(start as int, i as int + 1).drop_last() =~= s@.subrange(
                start as int,
                i as int,
            ));
            assert(s@.subrange(start as int, i as int + 1).last() == s@[i as int]);
            assert(d == digit_val(s@[i as int]));
        }
        if acc > limit / 10 || (acc == limit / 10 && d > limit % 10) {
            proof {
                let b = num_body(s@);
                assert(b.subrange(0, i + 1 - start as int) =~= s@.subrange(
                    start as int,
                    i as int + 1,
                ));
                lemma_digits_val_prefix(b, i + 1 - start as int);
                assert(digits_val(s@.subrange(start as int, i as int + 1)) == acc * 10 + d);
                assert(acc * 10 + d > limit);
            }
            return false;
        }
        acc = acc * 10 + d;
        i = i + 1;
    }
    proof {
        assert(num_body(s@) =~= s@.subrange(start as int, n as int));
    }
    true
}

/// The next digit character, as `succ_digit` reads it.
fn succ_char(c: char) -> (r: char)
    ensures
        r == succ_digit(c),
{
    if c == '0' {
        '1'
    } else if c == '1' {
        '2'
    } else if c == '2' {
        '3'
    } else if c == '3' {
        '4'
    } else if c == '4' {
        '5'
    } else if c == '5' {
        '6'
    } else if c == '6' {
        '7'
    } else if c == '7' {
        '8'
    } else if c == '8' {
        '9'
    } else {
        '0'
    }
}

/// Appends a single digit character to `out`.
fn push_digit_char(out: &mut String, c: char)
    requires
        is_digit(c),
    ensures
        final(out)@ == old(out)@.push(c),
{
    if c == '0' {
        out.append("0");
        proof {
            reveal_strlit("0");
            assert(out@ =~= old(out)@.push(c));
        }
    } else if c == '1' {
        out.append("1");
        proof {
            reveal_strlit("1");
            assert(out@ =~= old(out)@.push(c));
        }
    } else if c == '2' {
        out.append("2");
        proof {
            reveal_strlit("2");
            assert(out@ =~= old(out)@.push(c));
        }
    } else if c == '3' {
        out.append("3");
        proof {
            reveal_strlit("3");
            assert(out@ =~= old(out)@.push(c));
        }
    } else if c == '4' {
        out.append("4");
        proof {
            reveal_strlit("4");
            assert(out@ =~= old(out)@.push(c));
        }
    } else if c == '5' {
        out.append("5");
        proof {
            reveal_strlit("5");
            assert(out@ =~= old(out)@.push(c));
        }
    } else if c == '6' {
        out.append("6");
        proof {
            reveal_strlit("6");
            assert(out@ =~= old(out)@.push(c));
        }
    } else if c == '7' {
        out.append("7");
        proof {
            reveal_strlit("7");
            assert(out@ =~= old(out)@.push(c));
        }
    } else if c == '8' {
        out.append("8");
        proof {
            reveal_strlit("8");
            assert(out@ =~= old(out)@.push(c));
        }
    } else {
        out.append("9");
        proof {
            reveal_strlit("9");
            assert(c == '9');
            assert(out@ =~= old(out)@.push(c));
        }
    }
}

/// Appends the digit characters `digs[from..to]` to `out`.
#[verifier::loop_isolation(false)]
fn append_digit_range(out: &mut String, digs: &Vec<char>, from: usize, to: usize)
    requires
        from <= to <= digs@.len(),
        forall|i: int| from <= i < to ==> is_digit(#[trigger] digs@[i]),
    ensures
        final(out)@ == old(out)@ + digs@.subrange(from as int, to as int),
{
    let mut i = from;
    while i < to
        invariant
            from <= i <= to,
            out@ == old(out)@ + digs@.subrange(from as int, i as int),
        decreases to - i,
    {
        push_digit_char(out, digs[i]);
        proof {
            assert(out@ =~= old(out)@ + digs@.subrange(from as int, i as int + 1));
        }
        i = i + 1;
    }
}

/// Adds one to the digit string held in `digs`, with carry propagation.
#[verifier::loop_isolation(false)]
fn inc_digits_vec(digs: &mut Vec<char>)
    requires
        all_digits(old(digs)@),
    ensures
        final(digs)@ == inc_digits(old(digs)@),
        final(digs)@.len() >= old(digs)@.len(),
{
    let ghost orig = digs@;
    let mut j: usize = digs.len();
    let mut carry = true;
    while carry && j > 0
        invariant
            j <= digs@.len(),
            digs@.len() == orig.len(),
            forall|t2: int| 0 <= t2 < j ==> digs@[t2] == orig[t2],
            carry ==> forall|t2: int| j <= t2 < orig.len() ==> orig[t2] == '9',
            carry ==> forall|t2: int| j <= t2 < orig.len() ==> digs@[t2] == '0',
            !carry ==> digs@ == inc_digits(orig),
        decreases j,
    {
        j = j - 1;
        let c = digs[j];
        if c == '9' {
            digs.set(j, '0');
        } else {
            let sc = succ_char(c);
            digs.set(j, sc);
            carry = false;
            proof {
                assert(c == orig[j as int]);
                lemma_inc_digits_trailing(orig, j as int);
                let target = orig.subrange(0, j as int).push(succ_digit(orig[j as int]))
                    + char_repeat('0', (orig.len() - j - 1) as nat);
                assert(digs@.len() == target.len());
                assert forall|t: int| 0 <= t < digs@.len() implies digs@[t] == target[t] by {
                    if t < j {
                        assert(digs@[t] == orig[t]);
                        assert(target[t] == orig.subrange(0, j as int)[t]);
                    } else if t == j {
                        assert(digs@[t] == succ_digit(orig[j as int]));
                        assert(target[t] == succ_digit(orig[j as int]));
                    } else {
                        assert(digs@[t] == '0');
                        assert(target[t] == char_repeat('0', (orig.len() - j - 1) as nat)[t - j
                            - 1]);
                    }
                }
                assert(digs@ =~= target);
            }
        }
    }
    if carry {
        digs.insert(0, '1');
        proof {
            lemma_inc_digits_all_nines(orig);
            let target = seq!['1'] + char_repeat('0', orig.len());
            assert(digs@.len() == target.len());
            assert forall|t: int| 0 <= t < digs@.len() implies digs@[t] == target[t] by {
                if t == 0 {
                    assert(digs@[0] == '1');
                    assert(target[0] == '1');
                } else {
                    assert(digs@[t] == '0');
                    assert(target[t] == char_repeat('0', orig.len())[t - 1]);
                }
            }
            assert(digs@ =~= target);
        }
    }
}

/// Validates `s` against the plain decimal grammar and renders its value
/// with exactly three digits after the decimal point.
#[verifier::loop_isolation(false)]
#[verifier::rlimit(60)]
pub fn normalize_dbl_text(s: &str) -> (r: Option<String>)
    ensures
        r is Some <==> is_dbl_text(s@),
        r matches Some(v) ==> v@ == dbl_norm(s@),
{
    let n = s.unicode_len();
    let mut start: usize = 0;
    let mut neg = false;
    if n > 0 {
        let c = s.get_char(0);
        if c == '-' {
            neg = true;
            start = 1;
        } else if c == '+' {
            start = 1;
        }
    }
    proof {
        assert(start as int == sign_len(s@));
        assert(neg == is_neg(s@));
    }
    // locate the first dot
    let mut p: usize = start;
    while p < n && s.get_char(p) != '.'
        invariant
            start <= p <= n,
            forall|j: int| start <= j < p ==> s@[j] != '.',
        decreases n - p,
    {
        p = p + 1;
    }
    proof {
        let b = num_body(s@);
        assert forall|j: int| 0 <= j < p - start implies b[j] != '.' by {
            assert(b[j] == s@[j + start as int]);
        }
        if p < n {
            assert(b[p - start as int] == s@[p as int]);
        }
        lemma_dot_pos_of(b, p as int - start as int);
    }
    // validate the integer-part digits
    let mut i: usize = start;
    while i < p
        invariant
            start <= i <= p,
            forall|j: int| start <= j < i ==> is_digit(#[trigger] s@[j]),
        decreases p - i,
    {
        let c = s.get_char(i);
        if c < '0' || c > '9' {
            proof {
                assert(int_part(s@)[i - start as int] == s@[i as int]);
            }
            return None;
        }
        i = i + 1;
    }
    // validate the fraction digits
    let fstart: usize = if p < n {
        p + 1
    } else {
        n
    };
    let mut i2: usize = fstart;
    while i2 < n
        invariant
            fstart <= i2 <= n,
            forall|j: int| fstart <= j < i2 ==> is_digit(#[trigger] s@[j]),
        decreases n - i2,
    {
        let c = s.get_char(i2);
        if c < '0' || c > '9' {
            proof {
                assert(frac_part(s@)[i2 - fstart as int] == s@[i2 as int]);
            }
            return None;
        }
        i2 = i2 + 1;
    }
    proof {
        assert(int_part(s@).len() == p - start);
        assert(frac_part(s@).len() == n - fstart);
        assert forall|j: int| 0 <= j < int_part(s@).len() implies is_digit(
            #[trigger] int_part(s@)[j],
        ) by {
            assert(int_part(s@)[j] == s@[j + start as int]);
        }
        assert forall|j: int| 0 <= j < frac_part(s@).len() implies is_digit(
            #[trigger] frac_part(s@)[j],
        ) by {
            assert(frac_part(s@)[j] == s@[j + fstart as int]);
        }
    }
    if p - start == 0 && n - fstart == 0 {
        return None;
    }
    // collect the integer digits followed by exactly three fraction digits
    let mut digs: Vec<char> = Vec::new();
    let mut i3: usize = start;
    while i3 < p
        invariant
            start <= i3 <= p,
            digs@ == s@.subrange(start as int, i3 as int),
        decreases p - i3,
    {
        digs.push(s.get_char(i3));
        proof {
            assert(digs@ =~= s@.subrange(start as int, i3 as int + 1));
        }
        i3 = i3 + 1;
    }
    proof {
        assert(digs@ =~= int_part(s@));
    }
    let mut t: usize = 0;
    while t < 3
        invariant
            t <= 3,
            digs@ == int_part(s@) + frac3(s@).subrange(0, t as int),
        decreases 3 - t,
    {
        proof {
            assert(frac3(s@)[t as int] == if t < frac_part(s@).len() {
                frac_part(s@)[t as int]
            } else {
                '0'
            });
        }
        if p < n && t < n - (p + 1) {
            digs.push(s.get_char(p + 1 + t));
            proof {
                assert(frac_part(s@)[t as int] == s@[p + 1 + t]);
                assert(digs@ =~= int_part(s@) + frac3(s@).subrange(0, t as int + 1));
            }
        } else {
            digs.push('0');
            proof {
                assert(digs@ =~= int_part(s@) + frac3(s@).subrange(0, t as int + 1));
            }
        }
        t = t + 1;
    }
    proof {
        assert(frac3(s@).subrange(0, 3) =~= frac3(s@));
        assert(digs@ == int_part(s@) + frac3(s@));
        assert forall|k: int| 0 <= k < digs@.len() implies is_digit(#[trigger] digs@[k]) by {
            if k >= int_part(s@).len() {
                assert(digs@[k] == frac3(s@)[k - int_part(s@).len()]);
            }
        }
    }
    // round on the fourth fraction digit
    let ru: bool = if p < n && n - (p + 1) > 3 {
        let c4 = s.get_char(p + 4);
        c4 >= '5'
    } else {
        false
    };
    proof {
        if frac_part(s@).len() > 3 {
            assert(frac_part(s@)[3] == s@[p + 4]);
            assert(is_digit(frac_part(s@)[3]));
        }
        assert(ru == round_up(s@));
    }
    if ru {
        let ghost orig = digs@;
        inc_digits_vec(&mut digs);
        proof {
            assert forall|k: int| 0 <= k < digs@.len() implies is_digit(#[trigger] digs@[k]) by {
                lemma_inc_digits_all_digits(orig, k);
            }
        }
    }
    proof {
        assert(digs@ == dbl_digits(s@));
        assert(digs@.len() >= 3);
    }
    let out = render_digits(&digs, neg);
    proof {
        assert(out@ == dbl_norm(s@));
    }
    Some(out)
}

/// Renders a digit string holding at least three digits as the integer
/// digits without leading zeros, a dot, and the last three digits, with an
/// optional leading minus sign.
#[verifier::loop_isolation(false)]
fn render_digits(digs: &Vec<char>, neg: bool) -> (out: String)
    requires
        digs@.len() >= 3,
        forall|k: int| 0 <= k < digs@.len() ==> is_digit(#[trigger] digs@[k]),
    ensures
        out@ == (if neg {
            seq!['-']
        } else {
            Seq::<char>::empty()
        }) + trim_zeros(digs@.subrange(0, digs@.len() - 3)) + seq!['.'] + digs@.subrange(
            digs@.len() - 3,
            digs@.len() as int,
        ),
{
    let m = digs.len();
    let stop = m - 3;
    let mut z: usize = 0;
    while z < stop && digs[z] == '0'
        invariant
            z <= stop,
            forall|t2: int| 0 <= t2 < z ==> digs@[t2] == '0',
        decreases stop - z,
    {
        z = z + 1;
    }
    let ghost sign_seq: Seq<char> = if neg {
        seq!['-']
    } else {
        Seq::empty()
    };
    let mut out = String::new();
    if neg {
        out.append("-");
        proof {
            reveal_strlit("-");
            assert(out@ =~= sign_seq);
        }
    }
    let ghost ipart = trim_zeros(digs@.subrange(0, stop as int));
    if z >= stop {
        push_digit_char(&mut out, '0');
        proof {
            assert forall|t2: int|
                0 <= t2 < digs@.subrange(0, stop as int).len() implies digs@.subrange(
                0,
                stop as int,
            )[t2] == '0' by {
                assert(digs@.subrange(0, stop as int)[t2] == digs@[t2]);
            }
            lemma_trim_zeros_all_zeros(digs@.subrange(0, stop as int));
            assert(out@ =~= sign_seq + ipart);
        }
    } else {
        proof {
            assert forall|t2: int| 0 <= t2 < z implies digs@.subrange(0, stop as int)[t2]
                == '0' by {
                assert(digs@.subrange(0, stop as int)[t2] == digs@[t2]);
            }
            assert(digs@.subrange(0, stop as int)[z as int] == digs@[z as int]);
            lemma_trim_zeros_skip(digs@.subrange(0, stop as int), z as int);
            assert(digs@.subrange(0, stop as int).subrange(z as int, stop as int) =~= digs@.subrange(
                z as int,
                stop as int,
            ));
        }
        append_digit_range(&mut out, digs, z, stop);
        proof {
            assert(out@ == sign_seq + ipart);
        }
    }
    out.append(".");
    proof {
        reveal_strlit(".");
        assert(out@ =~= sign_seq + ipart + seq!['.']);
    }
    append_digit_range(&mut out, digs, m - 3, m);
    proof {
        assert(out@ =~= sign_seq + trim_zeros(digs@.subrange(0, digs@.len() - 3)) + seq!['.']
            + digs@.subrange(digs@.len() - 3, digs@.len() as int));
    }
    out
}

/// Every digit of an incremented digit string is again a digit.
proof fn lemma_inc_digits_all_digits(s: Seq<char>, k: int)
    requires
        all_digits(s),
        0 <= k < inc_digits(s).len(),
    ensures
        is_digit(inc_digits(s)[k]),
    decreases s.len(),
{
    if s.len() == 0 {
    } else if s.last() == '9' {
        if k < inc_digits(s.drop_last()).len() {
            lemma_inc_digits_all_digits(s.drop_last(), k);
        }
    } else {
        assert(is_digit(s[s.len() - 1]));
    }
}

} // verus!
