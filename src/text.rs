//! Joining and splitting text on a separator, and decimal rendering of
//! positions, as the attribute conventions of a group use them.
use vstd::prelude::*;
use vstd::string::*;

verus! {

/// `parts` laid end to end with `sep` between each two neighbours
/// (empty when there are no parts).
pub open spec fn joined(parts: Seq<Seq<char>>, sep: Seq<char>) -> Seq<char>
    decreases parts.len(),
{
    if parts.len() == 0 {
        Seq::empty()
    } else if parts.len() == 1 {
        parts[0]
    } else {
        parts[0] + sep + joined(parts.drop_first(), sep)
    }
}

/// `s` cut at each occurrence of `sep`, scanning from the left; the pieces
/// between occurrences are kept, empty ones included, so there is always at
/// least one piece.
pub open spec fn split_on(s: Seq<char>, sep: Seq<char>) -> Seq<Seq<char>>
    decreases s.len(),
{
    if sep.len() == 0 || s.len() < sep.len() {
        seq![s]
    } else if s.subrange(0, sep.len() as int) == sep {
        seq![Seq::<char>::empty()] + split_on(s.subrange(sep.len() as int, s.len() as int), sep)
    } else {
        let rest = split_on(s.drop_first(), sep);
        rest.update(0, seq![s[0]] + rest[0])
    }
}

/// `sep` occurs in `s`.
pub open spec fn contains(s: Seq<char>, sep: Seq<char>) -> bool {
    exists|i: int| 0 <= i && i + sep.len() <= s.len() && #[trigger] s.subrange(i, i + sep.len()) == sep
}

/// A separator whose first character does not come back later in it: two
/// occurrences of it can never overlap.
pub open spec fn separator_ok(sep: Seq<char>) -> bool {
    &&& sep.len() >= 1
    &&& forall|j: int| 1 <= j < sep.len() ==> #[trigger] sep[j] != sep[0]
}

/// The decimal digit for `d < 10`.
pub open spec fn digit_char(d: nat) -> char {
    if d == 0 { '0' }
    else if d == 1 { '1' }
    else if d == 2 { '2' }
    else if d == 3 { '3' }
    else if d == 4 { '4' }
    else if d == 5 { '5' }
    else if d == 6 { '6' }
    else if d == 7 { '7' }
    else if d == 8 { '8' }
    else { '9' }
}

/// `n` written in decimal, without sign or leading zeros.
pub open spec fn decimal(n: nat) -> Seq<char>
    decreases n,
{
    if n < 10 {
        seq![digit_char(n)]
    } else {
        decimal(n / 10).push(digit_char(n % 10))
    }
}

/// `c` is a decimal digit.
pub open spec fn is_digit(c: char) -> bool {
    c == '0' || c == '1' || c == '2' || c == '3' || c == '4' || c == '5' || c == '6' || c == '7' || c == '8'
        || c == '9'
}

/// The value of the decimal digit `c`.
pub open spec fn digit_of(c: char) -> nat {
    if c == '1' { 1 }
    else if c == '2' { 2 }
    else if c == '3' { 3 }
    else if c == '4' { 4 }
    else if c == '5' { 5 }
    else if c == '6' { 6 }
    else if c == '7' { 7 }
    else if c == '8' { 8 }
    else if c == '9' { 9 }
    else { 0 }
}

/// `s` is a number written in decimal as `decimal` writes it: one or more
/// digits, with no leading zero unless it is the single digit `0`.
pub open spec fn is_canonical_decimal(s: Seq<char>) -> bool {
    &&& s.len() >= 1
    &&& forall|i: int| 0 <= i < s.len() ==> is_digit(#[trigger] s[i])
    &&& (s.len() == 1 || s[0] != '0')
}

/// The number that the digits `s` stand for.
pub open spec fn decimal_value(s: Seq<char>) -> nat
    decreases s.len(),
{
    if s.len() == 0 {
        0
    } else {
        10 * decimal_value(s.drop_last()) + digit_of(s.last())
    }
}

proof fn lemma_digit_round_trip(d: nat, c: char)
    ensures
        d < 10 ==> digit_of(digit_char(d)) == d,
        is_digit(c) ==> digit_char(digit_of(c)) == c && digit_of(c) < 10,
{
    if d < 10 {
        assert(d == 0 || d == 1 || d == 2 || d == 3 || d == 4 || d == 5 || d == 6 || d == 7 || d == 8 || d == 9);
    }
}

/// A decimal text with no leading zero stands for a positive number.
proof fn lemma_decimal_value_positive(s: Seq<char>)
    requires
        s.len() >= 1,
        forall|i: int| 0 <= i < s.len() ==> is_digit(#[trigger] s[i]),
        s[0] != '0',
    ensures
        decimal_value(s) >= 1,
    decreases s.len(),
{
    if s.len() == 1 {
        lemma_digit_round_trip(0, s[0]);
        assert(s.drop_last().len() == 0);
    } else {
        let d = s.drop_last();
        assert(d[0] == s[0]);
        assert forall|i: int| 0 <= i < d.len() implies is_digit(#[trigger] d[i]) by {
            assert(d[i] == s[i]);
        }
        lemma_decimal_value_positive(d);
    }
}

/// Reading a canonical decimal text and writing its value gives it back.
pub proof fn lemma_decimal_parse(s: Seq<char>)
    requires
        is_canonical_decimal(s),
    ensures
        decimal(decimal_value(s)) == s,
    decreases s.len(),
{
    lemma_digit_round_trip(0, s.last());
    let d = s.drop_last();
    if s.len() == 1 {
        assert(d.len() == 0);
        assert(decimal_value(s) == digit_of(s[0]));
        assert(seq![s[0]] == s);
    } else {
        assert(d[0] == s[0]);
        assert forall|i: int| 0 <= i < d.len() implies is_digit(#[trigger] d[i]) by {
            assert(d[i] == s[i]);
        }
        lemma_decimal_value_positive(d);
        lemma_decimal_parse(d);
        let v = decimal_value(s);
        let dv = decimal_value(d);
        let l = digit_of(s.last());
        assert(v == 10 * dv + l);
        assert(v >= 10);
        assert(v / 10 == dv);
        assert(v % 10 == l);
        assert(d.push(s.last()) == s);
    }
}

/// `decimal` writes canonical decimal text, which reads back as the number.
pub proof fn lemma_decimal_canonical(n: nat)
    ensures
        is_canonical_decimal(decimal(n)),
        decimal_value(decimal(n)) == n,
        n >= 1 ==> decimal(n)[0] != '0',
    decreases n,
{
    lemma_decimal_digits(n);
    if n < 10 {
        lemma_digit_round_trip(n, 'a');
        assert(decimal(n).drop_last().len() == 0);
        assert(decimal_value(decimal(n).drop_last()) == 0);
        assert(decimal(n).last() == digit_char(n));
        assert(n == 0 || n == 1 || n == 2 || n == 3 || n == 4 || n == 5 || n == 6 || n == 7 || n == 8 || n == 9);
    } else {
        lemma_decimal_canonical(n / 10);
        lemma_digit_round_trip(n % 10, 'a');
        let s = decimal(n);
        assert(s.drop_last() == decimal(n / 10));
        assert(s[0] == decimal(n / 10)[0]);
        assert(s.last() == digit_char(n % 10));
        assert(decimal_value(s) == 10 * decimal_value(decimal(n / 10)) + digit_of(digit_char(n % 10)));
        assert(n == 10 * (n / 10) + n % 10);
    }
}

/// The decimal text of a number is made of one or more digits.
pub proof fn lemma_decimal_digits(n: nat)
    ensures
        decimal(n).len() >= 1,
        forall|i: int| 0 <= i < decimal(n).len() ==> is_digit(#[trigger] decimal(n)[i]),
    decreases n,
{
    if n >= 10 {
        lemma_decimal_digits(n / 10);
    }
}

proof fn lemma_digit_char_injective(x: nat, y: nat)
    requires
        x < 10,
        y < 10,
        digit_char(x) == digit_char(y),
    ensures
        x == y,
{
    assert(x == 0 || x == 1 || x == 2 || x == 3 || x == 4 || x == 5 || x == 6 || x == 7 || x == 8 || x == 9);
    assert(y == 0 || y == 1 || y == 2 || y == 3 || y == 4 || y == 5 || y == 6 || y == 7 || y == 8 || y == 9);
}

/// Different numbers have different decimal texts.
pub proof fn lemma_decimal_injective(a: nat, b: nat)
    requires
        decimal(a) == decimal(b),
    ensures
        a == b,
    decreases a,
{
    if a >= 10 && b >= 10 {
        let da = decimal(a / 10);
        let db = decimal(b / 10);
        assert(decimal(a).drop_last() == da);
        assert(decimal(b).drop_last() == db);
        lemma_decimal_injective(a / 10, b / 10);
        assert(digit_char(a % 10) == decimal(a).last());
        assert(digit_char(b % 10) == decimal(b).last());
        lemma_digit_char_injective(a % 10, b % 10);
        assert(a == 10 * (a / 10) + a % 10);
        assert(b == 10 * (b / 10) + b % 10);
    } else if a >= 10 {
        lemma_decimal_digits(a / 10);
        assert(decimal(a).len() >= 2);
    } else if b >= 10 {
        lemma_decimal_digits(b / 10);
        assert(decimal(b).len() >= 2);
    } else {
        assert(decimal(a)[0] == digit_char(a));
        assert(decimal(b)[0] == digit_char(b));
        lemma_digit_char_injective(a, b);
    }
}

/// Splitting always gives at least one piece.
pub proof fn lemma_split_nonempty(s: Seq<char>, sep: Seq<char>)
    ensures
        split_on(s, sep).len() >= 1,
    decreases s.len(),
{
    if sep.len() == 0 || s.len() < sep.len() {
    } else if s.subrange(0, sep.len() as int) == sep {
    } else {
        lemma_split_nonempty(s.drop_first(), sep);
    }
}

proof fn lemma_split_tail(s: Seq<char>, sep: Seq<char>, i: int)
    requires
        sep.len() >= 1,
        0 <= i < s.len(),
        !(i + sep.len() <= s.len() && s.subrange(i, i + sep.len()) == sep),
    ensures
        split_on(s.subrange(i, s.len() as int), sep) == ({
            let rest = split_on(s.subrange(i + 1, s.len() as int), sep);
            rest.update(0, seq![s[i]] + rest[0])
        }),
{
    let t = s.subrange(i, s.len() as int);
    assert(t.drop_first() == s.subrange(i + 1, s.len() as int));
    if t.len() >= sep.len() {
        assert(t.subrange(0, sep.len() as int) == s.subrange(i, i + sep.len()));
    } else {
        assert(t.drop_first().len() < sep.len());
        assert(split_on(t.drop_first(), sep) == seq![t.drop_first()]);
        assert(seq![t[0]] + t.drop_first() == t);
    }
}

proof fn lemma_split_at_sep(s: Seq<char>, sep: Seq<char>, i: int)
    requires
        sep.len() >= 1,
        0 <= i,
        i + sep.len() <= s.len(),
        s.subrange(i, i + sep.len()) == sep,
    ensures
        split_on(s.subrange(i, s.len() as int), sep) == seq![Seq::<char>::empty()] + split_on(
            s.subrange(i + sep.len(), s.len() as int),
            sep,
        ),
{
    let t = s.subrange(i, s.len() as int);
    assert(t.subrange(0, sep.len() as int) == s.subrange(i, i + sep.len()));
    assert(t.subrange(sep.len() as int, t.len() as int) == s.subrange(i + sep.len(), s.len() as int));
}

/// A text without `sep` in it is split into itself alone.
proof fn lemma_split_without_sep(s: Seq<char>, sep: Seq<char>)
    requires
        sep.len() >= 1,
        !contains(s, sep),
    ensures
        split_on(s, sep) == seq![s],
    decreases s.len(),
{
    if s.len() >= sep.len() {
        assert(s.subrange(0, 0int + sep.len()) != sep);
        let d = s.drop_first();
        assert forall|i: int| 0 <= i && i + sep.len() <= d.len() implies #[trigger] d.subrange(
            i,
            i + sep.len(),
        ) != sep by {
            assert(d.subrange(i, i + sep.len()) == s.subrange(i + 1, i + 1 + sep.len()));
        }
        lemma_split_without_sep(d, sep);
        assert(seq![s[0]] + d == s);
        assert(seq![d].update(0, seq![s[0]] + d) == seq![s]);
    }
}

/// Splitting `a + t`, where `t` starts with the separator and `a` holds none,
/// puts `a` in front of the first piece of `t`.
proof fn lemma_split_prefix(a: Seq<char>, t: Seq<char>, sep: Seq<char>)
    requires
        separator_ok(sep),
        !contains(a, sep),
        t.len() >= sep.len(),
        t.subrange(0, sep.len() as int) == sep,
    ensures
        split_on(a + t, sep) == ({
            let r = split_on(t, sep);
            r.update(0, a + r[0])
        }),
    decreases a.len(),
{
    lemma_split_nonempty(t, sep);
    let r = split_on(t, sep);
    if a.len() == 0 {
        assert(a + t == t);
        assert(r.update(0, a + r[0]) =~= r);
    } else {
        let s = a + t;
        assert(s.subrange(0, sep.len() as int) != sep) by {
            if s.subrange(0, sep.len() as int) == sep {
                if a.len() >= sep.len() {
                    assert(a.subrange(0, 0int + sep.len()) == s.subrange(0, sep.len() as int));
                } else {
                    let k = a.len() as int;
                    assert(s[k] == t[0]);
                    assert(t[0] == t.subrange(0, sep.len() as int)[0]);
                    assert(s[k] == s.subrange(0, sep.len() as int)[k]);
                    assert(sep[k] != sep[0]);
                }
            }
        }
        assert(s.len() >= sep.len());
        let d = a.drop_first();
        assert forall|i: int| 0 <= i && i + sep.len() <= d.len() implies #[trigger] d.subrange(
            i,
            i + sep.len(),
        ) != sep by {
            assert(d.subrange(i, i + sep.len()) == a.subrange(i + 1, i + 1 + sep.len()));
        }
        lemma_split_prefix(d, t, sep);
        assert(s.drop_first() == d + t);
        let r2 = split_on(d + t, sep);
        assert(r2 == r.update(0, d + r[0]));
        assert(seq![s[0]] + (d + r[0]) == a + r[0]);
        assert(r2.update(0, seq![s[0]] + r2[0]) =~= r.update(0, a + r[0]));
    }
}

/// Splitting undoes joining, when no part holds the separator and the
/// separator cannot overlap itself.
pub proof fn lemma_split_joined(parts: Seq<Seq<char>>, sep: Seq<char>)
    requires
        separator_ok(sep),
        parts.len() >= 1,
        forall|i: int| 0 <= i < parts.len() ==> !contains(#[trigger] parts[i], sep),
    ensures
        split_on(joined(parts, sep), sep) == parts,
    decreases parts.len(),
{
    if parts.len() == 1 {
        lemma_split_without_sep(parts[0], sep);
        assert(seq![parts[0]] =~= parts);
    } else {
        let rest = parts.drop_first();
        assert forall|i: int| 0 <= i < rest.len() implies !contains(#[trigger] rest[i], sep) by {
            assert(rest[i] == parts[i + 1]);
        }
        lemma_split_joined(rest, sep);
        let t = sep + joined(rest, sep);
        assert(t.subrange(0, sep.len() as int) == sep);
        assert(t.subrange(sep.len() as int, t.len() as int) == joined(rest, sep));
        assert(split_on(t, sep) == seq![Seq::<char>::empty()] + rest);
        lemma_split_prefix(parts[0], t, sep);
        assert(parts[0] + sep + joined(rest, sep) == parts[0] + t);
        assert((seq![Seq::<char>::empty()] + rest).update(0, parts[0] + Seq::<char>::empty()) =~= parts);
    }
}

/// Joining one more part adds the separator and the part at the end.
pub proof fn lemma_joined_push(parts: Seq<Seq<char>>, x: Seq<char>, sep: Seq<char>)
    requires
        parts.len() >= 1,
    ensures
        joined(parts.push(x), sep) == joined(parts, sep) + sep + x,
    decreases parts.len(),
{
    let p = parts.push(x);
    assert(p.drop_first() == parts.drop_first().push(x));
    assert(p[0] == parts[0]);
    if parts.len() == 1 {
        assert(p.drop_first() == seq![x]);
        assert(joined(p.drop_first(), sep) == x);
        assert(joined(parts, sep) == parts[0]);
    } else {
        lemma_joined_push(parts.drop_first(), x, sep);
        assert(joined(p, sep) =~= parts[0] + sep + (joined(parts.drop_first(), sep) + sep + x));
    }
}

/// Lays `parts` end to end with `sep` between neighbours, as `join` on a
/// slice of strings does.
pub fn join(parts: &Vec<String>, sep: &str) -> (r: String)
    ensures
        r@ == joined(parts.deep_view(), sep@),
{
    let mut r = String::new();
    let n = parts.len();
    for i in 0..n
        invariant
            n == parts.len(),
            r@ == joined(parts.deep_view().subrange(0, i as int), sep@),
    {
        let ghost before = parts.deep_view().subrange(0, i as int);
        if i > 0 {
            r.append(sep);
            proof {
                lemma_joined_push(before, parts[i as int]@, sep@);
            }
        }
        r.append(parts[i].as_str());
        assert(parts.deep_view().subrange(0, i + 1) == before.push(parts[i as int]@));
        proof {
            if i == 0 {
                assert(r@ =~= parts[0]@);
            }
        }
    }
    assert(parts.deep_view().subrange(0, n as int) == parts.deep_view());
    r
}

/// The decimal digit `d` as text.
fn digit_text(d: usize) -> (r: &'static str)
    requires
        d < 10,
    ensures
        r@ == seq![digit_char(d as nat)],
{
    proof {
        reveal_strlit("0");
        reveal_strlit("1");
        reveal_strlit("2");
        reveal_strlit("3");
        reveal_strlit("4");
        reveal_strlit("5");
        reveal_strlit("6");
        reveal_strlit("7");
        reveal_strlit("8");
        reveal_strlit("9");
    }
    match d {
        0 => "0",
        1 => "1",
        2 => "2",
        3 => "3",
        4 => "4",
        5 => "5",
        6 => "6",
        7 => "7",
        8 => "8",
        _ => "9",
    }
}

/// `n` written in decimal, as `to_string` on an integer gives it.
pub fn decimal_text(n: usize) -> (r: String)
    ensures
        r@ == decimal(n as nat),
    decreases n,
{
    if n < 10 {
        String::from_str(digit_text(n))
    } else {
        let mut r = decimal_text(n / 10);
        r.append(digit_text(n % 10));
        r
    }
}

/// The characters of `s`, in order.
pub fn chars_of(s: &str) -> (r: Vec<char>)
    ensures
        r@ == s@,
{
    let n = s.unicode_len();
    let mut r: Vec<char> = Vec::new();
    for i in 0..n
        invariant
            n == s@.len(),
            r@ == s@.subrange(0, i as int),
    {
        let c = s.get_char(i);
        r.push(c);
        assert(r@ == s@.subrange(0, i + 1));
    }
    assert(r@ == s@);
    r
}

/// The value of `c` if it is a decimal digit.
fn digit_value(c: char) -> (r: Option<usize>)
    ensures
        r is Some <==> is_digit(c),
        r is Some ==> r->0 == digit_of(c),
{
    if c == '0' { Some(0) }
    else if c == '1' { Some(1) }
    else if c == '2' { Some(2) }
    else if c == '3' { Some(3) }
    else if c == '4' { Some(4) }
    else if c == '5' { Some(5) }
    else if c == '6' { Some(6) }
    else if c == '7' { Some(7) }
    else if c == '8' { Some(8) }
    else if c == '9' { Some(9) }
    else { None }
}

/// Whether the characters of `s` from `start` on are the decimal text of a
/// number greater than `n`.
pub fn decimal_above(s: &Vec<char>, start: usize, n: usize) -> (r: bool)
    requires
        start <= s@.len(),
    ensures
        r == (exists|p: nat| p > n && decimal(p) == s@.subrange(start as int, s@.len() as int)),
{
    let len = s.len();
    let ghost rest = s@.subrange(start as int, len as int);
    if start == len {
        proof {
            assert forall|p: nat| p > n implies decimal(p) != rest by {
                lemma_decimal_digits(p);
            }
        }
        return false;
    }
    if len - start > 1 && s[start] == '0' {
        proof {
            assert forall|p: nat| p > n implies decimal(p) != rest by {
                lemma_decimal_canonical(p);
                assert(rest[0] == s@[start as int]);
            }
        }
        return false;
    }
    let mut acc: usize = 0;
    let mut big = false;
    let mut k: usize = start;
    while k < len
        invariant
            len == s@.len(),
            rest == s@.subrange(start as int, len as int),
            start <= k <= len,
            forall|i: int| start <= i < k ==> is_digit(#[trigger] s@[i]),
            big ==> decimal_value(s@.subrange(start as int, k as int)) > n,
            !big ==> acc == decimal_value(s@.subrange(start as int, k as int)) && acc <= n,
        decreases len - k,
    {
        let c = s[k];
        match digit_value(c) {
            None => {
                proof {
                    assert forall|p: nat| p > n implies decimal(p) != rest by {
                        lemma_decimal_digits(p);
                        if decimal(p) == rest {
                            assert(rest[k - start] == c);
                        }
                    }
                }
                return false;
            },
            Some(d) => {
                let ghost before = s@.subrange(start as int, k as int);
                let ghost after = s@.subrange(start as int, k + 1);
                assert(after.drop_last() == before);
                assert(decimal_value(after) == 10 * decimal_value(before) + d);
                if !big {
                    if d <= n && acc <= (n - d) / 10 {
                        acc = acc * 10 + d;
                    } else {
                        big = true;
                    }
                }
                k = k + 1;
            },
        }
    }
    proof {
        assert(s@.subrange(start as int, k as int) == rest);
        assert(is_canonical_decimal(rest)) by {
            assert forall|i: int| 0 <= i < rest.len() implies is_digit(#[trigger] rest[i]) by {
                assert(rest[i] == s@[start + i]);
            }
            assert(rest[0] == s@[start as int]);
        }
        lemma_decimal_parse(rest);
        if big {
            assert(decimal_value(rest) > n && decimal(decimal_value(rest)) == rest);
        } else {
            assert forall|p: nat| p > n implies decimal(p) != rest by {
                lemma_decimal_canonical(p);
            }
        }
    }
    big
}

/// Cuts `s` at each occurrence of `sep`, as `str::split` does.
pub fn split(s: &str, sep: &str) -> (r: Vec<String>)
    requires
        sep@.len() >= 1,
    ensures
        r.deep_view() == split_on(s@, sep@),
{
    let cs = chars_of(s);
    let ps = chars_of(sep);
    let n = cs.len();
    let m = ps.len();
    let mut out: Vec<String> = Vec::new();
    let mut start: usize = 0;
    let mut i: usize = 0;
    proof {
        lemma_split_nonempty(s@, sep@);
        let rest = split_on(s@.subrange(0, n as int), sep@);
        assert(s@.subrange(0, n as int) == s@);
        assert(rest.update(0, s@.subrange(0, 0) + rest[0]) =~= rest);
        assert(out.deep_view() + rest =~= rest);
    }
    while m <= n - i
        invariant
            cs@ == s@,
            ps@ == sep@,
            n == s@.len(),
            m == sep@.len(),
            m >= 1,
            start <= i <= n,
            split_on(s@, sep@) == out.deep_view() + ({
                let rest = split_on(s@.subrange(i as int, n as int), sep@);
                rest.update(0, s@.subrange(start as int, i as int) + rest[0])
            }),
        decreases n - i,
    {
        let mut matched = true;
        let mut k: usize = 0;
        while k < m
            invariant
                cs@ == s@,
                ps@ == sep@,
                n == s@.len(),
                m == sep@.len(),
                i + m <= n,
                k <= m,
                matched <==> (forall|j: int| 0 <= j < k ==> cs@[i + j] == ps@[j]),
            decreases m - k,
        {
            if cs[i + k] != ps[k] {
                matched = false;
            }
            k = k + 1;
        }
        let ghost rest_old = split_on(s@.subrange(i as int, n as int), sep@);
        if matched {
            assert(s@.subrange(i as int, i + m) == sep@);
            proof {
                lemma_split_at_sep(s@, sep@, i as int);
            }
            let piece = String::from_str(s.substring_char(start, i));
            let ghost before = out.deep_view();
            out.push(piece);
            assert(out.deep_view() == before.push(s@.subrange(start as int, i as int)));
            i = i + m;
            start = i;
            let ghost rest = split_on(s@.subrange(i as int, n as int), sep@);
            proof {
                lemma_split_nonempty(s@.subrange(i as int, n as int), sep@);
            }
            assert(rest_old == seq![Seq::<char>::empty()] + rest);
            assert(rest.update(0, s@.subrange(start as int, i as int) + rest[0]) =~= rest);
            assert(rest_old.update(0, before.last() + rest_old[0]) =~= seq![before.last()] + rest);
            assert(split_on(s@, sep@) =~= out.deep_view() + rest);
        } else {
            assert(!(s@.subrange(i as int, i + m) == sep@)) by {
                let j = choose|j: int| 0 <= j < k && cs@[i + j] != ps@[j];
                assert(s@.subrange(i as int, i + m)[j] == s@[i + j]);
            }
            proof {
                lemma_split_tail(s@, sep@, i as int);
            }
            let ghost rest = split_on(s@.subrange(i + 1, n as int), sep@);
            proof {
                lemma_split_nonempty(s@.subrange(i + 1, n as int), sep@);
            }
            assert(s@.subrange(start as int, i as int) + (seq![s@[i as int]] + rest[0])
                =~= s@.subrange(start as int, i + 1) + rest[0]);
            i = i + 1;
        }
    }
    assert(split_on(s@.subrange(i as int, n as int), sep@) == seq![s@.subrange(i as int, n as int)]);
    assert(s@.subrange(start as int, i as int) + s@.subrange(i as int, n as int) == s@.subrange(
        start as int,
        n as int,
    ));
    let piece = String::from_str(s.substring_char(start, n));
    let ghost before = out.deep_view();
    out.push(piece);
    assert(out.deep_view() == before.push(s@.subrange(start as int, n as int)));
    out
}

} // verus!
