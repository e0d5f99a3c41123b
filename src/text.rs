//! Character sequences: splitting, trimming and unsigned decimal numbers.

use vstd::prelude::*;
use vstd::string::*;

verus! {

/// The characters that `str::trim` strips: Unicode's White_Space property.
pub open spec fn is_space(c: char) -> bool {
    let u = c as u32;
    (9 <= u <= 13) || u == 32 || u == 0x85 || u == 0xA0 || u == 0x1680 || (0x2000 <= u <= 0x200A)
        || u == 0x2028 || u == 0x2029 || u == 0x202F || u == 0x205F || u == 0x3000
}

pub fn is_space_char(c: char) -> (r: bool)
    ensures
        r == is_space(c),
{
    let u = c as u32;
    (9 <= u && u <= 13) || u == 32 || u == 0x85 || u == 0xA0 || u == 0x1680 || (0x2000 <= u && u
        <= 0x200A) || u == 0x2028 || u == 0x2029 || u == 0x202F || u == 0x205F || u == 0x3000
}

/// The pieces of `s` between occurrences of `sep`, as `str::split` gives them:
/// always at least one piece, and an empty one at each end where `s` starts or
/// ends with `sep`.
pub open spec fn split(s: Seq<char>, sep: char) -> Seq<Seq<char>>
    decreases s.len(),
{
    if s.len() == 0 {
        seq![Seq::empty()]
    } else {
        let p = split(s.drop_last(), sep);
        if s.last() == sep {
            p.push(Seq::empty())
        } else {
            p.update(p.len() - 1, p.last().push(s.last()))
        }
    }
}

pub proof fn lemma_split_len(s: Seq<char>, sep: char)
    ensures
        split(s, sep).len() >= 1,
    decreases s.len(),
{
    if s.len() > 0 {
        lemma_split_len(s.drop_last(), sep);
    }
}

pub proof fn lemma_split_first(s: Seq<char>, sep: char)
    ensures
        split(s, sep).len() >= 1,
        split(s, sep)[0].len() <= s.len(),
        split(s, sep)[0] == s.take(split(s, sep)[0].len() as int),
        split(s, sep).len() == 1 ==> split(s, sep)[0] == s,
        split(s, sep).len() > 1 ==> split(s, sep)[0].len() < s.len() && s[split(s, sep)[0].len() as int] == sep,
    decreases s.len(),
{
    if s.len() == 0 {
        assert(s.take(0) =~= s);
    } else {
        let t = s.drop_last();
        lemma_split_first(t, sep);
        let p = split(t, sep);
        let k = p[0].len() as int;
        if s.last() == sep {
            if p.len() == 1 {
                assert(s.take(k) =~= t);
            } else {
                assert(s.take(k) =~= t.take(k));
            }
        } else {
            if p.len() == 1 {
                assert(split(s, sep)[0] =~= s);
                assert(s.take(s.len() as int) =~= s);
            } else {
                assert(s.take(k) =~= t.take(k));
            }
        }
    }
}

/// Whether `c` does not occur in `s`.
pub open spec fn free_of(s: Seq<char>, c: char) -> bool {
    forall|i: int| 0 <= i < s.len() ==> s[i] != c
}

/// Text without `sep` is one piece.
pub proof fn lemma_split_single(a: Seq<char>, sep: char)
    requires
        free_of(a, sep),
    ensures
        split(a, sep) == seq![a],
    decreases a.len(),
{
    if a.len() == 0 {
        assert(a =~= Seq::<char>::empty());
        assert(split(a, sep) =~= seq![a]);
    } else {
        let t = a.drop_last();
        assert(free_of(t, sep)) by {
            assert forall|i: int| 0 <= i < t.len() implies t[i] != sep by {
                assert(t[i] == a[i]);
            }
        }
        lemma_split_single(t, sep);
        assert(a.last() == a[a.len() - 1]);
        assert(a.last() != sep);
        assert(t.push(a.last()) =~= a);
        let p = split(t, sep);
        assert(p.len() == 1 && p.last() == t);
        assert(split(a, sep) == p.update(0, t.push(a.last())));
        assert(split(a, sep) =~= seq![a]);
    }
}

/// Splitting at a separator that joins two texts joins their pieces.
pub proof fn lemma_split_concat(a: Seq<char>, b: Seq<char>, sep: char)
    ensures
        split(a + seq![sep] + b, sep) == split(a, sep) + split(b, sep),
    decreases b.len(),
{
    let w = a + seq![sep] + b;
    lemma_split_len(a, sep);
    if b.len() == 0 {
        assert(w.drop_last() =~= a);
        assert(split(b, sep) =~= seq![Seq::<char>::empty()]);
        assert(split(w, sep) =~= split(a, sep) + split(b, sep));
    } else {
        let b0 = b.drop_last();
        lemma_split_concat(a, b0, sep);
        lemma_split_len(b0, sep);
        assert(w.drop_last() =~= a + seq![sep] + b0);
        assert(w.last() == b.last());
        assert(split(w, sep) =~= split(a, sep) + split(b, sep));
    }
}

/// Text without `sep` put in front goes into the first piece.
pub proof fn lemma_split_prefix(x: Seq<char>, y: Seq<char>, sep: char)
    requires
        free_of(x, sep),
    ensures
        split(x + y, sep) == split(y, sep).update(0, x + split(y, sep)[0]),
    decreases y.len(),
{
    lemma_split_len(y, sep);
    if y.len() == 0 {
        lemma_split_single(x, sep);
        assert(x + y =~= x);
        assert(split(y, sep) =~= seq![Seq::<char>::empty()]);
        assert(split(x + y, sep) =~= split(y, sep).update(0, x + split(y, sep)[0]));
    } else {
        let y0 = y.drop_last();
        lemma_split_prefix(x, y0, sep);
        lemma_split_len(y0, sep);
        assert((x + y).drop_last() =~= x + y0);
        assert((x + y).last() == y.last());
        assert(split(x + y, sep) =~= split(y, sep).update(0, x + split(y, sep)[0]));
    }
}

/// Text without `sep` put at the end goes into the last piece.
pub proof fn lemma_split_suffix(x: Seq<char>, y: Seq<char>, sep: char)
    requires
        free_of(y, sep),
    ensures
        split(x + y, sep) == split(x, sep).update(
            split(x, sep).len() - 1,
            split(x, sep).last() + y,
        ),
    decreases y.len(),
{
    lemma_split_len(x, sep);
    if y.len() == 0 {
        assert(x + y =~= x);
        assert(split(x + y, sep) =~= split(x, sep).update(
            split(x, sep).len() - 1,
            split(x, sep).last() + y,
        ));
    } else {
        let y0 = y.drop_last();
        assert(free_of(y0, sep)) by {
            assert forall|i: int| 0 <= i < y0.len() implies y0[i] != sep by {
                assert(y0[i] == y[i]);
            }
        }
        lemma_split_suffix(x, y0, sep);
        assert((x + y).drop_last() =~= x + y0);
        assert((x + y).last() == y[y.len() - 1]);
        assert(y[y.len() - 1] != sep);
        let q = split(x, sep);
        assert((q.last() + y0).push(y.last()) =~= q.last() + y);
        assert(split(x + y, sep) =~= split(x, sep).update(
            split(x, sep).len() - 1,
            split(x, sep).last() + y,
        ));
    }
}

/// A space in front does not change what trimming gives.
pub proof fn lemma_trim_space_front(c: char, p: Seq<char>)
    requires
        is_space(c),
    ensures
        trim(seq![c] + p) == trim(p),
{
    assert((seq![c] + p).drop_first() =~= p);
}

proof fn lemma_trim_start_push(p: Seq<char>, c: char)
    requires
        is_space(c),
    ensures
        trim_start(p).len() > 0 ==> trim_start(p.push(c)) == trim_start(p).push(c),
        trim_start(p).len() == 0 ==> trim_start(p.push(c)).len() == 0,
    decreases p.len(),
{
    if p.len() == 0 {
        assert(p.push(c).drop_first() =~= Seq::<char>::empty());
        assert(trim_start(Seq::<char>::empty()) == Seq::<char>::empty());
        assert(trim_start(p.push(c)) == trim_start(p.push(c).drop_first()));
    } else if is_space(p[0]) {
        assert(p.push(c).drop_first() =~= p.drop_first().push(c));
        assert(p.push(c)[0] == p[0]);
        lemma_trim_start_push(p.drop_first(), c);
    } else {
        assert(p.push(c)[0] == p[0]);
    }
}

/// A space at the end does not change what trimming gives.
pub proof fn lemma_trim_space_back(p: Seq<char>, c: char)
    requires
        is_space(c),
    ensures
        trim(p.push(c)) == trim(p),
{
    lemma_trim_start_push(p, c);
    if trim_start(p).len() > 0 {
        assert(trim_start(p).push(c).drop_last() =~= trim_start(p));
    } else {
        assert(trim_start(p) =~= Seq::<char>::empty());
        assert(trim_start(p.push(c)) =~= Seq::<char>::empty());
    }
}

/// Text that neither starts nor ends with a space is its own trim.
pub proof fn lemma_trim_fixed(s: Seq<char>)
    requires
        s.len() == 0 || (!is_space(s[0]) && !is_space(s.last())),
    ensures
        trim(s) == s,
{
}

/// The contents of each vector in `v`.
pub open spec fn views(v: Seq<Vec<char>>) -> Seq<Seq<char>> {
    v.map_values(|x: Vec<char>| x@)
}

/// Splits `s` at every `sep`.
pub fn split_on(s: &Vec<char>, sep: char) -> (r: Vec<Vec<char>>)
    ensures
        views(r@) == split(s@, sep),
{
    let mut pieces: Vec<Vec<char>> = Vec::new();
    let mut cur: Vec<char> = Vec::new();
    let mut i: usize = 0;
    proof {
        assert(s@.take(0) =~= Seq::<char>::empty());
        assert(views(pieces@).push(cur@) =~= seq![Seq::<char>::empty()]);
    }
    while i < s.len()
        invariant
            i <= s.len(),
            views(pieces@).push(cur@) == split(s@.take(i as int), sep),
        decreases s.len() - i,
    {
        let c = s[i];
        proof {
            let t = s@.take(i + 1);
            assert(t.drop_last() =~= s@.take(i as int));
            assert(t.last() == c);
            lemma_split_len(s@.take(i as int), sep);
        }
        if c == sep {
            let ghost old_pieces = pieces@;
            pieces.push(cur);
            cur = Vec::new();
            assert(views(pieces@) =~= views(old_pieces).push(views(pieces@).last()));
            assert(views(pieces@).push(cur@) =~= split(s@.take(i + 1), sep));
        } else {
            let ghost old_pieces = views(pieces@);
            let ghost old_cur = cur@;
            cur.push(c);
            assert(views(pieces@).push(cur@) =~= old_pieces.push(old_cur).update(
                old_pieces.len() as int,
                old_cur.push(c),
            ));
        }
        i += 1;
    }
    assert(s@.take(s.len() as int) =~= s@);
    let ghost old_pieces = pieces@;
    pieces.push(cur);
    assert(views(pieces@) =~= views(old_pieces).push(views(pieces@).last()));
    pieces
}


/// `s` without the spaces at its start.
pub open spec fn trim_start(s: Seq<char>) -> Seq<char>
    decreases s.len(),
{
    if s.len() > 0 && is_space(s[0]) {
        trim_start(s.drop_first())
    } else {
        s
    }
}

/// `s` without the spaces at its end.
pub open spec fn trim_end(s: Seq<char>) -> Seq<char>
    decreases s.len(),
{
    if s.len() > 0 && is_space(s.last()) {
        trim_end(s.drop_last())
    } else {
        s
    }
}

/// `s` without the spaces at either end, as `str::trim` gives it.
pub open spec fn trim(s: Seq<char>) -> Seq<char> {
    trim_end(trim_start(s))
}

/// Strips the spaces at both ends of `s`.
pub fn trim_chars(s: &Vec<char>) -> (r: Vec<char>)
    ensures
        r@ == trim(s@),
{
    let mut a: usize = 0;
    assert(s@.skip(0) =~= s@);
    while a < s.len() && is_space_char(s[a])
        invariant
            a <= s.len(),
            trim_start(s@) == trim_start(s@.skip(a as int)),
        decreases s.len() - a,
    {
        assert(s@.skip(a as int).drop_first() =~= s@.skip(a + 1));
        a += 1;
    }
    let mut b: usize = s.len();
    while b > a && is_space_char(s[b - 1])
        invariant
            a <= b <= s.len(),
            trim_start(s@) == s@.subrange(a as int, s.len() as int),
            trim(s@) == trim_end(s@.subrange(a as int, b as int)),
        decreases b,
    {
        assert(s@.subrange(a as int, b as int).drop_last() =~= s@.subrange(a as int, b - 1));
        b -= 1;
    }
    let mut r: Vec<char> = Vec::new();
    let mut i: usize = a;
    while i < b
        invariant
            a <= i <= b <= s.len(),
            r@ == s@.subrange(a as int, i as int),
        decreases b - i,
    {
        r.push(s[i]);
        assert(r@ =~= s@.subrange(a as int, i + 1));
        i += 1;
    }
    r
}

/// The characters of `v` from position `from` on.
pub fn skip_chars(v: &Vec<char>, from: usize) -> (r: Vec<char>)
    requires
        from <= v.len(),
    ensures
        r@ == v@.skip(from as int),
{
    let mut r: Vec<char> = Vec::new();
    let mut i: usize = from;
    while i < v.len()
        invariant
            from <= i <= v.len(),
            r@ == v@.subrange(from as int, i as int),
        decreases v.len() - i,
    {
        r.push(v[i]);
        assert(r@ =~= v@.subrange(from as int, i + 1));
        i += 1;
    }
    assert(r@ =~= v@.skip(from as int));
    r
}

/// Whether `a` and `b` hold the same characters.
pub fn str_eq(a: &str, b: &str) -> (r: bool)
    ensures
        r == (a@ == b@),
{
    let x = chars_of(a);
    let y = chars_of(b);
    chars_eq(&x, &y)
}

pub fn chars_eq(x: &Vec<char>, y: &Vec<char>) -> (r: bool)
    ensures
        r == (x@ == y@),
{
    if x.len() != y.len() {
        return false;
    }
    let mut i: usize = 0;
    while i < x.len()
        invariant
            x.len() == y.len(),
            i <= x.len(),
            forall|j: int| 0 <= j < i ==> x@[j] == y@[j],
        decreases x.len() - i,
    {
        if x[i] != y[i] {
            return false;
        }
        i += 1;
    }
    assert(x@ =~= y@);
    true
}

/// Relies on `String::push`: the character is added at the end.
pub assume_specification[ String::push ](s: &mut String, ch: char)
    ensures
        final(s)@ == old(s)@.push(ch),
;

/// The characters of `s`, one by one.
pub fn chars_of(s: &str) -> (r: Vec<char>)
    ensures
        r@ == s@,
{
    let mut r: Vec<char> = Vec::new();
    for c in it: s.chars()
        invariant
            r@ == it.seq().take(it.index() as int),
    {
        r.push(c);
    }
    r
}

/// A string holding the characters of `v`.
pub fn string_of(v: &Vec<char>) -> (r: String)
    ensures
        r@ == v@,
{
    let mut r = String::new();
    let mut i: usize = 0;
    while i < v.len()
        invariant
            i <= v.len(),
            r@ == v@.take(i as int),
        decreases v.len() - i,
    {
        r.push(v[i]);
        assert(r@ =~= v@.take(i + 1));
        i += 1;
    }
    assert(v@.take(v.len() as int) =~= v@);
    r
}


pub open spec fn is_digit(c: char) -> bool {
    '0' <= c <= '9'
}

pub open spec fn digit_value(c: char) -> nat {
    ((c as u32) - 48) as nat
}

/// The character that writes the digit `d`.
pub open spec fn digit_char(d: nat) -> char {
    ((d + 48) as u8) as char
}

pub open spec fn all_digits(s: Seq<char>) -> bool {
    forall|i: int| 0 <= i < s.len() ==> is_digit(#[trigger] s[i])
}

/// The number that the digits `s` write in base ten.
pub open spec fn digits_value(s: Seq<char>) -> nat
    decreases s.len(),
{
    if s.len() == 0 {
        0
    } else {
        digits_value(s.drop_last()) * 10 + digit_value(s.last())
    }
}

/// What `str::parse::<u8>` makes of `s`: an optional `+`, then one or more
/// digits whose value is at most 255.
pub open spec fn decimal_u8(s: Seq<char>) -> Option<u8> {
    let d = if s.len() > 0 && s[0] == '+' {
        s.drop_first()
    } else {
        s
    };
    if d.len() > 0 && all_digits(d) && digits_value(d) <= 255 {
        Some(digits_value(d) as u8)
    } else {
        None
    }
}

/// `n` in base ten, without leading zeros.
pub open spec fn decimal(n: nat) -> Seq<char>
    decreases n,
{
    if n < 10 {
        seq![digit_char(n)]
    } else {
        decimal(n / 10).push(digit_char(n % 10))
    }
}

proof fn lemma_digits_value_prefix(s: Seq<char>, k: int)
    requires
        0 <= k <= s.len(),
    ensures
        digits_value(s.take(k)) <= digits_value(s),
    decreases s.len(),
{
    if k < s.len() {
        assert(s.drop_last().take(k) =~= s.take(k));
        lemma_digits_value_prefix(s.drop_last(), k);
    } else {
        assert(s.take(k) =~= s);
    }
}

/// Reads an unsigned byte written in base ten.
pub fn parse_u8(s: &Vec<char>) -> (r: Option<u8>)
    ensures
        r == decimal_u8(s@),
{
    let start: usize = if s.len() > 0 && s[0] == '+' {
        1
    } else {
        0
    };
    let ghost d = if s@.len() > 0 && s@[0] == '+' {
        s@.drop_first()
    } else {
        s@
    };
    assert(d =~= s@.skip(start as int));
    if start >= s.len() {
        return None;
    }
    let mut acc: u32 = 0;
    let mut i: usize = start;
    assert(s@.subrange(start as int, start as int) =~= Seq::<char>::empty());
    while i < s.len()
        invariant
            start <= i <= s.len(),
            d == s@.skip(start as int),
            d == (if s@.len() > 0 && s@[0] == '+' {
                s@.drop_first()
            } else {
                s@
            }),
            all_digits(s@.subrange(start as int, i as int)),
            acc == digits_value(s@.subrange(start as int, i as int)),
            acc <= 255,
        decreases s.len() - i,
    {
        let c = s[i];
        if c < '0' || c > '9' {
            assert(d[i - start] == c);
            assert(!is_digit(c));
            return None;
        }
        let ghost pre = s@.subrange(start as int, i as int);
        let ghost next = s@.subrange(start as int, i + 1);
        assert(next.drop_last() =~= pre);
        assert(next.last() == c);
        let u = c as u32;
        assert(is_digit(c) && digit_value(c) == u - 48);
        assert forall|j: int| 0 <= j < next.len() implies is_digit(#[trigger] next[j]) by {
            if j < pre.len() {
                assert(next[j] == pre[j]);
            }
        }
        acc = acc * 10 + (u - 48);
        if acc > 255 {
            proof {
                if all_digits(d) {
                    assert(d.take(i + 1 - start) =~= next);
                    lemma_digits_value_prefix(d, i + 1 - start);
                }
            }
            return None;
        }
        i += 1;
    }
    assert(s@.subrange(start as int, s.len() as int) =~= d);
    Some(acc as u8)
}

pub proof fn lemma_decimal_shape(n: nat)
    ensures
        decimal(n).len() >= 1,
        all_digits(decimal(n)),
        digits_value(decimal(n)) == n,
        decimal(n)[0] != '+',
        n < 10 ==> decimal(n).len() == 1,
        10 <= n < 100 ==> decimal(n).len() == 2,
    decreases n,
{
    if n >= 10 {
        lemma_decimal_shape(n / 10);
        let p = decimal(n / 10);
        assert(decimal(n).drop_last() =~= p);
        assert(digit_value(digit_char(n % 10)) == n % 10);
        assert(decimal(n).last() == digit_char(n % 10));
        assert((n / 10) * 10 + n % 10 == n);
        assert(digits_value(decimal(n)) == digits_value(p) * 10 + digit_value(digit_char(n % 10)));
        assert forall|i: int| 0 <= i < decimal(n).len() implies is_digit(#[trigger] decimal(n)[i]) by {
            if i < p.len() {
                assert(decimal(n)[i] == p[i]);
            }
        }
    } else {
        assert(decimal(n).drop_last() =~= Seq::<char>::empty());
        assert(digit_value(digit_char(n)) == n);
        assert(digits_value(Seq::<char>::empty()) == 0);
        assert(digits_value(decimal(n)) == digits_value(Seq::<char>::empty()) * 10 + digit_value(
            digit_char(n),
        ));
    }
}

/// The unsigned byte `n` reads back as itself.
pub proof fn lemma_decimal_u8(n: u8)
    ensures
        decimal_u8(decimal(n as nat)) == Some(n),
{
    lemma_decimal_shape(n as nat);
}

/// Writes `n` in base ten.
pub fn write_u8(out: &mut String, n: u8)
    ensures
        final(out)@ == old(out)@ + decimal(n as nat),
{
    if n >= 100 {
        out.push(((n / 100) + 48) as char);
    }
    if n >= 10 {
        out.push(((n / 10 % 10) + 48) as char);
    }
    out.push((n % 10 + 48) as char);
    proof {
        let m = n as nat;
        if m >= 100 {
            assert(m / 10 / 10 == m / 100);
            assert(m / 100 < 10);
            assert(decimal(m / 10) == decimal(m / 100).push(digit_char((m / 10) % 10)));
            assert(decimal(m) == decimal(m / 10).push(digit_char(m % 10)));
        } else if m >= 10 {
            assert(decimal(m) == decimal(m / 10).push(digit_char(m % 10)));
            assert(m / 10 % 10 == m / 10);
        }
    }
    assert(final(out)@ =~= old(out)@ + decimal(n as nat));
}

} // verus!
