//! Reading and writing the small textual values that the simulators take as
//! options: decimal integers, sizes with a `k`/`m`/`g` suffix and
//! comma-separated lists.

use vstd::prelude::*;
use vstd::string::*;

verus! {

/// `String::push` appends `ch` at the end of `s` (std documentation of `String::push`).
pub assume_specification[ String::push ](s: &mut String, ch: char)
    ensures
        final(s)@ == old(s)@.push(ch),
;

pub open spec fn is_digit(c: char) -> bool {
    '0' <= c && c <= '9'
}

pub open spec fn digit_val(c: char) -> int {
    (c as int) - ('0' as int)
}

pub open spec fn all_digits(cs: Seq<char>) -> bool {
    forall|i: int| 0 <= i < cs.len() ==> is_digit(#[trigger] cs[i])
}

/// The number that a sequence of decimal digits denotes.
pub open spec fn digits_value(cs: Seq<char>) -> int
    decreases cs.len(),
{
    if cs.len() == 0 {
        0
    } else {
        digits_value(cs.drop_last()) * 10 + digit_val(cs.last())
    }
}

/// What `str::parse::<i32>` gives back for the text `cs`: an optional sign,
/// then one or more decimal digits, and a value inside the range of `i32`.
pub open spec fn spec_parse_i32(cs: Seq<char>) -> Option<i32> {
    let signed = cs.len() > 0 && (cs[0] == '-' || cs[0] == '+');
    let neg = cs.len() > 0 && cs[0] == '-';
    let body = if signed {
        cs.drop_first()
    } else {
        cs
    };
    let v = if neg {
        -digits_value(body)
    } else {
        digits_value(body)
    };
    if body.len() > 0 && all_digits(body) && i32::MIN <= v <= i32::MAX {
        Some(v as i32)
    } else {
        None
    }
}

/// What `str::parse::<u32>` gives back for the text `cs`: an optional `+`,
/// then one or more decimal digits, and a value inside the range of `u32`.
pub open spec fn spec_parse_u32(cs: Seq<char>) -> Option<u32> {
    let body = if cs.len() > 0 && cs[0] == '+' {
        cs.drop_first()
    } else {
        cs
    };
    if body.len() > 0 && all_digits(body) && digits_value(body) <= u32::MAX {
        Some(digits_value(body) as u32)
    } else {
        None
    }
}

/// What `str::parse::<u32>` gives back for each piece of `cs` split at `sep`,
/// where every piece is such a number.
pub open spec fn spec_parse_u32_list(cs: Seq<char>, sep: char) -> Option<Seq<u32>> {
    let ps = split_spec(cs, sep);
    if forall|i: int| 0 <= i < ps.len() ==> (#[trigger] spec_parse_u32(ps[i])) is Some {
        Some(Seq::new(ps.len(), |i: int| spec_parse_u32(ps[i])->0))
    } else {
        None
    }
}

pub open spec fn has_size_suffix(c: char) -> bool {
    c == 'k' || c == 'K' || c == 'm' || c == 'M' || c == 'g' || c == 'G'
}

pub open spec fn size_multiplier(c: char) -> int {
    if c == 'k' || c == 'K' {
        1024
    } else if c == 'm' || c == 'M' {
        1048576
    } else if c == 'g' || c == 'G' {
        1073741824
    } else {
        1
    }
}

/// The size that a text such as `16k`, `32M` or `100` denotes, if it denotes
/// one that fits in an `i32`.
pub open spec fn spec_convert(cs: Seq<char>) -> Option<i32> {
    if cs.len() == 0 {
        None
    } else if has_size_suffix(cs.last()) {
        match spec_parse_i32(cs.drop_last()) {
            Some(v) => {
                let n = v * size_multiplier(cs.last());
                if i32::MIN <= n <= i32::MAX {
                    Some(n as i32)
                } else {
                    None
                }
            },
            None => None,
        }
    } else {
        spec_parse_i32(cs)
    }
}

/// The pieces of `cs` between the occurrences of `sep`, in order, as
/// `str::split` yields them (an empty text gives one empty piece).
pub open spec fn split_spec(cs: Seq<char>, sep: char) -> Seq<Seq<char>>
    decreases cs.len(),
{
    if cs.len() == 0 {
        seq![Seq::<char>::empty()]
    } else {
        let rest = split_spec(cs.drop_last(), sep);
        if cs.last() == sep {
            rest.push(Seq::<char>::empty())
        } else {
            rest.update(rest.len() - 1, rest.last().push(cs.last()))
        }
    }
}

/// The integers of a `sep`-separated list, if every piece is one.
pub open spec fn spec_parse_i32_list(cs: Seq<char>, sep: char) -> Option<Seq<i32>> {
    let ps = split_spec(cs, sep);
    if forall|i: int| 0 <= i < ps.len() ==> (#[trigger] spec_parse_i32(ps[i])) is Some {
        Some(Seq::new(ps.len(), |i: int| spec_parse_i32(ps[i])->0))
    } else {
        None
    }
}

pub open spec fn digit_char(d: int) -> char {
    if d == 0 {
        '0'
    } else if d == 1 {
        '1'
    } else if d == 2 {
        '2'
    } else if d == 3 {
        '3'
    } else if d == 4 {
        '4'
    } else if d == 5 {
        '5'
    } else if d == 6 {
        '6'
    } else if d == 7 {
        '7'
    } else if d == 8 {
        '8'
    } else {
        '9'
    }
}

/// The decimal digits of a natural number, most significant first.
pub open spec fn nat_digits(n: nat) -> Seq<char>
    decreases n,
{
    if n < 10 {
        seq![digit_char(n as int)]
    } else {
        nat_digits(n / 10).push(digit_char((n % 10) as int))
    }
}

/// How `{}` prints an integer: a minus sign for negative values, then the digits.
pub open spec fn int_decimal(n: int) -> Seq<char> {
    if n < 0 {
        seq!['-'] + nat_digits((-n) as nat)
    } else {
        nat_digits(n as nat)
    }
}

pub proof fn lemma_split_nonempty(cs: Seq<char>, sep: char)
    ensures
        split_spec(cs, sep).len() >= 1,
    decreases cs.len(),
{
    if cs.len() > 0 {
        lemma_split_nonempty(cs.drop_last(), sep);
    }
}

proof fn lemma_digits_prefix_le(cs: Seq<char>, k: int)
    requires
        0 <= k <= cs.len(),
        all_digits(cs),
    ensures
        0 <= digits_value(cs.subrange(0, k)) <= digits_value(cs),
    decreases cs.len(),
{
    if cs.len() > 0 {
        let d = cs.drop_last();
        assert(all_digits(d)) by {
            assert forall|i: int| 0 <= i < d.len() implies is_digit(#[trigger] d[i]) by {
                assert(d[i] == cs[i]);
            }
        }
        assert(is_digit(cs[cs.len() - 1]));
        if k == cs.len() {
            assert(cs.subrange(0, k) =~= cs);
            lemma_digits_prefix_le(d, d.len() as int);
            assert(d.subrange(0, d.len() as int) =~= d);
        } else {
            lemma_digits_prefix_le(d, k);
            assert(d.subrange(0, k) =~= cs.subrange(0, k));
            lemma_digits_prefix_le(d, d.len() as int);
            assert(d.subrange(0, d.len() as int) =~= d);
        }
    }
}

proof fn lemma_digit_char(d: int)
    requires
        0 <= d < 10,
    ensures
        is_digit(digit_char(d)),
        digit_val(digit_char(d)) == d,
{
}

proof fn lemma_nat_digits(n: nat)
    ensures
        nat_digits(n).len() > 0,
        all_digits(nat_digits(n)),
        digits_value(nat_digits(n)) == n,
    decreases n,
{
    if n < 10 {
        lemma_digit_char(n as int);
        let s = nat_digits(n);
        assert(s.drop_last() =~= Seq::<char>::empty());
        assert(digits_value(s.drop_last()) == 0);
        assert(digits_value(s) == digits_value(s.drop_last()) * 10 + digit_val(s.last()));
    } else {
        lemma_digit_char((n % 10) as int);
        assert((n / 10) * 10 + n % 10 == n);
        lemma_nat_digits(n / 10);
        let p = nat_digits(n / 10);
        let s = nat_digits(n);
        assert(s.drop_last() =~= p);
        assert(s.last() == digit_char((n % 10) as int));
        assert(digits_value(s) == digits_value(p) * 10 + digit_val(s.last()));
        assert forall|i: int| 0 <= i < s.len() implies is_digit(#[trigger] s[i]) by {
            if i < p.len() {
                assert(s[i] == p[i]);
            }
        }
    }
}

/// Reading back the decimal form of an `i32` gives the same number.
pub proof fn lemma_parse_decimal(n: i32)
    ensures
        spec_parse_i32(int_decimal(n as int)) == Some(n),
{
    if n < 0 {
        let m = (-(n as int)) as nat;
        lemma_nat_digits(m);
        let cs = int_decimal(n as int);
        assert(cs[0] == '-');
        assert(cs.drop_first() =~= nat_digits(m));
        assert(digits_value(cs.drop_first()) == m);
    } else {
        lemma_nat_digits(n as nat);
        let cs = nat_digits(n as nat);
        assert(is_digit(cs[0]));
        assert(cs[0] != '-' && cs[0] != '+');
        assert(int_decimal(n as int) == cs);
    }
}

/// The characters of `s`, in order.
pub fn chars_of(s: &str) -> (v: Vec<char>)
    ensures
        v@ == s@,
{
    let n = s.unicode_len();
    let mut v: Vec<char> = Vec::new();
    let mut i: usize = 0;
    while i < n
        invariant
            n == s@.len(),
            i <= n,
            v@ == s@.subrange(0, i as int),
        decreases n - i,
    {
        let c = s.get_char(i);
        v.push(c);
        i = i + 1;
        assert(v@ =~= s@.subrange(0, i as int));
    }
    assert(v@ =~= s@);
    v
}

pub(crate) fn digit_value_of(c: char) -> (d: i64)
    requires
        is_digit(c),
    ensures
        d == digit_val(c),
        0 <= d <= 9,
{
    (c as u32 as i64) - ('0' as u32 as i64)
}

/// Whether two character sequences are the same.
pub fn vec_chars_eq(a: &Vec<char>, b: &Vec<char>) -> (r: bool)
    ensures
        r == (a@ == b@),
{
    if a.len() != b.len() {
        return false;
    }
    let mut i: usize = 0;
    while i < a.len()
        invariant
            a@.len() == b@.len(),
            i <= a@.len(),
            forall|k: int| 0 <= k < i ==> a@[k] == b@[k],
        decreases a@.len() - i,
    {
        if a[i] != b[i] {
            return false;
        }
        i = i + 1;
    }
    assert(a@ =~= b@);
    true
}

/// Whether two texts are the same.
pub fn text_eq(a: &str, b: &str) -> (r: bool)
    ensures
        r == (a@ == b@),
{
    let x = chars_of(a);
    let y = chars_of(b);
    if x.len() != y.len() {
        return false;
    }
    let mut i: usize = 0;
    while i < x.len()
        invariant
            x@ == a@,
            y@ == b@,
            x@.len() == y@.len(),
            i <= x@.len(),
            forall|j: int| 0 <= j < i ==> x@[j] == y@[j],
        decreases x@.len() - i,
    {
        if x[i] != y[i] {
            return false;
        }
        i = i + 1;
    }
    assert(x@ =~= y@);
    true
}

/// Parses `cs[lo..hi]` as `str::parse::<i32>` would.
pub fn parse_i32_range(cs: &Vec<char>, lo: usize, hi: usize) -> (r: Option<i32>)
    requires
        lo <= hi <= cs@.len(),
    ensures
        r == spec_parse_i32(cs@.subrange(lo as int, hi as int)),
{
    let ghost t = cs@.subrange(lo as int, hi as int);
    if lo == hi {
        return None;
    }
    assert(t.len() > 0 && t[0] == cs@[lo as int]);
    let neg = cs[lo] == '-';
    let signed = cs[lo] == '-' || cs[lo] == '+';
    let start = if signed {
        lo + 1
    } else {
        lo
    };
    let ghost body = cs@.subrange(start as int, hi as int);
    assert(signed ==> body =~= t.drop_first());
    assert(!signed ==> body =~= t);
    if start == hi {
        return None;
    }
    let mut acc: i64 = 0;
    let mut i: usize = start;
    while i < hi
        invariant
            lo <= start <= i <= hi <= cs@.len(),
            t == cs@.subrange(lo as int, hi as int),
            t.len() > 0,
            signed == (t[0] == '-' || t[0] == '+'),
            neg == (t[0] == '-'),
            signed ==> body == t.drop_first(),
            !signed ==> body == t,
            start == (if signed { lo + 1 } else { lo as int }),
            body == cs@.subrange(start as int, hi as int),
            all_digits(cs@.subrange(start as int, i as int)),
            acc == digits_value(cs@.subrange(start as int, i as int)),
            0 <= acc <= 2147483648,
        decreases hi - i,
    {
        let c = cs[i];
        if !(c >= '0' && c <= '9') {
            assert(body[i - start] == c);
            assert(!is_digit(body[i - start]));
            assert(!all_digits(body));
            return None;
        }
        let d = digit_value_of(c);
        let ghost prev = cs@.subrange(start as int, i as int);
        let ghost next = cs@.subrange(start as int, i + 1);
        assert(next.drop_last() =~= prev);
        assert(all_digits(next)) by {
            assert forall|j: int| 0 <= j < next.len() implies is_digit(#[trigger] next[j]) by {
                if j < prev.len() {
                    assert(next[j] == prev[j]);
                }
            }
        }
        let nacc = acc * 10 + d;
        assert(next.last() == c);
        assert(digits_value(next) == nacc);
        if nacc > 2147483648 {
            // every further digit only makes the value larger
            proof {
                if all_digits(body) {
                    lemma_digits_prefix_le(body, (i + 1 - start) as int);
                    assert(body.subrange(0, (i + 1 - start) as int) =~= next);
                }
            }
            return None;
        }
        acc = nacc;
        i = i + 1;
    }
    assert(cs@.subrange(start as int, i as int) =~= body);
    if neg {
        Some((-acc) as i32)
    } else {
        if acc > 2147483647 {
            return None;
        }
        Some(acc as i32)
    }
}

/// Reads a size such as `16k` (16384), `1m` or `100`; `None` where the text
/// is no such size or the size does not fit in an `i32`.
pub fn convert(size: &str) -> (r: Option<i32>)
    ensures
        r == spec_convert(size@),
{
    let cs = chars_of(size);
    let n = cs.len();
    if n == 0 {
        return None;
    }
    let last = cs[n - 1];
    assert(cs@.subrange(0, n as int) =~= cs@);
    let m: i64 = if last == 'k' || last == 'K' {
        1024
    } else if last == 'm' || last == 'M' {
        1048576
    } else if last == 'g' || last == 'G' {
        1073741824
    } else {
        return parse_i32_range(&cs, 0, n);
    };
    assert(cs@.subrange(0, n as int) =~= cs@);
    assert(cs@.subrange(0, n - 1) =~= cs@.drop_last());
    match parse_i32_range(&cs, 0, n - 1) {
        Some(v) => {
            let x = (v as i64) * m;
            if x < -2147483648 || x > 2147483647 {
                None
            } else {
                Some(x as i32)
            }
        },
        None => None,
    }
}

/// The texts that a list of strings of characters holds.
pub open spec fn views_of(v: Seq<Vec<char>>) -> Seq<Seq<char>> {
    Seq::new(v.len(), |i: int| v[i]@)
}

/// Splits `cs` at every `sep`, as `str::split` does.
pub fn split_chars(cs: &Vec<char>, sep: char) -> (r: Vec<Vec<char>>)
    ensures
        views_of(r@) == split_spec(cs@, sep),
{
    let mut pieces: Vec<Vec<char>> = Vec::new();
    let mut cur: Vec<char> = Vec::new();
    let mut i: usize = 0;
    while i < cs.len()
        invariant
            i <= cs@.len(),
            views_of(pieces@).push(cur@) == split_spec(cs@.subrange(0, i as int), sep),
        decreases cs@.len() - i,
    {
        let c = cs[i];
        let ghost pre = cs@.subrange(0, i as int);
        let ghost nxt = cs@.subrange(0, i + 1);
        let ghost old_pieces = views_of(pieces@);
        let ghost old_cur = cur@;
        assert(nxt.drop_last() =~= pre);
        assert(nxt.last() == c);
        proof {
            lemma_split_nonempty(pre, sep);
        }
        if c == sep {
            pieces.push(cur);
            assert(views_of(pieces@) =~= old_pieces.push(old_cur));
            cur = Vec::new();
            assert(views_of(pieces@).push(cur@) =~= split_spec(nxt, sep));
        } else {
            cur.push(c);
            assert(views_of(pieces@).push(cur@) =~= old_pieces.push(old_cur).update(
                old_pieces.len() as int,
                old_cur.push(c),
            ));
            assert(views_of(pieces@).push(cur@) =~= split_spec(nxt, sep));
        }
        i = i + 1;
    }
    assert(cs@.subrange(0, i as int) =~= cs@);
    let ghost old_pieces = views_of(pieces@);
    let ghost old_cur = cur@;
    pieces.push(cur);
    assert(views_of(pieces@) =~= old_pieces.push(old_cur));
    pieces
}

/// Reads a `sep`-separated list of integers; `None` where a piece is no integer.
pub fn parse_i32_list(s: &str, sep: char) -> (r: Option<Vec<i32>>)
    ensures
        match r {
            Some(v) => spec_parse_i32_list(s@, sep) == Some(v@),
            None => spec_parse_i32_list(s@, sep) is None,
        },
{
    let cs = chars_of(s);
    let pieces = split_chars(&cs, sep);
    let ghost ps = split_spec(s@, sep);
    let mut out: Vec<i32> = Vec::new();
    let mut i: usize = 0;
    while i < pieces.len()
        invariant
            views_of(pieces@) == ps,
            ps == split_spec(s@, sep),
            i <= ps.len(),
            out@.len() == i,
            forall|j: int| 0 <= j < i ==> #[trigger] spec_parse_i32(ps[j]) == Some(out@[j]),
        decreases ps.len() - i,
    {
        let p = &pieces[i];
        assert(p@ == ps[i as int]);
        assert(p@.subrange(0, p@.len() as int) =~= p@);
        match parse_i32_range(p, 0, p.len()) {
            Some(v) => {
                out.push(v);
            },
            None => {
                assert(spec_parse_i32(ps[i as int]) is None);
                return None;
            },
        }
        i = i + 1;
    }
    assert(out@ =~= Seq::new(ps.len(), |j: int| spec_parse_i32(ps[j])->0));
    Some(out)
}

/// Parses `cs` as `str::parse::<u32>` would.
pub fn parse_u32_chars(cs: &Vec<char>) -> (r: Option<u32>)
    ensures
        r == spec_parse_u32(cs@),
{
    let hi = cs.len();
    if hi == 0 {
        return None;
    }
    let start: usize = if cs[0] == '+' {
        1
    } else {
        0
    };
    let ghost body = cs@.subrange(start as int, hi as int);
    assert(start == 1 ==> body =~= cs@.drop_first());
    assert(start == 0 ==> body =~= cs@);
    if start == hi {
        return None;
    }
    let mut acc: u64 = 0;
    let mut i: usize = start;
    while i < hi
        invariant
            start <= i <= hi == cs@.len(),
            hi > 0,
            start <= 1,
            (start == 1) == (cs@[0] == '+'),
            start == 1 ==> body == cs@.drop_first(),
            start == 0 ==> body == cs@,
            body == cs@.subrange(start as int, hi as int),
            all_digits(cs@.subrange(start as int, i as int)),
            acc == digits_value(cs@.subrange(start as int, i as int)),
            acc <= 4294967295,
        decreases hi - i,
    {
        let c = cs[i];
        if !(c >= '0' && c <= '9') {
            assert(body[i - start] == c);
            assert(!is_digit(body[i - start]));
            assert(!all_digits(body));
            return None;
        }
        let d = digit_value_of(c) as u64;
        let ghost prev = cs@.subrange(start as int, i as int);
        let ghost next = cs@.subrange(start as int, i + 1);
        assert(next.drop_last() =~= prev);
        assert(all_digits(next)) by {
            assert forall|j: int| 0 <= j < next.len() implies is_digit(#[trigger] next[j]) by {
                if j < prev.len() {
                    assert(next[j] == prev[j]);
                }
            }
        }
        let nacc = acc * 10 + d;
        assert(next.last() == c);
        assert(digits_value(next) == nacc);
        if nacc > 4294967295 {
            proof {
                if all_digits(body) {
                    lemma_digits_prefix_le(body, (i + 1 - start) as int);
                    assert(body.subrange(0, (i + 1 - start) as int) =~= next);
                }
            }
            return None;
        }
        acc = nacc;
        i = i + 1;
    }
    assert(cs@.subrange(start as int, i as int) =~= body);
    Some(acc as u32)
}

/// Reads a `sep`-separated list of unsigned integers; `None` where a piece
/// is no such integer.
pub fn parse_u32_list(s: &str, sep: char) -> (r: Option<Vec<u32>>)
    ensures
        match r {
            Some(v) => spec_parse_u32_list(s@, sep) == Some(v@),
            None => spec_parse_u32_list(s@, sep) is None,
        },
{
    let cs = chars_of(s);
    let pieces = split_chars(&cs, sep);
    let ghost ps = split_spec(s@, sep);
    let mut out: Vec<u32> = Vec::new();
    let mut i: usize = 0;
    while i < pieces.len()
        invariant
            views_of(pieces@) == ps,
            ps == split_spec(s@, sep),
            i <= ps.len(),
            out@.len() == i,
            forall|j: int| 0 <= j < i ==> #[trigger] spec_parse_u32(ps[j]) == Some(out@[j]),
        decreases ps.len() - i,
    {
        let p = &pieces[i];
        assert(p@ == ps[i as int]);
        match parse_u32_chars(p) {
            Some(v) => {
                out.push(v);
            },
            None => {
                return None;
            },
        }
        i = i + 1;
    }
    assert(out@ =~= Seq::new(ps.len(), |j: int| spec_parse_u32(ps[j])->0));
    Some(out)
}

fn digit_to_char(d: u64) -> (c: char)
    requires
        d < 10,
    ensures
        c == digit_char(d as int),
{
    if d == 0 {
        '0'
    } else if d == 1 {
        '1'
    } else if d == 2 {
        '2'
    } else if d == 3 {
        '3'
    } else if d == 4 {
        '4'
    } else if d == 5 {
        '5'
    } else if d == 6 {
        '6'
    } else if d == 7 {
        '7'
    } else if d == 8 {
        '8'
    } else {
        '9'
    }
}

fn push_nat_digits(s: &mut String, n: u64)
    ensures
        final(s)@ == old(s)@ + nat_digits(n as nat),
    decreases n,
{
    if n >= 10 {
        push_nat_digits(s, n / 10);
    }
    let c = digit_to_char(n % 10);
    s.push(c);
    assert(n < 10 ==> nat_digits(n as nat) =~= seq![digit_char(n as int)]);
}

/// Appends the decimal form of `n` to `s`, as `{}` prints it.
pub fn push_int(s: &mut String, n: i64)
    ensures
        final(s)@ == old(s)@ + int_decimal(n as int),
{
    if n < 0 {
        s.push('-');
        let m: u64 = if n == i64::MIN {
            9223372036854775808u64
        } else {
            (-n) as u64
        };
        push_nat_digits(s, m);
        assert(final(s)@ =~= old(s)@ + int_decimal(n as int));
    } else {
        push_nat_digits(s, n as u64);
    }
}

/// The decimal form of `n`, as `n.to_string()` gives it.
pub fn int_to_string(n: i64) -> (s: String)
    ensures
        s@ == int_decimal(n as int),
{
    let mut s = String::new();
    push_int(&mut s, n);
    assert(s@ =~= int_decimal(n as int));
    s
}

} // verus!
