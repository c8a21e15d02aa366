//! Small helpers for reading and writing text: digits, decimal numbers and
//! whitespace.
use vstd::prelude::*;

verus! {

/// Appends one character to a string.
///
/// Calls `String::push`, which std documents as appending the given `char`
/// to the end of the string; the contract states exactly that.
#[verifier::external_body]
pub(crate) fn push_char(s: &mut String, c: char)
    ensures
        final(s)@ == old(s)@.push(c),
{
    s.push(c);
}

/// Whether `c` is an ASCII decimal digit.
pub open spec fn is_digit(c: char) -> bool {
    '0' <= c <= '9'
}

/// The value of an ASCII decimal digit.
pub open spec fn digit_value(c: char) -> int {
    c as int - '0' as int
}

/// The character of a decimal digit 0 to 9.
pub open spec fn digit_char(d: int) -> char {
    (d + '0' as int) as char
}

/// The value of a sequence of ASCII digits read in decimal.
pub open spec fn digits_value(s: Seq<char>) -> int
    decreases s.len(),
{
    if s.len() == 0 {
        0
    } else {
        10 * digits_value(s.drop_last()) + digit_value(s.last())
    }
}

/// The decimal text of a natural number, without leading zeros.
pub open spec fn decimal(n: nat) -> Seq<char>
    decreases n,
{
    if n < 10 {
        seq![digit_char(n as int)]
    } else {
        decimal(n / 10).push(digit_char((n % 10) as int))
    }
}

/// Whether `c` is whitespace in Unicode's sense (the White_Space property),
/// which is what `char::is_whitespace` tests.
pub open spec fn is_space(c: char) -> bool {
    let v = c as int;
    (0x09 <= v <= 0x0D) || v == 0x20 || v == 0x85 || v == 0xA0 || v == 0x1680 || (0x2000 <= v
        <= 0x200A) || v == 0x2028 || v == 0x2029 || v == 0x202F || v == 0x205F || v == 0x3000
}

pub fn is_space_char(c: char) -> (r: bool)
    ensures
        r == is_space(c),
{
    let v = c as u32;
    (0x09 <= v && v <= 0x0D) || v == 0x20 || v == 0x85 || v == 0xA0 || v == 0x1680 || (0x2000 <= v
        && v <= 0x200A) || v == 0x2028 || v == 0x2029 || v == 0x202F || v == 0x205F || v == 0x3000
}

pub fn is_digit_char(c: char) -> (r: bool)
    ensures
        r == is_digit(c),
{
    let v = c as u32;
    48 <= v && v <= 57
}

/// The character of a decimal digit.
pub fn digit_to_char(d: u32) -> (c: char)
    requires
        d < 10,
    ensures
        c == digit_char(d as int),
        is_digit(c),
{
    match d {
        0 => '0',
        1 => '1',
        2 => '2',
        3 => '3',
        4 => '4',
        5 => '5',
        6 => '6',
        7 => '7',
        8 => '8',
        _ => '9',
    }
}

/// Appends the decimal text of `n`.
pub fn push_decimal(s: &mut String, n: u32)
    ensures
        final(s)@ == old(s)@ + decimal(n as nat),
    decreases n,
{
    if n >= 10 {
        push_decimal(s, n / 10);
    }
    let c = digit_to_char(n % 10);
    push_char(s, c);
    proof {
        if n >= 10 {
            assert(decimal(n as nat) == decimal((n / 10) as nat).push(c));
        } else {
            assert(decimal(n as nat) =~= seq![c]);
        }
        assert(final(s)@ =~= old(s)@ + decimal(n as nat)) by {
            if n >= 10 {
                assert(old(s)@ + decimal((n / 10) as nat).push(c) =~= (old(s)@ + decimal((n / 10) as nat)).push(c));
            }
        }
    }
}

pub proof fn lemma_digits_value_nonneg(s: Seq<char>)
    requires
        forall|i: int| 0 <= i < s.len() ==> is_digit(#[trigger] s[i]),
    ensures
        digits_value(s) >= 0,
    decreases s.len(),
{
    if s.len() > 0 {
        lemma_digits_value_nonneg(s.drop_last());
    }
}

/// The decimal text of `n` is a non-empty run of digits that reads back as `n`.
pub proof fn lemma_decimal(n: nat)
    ensures
        decimal(n).len() >= 1,
        all_digits(decimal(n)),
        digits_value(decimal(n)) == n,
    decreases n,
{
    if n >= 10 {
        lemma_decimal(n / 10);
        let d = decimal(n / 10);
        let e = d.push(digit_char((n % 10) as int));
        assert(e.drop_last() =~= d);
        assert(digit_value(digit_char((n % 10) as int)) == n % 10);
        assert(e.last() == digit_char((n % 10) as int));
        assert(digits_value(e) == 10 * digits_value(d) + n % 10);
        assert(10 * (n / 10) + n % 10 == n);
        assert forall|i: int| 0 <= i < e.len() implies is_digit(#[trigger] e[i]) by {
            if i < d.len() {
                assert(e[i] == d[i]);
            }
        }
    } else {
        let e = seq![digit_char(n as int)];
        assert(e.drop_last() =~= Seq::<char>::empty());
        assert(digits_value(e.drop_last()) == 0);
        assert(e.last() == digit_char(n as int));
        assert(digit_value(digit_char(n as int)) == n);
    }
}

/// `str::parse::<u32>` reads the decimal text of a `u32` back as that number.
pub proof fn lemma_parse_decimal(n: u32)
    ensures
        parse_u32_spec(decimal(n as nat)) == Some(n),
{
    lemma_decimal(n as nat);
    let d = decimal(n as nat);
    assert(is_digit(d[0]));
    assert(unsigned_part(d) == d);
}

/// Reads a non-empty run of ASCII digits as a `u32`, as `str::parse::<u32>`
/// does on such text: `None` exactly when the value does not fit.
pub fn parse_digits_u32(cs: &Vec<char>, start: usize, end: usize) -> (r: Option<u32>)
    requires
        start <= end <= cs.len(),
        forall|i: int| start <= i < end ==> is_digit(#[trigger] cs@[i]),
    ensures
        digits_value(cs@.subrange(start as int, end as int)) <= u32::MAX ==> r == Some(
            digits_value(cs@.subrange(start as int, end as int)) as u32,
        ),
        digits_value(cs@.subrange(start as int, end as int)) > u32::MAX ==> r is None,
{
    let mut val: u64 = 0;
    let mut over = false;
    let mut i = start;
    while i < end
        invariant
            start <= i <= end <= cs.len(),
            forall|k: int| start <= k < end ==> is_digit(#[trigger] cs@[k]),
            !over ==> val == digits_value(cs@.subrange(start as int, i as int)) && val <= u32::MAX,
            over ==> digits_value(cs@.subrange(start as int, i as int)) > u32::MAX,
        decreases end - i,
    {
        let d = (cs[i] as u32 - 48) as u64;
        proof {
            let pre = cs@.subrange(start as int, i as int);
            let nxt = cs@.subrange(start as int, i + 1);
            assert(nxt.drop_last() =~= pre);
            assert(nxt.last() == cs@[i as int]);
            lemma_digits_value_nonneg(pre);
        }
        if !over {
            val = val * 10 + d;
            if val > 4294967295 {
                over = true;
            }
        }
        i = i + 1;
    }
    if over {
        None
    } else {
        Some(val as u32)
    }
}

/// The characters of a string, in order.
pub fn chars_of(s: &str) -> (r: Vec<char>)
    ensures
        r@ == s@,
{
    let n = s.unicode_len();
    let mut v: Vec<char> = Vec::new();
    let mut i: usize = 0;
    while i < n
        invariant
            i <= n,
            n == s@.len(),
            v@ == s@.subrange(0, i as int),
        decreases n - i,
    {
        v.push(s.get_char(i));
        i = i + 1;
        assert(v@ =~= s@.subrange(0, i as int));
    }
    assert(v@ =~= s@);
    v
}

/// A string holding the given characters.
pub fn string_of(cs: &Vec<char>, start: usize, end: usize) -> (r: String)
    requires
        start <= end <= cs.len(),
    ensures
        r@ == cs@.subrange(start as int, end as int),
{
    let mut s = String::new();
    let mut i = start;
    while i < end
        invariant
            start <= i <= end <= cs.len(),
            s@ == cs@.subrange(start as int, i as int),
        decreases end - i,
    {
        push_char(&mut s, cs[i]);
        i = i + 1;
        assert(s@ =~= cs@.subrange(start as int, i as int));
    }
    s
}

/// Whether a string reads exactly as the given characters.
pub fn str_equals(s: &str, lit: &str) -> (r: bool)
    ensures
        r == (s@ == lit@),
{
    let n = s.unicode_len();
    let m = lit.unicode_len();
    if n != m {
        return false;
    }
    let mut i: usize = 0;
    while i < n
        invariant
            i <= n,
            n == s@.len(),
            m == lit@.len(),
            n == m,
            s@.subrange(0, i as int) == lit@.subrange(0, i as int),
        decreases n - i,
    {
        if s.get_char(i) != lit.get_char(i) {
            assert(s@[i as int] != lit@[i as int]);
            return false;
        }
        assert(s@.subrange(0, i + 1) =~= s@.subrange(0, i as int).push(s@[i as int]));
        assert(lit@.subrange(0, i + 1) =~= lit@.subrange(0, i as int).push(lit@[i as int]));
        i = i + 1;
    }
    assert(s@ =~= s@.subrange(0, n as int));
    assert(lit@ =~= lit@.subrange(0, n as int));
    true
}

/// `acc` with the word `cur` appended, if `cur` is not empty.
pub open spec fn flush_word(acc: Seq<Seq<char>>, cur: Seq<char>) -> Seq<Seq<char>> {
    if cur.len() > 0 {
        acc.push(cur)
    } else {
        acc
    }
}

/// The words read from `cs` after the words `acc` and the unfinished word
/// `cur`: a whitespace character ends a word.
pub open spec fn split_from(cs: Seq<char>, cur: Seq<char>, acc: Seq<Seq<char>>) -> Seq<Seq<char>>
    decreases cs.len(),
{
    if cs.len() == 0 {
        flush_word(acc, cur)
    } else if is_space(cs[0]) {
        split_from(cs.drop_first(), Seq::empty(), flush_word(acc, cur))
    } else {
        split_from(cs.drop_first(), cur.push(cs[0]), acc)
    }
}

/// The words of `cs`, as `str::split_whitespace` yields them: the maximal
/// runs of characters that are not whitespace, in order.
pub open spec fn words(cs: Seq<char>) -> Seq<Seq<char>> {
    split_from(cs, Seq::empty(), Seq::empty())
}

/// A visible ASCII character ('!' to '~'): never whitespace.
pub open spec fn graphic(c: char) -> bool {
    '!' <= c <= '~'
}

/// Every character is a visible ASCII character.
pub open spec fn all_graphic(s: Seq<char>) -> bool {
    forall|i: int| 0 <= i < s.len() ==> graphic(#[trigger] s[i])
}

/// A run of visible characters joins the unfinished word.
pub proof fn lemma_split_word(w: Seq<char>, rest: Seq<char>, cur: Seq<char>, acc: Seq<Seq<char>>)
    requires
        all_graphic(w),
    ensures
        split_from(w + rest, cur, acc) == split_from(rest, cur + w, acc),
    decreases w.len(),
{
    if w.len() == 0 {
        assert(w + rest =~= rest);
        assert(cur + w =~= cur);
    } else {
        let t = w + rest;
        assert(t[0] == w[0] && graphic(w[0]));
        assert(t.drop_first() =~= w.drop_first() + rest);
        lemma_split_word(w.drop_first(), rest, cur.push(w[0]), acc);
        assert(cur.push(w[0]) + w.drop_first() =~= cur + w);
    }
}

/// The words of four non-empty runs of visible characters joined by single
/// spaces are those four runs.
pub proof fn lemma_words4(a: Seq<char>, b: Seq<char>, c: Seq<char>, d: Seq<char>)
    requires
        a.len() > 0 && b.len() > 0 && c.len() > 0 && d.len() > 0,
        all_graphic(a) && all_graphic(b) && all_graphic(c) && all_graphic(d),
    ensures
        words(a + seq![' '] + b + seq![' '] + c + seq![' '] + d) == seq![a, b, c, d],
{
    let e = Seq::<char>::empty();
    let sp = seq![' '];
    let t = a + sp + b + sp + c + sp + d;
    let t1 = sp + b + sp + c + sp + d;
    let t2 = sp + c + sp + d;
    let t3 = sp + d;
    assert(t =~= a + t1);
    lemma_split_word(a, t1, e, Seq::empty());
    assert(e + a =~= a);
    assert(t1.drop_first() =~= b + t2);
    lemma_split_word(b, t2, e, seq![a]);
    assert(e + b =~= b);
    assert(t2.drop_first() =~= c + t3);
    lemma_split_word(c, t3, e, seq![a, b]);
    assert(e + c =~= c);
    assert(t3.drop_first() =~= d + e);
    lemma_split_word(d, e, e, seq![a, b, c]);
    assert(e + d =~= d);
    assert(seq![a].push(b) =~= seq![a, b]);
    assert(seq![a, b].push(c) =~= seq![a, b, c]);
    assert(seq![a, b, c].push(d) =~= seq![a, b, c, d]);
}

/// The character sequences of a list of character vectors.
pub open spec fn views_of(v: Seq<Vec<char>>) -> Seq<Seq<char>> {
    Seq::new(v.len(), |i: int| v[i]@)
}

/// Splits characters into words (see `words`).
pub fn split_words(cs: &Vec<char>) -> (r: Vec<Vec<char>>)
    ensures
        views_of(r@) == words(cs@),
{
    let n = cs.len();
    let mut acc: Vec<Vec<char>> = Vec::new();
    let mut cur: Vec<char> = Vec::new();
    let mut i: usize = 0;
    assert(cs@.skip(0) =~= cs@);
    assert(views_of(acc@) =~= Seq::<Seq<char>>::empty());
    while i < n
        invariant
            i <= n,
            n == cs@.len(),
            split_from(cs@.skip(i as int), cur@, views_of(acc@)) == words(cs@),
        decreases n - i,
    {
        let ghost rest = cs@.skip(i as int);
        let ghost old_acc = views_of(acc@);
        let c = cs[i];
        assert(rest[0] == c);
        assert(rest.drop_first() =~= cs@.skip(i + 1));
        if is_space_char(c) {
            if cur.len() > 0 {
                let w = cur;
                acc.push(w);
                cur = Vec::new();
                assert(views_of(acc@) =~= old_acc.push(w@));
            } else {
                assert(views_of(acc@) =~= old_acc);
            }
            assert(cur@ =~= Seq::<char>::empty());
        } else {
            cur.push(c);
            assert(views_of(acc@) =~= old_acc);
        }
        i = i + 1;
    }
    if cur.len() > 0 {
        let ghost old_acc = views_of(acc@);
        acc.push(cur);
        assert(views_of(acc@) =~= old_acc.push(acc@.last()@));
    }
    acc
}

/// The text after an optional leading '+'.
pub open spec fn unsigned_part(cs: Seq<char>) -> Seq<char> {
    if cs.len() > 0 && cs[0] == '+' {
        cs.drop_first()
    } else {
        cs
    }
}

/// Every character is an ASCII digit.
pub open spec fn all_digits(ds: Seq<char>) -> bool {
    forall|i: int| 0 <= i < ds.len() ==> is_digit(#[trigger] ds[i])
}

/// What `str::parse::<u32>` gives for the text `cs`: an optional leading
/// '+', then at least one ASCII digit and nothing else, of a value that fits.
pub open spec fn parse_u32_spec(cs: Seq<char>) -> Option<u32> {
    let ds = unsigned_part(cs);
    if ds.len() == 0 || !all_digits(ds) {
        None
    } else if digits_value(ds) > u32::MAX {
        None
    } else {
        Some(digits_value(ds) as u32)
    }
}

/// Reads a `u32` as `str::parse::<u32>` does (see `parse_u32_spec`).
pub fn parse_u32(cs: &Vec<char>) -> (r: Option<u32>)
    ensures
        r == parse_u32_spec(cs@),
{
    let n = cs.len();
    let start: usize = if n > 0 && cs[0] == '+' {
        1
    } else {
        0
    };
    let ghost ds = unsigned_part(cs@);
    assert(ds =~= cs@.subrange(start as int, n as int));
    if start == n {
        return None;
    }
    let mut i = start;
    while i < n
        invariant
            start <= i <= n,
            n == cs@.len(),
            ds == cs@.subrange(start as int, n as int),
            ds == unsigned_part(cs@),
            forall|k: int| start <= k < i ==> is_digit(#[trigger] cs@[k]),
        decreases n - i,
    {
        if !is_digit_char(cs[i]) {
            assert(!is_digit(ds[i - start]));
            return None;
        }
        i = i + 1;
    }
    assert forall|k: int| 0 <= k < ds.len() implies is_digit(#[trigger] ds[k]) by {
        assert(ds[k] == cs@[start + k]);
    }
    parse_digits_u32(cs, start, n)
}

/// ASCII letters turned lower case, other characters kept.
pub fn ascii_lowercase(cs: &Vec<char>) -> (r: Vec<char>)
    ensures
        r@ == crate::piece::ascii_lower(cs@),
{
    let n = cs.len();
    let mut out: Vec<char> = Vec::new();
    let mut i: usize = 0;
    while i < n
        invariant
            i <= n,
            n == cs@.len(),
            out@ == crate::piece::ascii_lower(cs@.subrange(0, i as int)),
        decreases n - i,
    {
        let c = cs[i];
        let l = if 'A' <= c && c <= 'Z' {
            ((c as u32) + 32) as u8 as char
        } else {
            c
        };
        assert(l == (if 'A' <= c <= 'Z' { ((c as int) + 32) as char } else { c }));
        out.push(l);
        i = i + 1;
        assert(out@ =~= crate::piece::ascii_lower(cs@.subrange(0, i as int)));
    }
    assert(cs@.subrange(0, n as int) =~= cs@);
    out
}

/// The value of the digits after an optional leading '+', when there is at
/// least one digit, nothing else, and the value is at most `max`.
pub open spec fn parse_unsigned_spec(cs: Seq<char>, max: int) -> Option<int> {
    let ds = unsigned_part(cs);
    if ds.len() == 0 || !all_digits(ds) || digits_value(ds) > max {
        None
    } else {
        Some(digits_value(ds))
    }
}

/// What `str::parse::<u64>` gives for `cs`.
pub open spec fn parse_u64_spec(cs: Seq<char>) -> Option<u64> {
    match parse_unsigned_spec(cs, u64::MAX as int) {
        Some(v) => Some(v as u64),
        None => None,
    }
}

/// What `str::parse::<usize>` gives for `cs`.
pub open spec fn parse_usize_spec(cs: Seq<char>) -> Option<usize> {
    match parse_unsigned_spec(cs, usize::MAX as int) {
        Some(v) => Some(v as usize),
        None => None,
    }
}

/// What `str::parse::<i32>` gives for `cs`: an optional sign, at least one
/// ASCII digit and nothing else, of a value from `i32::MIN` to `i32::MAX`.
pub open spec fn parse_i32_spec(cs: Seq<char>) -> Option<i32> {
    if cs.len() > 0 && cs[0] == '-' {
        let ds = cs.drop_first();
        if ds.len() == 0 || !all_digits(ds) || digits_value(ds) > 0x8000_0000 {
            None
        } else {
            Some((-digits_value(ds)) as i32)
        }
    } else {
        match parse_unsigned_spec(cs, i32::MAX as int) {
            Some(v) => Some(v as i32),
            None => None,
        }
    }
}

/// Reads a run of ASCII digits, `None` when its value exceeds `u64::MAX`.
fn parse_digits_u64(cs: &Vec<char>, start: usize, end: usize) -> (r: Option<u64>)
    requires
        start <= end <= cs.len(),
        forall|i: int| start <= i < end ==> is_digit(#[trigger] cs@[i]),
    ensures
        digits_value(cs@.subrange(start as int, end as int)) <= u64::MAX ==> r == Some(
            digits_value(cs@.subrange(start as int, end as int)) as u64,
        ),
        digits_value(cs@.subrange(start as int, end as int)) > u64::MAX ==> r is None,
{
    let mut val: u128 = 0;
    let mut over = false;
    let mut i = start;
    while i < end
        invariant
            start <= i <= end <= cs.len(),
            forall|k: int| start <= k < end ==> is_digit(#[trigger] cs@[k]),
            !over ==> val == digits_value(cs@.subrange(start as int, i as int)) && val <= u64::MAX,
            over ==> digits_value(cs@.subrange(start as int, i as int)) > u64::MAX,
        decreases end - i,
    {
        let d = (cs[i] as u32 - 48) as u128;
        proof {
            let pre = cs@.subrange(start as int, i as int);
            let nxt = cs@.subrange(start as int, i + 1);
            assert(nxt.drop_last() =~= pre);
            assert(nxt.last() == cs@[i as int]);
            lemma_digits_value_nonneg(pre);
        }
        if !over {
            val = val * 10 + d;
            if val > 18446744073709551615 {
                over = true;
            }
        }
        i = i + 1;
    }
    if over {
        None
    } else {
        Some(val as u64)
    }
}

/// The start of the digits after an optional '+', and whether the rest is
/// a non-empty run of ASCII digits.
fn unsigned_digits(cs: &Vec<char>) -> (r: (usize, bool))
    ensures
        r.0 <= cs@.len(),
        cs@.subrange(r.0 as int, cs@.len() as int) == unsigned_part(cs@),
        r.1 == (unsigned_part(cs@).len() > 0 && all_digits(unsigned_part(cs@))),
{
    let n = cs.len();
    let start: usize = if n > 0 && cs[0] == '+' {
        1
    } else {
        0
    };
    let ghost ds = unsigned_part(cs@);
    assert(ds =~= cs@.subrange(start as int, n as int));
    if start == n {
        return (start, false);
    }
    let mut i = start;
    while i < n
        invariant
            start <= i <= n,
            n == cs@.len(),
            ds == cs@.subrange(start as int, n as int),
            ds == unsigned_part(cs@),
            forall|k: int| start <= k < i ==> is_digit(#[trigger] cs@[k]),
        decreases n - i,
    {
        if !is_digit_char(cs[i]) {
            assert(!is_digit(ds[i - start]));
            return (start, false);
        }
        i = i + 1;
    }
    assert forall|k: int| 0 <= k < ds.len() implies is_digit(#[trigger] ds[k]) by {
        assert(ds[k] == cs@[start + k]);
    }
    (start, true)
}

/// Reads a `u64` as `str::parse::<u64>` does (see `parse_u64_spec`).
pub fn parse_u64(cs: &Vec<char>) -> (r: Option<u64>)
    ensures
        r == parse_u64_spec(cs@),
{
    let (start, ok) = unsigned_digits(cs);
    if !ok {
        return None;
    }
    proof {
        assert forall|k: int| start <= k < cs@.len() implies is_digit(#[trigger] cs@[k]) by {
            assert(cs@[k] == unsigned_part(cs@)[k - start]);
        }
    }
    parse_digits_u64(cs, start, cs.len())
}

/// Reads a `usize` as `str::parse::<usize>` does (see `parse_usize_spec`).
pub fn parse_usize(cs: &Vec<char>) -> (r: Option<usize>)
    ensures
        r == parse_usize_spec(cs@),
{
    let (start, ok) = unsigned_digits(cs);
    if !ok {
        return None;
    }
    proof {
        assert forall|k: int| start <= k < cs@.len() implies is_digit(#[trigger] cs@[k]) by {
            assert(cs@[k] == unsigned_part(cs@)[k - start]);
        }
    }
    let ghost dv = digits_value(unsigned_part(cs@));
    assert(dv == digits_value(cs@.subrange(start as int, cs@.len() as int)));
    proof {
        lemma_digits_value_nonneg(unsigned_part(cs@));
    }
    match parse_digits_u64(cs, start, cs.len()) {
        Some(v) => {
            assert(v == dv);
            if v as u128 <= usize::MAX as u128 {
                Some(v as usize)
            } else {
                None
            }
        },
        None => {
            assert(dv > u64::MAX);
            assert(usize::MAX <= u64::MAX);
            None
        },
    }
}

/// Reads an `i32` as `str::parse::<i32>` does (see `parse_i32_spec`).
pub fn parse_i32(cs: &Vec<char>) -> (r: Option<i32>)
    ensures
        r == parse_i32_spec(cs@),
{
    let n = cs.len();
    if n > 0 && cs[0] == '-' {
        let ghost ds = cs@.drop_first();
        assert(ds =~= cs@.subrange(1, n as int));
        if n == 1 {
            return None;
        }
        let mut i: usize = 1;
        while i < n
            invariant
                1 <= i <= n,
                n == cs@.len(),
                ds == cs@.subrange(1, n as int),
                forall|k: int| 1 <= k < i ==> is_digit(#[trigger] cs@[k]),
            decreases n - i,
        {
            if !is_digit_char(cs[i]) {
                assert(!is_digit(ds[i - 1]));
                return None;
            }
            i = i + 1;
        }
        assert forall|k: int| 0 <= k < ds.len() implies is_digit(#[trigger] ds[k]) by {
            assert(ds[k] == cs@[1 + k]);
        }
        let ghost dv = digits_value(ds);
        assert(all_digits(ds));
        proof {
            lemma_digits_value_nonneg(ds);
        }
        match parse_digits_u64(cs, 1, n) {
            Some(v) => {
                assert(v == dv);
                if v <= 2147483648 {
                    Some((0 - (v as i64)) as i32)
                } else {
                    None
                }
            },
            None => None,
        }
    } else {
        let (start, ok) = unsigned_digits(cs);
        if !ok {
            return None;
        }
        proof {
            assert forall|k: int| start <= k < cs@.len() implies is_digit(#[trigger] cs@[k]) by {
                assert(cs@[k] == unsigned_part(cs@)[k - start]);
            }
        }
        let ghost dv = digits_value(unsigned_part(cs@));
        assert(dv == digits_value(cs@.subrange(start as int, n as int)));
        proof {
            lemma_digits_value_nonneg(unsigned_part(cs@));
        }
        match parse_digits_u64(cs, start, n) {
            Some(v) => {
                assert(v == dv);
                if v <= 2147483647 {
                    Some(v as i32)
                } else {
                    None
                }
            },
            None => None,
        }
    }
}

} // verus!
