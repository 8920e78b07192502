//! Small verified text utilities: whitespace trimming, decimal and
//! hexadecimal rendering, zero-padding, and decimal parsing.

use vstd::prelude::*;

verus! {

/// The characters `char::is_whitespace` recognizes (the Unicode
/// White_Space property).
pub open spec fn is_ws_char(c: char) -> bool {
    ||| c == ' '
    ||| c == '\t'
    ||| c == '\n'
    ||| c == '\u{0b}'
    ||| c == '\u{0c}'
    ||| c == '\r'
    ||| c == '\u{85}'
    ||| c == '\u{a0}'
    ||| c == '\u{1680}'
    ||| ('\u{2000}' <= c && c <= '\u{200a}')
    ||| c == '\u{2028}'
    ||| c == '\u{2029}'
    ||| c == '\u{202f}'
    ||| c == '\u{205f}'
    ||| c == '\u{3000}'
}

/// Whether `c` is a decimal digit.
pub open spec fn is_digit_char(c: char) -> bool {
    48 <= c as int <= 57
}

/// Numeric value of a decimal digit character.
pub open spec fn digit_val(c: char) -> int {
    c as int - 48
}

/// The decimal digit character for a value below ten.
pub open spec fn digit_char(d: int) -> char {
    if d == 0 {
        '0'
    } else if d == 1 {
        '1'
    } else if d == 2 {
        '2'
    } else if d == 3 {
        '3'
    } else if d == 4 {
        '4'
    } else if d == 5 {
        '5'
    } else if d == 6 {
        '6'
    } else if d == 7 {
        '7'
    } else if d == 8 {
        '8'
    } else {
        '9'
    }
}

/// The sequence with leading whitespace removed.
pub open spec fn trim_start_spec(s: Seq<char>) -> Seq<char>
    decreases s.len(),
{
    if s.len() > 0 && is_ws_char(s[0]) {
        trim_start_spec(s.drop_first())
    } else {
        s
    }
}

/// The sequence with trailing whitespace removed.
pub open spec fn trim_end_spec(s: Seq<char>) -> Seq<char>
    decreases s.len(),
{
    if s.len() > 0 && is_ws_char(s.last()) {
        trim_end_spec(s.drop_last())
    } else {
        s
    }
}

/// The sequence with both leading and trailing whitespace removed.
pub open spec fn trim_spec(s: Seq<char>) -> Seq<char> {
    trim_end_spec(trim_start_spec(s))
}

/// A sequence without whitespace at either end trims to itself.
pub proof fn lemma_trim_of_trimmed(s: Seq<char>)
    requires
        s.len() > 0 ==> !is_ws_char(s[0]) && !is_ws_char(s.last()),
    ensures
        trim_spec(s) == s,
{
}

/// Whether `c` is whitespace, matching `is_ws_char`.
pub fn is_ws(c: char) -> (r: bool)
    ensures
        r == is_ws_char(c),
{
    let v = c as u32;
    v == 32 || v == 9 || v == 10 || v == 11 || v == 12 || v == 13 || v == 0x85 || v == 0xa0
        || v == 0x1680 || (0x2000 <= v && v <= 0x200a) || v == 0x2028 || v == 0x2029 || v == 0x202f
        || v == 0x205f || v == 0x3000
}

/// Removes leading and trailing whitespace, as `str::trim` does.
pub fn trim(s: &str) -> (r: &str)
    ensures
        r@ == trim_spec(s@),
{
    let len = s.unicode_len();
    let mut start: usize = 0;
    proof {
        assert(s@.skip(0) =~= s@);
    }
    while start < len && is_ws(s.get_char(start))
        invariant
            0 <= start <= len,
            len == s@.len(),
            trim_start_spec(s@) == trim_start_spec(s@.skip(start as int)),
        decreases len - start,
    {
        proof {
            assert(s@.skip(start as int).drop_first() =~= s@.skip(start + 1));
        }
        start = start + 1;
    }
    let ghost u = s@.skip(start as int);
    proof {
        assert(trim_start_spec(s@) == u);
        assert(u.take(u.len() as int) =~= u);
    }
    let mut end: usize = len;
    while end > start && is_ws(s.get_char(end - 1))
        invariant
            start <= end <= len,
            len == s@.len(),
            u == s@.skip(start as int),
            trim_end_spec(u) == trim_end_spec(u.take(end - start)),
        decreases end,
    {
        proof {
            assert(u.take(end - start).last() == s@[end - 1]);
            assert(u.take(end - start).drop_last() =~= u.take(end - 1 - start));
        }
        end = end - 1;
    }
    proof {
        if end > start {
            assert(u.take(end - start).last() == s@[end - 1]);
        }
        assert(trim_end_spec(u) == u.take(end - start));
        assert(u.take(end - start) =~= s@.subrange(start as int, end as int));
    }
    s.substring_char(start, end)
}

/// The decimal rendering of a natural number, most significant digit first.
pub open spec fn dec_of(n: int) -> Seq<char>
    decreases n,
{
    if n < 10 {
        seq![digit_char(n)]
    } else {
        dec_of(n / 10).push(digit_char(n % 10))
    }
}

/// Whether every character of `s` is a decimal digit.
pub open spec fn all_digits(s: Seq<char>) -> bool {
    forall|i: int| 0 <= i < s.len() ==> is_digit_char(#[trigger] s[i])
}

/// The numeric value of a digit sequence.
pub open spec fn dec_val(s: Seq<char>) -> int
    decreases s.len(),
{
    if s.len() == 0 {
        0
    } else {
        dec_val(s.drop_last()) * 10 + digit_val(s.last())
    }
}

/// A digit character carries the digit value it was built from.
pub proof fn lemma_digit_char_val(d: int)
    requires
        0 <= d < 10,
    ensures
        digit_val(digit_char(d)) == d,
        is_digit_char(digit_char(d)),
{
}

/// A decimal rendering consists of digits and evaluates back to its value.
pub proof fn lemma_dec_of_val(n: int)
    requires
        n >= 0,
    ensures
        dec_val(dec_of(n)) == n,
        all_digits(dec_of(n)),
        dec_of(n).len() >= 1,
    decreases n,
{
    if n < 10 {
        lemma_digit_char_val(n);
        assert(dec_of(n) =~= seq![digit_char(n)]);
        assert(dec_of(n).drop_last() =~= Seq::<char>::empty());
        assert(dec_val(Seq::<char>::empty()) == 0);
    } else {
        lemma_digit_char_val(n % 10);
        lemma_dec_of_val(n / 10);
        assert(dec_of(n).drop_last() =~= dec_of(n / 10));
        assert(dec_val(dec_of(n)) == (n / 10) * 10 + (n % 10));
        assert((n / 10) * 10 + (n % 10) == n) by {
            vstd::arithmetic::div_mod::lemma_fundamental_div_mod(n, 10);
        }
    }
}

/// A one-character string holding the decimal digit for `d`.
pub fn digit_str(d: u64) -> (r: &'static str)
    requires
        d < 10,
    ensures
        r@ =~= seq![digit_char(d as int)],
{
    proof {
        reveal_strlit("0");
        reveal_strlit("1");
        reveal_strlit("2");
        reveal_strlit("3");
        reveal_strlit("4");
        reveal_strlit("5");
        reveal_strlit("6");
        reveal_strlit("7");
        reveal_strlit("8");
        reveal_strlit("9");
    }
    match d {
        0 => "0",
        1 => "1",
        2 => "2",
        3 => "3",
        4 => "4",
        5 => "5",
        6 => "6",
        7 => "7",
        8 => "8",
        _ => "9",
    }
}

/// Renders `n` in decimal, without padding.
pub fn u64_to_dec(n: u64) -> (r: String)
    ensures
        r@ == dec_of(n as int),
    decreases n,
{
    if n < 10 {
        digit_str(n).to_owned()
    } else {
        let mut s = u64_to_dec(n / 10);
        s.append(digit_str(n % 10));
        proof {
            assert(s@ =~= dec_of(n as int));
        }
        s
    }
}

/// `w` zero characters.
pub open spec fn zeros(w: int) -> Seq<char> {
    Seq::new(if w >= 0 {
        w as nat
    } else {
        0
    }, |i: int| '0')
}

/// `s` left-padded with zeros to width `w` (unchanged if already wider).
pub open spec fn pad_zeros(s: Seq<char>, w: int) -> Seq<char> {
    zeros(w - s.len()) + s
}

/// Renders `n` in decimal, zero-padded on the left to `width` characters.
pub fn u64_to_dec_pad(n: u64, width: usize) -> (r: String)
    ensures
        r@ == pad_zeros(dec_of(n as int), width as int),
{
    let d = u64_to_dec(n);
    let dlen = d.as_str().unicode_len();
    let mut s = String::new();
    let mut k: usize = 0;
    let pad: usize = if dlen < width {
        width - dlen
    } else {
        0
    };
    proof {
        reveal_strlit("0");
        assert(s@ =~= zeros(0));
    }
    while k < pad
        invariant
            k <= pad,
            s@ == zeros(k as int),
        decreases pad - k,
    {
        s.append("0");
        proof {
            reveal_strlit("0");
            assert(s@ =~= zeros(k + 1));
        }
        k = k + 1;
    }
    s.append(d.as_str());
    proof {
        assert(s@ =~= pad_zeros(dec_of(n as int), width as int));
    }
    s
}

/// Character-wise string equality.
pub fn str_eq(a: &str, b: &str) -> (r: bool)
    ensures
        r == (a@ == b@),
{
    let la = a.unicode_len();
    let lb = b.unicode_len();
    if la != lb {
        return false;
    }
    let mut i: usize = 0;
    while i < la
        invariant
            0 <= i <= la,
            la == a@.len() == b@.len(),
            forall|j: int| 0 <= j < i ==> a@[j] == b@[j],
        decreases la - i,
    {
        if a.get_char(i) != b.get_char(i) {
            return false;
        }
        i = i + 1;
    }
    proof {
        assert(a@ =~= b@);
    }
    true
}

/// The character code with an ASCII lower-case letter folded to upper case.
pub open spec fn upper_code(c: char) -> int {
    if 97 <= c as int <= 122 {
        c as int - 32
    } else {
        c as int
    }
}

/// Equality up to ASCII case.
pub open spec fn eq_ignore_case(s: Seq<char>, t: Seq<char>) -> bool {
    s.len() == t.len() && (forall|i: int| 0 <= i < s.len() ==> upper_code(s[i]) == upper_code(
        #[trigger] t[i],
    ))
}

/// Compares two strings up to ASCII case.
pub fn str_eq_ignore_case(a: &str, b: &str) -> (r: bool)
    ensures
        r == eq_ignore_case(a@, b@),
{
    let la = a.unicode_len();
    let lb = b.unicode_len();
    if la != lb {
        return false;
    }
    let mut i: usize = 0;
    while i < la
        invariant
            0 <= i <= la,
            la == a@.len() == b@.len(),
            forall|j: int| 0 <= j < i ==> upper_code(a@[j]) == upper_code(#[trigger] b@[j]),
        decreases la - i,
    {
        let ca = a.get_char(i) as u32;
        let cb = b.get_char(i) as u32;
        let ua = if 97 <= ca && ca <= 122 {
            ca - 32
        } else {
            ca
        };
        let ub = if 97 <= cb && cb <= 122 {
            cb - 32
        } else {
            cb
        };
        if ua != ub {
            return false;
        }
        i = i + 1;
    }
    true
}

/// Lexicographic order on character sequences by code point, the order
/// `str`'s own comparison gives.
pub open spec fn lex_le(a: Seq<char>, b: Seq<char>) -> bool
    decreases a.len(),
{
    if a.len() == 0 {
        true
    } else if b.len() == 0 {
        false
    } else if (a[0] as int) < (b[0] as int) {
        true
    } else if a[0] == b[0] {
        lex_le(a.drop_first(), b.drop_first())
    } else {
        false
    }
}

/// Lexicographic order is total.
pub proof fn lemma_lex_le_total(a: Seq<char>, b: Seq<char>)
    ensures
        lex_le(a, b) || lex_le(b, a),
    decreases a.len(),
{
    if a.len() > 0 && b.len() > 0 && a[0] == b[0] {
        lemma_lex_le_total(a.drop_first(), b.drop_first());
    }
}

/// Lexicographic order is transitive.
pub proof fn lemma_lex_le_trans(a: Seq<char>, b: Seq<char>, c: Seq<char>)
    requires
        lex_le(a, b),
        lex_le(b, c),
    ensures
        lex_le(a, c),
    decreases a.len(),
{
    if a.len() > 0 && b.len() > 0 && c.len() > 0 && a[0] == b[0] && b[0] == c[0] {
        lemma_lex_le_trans(a.drop_first(), b.drop_first(), c.drop_first());
    }
}

/// Compares two strings lexicographically.
pub fn str_lex_le(a: &str, b: &str) -> (r: bool)
    ensures
        r == lex_le(a@, b@),
{
    let la = a.unicode_len();
    let lb = b.unicode_len();
    let mut i: usize = 0;
    proof {
        assert(a@.skip(0) =~= a@);
        assert(b@.skip(0) =~= b@);
    }
    while i < la && i < lb
        invariant
            0 <= i <= la,
            0 <= i <= lb,
            la == a@.len(),
            lb == b@.len(),
            lex_le(a@, b@) == lex_le(a@.skip(i as int), b@.skip(i as int)),
        decreases la - i,
    {
        let ca = a.get_char(i) as u32;
        let cb = b.get_char(i) as u32;
        if ca < cb {
            return true;
        }
        if ca > cb {
            return false;
        }
        proof {
            assert(a@.skip(i as int).drop_first() =~= a@.skip(i + 1));
            assert(b@.skip(i as int).drop_first() =~= b@.skip(i + 1));
        }
        i = i + 1;
    }
    proof {
        if i == la {
            assert(a@.skip(i as int).len() == 0);
        } else {
            assert(b@.skip(i as int).len() == 0);
            assert(a@.skip(i as int).len() > 0);
        }
    }
    i == la
}

/// Lexicographic order ignores a common prefix.
pub proof fn lemma_lex_le_common_prefix(p: Seq<char>, b: Seq<char>, c: Seq<char>)
    ensures
        lex_le(p + b, p + c) == lex_le(b, c),
    decreases p.len(),
{
    if p.len() == 0 {
        assert(p + b =~= b);
        assert(p + c =~= c);
    } else {
        assert((p + b)[0] == p[0]);
        assert((p + c)[0] == p[0]);
        assert((p + b).drop_first() =~= p.drop_first() + b);
        assert((p + c).drop_first() =~= p.drop_first() + c);
        lemma_lex_le_common_prefix(p.drop_first(), b, c);
    }
}

/// Sequences with equal heads and equal tails are equal.
proof fn lemma_head_tail_eq(a: Seq<char>, b: Seq<char>)
    requires
        a.len() == b.len(),
        a.len() > 0,
        a[0] == b[0],
        a.drop_first() == b.drop_first(),
    ensures
        a == b,
{
    assert forall|i: int| 0 <= i < a.len() implies a[i] == b[i] by {
        if i > 0 {
            assert(a.drop_first()[i - 1] == a[i]);
            assert(b.drop_first()[i - 1] == b[i]);
        }
    }
    assert(a =~= b);
}

/// A strict difference between equal-length prefixes decides the order,
/// whatever follows them.
pub proof fn lemma_lex_lt_prefix(a: Seq<char>, a2: Seq<char>, b: Seq<char>, c: Seq<char>)
    requires
        a.len() == a2.len(),
        lex_le(a, a2),
        a != a2,
    ensures
        lex_le(a + b, a2 + c),
    decreases a.len(),
{
    assert(a.len() > 0) by {
        if a.len() == 0 {
            assert(a =~= a2);
        }
    }
    assert((a + b)[0] == a[0]);
    assert((a2 + c)[0] == a2[0]);
    if a[0] == a2[0] {
        assert(a.drop_first() != a2.drop_first()) by {
            if a.drop_first() == a2.drop_first() {
                lemma_head_tail_eq(a, a2);
            }
        }
        lemma_lex_lt_prefix(a.drop_first(), a2.drop_first(), b, c);
        assert((a + b).drop_first() =~= a.drop_first() + b);
        assert((a2 + c).drop_first() =~= a2.drop_first() + c);
    }
}

/// Appending one character to equal-length sequences orders by the old
/// sequences first and the new characters on a tie.
pub proof fn lemma_lex_le_push(u: Seq<char>, v: Seq<char>, a: char, b: char)
    requires
        u.len() == v.len(),
    ensures
        lex_le(u.push(a), v.push(b)) == (if u == v {
            a as int <= b as int
        } else {
            lex_le(u, v)
        }),
    decreases u.len(),
{
    if u.len() == 0 {
        assert(u =~= v);
        assert(u.push(a)[0] == a);
        assert(v.push(b)[0] == b);
        assert(u.push(a).drop_first() =~= Seq::<char>::empty());
        assert(v.push(b).drop_first() =~= Seq::<char>::empty());
        assert(lex_le(Seq::<char>::empty(), Seq::<char>::empty()));
    } else {
        assert(u.push(a)[0] == u[0]);
        assert(v.push(b)[0] == v[0]);
        if u[0] == v[0] {
            assert(u.push(a).drop_first() =~= u.drop_first().push(a));
            assert(v.push(b).drop_first() =~= v.drop_first().push(b));
            lemma_lex_le_push(u.drop_first(), v.drop_first(), a, b);
            assert((u.drop_first() == v.drop_first()) == (u == v)) by {
                if u.drop_first() == v.drop_first() {
                    lemma_head_tail_eq(u, v);
                }
            }
        } else {
            assert(u != v);
        }
    }
}

/// Powers of ten.
pub open spec fn pow10(w: int) -> int
    decreases w,
{
    if w <= 0 {
        1
    } else {
        10 * pow10(w - 1)
    }
}

/// A padded decimal peels off its least significant digit.
proof fn lemma_dec_pad_peel(x: int, w: int)
    requires
        0 <= x < pow10(w),
        w >= 2,
    ensures
        pad_zeros(dec_of(x), w) == pad_zeros(dec_of(x / 10), w - 1).push(digit_char(x % 10)),
        0 <= x / 10 < pow10(w - 1),
{
    vstd::arithmetic::div_mod::lemma_fundamental_div_mod(x, 10);
    assert(pow10(w) == 10 * pow10(w - 1));
    assert(0 <= x / 10 < pow10(w - 1)) by {
        if x / 10 >= pow10(w - 1) {
            assert(x >= 10 * (x / 10));
        }
        if x / 10 < 0 {
            vstd::arithmetic::div_mod::lemma_div_pos_is_pos(x, 10);
        }
    }
    lemma_dec_of_val(x);
    lemma_dec_of_val(x / 10);
    if x < 10 {
        assert(x / 10 == 0);
        assert(dec_of(0) =~= seq![digit_char(0)]);
        assert(pad_zeros(dec_of(x), w) =~= pad_zeros(dec_of(x / 10), w - 1).push(
            digit_char(x % 10),
        ));
    } else {
        assert(dec_of(x) == dec_of(x / 10).push(digit_char(x % 10)));
        assert(pad_zeros(dec_of(x), w) =~= pad_zeros(dec_of(x / 10), w - 1).push(
            digit_char(x % 10),
        ));
    }
}

/// Zero-padded decimals of one width order like their values: the width is
/// exact, the order is lexicographic, and distinct values render apart.
pub proof fn lemma_dec_pad_orders(x: int, y: int, w: int)
    requires
        0 <= x <= y < pow10(w),
        w >= 1,
    ensures
        pad_zeros(dec_of(x), w).len() == w,
        pad_zeros(dec_of(y), w).len() == w,
        lex_le(pad_zeros(dec_of(x), w), pad_zeros(dec_of(y), w)),
        x < y ==> pad_zeros(dec_of(x), w) != pad_zeros(dec_of(y), w),
    decreases w,
{
    lemma_dec_of_val(x);
    lemma_dec_of_val(y);
    if w == 1 {
        assert(pow10(1) == 10);
        lemma_digit_char_val(x);
        lemma_digit_char_val(y);
        let px = pad_zeros(dec_of(x), 1);
        let py = pad_zeros(dec_of(y), 1);
        assert(px =~= seq![digit_char(x)]);
        assert(py =~= seq![digit_char(y)]);
        assert(px[0] == digit_char(x));
        assert(py[0] == digit_char(y));
        assert(digit_char(x) as int == 48 + x);
        assert(digit_char(y) as int == 48 + y);
        if x < y {
            assert((px[0] as int) < (py[0] as int));
            assert(lex_le(px, py));
            assert(px[0] != py[0]);
            assert(px != py);
        } else {
            assert(x == y);
            assert(px.drop_first() =~= Seq::<char>::empty());
            assert(lex_le(Seq::<char>::empty(), Seq::<char>::empty()));
            assert(lex_le(px, py));
        }
    } else {
        lemma_dec_pad_peel(x, w);
        lemma_dec_pad_peel(y, w);
        vstd::arithmetic::div_mod::lemma_fundamental_div_mod(x, 10);
        vstd::arithmetic::div_mod::lemma_fundamental_div_mod(y, 10);
        vstd::arithmetic::div_mod::lemma_div_is_ordered(x, y, 10);
        lemma_dec_pad_orders(x / 10, y / 10, w - 1);
        let u = pad_zeros(dec_of(x / 10), w - 1);
        let v = pad_zeros(dec_of(y / 10), w - 1);
        lemma_lex_le_push(u, v, digit_char(x % 10), digit_char(y % 10));
        lemma_digit_char_val(x % 10);
        lemma_digit_char_val(y % 10);
        assert(digit_char(x % 10) as int == 48 + x % 10);
        assert(digit_char(y % 10) as int == 48 + y % 10);
        let px = pad_zeros(dec_of(x), w);
        let py = pad_zeros(dec_of(y), w);
        assert(px == u.push(digit_char(x % 10)));
        assert(py == v.push(digit_char(y % 10)));
        if x / 10 == y / 10 {
            assert(x % 10 <= y % 10);
            assert(u == v);
            assert(lex_le(px, py));
            if x < y {
                assert(x % 10 < y % 10);
                assert(digit_char(x % 10) != digit_char(y % 10));
                assert(px.last() != py.last());
                assert(px != py);
            }
        } else {
            assert(x / 10 < y / 10);
            assert(u != v);
            assert(lex_le(px, py));
            if x < y {
                assert(px != py) by {
                    if px == py {
                        assert(px.drop_last() =~= u);
                        assert(py.drop_last() =~= v);
                    }
                }
            }
        }
    }
}

/// The position of the first `": "` key-value separator, if any.
pub open spec fn find_sep(s: Seq<char>) -> Option<int>
    decreases s.len(),
{
    if s.len() < 2 {
        None
    } else if s[0] == ':' && s[1] == ' ' {
        Some(0)
    } else {
        match find_sep(s.drop_first()) {
            None => None,
            Some(i) => Some(i + 1),
        }
    }
}

/// What `find_sep` returns: the least separator position, or none anywhere.
pub proof fn lemma_find_sep(s: Seq<char>)
    ensures
        match find_sep(s) {
            Some(i) => 0 <= i < s.len() - 1 && s[i] == ':' && s[i + 1] == ' ' && (forall|j: int|
                0 <= j < i ==> !(#[trigger] s[j] == ':' && s[j + 1] == ' ')),
            None => forall|j: int|
                0 <= j < s.len() - 1 ==> !(#[trigger] s[j] == ':' && s[j + 1] == ' '),
        },
    decreases s.len(),
{
    if s.len() < 2 {
    } else if s[0] == ':' && s[1] == ' ' {
    } else {
        let d = s.drop_first();
        lemma_find_sep(d);
        match find_sep(d) {
            Some(i) => {
                assert(s[i + 1] == d[i]);
                assert(s[i + 2] == d[i + 1]);
                assert forall|j: int| 0 <= j < i + 1 implies !(#[trigger] s[j] == ':' && s[j + 1]
                    == ' ') by {
                    if j > 0 {
                        assert(d[j - 1] == s[j]);
                        assert(d[j] == s[j + 1]);
                    }
                }
            },
            None => {
                assert forall|j: int| 0 <= j < s.len() - 1 implies !(#[trigger] s[j] == ':' && s[j
                    + 1] == ' ') by {
                    if j > 0 {
                        assert(d[j - 1] == s[j]);
                        assert(d[j] == s[j + 1]);
                    }
                }
            },
        }
    }
}

/// Finds the first `": "` separator, as `str::split_once(": ")` does.
pub fn find_key_sep(s: &str) -> (r: Option<usize>)
    ensures
        r is Some <==> find_sep(s@) is Some,
        r is Some ==> find_sep(s@) == Some(r->0 as int),
{
    let len = s.unicode_len();
    if len < 2 {
        proof {
            lemma_find_sep(s@);
        }
        return None;
    }
    let mut i: usize = 0;
    while i < len - 1
        invariant
            0 <= i <= len - 1,
            len == s@.len(),
            forall|j: int| 0 <= j < i ==> !(#[trigger] s@[j] == ':' && s@[j + 1] == ' '),
        decreases len - i,
    {
        if s.get_char(i) == ':' && s.get_char(i + 1) == ' ' {
            proof {
                lemma_find_sep(s@);
            }
            return Some(i);
        }
        i = i + 1;
    }
    proof {
        lemma_find_sep(s@);
    }
    None
}

/// The lower-case hexadecimal digit character for a value below sixteen.
pub open spec fn hex_digit_char(d: int) -> char {
    if d < 10 {
        digit_char(d)
    } else if d == 10 {
        'a'
    } else if d == 11 {
        'b'
    } else if d == 12 {
        'c'
    } else if d == 13 {
        'd'
    } else if d == 14 {
        'e'
    } else {
        'f'
    }
}

/// The hexadecimal rendering of `n` in exactly `k` digits (most significant
/// first, zero-padded, truncated to the low `k` digits).
pub open spec fn hex_of(n: int, k: int) -> Seq<char>
    decreases k,
{
    if k <= 0 {
        Seq::empty()
    } else {
        hex_of(n / 16, k - 1).push(hex_digit_char(n % 16))
    }
}

/// A fixed-width hexadecimal rendering has exactly its width.
pub proof fn lemma_hex_of_len(n: int, k: int)
    requires
        k >= 0,
    ensures
        hex_of(n, k).len() == k,
    decreases k,
{
    if k > 0 {
        lemma_hex_of_len(n / 16, k - 1);
    }
}

/// A one-character string holding the lower-case hexadecimal digit for `d`.
pub fn hex_digit_str(d: u64) -> (r: &'static str)
    requires
        d < 16,
    ensures
        r@ =~= seq![hex_digit_char(d as int)],
{
    if d < 10 {
        digit_str(d)
    } else {
        proof {
            reveal_strlit("a");
            reveal_strlit("b");
            reveal_strlit("c");
            reveal_strlit("d");
            reveal_strlit("e");
            reveal_strlit("f");
        }
        match d {
            10 => "a",
            11 => "b",
            12 => "c",
            13 => "d",
            14 => "e",
            _ => "f",
        }
    }
}

/// Renders the low `k` hexadecimal digits of `n`, zero-padded.
pub fn u64_to_hex(n: u64, k: usize) -> (r: String)
    ensures
        r@ == hex_of(n as int, k as int),
    decreases k,
{
    if k == 0 {
        let r = String::new();
        proof {
            assert(r@ =~= hex_of(n as int, 0));
        }
        r
    } else {
        let mut s = u64_to_hex(n / 16, k - 1);
        s.append(hex_digit_str(n % 16));
        proof {
            assert(s@ =~= hex_of(n as int, k as int));
        }
        s
    }
}

/// The value of a digit string as `u8::from_str` reads it: an optional
/// leading plus sign, then at least one digit, with the value at most 255.
pub open spec fn parse_u8_spec(s: Seq<char>) -> Option<u8> {
    let digits = if s.len() > 0 && s[0] == '+' {
        s.drop_first()
    } else {
        s
    };
    if digits.len() > 0 && all_digits(digits) && dec_val(digits) <= 255 {
        Some(dec_val(digits) as u8)
    } else {
        None
    }
}

/// Parses a `u8` from a string, as `str::parse::<u8>` does.
pub fn parse_u8(s: &str) -> (r: Option<u8>)
    ensures
        r == parse_u8_spec(s@),
{
    let len = s.unicode_len();
    let start: usize = if len > 0 && s.get_char(0) == '+' {
        1
    } else {
        0
    };
    let ghost digits = if s@.len() > 0 && s@[0] == '+' {
        s@.drop_first()
    } else {
        s@
    };
    proof {
        assert(digits =~= s@.subrange(start as int, len as int));
    }
    if start == len {
        return None;
    }
    let mut acc: u32 = 0;
    let mut i: usize = start;
    proof {
        assert(digits.take(0) =~= Seq::<char>::empty());
    }
    while i < len
        invariant
            start <= i <= len,
            len == s@.len(),
            digits == s@.subrange(start as int, len as int),
            digits == (if s@.len() > 0 && s@[0] == '+' {
                s@.drop_first()
            } else {
                s@
            }),
            start == (if s@.len() > 0 && s@[0] == '+' {
                1int
            } else {
                0int
            }),
            all_digits(digits.take(i - start)),
            dec_val(digits.take(i - start)) <= 255 ==> acc == dec_val(digits.take(i - start)),
            dec_val(digits.take(i - start)) > 255 ==> acc == 256,
            acc <= 256,
        decreases len - i,
    {
        let c = s.get_char(i);
        let v = c as u32;
        if v < 48 || v > 57 {
            proof {
                assert(digits[i - start] == s@[i as int]);
                assert(!is_digit_char(digits[i - start]));
            }
            return None;
        }
        proof {
            assert(digits.take(i + 1 - start).drop_last() =~= digits.take(i - start));
            assert(digits.take(i + 1 - start).last() == s@[i as int]);
        }
        let next = acc * 10 + (v - 48);
        acc = if next > 255 {
            256
        } else {
            next
        };
        i = i + 1;
    }
    proof {
        assert(digits.take(len - start) =~= digits);
    }
    if acc > 255 {
        None
    } else {
        Some(acc as u8)
    }
}

} // verus!
