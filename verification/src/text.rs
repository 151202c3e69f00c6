//! Text helpers: strings are reasoned about as sequences of characters.
use vstd::prelude::*;
use vstd::string::StrSliceExecFns;

verus! {

/// `String::push` appends one character at the end of the string.
pub assume_specification[ String::push ](s: &mut String, ch: char)
    ensures
        final(s)@ == old(s)@.push(ch),
;

/// `String::push_str` appends a whole string slice at the end of the string.
pub assume_specification[ String::push_str ](s: &mut String, string: &str)
    ensures
        final(s)@ == old(s)@ + string@,
;

/// Whether two strings hold the same characters.
pub fn same_text(a: &str, b: &str) -> (r: bool)
    ensures
        r == (a@ == b@),
{
    let x = a.to_owned();
    let y = b.to_owned();
    x == y
}

/// The characters of a string, in order.
pub fn to_chars(s: &str) -> (r: Vec<char>)
    ensures
        r@ == s@,
{
    let mut out: Vec<char> = Vec::new();
    for c in it: s.chars()
        invariant
            out@ == it.seq().subrange(0, it.index() as int),
            it.seq() == s@,
    {
        out.push(c);
    }
    out
}

/// The string made of the characters `cs[from..to]`.
pub fn slice_text(cs: &Vec<char>, from: usize, to: usize) -> (r: String)
    requires
        from <= to <= cs.len(),
    ensures
        r@ == cs@.subrange(from as int, to as int),
{
    let mut out = String::new();
    let mut i: usize = from;
    while i < to
        invariant
            from <= i <= to <= cs.len(),
            out@ == cs@.subrange(from as int, i as int),
        decreases to - i,
    {
        out.push(cs[i]);
        i += 1;
    }
    out
}

/// The string made of all characters of `cs`.
pub fn from_chars(cs: &Vec<char>) -> (r: String)
    ensures
        r@ == cs@,
{
    slice_text(cs, 0, cs.len())
}

/// The concatenation of two strings.
pub fn join2(a: &str, b: &str) -> (r: String)
    ensures
        r@ == a@ + b@,
{
    let mut s = a.to_owned();
    s.push_str(b);
    s
}

/// The concatenation of three strings.
pub fn join3(a: &str, b: &str, c: &str) -> (r: String)
    ensures
        r@ == a@ + b@ + c@,
{
    let mut s = a.to_owned();
    s.push_str(b);
    s.push_str(c);
    s
}

/// The character that writes the decimal digit `d`.
pub open spec fn digit_char(d: int) -> char {
    if d == 0 {
        '0'
    } else if d == 1 {
        '1'
    } else if d == 2 {
        '2'
    } else if d == 3 {
        '3'
    } else if d == 4 {
        '4'
    } else if d == 5 {
        '5'
    } else if d == 6 {
        '6'
    } else if d == 7 {
        '7'
    } else if d == 8 {
        '8'
    } else {
        '9'
    }
}

/// The decimal digits of a natural number, without leading zeros.
pub open spec fn dec(n: nat) -> Seq<char>
    decreases n,
{
    if n < 10 {
        seq![digit_char(n as int)]
    } else {
        dec(n / 10).push(digit_char((n % 10) as int))
    }
}

/// The decimal text of an integer, with a minus sign when negative.
pub open spec fn dec_int(n: int) -> Seq<char> {
    if n < 0 {
        seq!['-'] + dec((-n) as nat)
    } else {
        dec(n as nat)
    }
}

/// The decimal digit `d` as a character.
pub fn digit(d: u64) -> (c: char)
    requires
        d < 10,
    ensures
        c == digit_char(d as int),
{
    match d {
        0 => '0',
        1 => '1',
        2 => '2',
        3 => '3',
        4 => '4',
        5 => '5',
        6 => '6',
        7 => '7',
        8 => '8',
        _ => '9',
    }
}

/// Decimal text of an unsigned number.
pub fn u64_text(n: u64) -> (r: String)
    ensures
        r@ == dec(n as nat),
    decreases n,
{
    if n < 10 {
        let mut s = String::new();
        s.push(digit(n));
        assert(s@ =~= dec(n as nat));
        s
    } else {
        let mut s = u64_text(n / 10);
        s.push(digit(n % 10));
        s
    }
}

/// Decimal text of a signed number.
pub fn i64_text(n: i64) -> (r: String)
    ensures
        r@ == dec_int(n as int),
{
    if n < 0 {
        let mag: u64 = if n == i64::MIN {
            9223372036854775808u64
        } else {
            (-n) as u64
        };
        let mut s = String::new();
        s.push('-');
        let d = u64_text(mag);
        s.push_str(d.as_str());
        assert(s@ =~= dec_int(n as int));
        s
    } else {
        u64_text(n as u64)
    }
}

/// Decimal text of a size.
pub fn usize_text(n: usize) -> (r: String)
    ensures
        r@ == dec(n as nat),
{
    u64_text(n as u64)
}

/// What `str::to_uppercase` makes of a text: the Unicode upper case mapping of
/// its characters.
pub uninterp spec fn upper_text(s: Seq<char>) -> Seq<char>;

/// What `str::to_lowercase` makes of a text: the Unicode lower case mapping of
/// its characters.
pub uninterp spec fn lower_text(s: Seq<char>) -> Seq<char>;

/// `str::to_uppercase`: the same text always has the same upper case.
#[verifier::external_body]
pub(crate) fn to_upper(s: &str) -> (r: String)
    ensures
        r@ == upper_text(s@),
{
    s.to_uppercase()
}

/// `str::to_lowercase`: the same text always has the same lower case.
#[verifier::external_body]
pub(crate) fn to_lower(s: &str) -> (r: String)
    ensures
        r@ == lower_text(s@),
{
    s.to_lowercase()
}

/// The value of a decimal digit, where the character is one.
pub open spec fn digit_value(c: char) -> Option<int> {
    if '0' <= c && c <= '9' {
        Some(c as int - '0' as int)
    } else {
        None
    }
}

/// Whether all characters are decimal digits.
pub open spec fn all_digits(s: Seq<char>) -> bool {
    forall|i: int| 0 <= i < s.len() ==> digit_value(#[trigger] s[i]) is Some
}

/// The number that decimal digits denote.
pub open spec fn dec_value(s: Seq<char>) -> int
    decreases s.len(),
{
    if s.len() == 0 {
        0
    } else {
        dec_value(s.drop_last()) * 10 + digit_value(s.last())->0
    }
}

/// The integer between `lo` and `hi` that a text denotes: an optional sign,
/// where a minus sign is taken only if `lo` is negative, then digits.
pub open spec fn int_text(s: Seq<char>, lo: int, hi: int) -> Option<int> {
    let signed = s.len() > 0 && (s[0] == '+' || (s[0] == '-' && lo < 0));
    let body = if signed {
        s.subrange(1, s.len() as int)
    } else {
        s
    };
    if body.len() == 0 || !all_digits(body) {
        None
    } else {
        let v = if signed && s[0] == '-' {
            -dec_value(body)
        } else {
            dec_value(body)
        };
        if lo <= v <= hi {
            Some(v)
        } else {
            None
        }
    }
}

/// More digits never make a smaller number.
proof fn lemma_dec_value_grows(s: Seq<char>, n: int)
    requires
        all_digits(s),
        0 <= n <= s.len(),
    ensures
        0 <= dec_value(s.subrange(0, n)) <= dec_value(s),
    decreases s.len(),
{
    if n == s.len() {
        assert(s.subrange(0, n) =~= s);
        if n > 0 {
            let f = s.drop_last();
            assert forall|i: int| 0 <= i < f.len() implies digit_value(#[trigger] f[i]) is Some by {
                assert(f[i] == s[i]);
            }
            lemma_dec_value_grows(f, n - 1);
            assert(digit_value(s[n - 1]) is Some);
        }
    } else {
        let f = s.drop_last();
        assert forall|i: int| 0 <= i < f.len() implies digit_value(#[trigger] f[i]) is Some by {
            assert(f[i] == s[i]);
        }
        lemma_dec_value_grows(f, n);
        assert(f.subrange(0, n) =~= s.subrange(0, n));
        assert(digit_value(s[s.len() - 1]) is Some);
    }
}

/// The value of a decimal digit.
fn char_digit(c: char) -> (r: Option<i128>)
    ensures
        match r {
            Some(d) => digit_value(c) == Some(d as int) && 0 <= d <= 9,
            None => digit_value(c) is None,
        },
{
    if '0' <= c && c <= '9' {
        Some((c as u32 - '0' as u32) as i128)
    } else {
        None
    }
}

/// Reads an integer between `lo` and `hi`.
pub fn parse_int(s: &str, lo: i128, hi: i128) -> (r: Option<i128>)
    requires
        -0x1_0000_0000_0000_0000 <= lo <= 0,
        0 <= hi <= 0x1_0000_0000_0000_0000,
    ensures
        match r {
            Some(v) => int_text(s@, lo as int, hi as int) == Some(v as int),
            None => int_text(s@, lo as int, hi as int) is None,
        },
{
    let cs = to_chars(s);
    let signed = cs.len() > 0 && (cs[0] == '+' || (cs[0] == '-' && lo < 0));
    let minus = signed && cs[0] == '-';
    let start: usize = if signed {
        1
    } else {
        0
    };
    if cs.len() == start {
        return None;
    }
    let ghost body = cs@.subrange(start as int, cs.len() as int);
    assert(start == 0 ==> body =~= cs@);
    let mut acc: i128 = 0;
    let mut i: usize = start;
    while i < cs.len()
        invariant
            start <= i <= cs.len(),
            body == cs@.subrange(start as int, cs.len() as int),
            0 <= acc <= 0x1_0000_0000_0000_0000,
            acc == dec_value(body.subrange(0, i - start)),
            forall|k: int| 0 <= k < i - start ==> digit_value(#[trigger] body[k]) is Some,
            -0x1_0000_0000_0000_0000 <= lo <= 0,
            0 <= hi <= 0x1_0000_0000_0000_0000,
            body == (if signed {
                s@.subrange(1, s@.len() as int)
            } else {
                s@
            }),
            signed == (s@.len() > 0 && (s@[0] == '+' || (s@[0] == '-' && lo < 0))),
            minus == (signed && s@[0] == '-'),
        decreases cs.len() - i,
    {
        assert(body[i - start] == cs[i as int]);
        match char_digit(cs[i]) {
            None => {
                assert(!all_digits(body));
                return None;
            },
            Some(d) => {
                let next: i128 = acc * 10 + d;
                proof {
                    let t = body.subrange(0, i - start + 1);
                    assert(t.drop_last() =~= body.subrange(0, i - start));
                    assert(t.last() == body[i - start]);
                    assert(next == dec_value(t));
                }
                if next > 0x1_0000_0000_0000_0000 {
                    proof {
                        if all_digits(body) {
                            lemma_dec_value_grows(body, i - start + 1);
                        }
                    }
                    return None;
                }
                acc = next;
            },
        }
        i += 1;
    }
    assert(body.subrange(0, i - start) =~= body);
    let v: i128 = if minus {
        -acc
    } else {
        acc
    };
    if lo <= v && v <= hi {
        Some(v)
    } else {
        None
    }
}

/// Whether `n` stands in `h` at position `p`.
pub open spec fn occurs_at(h: Seq<char>, n: Seq<char>, p: int) -> bool {
    0 <= p && p + n.len() <= h.len() && h.subrange(p, p + n.len()) == n
}

/// The first position from `i` on at which `n` stands in `h`.
pub open spec fn find_from(h: Seq<char>, n: Seq<char>, i: int) -> Option<int>
    decreases h.len() + 1 - i,
{
    if i < 0 || i + n.len() > h.len() {
        None
    } else if occurs_at(h, n, i) {
        Some(i)
    } else {
        find_from(h, n, i + 1)
    }
}

/// Whether `n` stands somewhere in `h`.
pub open spec fn contains_text(h: Seq<char>, n: Seq<char>) -> bool {
    find_from(h, n, 0) is Some
}

/// What is found is the first occurrence, and nothing is found only where
/// there is none.
pub proof fn lemma_find_from(h: Seq<char>, n: Seq<char>, i: int)
    requires
        0 <= i,
    ensures
        match find_from(h, n, i) {
            Some(p) => i <= p && occurs_at(h, n, p) && forall|q: int|
                i <= q < p ==> !occurs_at(h, n, q),
            None => forall|q: int| i <= q ==> !occurs_at(h, n, q),
        },
    decreases h.len() + 1 - i,
{
    if i + n.len() <= h.len() && !occurs_at(h, n, i) {
        lemma_find_from(h, n, i + 1);
    }
}

fn stands_at(h: &Vec<char>, n: &Vec<char>, p: usize) -> (r: bool)
    requires
        p + n.len() <= h.len(),
    ensures
        r == occurs_at(h@, n@, p as int),
{
    let ghost part = h@.subrange(p as int, p + n.len());
    let mut k: usize = 0;
    while k < n.len()
        invariant
            p + n.len() <= h.len(),
            part == h@.subrange(p as int, p + n.len()),
            k <= n.len(),
            forall|j: int| 0 <= j < k ==> part[j] == n[j],
        decreases n.len() - k,
    {
        assert(part[k as int] == h[p + k]);
        if h[p + k] != n[k] {
            return false;
        }
        k += 1;
    }
    assert(part =~= n@);
    true
}

/// Finds the first occurrence of `n` in `h` from `from` on.
pub fn find_chars(h: &Vec<char>, n: &Vec<char>, from: usize) -> (r: Option<usize>)
    ensures
        match r {
            Some(p) => find_from(h@, n@, from as int) == Some(p as int) && p + n.len() <= h.len()
                && from <= p,
            None => find_from(h@, n@, from as int) is None,
        },
{
    if n.len() > h.len() || from > h.len() - n.len() {
        return None;
    }
    let last: usize = h.len() - n.len();
    let mut i: usize = from;
    while i < last
        invariant
            last + n.len() == h.len(),
            from <= i <= last,
            find_from(h@, n@, from as int) == find_from(h@, n@, i as int),
        decreases last - i,
    {
        if stands_at(h, n, i) {
            return Some(i);
        }
        i += 1;
    }
    if stands_at(h, n, last) {
        Some(last)
    } else {
        assert(find_from(h@, n@, last + 1) is None);
        None
    }
}

/// Whether `n` stands somewhere in `h`.
pub fn has_text(h: &str, n: &str) -> (r: bool)
    ensures
        r == contains_text(h@, n@),
{
    let hc = to_chars(h);
    let nc = to_chars(n);
    find_chars(&hc, &nc, 0).is_some()
}

/// `k` zeros.
pub open spec fn zeros(k: nat) -> Seq<char> {
    Seq::new(k, |i: int| '0')
}

/// A number in decimal, filled with zeros behind the sign to `w` characters.
pub open spec fn padded(n: int, w: nat) -> Seq<char> {
    if n < 0 {
        let d = dec((-n) as nat);
        seq!['-'] + zeros(if d.len() + 1 < w { (w - d.len() - 1) as nat } else { 0 }) + d
    } else {
        let d = dec(n as nat);
        zeros(if d.len() < w { (w - d.len()) as nat } else { 0 }) + d
    }
}

/// Writes a number in decimal, filled with zeros to `w` characters.
pub fn pad_text(n: i64, w: usize) -> (r: String)
    requires
        n > i64::MIN,
        w < 100,
    ensures
        r@ == padded(n as int, w as nat),
{
    let mut out = String::new();
    let mag: u64 = if n < 0 {
        out.push('-');
        (-n) as u64
    } else {
        n as u64
    };
    let d = u64_text(mag);
    let len: usize = d.as_str().unicode_len();
    let used: usize = if n < 0 && len < 200 {
        len + 1
    } else {
        len
    };
    let ghost head = out@;
    let mut k: usize = 0;
    while k + used < w
        invariant
            w < 100,
            k <= w,
            out@ == head + zeros(k as nat),
            k > 0 ==> k + used <= w,
        decreases w - k,
    {
        out.push('0');
        assert(zeros((k + 1) as nat) =~= zeros(k as nat).push('0'));
        assert(out@ =~= head + zeros((k + 1) as nat));
        k += 1;
    }
    out.push_str(d.as_str());
    assert(out@ =~= padded(n as int, w as nat));
    out
}

/// The texts of `parts` with `sep` between neighbours.
pub open spec fn joined(parts: Seq<Seq<char>>, sep: Seq<char>) -> Seq<char>
    decreases parts.len(),
{
    if parts.len() == 0 {
        Seq::empty()
    } else if parts.len() == 1 {
        parts[0]
    } else {
        joined(parts.drop_last(), sep) + sep + parts.last()
    }
}

/// Joins `parts` with `sep` between neighbours.
pub fn join_text(parts: &Vec<String>, sep: &str) -> (r: String)
    ensures
        r@ == joined(parts.deep_view(), sep@),
{
    let mut out = String::new();
    let mut i: usize = 0;
    while i < parts.len()
        invariant
            i <= parts.len(),
            out@ == joined(parts.deep_view().subrange(0, i as int), sep@),
        decreases parts.len() - i,
    {
        if i > 0 {
            out.push_str(sep);
        }
        out.push_str(parts[i].as_str());
        proof {
            let next = parts.deep_view().subrange(0, i as int + 1);
            assert(next.drop_last() =~= parts.deep_view().subrange(0, i as int));
            assert(next.last() == parts[i as int]@);
            assert(out@ =~= joined(next, sep@));
        }
        i += 1;
    }
    assert(parts.deep_view().subrange(0, i as int) =~= parts.deep_view());
    out
}

/// The pieces of `s` from `i` on between the occurrences of a delimiter,
/// found from left to right.
pub open spec fn pieces(s: Seq<char>, d: Seq<char>, i: int) -> Seq<Seq<char>>
    decreases s.len() - i,
{
    if d.len() == 0 || i < 0 || i > s.len() {
        Seq::empty()
    } else {
        proof {
            lemma_find_from(s, d, i);
        }
        match find_from(s, d, i) {
            Some(p) => seq![s.subrange(i, p)] + pieces(s, d, p + d.len()),
            None => seq![s.subrange(i, s.len() as int)],
        }
    }
}

/// A text split at a delimiter. The empty delimiter stands before, between
/// and behind the characters.
pub open spec fn split_text(s: Seq<char>, d: Seq<char>) -> Seq<Seq<char>> {
    if d.len() == 0 {
        Seq::new(
            s.len() + 2,
            |k: int|
                if 1 <= k <= s.len() {
                    seq![s[k - 1]]
                } else {
                    Seq::empty()
                },
        )
    } else {
        pieces(s, d, 0)
    }
}

/// Splits a text at a delimiter.
pub fn split_str(s: &str, d: &str) -> (r: Vec<String>)
    ensures
        r.deep_view() == split_text(s@, d@),
{
    let cs = to_chars(s);
    let dc = to_chars(d);
    let ghost want = split_text(s@, d@);
    let mut out: Vec<String> = Vec::new();
    if dc.len() == 0 {
        out.push(String::new());
        let mut i: usize = 0;
        while i < cs.len()
            invariant
                cs@ == s@,
                i <= cs.len(),
                out.len() == i + 1,
                want.len() == s@.len() + 2,
                forall|k: int|
                    0 <= k < want.len() ==> #[trigger] want[k] == if 1 <= k <= s@.len() {
                        seq![s@[k - 1]]
                    } else {
                        Seq::empty()
                    },
                forall|k: int| 0 <= k <= i ==> (#[trigger] out[k])@ == want[k],
            decreases cs.len() - i,
        {
            let mut one = String::new();
            one.push(cs[i]);
            assert(one@ =~= seq![s@[i as int]]);
            out.push(one);
            i += 1;
        }
        out.push(String::new());
        assert(out.deep_view() =~= want);
        return out;
    }
    let mut i: usize = 0;
    assert(out.deep_view() + pieces(s@, d@, 0) =~= want);
    loop
        invariant_except_break
            out.deep_view() + pieces(s@, d@, i as int) == want,
        invariant
            cs@ == s@,
            dc@ == d@,
            d@.len() > 0,
            i <= cs.len(),
        ensures
            out.deep_view() == want,
        decreases cs.len() - i,
    {
        let ghost before = out.deep_view();
        match find_chars(&cs, &dc, i) {
            Some(p) => {
                out.push(slice_text(&cs, i, p));
                let ghost rest = pieces(s@, d@, p + d@.len());
                assert(out.deep_view() =~= before.push(s@.subrange(i as int, p as int)));
                assert(out.deep_view() + rest =~= before + (seq![s@.subrange(i as int, p as int)]
                    + rest));
                i = p + dc.len();
            },
            None => {
                out.push(slice_text(&cs, i, cs.len()));
                assert(out.deep_view() =~= before.push(s@.subrange(i as int, s@.len() as int)));
                assert(out.deep_view() =~= before + seq![s@.subrange(i as int, s@.len() as int)]);
                break;
            },
        }
    }
    out
}

/// What `char::is_whitespace` says of a character: whether it has the Unicode
/// property White_Space.
pub uninterp spec fn white(c: char) -> bool;

/// `char::is_whitespace`: the same character always gives the same answer.
#[verifier::external_body]
pub(crate) fn is_white(c: char) -> (r: bool)
    ensures
        r == white(c),
{
    c.is_whitespace()
}

/// The words of a text from `i` on: the longest runs without whitespace,
/// where `word` is what stands before `i` of the current run.
pub open spec fn words_from(s: Seq<char>, i: int, word: Seq<char>) -> Seq<Seq<char>>
    decreases s.len() - i,
{
    if i < 0 || i >= s.len() {
        if word.len() > 0 {
            seq![word]
        } else {
            Seq::empty()
        }
    } else if white(s[i]) {
        if word.len() > 0 {
            seq![word] + words_from(s, i + 1, Seq::empty())
        } else {
            words_from(s, i + 1, word)
        }
    } else {
        words_from(s, i + 1, word.push(s[i]))
    }
}

/// The words of a text.
pub open spec fn words(s: Seq<char>) -> Seq<Seq<char>> {
    words_from(s, 0, Seq::empty())
}

/// Splits a text into its words.
pub fn split_words(s: &str) -> (r: Vec<String>)
    ensures
        r.deep_view() == words(s@),
{
    let cs = to_chars(s);
    let mut out: Vec<String> = Vec::new();
    let mut word: Vec<char> = Vec::new();
    let mut i: usize = 0;
    let ghost want = words(s@);
    assert(out.deep_view() + words_from(s@, 0, word@) =~= want);
    while i < cs.len()
        invariant
            cs@ == s@,
            i <= cs.len(),
            out.deep_view() + words_from(s@, i as int, word@) == want,
        decreases cs.len() - i,
    {
        let ghost before = out.deep_view();
        if is_white(cs[i]) {
            if word.len() > 0 {
                let ghost w = word@;
                out.push(from_chars(&word));
                word = Vec::new();
                let ghost rest = words_from(s@, i + 1, Seq::empty());
                assert(out.deep_view() =~= before.push(w));
                assert(out.deep_view() + rest =~= before + (seq![w] + rest));
            }
        } else {
            word.push(cs[i]);
        }
        i += 1;
    }
    if word.len() > 0 {
        let ghost before = out.deep_view();
        out.push(from_chars(&word));
        assert(out.deep_view() =~= before.push(word@));
    }
    assert(out.deep_view() =~= want);
    out
}

/// The result of `char::is_alphabetic`: whether a character is a letter.
pub uninterp spec fn alphabetic(c: char) -> bool;

/// `char::is_alphabetic`, by its name.
#[verifier::external_body]
pub(crate) fn is_letter(c: char) -> (r: bool)
    ensures
        r == alphabetic(c),
{
    c.is_alphabetic()
}

/// The number of bytes of a character in UTF-8.
pub open spec fn char_bytes(c: char) -> nat {
    if (c as u32) < 0x80 {
        1
    } else if (c as u32) < 0x800 {
        2
    } else if (c as u32) < 0x10000 {
        3
    } else {
        4
    }
}

/// The number of bytes of the first `i` characters.
pub open spec fn byte_at(s: Seq<char>, i: int) -> nat
    decreases i,
{
    if i <= 0 {
        0
    } else {
        byte_at(s, i - 1) + char_bytes(s[i - 1])
    }
}

pub proof fn lemma_byte_at_front(s: Seq<char>, t: Seq<char>, i: int)
    requires
        0 <= i <= s.len(),
        i <= t.len(),
        forall|k: int| 0 <= k < i ==> s[k] == t[k],
    ensures
        byte_at(s, i) == byte_at(t, i),
    decreases i,
{
    if i > 0 {
        lemma_byte_at_front(s, t, i - 1);
    }
}

pub proof fn lemma_byte_at_shift(s: Seq<char>, a: int, i: int)
    requires
        0 <= a,
        0 <= i,
        a + i <= s.len(),
    ensures
        byte_at(s, a + i) == byte_at(s, a) + byte_at(s.subrange(a, s.len() as int), i),
    decreases i,
{
    if i > 0 {
        lemma_byte_at_shift(s, a, i - 1);
    }
}

pub proof fn lemma_byte_at_mono(s: Seq<char>, i: int, j: int)
    requires
        0 <= i <= j,
    ensures
        byte_at(s, i) <= byte_at(s, j),
        i < j ==> byte_at(s, i) < byte_at(s, j),
    decreases j,
{
    if i < j {
        lemma_byte_at_mono(s, i, j - 1);
    }
}

proof fn lemma_scalar_len(c: char)
    ensures
        vstd::utf8::encode_scalar(c as u32).len() == char_bytes(c),
{
    broadcast use vstd::utf8::char_is_scalar;

    assert(vstd::utf8::is_scalar(c as u32));
}

/// Characters take as many bytes as their UTF-8 encoding.
pub proof fn lemma_encoded_len(s: Seq<char>)
    ensures
        vstd::utf8::encode_utf8(s).len() == byte_at(s, s.len() as int),
    decreases s.len(),
{
    if s.len() > 0 {
        let rest = s.drop_first();
        lemma_encoded_len(rest);
        lemma_byte_at_shift(s, 1, rest.len() as int);
        assert(s.subrange(1, s.len() as int) =~= rest);
        assert(byte_at(s, 1) == byte_at(s, 0) + char_bytes(s[0]));
        lemma_scalar_len(s[0]);
    }
}

fn count_bytes(c: char) -> (r: usize)
    ensures
        r == char_bytes(c),
{
    let n: u32 = c as u32;
    if n < 0x80 {
        1
    } else if n < 0x800 {
        2
    } else if n < 0x10000 {
        3
    } else {
        4
    }
}

/// The byte offsets of the characters of a text, and its length.
pub fn byte_offsets(text: &str, cs: &Vec<char>) -> (r: Vec<usize>)
    requires
        cs@ == text@,
    ensures
        r.len() == cs.len() + 1,
        forall|i: int| 0 <= i <= cs.len() ==> #[trigger] r[i] == byte_at(text@, i),
{
    let total: usize = text.as_bytes().len();
    proof {
        lemma_encoded_len(text@);
    }
    let mut out: Vec<usize> = Vec::new();
    out.push(0);
    let mut at: usize = 0;
    let mut i: usize = 0;
    while i < cs.len()
        invariant
            cs@ == text@,
            total == byte_at(text@, cs.len() as int),
            i <= cs.len(),
            out.len() == i + 1,
            at == byte_at(text@, i as int),
            forall|k: int| 0 <= k <= i ==> #[trigger] out[k] == byte_at(text@, k),
        decreases cs.len() - i,
    {
        proof {
            lemma_byte_at_mono(text@, i + 1, cs.len() as int);
        }
        at = at + count_bytes(cs[i]);
        out.push(at);
        i += 1;
    }
    out
}

} // verus!
