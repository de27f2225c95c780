use vstd::prelude::*;

verus! {

broadcast use vstd::string::group_string_axioms;

/// The characters of `s`, in order.
pub fn chars_of(s: &str) -> (v: Vec<char>)
    ensures
        v@ == s@,
{
    let mut v: Vec<char> = Vec::new();
    for c in it: s.chars()
        invariant
            v@ == it.seq().take(it.index() as int),
            it.seq() == s@,
    {
        v.push(c);
    }
    v
}

/// A string holding the characters of `chars`, built by `Iterator::collect` into `String`
/// (`FromIterator<&char> for String`). Trusted: the contract claims that the string's
/// characters are exactly those of `chars`, in order, which is what that impl documents.
#[verifier::external_body]
pub fn string_from_chars(chars: &Vec<char>) -> (s: String)
    ensures
        s@ == chars@,
{
    chars.iter().collect()
}

/// Unicode White_Space, the set that `char::is_whitespace` tests.
pub open spec fn is_ws(c: char) -> bool {
    let u = c as u32;
    (0x09 <= u <= 0x0d) || u == 0x20 || u == 0x85 || u == 0xa0 || u == 0x1680 || (0x2000 <= u
        <= 0x200a) || u == 0x2028 || u == 0x2029 || u == 0x202f || u == 0x205f || u == 0x3000
}

pub open spec fn trim_start(s: Seq<char>) -> Seq<char>
    decreases s.len(),
{
    if s.len() > 0 && is_ws(s[0]) {
        trim_start(s.drop_first())
    } else {
        s
    }
}

pub open spec fn trim_end(s: Seq<char>) -> Seq<char>
    decreases s.len(),
{
    if s.len() > 0 && is_ws(s.last()) {
        trim_end(s.drop_last())
    } else {
        s
    }
}

/// `s` without leading and trailing whitespace, as `str::trim` gives it.
pub open spec fn trim(s: Seq<char>) -> Seq<char> {
    trim_end(trim_start(s))
}

pub open spec fn has_prefix(s: Seq<char>, p: Seq<char>) -> bool {
    p.len() <= s.len() && s.take(p.len() as int) == p
}

pub open spec fn has_suffix(s: Seq<char>, p: Seq<char>) -> bool {
    p.len() <= s.len() && s.skip(s.len() - p.len()) == p
}

/// `s` with every leading copy of `p` removed, as `str::trim_start_matches` gives it.
pub open spec fn trim_start_matches(s: Seq<char>, p: Seq<char>) -> Seq<char>
    decreases s.len(),
{
    if p.len() > 0 && has_prefix(s, p) {
        trim_start_matches(s.skip(p.len() as int), p)
    } else {
        s
    }
}

/// `s` with every trailing copy of `p` removed, as `str::trim_end_matches` gives it.
pub open spec fn trim_end_matches(s: Seq<char>, p: Seq<char>) -> Seq<char>
    decreases s.len(),
{
    if p.len() > 0 && has_suffix(s, p) {
        trim_end_matches(s.take(s.len() - p.len()), p)
    } else {
        s
    }
}

/// Whether `c` is a decimal digit.
pub open spec fn is_digit(c: char) -> bool {
    '0' <= c <= '9'
}

pub open spec fn digit_value(c: char) -> nat {
    (c as u32 - '0' as u32) as nat
}

/// The number that the decimal digits `d` spell.
pub open spec fn dec_value(d: Seq<char>) -> nat
    decreases d.len(),
{
    if d.len() == 0 {
        0
    } else {
        dec_value(d.drop_last()) * 10 + digit_value(d.last())
    }
}

/// `s` without one leading `+`.
pub open spec fn unsigned_digits(s: Seq<char>) -> Seq<char> {
    if s.len() > 0 && s[0] == '+' {
        s.drop_first()
    } else {
        s
    }
}

pub open spec fn all_digits(d: Seq<char>) -> bool {
    forall|i: int| 0 <= i < d.len() ==> is_digit(#[trigger] d[i])
}

/// What `u32::from_str` and `u8::from_str` read: an optional `+`, then one or more decimal
/// digits; their value, however large.
pub open spec fn parse_dec(s: Seq<char>) -> Option<nat> {
    let d = unsigned_digits(s);
    if d.len() > 0 && all_digits(d) {
        Some(dec_value(d))
    } else {
        None
    }
}

/// `s.parse::<u32>()`, with `None` for its error.
pub open spec fn parse_u32_spec(s: Seq<char>) -> Option<u32> {
    match parse_dec(s) {
        Some(v) => if v <= u32::MAX {
            Some(v as u32)
        } else {
            None
        },
        None => None,
    }
}

/// `s.parse::<u8>()`, with `None` for its error.
pub open spec fn parse_u8_spec(s: Seq<char>) -> Option<u8> {
    match parse_dec(s) {
        Some(v) => if v <= u8::MAX {
            Some(v as u8)
        } else {
            None
        },
        None => None,
    }
}

/// Whitespace in the sense of `char::is_whitespace`.
pub fn is_whitespace(c: char) -> (b: bool)
    ensures
        b == is_ws(c),
{
    let u = c as u32;
    (0x09 <= u && u <= 0x0d) || u == 0x20 || u == 0x85 || u == 0xa0 || u == 0x1680 || (0x2000
        <= u && u <= 0x200a) || u == 0x2028 || u == 0x2029 || u == 0x202f || u == 0x205f || u
        == 0x3000
}

/// The characters of `s` from `i` up to `j`.
pub fn slice_chars(s: &Vec<char>, i: usize, j: usize) -> (r: Vec<char>)
    requires
        i <= j <= s@.len(),
    ensures
        r@ == s@.subrange(i as int, j as int),
{
    let mut r: Vec<char> = Vec::new();
    let mut k = i;
    while k < j
        invariant
            i <= k <= j <= s@.len(),
            r@ == s@.subrange(i as int, k as int),
        decreases j - k,
    {
        r.push(s[k]);
        k += 1;
        assert(r@ =~= s@.subrange(i as int, k as int));
    }
    r
}

proof fn lemma_trim_start_skip(s: Seq<char>, i: int)
    requires
        0 <= i < s.len(),
        is_ws(s[i]),
    ensures
        trim_start(s.skip(i)) == trim_start(s.skip(i + 1)),
{
    assert(s.skip(i).drop_first() =~= s.skip(i + 1));
}

proof fn lemma_trim_end_take(s: Seq<char>, j: int)
    requires
        0 < j <= s.len(),
        is_ws(s[j - 1]),
    ensures
        trim_end(s.take(j)) == trim_end(s.take(j - 1)),
{
    assert(s.take(j).drop_last() =~= s.take(j - 1));
}

/// `s` without leading and trailing whitespace.
pub fn trim_chars(s: &Vec<char>) -> (r: Vec<char>)
    ensures
        r@ == trim(s@),
{
    let mut i: usize = 0;
    assert(s@.skip(0) =~= s@);
    while i < s.len() && is_whitespace(s[i])
        invariant
            i <= s@.len(),
            trim_start(s@) == trim_start(s@.skip(i as int)),
        decreases s@.len() - i,
    {
        proof {
            lemma_trim_start_skip(s@, i as int);
        }
        i += 1;
    }
    assert(s@.skip(0) =~= s@);
    let ghost t = s@.skip(i as int);
    assert(trim_start(t) == t);
    let mut j: usize = s.len();
    assert(t.take(j - i) =~= t);
    while j > i && is_whitespace(s[j - 1])
        invariant
            i <= j <= s@.len(),
            t == s@.skip(i as int),
            trim_end(t) == trim_end(t.take(j - i)),
        decreases j,
    {
        proof {
            lemma_trim_end_take(t, j - i);
        }
        j -= 1;
    }
    assert(t.take(t.len() as int) =~= t);
    let r = slice_chars(s, i, j);
    assert(r@ =~= t.take(j - i));
    proof {
        if j > i {
            assert(!is_ws(t.take(j - i).last()));
        }
    }
    r
}

/// Whether `s` begins with `p`.
pub fn starts_with(s: &Vec<char>, p: &Vec<char>) -> (b: bool)
    ensures
        b == has_prefix(s@, p@),
{
    if p.len() > s.len() {
        return false;
    }
    let mut k: usize = 0;
    while k < p.len()
        invariant
            p@.len() <= s@.len(),
            k <= p@.len(),
            forall|m: int| 0 <= m < k ==> s@[m] == p@[m],
        decreases p@.len() - k,
    {
        if s[k] != p[k] {
            return false;
        }
        k += 1;
    }
    assert(s@.take(p@.len() as int) =~= p@);
    true
}

/// Whether `s` ends with `p`.
pub fn ends_with(s: &Vec<char>, p: &Vec<char>) -> (b: bool)
    ensures
        b == has_suffix(s@, p@),
{
    if p.len() > s.len() {
        return false;
    }
    let off = s.len() - p.len();
    let mut m: usize = off;
    while m < s.len()
        invariant
            p@.len() <= s@.len(),
            off == s@.len() - p@.len(),
            off <= m <= s@.len(),
            forall|q: int| off <= q < m ==> s@[q] == p@[q - off],
        decreases s@.len() - m,
    {
        if s[m] != p[m - off] {
            assert(s@.skip(off as int)[m - off] == s@[m as int]);
            return false;
        }
        m += 1;
    }
    assert(s@.skip(off as int) =~= p@);
    true
}

/// `s` with every leading copy of `p` removed.
pub fn strip_prefixes(s: &Vec<char>, p: &Vec<char>) -> (r: Vec<char>)
    ensures
        r@ == trim_start_matches(s@, p@),
{
    let mut cur = slice_chars(s, 0, s.len());
    assert(cur@ =~= s@);
    if p.len() == 0 {
        return cur;
    }
    while starts_with(&cur, p)
        invariant
            p@.len() > 0,
            trim_start_matches(s@, p@) == trim_start_matches(cur@, p@),
        decreases cur@.len(),
    {
        cur = slice_chars(&cur, p.len(), cur.len());
    }
    cur
}

/// `s` with every trailing copy of `p` removed.
pub fn strip_suffixes(s: &Vec<char>, p: &Vec<char>) -> (r: Vec<char>)
    ensures
        r@ == trim_end_matches(s@, p@),
{
    let mut cur = slice_chars(s, 0, s.len());
    assert(cur@ =~= s@);
    if p.len() == 0 {
        return cur;
    }
    while ends_with(&cur, p)
        invariant
            p@.len() > 0,
            trim_end_matches(s@, p@) == trim_end_matches(cur@, p@),
        decreases cur@.len(),
    {
        cur = slice_chars(&cur, 0, cur.len() - p.len());
    }
    cur
}

proof fn lemma_dec_value_grows(d: Seq<char>, i: int)
    requires
        0 <= i <= d.len(),
    ensures
        dec_value(d.take(i)) <= dec_value(d),
    decreases d.len() - i,
{
    if i < d.len() {
        lemma_dec_value_grows(d, i + 1);
        assert(d.take(i + 1).drop_last() =~= d.take(i));
    } else {
        assert(d.take(i) =~= d);
    }
}

/// `s.parse::<u32>()`, with `None` for its error.
pub fn parse_u32(s: &Vec<char>) -> (r: Option<u32>)
    ensures
        r == parse_u32_spec(s@),
{
    let start: usize = if s.len() > 0 && s[0] == '+' {
        1
    } else {
        0
    };
    let ghost d = s@.skip(start as int);
    assert(d =~= unsigned_digits(s@));
    if start == s.len() {
        return None;
    }
    let mut v: u64 = 0;
    let mut k: usize = start;
    while k < s.len()
        invariant
            start <= k <= s@.len(),
            d == s@.skip(start as int),
            d == unsigned_digits(s@),
            v == dec_value(d.take(k - start)),
            v <= u32::MAX,
            forall|m: int| 0 <= m < k - start ==> is_digit(#[trigger] d[m]),
        decreases s@.len() - k,
    {
        let c = s[k];
        if !('0' <= c && c <= '9') {
            proof {
                let j = k - start;
                assert(0 <= j < d.len());
                assert(d[j] == c);
                assert(!is_digit(d[j]));
                assert(!all_digits(d));
            }
            return None;
        }
        assert(d.take(k - start + 1).drop_last() =~= d.take(k - start));
        v = v * 10 + (c as u64 - '0' as u64);
        assert(d.take(k - start + 1).last() == c);
        assert(v == dec_value(d.take(k - start + 1)));
        k += 1;
        if v > u32::MAX as u64 {
            proof {
                lemma_dec_value_grows(d, k - start);
                assert(dec_value(d) > u32::MAX);
                match parse_dec(s@) {
                    Some(x) => assert(x == dec_value(d)),
                    None => {},
                }
            }
            return None;
        }
    }
    assert(d.take(k - start) =~= d);
    Some(v as u32)
}

/// `s.parse::<u8>()`, with `None` for its error.
pub fn parse_u8(s: &Vec<char>) -> (r: Option<u8>)
    ensures
        r == parse_u8_spec(s@),
{
    match parse_u32(s) {
        Some(v) => if v <= 255 {
            Some(v as u8)
        } else {
            None
        },
        None => None,
    }
}

/// The pieces of `s` between the occurrences of `c`, as `str::split` with a `char` gives
/// them: always at least one piece.
pub open spec fn split_char(s: Seq<char>, c: char) -> Seq<Seq<char>>
    decreases s.len(),
{
    if s.len() == 0 {
        seq![Seq::empty()]
    } else {
        let p = split_char(s.drop_last(), c);
        if s.last() == c {
            p.push(Seq::empty())
        } else {
            p.update(p.len() - 1, p.last().push(s.last()))
        }
    }
}

pub proof fn lemma_split_char_len(s: Seq<char>, c: char)
    ensures
        split_char(s, c).len() >= 1,
    decreases s.len(),
{
    if s.len() > 0 {
        lemma_split_char_len(s.drop_last(), c);
    }
}

/// `s` up to its first occurrence of `c`, and what follows that occurrence; `s` alone where
/// `c` does not occur. This is `str::splitn(2, c)`.
pub open spec fn split_once(s: Seq<char>, c: char) -> Seq<Seq<char>> {
    if s.contains(c) {
        let i = first_index(s, c);
        seq![s.take(i), s.skip(i + 1)]
    } else {
        seq![s]
    }
}

/// Where `c` first occurs in `s`.
pub open spec fn first_index(s: Seq<char>, c: char) -> int {
    choose|i: int| 0 <= i < s.len() && s[i] == c && forall|j: int| 0 <= j < i ==> s[j] != c
}

/// Whether `p` occurs in `s` at `i`.
pub open spec fn occurs_at(s: Seq<char>, p: Seq<char>, i: int) -> bool {
    0 <= i && i + p.len() <= s.len() && s.subrange(i, i + p.len()) == p
}

/// `s` up to the first occurrence of `p`, or all of `s`: the first piece that
/// `str::split` with the pattern `p` gives.
pub open spec fn before_first(s: Seq<char>, p: Seq<char>) -> Seq<char> {
    if exists|i: int| occurs_at(s, p, i) {
        s.take(choose|i: int| occurs_at(s, p, i) && forall|j: int| 0 <= j < i ==> !occurs_at(s, p, j))
    } else {
        s
    }
}

/// `x` without one trailing carriage return.
pub open spec fn strip_cr(x: Seq<char>) -> Seq<char> {
    if x.len() > 0 && x.last() == '\r' {
        x.drop_last()
    } else {
        x
    }
}

/// The lines of `s` as `str::lines` gives them: split at `\n`, a `\r` before the `\n`
/// dropped, and no empty line after a final `\n`.
pub open spec fn lines(s: Seq<char>) -> Seq<Seq<char>> {
    let p = split_char(s, '\n');
    let body = p.take(p.len() - 1).map_values(|x: Seq<char>| strip_cr(x));
    if p.last().len() == 0 {
        body
    } else {
        body.push(p.last())
    }
}

/// The character sequences that `v` holds.
pub open spec fn views(v: Seq<Vec<char>>) -> Seq<Seq<char>> {
    v.map_values(|x: Vec<char>| x@)
}

/// The pieces of `s` between the occurrences of `c`.
pub fn split_chars(s: &Vec<char>, c: char) -> (parts: Vec<Vec<char>>)
    ensures
        views(parts@) == split_char(s@, c),
{
    let mut parts: Vec<Vec<char>> = Vec::new();
    let mut cur: Vec<char> = Vec::new();
    let mut i: usize = 0;
    assert(s@.take(0) =~= Seq::<char>::empty());
    while i < s.len()
        invariant
            i <= s@.len(),
            views(parts@).push(cur@) == split_char(s@.take(i as int), c),
        decreases s@.len() - i,
    {
        let ghost prev = views(parts@).push(cur@);
        assert(s@.take(i + 1).drop_last() =~= s@.take(i as int));
        if s[i] == c {
            let done = cur;
            parts.push(done);
            cur = Vec::new();
            assert(views(parts@).push(cur@) =~= prev.push(Seq::empty()));
        } else {
            cur.push(s[i]);
            assert(views(parts@).push(cur@) =~= prev.update(prev.len() - 1, prev.last().push(s@[i as int])));
        }
        i += 1;
    }
    assert(s@.take(s@.len() as int) =~= s@);
    parts.push(cur);
    parts
}

/// Whether `c` occurs in `s`, and where first.
pub fn find_char(s: &Vec<char>, c: char) -> (r: Option<usize>)
    ensures
        match r {
            Some(i) => s@.contains(c) && i < s@.len() && i == first_index(s@, c),
            None => !s@.contains(c),
        },
{
    let mut i: usize = 0;
    while i < s.len()
        invariant
            i <= s@.len(),
            forall|k: int| 0 <= k < i ==> s@[k] != c,
        decreases s@.len() - i,
    {
        if s[i] == c {
            assert(s@.contains(c));
            proof {
                assert(s@[i as int] == c && forall|j: int| 0 <= j < i ==> s@[j] != c);
                let j = first_index(s@, c);
                if j > i {
                    assert(s@[i as int] == c);
                }
            }
            return Some(i);
        }
        i += 1;
    }
    None
}

/// Whether `c` occurs in `s`.
pub fn contains_char(s: &Vec<char>, c: char) -> (b: bool)
    ensures
        b == s@.contains(c),
{
    find_char(s, c).is_some()
}

/// `s` split at its first `c`, as `str::splitn(2, c)` splits it.
pub fn split_once_chars(s: &Vec<char>, c: char) -> (parts: Vec<Vec<char>>)
    ensures
        views(parts@) == split_once(s@, c),
{
    let mut parts: Vec<Vec<char>> = Vec::new();
    let n = s.len();
    match find_char(s, c) {
        Some(i) => {
            parts.push(slice_chars(s, 0, i));
            parts.push(slice_chars(s, i + 1, n));
        },
        None => {
            parts.push(slice_chars(s, 0, s.len()));
            assert(s@.subrange(0, s@.len() as int) =~= s@);
        },
    }
    assert(views(parts@) =~= split_once(s@, c));
    parts
}

/// Whether `p` occurs in `s` at `i`.
fn occurs_at_exec(s: &Vec<char>, p: &Vec<char>, i: usize) -> (b: bool)
    ensures
        b == occurs_at(s@, p@, i as int),
{
    if i > s.len() || p.len() > s.len() - i {
        return false;
    }
    let end = i + p.len();
    let mut m: usize = i;
    while m < end
        invariant
            end == i + p@.len(),
            end <= s@.len(),
            i <= m <= end,
            forall|q: int| i <= q < m ==> s@[q] == p@[q - i],
        decreases end - m,
    {
        if s[m] != p[m - i] {
            assert(s@.subrange(i as int, i + p@.len())[m - i] != p@[m - i]);
            return false;
        }
        m += 1;
    }
    assert(s@.subrange(i as int, i + p@.len()) =~= p@);
    true
}

/// `s` up to the first occurrence of `p`, or all of `s`.
pub fn before_first_chars(s: &Vec<char>, p: &Vec<char>) -> (r: Vec<char>)
    ensures
        r@ == before_first(s@, p@),
{
    let mut i: usize = 0;
    while i < s.len()
        invariant
            i <= s@.len(),
            forall|j: int| 0 <= j < i ==> !occurs_at(s@, p@, j),
        decreases s@.len() - i,
    {
        if occurs_at_exec(s, p, i) {
            proof {
                let k = choose|k: int| occurs_at(s@, p@, k) && forall|j: int| 0 <= j < k ==> !occurs_at(s@, p@, j);
                assert(occurs_at(s@, p@, i as int) && forall|j: int| 0 <= j < i ==> !occurs_at(s@, p@, j));
                assert(k == i);
            }
            return slice_chars(s, 0, i);
        }
        i += 1;
    }
    if occurs_at_exec(s, p, i) {
        proof {
            let k = choose|k: int| occurs_at(s@, p@, k) && forall|j: int| 0 <= j < k ==> !occurs_at(s@, p@, j);
            assert(occurs_at(s@, p@, i as int) && forall|j: int| 0 <= j < i ==> !occurs_at(s@, p@, j));
            assert(k == i);
        }
        return slice_chars(s, 0, i);
    }
    assert forall|j: int| !occurs_at(s@, p@, j) by {
        if j > s@.len() {
        }
    }
    slice_chars(s, 0, s.len())
}

/// The lines of `s`.
pub fn lines_of(s: &Vec<char>) -> (ls: Vec<Vec<char>>)
    ensures
        views(ls@) == lines(s@),
{
    let parts = split_chars(s, '\n');
    proof {
        lemma_split_char_len(s@, '\n');
    }
    let n = parts.len();
    let ghost p = split_char(s@, '\n');
    let mut ls: Vec<Vec<char>> = Vec::new();
    let mut i: usize = 0;
    while i + 1 < n
        invariant
            n == parts@.len(),
            n >= 1,
            views(parts@) == p,
            i < n,
            views(ls@) == p.take(i as int).map_values(|x: Seq<char>| strip_cr(x)),
        decreases n - i,
    {
        let part = &parts[i];
        let m = part.len();
        let line = if m > 0 && part[m - 1] == '\r' {
            slice_chars(part, 0, m - 1)
        } else {
            slice_chars(part, 0, m)
        };
        assert(p[i as int] == part@);
        assert(line@ =~= strip_cr(part@));
        let ghost before = views(ls@);
        ls.push(line);
        assert(views(ls@) =~= before.push(line@));
        assert(p.take(i + 1) =~= p.take(i as int).push(p[i as int]));
        i += 1;
        assert(views(ls@) =~= p.take(i as int).map_values(|x: Seq<char>| strip_cr(x)));
    }
    let last = &parts[n - 1];
    assert(p.last() == last@);
    if last.len() > 0 {
        ls.push(slice_chars(last, 0, last.len()));
        assert(last@.subrange(0, last@.len() as int) =~= last@);
    }
    assert(views(ls@) =~= lines(s@));
    ls
}

/// The decimal digit for `d`, which is below ten.
pub open spec fn digit_char(d: nat) -> char {
    (d + '0' as u32) as char
}

/// `n` written in decimal, as `format!("{}", n)` writes an unsigned integer.
pub open spec fn dec_string(n: nat) -> Seq<char>
    decreases n,
{
    if n < 10 {
        seq![digit_char(n)]
    } else {
        dec_string(n / 10).push(digit_char(n % 10))
    }
}

/// Appends the characters of `s` to `out`.
pub fn push_str(out: &mut Vec<char>, s: &str)
    ensures
        final(out)@ == old(out)@ + s@,
{
    let cs = chars_of(s);
    push_chars(out, &cs);
}

/// Appends the characters of `cs` to `out`.
pub fn push_chars(out: &mut Vec<char>, cs: &Vec<char>)
    ensures
        final(out)@ == old(out)@ + cs@,
{
    let mut i: usize = 0;
    while i < cs.len()
        invariant
            i <= cs@.len(),
            out@ == old(out)@ + cs@.take(i as int),
        decreases cs@.len() - i,
    {
        out.push(cs[i]);
        i += 1;
        assert(out@ =~= old(out)@ + cs@.take(i as int));
    }
    assert(cs@.take(cs@.len() as int) =~= cs@);
}

/// Appends `n` in decimal to `out`.
pub fn push_decimal(out: &mut Vec<char>, n: u32)
    ensures
        final(out)@ == old(out)@ + dec_string(n as nat),
    decreases n,
{
    if n >= 10 {
        push_decimal(out, n / 10);
    }
    let d = n % 10;
    out.push(((d + '0' as u32) as u8) as char);
    proof {
        assert((((d + '0' as u32) as u8) as char) == digit_char(d as nat));
        if n >= 10 {
            assert(dec_string(n as nat) == dec_string((n / 10) as nat).push(digit_char((n % 10) as nat)));
        }
    }
    assert(out@ =~= old(out)@ + dec_string(n as nat));
}

pub proof fn lemma_dec_string_digits(n: nat)
    ensures
        dec_string(n).len() > 0,
        all_digits(dec_string(n)),
        dec_value(dec_string(n)) == n,
    decreases n,
{
    assert(digit_value(digit_char(n % 10)) == n % 10);
    if n < 10 {
        assert(n % 10 == n);
        assert(dec_string(n).drop_last() =~= Seq::<char>::empty());
        assert(dec_value(dec_string(n)) == dec_value(Seq::<char>::empty()) * 10 + digit_value(digit_char(n)));
    }
    if n >= 10 {
        lemma_dec_string_digits(n / 10);
        assert((n / 10) * 10 + n % 10 == n) by (nonlinear_arith);
        let d = dec_string(n);
        assert(d.drop_last() =~= dec_string(n / 10));
        assert(d.last() == digit_char(n % 10));
        assert(dec_value(d) == dec_value(d.drop_last()) * 10 + digit_value(d.last()));
        assert(dec_value(d) == (n / 10) * 10 + n % 10);
        assert forall|i: int| 0 <= i < d.len() implies is_digit(#[trigger] d[i]) by {
            if i < d.len() - 1 {
                assert(d[i] == dec_string(n / 10)[i]);
            }
        }
    }
}

/// A number written in decimal parses back to itself: what the compiler writes, the
/// assembler reads.
pub proof fn law_decimal_roundtrip(n: u32)
    ensures
        parse_u32_spec(dec_string(n as nat)) == Some(n),
        parse_u8_spec(dec_string(n as nat)) == (if n <= 255 { Some(n as u8) } else { None }),
{
    lemma_dec_string_digits(n as nat);
    assert(dec_string(n as nat)[0] != '+');
    assert(unsigned_digits(dec_string(n as nat)) == dec_string(n as nat));
}

/// Splitting a piece that does not hold the separator gives that piece alone.
pub proof fn lemma_split_char_none(x: Seq<char>, c: char)
    requires
        !x.contains(c),
    ensures
        split_char(x, c) == seq![x],
    decreases x.len(),
{
    if x.len() > 0 {
        assert(!x.drop_last().contains(c)) by {
            if x.drop_last().contains(c) {
                let i = choose|i: int| 0 <= i < x.drop_last().len() && x.drop_last()[i] == c;
                assert(x[i] == c);
            }
        }
        lemma_split_char_none(x.drop_last(), c);
        assert(x.last() != c) by {
            assert(x[x.len() - 1] == x.last());
        }
        assert(x.drop_last().push(x.last()) =~= x);
        assert(split_char(x, c) =~= seq![x]);
    } else {
        assert(x =~= Seq::<char>::empty());
    }
}

/// Splitting at a separator splits the two sides apart.
pub proof fn lemma_split_char_concat(x: Seq<char>, c: char, y: Seq<char>)
    ensures
        split_char(x + seq![c] + y, c) == split_char(x, c) + split_char(y, c),
    decreases y.len(),
{
    if y.len() == 0 {
        assert(x + seq![c] + y =~= x.push(c));
        assert((x + seq![c] + y).drop_last() =~= x);
        assert(split_char(x, c) + split_char(y, c) =~= split_char(x, c).push(Seq::empty()));
    } else {
        let y0 = y.drop_last();
        lemma_split_char_concat(x, c, y0);
        lemma_split_char_len(x, c);
        lemma_split_char_len(y0, c);
        let s = x + seq![c] + y;
        assert(s.drop_last() =~= x + seq![c] + y0);
        assert(s.last() == y.last());
        let p = split_char(x + seq![c] + y0, c);
        let px = split_char(x, c);
        let py = split_char(y0, c);
        assert(p == px + py);
        if y.last() == c {
            assert(split_char(s, c) =~= px + py.push(Seq::empty()));
        } else {
            assert(p.last() == py.last());
            assert(split_char(s, c) =~= px + py.update(py.len() - 1, py.last().push(y.last())));
        }
    }
}

/// The lines of a first line, a newline and the rest.
pub proof fn lemma_lines_cons(x: Seq<char>, rest: Seq<char>)
    requires
        !x.contains('\n'),
    ensures
        lines(x + seq!['\n'] + rest) == seq![strip_cr(x)] + lines(rest),
{
    lemma_split_char_concat(x, '\n', rest);
    lemma_split_char_none(x, '\n');
    lemma_split_char_len(rest, '\n');
    let p = split_char(x + seq!['\n'] + rest, '\n');
    let q = split_char(rest, '\n');
    assert(p == seq![x] + q);
    assert(p.last() == q.last());
    assert(p.take(p.len() - 1) =~= seq![x] + q.take(q.len() - 1));
    assert(p.take(p.len() - 1).map_values(|l: Seq<char>| strip_cr(l)) =~= seq![strip_cr(x)] + q.take(
        q.len() - 1,
    ).map_values(|l: Seq<char>| strip_cr(l)));
    assert(lines(x + seq!['\n'] + rest) =~= seq![strip_cr(x)] + lines(rest));
}

/// The empty text has no lines.
pub proof fn lemma_lines_empty()
    ensures
        lines(Seq::<char>::empty()).len() == 0,
{
    assert(split_char(Seq::<char>::empty(), '\n') == seq![Seq::<char>::empty()]);
}

/// Splitting once at the first `c` after a piece that holds no `c`.
pub proof fn lemma_split_once_at(m: Seq<char>, c: char, rest: Seq<char>)
    requires
        forall|i: int| 0 <= i < m.len() ==> m[i] != c,
    ensures
        split_once(m + seq![c] + rest, c) == seq![m, rest],
{
    let s = m + seq![c] + rest;
    let k = m.len() as int;
    assert(s[k] == c);
    assert(s.contains(c));
    assert(0 <= k < s.len() && s[k] == c && forall|j: int| 0 <= j < k ==> s[j] != c) by {
        assert forall|j: int| 0 <= j < k implies s[j] != c by {
            assert(s[j] == m[j]);
        }
    }
    let i = first_index(s, c);
    if i < k {
        assert(s[i] == m[i]);
    }
    assert(i == k);
    assert(s.take(k) =~= m);
    assert(s.skip(k + 1) =~= rest);
}

/// Where the first character of `p` never occurs, `p` does not occur either.
pub proof fn lemma_before_first_absent(s: Seq<char>, p: Seq<char>)
    requires
        p.len() > 0,
        forall|i: int| 0 <= i < s.len() ==> s[i] != p[0],
    ensures
        before_first(s, p) == s,
{
    assert forall|i: int| !occurs_at(s, p, i) by {
        if occurs_at(s, p, i) {
            assert(s.subrange(i, i + p.len())[0] == s[i]);
        }
    }
}

/// A string of whitespace trims to nothing.
pub proof fn lemma_trim_all_ws(s: Seq<char>)
    requires
        forall|i: int| 0 <= i < s.len() ==> is_ws(#[trigger] s[i]),
    ensures
        trim(s).len() == 0,
    decreases s.len(),
{
    if s.len() > 0 {
        lemma_trim_all_ws(s.drop_first());
        assert forall|i: int| 0 <= i < s.drop_first().len() implies is_ws(#[trigger] s.drop_first()[i]) by {
            assert(s.drop_first()[i] == s[i + 1]);
        }
    }
}

/// `before_first` cuts at the first occurrence of the pattern.
pub proof fn lemma_before_first_at(s: Seq<char>, p: Seq<char>, k: int)
    requires
        occurs_at(s, p, k),
        forall|j: int| 0 <= j < k ==> !occurs_at(s, p, j),
    ensures
        before_first(s, p) == s.take(k),
{
    let i0 = choose|i: int| occurs_at(s, p, i) && forall|j: int| 0 <= j < i ==> !occurs_at(s, p, j);
    assert(occurs_at(s, p, i0) && forall|j: int| 0 <= j < i0 ==> !occurs_at(s, p, j));
    if i0 < k {
        assert(!occurs_at(s, p, i0));
    }
    if i0 > k {
        assert(!occurs_at(s, p, k));
    }
}

/// A line added after text that ends a line is one more line.
pub proof fn lemma_lines_snoc(a: Seq<char>, x: Seq<char>)
    requires
        a.len() == 0 || a.last() == '\n',
        !x.contains('\n'),
    ensures
        lines(a + x + seq!['\n']) == lines(a).push(strip_cr(x)),
{
    if a.len() == 0 {
        assert(a + x + seq!['\n'] =~= x + seq!['\n'] + Seq::<char>::empty());
        lemma_lines_cons(x, Seq::empty());
        lemma_lines_empty();
        assert(lines(a) =~= Seq::<Seq<char>>::empty());
        assert(lines(a + x + seq!['\n']) =~= lines(a).push(strip_cr(x)));
    } else {
        let a0 = a.drop_last();
        assert(a =~= a0 + seq!['\n'] + Seq::<char>::empty());
        assert(a + x + seq!['\n'] =~= a0 + seq!['\n'] + (x + seq!['\n']));
        lemma_split_char_concat(a0, '\n', Seq::empty());
        lemma_split_char_concat(a0, '\n', x + seq!['\n']);
        assert(x + seq!['\n'] =~= x + seq!['\n'] + Seq::<char>::empty());
        lemma_split_char_concat(x, '\n', Seq::empty());
        lemma_split_char_none(x, '\n');
        lemma_split_char_len(a0, '\n');
        let p0 = split_char(a0, '\n');
        let e = split_char(Seq::<char>::empty(), '\n');
        assert(e == seq![Seq::<char>::empty()]);
        let pa = split_char(a, '\n');
        let pb = split_char(a + x + seq!['\n'], '\n');
        assert(pa == p0 + e);
        assert(pb == p0 + (seq![x] + e));
        assert(pa.take(pa.len() - 1) =~= p0);
        assert(pb.take(pb.len() - 1) =~= p0.push(x));
        assert(lines(a + x + seq!['\n']) =~= lines(a).push(strip_cr(x)));
    }
}

} // verus!
