//! Text as a sequence of characters: searching, splitting, trimming, and
//! reading decimal numbers.
use vstd::prelude::*;
use vstd::slice::slice_subrange;
use vstd::utf8::*;

verus! {

/// `String::push` appends one character to the end of the string.
pub assume_specification[ String::push ](s: &mut String, ch: char)
    ensures
        final(s)@ == old(s)@.push(ch),
;

/// What `String::from_utf8_lossy` makes of `data`.
pub uninterp spec fn utf8_lossy(data: Seq<u8>) -> Seq<char>;

/// The text that `data` encodes, or the best that can be made of it.
pub open spec fn lossy(data: Seq<u8>) -> Seq<char> {
    if valid_utf8(data) {
        decode_utf8(data)
    } else {
        utf8_lossy(data)
    }
}

/// `String::from_utf8_lossy`: the text that `data` encodes, with replacement
/// characters where it is not valid UTF-8. The result depends on `data`
/// alone; where replacement characters go is left unsaid.
#[verifier::external_body]
pub(crate) fn lossy_text(data: &[u8]) -> (r: String)
    ensures
        r@ == (if valid_utf8(data@) {
            decode_utf8(data@)
        } else {
            utf8_lossy(data@)
        }),
{
    String::from_utf8_lossy(data).into_owned()
}

/// `String::from_utf8`: the text that `data` encodes, or nothing where `data`
/// is not valid UTF-8.
#[verifier::external_body]
pub(crate) fn utf8_text(data: Vec<u8>) -> (r: Option<String>)
    ensures
        r is Some <==> valid_utf8(data@),
        r matches Some(s) ==> s@ == decode_utf8(data@),
{
    String::from_utf8(data).ok()
}

/// Why a text is not a decimal number.
#[derive(Debug, Clone, Copy, PartialEq, Eq, Structural)]
pub enum NumberError {
    /// There is nothing to read.
    Empty,
    /// A character is not a decimal digit.
    InvalidDigit,
    /// The digits read so far already exceed the largest value allowed.
    TooLarge,
}

impl NumberError {
    /// The message shown for this error.
    pub open spec fn message_text(self) -> Seq<char> {
        match self {
            NumberError::Empty => "cannot parse integer from empty string"@,
            NumberError::InvalidDigit => "invalid digit found in string"@,
            NumberError::TooLarge => "number too large to fit in target type"@,
        }
    }

    /// The message shown for this error.
    pub fn message(&self) -> (r: String)
        ensures
            r@ == self.message_text(),
    {
        match self {
            NumberError::Empty => "cannot parse integer from empty string".to_owned(),
            NumberError::InvalidDigit => "invalid digit found in string".to_owned(),
            NumberError::TooLarge => "number too large to fit in target type".to_owned(),
        }
    }
}

/// Position of the first `c` in `s`, or the length of `s` where there is none.
pub open spec fn find(s: Seq<char>, c: char) -> int
    decreases s.len(),
{
    if s.len() == 0 {
        0
    } else if s[0] == c {
        0
    } else {
        1 + find(s.skip(1), c)
    }
}

/// Position of the last `c` in `s`, or -1 where there is none.
pub open spec fn rfind(s: Seq<char>, c: char) -> int
    decreases s.len(),
{
    if s.len() == 0 {
        -1
    } else if s.last() == c {
        s.len() - 1
    } else {
        rfind(s.drop_last(), c)
    }
}

/// The two sides of the first `c` in `s`.
pub open spec fn split_once(s: Seq<char>, c: char) -> Option<(Seq<char>, Seq<char>)> {
    let k = find(s, c);
    if k < s.len() {
        Some((s.take(k), s.skip(k + 1)))
    } else {
        None
    }
}

/// The two sides of the last `c` in `s`.
pub open spec fn rsplit_once(s: Seq<char>, c: char) -> Option<(Seq<char>, Seq<char>)> {
    let k = rfind(s, c);
    if k >= 0 {
        Some((s.take(k), s.skip(k + 1)))
    } else {
        None
    }
}

/// The pieces of `s` between occurrences of `c`; there is always at least one.
pub open spec fn split(s: Seq<char>, c: char) -> Seq<Seq<char>>
    decreases s.len(),
{
    let k = find(s, c);
    if k < s.len() {
        proof {
            lemma_find(s, c);
        }
        seq![s.take(k)] + split(s.skip(k + 1), c)
    } else {
        seq![s]
    }
}

/// The characters with the Unicode property White_Space.
pub open spec fn is_white_space(c: char) -> bool {
    let n = c as u32;
    ||| 0x09 <= n <= 0x0D
    ||| n == 0x20
    ||| n == 0x85
    ||| n == 0xA0
    ||| n == 0x1680
    ||| 0x2000 <= n <= 0x200A
    ||| n == 0x2028
    ||| n == 0x2029
    ||| n == 0x202F
    ||| n == 0x205F
    ||| n == 0x3000
}

/// `s` without the white space at its start.
pub open spec fn trim_start(s: Seq<char>) -> Seq<char>
    decreases s.len(),
{
    if s.len() > 0 && is_white_space(s[0]) {
        trim_start(s.skip(1))
    } else {
        s
    }
}

/// `s` without the white space at its end.
pub open spec fn trim_end(s: Seq<char>) -> Seq<char>
    decreases s.len(),
{
    if s.len() > 0 && is_white_space(s.last()) {
        trim_end(s.drop_last())
    } else {
        s
    }
}

/// `s` without the white space at either end.
pub open spec fn trim(s: Seq<char>) -> Seq<char> {
    trim_end(trim_start(s))
}

/// Whether `c` is one of `0` to `9`.
pub open spec fn is_digit(c: char) -> bool {
    '0' <= c <= '9'
}

/// The value of the digit `c`.
pub open spec fn digit_value(c: char) -> nat {
    (c as u32 - '0' as u32) as nat
}

/// Reads digits from left to right behind those already worth `acc`.
pub open spec fn digits(s: Seq<char>, acc: nat, max: nat) -> Result<nat, NumberError>
    decreases s.len(),
{
    if s.len() == 0 {
        Ok(acc)
    } else if !is_digit(s[0]) {
        Err(NumberError::InvalidDigit)
    } else if acc * 10 + digit_value(s[0]) > max {
        Err(NumberError::TooLarge)
    } else {
        digits(s.skip(1), acc * 10 + digit_value(s[0]), max)
    }
}

/// The decimal number that `s` spells: digits, with a plus sign allowed in
/// front of them, worth at most `max`.
pub open spec fn number(s: Seq<char>, max: nat) -> Result<nat, NumberError> {
    if s.len() == 0 {
        Err(NumberError::Empty)
    } else if s[0] == '+' && s.len() > 1 {
        digits(s.skip(1), 0, max)
    } else {
        digits(s, 0, max)
    }
}

/// The decimal digits of `n`, without leading zeros.
pub open spec fn decimal(n: nat) -> Seq<char>
    decreases n,
{
    if n < 10 {
        seq![digit_char(n)]
    } else {
        decimal(n / 10).push(digit_char(n % 10))
    }
}

/// The digit worth `n`.
pub open spec fn digit_char(n: nat) -> char {
    ('0' as u32 + n) as char
}

/// The contents of a list of slices.
pub open spec fn pieces(v: Seq<&[char]>) -> Seq<Seq<char>> {
    v.map_values(|p: &[char]| p@)
}

/// `find` points at the first `c`.
pub proof fn lemma_find(s: Seq<char>, c: char)
    ensures
        0 <= find(s, c) <= s.len(),
        forall|j: int| 0 <= j < find(s, c) ==> s[j] != c,
        find(s, c) < s.len() ==> s[find(s, c)] == c,
    decreases s.len(),
{
    if s.len() > 0 && s[0] != c {
        lemma_find(s.skip(1), c);
        assert forall|j: int| 0 <= j < find(s, c) implies s[j] != c by {
            if j > 0 {
                assert(s.skip(1)[j - 1] == s[j]);
            }
        }
    }
}

/// Whatever points at the first `c` is `find`.
pub proof fn lemma_find_is(s: Seq<char>, c: char, k: int)
    requires
        0 <= k <= s.len(),
        forall|j: int| 0 <= j < k ==> s[j] != c,
        k < s.len() ==> s[k] == c,
    ensures
        find(s, c) == k,
{
    lemma_find(s, c);
    let f = find(s, c);
    if f < k {
        assert(s[f] == c);
    } else if k < f {
        assert(s[k] == c);
    }
}

/// `rfind` points at the last `c`.
pub proof fn lemma_rfind(s: Seq<char>, c: char)
    ensures
        -1 <= rfind(s, c) < s.len(),
        forall|j: int| rfind(s, c) < j < s.len() ==> s[j] != c,
        rfind(s, c) >= 0 ==> s[rfind(s, c)] == c,
    decreases s.len(),
{
    if s.len() > 0 && s.last() != c {
        lemma_rfind(s.drop_last(), c);
        assert forall|j: int| rfind(s, c) < j < s.len() implies s[j] != c by {
            if j < s.len() - 1 {
                assert(s.drop_last()[j] == s[j]);
            }
        }
    }
}

/// Whatever points at the last `c` is `rfind`.
pub proof fn lemma_rfind_is(s: Seq<char>, c: char, k: int)
    requires
        -1 <= k < s.len(),
        forall|j: int| k < j < s.len() ==> s[j] != c,
        k >= 0 ==> s[k] == c,
    ensures
        rfind(s, c) == k,
{
    lemma_rfind(s, c);
    let f = rfind(s, c);
    if f < k {
        assert(s[k] == c);
    } else if k < f {
        assert(s[f] == c);
    }
}

/// A text with `c` behind a part that is free of it splits there.
pub proof fn lemma_split_cons(a: Seq<char>, c: char, rest: Seq<char>)
    requires
        !a.contains(c),
    ensures
        split(a + seq![c] + rest, c) == seq![a] + split(rest, c),
{
    let s = a + seq![c] + rest;
    assert forall|j: int| 0 <= j < a.len() implies s[j] != c by {
        assert(s[j] == a[j]);
    }
    assert(s[a.len() as int] == c);
    lemma_find_is(s, c, a.len() as int);
    assert(s.take(a.len() as int) =~= a);
    assert(s.skip(a.len() as int + 1) =~= rest);
}

/// A text free of `c` is its own only piece.
pub proof fn lemma_split_single(a: Seq<char>, c: char)
    requires
        !a.contains(c),
    ensures
        split(a, c) == seq![a],
{
    assert forall|j: int| 0 <= j < a.len() implies a[j] != c by {
        assert(a.contains(a[j]));
    }
    lemma_find_is(a, c, a.len() as int);
}

/// A text with no white space at either end is its own trimmed form.
pub proof fn lemma_trim_plain(s: Seq<char>)
    requires
        s.len() > 0 ==> !is_white_space(s[0]) && !is_white_space(s.last()),
    ensures
        trim(s) == s,
{
}

/// The characters of `s`.
pub fn chars_of(s: &str) -> (r: Vec<char>)
    ensures
        r@ == s@,
{
    let mut v: Vec<char> = Vec::new();
    for c in it: s.chars()
        invariant
            it.seq() == s@,
            v@ == s@.take(it.index() as int),
    {
        v.push(c);
        assert(s@.take(it.index() as int + 1) =~= s@.take(it.index() as int).push(c));
    }
    assert(s@.take(s@.len() as int) =~= s@);
    v
}

/// The string made of `chars`.
pub fn text_of(chars: &[char]) -> (r: String)
    ensures
        r@ == chars@,
{
    let mut s: String = String::new();
    let mut i: usize = 0;
    while i < chars.len()
        invariant
            i <= chars.len(),
            s@ == chars@.take(i as int),
        decreases chars.len() - i,
    {
        s.push(chars[i]);
        i = i + 1;
        assert(chars@.take(i as int) =~= chars@.take(i - 1).push(chars@[i - 1]));
    }
    assert(chars@.take(i as int) =~= chars@);
    s
}

/// Position of the first `c` in `s`, or the length of `s` where there is none.
pub fn position(s: &[char], c: char) -> (k: usize)
    ensures
        k == find(s@, c),
        k <= s.len(),
{
    let mut k: usize = 0;
    while k < s.len() && s[k] != c
        invariant
            k <= s.len(),
            forall|j: int| 0 <= j < k ==> s@[j] != c,
        decreases s.len() - k,
    {
        k = k + 1;
    }
    proof {
        lemma_find_is(s@, c, k as int);
    }
    k
}

/// The two sides of the first `c` in `s`.
pub fn cut_first<'a>(s: &'a [char], c: char) -> (r: Option<(&'a [char], &'a [char])>)
    ensures
        match r {
            Some((a, b)) => split_once(s@, c) == Some((a@, b@)),
            None => split_once(s@, c) is None,
        },
{
    let k: usize = position(s, c);
    if k < s.len() {
        let a = slice_subrange(s, 0, k);
        let b = slice_subrange(s, k + 1, s.len());
        assert(a@ =~= s@.take(k as int));
        assert(b@ =~= s@.skip(k + 1));
        Some((a, b))
    } else {
        None
    }
}

/// The two sides of the last `c` in `s`.
pub fn cut_last<'a>(s: &'a [char], c: char) -> (r: Option<(&'a [char], &'a [char])>)
    ensures
        match r {
            Some((a, b)) => rsplit_once(s@, c) == Some((a@, b@)),
            None => rsplit_once(s@, c) is None,
        },
{
    let mut k: usize = s.len();
    while k > 0 && s[k - 1] != c
        invariant
            k <= s.len(),
            forall|j: int| k <= j < s.len() ==> s@[j] != c,
        decreases k,
    {
        k = k - 1;
    }
    proof {
        lemma_rfind_is(s@, c, k - 1);
    }
    if k > 0 {
        let a = slice_subrange(s, 0, k - 1);
        let b = slice_subrange(s, k, s.len());
        assert(a@ =~= s@.take(k - 1));
        assert(b@ =~= s@.skip(k as int));
        Some((a, b))
    } else {
        None
    }
}

/// The pieces of `s` between occurrences of `c`.
pub fn cut_all<'a>(s: &'a [char], c: char) -> (r: Vec<&'a [char]>)
    ensures
        pieces(r@) == split(s@, c),
{
    let mut v: Vec<&'a [char]> = Vec::new();
    let mut rest: &'a [char] = s;
    assert(pieces(v@) + split(rest@, c) =~= split(s@, c));
    loop
        invariant
            pieces(v@) + split(rest@, c) == split(s@, c),
        decreases rest@.len(),
    {
        let ghost before = v@;
        let ghost left = rest@;
        let k: usize = position(rest, c);
        if k < rest.len() {
            let piece = slice_subrange(rest, 0, k);
            assert(piece@ =~= left.take(k as int));
            v.push(piece);
            rest = slice_subrange(rest, k + 1, rest.len());
            assert(rest@ =~= left.skip(k + 1));
            assert(pieces(v@) =~= pieces(before).push(piece@));
            assert(pieces(v@) + split(rest@, c) =~= pieces(before) + split(left, c));
        } else {
            v.push(rest);
            assert(pieces(v@) =~= pieces(before) + seq![left]);
            return v;
        }
    }
}

/// Whether `c` has the Unicode property White_Space.
pub fn white_space(c: char) -> (r: bool)
    ensures
        r == is_white_space(c),
{
    let n: u32 = c as u32;
    (0x09 <= n && n <= 0x0D) || n == 0x20 || n == 0x85 || n == 0xA0 || n == 0x1680 || (0x2000 <= n
        && n <= 0x200A) || n == 0x2028 || n == 0x2029 || n == 0x202F || n == 0x205F || n == 0x3000
}

/// `s` without the white space at either end.
pub fn trimmed<'a>(s: &'a [char]) -> (r: &'a [char])
    ensures
        r@ == trim(s@),
{
    let mut from: usize = 0;
    assert(s@.skip(0) =~= s@);
    while from < s.len() && white_space(s[from])
        invariant
            from <= s.len(),
            trim_start(s@.skip(from as int)) == trim_start(s@),
        decreases s.len() - from,
    {
        assert(s@.skip(from as int).skip(1) =~= s@.skip(from + 1));
        from = from + 1;
    }
    let ghost tail = s@.skip(from as int);
    let mut to: usize = s.len();
    assert(tail.take(to - from) =~= tail);
    while to > from && white_space(s[to - 1])
        invariant
            from <= to <= s.len(),
            tail == s@.skip(from as int),
            trim_end(tail.take(to - from)) == trim_end(tail),
        decreases to,
    {
        assert(tail.take(to - from).drop_last() =~= tail.take(to - from - 1));
        to = to - 1;
    }
    let r = slice_subrange(s, from, to);
    assert(r@ =~= tail.take(to - from));
    r
}

/// Reads the decimal number that `s` spells, up to `max`.
pub fn parse_number(s: &[char], max: u32) -> (r: Result<u32, NumberError>)
    ensures
        match r {
            Ok(n) => number(s@, max as nat) == Ok::<nat, NumberError>(n as nat),
            Err(e) => number(s@, max as nat) == Err::<nat, NumberError>(e),
        },
{
    if s.len() == 0 {
        return Err(NumberError::Empty);
    }
    let mut i: usize = if s[0] == '+' && s.len() > 1 { 1 } else { 0 };
    let mut acc: u64 = 0;
    assert(s@.skip(0) =~= s@);
    while i < s.len()
        invariant
            i <= s.len(),
            acc <= max,
            number(s@, max as nat) == digits(s@.skip(i as int), acc as nat, max as nat),
        decreases s.len() - i,
    {
        let c = s[i];
        assert(s@.skip(i as int)[0] == c);
        assert(s@.skip(i as int).skip(1) =~= s@.skip(i + 1));
        if c < '0' || c > '9' {
            return Err(NumberError::InvalidDigit);
        }
        let d: u64 = (c as u32 - '0' as u32) as u64;
        acc = acc * 10 + d;
        if acc > max as u64 {
            return Err(NumberError::TooLarge);
        }
        i = i + 1;
    }
    Ok(acc as u32)
}

/// Whether the characters of `s` are those of `word`.
pub fn same_text(s: &[char], word: &str) -> (r: bool)
    ensures
        r == (s@ == word@),
{
    let w: Vec<char> = chars_of(word);
    if s.len() != w.len() {
        return false;
    }
    let mut i: usize = 0;
    while i < s.len()
        invariant
            i <= s.len(),
            s.len() == w.len(),
            w@ == word@,
            forall|j: int| 0 <= j < i ==> s@[j] == w@[j],
        decreases s.len() - i,
    {
        if s[i] != w[i] {
            return false;
        }
        i = i + 1;
    }
    assert(s@ =~= w@);
    true
}

/// Spells `n` in decimal digits.
pub fn decimal_text(n: usize) -> (r: String)
    ensures
        r@ == decimal(n as nat),
    decreases n,
{
    let digit: u8 = (n % 10) as u8;
    let c: char = ('0' as u8 + digit) as char;
    let mut s: String = if n < 10 {
        String::new()
    } else {
        decimal_text(n / 10)
    };
    s.push(c);
    assert(s@ =~= decimal(n as nat));
    s
}

/// A text is cut at the first `c`: in front of it is a part that is free of
/// `c`, behind it whatever follows. A text without `c` is not cut.
pub proof fn law_split_once(s: Seq<char>, c: char, a: Seq<char>, b: Seq<char>)
    ensures
        !a.contains(c) ==> split_once(a + seq![c] + b, c) == Some((a, b)),
        split_once(s, c) is None <==> !s.contains(c),
        split_once(s, c) matches Some((x, y)) ==> s == x + seq![c] + y && !x.contains(c),
{
    let t = a + seq![c] + b;
    if !a.contains(c) {
        assert forall|j: int| 0 <= j < a.len() implies t[j] != c by {
            assert(a.contains(a[j]));
        }
        assert(t[a.len() as int] == c);
        lemma_find_is(t, c, a.len() as int);
        assert(t.take(a.len() as int) =~= a);
        assert(t.skip(a.len() as int + 1) =~= b);
    }
    lemma_find(s, c);
    let k = find(s, c);
    if k < s.len() {
        assert(s.contains(s[k]));
        assert(s =~= s.take(k) + seq![c] + s.skip(k + 1));
        assert(!s.take(k).contains(c));
    } else if s.contains(c) {
        let j = choose|j: int| 0 <= j < s.len() && s[j] == c;
        assert(s[j] != c);
    }
}

/// A text is cut at the last `c`: behind it is a part that is free of `c`, in
/// front of it whatever precedes. A text without `c` is not cut.
pub proof fn law_rsplit_once(s: Seq<char>, c: char, a: Seq<char>, b: Seq<char>)
    ensures
        !b.contains(c) ==> rsplit_once(a + seq![c] + b, c) == Some((a, b)),
        rsplit_once(s, c) is None <==> !s.contains(c),
        rsplit_once(s, c) matches Some((x, y)) ==> s == x + seq![c] + y && !y.contains(c),
{
    let t = a + seq![c] + b;
    if !b.contains(c) {
        let k = a.len() as int;
        assert forall|j: int| k < j < t.len() implies t[j] != c by {
            assert(t[j] == b[j - k - 1]);
            assert(b.contains(b[j - k - 1]));
        }
        assert(t[k] == c);
        lemma_rfind_is(t, c, k);
        assert(t.take(k) =~= a);
        assert(t.skip(k + 1) =~= b);
    }
    lemma_rfind(s, c);
    let k = rfind(s, c);
    if k >= 0 {
        assert(s.contains(s[k]));
        assert(s =~= s.take(k) + seq![c] + s.skip(k + 1));
        let behind = s.skip(k + 1);
        assert(!behind.contains(c)) by {
            if behind.contains(c) {
                let j = choose|j: int| 0 <= j < behind.len() && behind[j] == c;
                assert(s[j + k + 1] != c);
            }
        }
    } else if s.contains(c) {
        let j = choose|j: int| 0 <= j < s.len() && s[j] == c;
        assert(s[j] != c);
    }
}

/// `parts` put one behind the other, with `c` between them.
pub open spec fn interleaved(parts: Seq<Seq<char>>, c: char) -> Seq<char>
    decreases parts.len(),
{
    if parts.len() == 0 {
        Seq::empty()
    } else if parts.len() == 1 {
        parts[0]
    } else {
        parts[0] + seq![c] + interleaved(parts.skip(1), c)
    }
}

/// A text falls into the parts that it was put together from, none more and
/// none fewer, as long as they are free of what separates them.
pub proof fn law_split(parts: Seq<Seq<char>>, c: char)
    requires
        parts.len() > 0,
        forall|i: int| 0 <= i < parts.len() ==> !(#[trigger] parts[i]).contains(c),
    ensures
        split(interleaved(parts, c), c) == parts,
    decreases parts.len(),
{
    assert(!parts[0].contains(c));
    if parts.len() == 1 {
        lemma_split_single(parts[0], c);
        assert(seq![parts[0]] =~= parts);
    } else {
        let rest = parts.skip(1);
        assert forall|i: int| 0 <= i < rest.len() implies !(#[trigger] rest[i]).contains(c) by {
            assert(rest[i] == parts[i + 1]);
        }
        law_split(rest, c);
        lemma_split_cons(parts[0], c, interleaved(rest, c));
        assert(seq![parts[0]] + rest =~= parts);
    }
}

/// The pieces of a text, put together again, are the text, and none of them
/// holds what separates them.
pub proof fn law_pieces_make_text(s: Seq<char>, c: char)
    ensures
        split(s, c).len() > 0,
        interleaved(split(s, c), c) == s,
        forall|i: int| 0 <= i < split(s, c).len() ==> !(#[trigger] split(s, c)[i]).contains(c),
    decreases s.len(),
{
    lemma_find(s, c);
    let k = find(s, c);
    let all = split(s, c);
    if k < s.len() {
        let rest = split(s.skip(k + 1), c);
        law_pieces_make_text(s.skip(k + 1), c);
        assert(all.skip(1) =~= rest);
        assert(s =~= s.take(k) + seq![c] + s.skip(k + 1));
        assert forall|i: int| 0 <= i < all.len() implies !(#[trigger] all[i]).contains(c) by {
            if i > 0 {
                assert(all[i] == rest[i - 1]);
            }
        }
    }
}

/// Whether `s` is white space alone.
pub open spec fn blank(s: Seq<char>) -> bool {
    forall|i: int| 0 <= i < s.len() ==> is_white_space(#[trigger] s[i])
}

/// Trimming takes away the white space round a text, all of it and nothing
/// else.
pub proof fn law_trim(a: Seq<char>, s: Seq<char>, b: Seq<char>)
    requires
        blank(a),
        blank(b),
        s.len() > 0 ==> !is_white_space(s[0]) && !is_white_space(s.last()),
    ensures
        trim(a + s + b) == s,
{
    lemma_trim_start(a, s + b);
    assert(a + s + b =~= a + (s + b));
    if s.len() > 0 {
        assert((s + b)[0] == s[0]);
        lemma_trim_end(s, b);
    } else {
        assert(s + b =~= b);
        lemma_trim_start(b, Seq::empty());
        assert(b + Seq::<char>::empty() =~= b);
        assert(s =~= Seq::<char>::empty());
    }
}

proof fn lemma_trim_start(a: Seq<char>, s: Seq<char>)
    requires
        blank(a),
    ensures
        trim_start(a + s) == trim_start(s),
    decreases a.len(),
{
    if a.len() == 0 {
        assert(a + s =~= s);
    } else {
        assert(is_white_space(a[0]));
        assert((a + s).skip(1) =~= a.skip(1) + s);
        assert forall|i: int| 0 <= i < a.skip(1).len() implies is_white_space(
            #[trigger] a.skip(1)[i],
        ) by {
            assert(is_white_space(a[i + 1]));
        }
        lemma_trim_start(a.skip(1), s);
    }
}

proof fn lemma_trim_end(s: Seq<char>, b: Seq<char>)
    requires
        blank(b),
        s.len() > 0,
        !is_white_space(s.last()),
    ensures
        trim_end(s + b) == s,
    decreases b.len(),
{
    if b.len() == 0 {
        assert(s + b =~= s);
    } else {
        assert(is_white_space(b[b.len() - 1]));
        assert((s + b).drop_last() =~= s + b.drop_last());
        assert forall|i: int| 0 <= i < b.drop_last().len() implies is_white_space(
            #[trigger] b.drop_last()[i],
        ) by {
            assert(is_white_space(b[i]));
        }
        lemma_trim_end(s, b.drop_last());
    }
}

/// Which characters are white space: of ASCII the space and the controls from
/// tab to carriage return, and a few others.
pub proof fn law_white_space(c: char)
    ensures
        c <= '\u{7f}' ==> (is_white_space(c) <==> c == ' ' || '\t' <= c <= '\r'),
        c > '\u{7f}' ==> (is_white_space(c) <==> c == '\u{85}' || c == '\u{a0}' || c == '\u{1680}'
            || '\u{2000}' <= c <= '\u{200a}' || c == '\u{2028}' || c == '\u{2029}' || c
            == '\u{202f}' || c == '\u{205f}' || c == '\u{3000}'),
{
}

/// What decimal digits are worth together: the last counts once, each other ten
/// times as much as the one behind it.
pub open spec fn value_of(s: Seq<char>) -> nat
    decreases s.len(),
{
    if s.len() == 0 {
        0
    } else {
        value_of(s.drop_last()) * 10 + (s.last() as u32 - '0' as u32) as nat
    }
}

proof fn lemma_digits(s: Seq<char>, i: int, k: int, max: nat)
    requires
        0 <= i <= k <= s.len(),
        forall|j: int|
            0 <= j < k ==> '0' <= #[trigger] s[j] <= '9' && value_of(s.take(j + 1)) <= max,
        k < s.len() ==> !('0' <= s[k] <= '9') || value_of(s.take(k + 1)) > max,
    ensures
        digits(s.skip(i), value_of(s.take(i)), max) == (if k == s.len() {
            Ok::<nat, NumberError>(value_of(s))
        } else if !('0' <= s[k] <= '9') {
            Err(NumberError::InvalidDigit)
        } else {
            Err(NumberError::TooLarge)
        }),
    decreases k - i,
{
    if i < s.len() {
        assert(s.skip(i)[0] == s[i]);
        assert(s.take(i + 1).drop_last() =~= s.take(i));
        assert(s.skip(i).skip(1) =~= s.skip(i + 1));
        if i < k {
            assert('0' <= s[i] <= '9');
            lemma_digits(s, i + 1, k, max);
        }
    } else {
        assert(s.take(i) =~= s);
    }
}

/// A number is read from left to right, behind a plus sign if there is one in
/// front of something: it is worth what its digits are worth, and the first
/// place at which it is no number, or is too large, decides the error. `body` is
/// the text without the sign; `k` is that place, or the length of `body` where
/// there is none.
pub proof fn law_number(s: Seq<char>, body: Seq<char>, max: nat, k: int)
    requires
        s.len() > 0,
        s[0] == '+' && s.len() > 1 ==> body == s.skip(1),
        !(s[0] == '+' && s.len() > 1) ==> body == s,
        0 <= k <= body.len(),
        forall|j: int|
            0 <= j < k ==> '0' <= #[trigger] body[j] <= '9' && value_of(body.take(j + 1)) <= max,
        k < body.len() ==> !('0' <= body[k] <= '9') || value_of(body.take(k + 1)) > max,
    ensures
        number(s, max) == (if k == body.len() {
            Ok::<nat, NumberError>(value_of(body))
        } else if !('0' <= body[k] <= '9') {
            Err(NumberError::InvalidDigit)
        } else {
            Err(NumberError::TooLarge)
        }),
        number(Seq::empty(), max) == Err::<nat, NumberError>(NumberError::Empty),
{
    lemma_digits(body, 0, k, max);
    assert(body.skip(0) =~= body);
    assert(body.take(0) =~= Seq::<char>::empty());
}

proof fn lemma_value_grows(s: Seq<char>, j: int)
    requires
        0 <= j <= s.len(),
        forall|i: int| 0 <= i < s.len() ==> '0' <= #[trigger] s[i] <= '9',
    ensures
        value_of(s.take(j)) <= value_of(s),
    decreases s.len() - j,
{
    if j < s.len() {
        lemma_value_grows(s, j + 1);
        assert(s.take(j + 1).drop_last() =~= s.take(j));
    } else {
        assert(s.take(j) =~= s);
    }
}

/// A number is spelled in decimal digits, without leading zeros, that are worth
/// it; so it reads back as itself.
pub proof fn law_decimal(n: nat, max: nat)
    ensures
        decimal(n).len() > 0,
        forall|i: int| 0 <= i < decimal(n).len() ==> '0' <= #[trigger] decimal(n)[i] <= '9',
        value_of(decimal(n)) == n,
        n >= 10 ==> decimal(n)[0] != '0',
        n < 10 ==> decimal(n).len() == 1,
        n <= max ==> number(decimal(n), max) == Ok::<nat, NumberError>(n),
    decreases n,
{
    let all = decimal(n);
    lemma_spelled(n);
    assert('0' <= all[0] <= '9');
    if n <= max {
        assert forall|j: int| 0 <= j < all.len() implies '0' <= #[trigger] all[j] <= '9'
            && value_of(all.take(j + 1)) <= max by {
            lemma_value_grows(all, j + 1);
        }
        law_number(all, all, max, all.len() as int);
    }
}

proof fn lemma_spelled(n: nat)
    ensures
        decimal(n).len() > 0,
        forall|i: int| 0 <= i < decimal(n).len() ==> '0' <= #[trigger] decimal(n)[i] <= '9',
        value_of(decimal(n)) == n,
        n > 0 ==> decimal(n)[0] != '0',
        n < 10 ==> decimal(n).len() == 1,
    decreases n,
{
    let all = decimal(n);
    reveal_with_fuel(value_of, 2);
    if n >= 10 {
        lemma_spelled(n / 10);
        assert(all.drop_last() =~= decimal(n / 10));
        assert(all[0] == decimal(n / 10)[0]);
    } else {
        assert(all.drop_last() =~= Seq::<char>::empty());
    }
}

/// Text that was encoded comes back as itself; what is no encoded text becomes
/// what the lossy conversion makes of it.
pub proof fn law_text_survives(s: Seq<char>, data: Seq<u8>)
    ensures
        lossy(encode_utf8(s)) == s,
        !valid_utf8(data) ==> lossy(data) == utf8_lossy(data),
{
    encode_utf8_valid_utf8(s);
    encode_utf8_decode_utf8(s);
}

} // verus!
