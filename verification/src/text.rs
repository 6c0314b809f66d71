//! Text primitives shared by the wire formats: white space, trimming, prefixes,
//! `key=value` fields and decimal numerals, each stated over sequences of characters.

use vstd::prelude::*;
use vstd::string::*;
use vstd::utf8::{decode_utf8, valid_utf8};

verus! {

/// The text that `String::from_utf8_lossy` makes of `bytes`: their decoding, with
/// the replacement character in place of whatever is not UTF-8.
pub uninterp spec fn lossy_text(bytes: Seq<u8>) -> Seq<char>;

/// Reads received bytes as text, with `String::from_utf8_lossy`. Trusted: the
/// result is a function of the bytes, and bytes that are UTF-8 are decoded as
/// they stand.
#[verifier::external_body]
pub(crate) fn decode_lossy(bytes: &[u8]) -> (r: String)
    ensures
        r@ == lossy_text(bytes@),
        valid_utf8(bytes@) ==> r@ == decode_utf8(bytes@),
{
    String::from_utf8_lossy(bytes).into_owned()
}

/// Whether `c` carries the Unicode `White_Space` property, the class that trimming removes.
pub open spec fn is_space(c: char) -> bool {
    let n = c as u32;
    ||| 0x09 <= n <= 0x0D
    ||| n == 0x20
    ||| n == 0x85
    ||| n == 0xA0
    ||| n == 0x1680
    ||| 0x2000 <= n <= 0x200A
    ||| n == 0x2028
    ||| n == 0x2029
    ||| n == 0x202F
    ||| n == 0x205F
    ||| n == 0x3000
}

/// Tests a character for white space.
pub fn is_whitespace(c: char) -> (b: bool)
    ensures
        b == is_space(c),
{
    let n: u32 = c as u32;
    (0x09 <= n && n <= 0x0D) || n == 0x20 || n == 0x85 || n == 0xA0 || n == 0x1680 || (0x2000 <= n
        && n <= 0x200A) || n == 0x2028 || n == 0x2029 || n == 0x202F || n == 0x205F || n == 0x3000
}

/// `s` without its leading white space.
pub open spec fn without_leading_space(s: Seq<char>) -> Seq<char>
    decreases s.len(),
{
    if s.len() > 0 && is_space(s.first()) {
        without_leading_space(s.drop_first())
    } else {
        s
    }
}

/// `s` without its trailing white space.
pub open spec fn without_trailing_space(s: Seq<char>) -> Seq<char>
    decreases s.len(),
{
    if s.len() > 0 && is_space(s.last()) {
        without_trailing_space(s.drop_last())
    } else {
        s
    }
}

/// `s` without the white space on either side.
pub open spec fn trimmed(s: Seq<char>) -> Seq<char> {
    without_trailing_space(without_leading_space(s))
}

/// What follows the first `n` characters of `s`; nothing when `s` is shorter than that.
pub open spec fn tail_from(s: Seq<char>, n: nat) -> Seq<char> {
    if n <= s.len() {
        s.skip(n as int)
    } else {
        Seq::empty()
    }
}

/// Whether `word` opens `s` as a whole word: `s` begins with it, and white space or
/// the end of `s` follows.
pub open spec fn opens_with(s: Seq<char>, word: Seq<char>) -> bool {
    &&& word.is_prefix_of(s)
    &&& (s.len() == word.len() || is_space(s[word.len() as int]))
}

/// Whether `i` is the one and only position of `c` in `s`.
pub open spec fn sole_position(s: Seq<char>, c: char, i: int) -> bool {
    &&& 0 <= i < s.len()
    &&& s[i] == c
    &&& forall|j: int| 0 <= j < s.len() && s[j] == c ==> j == i
}

/// The two fields on either side of the separator `c`, when `s` holds `c` exactly once.
pub open spec fn two_fields(s: Seq<char>, c: char) -> Option<(Seq<char>, Seq<char>)> {
    if exists|i: int| sole_position(s, c, i) {
        let i = choose|i: int| sole_position(s, c, i);
        Some((s.take(i), s.skip(i + 1)))
    } else {
        None
    }
}

/// The character that writes the digit `d`.
pub open spec fn digit(d: nat) -> char {
    seq!['0', '1', '2', '3', '4', '5', '6', '7', '8', '9'][d as int]
}

/// The decimal numeral of `n`, without sign or leading zeros.
pub open spec fn decimal(n: nat) -> Seq<char>
    decreases n,
{
    if n < 10 {
        seq![digit(n)]
    } else {
        decimal(n / 10).push(digit(n % 10))
    }
}

/// Leading white space ends at the first character that is none.
pub proof fn lemma_leading_space(s: Seq<char>, i: int)
    requires
        0 <= i <= s.len(),
        forall|j: int| 0 <= j < i ==> is_space(s[j]),
        i < s.len() ==> !is_space(s[i]),
    ensures
        without_leading_space(s) == s.skip(i),
    decreases i,
{
    if i == 0 {
        assert(s.skip(0) =~= s);
    } else {
        let rest = s.drop_first();
        assert forall|j: int| 0 <= j < i - 1 implies is_space(rest[j]) by {
            assert(rest[j] == s[j + 1]);
        }
        lemma_leading_space(rest, i - 1);
        assert(rest.skip(i - 1) =~= s.skip(i));
    }
}

/// Trailing white space begins after the last character that is none.
pub proof fn lemma_trailing_space(s: Seq<char>, j: int)
    requires
        0 <= j <= s.len(),
        forall|k: int| j <= k < s.len() ==> is_space(s[k]),
        0 < j ==> !is_space(s[j - 1]),
    ensures
        without_trailing_space(s) == s.take(j),
    decreases s.len() - j,
{
    if j == s.len() {
        assert(s.take(j) =~= s);
    } else {
        let rest = s.drop_last();
        lemma_trailing_space(rest, j);
        assert(rest.take(j) =~= s.take(j));
    }
}

/// A text that neither begins nor ends with white space is its own trimmed form.
pub proof fn lemma_trimmed_fixed(s: Seq<char>)
    requires
        s.len() > 0 ==> !is_space(s.first()) && !is_space(s.last()),
    ensures
        trimmed(s) == s,
{
}

/// Trimming leaves nothing more to trim.
pub proof fn lemma_trimmed_idempotent(s: Seq<char>)
    ensures
        trimmed(trimmed(s)) == trimmed(s),
{
    lemma_trimmed_bounds(s);
    lemma_trimmed_fixed(trimmed(s));
}

/// The trimmed form is the stretch of `s` between its outermost characters
/// that are no white space.
pub proof fn lemma_trimmed_bounds(s: Seq<char>)
    ensures
        trimmed(s).len() <= s.len(),
        trimmed(s).len() > 0 ==> !is_space(trimmed(s).first()) && !is_space(trimmed(s).last()),
        exists|i: int, j: int| 0 <= i <= j <= s.len() && trimmed(s) == s.subrange(i, j),
{
    let i = first_solid(s);
    lemma_first_solid(s);
    lemma_leading_space(s, i);
    let t = s.skip(i);
    let j = last_solid(t);
    lemma_last_solid(t);
    lemma_trailing_space(t, j);
    assert(t.take(j) =~= s.subrange(i, i + j));
    if trimmed(s).len() > 0 {
        assert(trimmed(s).last() == t[j - 1]);
        assert(trimmed(s).first() == t[0]);
        assert(t[0] == s[i]);
    }
}

/// Where the leading white space of `s` ends.
pub open spec fn first_solid(s: Seq<char>) -> int
    decreases s.len(),
{
    if s.len() > 0 && is_space(s.first()) {
        1 + first_solid(s.drop_first())
    } else {
        0
    }
}

/// Where the trailing white space of `s` begins.
pub open spec fn last_solid(s: Seq<char>) -> int
    decreases s.len(),
{
    if s.len() > 0 && is_space(s.last()) {
        last_solid(s.drop_last())
    } else {
        s.len() as int
    }
}

/// `first_solid` is the first position that holds no white space, or the length.
pub proof fn lemma_first_solid(s: Seq<char>)
    ensures
        0 <= first_solid(s) <= s.len(),
        forall|j: int| 0 <= j < first_solid(s) ==> is_space(s[j]),
        first_solid(s) < s.len() ==> !is_space(s[first_solid(s)]),
    decreases s.len(),
{
    if s.len() > 0 && is_space(s.first()) {
        let rest = s.drop_first();
        lemma_first_solid(rest);
        assert forall|j: int| 0 <= j < first_solid(s) implies is_space(s[j]) by {
            if j > 0 {
                assert(s[j] == rest[j - 1]);
            }
        }
        if first_solid(s) < s.len() {
            assert(s[first_solid(s)] == rest[first_solid(rest)]);
        }
    }
}

/// `last_solid` is just past the last position that holds no white space, or zero.
pub proof fn lemma_last_solid(s: Seq<char>)
    ensures
        0 <= last_solid(s) <= s.len(),
        forall|k: int| last_solid(s) <= k < s.len() ==> is_space(s[k]),
        0 < last_solid(s) ==> !is_space(s[last_solid(s) - 1]),
    decreases s.len(),
{
    if s.len() > 0 && is_space(s.last()) {
        let rest = s.drop_last();
        lemma_last_solid(rest);
        assert forall|k: int| last_solid(s) <= k < s.len() implies is_space(s[k]) by {
            if k < s.len() - 1 {
                assert(s[k] == rest[k]);
            }
        }
        if 0 < last_solid(s) {
            assert(s[last_solid(s) - 1] == rest[last_solid(rest) - 1]);
        }
    }
}

/// A text that begins with no white space keeps its beginning when trimmed: the
/// trimmed form is the text up to its trailing white space.
pub proof fn lemma_trimmed_beginning(s: Seq<char>)
    requires
        s.len() > 0,
        !is_space(s.first()),
    ensures
        trimmed(s).len() > 0,
        trimmed(s).is_prefix_of(s),
        forall|k: int| trimmed(s).len() <= k < s.len() ==> is_space(s[k]),
{
    let j = last_solid(s);
    lemma_last_solid(s);
    lemma_trailing_space(s, j);
    assert(s.take(j) =~= s.subrange(0, j));
}

/// White space appended to a text does not show in its trimmed form.
pub proof fn lemma_trimmed_ignores_trailing_space(s: Seq<char>, padding: Seq<char>)
    requires
        forall|k: int| 0 <= k < padding.len() ==> is_space(padding[k]),
    ensures
        trimmed(s + padding) == trimmed(s),
{
    let whole = s + padding;
    let i = first_solid(s);
    lemma_first_solid(s);
    lemma_leading_space(s, i);
    if i < s.len() {
        lemma_leading_space(whole, i);
        let t = s.skip(i);
        assert(whole.skip(i) =~= t + padding);
        let j = last_solid(t);
        lemma_last_solid(t);
        assert(t[0] == s[i]);
        lemma_trailing_space(t, j);
        lemma_trailing_space(t + padding, j);
        assert((t + padding).take(j) =~= t.take(j));
    } else {
        lemma_leading_space(whole, whole.len() as int);
        assert(whole.skip(whole.len() as int) =~= Seq::<char>::empty());
        assert(s.skip(i) =~= Seq::<char>::empty());
    }
}

/// A text without the separator does not split in two.
pub proof fn lemma_no_separator(s: Seq<char>, c: char)
    requires
        !s.contains(c),
    ensures
        two_fields(s, c).is_none(),
{
}

/// Two texts free of the separator, joined by it, split back into themselves.
pub proof fn lemma_two_fields_joined(left: Seq<char>, right: Seq<char>, c: char)
    requires
        !left.contains(c),
        !right.contains(c),
    ensures
        two_fields(left + seq![c] + right, c) == Some((left, right)),
{
    let s = left + seq![c] + right;
    let at = left.len() as int;
    assert(s[at] == c);
    assert forall|j: int| 0 <= j < s.len() && s[j] == c implies j == at by {
        if j < at {
            assert(left[j] == c);
        } else if j > at {
            assert(right[j - at - 1] == c);
        }
    }
    assert(sole_position(s, c, at));
    let w = choose|w: int| sole_position(s, c, w);
    assert(w == at);
    assert(s.take(at) =~= left);
    assert(s.skip(at + 1) =~= right);
}

/// Neither field of a split holds the separator.
pub proof fn lemma_two_fields_free(s: Seq<char>, c: char)
    ensures
        two_fields(s, c) matches Some((left, right)) ==> !left.contains(c) && !right.contains(c),
{
    if exists|i: int| sole_position(s, c, i) {
        let at = choose|i: int| sole_position(s, c, i);
        let left = s.take(at);
        let right = s.skip(at + 1);
        if left.contains(c) {
            let k = choose|k: int| 0 <= k < left.len() && left[k] == c;
            assert(s[k] == c);
        }
        if right.contains(c) {
            let k = choose|k: int| 0 <= k < right.len() && right[k] == c;
            assert(s[k + at + 1] == c);
        }
    }
}

/// Trimming brings in no character that the text did not hold.
pub proof fn lemma_trimmed_keeps_free(s: Seq<char>, c: char)
    requires
        !s.contains(c),
    ensures
        !trimmed(s).contains(c),
{
    lemma_trimmed_bounds(s);
    let (i, j) = choose|i: int, j: int| 0 <= i <= j <= s.len() && trimmed(s) == s.subrange(i, j);
    if trimmed(s).contains(c) {
        let k = choose|k: int| 0 <= k < trimmed(s).len() && trimmed(s)[k] == c;
        assert(s[i + k] == c);
    }
}

/// A numeral is made of digits, none of which is white space.
pub proof fn lemma_decimal_solid(n: nat)
    ensures
        decimal(n).len() > 0,
        !is_space(decimal(n).last()),
    decreases n,
{
    let d = if n < 10 {
        n
    } else {
        n % 10
    };
    assert(decimal(n).last() == digit(d));
    assert(!is_space(digit(d))) by {
        assert(d < 10);
        assert(digit(d) == seq!['0', '1', '2', '3', '4', '5', '6', '7', '8', '9'][d as int]);
    }
}

/// The characters of `s`, one by one.
pub fn chars_of(s: &str) -> (v: Vec<char>)
    ensures
        v@ == s@,
{
    let mut v: Vec<char> = Vec::new();
    for c in it: s.chars()
        invariant
            v@ == it.seq().take(it.index() as int),
            it.seq() == s@,
    {
        v.push(c);
    }
    v
}

/// Strips the white space on either side of `s`.
pub fn trim<'a>(s: &'a str) -> (r: &'a str)
    ensures
        r@ == trimmed(s@),
{
    let chars = chars_of(s);
    let n: usize = chars.len();
    let mut i: usize = 0;
    while i < n && is_whitespace(chars[i])
        invariant
            n == chars.len(),
            0 <= i <= n,
            forall|k: int| 0 <= k < i ==> is_space(chars@[k]),
        decreases n - i,
    {
        i += 1;
    }
    let mut j: usize = n;
    while j > i && is_whitespace(chars[j - 1])
        invariant
            n == chars.len(),
            i <= j <= n,
            forall|k: int| j <= k < n ==> is_space(chars@[k]),
        decreases j,
    {
        j -= 1;
    }
    proof {
        let t = s@.skip(i as int);
        lemma_leading_space(s@, i as int);
        assert forall|k: int| j - i <= k < t.len() implies is_space(t[k]) by {
            assert(t[k] == s@[k + i]);
        }
        if j > i {
            assert(t[j - i - 1] == s@[j - 1]);
        }
        lemma_trailing_space(t, j - i);
        assert(t.take(j - i) =~= s@.subrange(i as int, j as int));
    }
    s.substring_char(i, j)
}

/// Tells whether `s` begins with `prefix`.
pub fn starts_with(s: &Vec<char>, prefix: &str) -> (b: bool)
    ensures
        b == prefix@.is_prefix_of(s@),
{
    let p = chars_of(prefix);
    if p.len() > s.len() {
        return false;
    }
    let mut i: usize = 0;
    while i < p.len()
        invariant
            p@ == prefix@,
            p.len() <= s.len(),
            0 <= i <= p.len(),
            forall|k: int| 0 <= k < i ==> s@[k] == p@[k],
        decreases p.len() - i,
    {
        if s[i] != p[i] {
            assert(s@.subrange(0, p@.len() as int)[i as int] != p@[i as int]);
            return false;
        }
        i += 1;
    }
    assert(p@ =~= s@.subrange(0, p@.len() as int));
    true
}

/// Tells whether `s` and `t` are the same text.
pub fn same_text(s: &Vec<char>, t: &str) -> (b: bool)
    ensures
        b == (s@ == t@),
{
    let other = chars_of(t);
    if other.len() != s.len() {
        return false;
    }
    let whole = starts_with(s, t);
    assert(s@.subrange(0, s@.len() as int) =~= s@);
    whole
}

/// Tells whether `word` opens `s` as a whole word.
pub fn begins_with_word(s: &Vec<char>, word: &str) -> (b: bool)
    ensures
        b == opens_with(s@, word@),
{
    let w = chars_of(word);
    if !starts_with(s, word) {
        return false;
    }
    s.len() == w.len() || is_whitespace(s[w.len()])
}

/// What follows the first `n` characters of `s`; nothing when `s` is shorter than that.
pub fn skip_chars<'a>(s: &'a str, n: usize) -> (r: &'a str)
    ensures
        r@ == tail_from(s@, n as nat),
{
    let len = s.unicode_len();
    if n <= len {
        s.substring_char(n, len)
    } else {
        assert(s@.subrange(0, 0) =~= Seq::<char>::empty());
        s.substring_char(0, 0)
    }
}

/// Splits `s` at the separator `c` when it occurs exactly once.
pub fn split_two<'a>(s: &'a str, c: char) -> (r: Option<(&'a str, &'a str)>)
    ensures
        match r {
            Some((left, right)) => two_fields(s@, c) == Some((left@, right@)),
            None => two_fields(s@, c).is_none(),
        },
{
    let chars = chars_of(s);
    let n: usize = chars.len();
    let mut found: usize = 0;
    let mut at: usize = 0;
    let ghost mut second: int = 0;
    let mut i: usize = 0;
    while i < n
        invariant
            n == chars.len(),
            chars@ == s@,
            0 <= i <= n,
            found <= 2,
            found == 0 ==> forall|k: int| 0 <= k < i ==> chars@[k] != c,
            found == 1 ==> 0 <= at < i && chars@[at as int] == c && forall|k: int|
                0 <= k < i && chars@[k] == c ==> k == at,
            found == 2 ==> 0 <= at < second < i && chars@[at as int] == c && chars@[second] == c,
        decreases n - i,
    {
        if chars[i] == c {
            if found == 0 {
                at = i;
                found = 1;
            } else if found == 1 {
                proof {
                    second = i as int;
                }
                found = 2;
            }
        }
        i += 1;
    }
    if found == 1 {
        proof {
            assert(sole_position(s@, c, at as int));
            let w = choose|w: int| sole_position(s@, c, w);
            assert(w == at);
            assert(s@.take(at as int) =~= s@.subrange(0, at as int));
            assert(s@.skip(at + 1) =~= s@.subrange(at + 1, n as int));
        }
        Some((s.substring_char(0, at), s.substring_char(at + 1, n)))
    } else {
        proof {
            assert forall|w: int| !sole_position(s@, c, w) by {
                if found == 2 && sole_position(s@, c, w) {
                    assert(at as int == w);
                    assert(second == w);
                }
            }
        }
        None
    }
}

/// The one-character text of the digit `d`.
fn digit_text(d: u64) -> (r: &'static str)
    requires
        d < 10,
    ensures
        r@ == seq![digit(d as nat)],
{
    proof {
        reveal_strlit("0");
        reveal_strlit("1");
        reveal_strlit("2");
        reveal_strlit("3");
        reveal_strlit("4");
        reveal_strlit("5");
        reveal_strlit("6");
        reveal_strlit("7");
        reveal_strlit("8");
        reveal_strlit("9");
    }
    let r = if d == 0 {
        "0"
    } else if d == 1 {
        "1"
    } else if d == 2 {
        "2"
    } else if d == 3 {
        "3"
    } else if d == 4 {
        "4"
    } else if d == 5 {
        "5"
    } else if d == 6 {
        "6"
    } else if d == 7 {
        "7"
    } else if d == 8 {
        "8"
    } else {
        "9"
    };
    assert(r@ =~= seq![digit(d as nat)]);
    r
}

/// Writes `n` as a decimal numeral.
pub fn decimal_string(n: u64) -> (r: String)
    ensures
        r@ == decimal(n as nat),
    decreases n,
{
    if n < 10 {
        digit_text(n).to_owned()
    } else {
        let mut r = decimal_string(n / 10);
        r.append(digit_text(n % 10));
        assert(r@ =~= decimal(n as nat));
        r
    }
}

} // verus!
