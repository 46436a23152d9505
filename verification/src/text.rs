//! Character-level helpers shared by the tokenizer and the query engine:
//! scanning past spaces, finding delimiters, reading and writing decimal
//! numbers, and trimming. Each helper has a spec-level definition over
//! `Seq<char>` and a verified executable counterpart over `&str`.
use vstd::prelude::*;

verus! {

use vstd::string::*;

/// A decimal digit.
pub open spec fn is_digit(c: char) -> bool {
    '0' <= c && c <= '9'
}

/// Numeric value of one digit character.
pub open spec fn digit_val(c: char) -> nat {
    (c as int - '0' as int) as nat
}

pub open spec fn all_digits(s: Seq<char>) -> bool {
    forall|i: int| 0 <= i < s.len() ==> is_digit(#[trigger] s[i])
}

/// Value of a digit string, most significant digit first.
pub open spec fn digits_val(s: Seq<char>) -> nat
    decreases s.len(),
{
    if s.len() == 0 {
        0
    } else {
        digits_val(s.drop_last()) * 10 + digit_val(s.last())
    }
}

/// A decimal token for a 64-bit value: nonempty, all digits, and within
/// range.
pub open spec fn valid_u64_digits(s: Seq<char>) -> bool {
    s.len() > 0 && all_digits(s) && digits_val(s) <= u64::MAX
}

pub open spec fn valid_u32_digits(s: Seq<char>) -> bool {
    s.len() > 0 && all_digits(s) && digits_val(s) <= u32::MAX
}

/// Index of the first occurrence of `c` at or after `i`, if any.
pub open spec fn find_from(s: Seq<char>, c: char, i: int) -> Option<int>
    decreases s.len() - i,
{
    if i < 0 || i >= s.len() {
        None
    } else if s[i] == c {
        Some(i)
    } else {
        find_from(s, c, i + 1)
    }
}

pub proof fn lemma_find_from(s: Seq<char>, c: char, i: int)
    requires
        0 <= i <= s.len(),
    ensures
        match find_from(s, c, i) {
            Some(j) => i <= j < s.len() && s[j] == c && forall|k: int| i <= k < j ==> s[k] != c,
            None => forall|k: int| i <= k < s.len() ==> s[k] != c,
        },
    decreases s.len() - i,
{
    if i < s.len() && s[i] != c {
        lemma_find_from(s, c, i + 1);
    }
}

/// First index at or after `i` that does not hold a space.
pub open spec fn skip_spaces(s: Seq<char>, i: int) -> int
    decreases s.len() - i,
{
    if i < 0 || i >= s.len() {
        i
    } else if s[i] == ' ' {
        skip_spaces(s, i + 1)
    } else {
        i
    }
}

pub proof fn lemma_skip_spaces(s: Seq<char>, i: int)
    requires
        0 <= i <= s.len(),
    ensures
        i <= skip_spaces(s, i) <= s.len(),
        forall|k: int| i <= k < skip_spaces(s, i) ==> s[k] == ' ',
        skip_spaces(s, i) == s.len() || s[skip_spaces(s, i)] != ' ',
    decreases s.len() - i,
{
    if i < s.len() && s[i] == ' ' {
        lemma_skip_spaces(s, i + 1);
    }
}

/// Skipping spaces is idempotent: a position past the spaces stays put.
pub proof fn lemma_skip_spaces_idem(s: Seq<char>, i: int)
    requires
        0 <= i <= s.len(),
    ensures
        skip_spaces(s, skip_spaces(s, i)) == skip_spaces(s, i),
{
    lemma_skip_spaces(s, i);
}

/// First index at or after `i` that holds a space (or the end): the end of
/// the whitespace-delimited token starting at `i`.
pub open spec fn token_end(s: Seq<char>, i: int) -> int
    decreases s.len() - i,
{
    if i < 0 || i >= s.len() {
        i
    } else if s[i] != ' ' {
        token_end(s, i + 1)
    } else {
        i
    }
}

pub proof fn lemma_token_end(s: Seq<char>, i: int)
    requires
        0 <= i <= s.len(),
    ensures
        i <= token_end(s, i) <= s.len(),
        forall|k: int| i <= k < token_end(s, i) ==> s[k] != ' ',
        token_end(s, i) == s.len() || s[token_end(s, i)] == ' ',
    decreases s.len() - i,
{
    if i < s.len() && s[i] != ' ' {
        lemma_token_end(s, i + 1);
    }
}

/// First index at or after `i` that does not hold a decimal digit.
pub open spec fn digit_run_end(s: Seq<char>, i: int) -> int
    decreases s.len() - i,
{
    if i < 0 || i >= s.len() {
        i
    } else if is_digit(s[i]) {
        digit_run_end(s, i + 1)
    } else {
        i
    }
}

pub proof fn lemma_digit_run_end(s: Seq<char>, i: int)
    requires
        0 <= i <= s.len(),
    ensures
        i <= digit_run_end(s, i) <= s.len(),
        forall|k: int| i <= k < digit_run_end(s, i) ==> is_digit(s[k]),
        digit_run_end(s, i) == s.len() || !is_digit(s[digit_run_end(s, i)]),
    decreases s.len() - i,
{
    if i < s.len() && is_digit(s[i]) {
        lemma_digit_run_end(s, i + 1);
    }
}

/// Exec counterpart of `find_from`.
pub fn find_char_from(s: &str, c: char, i: usize) -> (r: Option<usize>)
    requires
        i <= s@.len(),
    ensures
        r is Some <==> find_from(s@, c, i as int) is Some,
        r matches Some(j) ==> find_from(s@, c, i as int) == Some(j as int),
{
    let len = s.unicode_len();
    let mut j = i;
    while j < len
        invariant
            i <= j <= len,
            len == s@.len(),
            find_from(s@, c, i as int) == find_from(s@, c, j as int),
        decreases len - j,
    {
        if s.get_char(j) == c {
            return Some(j);
        }
        j = j + 1;
    }
    None
}

/// Exec counterpart of `skip_spaces`.
pub fn skip_spaces_x(s: &str, i: usize) -> (r: usize)
    requires
        i <= s@.len(),
    ensures
        r == skip_spaces(s@, i as int),
        i <= r <= s@.len(),
{
    proof {
        lemma_skip_spaces(s@, i as int);
    }
    let len = s.unicode_len();
    let mut j = i;
    while j < len
        invariant
            i <= j <= len,
            len == s@.len(),
            skip_spaces(s@, i as int) == skip_spaces(s@, j as int),
        decreases len - j,
    {
        if s.get_char(j) != ' ' {
            return j;
        }
        j = j + 1;
    }
    j
}

/// Exec counterpart of `token_end`.
pub fn token_end_x(s: &str, i: usize) -> (r: usize)
    requires
        i <= s@.len(),
    ensures
        r == token_end(s@, i as int),
        i <= r <= s@.len(),
{
    proof {
        lemma_token_end(s@, i as int);
    }
    let len = s.unicode_len();
    let mut j = i;
    while j < len
        invariant
            i <= j <= len,
            len == s@.len(),
            token_end(s@, i as int) == token_end(s@, j as int),
        decreases len - j,
    {
        if s.get_char(j) == ' ' {
            return j;
        }
        j = j + 1;
    }
    j
}

/// Exec counterpart of `digit_run_end`.
pub fn digit_run_end_x(s: &str, i: usize) -> (r: usize)
    requires
        i <= s@.len(),
    ensures
        r == digit_run_end(s@, i as int),
        i <= r <= s@.len(),
{
    proof {
        lemma_digit_run_end(s@, i as int);
    }
    let len = s.unicode_len();
    let mut j = i;
    while j < len
        invariant
            i <= j <= len,
            len == s@.len(),
            digit_run_end(s@, i as int) == digit_run_end(s@, j as int),
        decreases len - j,
    {
        let c = s.get_char(j);
        if !('0' <= c && c <= '9') {
            return j;
        }
        j = j + 1;
    }
    j
}

/// Verified string equality: two views are equal exactly when lengths and
/// characters agree.
pub fn str_eq(a: &str, b: &str) -> (r: bool)
    ensures
        r == (a@ == b@),
{
    let la = a.unicode_len();
    let lb = b.unicode_len();
    if la != lb {
        assert(a@ != b@) by {
            assert(a@.len() != b@.len());
        }
        return false;
    }
    let mut i: usize = 0;
    while i < la
        invariant
            0 <= i <= la,
            la == a@.len(),
            la == b@.len(),
            forall|k: int| 0 <= k < i ==> a@[k] == b@[k],
        decreases la - i,
    {
        if a.get_char(i) != b.get_char(i) {
            return false;
        }
        i = i + 1;
    }
    proof {
        assert(a@ =~= b@);
    }
    true
}

/// Parse a decimal token the way `str::parse::<u64>` treats an all-digit
/// token: `None` when empty, non-numeric, or out of range.
pub fn parse_dec_u64(s: &str) -> (r: Option<u64>)
    ensures
        r is Some <==> valid_u64_digits(s@),
        r matches Some(v) ==> v == digits_val(s@),
{
    let len = s.unicode_len();
    if len == 0 {
        return None;
    }
    let mut i: usize = 0;
    let mut acc: u64 = 0;
    let mut over: bool = false;
    while i < len
        invariant
            0 <= i <= len,
            len == s@.len(),
            forall|k: int| 0 <= k < i ==> is_digit(#[trigger] s@[k]),
            !over ==> acc == digits_val(s@.take(i as int)),
            over ==> digits_val(s@.take(i as int)) > u64::MAX,
        decreases len - i,
    {
        let c = s.get_char(i);
        if !('0' <= c && c <= '9') {
            assert(!all_digits(s@));
            return None;
        }
        let d: u64 = (c as u32 - '0' as u32) as u64;
        proof {
            assert(s@.take(i + 1).drop_last() =~= s@.take(i as int));
            assert(s@.take(i + 1).last() == s@[i as int]);
            assert(d == digit_val(s@[i as int]));
        }
        if over {
            proof {
                assert(digits_val(s@.take(i + 1)) == digits_val(s@.take(i as int)) * 10
                    + digit_val(s@[i as int]));
                assert(digits_val(s@.take(i as int)) * 10 >= digits_val(s@.take(i as int))) by (nonlinear_arith);
            }
        } else {
            if acc > (u64::MAX - d) / 10 {
                proof {
                    assert(acc * 10 + d > u64::MAX) by (nonlinear_arith)
                        requires
                            acc > (u64::MAX - d) / 10,
                            d <= 9,
                            acc <= u64::MAX,
                    ;
                }
                over = true;
            } else {
                proof {
                    assert(acc * 10 + d <= u64::MAX) by (nonlinear_arith)
                        requires
                            acc <= (u64::MAX - d) / 10,
                            d <= 9,
                    ;
                }
                acc = acc * 10 + d;
            }
        }
        i = i + 1;
    }
    proof {
        assert(s@.take(len as int) =~= s@);
    }
    if over {
        None
    } else {
        Some(acc)
    }
}

/// Parse a decimal token as `str::parse::<u32>` would.
pub fn parse_dec_u32(s: &str) -> (r: Option<u32>)
    ensures
        r is Some <==> valid_u32_digits(s@),
        r matches Some(v) ==> v == digits_val(s@),
{
    match parse_dec_u64(s) {
        Some(v) => {
            if v <= 0xffff_ffff {
                Some(v as u32)
            } else {
                None
            }
        },
        None => None,
    }
}

/// Decimal rendering of a number, most significant digit first.
pub open spec fn dec_str(n: nat) -> Seq<char>
    decreases n,
{
    if n < 10 {
        seq![digit_char(n % 10)]
    } else {
        dec_str(n / 10) + seq![digit_char(n % 10)]
    }
}

/// The digit character for a value below ten.
pub open spec fn digit_char(n: nat) -> char {
    if n == 0 {
        '0'
    } else if n == 1 {
        '1'
    } else if n == 2 {
        '2'
    } else if n == 3 {
        '3'
    } else if n == 4 {
        '4'
    } else if n == 5 {
        '5'
    } else if n == 6 {
        '6'
    } else if n == 7 {
        '7'
    } else if n == 8 {
        '8'
    } else {
        '9'
    }
}

fn digit_str(d: u64) -> (r: &'static str)
    requires
        d < 10,
    ensures
        r@ == seq![digit_char(d as nat)],
{
    proof {
        reveal_strlit("0");
        reveal_strlit("1");
        reveal_strlit("2");
        reveal_strlit("3");
        reveal_strlit("4");
        reveal_strlit("5");
        reveal_strlit("6");
        reveal_strlit("7");
        reveal_strlit("8");
        reveal_strlit("9");
    }
    if d == 0 {
        "0"
    } else if d == 1 {
        "1"
    } else if d == 2 {
        "2"
    } else if d == 3 {
        "3"
    } else if d == 4 {
        "4"
    } else if d == 5 {
        "5"
    } else if d == 6 {
        "6"
    } else if d == 7 {
        "7"
    } else if d == 8 {
        "8"
    } else {
        "9"
    }
}

/// Render a number in decimal.
pub fn u64_to_dec(n: u64) -> (r: String)
    ensures
        r@ == dec_str(n as nat),
    decreases n,
{
    if n < 10 {
        String::from_str(digit_str(n))
    } else {
        let high = u64_to_dec(n / 10);
        high.concat(digit_str(n % 10))
    }
}

/// Decimal rendering left-padded with zeros to a minimum width, as a
/// `{:02}`-style format directive produces.
pub open spec fn dec_str_pad(n: nat, width: nat) -> Seq<char> {
    if dec_str(n).len() >= width {
        dec_str(n)
    } else {
        zeros((width - dec_str(n).len()) as nat) + dec_str(n)
    }
}

pub open spec fn zeros(k: nat) -> Seq<char>
    decreases k,
{
    if k == 0 {
        Seq::empty()
    } else {
        seq!['0'] + zeros((k - 1) as nat)
    }
}

/// Render a number in decimal, zero-padded to at least `width` characters.
pub fn u64_to_dec_pad(n: u64, width: usize) -> (r: String)
    requires
        width <= 16,
    ensures
        r@ == dec_str_pad(n as nat, width as nat),
{
    let digits = u64_to_dec(n);
    let dlen = digits.as_str().unicode_len();
    if dlen >= width {
        return digits;
    }
    let mut pad = String::new();
    let mut k: usize = 0;
    while k < width - dlen
        invariant
            0 <= k <= width - dlen,
            dlen == dec_str(n as nat).len(),
            dlen < width,
            pad@ == zeros(k as nat),
        decreases width - dlen - k,
    {
        proof {
            reveal_strlit("0");
            assert(zeros((k + 1) as nat) =~= zeros(k as nat) + seq!['0']) by {
                lemma_zeros_snoc((k + 1) as nat);
            }
        }
        pad.append("0");
        k = k + 1;
    }
    pad.concat(digits.as_str())
}

proof fn lemma_zeros_snoc(k: nat)
    requires
        k >= 1,
    ensures
        zeros(k) =~= zeros((k - 1) as nat) + seq!['0'],
    decreases k,
{
    if k > 1 {
        lemma_zeros_snoc((k - 1) as nat);
    }
}

/// Whitespace for the purpose of category trimming: the ASCII whitespace
/// characters.
pub open spec fn is_ws(c: char) -> bool {
    c == ' ' || c == '\t' || c == '\n' || c == '\r' || c == '\u{b}' || c == '\u{c}'
}

/// Drop leading characters satisfying `p`.
pub open spec fn trim_start_by(s: Seq<char>, p: spec_fn(char) -> bool) -> Seq<char>
    decreases s.len(),
{
    if s.len() > 0 && p(s[0]) {
        trim_start_by(s.drop_first(), p)
    } else {
        s
    }
}

/// Drop trailing characters satisfying `p`.
pub open spec fn trim_end_by(s: Seq<char>, p: spec_fn(char) -> bool) -> Seq<char>
    decreases s.len(),
{
    if s.len() > 0 && p(s.last()) {
        trim_end_by(s.drop_last(), p)
    } else {
        s
    }
}

/// `trim_start_by` keeps exactly the suffix from the first index whose
/// character fails `p`.
pub proof fn lemma_trim_start_by(s: Seq<char>, p: spec_fn(char) -> bool, j: int)
    requires
        0 <= j <= s.len(),
        forall|k: int| 0 <= k < j ==> p(s[k]),
        j == s.len() || !p(s[j]),
    ensures
        trim_start_by(s, p) == s.skip(j),
    decreases s.len(),
{
    if s.len() > 0 && p(s[0]) {
        assert(j >= 1);
        lemma_trim_start_by(s.drop_first(), p, j - 1);
        assert(s.drop_first().skip(j - 1) =~= s.skip(j));
    } else {
        assert(j == 0);
        assert(s.skip(0) =~= s);
    }
}

/// `trim_end_by` keeps exactly the prefix up to one past the last index
/// whose character fails `p`.
pub proof fn lemma_trim_end_by(s: Seq<char>, p: spec_fn(char) -> bool, j: int)
    requires
        0 <= j <= s.len(),
        forall|k: int| j <= k < s.len() ==> p(s[k]),
        j == 0 || !p(s[j - 1]),
    ensures
        trim_end_by(s, p) == s.take(j),
    decreases s.len(),
{
    if s.len() > 0 && p(s.last()) {
        assert(j < s.len());
        lemma_trim_end_by(s.drop_last(), p, j);
        assert(s.drop_last().take(j) =~= s.take(j));
    } else {
        assert(j == s.len());
        assert(s.take(j) =~= s);
    }
}

/// A category string with surrounding whitespace removed.
pub open spec fn trim_ws(s: Seq<char>) -> Seq<char> {
    trim_end_by(trim_start_by(s, |c: char| is_ws(c)), |c: char| is_ws(c))
}

fn is_ws_x(c: char) -> (r: bool)
    ensures
        r == is_ws(c),
{
    c == ' ' || c == '\t' || c == '\n' || c == '\r' || c == '\u{b}' || c == '\u{c}'
}

/// Exec counterpart of `trim_ws`.
pub fn trim_ws_x(s: &str) -> (r: &str)
    ensures
        r@ == trim_ws(s@),
{
    let len = s.unicode_len();
    let mut a: usize = 0;
    while a < len && is_ws_x(s.get_char(a))
        invariant
            0 <= a <= len,
            len == s@.len(),
            forall|k: int| 0 <= k < a ==> is_ws(#[trigger] s@[k]),
        decreases len - a,
    {
        a = a + 1;
    }
    proof {
        lemma_trim_start_by(s@, |c: char| is_ws(c), a as int);
    }
    let mut b: usize = len;
    while b > a && is_ws_x(s.get_char(b - 1))
        invariant
            a <= b <= len,
            len == s@.len(),
            forall|k: int| b <= k < len ==> is_ws(#[trigger] s@[k]),
        decreases b,
    {
        b = b - 1;
    }
    let r = s.substring_char(a, b);
    proof {
        let t = s@.skip(a as int);
        if b > a {
            lemma_trim_end_by(t, |c: char| is_ws(c), b - a);
        } else {
            assert(forall|k: int| 0 <= k < t.len() ==> is_ws(#[trigger] t[k]));
            lemma_trim_end_by(t, |c: char| is_ws(c), 0);
        }
        assert(t.take(b - a) =~= s@.subrange(a as int, b as int));
    }
    r
}


/// The display form of a nanosecond timestamp: hours unpadded, minutes and
/// seconds two digits, the subsecond part nine digits.
pub open spec fn format_ts(ns: u64) -> Seq<char> {
    dec_str((ns / 3_600_000_000_000) as nat) + seq![':'] + dec_str_pad(
        ((ns / 60_000_000_000) % 60) as nat,
        2,
    ) + seq![':'] + dec_str_pad(((ns / 1_000_000_000) % 60) as nat, 2) + seq!['.'] + dec_str_pad(
        (ns % 1_000_000_000) as nat,
        9,
    )
}

/// A run of spaces.
pub open spec fn spaces(k: nat) -> Seq<char>
    decreases k,
{
    if k == 0 {
        Seq::empty()
    } else {
        seq![' '] + spaces((k - 1) as nat)
    }
}

pub proof fn lemma_spaces_chars(k: nat)
    ensures
        spaces(k).len() == k,
        forall|i: int| 0 <= i < k ==> (#[trigger] spaces(k)[i]) == ' ',
    decreases k,
{
    if k > 0 {
        lemma_spaces_chars((k - 1) as nat);
    }
}

/// Scanning for the first non-space gives the same answer from anywhere
/// inside a run of spaces.
pub proof fn lemma_skip_spaces_through(s: Seq<char>, i: int, j: int)
    requires
        0 <= i <= j <= s.len(),
        forall|k: int| i <= k < j ==> (#[trigger] s[k]) == ' ',
    ensures
        skip_spaces(s, i) == skip_spaces(s, j),
    decreases j - i,
{
    if i < j {
        lemma_skip_spaces_through(s, i + 1, j);
    }
}

/// No member is a space.
pub open spec fn no_space(s: Seq<char>) -> bool {
    forall|i: int| 0 <= i < s.len() ==> (#[trigger] s[i]) != ' '
}

/// `token_end` lands exactly on the first space at or after `i`.
pub proof fn lemma_token_end_is(s: Seq<char>, i: int, j: int)
    requires
        0 <= i <= j <= s.len(),
        forall|k: int| i <= k < j ==> (#[trigger] s[k]) != ' ',
        j == s.len() || s[j] == ' ',
    ensures
        token_end(s, i) == j,
    decreases j - i,
{
    if i < j {
        lemma_token_end_is(s, i + 1, j);
    }
}

/// `skip_spaces` lands exactly on the first non-space at or after `i`.
pub proof fn lemma_skip_spaces_is(s: Seq<char>, i: int, j: int)
    requires
        0 <= i <= j <= s.len(),
        forall|k: int| i <= k < j ==> (#[trigger] s[k]) == ' ',
        j == s.len() || s[j] != ' ',
    ensures
        skip_spaces(s, i) == j,
    decreases j - i,
{
    if i < j {
        lemma_skip_spaces_is(s, i + 1, j);
    }
}

/// `find_from` lands exactly on the first occurrence.
pub proof fn lemma_find_from_is(s: Seq<char>, c: char, i: int, j: int)
    requires
        0 <= i <= j < s.len(),
        forall|k: int| i <= k < j ==> (#[trigger] s[k]) != c,
        s[j] == c,
    ensures
        find_from(s, c, i) == Some(j),
    decreases j - i,
{
    if i < j {
        lemma_find_from_is(s, c, i + 1, j);
    }
}

/// A decimal rendering holds only digits and reads back to its value.
pub proof fn lemma_dec_str_val(n: nat)
    ensures
        dec_str(n).len() >= 1,
        all_digits(dec_str(n)),
        digits_val(dec_str(n)) == n,
    decreases n,
{
    if n < 10 {
        assert(dec_str(n) =~= seq![digit_char(n)]);
        assert(digits_val(seq![digit_char(n)].drop_last()) == 0) by {
            assert(seq![digit_char(n)].drop_last() =~= Seq::<char>::empty());
        }
    } else {
        lemma_dec_str_val(n / 10);
        let d = dec_str(n);
        assert(d =~= dec_str(n / 10) + seq![digit_char(n % 10)]);
        assert(d.drop_last() =~= dec_str(n / 10));
        assert(d.last() == digit_char(n % 10));
        assert forall|i: int| 0 <= i < d.len() implies is_digit(#[trigger] d[i]) by {
            if i < dec_str(n / 10).len() {
                assert(d[i] == dec_str(n / 10)[i]);
            }
        }
    }
}

/// Zeros are zeros.
pub proof fn lemma_zeros_chars(k: nat)
    ensures
        zeros(k).len() == k,
        forall|i: int| 0 <= i < k ==> (#[trigger] zeros(k)[i]) == '0',
    decreases k,
{
    if k > 0 {
        lemma_zeros_chars((k - 1) as nat);
    }
}

/// Prepending zeros leaves the value of a digit string unchanged.
pub proof fn lemma_leading_zeros_val(z: Seq<char>, s: Seq<char>)
    requires
        forall|i: int| 0 <= i < z.len() ==> (#[trigger] z[i]) == '0',
    ensures
        digits_val(z + s) == digits_val(s),
    decreases s.len(),
{
    if s.len() == 0 {
        assert(z + s =~= z);
        lemma_all_zeros_val(z);
    } else {
        assert((z + s).drop_last() =~= z + s.drop_last());
        assert((z + s).last() == s.last());
        lemma_leading_zeros_val(z, s.drop_last());
    }
}

proof fn lemma_all_zeros_val(z: Seq<char>)
    requires
        forall|i: int| 0 <= i < z.len() ==> (#[trigger] z[i]) == '0',
    ensures
        digits_val(z) == 0,
    decreases z.len(),
{
    if z.len() > 0 {
        lemma_all_zeros_val(z.drop_last());
    }
}

/// A zero-padded rendering holds only digits and reads back to its value.
pub proof fn lemma_dec_str_pad_val(n: nat, w: nat)
    ensures
        dec_str_pad(n, w).len() >= 1 || w == 0,
        all_digits(dec_str_pad(n, w)),
        digits_val(dec_str_pad(n, w)) == n,
{
    lemma_dec_str_val(n);
    if dec_str(n).len() < w {
        let k = (w - dec_str(n).len()) as nat;
        lemma_zeros_chars(k);
        lemma_leading_zeros_val(zeros(k), dec_str(n));
        assert forall|i: int| 0 <= i < dec_str_pad(n, w).len() implies is_digit(
            #[trigger] dec_str_pad(n, w)[i],
        ) by {
            if i >= k {
                assert(dec_str_pad(n, w)[i] == dec_str(n)[i - k]);
            }
        }
    }
}

/// The suffix of a skip: scanning past spaces in a suffix mirrors the
/// scan in the whole.
pub proof fn lemma_skip_spaces_shift(s: Seq<char>, i: int, j: int)
    requires
        0 <= i <= j <= s.len(),
    ensures
        skip_spaces(s, j) == i + skip_spaces(s.skip(i), j - i),
    decreases s.len() - j,
{
    if j < s.len() {
        assert(s.skip(i)[j - i] == s[j]);
        if s[j] == ' ' {
            lemma_skip_spaces_shift(s, i, j + 1);
        }
    }
}

pub proof fn lemma_token_end_shift(s: Seq<char>, i: int, j: int)
    requires
        0 <= i <= j <= s.len(),
    ensures
        token_end(s, j) == i + token_end(s.skip(i), j - i),
    decreases s.len() - j,
{
    if j < s.len() {
        assert(s.skip(i)[j - i] == s[j]);
        if s[j] != ' ' {
            lemma_token_end_shift(s, i, j + 1);
        }
    }
}
} // verus!
