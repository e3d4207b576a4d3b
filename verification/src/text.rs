//! Verified text utilities shared by the parsers and the serializer: ASCII
//! character classes, trimming, splitting, and exact decimal conversion in
//! both directions.

use vstd::prelude::*;
use vstd::string::StrSliceExecFns;

verus! {

broadcast use vstd::string::group_string_axioms;

/// The ASCII whitespace characters, matching what `char::is_whitespace`
/// accepts below code point 128.
pub open spec fn is_ws_char(c: char) -> bool {
    c == ' ' || c == '\t' || c == '\n' || c == '\r' || c == '\u{b}' || c == '\u{c}'
}

pub open spec fn is_digit_char(c: char) -> bool {
    '0' <= c && c <= '9'
}

pub open spec fn digit_val(c: char) -> nat {
    (c as int - 48) as nat
}

pub open spec fn all_digits(s: Seq<char>) -> bool {
    forall|i: int| 0 <= i < s.len() ==> is_digit_char(#[trigger] s[i])
}

/// Numeric value of a digit string, most significant digit first.
pub open spec fn dec_val(s: Seq<char>) -> nat
    decreases s.len(),
{
    if s.len() == 0 {
        0
    } else {
        dec_val(s.drop_last()) * 10 + digit_val(s.last())
    }
}

/// An optional leading `+` sign, accepted by integer parsing.
pub open spec fn strip_plus(s: Seq<char>) -> Seq<char> {
    if s.len() > 0 && s[0] == '+' {
        s.drop_first()
    } else {
        s
    }
}

/// The unsigned-decimal grammar: an optional `+`, then one or more digits,
/// denoting a value of at most `max`.
pub open spec fn uint_ok(s: Seq<char>, max: nat) -> bool {
    let t = strip_plus(s);
    t.len() > 0 && all_digits(t) && dec_val(t) <= max
}

pub open spec fn uint_val(s: Seq<char>) -> nat {
    dec_val(strip_plus(s))
}

/// The signed-decimal grammar for `i64`: an optional sign, then one or more
/// digits, denoting a value within the `i64` range.
pub open spec fn int_ok(s: Seq<char>) -> bool {
    if s.len() > 0 && s[0] == '-' {
        let t = s.drop_first();
        t.len() > 0 && all_digits(t) && dec_val(t) <= 0x8000_0000_0000_0000
    } else {
        uint_ok(s, 0x7fff_ffff_ffff_ffff)
    }
}

pub open spec fn int_val(s: Seq<char>) -> int {
    if s.len() > 0 && s[0] == '-' {
        -(dec_val(s.drop_first()) as int)
    } else {
        uint_val(s) as int
    }
}

pub open spec fn trim_start_spec(s: Seq<char>) -> Seq<char>
    decreases s.len(),
{
    if s.len() == 0 {
        s
    } else if is_ws_char(s[0]) {
        trim_start_spec(s.drop_first())
    } else {
        s
    }
}

pub open spec fn trim_end_spec(s: Seq<char>) -> Seq<char>
    decreases s.len(),
{
    if s.len() == 0 {
        s
    } else if is_ws_char(s.last()) {
        trim_end_spec(s.drop_last())
    } else {
        s
    }
}

/// What `str::trim` leaves of an ASCII string.
pub open spec fn trim_spec(s: Seq<char>) -> Seq<char> {
    trim_end_spec(trim_start_spec(s))
}

/// What `str::split` yields on an ASCII string: the (possibly empty)
/// stretches between occurrences of `sep`.
pub open spec fn split_spec(s: Seq<char>, sep: char) -> Seq<Seq<char>>
    decreases s.len(),
{
    if s.len() == 0 {
        seq![s]
    } else if s[0] == sep {
        seq![Seq::<char>::empty()] + split_spec(s.drop_first(), sep)
    } else {
        let r = split_spec(s.drop_first(), sep);
        seq![seq![s[0]] + r[0]] + r.skip(1)
    }
}

/// What `str::split_whitespace` yields on an ASCII string: the maximal
/// stretches of non-whitespace characters.
pub open spec fn split_ws_spec(s: Seq<char>) -> Seq<Seq<char>>
    decreases s.len(),
{
    if s.len() == 0 {
        Seq::<Seq<char>>::empty()
    } else if is_ws_char(s[0]) {
        split_ws_spec(s.drop_first())
    } else if s.len() == 1 || is_ws_char(s[1]) {
        seq![seq![s[0]]] + split_ws_spec(s.drop_first())
    } else {
        let r = split_ws_spec(s.drop_first());
        seq![seq![s[0]] + r[0]] + r.skip(1)
    }
}

/// The views of a sequence of string slices.
pub open spec fn views_of(parts: Seq<&str>) -> Seq<Seq<char>> {
    parts.map_values(|t: &str| t@)
}

/// The views of a sequence of owned strings.
pub open spec fn string_views(lines: Seq<String>) -> Seq<Seq<char>> {
    lines.map_values(|l: String| l@)
}

proof fn lemma_split_nonempty(s: Seq<char>, sep: char)
    ensures
        split_spec(s, sep).len() >= 1,
    decreases s.len(),
{
    if s.len() != 0 && s[0] != sep {
        lemma_split_nonempty(s.drop_first(), sep);
    }
}

proof fn lemma_split_ws_head_nonempty(s: Seq<char>)
    requires
        s.len() > 0,
        !is_ws_char(s[0]),
    ensures
        split_ws_spec(s).len() >= 1,
{
}

/// Splitting a string whose first `i` characters hold no separator steps
/// directly to the first separator (or to the whole string).
pub proof fn lemma_split_head(s: Seq<char>, sep: char, i: int)
    requires
        0 <= i <= s.len(),
        forall|j: int| 0 <= j < i ==> s[j] != sep,
        i == s.len() || s[i] == sep,
    ensures
        i == s.len() ==> split_spec(s, sep) =~~= seq![s],
        i < s.len() ==> split_spec(s, sep) =~~= seq![s.take(i)] + split_spec(
            s.skip(i + 1),
            sep,
        ),
    decreases i,
{
    if i == 0 {
        if i < s.len() {
            assert(s.take(0) =~= Seq::<char>::empty());
            assert(s.skip(1) =~= s.drop_first());
        }
    } else {
        lemma_split_head(s.drop_first(), sep, i - 1);
        lemma_split_nonempty(s.drop_first(), sep);
        if i == s.len() {
            assert(split_spec(s.drop_first(), sep) =~~= seq![s.drop_first()]);
            assert(seq![s[0]] + s.drop_first() =~= s);
        } else {
            assert(s.drop_first().take(i - 1) =~= s.take(i).drop_first());
            assert(s.drop_first().skip(i) =~= s.skip(i + 1));
            assert(seq![s[0]] + s.take(i).drop_first() =~= s.take(i));
        }
    }
}

/// Leading whitespace does not change the whitespace split.
proof fn lemma_split_ws_skip(s: Seq<char>, i: int)
    requires
        0 <= i <= s.len(),
        forall|j: int| 0 <= j < i ==> is_ws_char(#[trigger] s[j]),
    ensures
        split_ws_spec(s) =~~= split_ws_spec(s.skip(i)),
    decreases i,
{
    if i > 0 {
        lemma_split_ws_skip(s.drop_first(), i - 1);
        assert(s.drop_first().skip(i - 1) =~= s.skip(i));
    } else {
        assert(s.skip(0) =~= s);
    }
}

/// A token runs from a non-whitespace head to the next whitespace
/// character (or the end of the string).
proof fn lemma_split_ws_token(s: Seq<char>, j: int)
    requires
        0 < j <= s.len(),
        forall|k: int| 0 <= k < j ==> !is_ws_char(#[trigger] s[k]),
        j == s.len() || is_ws_char(s[j]),
    ensures
        split_ws_spec(s) =~~= seq![s.take(j)] + split_ws_spec(s.skip(j)),
    decreases j,
{
    if j == 1 {
        assert(s.take(1) =~= seq![s[0]]);
        assert(s.skip(1) =~= s.drop_first());
    } else {
        lemma_split_ws_token(s.drop_first(), j - 1);
        lemma_split_ws_head_nonempty(s.drop_first());
        assert(s.drop_first().take(j - 1) =~= s.take(j).drop_first());
        assert(s.drop_first().skip(j - 1) =~= s.skip(j));
        assert(seq![s[0]] + s.take(j).drop_first() =~= s.take(j));
    }
}

/// A digit-string prefix never denotes more than the whole string.
proof fn lemma_dec_val_take_le(s: Seq<char>, i: int)
    requires
        0 <= i <= s.len(),
        all_digits(s),
    ensures
        dec_val(s.take(i)) <= dec_val(s),
    decreases s.len() - i,
{
    if i == s.len() {
        assert(s.take(i) =~= s);
    } else {
        assert(s.take(i + 1).drop_last() =~= s.take(i));
        assert(dec_val(s.take(i + 1)) == dec_val(s.take(i)) * 10 + digit_val(s.take(i + 1).last()));
        lemma_dec_val_take_le(s, i + 1);
    }
}

/// Relies on `str::len`: the byte length, which on an ASCII string is the
/// character count.
pub fn str_len(s: &str) -> (n: usize)
    requires
        s.is_ascii(),
    ensures
        n == s@.len(),
{
    s.unicode_len()
}

/// Whether the character at `i` is ASCII whitespace.
fn ws_at(s: &str, i: usize) -> (r: bool)
    requires
        s.is_ascii(),
        i < s@.len(),
    ensures
        r == is_ws_char(s@[i as int]),
{
    let b = s.get_ascii(i);
    b == 32 || (9 <= b && b <= 13)
}

/// Relies on `str::trim`: removes leading and trailing whitespace; on an
/// ASCII string that is exactly `trim_spec`.
pub fn trim(s: &str) -> (r: &str)
    requires
        s.is_ascii(),
    ensures
        r@ == trim_spec(s@),
        r.is_ascii(),
{
    let len = str_len(s);
    let mut start: usize = 0;
    while start < len && ws_at(s, start)
        invariant
            s.is_ascii(),
            len == s@.len(),
            0 <= start <= len,
            forall|j: int| 0 <= j < start ==> is_ws_char(#[trigger] s@[j]),
        decreases len - start,
    {
        start = start + 1;
    }
    let mut end: usize = len;
    while end > start && ws_at(s, end - 1)
        invariant
            s.is_ascii(),
            len == s@.len(),
            0 <= start <= end <= len,
            forall|j: int| 0 <= j < start ==> is_ws_char(#[trigger] s@[j]),
            forall|j: int| end <= j < len ==> is_ws_char(#[trigger] s@[j]),
        decreases end,
    {
        end = end - 1;
    }
    proof {
        lemma_trim_exec_matches(s@, start as int, end as int);
    }
    s.substring_ascii(start, end)
}

proof fn lemma_trim_start_skip(s: Seq<char>, i: int)
    requires
        0 <= i <= s.len(),
        forall|j: int| 0 <= j < i ==> is_ws_char(#[trigger] s[j]),
    ensures
        trim_start_spec(s) == trim_start_spec(s.skip(i)),
    decreases i,
{
    if i > 0 {
        lemma_trim_start_skip(s.drop_first(), i - 1);
        assert(s.drop_first().skip(i - 1) =~= s.skip(i));
    } else {
        assert(s.skip(0) =~= s);
    }
}

proof fn lemma_trim_end_take(s: Seq<char>, i: int)
    requires
        0 <= i <= s.len(),
        forall|j: int| i <= j < s.len() ==> is_ws_char(#[trigger] s[j]),
    ensures
        trim_end_spec(s) == trim_end_spec(s.take(i)),
    decreases s.len() - i,
{
    if i < s.len() {
        assert(s.drop_last() =~= s.take(s.len() - 1));
        lemma_trim_end_take(s.take(s.len() - 1), i);
        assert(s.take(s.len() - 1).take(i) =~= s.take(i));
    } else {
        assert(s.take(i) =~= s);
    }
}

/// After scanning whitespace from both sides, the middle part is the trim.
proof fn lemma_trim_exec_matches(s: Seq<char>, start: int, end: int)
    requires
        0 <= start <= end <= s.len(),
        forall|j: int| 0 <= j < start ==> is_ws_char(#[trigger] s[j]),
        forall|j: int| end <= j < s.len() ==> is_ws_char(#[trigger] s[j]),
        start == end || !is_ws_char(s[start]),
        start == end || !is_ws_char(s[end - 1]),
    ensures
        trim_spec(s) =~= s.subrange(start, end),
{
    lemma_trim_start_skip(s, start);
    let t = s.skip(start);
    if start == end {
        if t.len() > 0 {
            assert(is_ws_char(t[0]));
        }
        lemma_trim_start_all_ws(t);
        assert(trim_start_spec(s) =~= Seq::<char>::empty());
    } else {
        assert(!is_ws_char(t[0]));
        assert(trim_start_spec(t) == t);
        lemma_trim_end_take(t, end - start);
        let u = t.take(end - start);
        assert(!is_ws_char(u.last()));
        assert(trim_end_spec(u) == u);
        assert(u =~= s.subrange(start, end));
    }
}

proof fn lemma_trim_start_all_ws(s: Seq<char>)
    requires
        forall|j: int| 0 <= j < s.len() ==> is_ws_char(#[trigger] s[j]),
    ensures
        trim_start_spec(s) =~= Seq::<char>::empty(),
    decreases s.len(),
{
    if s.len() > 0 {
        lemma_trim_start_all_ws(s.drop_first());
    }
}

/// Relies on `str::split(sep)` semantics: the stretches between separator
/// occurrences, empty stretches included.
pub fn split_char(s: &str, sep: u8) -> (parts: Vec<&str>)
    requires
        s.is_ascii(),
        sep < 128,
    ensures
        views_of(parts@) =~~= split_spec(s@, sep as char),
        forall|i: int| 0 <= i < parts@.len() ==> (#[trigger] parts@[i]).is_ascii(),
{
    let len = str_len(s);
    let mut parts: Vec<&str> = Vec::new();
    let mut start: usize = 0;
    let mut j: usize = 0;
    proof {
        assert(s@.skip(0) =~= s@);
        assert(views_of(parts@) =~~= Seq::<Seq<char>>::empty());
    }
    while j < len
        invariant
            s.is_ascii(),
            sep < 128,
            len == s@.len(),
            0 <= start <= j <= len,
            forall|k: int| start <= k < j ==> s@[k] != sep as char,
            split_spec(s@, sep as char) =~~= views_of(parts@) + split_spec(
                s@.skip(start as int),
                sep as char,
            ),
            forall|i: int| 0 <= i < parts@.len() ==> (#[trigger] parts@[i]).is_ascii(),
        decreases len - j,
    {
        let b = s.get_ascii(j);
        if b == sep {
            let tok = s.substring_ascii(start, j);
            proof {
                let rest = s@.skip(start as int);
                lemma_split_head(rest, sep as char, j - start);
                assert(rest.take(j - start) =~= s@.subrange(start as int, j as int));
                assert(rest.skip(j - start + 1) =~= s@.skip(j + 1));
                assert(views_of(parts@.push(tok)) =~~= views_of(parts@) + seq![tok@]);
            }
            parts.push(tok);
            start = j + 1;
        }
        j = j + 1;
    }
    let tok = s.substring_ascii(start, len);
    proof {
        let rest = s@.skip(start as int);
        lemma_split_head(rest, sep as char, len - start);
        assert(rest.take(len - start) =~= s@.subrange(start as int, len as int));
        assert(views_of(parts@.push(tok)) =~~= views_of(parts@) + seq![tok@]);
    }
    parts.push(tok);
    parts
}

/// Relies on `str::split_whitespace` semantics: the maximal stretches of
/// non-whitespace characters.
pub fn split_ws(s: &str) -> (parts: Vec<&str>)
    requires
        s.is_ascii(),
    ensures
        views_of(parts@) =~~= split_ws_spec(s@),
        forall|i: int| 0 <= i < parts@.len() ==> (#[trigger] parts@[i]).is_ascii(),
{
    let len = str_len(s);
    let mut parts: Vec<&str> = Vec::new();
    let mut j: usize = 0;
    proof {
        assert(s@.skip(0) =~= s@);
        assert(views_of(parts@) =~~= Seq::<Seq<char>>::empty());
    }
    while j < len
        invariant
            s.is_ascii(),
            len == s@.len(),
            0 <= j <= len,
            split_ws_spec(s@) =~~= views_of(parts@) + split_ws_spec(s@.skip(j as int)),
            forall|i: int| 0 <= i < parts@.len() ==> (#[trigger] parts@[i]).is_ascii(),
        decreases len - j,
    {
        let b = s.get_ascii(j);
        if b == 32 || (9 <= b && b <= 13) {
            proof {
                let rest = s@.skip(j as int);
                lemma_split_ws_skip(rest, 1);
                assert(rest.skip(1) =~= s@.skip(j + 1));
            }
            j = j + 1;
        } else {
            let start = j;
            j = j + 1;
            while j < len && !ws_at(s, j)
                invariant
                    s.is_ascii(),
                    len == s@.len(),
                    0 <= start < j <= len,
                    forall|k: int| start <= k < j ==> !is_ws_char(#[trigger] s@[k]),
                decreases len - j,
            {
                j = j + 1;
            }
            let tok = s.substring_ascii(start, j);
            proof {
                let rest = s@.skip(start as int);
                lemma_split_ws_token(rest, j - start);
                assert(rest.take(j - start) =~= s@.subrange(start as int, j as int));
                assert(rest.skip(j - start) =~= s@.skip(j as int));
                assert(views_of(parts@.push(tok)) =~~= views_of(parts@) + seq![tok@]);
            }
            parts.push(tok);
        }
    }
    proof {
        assert(s@.skip(len as int) =~= Seq::<char>::empty());
        assert(views_of(parts@) + split_ws_spec(Seq::<char>::empty()) =~~= views_of(parts@));
    }
    parts
}

/// Parses an unsigned decimal of at most `max`, accepting a leading `+`,
/// exactly as `str::parse` for an unsigned type bounded by `max` does.
pub fn parse_u64_max(s: &str, max: u64) -> (r: Option<u64>)
    requires
        s.is_ascii(),
    ensures
        r is Some <==> uint_ok(s@, max as nat),
        r is Some ==> r->0 as nat == uint_val(s@),
{
    let len = str_len(s);
    let offset: usize = if len > 0 && s.get_ascii(0) == 43 {
        1
    } else {
        0
    };
    let ghost t = strip_plus(s@);
    proof {
        assert(t =~= s@.skip(offset as int));
    }
    if offset >= len {
        return None;
    }
    let mut acc: u64 = 0;
    let mut j: usize = offset;
    while j < len
        invariant
            s.is_ascii(),
            len == s@.len(),
            offset <= j <= len,
            t == strip_plus(s@),
            t =~= s@.skip(offset as int),
            t.len() > 0,
            forall|k: int| offset <= k < j ==> is_digit_char(#[trigger] s@[k]),
            acc as nat == dec_val(s@.subrange(offset as int, j as int)),
            acc <= max,
        decreases len - j,
    {
        let b = s.get_ascii(j);
        if b < 48 || b > 57 {
            assert(!is_digit_char(t[j - offset]));
            return None;
        }
        let d = (b - 48) as u64;
        let overflow = acc > max / 10 || (acc == max / 10 && d > max % 10);
        proof {
            assert((acc * 10 + d > max) == overflow) by (nonlinear_arith)
                requires
                    d <= 9,
                    overflow == (acc > max / 10 || (acc == max / 10 && d > max % 10)),
                    max / 10 == (max - max % 10) / 10,
                    max % 10 == max - 10 * (max / 10),
                    0 <= max % 10 <= 9,
            ;
        }
        if overflow {
            proof {
                let pre = s@.subrange(offset as int, j + 1);
                assert(pre.drop_last() =~= s@.subrange(offset as int, j as int));
                assert(dec_val(pre) == acc * 10 + d);
                if uint_ok(s@, max as nat) {
                    assert(pre =~= t.take(j + 1 - offset));
                    lemma_dec_val_take_le(t, j + 1 - offset);
                }
            }
            return None;
        }
        proof {
            let pre = s@.subrange(offset as int, j + 1);
            assert(pre.drop_last() =~= s@.subrange(offset as int, j as int));
            assert(pre.last() == s@[j as int]);
        }
        acc = acc * 10 + d;
        j = j + 1;
    }
    proof {
        assert(s@.subrange(offset as int, len as int) =~= t);
    }
    Some(acc)
}

/// Parses a signed decimal within the `i64` range, exactly as
/// `str::parse::<i64>` does.
pub fn parse_i64(s: &str) -> (r: Option<i64>)
    requires
        s.is_ascii(),
    ensures
        r is Some <==> int_ok(s@),
        r is Some ==> r->0 as int == int_val(s@),
{
    let len = str_len(s);
    if len > 0 && s.get_ascii(0) == 45 {
        let rest = s.substring_ascii(1, len);
        proof {
            assert(rest@ =~= s@.drop_first());
        }
        if str_len(rest) > 0 && rest.get_ascii(0) == 43 {
            proof {
                assert(!is_digit_char(rest@[0]));
            }
            return None;
        }
        proof {
            assert(strip_plus(rest@) == rest@);
        }
        match parse_u64_max(rest, 0x8000_0000_0000_0000) {
            Some(n) => {
                if n == 0x8000_0000_0000_0000 {
                    Some(i64::MIN)
                } else {
                    Some(-(n as i64))
                }
            },
            None => None,
        }
    } else {
        match parse_u64_max(s, 0x7fff_ffff_ffff_ffff) {
            Some(n) => Some(n as i64),
            None => None,
        }
    }
}

pub open spec fn digit_char(d: int) -> char {
    ((48 + d) as u8) as char
}

/// The decimal rendering of a number, most significant digit first.
pub open spec fn dec_str(n: nat) -> Seq<char>
    decreases n,
{
    if n < 10 {
        seq![digit_char(n as int)]
    } else {
        dec_str(n / 10).push(digit_char((n % 10) as int))
    }
}

/// Decimal rendering produces digits and reads back as the same number.
pub proof fn lemma_dec_str_val(n: nat)
    ensures
        dec_str(n).len() >= 1,
        all_digits(dec_str(n)),
        is_ascii_chars(dec_str(n)),
        dec_val(dec_str(n)) == n,
    decreases n,
{
    if n < 10 {
        assert(dec_str(n) =~= seq![digit_char(n as int)]);
        assert(dec_val(dec_str(n).drop_last()) == 0) by {
            assert(dec_str(n).drop_last() =~= Seq::<char>::empty());
        }
    } else {
        lemma_dec_str_val(n / 10);
        let s = dec_str(n);
        assert(s.drop_last() =~= dec_str(n / 10));
        assert(dec_val(s) == (n / 10) * 10 + n % 10);
        assert((n / 10) * 10 + n % 10 == n) by (nonlinear_arith);
        assert forall|i: int| 0 <= i < s.len() implies is_digit_char(#[trigger] s[i]) by {
            if i < s.len() - 1 {
                assert(s[i] == dec_str(n / 10)[i]);
            }
        }
        assert forall|i: int| 0 <= i < s.len() implies '\0' <= #[trigger] s[i] <= '\u{7f}' by {
            if i < s.len() - 1 {
                assert(s[i] == dec_str(n / 10)[i]);
            }
        }
    }
}

pub open spec fn is_ascii_chars(s: Seq<char>) -> bool {
    vstd::utf8::is_ascii_chars(s)
}

/// Relies on `String::from_utf8`: ASCII bytes decode to the string whose
/// characters match the bytes one for one.
#[verifier::external_body]
fn string_from_ascii(bytes: Vec<u8>) -> (r: String)
    requires
        forall|i: int| 0 <= i < bytes@.len() ==> bytes@[i] < 128,
    ensures
        r@.len() == bytes@.len(),
        forall|i: int| 0 <= i < bytes@.len() ==> r@[i] == bytes@[i] as char,
{
    match String::from_utf8(bytes) {
        Ok(s) => s,
        Err(_) => String::new(),
    }
}

/// Renders a number in decimal, exactly `dec_str`.
pub fn to_dec_string(n: u64) -> (r: String)
    ensures
        r@ =~= dec_str(n as nat),
{
    let mut rev: Vec<u8> = Vec::new();
    let mut m = n;
    loop
        invariant_except_break
            dec_str(n as nat) =~= dec_str(m as nat) + digits_of(rev@),
            forall|i: int| 0 <= i < rev@.len() ==> 48 <= #[trigger] rev@[i] < 58,
        ensures
            dec_str(n as nat) =~= digits_of(rev@),
            forall|i: int| 0 <= i < rev@.len() ==> 48 <= #[trigger] rev@[i] < 58,
        decreases m,
    {
        let ghost old_rev = rev@;
        let ghost old_m = m as nat;
        let d = (m % 10) as u8 + 48;
        rev.push(d);
        proof {
            if old_m >= 10 {
                assert(dec_str(old_m) =~= dec_str(old_m / 10).push(digit_char((old_m % 10) as int)));
                assert(digits_of(rev@) =~= seq![digit_char((old_m % 10) as int)] + digits_of(
                    old_rev,
                ));
                assert(dec_str(old_m / 10) + digits_of(rev@) =~= dec_str(old_m) + digits_of(
                    old_rev,
                ));
            } else {
                assert(digits_of(rev@) =~= seq![digit_char(old_m as int)] + digits_of(old_rev));
                assert(dec_str(old_m) + digits_of(old_rev) =~= digits_of(rev@));
            }
        }
        if m < 10 {
            break;
        }
        m = m / 10;
    }
    let mut bytes: Vec<u8> = Vec::new();
    let mut k = rev.len();
    while k > 0
        invariant
            0 <= k <= rev@.len(),
            forall|i: int| 0 <= i < rev@.len() ==> 48 <= #[trigger] rev@[i] < 58,
            bytes@.len() == rev@.len() - k,
            forall|i: int|
                0 <= i < bytes@.len() ==> #[trigger] bytes@[i] == rev@[rev@.len() - 1 - i],
        decreases k,
    {
        k = k - 1;
        let b = rev[k];
        bytes.push(b);
    }
    proof {
        assert(digits_of(rev@) =~= bytes@.map_values(|b: u8| b as char));
        assert(forall|i: int| 0 <= i < bytes@.len() ==> #[trigger] bytes@[i] < 128);
    }
    let r = string_from_ascii(bytes);
    proof {
        assert(r@ =~= bytes@.map_values(|b: u8| b as char));
    }
    r
}

/// The characters of a reversed digit-byte buffer, oldest byte last.
pub open spec fn digits_of(rev: Seq<u8>) -> Seq<char> {
    Seq::new(rev.len(), |i: int| rev[rev.len() - 1 - i] as char)
}

/// Compares two ASCII strings character by character.
pub fn str_eq(a: &str, b: &str) -> (r: bool)
    requires
        a.is_ascii(),
        b.is_ascii(),
    ensures
        r == (a@ == b@),
{
    let la = str_len(a);
    let lb = str_len(b);
    if la != lb {
        proof {
            assert(a@.len() != b@.len());
        }
        return false;
    }
    let mut i: usize = 0;
    while i < la
        invariant
            a.is_ascii(),
            b.is_ascii(),
            la == a@.len(),
            la == b@.len(),
            0 <= i <= la,
            forall|j: int| 0 <= j < i ==> a@[j] == b@[j],
        decreases la - i,
    {
        if a.get_ascii(i) != b.get_ascii(i) {
            return false;
        }
        i = i + 1;
    }
    proof {
        assert(a@ =~= b@);
    }
    true
}

/// What `str::split("->")` yields on an ASCII string: the stretches
/// between non-overlapping occurrences of the two-character arrow, found
/// left to right.
pub open spec fn split_arrow_spec(s: Seq<char>) -> Seq<Seq<char>>
    decreases s.len(),
{
    if s.len() < 2 {
        seq![s]
    } else if s[0] == '-' && s[1] == '>' {
        seq![Seq::<char>::empty()] + split_arrow_spec(s.skip(2))
    } else {
        let r = split_arrow_spec(s.drop_first());
        seq![seq![s[0]] + r[0]] + r.skip(1)
    }
}

proof fn lemma_split_arrow_nonempty(s: Seq<char>)
    ensures
        split_arrow_spec(s).len() >= 1,
    decreases s.len(),
{
    if s.len() >= 2 && !(s[0] == '-' && s[1] == '>') {
        lemma_split_arrow_nonempty(s.drop_first());
    }
}

/// Splitting a string whose first `i` characters start no arrow steps
/// directly to the first arrow (or to the whole string).
pub proof fn lemma_split_arrow_head(s: Seq<char>, i: int)
    requires
        0 <= i <= s.len(),
        forall|j: int| 0 <= j < i && j + 2 <= s.len() ==> !((#[trigger] s[j]) == '-' && s[j + 1] == '>'),
        (i + 2 <= s.len() && s[i] == '-' && s[i + 1] == '>') || i >= s.len() - 1,
    ensures
        (i + 2 <= s.len() && s[i] == '-' && s[i + 1] == '>') ==> split_arrow_spec(s)
            =~~= seq![s.take(i)] + split_arrow_spec(s.skip(i + 2)),
        !(i + 2 <= s.len() && s[i] == '-' && s[i + 1] == '>') ==> split_arrow_spec(s) =~~= seq![s],
    decreases i,
{
    if i + 2 <= s.len() && s[i] == '-' && s[i + 1] == '>' {
        if i == 0 {
            assert(s.take(0) =~= Seq::<char>::empty());
        } else {
            lemma_split_arrow_head(s.drop_first(), i - 1);
            lemma_split_arrow_nonempty(s.drop_first());
            assert(s.drop_first().take(i - 1) =~= s.take(i).drop_first());
            assert(s.drop_first().skip(i + 1) =~= s.skip(i + 2));
            assert(seq![s[0]] + s.take(i).drop_first() =~= s.take(i));
        }
    } else {
        if s.len() < 2 {
        } else {
            assert(!(s[0] == '-' && s[1] == '>'));
            lemma_split_arrow_head(s.drop_first(), if i - 1 >= 0 { i - 1 } else { 0 });
            lemma_split_arrow_nonempty(s.drop_first());
            assert(seq![s[0]] + s.drop_first() =~= s);
        }
    }
}

/// Relies on `str::split("->")` semantics: non-overlapping matches taken
/// left to right.
pub fn split_arrow(s: &str) -> (parts: Vec<&str>)
    requires
        s.is_ascii(),
    ensures
        views_of(parts@) =~~= split_arrow_spec(s@),
        forall|i: int| 0 <= i < parts@.len() ==> (#[trigger] parts@[i]).is_ascii(),
{
    let len = str_len(s);
    let mut parts: Vec<&str> = Vec::new();
    let mut start: usize = 0;
    let mut j: usize = 0;
    proof {
        assert(s@.skip(0) =~= s@);
        assert(views_of(parts@) =~~= Seq::<Seq<char>>::empty());
    }
    while j < len
        invariant
            s.is_ascii(),
            len == s@.len(),
            0 <= start <= j <= len,
            forall|k: int|
                start <= k < j && k + 2 <= s@.len() ==> !((#[trigger] s@[k]) == '-' && s@[k + 1]
                    == '>'),
            split_arrow_spec(s@) =~~= views_of(parts@) + split_arrow_spec(s@.skip(start as int)),
            forall|i: int| 0 <= i < parts@.len() ==> (#[trigger] parts@[i]).is_ascii(),
        decreases len - j,
    {
        if j + 1 >= len {
            j = j + 1;
            continue ;
        }
        let a = s.get_ascii(j);
        let b = s.get_ascii(j + 1);
        if a == 45 && b == 62 {
            let tok = s.substring_ascii(start, j);
            proof {
                let rest = s@.skip(start as int);
                lemma_split_arrow_head(rest, j - start);
                assert(rest.take(j - start) =~= s@.subrange(start as int, j as int));
                assert(rest.skip(j - start + 2) =~= s@.skip(j + 2));
                assert(views_of(parts@.push(tok)) =~~= views_of(parts@) + seq![tok@]);
            }
            parts.push(tok);
            start = j + 2;
            j = j + 2;
        } else {
            j = j + 1;
        }
    }
    let tok = s.substring_ascii(start, len);
    proof {
        let rest = s@.skip(start as int);
        lemma_split_arrow_head(rest, if len - start - 1 >= 0 { len - start - 1 } else { 0 });
        assert(rest.take(len - start) =~= s@.subrange(start as int, len as int));
        assert(rest =~= s@.subrange(start as int, len as int));
        assert(views_of(parts@.push(tok)) =~~= views_of(parts@) + seq![tok@]);
    }
    parts.push(tok);
    parts
}


/// Trimming leaves a string without surrounding whitespace unchanged.
pub proof fn lemma_trim_id(s: Seq<char>)
    requires
        forall|i: int| 0 <= i < s.len() ==> !is_ws_char(#[trigger] s[i]),
    ensures
        trim_spec(s) == s,
{
    if s.len() > 0 {
        assert(!is_ws_char(s[0]));
        assert(!is_ws_char(s.last()));
    }
}


/// Splitting distributes over a separator placed between two strings.
pub proof fn lemma_split_concat(x: Seq<char>, y: Seq<char>, sep: char)
    ensures
        split_spec(x + seq![sep] + y, sep) =~~= split_spec(x, sep) + split_spec(y, sep),
    decreases x.len(),
{
    let s = x + seq![sep] + y;
    if x.len() == 0 {
        assert(s =~= seq![sep] + y);
        assert(s[0] == sep);
        assert(s.drop_first() =~= y);
        assert(split_spec(x, sep) =~= seq![x]);
    } else {
        lemma_split_concat(x.drop_first(), y, sep);
        lemma_split_nonempty(x.drop_first(), sep);
        assert(s.drop_first() =~= x.drop_first() + seq![sep] + y);
        if x[0] == sep {
            assert(s[0] == sep);
        } else {
            let r = split_spec(s.drop_first(), sep);
            let rx = split_spec(x.drop_first(), sep);
            let ry = split_spec(y, sep);
            assert(r =~~= rx + ry);
            assert(r[0] == rx[0]);
            assert(r.skip(1) =~~= rx.skip(1) + ry);
            assert(seq![seq![x[0]] + rx[0]] + rx.skip(1) =~~= split_spec(x, sep));
        }
    }
}

/// Trimming strips one leading or trailing blank from a string that has
/// no whitespace at its own ends.
pub proof fn lemma_trim_around(x: Seq<char>)
    requires
        x.len() > 0,
        !is_ws_char(x[0]),
        !is_ws_char(x.last()),
    ensures
        trim_spec(x) == x,
        trim_spec(seq![' '] + x) == x,
        trim_spec(x.push(' ')) == x,
{
    assert(trim_start_spec(x) == x);
    assert(trim_end_spec(x) == x);
    let lead = seq![' '] + x;
    assert(is_ws_char(lead[0]));
    assert(lead.drop_first() =~= x);
    let tail = x.push(' ');
    assert(!is_ws_char(tail[0]));
    assert(trim_start_spec(tail) == tail);
    assert(is_ws_char(tail.last()));
    assert(tail.drop_last() =~= x);
}

} // verus!
