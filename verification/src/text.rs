//! Text: comparison, decimal numerals and concatenation.
use vstd::prelude::*;
use vstd::utf8::encode_utf8;

verus! {

/// Two strings hold the same characters exactly when they hold the same bytes.
pub proof fn lemma_encode_injective(a: Seq<char>, b: Seq<char>)
    ensures
        encode_utf8(a) == encode_utf8(b) <==> a == b,
{
    if encode_utf8(a) == encode_utf8(b) {
        vstd::utf8::encode_utf8_decode_utf8(a);
        vstd::utf8::encode_utf8_decode_utf8(b);
    }
}

/// Byte slices compared for equality.
pub fn bytes_eq(a: &[u8], b: &[u8]) -> (r: bool)
    ensures
        r == (a@ == b@),
{
    if a.len() != b.len() {
        return false;
    }
    let mut i: usize = 0;
    while i < a.len()
        invariant
            a@.len() == b@.len(),
            i <= a@.len(),
            forall|k: int| 0 <= k < i ==> a@[k] == b@[k],
        decreases a@.len() - i,
    {
        if a[i] != b[i] {
            return false;
        }
        i = i + 1;
    }
    assert(a@ =~= b@);
    true
}

/// Strings compared for equality.
pub fn str_eq(a: &str, b: &str) -> (r: bool)
    ensures
        r == (a@ == b@),
{
    proof {
        lemma_encode_injective(a@, b@);
    }
    bytes_eq(a.as_bytes(), b.as_bytes())
}

/// Lexicographic order of byte sequences, a proper prefix coming first.
pub open spec fn bytes_less(a: Seq<u8>, b: Seq<u8>) -> bool
    decreases a.len(),
{
    if b.len() == 0 {
        false
    } else if a.len() == 0 {
        true
    } else if a[0] != b[0] {
        a[0] < b[0]
    } else {
        bytes_less(a.skip(1), b.skip(1))
    }
}

/// The order of strings: by their bytes.
pub open spec fn text_less(a: Seq<char>, b: Seq<char>) -> bool {
    bytes_less(encode_utf8(a), encode_utf8(b))
}

proof fn lemma_bytes_less_at(a: Seq<u8>, b: Seq<u8>, n: int)
    requires
        0 <= n <= a.len(),
        n <= b.len(),
        forall|k: int| 0 <= k < n ==> a[k] == b[k],
    ensures
        bytes_less(a, b) == bytes_less(a.skip(n), b.skip(n)),
    decreases n,
{
    if n == 0 {
        assert(a.skip(0) =~= a);
        assert(b.skip(0) =~= b);
    } else {
        assert(a[0] == b[0]);
        assert forall|k: int| 0 <= k < n - 1 implies a.skip(1)[k] == b.skip(1)[k] by {
            assert(a[k + 1] == b[k + 1]);
        }
        lemma_bytes_less_at(a.skip(1), b.skip(1), n - 1);
        assert(a.skip(1).skip(n - 1) =~= a.skip(n));
        assert(b.skip(1).skip(n - 1) =~= b.skip(n));
    }
}

/// Whether the bytes of `a` come before those of `b`.
pub fn slice_less(a: &[u8], b: &[u8]) -> (r: bool)
    ensures
        r == bytes_less(a@, b@),
{
    let mut i: usize = 0;
    while i < a.len() && i < b.len() && a[i] == b[i]
        invariant
            i <= a@.len(),
            i <= b@.len(),
            forall|k: int| 0 <= k < i ==> a@[k] == b@[k],
        decreases a@.len() - i,
    {
        i = i + 1;
    }
    proof {
        lemma_bytes_less_at(a@, b@, i as int);
        if i < a@.len() {
            assert(a@.skip(i as int)[0] == a@[i as int]);
        }
        if i < b@.len() {
            assert(b@.skip(i as int)[0] == b@[i as int]);
        }
    }
    if i >= b.len() {
        false
    } else if i >= a.len() {
        true
    } else {
        a[i] < b[i]
    }
}

/// Whether `a` comes before `b`.
pub fn str_less(a: &str, b: &str) -> (r: bool)
    ensures
        r == text_less(a@, b@),
{
    slice_less(a.as_bytes(), b.as_bytes())
}

/// `bytes_less` is a strict total order.
pub proof fn lemma_bytes_less_total(a: Seq<u8>, b: Seq<u8>)
    ensures
        a == b ==> !bytes_less(a, b),
        a != b ==> bytes_less(a, b) != bytes_less(b, a),
    decreases a.len(),
{
    if a.len() > 0 && b.len() > 0 {
        if a[0] == b[0] {
            lemma_bytes_less_total(a.skip(1), b.skip(1));
            if a.skip(1) == b.skip(1) {
                assert forall|k: int| 0 <= k < a.len() implies a[k] == b[k] by {
                    if k > 0 {
                        assert(a[k] == a.skip(1)[k - 1]);
                        assert(b[k] == b.skip(1)[k - 1]);
                    }
                }
                assert(a.len() == a.skip(1).len() + 1);
                assert(b.len() == b.skip(1).len() + 1);
                assert(a =~= b);
            }
        }
    } else if a.len() == 0 && b.len() == 0 {
        assert(a =~= b);
    }
}

/// `bytes_less` is transitive.
pub proof fn lemma_bytes_less_transitive(a: Seq<u8>, b: Seq<u8>, c: Seq<u8>)
    requires
        bytes_less(a, b),
        bytes_less(b, c),
    ensures
        bytes_less(a, c),
    decreases a.len(),
{
    if a.len() > 0 && a[0] == b[0] && b[0] == c[0] {
        lemma_bytes_less_transitive(a.skip(1), b.skip(1), c.skip(1));
    }
}

/// The characters of a string.
pub fn str_chars(s: &str) -> (v: Vec<char>)
    ensures
        v@ == s@,
{
    let mut v: Vec<char> = Vec::new();
    for c in it: s.chars()
        invariant
            it.seq() == s@,
            v@ == it.seq().take(it.index() as int),
    {
        v.push(c);
    }
    v
}

/// The decimal digit with value `d`.
pub open spec fn digit_char(d: nat) -> char {
    (48 + d) as char
}

/// The decimal numeral of a natural number, without leading zeros.
pub open spec fn digits(n: nat) -> Seq<char>
    decreases n,
{
    if n < 10 {
        seq![digit_char(n)]
    } else {
        digits(n / 10).push(digit_char(n % 10))
    }
}

/// The decimal numeral of an integer.
pub open spec fn decimal(v: int) -> Seq<char> {
    if v < 0 {
        seq!['-'] + digits((-v) as nat)
    } else {
        digits(v as nat)
    }
}

fn digit_text(d: u8) -> (s: &'static str)
    requires
        d < 10,
    ensures
        s@ == seq![digit_char(d as nat)],
{
    proof {
        reveal_strlit("0");
        reveal_strlit("1");
        reveal_strlit("2");
        reveal_strlit("3");
        reveal_strlit("4");
        reveal_strlit("5");
        reveal_strlit("6");
        reveal_strlit("7");
        reveal_strlit("8");
        reveal_strlit("9");
    }
    let s: &'static str = match d {
        0 => "0",
        1 => "1",
        2 => "2",
        3 => "3",
        4 => "4",
        5 => "5",
        6 => "6",
        7 => "7",
        8 => "8",
        _ => "9",
    };
    assert(s@ =~= seq![digit_char(d as nat)]);
    s
}

fn digits_text(n: u128) -> (s: String)
    ensures
        s@ == digits(n as nat),
    decreases n,
{
    if n < 10 {
        String::from_str(digit_text(n as u8))
    } else {
        let mut s = digits_text(n / 10);
        s.append(digit_text((n % 10) as u8));
        assert(s@ =~= digits(n as nat));
        s
    }
}

/// The decimal numeral of a number.
pub fn int_text(v: i128) -> (s: String)
    requires
        v > i128::MIN,
    ensures
        s@ == decimal(v as int),
{
    if v < 0 {
        let mut s = String::from_str("-");
        s.append(digits_text((-v) as u128).as_str());
        proof {
            reveal_strlit("-");
            assert("-"@ =~= seq!['-']);
        }
        s
    } else {
        digits_text(v as u128)
    }
}

/// Whether every character is a decimal digit.
pub open spec fn all_digits(s: Seq<char>) -> bool {
    forall|i: int| 0 <= i < s.len() ==> '0' <= #[trigger] s[i] <= '9'
}

/// The number that a run of decimal digits stands for.
pub open spec fn digits_value(s: Seq<char>) -> nat
    decreases s.len(),
{
    if s.len() == 0 {
        0
    } else {
        digits_value(s.drop_last()) * 10 + ((s.last() as int - 48) as nat)
    }
}

/// The digits of a natural number give it back.
proof fn lemma_digits_read_back(n: nat)
    ensures
        digits(n).len() > 0,
        digits(n)[0] != '-',
        digits_value(digits(n)) == n,
    decreases n,
{
    reveal_with_fuel(digits_value, 2);
    if n < 10 {
        assert(digits(n).drop_last() =~= Seq::<char>::empty());
    } else {
        lemma_digits_read_back(n / 10);
        assert(digits(n).drop_last() =~= digits(n / 10));
    }
}

/// Different integers have different numerals.
pub proof fn law_decimal_injective(a: int, b: int)
    requires
        decimal(a) == decimal(b),
    ensures
        a == b,
{
    let m = if a < 0 {
        (-a) as nat
    } else {
        a as nat
    };
    let n = if b < 0 {
        (-b) as nat
    } else {
        b as nat
    };
    lemma_digits_read_back(m);
    lemma_digits_read_back(n);
    assert(a < 0 <==> decimal(a)[0] == '-');
    assert(b < 0 <==> decimal(b)[0] == '-');
    if a < 0 {
        assert(decimal(a).skip(1) =~= digits(m));
        assert(decimal(b).skip(1) =~= digits(n));
    }
}

/// The integer that a numeral stands for: an optional sign, then digits.
pub open spec fn parsed_int(s: Seq<char>) -> Option<int> {
    let signed = s.len() > 0 && (s[0] == '-' || s[0] == '+');
    let body = if signed { s.skip(1) } else { s };
    if body.len() == 0 || !all_digits(body) {
        None
    } else if signed && s[0] == '-' {
        Some(-(digits_value(body) as int))
    } else {
        Some(digits_value(body) as int)
    }
}

/// The `i64` that a numeral stands for, if it stands for one.
pub open spec fn parsed_i64(s: Seq<char>) -> Option<i64> {
    match parsed_int(s) {
        Some(v) if i64::MIN <= v <= i64::MAX => Some(v as i64),
        _ => None,
    }
}

/// The `u64` that a numeral without a minus sign stands for, if it stands for one.
pub open spec fn parsed_u64(s: Seq<char>) -> Option<u64> {
    if s.len() > 0 && s[0] == '-' {
        None
    } else {
        match parsed_int(s) {
            Some(v) if 0 <= v <= u64::MAX => Some(v as u64),
            _ => None,
        }
    }
}

/// The digits of a natural number are digits.
proof fn lemma_digits_are_digits(n: nat)
    ensures
        all_digits(digits(n)),
        digits(n)[0] != '+',
    decreases n,
{
    if n >= 10 {
        lemma_digits_are_digits(n / 10);
        lemma_digits_read_back(n / 10);
    }
}

/// A numeral is read back as the number that it was written for.
pub proof fn law_numeral_read_back(v: int)
    ensures
        parsed_int(decimal(v)) == Some(v),
        i64::MIN <= v <= i64::MAX ==> parsed_i64(decimal(v)) == Some(v as i64),
        0 <= v <= u64::MAX ==> parsed_u64(decimal(v)) == Some(v as u64),
        v < 0 ==> parsed_u64(decimal(v)) is None,
{
    let n = if v < 0 {
        (-v) as nat
    } else {
        v as nat
    };
    lemma_digits_read_back(n);
    lemma_digits_are_digits(n);
    if v < 0 {
        assert(decimal(v).skip(1) =~= digits(n));
    }
}

/// What is not written with digits alone, behind at most a sign, is no number.
pub proof fn law_not_a_numeral(s: Seq<char>, i: int)
    requires
        0 <= i < s.len(),
        !('0' <= s[i] <= '9'),
        i > 0 || (s[0] != '-' && s[0] != '+') || s.len() == 1,
    ensures
        parsed_i64(s) is None,
        parsed_u64(s) is None,
{
    let signed = s[0] == '-' || s[0] == '+';
    if signed && s.len() > 1 {
        assert(s.skip(1)[i - 1] == s[i]);
    } else if !signed {
        assert(s[i] == s[i]);
    }
}

proof fn lemma_digits_value_grows(s: Seq<char>, k: int)
    requires
        0 <= k <= s.len(),
        all_digits(s),
    ensures
        digits_value(s.take(k)) <= digits_value(s),
    decreases s.len() - k,
{
    if k < s.len() {
        let t = s.take(k + 1);
        assert(t.drop_last() =~= s.take(k));
        assert(t.last() == s[k]);
        lemma_digits_value_grows(s, k + 1);
    } else {
        assert(s.take(k) =~= s);
    }
}

/// The magnitude of the digits from `from` on, capped just above `u64::MAX`.
fn digits_prefix(s: &Vec<char>, from: usize) -> (r: Option<u128>)
    requires
        from <= s@.len(),
    ensures
        r is None <==> s@.skip(from as int).len() == 0 || !all_digits(s@.skip(from as int)),
        r matches Some(v) ==> {
            let exact = digits_value(s@.skip(from as int));
            if exact <= u64::MAX {
                v == exact
            } else {
                v > u64::MAX
            }
        },
{
    if from >= s.len() {
        return None;
    }
    let ghost body = s@.skip(from as int);
    let mut i: usize = from;
    while i < s.len()
        invariant
            from <= i <= s@.len(),
            body == s@.skip(from as int),
            all_digits(body.take(i - from)),
        decreases s@.len() - i,
    {
        let c = s[i];
        if !('0' <= c && c <= '9') {
            assert(body[i - from] == c);
            return None;
        }
        assert forall|k: int| 0 <= k < i + 1 - from implies '0' <= #[trigger] body.take(i + 1 - from)[k] <= '9' by {
            if k < i - from {
                assert(body.take(i - from)[k] == body[k]);
            } else {
                assert(body[k] == c);
            }
        }
        i = i + 1;
    }
    assert(body.take(i - from) =~= body);
    let mut v: u128 = 0;
    let mut j: usize = from;
    while j < s.len()
        invariant
            from <= j <= s@.len(),
            body == s@.skip(from as int),
            all_digits(body),
            v <= u64::MAX,
            v == digits_value(body.take(j - from)),
        decreases s@.len() - j,
    {
        let c = s[j];
        proof {
            assert(body[j - from] == c);
            let t = body.take(j + 1 - from);
            assert(t.drop_last() =~= body.take(j - from));
            assert(t.last() == c);
            lemma_digits_value_grows(body, j + 1 - from);
        }
        v = v * 10 + (c as u32 - 48) as u128;
        if v > u64::MAX as u128 {
            return Some(v);
        }
        j = j + 1;
    }
    assert(body.take(j - from) =~= body);
    Some(v)
}

/// Reads an `i64` numeral.
pub fn parse_i64(s: &str) -> (r: Option<i64>)
    ensures
        r == parsed_i64(s@),
{
    let chars = str_chars(s);
    let signed = chars.len() > 0 && (chars[0] == '-' || chars[0] == '+');
    let from: usize = if signed { 1 } else { 0 };
    proof {
        assert(s@.skip(0) =~= s@);
    }
    match digits_prefix(&chars, from) {
        None => None,
        Some(v) => {
            if signed && chars[0] == '-' {
                if v <= 9_223_372_036_854_775_808 {
                    Some((-(v as i128)) as i64)
                } else {
                    None
                }
            } else if v <= 9_223_372_036_854_775_807 {
                Some(v as i64)
            } else {
                None
            }
        },
    }
}

/// Reads a `u64` numeral.
pub fn parse_u64(s: &str) -> (r: Option<u64>)
    ensures
        r == parsed_u64(s@),
{
    let chars = str_chars(s);
    if chars.len() > 0 && chars[0] == '-' {
        return None;
    }
    let from: usize = if chars.len() > 0 && chars[0] == '+' { 1 } else { 0 };
    proof {
        assert(s@.skip(0) =~= s@);
    }
    match digits_prefix(&chars, from) {
        None => None,
        Some(v) => if v <= u64::MAX as u128 {
            Some(v as u64)
        } else {
            None
        },
    }
}

/// A text in upper case.
pub uninterp spec fn uppercased(s: Seq<char>) -> Seq<char>;

/// A text in lower case.
pub uninterp spec fn lowercased(s: Seq<char>) -> Seq<char>;

/// `str::to_uppercase`: what it returns depends on the text alone.
#[verifier::external_body]
pub(crate) fn to_uppercase(s: &str) -> (r: String)
    ensures
        r@ == uppercased(s@),
{
    s.to_uppercase()
}

/// `str::to_lowercase`: what it returns depends on the text alone.
#[verifier::external_body]
pub(crate) fn to_lowercase(s: &str) -> (r: String)
    ensures
        r@ == lowercased(s@),
{
    s.to_lowercase()
}

/// The texts of a run of strings.
pub open spec fn texts(v: Seq<String>) -> Seq<Seq<char>> {
    Seq::new(v.len(), |i: int| v[i]@)
}

/// Three pieces of text joined.
pub fn join3(a: &str, b: &str, c: &str) -> (s: String)
    ensures
        s@ == a@ + b@ + c@,
{
    let mut s = String::from_str(a);
    s.append(b);
    s.append(c);
    s
}

} // verus!
