//! Taking strings apart.
use vstd::prelude::*;
use vstd::string::*;

verus! {

/// The value of a digit.
pub open spec fn digit_value(c: char) -> Option<nat> {
    if '0' <= c && c <= '9' {
        Some((c as int - '0' as int) as nat)
    } else {
        None
    }
}

/// The value of a string of digits.
pub open spec fn digits_value(s: Seq<char>) -> Option<nat>
    decreases s.len(),
{
    if s.len() == 0 {
        Some(0)
    } else {
        match (digits_value(s.drop_last()), digit_value(s.last())) {
            (Some(v), Some(d)) => Some(v * 10 + d),
            _ => None,
        }
    }
}

/// The number that a string is written as, in decimal notation, perhaps with a plus sign.
pub open spec fn number(s: Seq<char>) -> Option<nat> {
    let digits = if s.len() > 0 && s[0] == '+' {
        s.skip(1)
    } else {
        s
    };
    if digits.len() == 0 {
        None
    } else {
        digits_value(digits)
    }
}

/// The number that a string is written as, if it is not larger than `max`.
pub open spec fn number_up_to(s: Seq<char>, max: nat) -> Option<nat> {
    match number(s) {
        Some(v) => if v <= max {
            Some(v)
        } else {
            None
        },
        None => None,
    }
}

/// More digits make no smaller number.
proof fn lemma_more_digits(s: Seq<char>, k: int)
    requires
        0 <= k <= s.len(),
    ensures
        digits_value(s) is Some ==> digits_value(s.take(k)) is Some && digits_value(s.take(k))->0
            <= digits_value(s)->0,
    decreases s.len() - k,
{
    if k < s.len() {
        lemma_more_digits(s, k + 1);
        assert(s.take(k + 1).drop_last() =~= s.take(k));
        if digits_value(s) is Some {
            let v = digits_value(s.take(k))->0;
            assert(v <= v * 10) by (nonlinear_arith);
        }
    } else {
        assert(s.take(k) =~= s);
    }
}

/// Parse a number that is not larger than `max`.
pub fn parse_number(s: &str, max: u64) -> (r: Option<u64>)
    ensures
        match r {
            Some(v) => number_up_to(s@, max as nat) == Some(v as nat),
            None => number_up_to(s@, max as nat) is None,
        },
{
    let n: usize = s.unicode_len();
    if n == 0 {
        return None;
    }
    let start: usize = if s.get_char(0) == '+' {
        1
    } else {
        0
    };
    if start == n {
        return None;
    }
    let ghost digits = s@.skip(start as int);
    assert(start == 0 ==> digits =~= s@);
    let mut v: u64 = 0;
    let mut i: usize = start;
    assert(digits.take(0) =~= Seq::<char>::empty());
    while i < n
        invariant
            start <= i <= n,
            n == s@.len(),
            digits == s@.skip(start as int),
            number(s@) == digits_value(digits),
            digits_value(digits.take(i - start)) == Some(v as nat),
            v <= max,
        decreases n - i,
    {
        let c: char = s.get_char(i);
        let ghost k = i - start;
        proof {
            assert(digits.take(k + 1).drop_last() =~= digits.take(k));
            assert(digits.take(k + 1).last() == c);
            lemma_more_digits(digits, k + 1);
        }
        if c < '0' || c > '9' {
            return None;
        }
        let d: u64 = (c as u32 - '0' as u32) as u64;
        let w: u128 = v as u128 * 10 + d as u128;
        if w > max as u128 {
            return None;
        }
        v = w as u64;
        i += 1;
    }
    assert(digits.take(n - start) =~= digits);
    Some(v)
}

/// String `s` starts with `p`.
pub open spec fn starts_with(s: Seq<char>, p: Seq<char>) -> bool {
    p.len() <= s.len() && s.take(p.len() as int) == p
}

/// String `s` ends with `p`.
pub open spec fn ends_with(s: Seq<char>, p: Seq<char>) -> bool {
    p.len() <= s.len() && s.skip(s.len() - p.len()) == p
}

/// Whether the characters of `s` from position `from` on start with those of `p`.
fn matches_at(s: &str, from: usize, p: &str) -> (r: bool)
    requires
        from + p@.len() <= s@.len(),
    ensures
        r == (s@.subrange(from as int, from + p@.len()) == p@),
{
    let n: usize = p.unicode_len();
    let total: usize = s.unicode_len();
    let ghost part = s@.subrange(from as int, from + p@.len());
    for i in 0..n
        invariant
            n == p@.len(),
            total == s@.len(),
            from + n <= total,
            part == s@.subrange(from as int, from + p@.len()),
            forall|j: int| 0 <= j < i ==> part[j] == p@[j],
    {
        if s.get_char(from + i) != p.get_char(i) {
            assert(part[i as int] != p@[i as int]);
            return false;
        }
    }
    assert(part =~= p@);
    true
}

/// Whether two strings have the same characters.
pub fn is_same(a: &str, b: &str) -> (r: bool)
    ensures
        r == (a@ == b@),
{
    let (n, k): (usize, usize) = (a.unicode_len(), b.unicode_len());
    assert(n == k ==> a@.subrange(0, n as int) =~= a@);
    n == k && matches_at(a, 0, b)
}

/// What follows the prefix `p`.
pub fn strip_prefix<'a>(s: &'a str, p: &str) -> (r: Option<&'a str>)
    ensures
        match r {
            Some(rest) => starts_with(s@, p@) && rest@ == s@.skip(p@.len() as int),
            None => !starts_with(s@, p@),
        },
{
    let (n, k): (usize, usize) = (s.unicode_len(), p.unicode_len());
    if k > n {
        return None;
    }
    assert(s@.subrange(0, k as int) =~= s@.take(k as int));
    if matches_at(s, 0, p) {
        assert(s@.subrange(k as int, n as int) =~= s@.skip(k as int));
        Some(s.substring_char(k, n))
    } else {
        None
    }
}

/// What stands before the suffix `p`.
pub fn strip_suffix<'a>(s: &'a str, p: &str) -> (r: Option<&'a str>)
    ensures
        match r {
            Some(rest) => ends_with(s@, p@) && rest@ == s@.take(s@.len() - p@.len()),
            None => !ends_with(s@, p@),
        },
{
    let (n, k): (usize, usize) = (s.unicode_len(), p.unicode_len());
    if k > n {
        return None;
    }
    assert(s@.subrange(n - k, n as int) =~= s@.skip(n - k));
    if matches_at(s, n - k, p) {
        assert(s@.subrange(0, n - k) =~= s@.take(n - k));
        Some(s.substring_char(0, n - k))
    } else {
        None
    }
}

/// Two paths, one below the other. An absolute path stands for itself.
pub open spec fn joined(a: Seq<char>, b: Seq<char>) -> Seq<char> {
    if b.len() > 0 && b[0] == '/' {
        b
    } else if a.len() == 0 || a.last() == '/' {
        a + b
    } else {
        a.push('/') + b
    }
}

/// A path below another one.
pub fn join(a: &str, b: &str) -> (r: String)
    ensures
        r@ == joined(a@, b@),
{
    let (n, k): (usize, usize) = (a.unicode_len(), b.unicode_len());
    if k > 0 && b.get_char(0) == '/' {
        return String::from_str(b);
    }
    let mut r = String::from_str(a);
    if n > 0 && a.get_char(n - 1) != '/' {
        proof {
            reveal_strlit("/");
        }
        r.append("/");
        assert("/"@ =~= seq!['/']);
        assert(r@ =~= a@.push('/'));
    }
    r.append(b);
    r
}

/// The position behind the last space of a string.
pub open spec fn last_word_start(s: Seq<char>) -> int
    decreases s.len(),
{
    if s.len() == 0 || s.last() == ' ' {
        s.len() as int
    } else {
        last_word_start(s.drop_last())
    }
}

/// What follows the last space of a string.
pub open spec fn last_word(s: Seq<char>) -> Seq<char> {
    s.skip(last_word_start(s))
}

proof fn lemma_last_word_start(s: Seq<char>, i: int)
    requires
        0 <= i <= s.len(),
        i > 0 ==> s[i - 1] == ' ',
        forall|j: int| i <= j < s.len() ==> s[j] != ' ',
    ensures
        last_word_start(s) == i,
    decreases s.len(),
{
    if i < s.len() {
        lemma_last_word_start(s.drop_last(), i);
    }
}

/// What follows the last space of a string.
pub fn get_last_word(s: &str) -> (r: &str)
    ensures
        r@ == last_word(s@),
{
    let n: usize = s.unicode_len();
    let mut i: usize = n;
    while i > 0 && s.get_char(i - 1) != ' '
        invariant
            i <= n,
            n == s@.len(),
            forall|j: int| i <= j < n ==> s@[j] != ' ',
        decreases i,
    {
        i -= 1;
    }
    proof {
        lemma_last_word_start(s@, i as int);
        assert(s@.subrange(i as int, n as int) =~= s@.skip(i as int));
    }
    s.substring_char(i, n)
}

/// `part` stands in `s` from position `i` on.
pub open spec fn part_at(s: Seq<char>, part: Seq<char>, i: int) -> bool {
    0 <= i && i + part.len() <= s.len() && s.subrange(i, i + part.len()) == part
}

/// `part` stands somewhere in `s`.
pub open spec fn has_part(s: Seq<char>, part: Seq<char>) -> bool {
    exists|i: int| #[trigger] part_at(s, part, i)
}

/// Whether a string stands in another one.
pub fn contains_part(s: &str, part: &str) -> (r: bool)
    ensures
        r == has_part(s@, part@),
{
    let n: usize = s.unicode_len();
    let m: usize = part.unicode_len();
    let mut i: usize = 0;
    while i <= n && m <= n - i
        invariant
            n == s@.len(),
            m == part@.len(),
            i <= n + 1,
            forall|j: int| 0 <= j < i ==> !#[trigger] part_at(s@, part@, j),
        decreases n + 1 - i,
    {
        let mut k: usize = 0;
        while k < m && s.get_char(i + k) == part.get_char(k)
            invariant
                n == s@.len(),
                m == part@.len(),
                k <= m <= n - i,
                i <= n,
                forall|j: int| 0 <= j < k ==> s@[i + j] == part@[j],
            decreases m - k,
        {
            k += 1;
        }
        if k == m {
            assert(s@.subrange(i as int, i + m) =~= part@);
            assert(part_at(s@, part@, i as int));
            return true;
        }
        assert(!part_at(s@, part@, i as int)) by {
            if part_at(s@, part@, i as int) {
                assert(s@.subrange(i as int, i + m)[k as int] == part@[k as int]);
            }
        }
        if i == n {
            return false;
        }
        i += 1;
    }
    assert forall|j: int| !#[trigger] part_at(s@, part@, j) by {}
    false
}

proof fn lemma_digits_of_decimal(n: nat)
    ensures
        digits_value(crate::text::decimal(n)) == Some(n),
        crate::text::decimal(n).len() > 0,
        crate::text::decimal(n)[0] != '+',
    decreases n,
{
    reveal_with_fuel(digits_value, 2);
    let d = crate::text::decimal(n);
    if n < 10 {
        assert(d.drop_last() =~= Seq::<char>::empty());
    } else {
        lemma_digits_of_decimal(n / 10);
        assert(d.drop_last() =~= crate::text::decimal(n / 10));
    }
}

/// A number that is written out is read back.
pub proof fn lemma_number_of_decimal(n: nat)
    ensures
        number(crate::text::decimal(n)) == Some(n),
{
    lemma_digits_of_decimal(n);
}

/// Name `a` comes before name `b` in a dictionary.
pub open spec fn name_before(a: Seq<char>, b: Seq<char>) -> bool
    decreases a.len(),
{
    if b.len() == 0 {
        false
    } else if a.len() == 0 {
        true
    } else if a[0] != b[0] {
        a[0] < b[0]
    } else {
        name_before(a.skip(1), b.skip(1))
    }
}

/// Whether name `a` comes before name `b` in a dictionary.
pub fn is_name_before(a: &str, b: &str) -> (r: bool)
    ensures
        r == name_before(a@, b@),
{
    let (n, k): (usize, usize) = (a.unicode_len(), b.unicode_len());
    let mut i: usize = 0;
    assert(a@.skip(0) =~= a@ && b@.skip(0) =~= b@);
    while i < n && i < k
        invariant
            i <= n,
            i <= k,
            n == a@.len(),
            k == b@.len(),
            name_before(a@, b@) == name_before(a@.skip(i as int), b@.skip(i as int)),
        decreases n - i,
    {
        let (c, d): (char, char) = (a.get_char(i), b.get_char(i));
        if c != d {
            return c < d;
        }
        assert(a@.skip(i as int).skip(1) =~= a@.skip(i + 1));
        assert(b@.skip(i as int).skip(1) =~= b@.skip(i + 1));
        i += 1;
    }
    i < k
}

/// Dictionary order is transitive, and of two different names one comes first.
pub proof fn lemma_name_order(a: Seq<char>, b: Seq<char>, c: Seq<char>)
    ensures
        name_before(a, b) && name_before(b, c) ==> name_before(a, c),
        !name_before(a, a),
        a != b ==> name_before(a, b) || name_before(b, a),
    decreases a.len() + b.len() + c.len(),
{
    if a.len() == 0 && b.len() == 0 {
        assert(a =~= b);
    }
    if a.len() > 0 {
        lemma_name_order(a.skip(1), b, c);
    }
    if a.len() > 0 && b.len() > 0 {
        if c.len() > 0 {
            lemma_name_order(a.skip(1), b.skip(1), c.skip(1));
        } else {
            lemma_name_order(a.skip(1), b.skip(1), c);
        }
        if a[0] == b[0] && a.skip(1) == b.skip(1) {
            assert(a =~= seq![a[0]] + a.skip(1));
            assert(b =~= seq![b[0]] + b.skip(1));
        }
    }
}

/// Only digits make a number, behind at most one plus sign at the start, and a number that is too large
/// does not count.
pub proof fn law_only_digits_make_a_number(s: Seq<char>, i: int, max: nat)
    requires
        0 <= i < s.len(),
    ensures
        !('0' <= s[i] && s[i] <= '9') && (i > 0 || s[i] != '+') ==> number(s) is None,
        s == seq!['+'] ==> number(s) is None,
        number_up_to(s, max) matches Some(v) ==> v <= max && number(s) == Some(v),
        number(s) is Some && number(s)->0 <= max ==> number_up_to(s, max) is Some,
{
    let digits = if s[0] == '+' {
        s.skip(1)
    } else {
        s
    };
    if !('0' <= s[i] && s[i] <= '9') && (i > 0 || s[i] != '+') {
        let k = if s[0] == '+' {
            i - 1
        } else {
            i
        };
        assert(digits[k] == s[i]);
        lemma_bad_digit(digits, k);
    }
}

proof fn lemma_bad_digit(s: Seq<char>, k: int)
    requires
        0 <= k < s.len(),
        !('0' <= s[k] && s[k] <= '9'),
    ensures
        digits_value(s) is None,
    decreases s.len(),
{
    if k < s.len() - 1 {
        lemma_bad_digit(s.drop_last(), k);
    }
}

/// An empty text is no number. A further digit makes a number ten times as large, and adds its own value.
pub proof fn law_digits_of_a_number(s: Seq<char>, d: char)
    ensures
        s.len() == 0 ==> number(s) is None,
        s.len() == 0 && '0' <= d && d <= '9' ==> number(s.push(d)) == Some((d as int - '0' as int) as nat),
        number(s) matches Some(v) ==> '0' <= d && d <= '9' ==> number(s.push(d)) == Some(
            (10 * v + d as int - '0' as int) as nat,
        ),
{
    if s.len() > 0 {
        if s[0] == '+' {
            assert(s.push(d).skip(1) =~= s.skip(1).push(d));
            assert(s.skip(1).push(d).drop_last() =~= s.skip(1));
        } else {
            assert(s.push(d).drop_last() =~= s);
        }
    } else {
        assert(s.push(d).drop_last() =~= s);
    }
}

/// The last word of a string has no space, and what stands before it is nothing, or ends with a space.
pub proof fn law_last_word(s: Seq<char>)
    ensures
        last_word(s).len() <= s.len(),
        s == s.take(s.len() - last_word(s).len()) + last_word(s),
        !last_word(s).contains(' '),
        last_word(s).len() < s.len() ==> s[s.len() - last_word(s).len() - 1] == ' ',
{
    lemma_last_word_parts(s);
    let k = last_word_start(s);
    assert(s =~= s.take(k) + s.skip(k));
    assert(s.len() - last_word(s).len() == k);
    if last_word(s).contains(' ') {
        let j = choose|j: int| 0 <= j < last_word(s).len() && last_word(s)[j] == ' ';
        assert(s[k + j] == ' ');
    }
}

proof fn lemma_last_word_parts(s: Seq<char>)
    ensures
        0 <= last_word_start(s) <= s.len(),
        last_word_start(s) > 0 ==> s[last_word_start(s) - 1] == ' ',
        forall|j: int| last_word_start(s) <= j < s.len() ==> s[j] != ' ',
    decreases s.len(),
{
    if s.len() > 0 && s.last() != ' ' {
        lemma_last_word_parts(s.drop_last());
        assert forall|j: int| last_word_start(s) <= j < s.len() implies s[j] != ' ' by {
            if j < s.len() - 1 {
                assert(s.drop_last()[j] != ' ');
            }
        }
    }
}

/// A path below another one starts with that one and ends with itself, and there is a slash between them
/// unless nothing or a slash is there already. An absolute path is below nothing.
pub proof fn law_joined_paths(a: Seq<char>, b: Seq<char>)
    ensures
        b.len() > 0 && b[0] == '/' ==> joined(a, b) == b,
        b.len() == 0 || b[0] != '/' ==> ({
            let r = joined(a, b);
            &&& r.len() >= a.len() + b.len()
            &&& r.take(a.len() as int) == a
            &&& r.skip(r.len() - b.len()) == b
            &&& a.len() > 0 ==> r[r.len() - b.len() - 1] == '/'
            &&& r.len() == a.len() + b.len() + if a.len() > 0 && a.last() != '/' {
                1int
            } else {
                0
            }
        }),
{
    if b.len() == 0 || b[0] != '/' {
        let r = joined(a, b);
        assert(r.take(a.len() as int) =~= a);
        assert(r.skip(r.len() - b.len()) =~= b);
    }
}

/// A string starts with a part exactly if something can follow that part, and ends with it exactly if
/// something can stand before it.
pub proof fn law_ends_of_strings(a: Seq<char>, b: Seq<char>)
    ensures
        starts_with(a + b, a),
        ends_with(a + b, b),
        starts_with(b, a) ==> b == a + b.skip(a.len() as int),
        ends_with(b, a) ==> b == b.take(b.len() - a.len()) + a,
{
    assert((a + b).take(a.len() as int) =~= a);
    assert((a + b).skip((a + b).len() - b.len()) =~= b);
    if starts_with(b, a) {
        assert(b =~= a + b.skip(a.len() as int));
    }
    if ends_with(b, a) {
        assert(b =~= b.take(b.len() - a.len()) + a);
    }
}

/// A string has every part that something stands before and behind.
pub proof fn law_parts_of_strings(a: Seq<char>, b: Seq<char>, c: Seq<char>)
    ensures
        has_part(a + b + c, b),
{
    assert((a + b + c).subrange(a.len() as int, (a.len() + b.len()) as int) =~= b);
    assert(part_at(a + b + c, b, a.len() as int));
}

/// If a string has a part, then something stands before that and something behind.
pub proof fn law_what_is_around_a_part(s: Seq<char>, part: Seq<char>) -> (r: (Seq<char>, Seq<char>))
    requires
        has_part(s, part),
    ensures
        s == r.0 + part + r.1,
{
    let i = choose|i: int| #[trigger] part_at(s, part, i);
    let (a, c) = (s.take(i), s.skip(i + part.len()));
    assert(s.subrange(i, i + part.len()) == part);
    assert(s =~= a + s.subrange(i, i + part.len()) + c);
    (a, c)
}

/// A name comes before every longer name that starts with it, and a smaller first letter decides.
pub proof fn law_dictionary_order(a: Seq<char>, b: Seq<char>)
    ensures
        b.len() > 0 ==> name_before(a, a + b),
        a.len() > 0 && b.len() > 0 && a[0] < b[0] ==> name_before(a, b),
        !name_before(a, a),
    decreases a.len(),
{
    if a.len() > 0 {
        law_dictionary_order(a.skip(1), b);
        assert((a + b).skip(1) =~= a.skip(1) + b);
    }
}

} // verus!
