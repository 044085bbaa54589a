//! Text building blocks: decimal numbers, white space, comparison.

use vstd::prelude::*;

verus! {

/// The character of a decimal digit.
pub open spec fn digit(d: nat) -> char {
    (48 + d) as char
}

/// The decimal notation of `n`, without leading zeros.
pub open spec fn digits(n: nat) -> Seq<char>
    decreases n,
{
    if n < 10 {
        seq![digit(n)]
    } else {
        digits(n / 10).push(digit(n % 10))
    }
}

fn digit_text(d: u64) -> (r: &'static str)
    requires
        d < 10,
    ensures
        r@ == seq![digit(d as nat)],
{
    proof {
        reveal_strlit("0");
        reveal_strlit("1");
        reveal_strlit("2");
        reveal_strlit("3");
        reveal_strlit("4");
        reveal_strlit("5");
        reveal_strlit("6");
        reveal_strlit("7");
        reveal_strlit("8");
        reveal_strlit("9");
    }
    if d == 0 {
        "0"
    } else if d == 1 {
        "1"
    } else if d == 2 {
        "2"
    } else if d == 3 {
        "3"
    } else if d == 4 {
        "4"
    } else if d == 5 {
        "5"
    } else if d == 6 {
        "6"
    } else if d == 7 {
        "7"
    } else if d == 8 {
        "8"
    } else {
        "9"
    }
}

/// `n` in decimal notation.
pub fn decimal(n: u64) -> (r: String)
    ensures
        r@ == digits(n as nat),
    decreases n,
{
    if n < 10 {
        digit_text(n).to_string()
    } else {
        decimal(n / 10).concat(digit_text(n % 10))
    }
}

/// The numbers in order, separated by a comma and a space.
pub open spec fn joined(s: Seq<usize>) -> Seq<char>
    decreases s.len(),
{
    if s.len() == 0 {
        Seq::empty()
    } else if s.len() == 1 {
        digits(s[0] as nat)
    } else {
        joined(s.drop_last()) + ", "@ + digits(s.last() as nat)
    }
}

/// A list of numbers in square brackets.
pub open spec fn bracketed(s: Seq<usize>) -> Seq<char> {
    "["@ + joined(s) + "]"@
}

/// The numbers as a list in square brackets.
pub fn number_list(v: &[usize]) -> (r: String)
    ensures
        r@ == bracketed(v@),
{
    let mut out: String = String::new();
    let mut i: usize = 0;
    while i < v.len()
        invariant
            i <= v.len(),
            out@ == joined(v@.take(i as int)),
        decreases v.len() - i,
    {
        proof {
            let t = v@.take(i as int + 1);
            assert(t.drop_last() =~= v@.take(i as int));
            if i == 0 {
                assert(out@ =~= Seq::empty());
                assert(joined(t) == digits(v@[0] as nat));
            }
        }
        if i > 0 {
            out = out.concat(", ");
        }
        out = out.concat(decimal(v[i] as u64).as_str());
        i = i + 1;
    }
    proof {
        assert(v@.take(i as int) =~= v@);
    }
    "[".to_string().concat(out.as_str()).concat("]")
}

/// Unicode's White_Space property.
pub open spec fn is_white(c: char) -> bool {
    let p = c as int;
    ||| 0x9 <= p <= 0xd
    ||| p == 0x20
    ||| p == 0x85
    ||| p == 0xa0
    ||| p == 0x1680
    ||| 0x2000 <= p <= 0x200a
    ||| p == 0x2028
    ||| p == 0x2029
    ||| p == 0x202f
    ||| p == 0x205f
    ||| p == 0x3000
}

/// `s` without the white space it starts with.
pub open spec fn trimmed_start(s: Seq<char>) -> Seq<char>
    decreases s.len(),
{
    if s.len() > 0 && is_white(s[0]) {
        trimmed_start(s.drop_first())
    } else {
        s
    }
}

/// `s` without the white space it ends with.
pub open spec fn trimmed_end(s: Seq<char>) -> Seq<char>
    decreases s.len(),
{
    if s.len() > 0 && is_white(s.last()) {
        trimmed_end(s.drop_last())
    } else {
        s
    }
}

/// `s` without the white space at either end.
pub open spec fn trimmed(s: Seq<char>) -> Seq<char> {
    trimmed_end(trimmed_start(s))
}

/// `str::trim` drops the characters with Unicode's White_Space property from
/// both ends and keeps the rest as it is.
pub assume_specification[ str::trim ](s: &str) -> (r: &str)
    ensures
        r@ == trimmed(s@),
;

/// The lower case of an ASCII capital; any other character itself.
pub open spec fn ascii_lower(c: char) -> char {
    if 'A' <= c <= 'Z' {
        (c as int + 32) as char
    } else {
        c
    }
}

/// `str::to_ascii_lowercase` maps `A` to `Z` to `a` to `z` and leaves every
/// other character alone.
pub assume_specification[ str::to_ascii_lowercase ](s: &str) -> (r: String)
    ensures
        r@ == s@.map_values(|c: char| ascii_lower(c)),
;

/// Whether two texts hold the same characters.
pub(crate) fn same(a: &str, b: &str) -> (r: bool)
    ensures
        r == (a@ == b@),
{
    let n: usize = a.unicode_len();
    if n != b.unicode_len() {
        return false;
    }
    let mut i: usize = 0;
    while i < n
        invariant
            i <= n == a@.len() == b@.len(),
            forall|k: int| 0 <= k < i ==> a@[k] == b@[k],
        decreases n - i,
    {
        if a.get_char(i) != b.get_char(i) {
            return false;
        }
        i = i + 1;
    }
    assert(a@ =~= b@);
    true
}

/// Only white space, or nothing at all.
pub open spec fn blank(s: Seq<char>) -> bool {
    trimmed(s).len() == 0
}

/// Whether `s` holds nothing but white space.
pub fn is_blank(s: &str) -> (r: bool)
    ensures
        r == blank(s@),
{
    s.trim().unicode_len() == 0
}

proof fn lemma_trimmed_end_white(s: Seq<char>)
    requires
        forall|i: int| 0 <= i < s.len() ==> is_white(s[i]),
    ensures
        trimmed_end(s).len() == 0,
    decreases s.len(),
{
    if s.len() > 0 {
        lemma_trimmed_end_white(s.drop_last());
    }
}

proof fn lemma_trimmed_end_ink(s: Seq<char>, k: int)
    requires
        0 <= k < s.len(),
        !is_white(s[k]),
    ensures
        trimmed_end(s).len() > k,
    decreases s.len(),
{
    if is_white(s.last()) {
        lemma_trimmed_end_ink(s.drop_last(), k);
    }
}

proof fn lemma_trimmed_start_white(s: Seq<char>)
    requires
        forall|i: int| 0 <= i < s.len() ==> is_white(s[i]),
    ensures
        trimmed_start(s).len() == 0,
    decreases s.len(),
{
    if s.len() > 0 {
        lemma_trimmed_start_white(s.drop_first());
    }
}

proof fn lemma_trimmed_start_ink(s: Seq<char>, k: int)
    requires
        0 <= k < s.len(),
        !is_white(s[k]),
    ensures
        trimmed_start(s).len() > 0,
        !is_white(trimmed_start(s)[0]),
    decreases s.len(),
{
    if is_white(s[0]) {
        lemma_trimmed_start_ink(s.drop_first(), k - 1);
    }
}

/// A text is blank exactly when every character of it is white space.
pub proof fn blank_means_all_white(s: Seq<char>)
    ensures
        blank(s) <==> forall|i: int| 0 <= i < s.len() ==> is_white(#[trigger] s[i]),
{
    if forall|i: int| 0 <= i < s.len() ==> is_white(#[trigger] s[i]) {
        lemma_trimmed_start_white(s);
        assert(trimmed_start(s) =~= Seq::empty());
    } else {
        let k = choose|i: int| 0 <= i < s.len() && !is_white(#[trigger] s[i]);
        lemma_trimmed_start_ink(s, k);
        lemma_trimmed_end_ink(trimmed_start(s), 0);
    }
}

/// The number that a decimal notation stands for.
pub open spec fn number_of(s: Seq<char>) -> int
    decreases s.len(),
{
    if s.len() == 0 {
        0
    } else {
        10 * number_of(s.drop_last()) + (s.last() as int - '0' as int)
    }
}

/// A number in decimal notation reads back as that number, is made of the ten
/// digits only, and has no zero in front of it.
pub proof fn decimals_read_back(n: nat)
    ensures
        number_of(digits(n)) == n,
        digits(n).len() > 0,
        forall|i: int| 0 <= i < digits(n).len() ==> '0' <= #[trigger] digits(n)[i] <= '9',
        n > 0 ==> digits(n)[0] != '0',
    decreases n,
{
    if n < 10 {
        assert(digits(n).drop_last() =~= Seq::empty());
        assert(number_of(Seq::<char>::empty()) == 0);
        assert(digits(n).last() == digit(n));
    } else {
        decimals_read_back(n / 10);
        let s = digits(n);
        assert(s.drop_last() =~= digits(n / 10));
        assert(s.last() == digit(n % 10));
        assert forall|i: int| 0 <= i < s.len() implies '0' <= #[trigger] s[i] <= '9' by {
            if i < s.len() - 1 {
                assert(s[i] == digits(n / 10)[i]);
            }
        }
        assert(s[0] == digits(n / 10)[0]);
    }
}

/// A list of numbers stands in brackets, each number once and in order, with a
/// comma and a space between two.
pub proof fn lists_name_their_numbers(s: Seq<usize>, n: usize)
    ensures
        bracketed(Seq::empty()) == "["@ + "]"@,
        bracketed(seq![n]) == "["@ + digits(n as nat) + "]"@,
        s.len() > 0 ==> bracketed(s.push(n)) == "["@ + joined(s) + ", "@ + digits(n as nat) + "]"@,
{
    assert(joined(Seq::empty()) =~= Seq::<char>::empty());
    assert("["@ + Seq::<char>::empty() =~= "["@);
    if s.len() > 0 {
        assert(s.push(n).drop_last() =~= s);
        assert("["@ + (joined(s) + ", "@ + digits(n as nat)) + "]"@ =~= "["@ + joined(s) + ", "@
            + digits(n as nat) + "]"@);
    }
}

/// What is left of a trimmed text is a part of it that neither starts nor ends
/// in white space, with nothing but white space before and behind it.
pub proof fn trimming_cuts_white_space_only(s: Seq<char>)
    ensures
        exists|a: int, b: int| 0 <= a <= b <= s.len() && #[trigger] trims_to(s, a, b),
{
    lemma_start(s);
    let a = s.len() - trimmed_start(s).len();
    let t = trimmed_start(s);
    lemma_end(t);
    let b = a + trimmed_end(t).len();
    assert(trimmed(s) =~= s.subrange(a, b));
    assert forall|i: int| b <= i < s.len() implies is_white(#[trigger] s[i]) by {
        assert(t[i - a] == s[i]);
    }
    if trimmed(s).len() > 0 {
        assert(trimmed(s)[0] == t[0]);
        assert(trimmed(s).last() == trimmed_end(t).last());
    }
    assert(trims_to(s, a, b));
}

/// Whether the text from `a` to `b` is what is left of a trimmed text.
pub open spec fn trims_to(s: Seq<char>, a: int, b: int) -> bool {
    &&& trimmed(s) == s.subrange(a, b)
    &&& forall|i: int| 0 <= i < a ==> is_white(#[trigger] s[i])
    &&& forall|i: int| b <= i < s.len() ==> is_white(#[trigger] s[i])
    &&& a < b ==> !is_white(s[a]) && !is_white(s[b - 1])
}

proof fn lemma_start(s: Seq<char>)
    ensures
        trimmed_start(s).len() <= s.len(),
        trimmed_start(s) == s.skip(s.len() - trimmed_start(s).len()),
        forall|i: int|
            0 <= i < s.len() - trimmed_start(s).len() ==> is_white(#[trigger] s[i]),
        trimmed_start(s).len() > 0 ==> !is_white(trimmed_start(s)[0]),
    decreases s.len(),
{
    if s.len() > 0 && is_white(s[0]) {
        let r = s.drop_first();
        lemma_start(r);
        assert(trimmed_start(s) =~= s.skip(s.len() - trimmed_start(s).len()));
        assert forall|i: int| 0 <= i < s.len() - trimmed_start(s).len() implies is_white(
            #[trigger] s[i],
        ) by {
            if i > 0 {
                assert(r[i - 1] == s[i]);
            }
        }
    } else {
        assert(s.skip(0) =~= s);
    }
}

proof fn lemma_end(s: Seq<char>)
    ensures
        trimmed_end(s).len() <= s.len(),
        trimmed_end(s) == s.take(trimmed_end(s).len() as int),
        forall|i: int| trimmed_end(s).len() <= i < s.len() ==> is_white(#[trigger] s[i]),
        trimmed_end(s).len() > 0 ==> !is_white(trimmed_end(s).last()),
    decreases s.len(),
{
    if s.len() > 0 && is_white(s.last()) {
        let r = s.drop_last();
        lemma_end(r);
        assert(trimmed_end(s) =~= s.take(trimmed_end(s).len() as int));
        assert forall|i: int| trimmed_end(s).len() <= i < s.len() implies is_white(
            #[trigger] s[i],
        ) by {
            if i < r.len() {
                assert(r[i] == s[i]);
            }
        }
    } else {
        assert(s.take(s.len() as int) =~= s);
    }
}

} // verus!
