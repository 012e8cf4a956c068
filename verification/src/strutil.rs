//! String helpers shared by the policy, codec and parsing modules.
use vstd::prelude::*;

verus! {

/// Equality of two string slices, decided character by character.
pub fn str_eq(a: &str, b: &str) -> (r: bool)
    ensures
        r == (a@ == b@),
{
    let an = a.unicode_len();
    let bn = b.unicode_len();
    if an != bn {
        return false;
    }
    let mut i: usize = 0;
    while i < an
        invariant
            i <= an,
            an == a@.len(),
            an == b@.len(),
            forall|j: int| 0 <= j < i ==> a@[j] == b@[j],
        decreases an - i,
    {
        if a.get_char(i) != b.get_char(i) {
            return false;
        }
        i = i + 1;
    }
    proof {
        assert(a@ =~= b@);
    }
    true
}

/// Does `p@` stand at the front of `s@`?
pub fn str_starts_with(s: &str, p: &str) -> (r: bool)
    ensures
        r == p@.is_prefix_of(s@),
{
    let sn = s.unicode_len();
    let pn = p.unicode_len();
    if pn > sn {
        return false;
    }
    let mut i: usize = 0;
    while i < pn
        invariant
            i <= pn,
            pn <= sn,
            sn == s@.len(),
            pn == p@.len(),
            forall|j: int| 0 <= j < i ==> s@[j] == p@[j],
        decreases pn - i,
    {
        if s.get_char(i) != p.get_char(i) {
            proof {
                assert(!(p@ =~= s@.subrange(0, p@.len() as int)));
            }
            return false;
        }
        i = i + 1;
    }
    proof {
        assert(p@ =~= s@.subrange(0, p@.len() as int));
    }
    true
}

/// Index of the first occurrence of `c` in `s@`, if any.
pub fn find_char(s: &str, c: char) -> (r: Option<usize>)
    ensures
        match r {
            Some(i) => i < s@.len() && s@[i as int] == c && forall|j: int|
                0 <= j < i ==> s@[j] != c,
            None => forall|j: int| 0 <= j < s@.len() ==> s@[j] != c,
        },
{
    let n = s.unicode_len();
    let mut i: usize = 0;
    while i < n
        invariant
            i <= n,
            n == s@.len(),
            forall|j: int| 0 <= j < i ==> s@[j] != c,
        decreases n - i,
    {
        if s.get_char(i) == c {
            return Some(i);
        }
        i = i + 1;
    }
    None
}

/// The four ASCII whitespace characters that trimming strips.
pub open spec fn is_sp(c: char) -> bool {
    c == ' ' || c == '\t' || c == '\n' || c == '\r'
}

/// `s` with leading whitespace stripped.
pub open spec fn trim_start_spec(s: Seq<char>) -> Seq<char>
    decreases s.len(),
{
    if s.len() > 0 && is_sp(s[0]) {
        trim_start_spec(s.drop_first())
    } else {
        s
    }
}

/// `s` with trailing whitespace stripped.
pub open spec fn trim_end_spec(s: Seq<char>) -> Seq<char>
    decreases s.len(),
{
    if s.len() > 0 && is_sp(s.last()) {
        trim_end_spec(s.drop_last())
    } else {
        s
    }
}

/// `s` with whitespace stripped at both ends.
pub open spec fn trim_spec(s: Seq<char>) -> Seq<char> {
    trim_end_spec(trim_start_spec(s))
}

proof fn lemma_trim_start_skip(s: Seq<char>, a: int)
    requires
        0 <= a <= s.len(),
        forall|j: int| 0 <= j < a ==> is_sp(s[j]),
        a == s.len() || !is_sp(s[a]),
    ensures
        trim_start_spec(s) == s.skip(a),
    decreases a,
{
    if a == 0 {
        assert(s.skip(0) =~= s);
    } else {
        assert(is_sp(s[0]));
        assert(s.drop_first() =~= s.skip(1));
        lemma_trim_start_skip(s.skip(1), a - 1);
        assert(s.skip(1).skip(a - 1) =~= s.skip(a));
    }
}

proof fn lemma_trim_end_take(s: Seq<char>, b: int)
    requires
        0 <= b <= s.len(),
        forall|j: int| b <= j < s.len() ==> is_sp(s[j]),
        b == 0 || !is_sp(s[b - 1]),
    ensures
        trim_end_spec(s) == s.take(b),
    decreases s.len() - b,
{
    if b == s.len() {
        assert(s.take(b) =~= s);
    } else {
        assert(is_sp(s.last()));
        assert(s.drop_last() =~= s.take(s.len() - 1));
        lemma_trim_end_take(s.take(s.len() - 1), b);
    }
}

/// `s` with whitespace stripped at both ends.
pub fn trim_str(s: &str) -> (r: String)
    ensures
        r@ == trim_spec(s@),
{
    let n = s.unicode_len();
    let mut a: usize = 0;
    while a < n
        invariant
            a <= n,
            n == s@.len(),
            forall|j: int| 0 <= j < a ==> is_sp(s@[j]),
        ensures
            a <= n,
            n == s@.len(),
            forall|j: int| 0 <= j < a ==> is_sp(s@[j]),
            a == n || !is_sp(s@[a as int]),
        decreases n - a,
    {
        let c = s.get_char(a);
        if !(c == ' ' || c == '\t' || c == '\n' || c == '\r') {
            break ;
        }
        a = a + 1;
    }
    proof {
        lemma_trim_start_skip(s@, a as int);
    }
    if a == n {
        proof {
            assert(s@.skip(a as int) =~= Seq::<char>::empty());
            assert(trim_end_spec(Seq::<char>::empty()) == Seq::<char>::empty());
        }
        return String::new();
    }
    let mut b: usize = n;
    while b > a + 1
        invariant
            a < b <= n,
            n == s@.len(),
            forall|j: int| b <= j < n ==> is_sp(s@[j]),
        ensures
            a < b <= n,
            n == s@.len(),
            forall|j: int| b <= j < n ==> is_sp(s@[j]),
            b == a + 1 || !is_sp(s@[b - 1]),
        decreases b,
    {
        let c = s.get_char(b - 1);
        if !(c == ' ' || c == '\t' || c == '\n' || c == '\r') {
            break ;
        }
        b = b - 1;
    }
    let piece = s.substring_char(a, b);
    proof {
        assert(!is_sp(s@[a as int]));
        assert(b == a + 1 || !is_sp(s@[b - 1]));
        assert(!is_sp(s@.skip(a as int)[b - a - 1]));
        lemma_trim_end_take(s@.skip(a as int), b as int - a as int);
        assert(piece@ =~= s@.skip(a as int).take(b as int - a as int));
    }
    piece.to_owned()
}

/// `s` with trailing `/` characters stripped.
pub open spec fn trim_end_slash_spec(s: Seq<char>) -> Seq<char>
    decreases s.len(),
{
    if s.len() > 0 && s.last() == '/' {
        trim_end_slash_spec(s.drop_last())
    } else {
        s
    }
}

proof fn lemma_trim_end_slash_take(s: Seq<char>, b: int)
    requires
        0 <= b <= s.len(),
        forall|j: int| b <= j < s.len() ==> s[j] == '/',
        b == 0 || s[b - 1] != '/',
    ensures
        trim_end_slash_spec(s) == s.take(b),
    decreases s.len() - b,
{
    if b == s.len() {
        assert(s.take(b) =~= s);
    } else {
        assert(s.drop_last() =~= s.take(s.len() - 1));
        lemma_trim_end_slash_take(s.take(s.len() - 1), b);
    }
}

/// `s` with trailing `/` characters stripped.
pub fn trim_end_slashes(s: &str) -> (r: String)
    ensures
        r@ == trim_end_slash_spec(s@),
{
    let n = s.unicode_len();
    let mut b: usize = n;
    while b > 0
        invariant
            b <= n,
            n == s@.len(),
            forall|j: int| b <= j < n ==> s@[j] == '/',
        ensures
            b <= n,
            n == s@.len(),
            forall|j: int| b <= j < n ==> s@[j] == '/',
            b == 0 || s@[b - 1] != '/',
        decreases b,
    {
        if s.get_char(b - 1) != '/' {
            break ;
        }
        b = b - 1;
    }
    proof {
        lemma_trim_end_slash_take(s@, b as int);
    }
    let piece = s.substring_char(0, b);
    proof {
        assert(piece@ =~= s@.take(b as int));
    }
    piece.to_owned()
}

/// `s` with leading `.` characters stripped.
pub open spec fn trim_start_dot_spec(s: Seq<char>) -> Seq<char>
    decreases s.len(),
{
    if s.len() > 0 && s[0] == '.' {
        trim_start_dot_spec(s.drop_first())
    } else {
        s
    }
}

proof fn lemma_trim_start_dot_skip(s: Seq<char>, a: int)
    requires
        0 <= a <= s.len(),
        forall|j: int| 0 <= j < a ==> s[j] == '.',
        a == s.len() || s[a] != '.',
    ensures
        trim_start_dot_spec(s) == s.skip(a),
    decreases a,
{
    if a == 0 {
        assert(s.skip(0) =~= s);
    } else {
        assert(s.drop_first() =~= s.skip(1));
        lemma_trim_start_dot_skip(s.skip(1), a - 1);
        assert(s.skip(1).skip(a - 1) =~= s.skip(a));
    }
}

/// `s` with leading `.` characters stripped.
pub fn trim_start_dots(s: &str) -> (r: String)
    ensures
        r@ == trim_start_dot_spec(s@),
{
    let n = s.unicode_len();
    let mut a: usize = 0;
    while a < n
        invariant
            a <= n,
            n == s@.len(),
            forall|j: int| 0 <= j < a ==> s@[j] == '.',
        ensures
            a <= n,
            n == s@.len(),
            forall|j: int| 0 <= j < a ==> s@[j] == '.',
            a == n || s@[a as int] != '.',
        decreases n - a,
    {
        if s.get_char(a) != '.' {
            break ;
        }
        a = a + 1;
    }
    proof {
        lemma_trim_start_dot_skip(s@, a as int);
    }
    let piece = s.substring_char(a, n);
    proof {
        assert(piece@ =~= s@.skip(a as int));
    }
    piece.to_owned()
}

/// ASCII lowercase of one character; other characters stand unchanged.
pub open spec fn lower_char(c: char) -> char {
    if c == 'A' {
        'a'
    } else if c == 'B' {
        'b'
    } else if c == 'C' {
        'c'
    } else if c == 'D' {
        'd'
    } else if c == 'E' {
        'e'
    } else if c == 'F' {
        'f'
    } else if c == 'G' {
        'g'
    } else if c == 'H' {
        'h'
    } else if c == 'I' {
        'i'
    } else if c == 'J' {
        'j'
    } else if c == 'K' {
        'k'
    } else if c == 'L' {
        'l'
    } else if c == 'M' {
        'm'
    } else if c == 'N' {
        'n'
    } else if c == 'O' {
        'o'
    } else if c == 'P' {
        'p'
    } else if c == 'Q' {
        'q'
    } else if c == 'R' {
        'r'
    } else if c == 'S' {
        's'
    } else if c == 'T' {
        't'
    } else if c == 'U' {
        'u'
    } else if c == 'V' {
        'v'
    } else if c == 'W' {
        'w'
    } else if c == 'X' {
        'x'
    } else if c == 'Y' {
        'y'
    } else if c == 'Z' {
        'z'
    } else {
        c
    }
}

/// ASCII lowercase of a whole string.
pub open spec fn lower_seq(s: Seq<char>) -> Seq<char> {
    s.map_values(|c: char| lower_char(c))
}

/// ASCII lowercase of `s`: uppercase ASCII letters fall, the rest stands.
pub fn to_ascii_lower(s: &str) -> (r: String)
    ensures
        r@ == lower_seq(s@),
{
    let n = s.unicode_len();
    let mut out = String::new();
    let mut i: usize = 0;
    proof {
        assert(lower_seq(s@.take(0)) =~= Seq::<char>::empty());
    }
    while i < n
        invariant
            i <= n,
            n == s@.len(),
            out@ == lower_seq(s@.take(i as int)),
        decreases n - i,
    {
        let c = s.get_char(i);
        if c == 'A' {
            out.append("a");
            proof {
                reveal_strlit("a");
                assert(out@ =~= lower_seq(s@.take(i + 1)));
            }
        } else if c == 'B' {
            out.append("b");
            proof {
                reveal_strlit("b");
                assert(out@ =~= lower_seq(s@.take(i + 1)));
            }
        } else if c == 'C' {
            out.append("c");
            proof {
                reveal_strlit("c");
                assert(out@ =~= lower_seq(s@.take(i + 1)));
            }
        } else if c == 'D' {
            out.append("d");
            proof {
                reveal_strlit("d");
                assert(out@ =~= lower_seq(s@.take(i + 1)));
            }
        } else if c == 'E' {
            out.append("e");
            proof {
                reveal_strlit("e");
                assert(out@ =~= lower_seq(s@.take(i + 1)));
            }
        } else if c == 'F' {
            out.append("f");
            proof {
                reveal_strlit("f");
                assert(out@ =~= lower_seq(s@.take(i + 1)));
            }
        } else if c == 'G' {
            out.append("g");
            proof {
                reveal_strlit("g");
                assert(out@ =~= lower_seq(s@.take(i + 1)));
            }
        } else if c == 'H' {
            out.append("h");
            proof {
                reveal_strlit("h");
                assert(out@ =~= lower_seq(s@.take(i + 1)));
            }
        } else if c == 'I' {
            out.append("i");
            proof {
                reveal_strlit("i");
                assert(out@ =~= lower_seq(s@.take(i + 1)));
            }
        } else if c == 'J' {
            out.append("j");
            proof {
                reveal_strlit("j");
                assert(out@ =~= lower_seq(s@.take(i + 1)));
            }
        } else if c == 'K' {
            out.append("k");
            proof {
                reveal_strlit("k");
                assert(out@ =~= lower_seq(s@.take(i + 1)));
            }
        } else if c == 'L' {
            out.append("l");
            proof {
                reveal_strlit("l");
                assert(out@ =~= lower_seq(s@.take(i + 1)));
            }
        } else if c == 'M' {
            out.append("m");
            proof {
                reveal_strlit("m");
                assert(out@ =~= lower_seq(s@.take(i + 1)));
            }
        } else if c == 'N' {
            out.append("n");
            proof {
                reveal_strlit("n");
                assert(out@ =~= lower_seq(s@.take(i + 1)));
            }
        } else if c == 'O' {
            out.append("o");
            proof {
                reveal_strlit("o");
                assert(out@ =~= lower_seq(s@.take(i + 1)));
            }
        } else if c == 'P' {
            out.append("p");
            proof {
                reveal_strlit("p");
                assert(out@ =~= lower_seq(s@.take(i + 1)));
            }
        } else if c == 'Q' {
            out.append("q");
            proof {
                reveal_strlit("q");
                assert(out@ =~= lower_seq(s@.take(i + 1)));
            }
        } else if c == 'R' {
            out.append("r");
            proof {
                reveal_strlit("r");
                assert(out@ =~= lower_seq(s@.take(i + 1)));
            }
        } else if c == 'S' {
            out.append("s");
            proof {
                reveal_strlit("s");
                assert(out@ =~= lower_seq(s@.take(i + 1)));
            }
        } else if c == 'T' {
            out.append("t");
            proof {
                reveal_strlit("t");
                assert(out@ =~= lower_seq(s@.take(i + 1)));
            }
        } else if c == 'U' {
            out.append("u");
            proof {
                reveal_strlit("u");
                assert(out@ =~= lower_seq(s@.take(i + 1)));
            }
        } else if c == 'V' {
            out.append("v");
            proof {
                reveal_strlit("v");
                assert(out@ =~= lower_seq(s@.take(i + 1)));
            }
        } else if c == 'W' {
            out.append("w");
            proof {
                reveal_strlit("w");
                assert(out@ =~= lower_seq(s@.take(i + 1)));
            }
        } else if c == 'X' {
            out.append("x");
            proof {
                reveal_strlit("x");
                assert(out@ =~= lower_seq(s@.take(i + 1)));
            }
        } else if c == 'Y' {
            out.append("y");
            proof {
                reveal_strlit("y");
                assert(out@ =~= lower_seq(s@.take(i + 1)));
            }
        } else if c == 'Z' {
            out.append("z");
            proof {
                reveal_strlit("z");
                assert(out@ =~= lower_seq(s@.take(i + 1)));
            }
        } else {
            let piece = s.substring_char(i, i + 1);
            out.append(piece);
            proof {
                assert(piece@ =~= seq![s@[i as int]]);
                assert(out@ =~= lower_seq(s@.take(i + 1)));
            }
        }
        i = i + 1;
    }
    proof {
        assert(s@.take(n as int) =~= s@);
    }
    out
}

/// Does `suffix@` close `s@`?
pub fn str_ends_with(s: &str, suffix: &str) -> (r: bool)
    ensures
        r == suffix@.is_suffix_of(s@),
{
    let sn = s.unicode_len();
    let fn_ = suffix.unicode_len();
    if fn_ > sn {
        return false;
    }
    let tail = s.substring_char(sn - fn_, sn);
    proof {
        assert(tail@ =~= s@.skip(sn as int - fn_ as int));
        assert(suffix@.is_suffix_of(s@) == (suffix@ =~= s@.skip(sn as int - fn_ as int)));
    }
    str_eq(tail, suffix)
}

/// Lexicographic order on character sequences, by code point: the order
/// `String` comparison gives.
pub open spec fn lex_le(a: Seq<char>, b: Seq<char>) -> bool
    decreases a.len(),
{
    if a.len() == 0 {
        true
    } else if b.len() == 0 {
        false
    } else if a[0] < b[0] {
        true
    } else if a[0] > b[0] {
        false
    } else {
        lex_le(a.drop_first(), b.drop_first())
    }
}

pub proof fn lemma_lex_le_total(a: Seq<char>, b: Seq<char>)
    ensures
        lex_le(a, b) || lex_le(b, a),
    decreases a.len(),
{
    if a.len() > 0 && b.len() > 0 && a[0] == b[0] {
        lemma_lex_le_total(a.drop_first(), b.drop_first());
    }
}

pub proof fn lemma_lex_le_antisym(a: Seq<char>, b: Seq<char>)
    requires
        lex_le(a, b),
        lex_le(b, a),
    ensures
        a == b,
    decreases a.len(),
{
    if a.len() == 0 {
        assert(b.len() == 0);
        assert(a =~= b);
    } else {
        assert(b.len() > 0);
        assert(a[0] == b[0]);
        lemma_lex_le_antisym(a.drop_first(), b.drop_first());
        assert(a =~= b) by {
            assert(forall|i: int|
                1 <= i < a.len() ==> a[i] == a.drop_first()[i - 1] && b[i] == b.drop_first()[i
                    - 1]);
        }
    }
}

pub proof fn lemma_lex_le_trans(a: Seq<char>, b: Seq<char>, c: Seq<char>)
    requires
        lex_le(a, b),
        lex_le(b, c),
    ensures
        lex_le(a, c),
    decreases a.len(),
{
    if a.len() > 0 && b.len() > 0 && c.len() > 0 && a[0] == b[0] && b[0] == c[0] {
        lemma_lex_le_trans(a.drop_first(), b.drop_first(), c.drop_first());
    }
}

/// Is `a` at or before `b` in lexicographic order?
pub fn str_lex_le(a: &str, b: &str) -> (r: bool)
    ensures
        r == lex_le(a@, b@),
{
    let an = a.unicode_len();
    let bn = b.unicode_len();
    let mut i: usize = 0;
    proof {
        assert(a@.skip(0) =~= a@);
        assert(b@.skip(0) =~= b@);
    }
    while i < an && i < bn
        invariant
            i <= an,
            i <= bn,
            an == a@.len(),
            bn == b@.len(),
            lex_le(a@, b@) == lex_le(a@.skip(i as int), b@.skip(i as int)),
        ensures
            i <= an,
            i <= bn,
            an == a@.len(),
            bn == b@.len(),
            lex_le(a@, b@) == lex_le(a@.skip(i as int), b@.skip(i as int)),
            i == an || i == bn || a@[i as int] != b@[i as int],
        decreases an - i,
    {
        let ca = a.get_char(i);
        let cb = b.get_char(i);
        if ca != cb {
            break ;
        }
        proof {
            assert(a@.skip(i as int)[0] == a@[i as int]);
            assert(b@.skip(i as int)[0] == b@[i as int]);
            assert(a@.skip(i as int).drop_first() =~= a@.skip(i + 1));
            assert(b@.skip(i as int).drop_first() =~= b@.skip(i + 1));
        }
        i = i + 1;
    }
    proof {
        if i == an {
            assert(a@.skip(i as int) =~= Seq::<char>::empty());
        } else if i == bn {
            assert(b@.skip(i as int) =~= Seq::<char>::empty());
            assert(a@.skip(i as int).len() > 0);
        } else {
            assert(a@.skip(i as int)[0] == a@[i as int]);
            assert(b@.skip(i as int)[0] == b@[i as int]);
        }
    }
    if i == an {
        true
    } else if i == bn {
        false
    } else {
        let ca = a.get_char(i);
        let cb = b.get_char(i);
        (ca as u32) < (cb as u32)
    }
}

/// A decimal digit.
pub open spec fn is_digit(c: char) -> bool {
    48 <= (c as u32) <= 57
}

/// The value of a decimal digit.
pub open spec fn digit_val(c: char) -> int {
    (c as u32) - 48
}

/// Every character is a decimal digit.
pub open spec fn all_digits(s: Seq<char>) -> bool {
    forall|i: int| 0 <= i < s.len() ==> is_digit(#[trigger] s[i])
}

/// The number a digit string denotes.
pub open spec fn digits_val(s: Seq<char>) -> int
    decreases s.len(),
{
    if s.len() == 0 {
        0
    } else {
        digits_val(s.drop_last()) * 10 + digit_val(s.last())
    }
}

/// How `u64` reads from a string: an optional leading `+`, then one or more
/// decimal digits, valued within range.
pub open spec fn parse_u64_spec(s: Seq<char>) -> Option<u64> {
    let body = if s.len() > 0 && s[0] == '+' {
        s.drop_first()
    } else {
        s
    };
    if body.len() > 0 && all_digits(body) && digits_val(body) <= u64::MAX {
        Some(digits_val(body) as u64)
    } else {
        None
    }
}

/// How `u16` reads from a string.
pub open spec fn parse_u16_spec(s: Seq<char>) -> Option<u16> {
    match parse_u64_spec(s) {
        Some(v) => if v <= u16::MAX {
            Some(v as u16)
        } else {
            None
        },
        None => None,
    }
}

proof fn lemma_digits_val_nonneg(s: Seq<char>)
    requires
        all_digits(s),
    ensures
        digits_val(s) >= 0,
    decreases s.len(),
{
    if s.len() > 0 {
        assert(is_digit(s.last()));
        lemma_digits_val_nonneg(s.drop_last());
    }
}

proof fn lemma_digits_val_grows(s: Seq<char>, i: int)
    requires
        all_digits(s),
        0 <= i <= s.len(),
    ensures
        digits_val(s.take(i)) <= digits_val(s),
    decreases s.len() - i,
{
    if i < s.len() {
        lemma_digits_val_grows(s, i + 1);
        assert(s.take(i + 1).drop_last() =~= s.take(i));
        assert(s.take(i + 1).last() == s[i]);
        lemma_digits_val_nonneg(s.take(i));
        assert(is_digit(s[i]));
        assert(digits_val(s.take(i)) <= digits_val(s.take(i)) * 10 + digit_val(s[i]));
    } else {
        assert(s.take(i) =~= s);
    }
}

fn parse_digits(s: &str, from: usize) -> (r: Option<u64>)
    requires
        from <= s@.len(),
    ensures
        ({
            let body = s@.skip(from as int);
            match r {
                Some(v) => body.len() > 0 && all_digits(body) && digits_val(body) == v,
                None => !(body.len() > 0 && all_digits(body) && digits_val(body) <= u64::MAX),
            }
        }),
{
    let ghost body = s@.skip(from as int);
    let n = s.unicode_len();
    if from == n {
        return None;
    }
    let mut acc: u64 = 0;
    let mut i: usize = from;
    while i < n
        invariant
            from <= i <= n,
            n == s@.len(),
            body == s@.skip(from as int),
            all_digits(body.take(i - from)),
            acc == digits_val(body.take(i - from)),
        decreases n - i,
    {
        let c = s.get_char(i);
        let code = c as u32;
        proof {
            assert(body.take(i - from + 1).drop_last() =~= body.take(i - from));
            assert(body.take(i - from + 1).last() == s@[i as int]);
        }
        if !(code >= 48 && code <= 57) {
            proof {
                assert(body[i - from] == s@[i as int]);
                assert(!is_digit(body[i - from]));
            }
            return None;
        }
        let d = (code - 48) as u64;
        // stop as soon as another digit would push the value past the range
        if acc > (u64::MAX - d) / 10 {
            proof {
                assert(all_digits(body.take(i - from + 1)));
                assert(digits_val(body.take(i - from + 1)) == acc * 10 + d);
                assert(acc * 10 + d > u64::MAX) by (nonlinear_arith)
                    requires
                        acc > (u64::MAX - d) / 10,
                        d < 10,
                ;
                if all_digits(body) {
                    lemma_digits_val_grows(body, i - from + 1);
                    assert(digits_val(body) > u64::MAX);
                }
            }
            return None;
        }
        acc = acc * 10 + d;
        i = i + 1;
    }
    proof {
        assert(body.take(n - from) =~= body);
    }
    Some(acc)
}

/// `s` read as a `u64`, exactly as the standard parser reads it: an optional
/// `+`, then decimal digits within range.
pub fn parse_u64(s: &str) -> (r: Option<u64>)
    ensures
        r == parse_u64_spec(s@),
{
    let n = s.unicode_len();
    if n > 0 && s.get_char(0) == '+' {
        proof {
            assert(s@.drop_first() =~= s@.skip(1));
        }
        parse_digits(s, 1)
    } else {
        proof {
            assert(s@.skip(0) =~= s@);
        }
        parse_digits(s, 0)
    }
}

/// `s` read as a `u16`.
pub fn parse_u16(s: &str) -> (r: Option<u16>)
    ensures
        r == parse_u16_spec(s@),
{
    match parse_u64(s) {
        Some(v) => if v <= 65535 {
            Some(v as u16)
        } else {
            None
        },
        None => None,
    }
}

} // verus!
