//! Character-level text rules: ASCII case folding, lexicographic order,
//! SQL `LIKE` matching and decimal rendering.

use vstd::prelude::*;
use vstd::string::*;

verus! {

broadcast use vstd::string::group_string_axioms;

/// The characters of `s`, in order.
pub fn chars_of(s: &str) -> (out: Vec<char>)
    ensures
        out@ == s@,
{
    let mut out: Vec<char> = Vec::new();
    for c in it: s.chars()
        invariant
            out@ == it.seq().take(it.index() as int),
            it.seq() == s@,
    {
        out.push(c);
    }
    out
}

/// ASCII case folding: `A`..`Z` become `a`..`z`, every other character keeps
/// its code point.
pub open spec fn fold_ascii(c: char) -> u32 {
    if 'A' <= c && c <= 'Z' {
        ((c as u32) + 32) as u32
    } else {
        c as u32
    }
}

/// The sort key of `s` under case-insensitive (ASCII) collation.
pub open spec fn nocase_key(s: Seq<char>) -> Seq<u32> {
    s.map_values(|c: char| fold_ascii(c))
}

/// The sort key of `s` under binary collation: its code points.
pub open spec fn binary_key(s: Seq<char>) -> Seq<u32> {
    s.map_values(|c: char| c as u32)
}

/// Strict lexicographic order; a proper prefix comes first.
pub open spec fn seq_lt(a: Seq<u32>, b: Seq<u32>) -> bool
    decreases a.len(),
{
    if a.len() == 0 {
        b.len() > 0
    } else if b.len() == 0 {
        false
    } else if a[0] < b[0] {
        true
    } else if a[0] > b[0] {
        false
    } else {
        seq_lt(a.drop_first(), b.drop_first())
    }
}

/// Lexicographic order is transitive.
pub proof fn lemma_seq_lt_transitive(a: Seq<u32>, b: Seq<u32>, c: Seq<u32>)
    requires
        seq_lt(a, b),
        seq_lt(b, c),
    ensures
        seq_lt(a, c),
    decreases a.len(),
{
    if a.len() > 0 && b.len() > 0 && c.len() > 0 && a[0] == b[0] && b[0] == c[0] {
        lemma_seq_lt_transitive(a.drop_first(), b.drop_first(), c.drop_first());
    }
}

/// Lexicographic order is irreflexive and asymmetric.
pub proof fn lemma_seq_lt_asymmetric(a: Seq<u32>, b: Seq<u32>)
    ensures
        !(seq_lt(a, b) && seq_lt(b, a)),
        !seq_lt(a, a),
    decreases a.len(),
{
    if a.len() > 0 && b.len() > 0 && a[0] == b[0] {
        lemma_seq_lt_asymmetric(a.drop_first(), b.drop_first());
    }
    if a.len() > 0 {
        lemma_seq_lt_asymmetric(a.drop_first(), a.drop_first());
    }
}

/// Two keys that are not ordered either way are equal.
pub proof fn lemma_seq_lt_total(a: Seq<u32>, b: Seq<u32>)
    ensures
        seq_lt(a, b) || seq_lt(b, a) || a == b,
    decreases a.len(),
{
    if a.len() > 0 && b.len() > 0 && a[0] == b[0] {
        lemma_seq_lt_total(a.drop_first(), b.drop_first());
        if a.drop_first() == b.drop_first() {
            assert(a =~= seq![a[0]] + a.drop_first());
            assert(b =~= seq![b[0]] + b.drop_first());
        }
    } else if a.len() == 0 && b.len() == 0 {
        assert(a =~= b);
    }
}

/// The sort key of `s`: folded when `nocase`, code points otherwise.
pub open spec fn collation_key(s: Seq<char>, nocase: bool) -> Seq<u32> {
    if nocase {
        nocase_key(s)
    } else {
        binary_key(s)
    }
}

/// Computes the sort key of `s` under the chosen collation.
pub fn key_of(s: &str, nocase: bool) -> (k: Vec<u32>)
    ensures
        k@ == collation_key(s@, nocase),
{
    let cs = chars_of(s);
    let mut k: Vec<u32> = Vec::new();
    let mut i: usize = 0;
    while i < cs.len()
        invariant
            cs@ == s@,
            i <= cs.len(),
            k@ == collation_key(s@.subrange(0, i as int), nocase),
        decreases cs.len() - i,
    {
        let c = cs[i];
        let v: u32 = if nocase && 'A' <= c && c <= 'Z' {
            (c as u32) + 32
        } else {
            c as u32
        };
        k.push(v);
        i = i + 1;
        assert(collation_key(s@.subrange(0, i as int), nocase) =~= collation_key(
            s@.subrange(0, i - 1),
            nocase,
        ).push(v));
    }
    assert(s@.subrange(0, i as int) =~= s@);
    k
}

/// Decides `seq_lt(a, b)`.
pub fn key_less(a: &Vec<u32>, b: &Vec<u32>) -> (r: bool)
    ensures
        r == seq_lt(a@, b@),
{
    let mut i: usize = 0;
    assert(a@.skip(0) =~= a@);
    assert(b@.skip(0) =~= b@);
    while i < a.len() && i < b.len()
        invariant
            i <= a.len(),
            i <= b.len(),
            seq_lt(a@, b@) == seq_lt(a@.skip(i as int), b@.skip(i as int)),
        decreases a.len() - i,
    {
        if a[i] < b[i] {
            return true;
        }
        if a[i] > b[i] {
            return false;
        }
        assert(a@.skip(i as int).drop_first() =~= a@.skip(i + 1));
        assert(b@.skip(i as int).drop_first() =~= b@.skip(i + 1));
        i = i + 1;
    }
    i == a.len() && i < b.len()
}

/// SQL `LIKE` without an escape character: `%` matches any run of
/// characters, `_` matches exactly one, and any other pattern character
/// matches a text character equal to it up to ASCII case.
pub open spec fn like_match(p: Seq<char>, s: Seq<char>) -> bool
    decreases p.len() + s.len(),
{
    if p.len() == 0 {
        s.len() == 0
    } else if p[0] == '%' {
        like_match(p.drop_first(), s) || (s.len() > 0 && like_match(p, s.drop_first()))
    } else {
        s.len() > 0 && (p[0] == '_' || fold_ascii(p[0]) == fold_ascii(s[0])) && like_match(
            p.drop_first(),
            s.drop_first(),
        )
    }
}

/// `name LIKE '%' || needle || '%'`: the name holds a stretch that matches
/// `needle` as a `LIKE` pattern.
pub open spec fn like_contains(needle: Seq<char>, name: Seq<char>) -> bool {
    like_match(seq!['%'] + needle + seq!['%'], name)
}

proof fn lemma_like_step(p: Seq<char>, s: Seq<char>, i: int, j: int)
    requires
        0 <= i < p.len(),
        0 <= j <= s.len(),
    ensures
        like_match(p.skip(i), s.skip(j)) == (if p[i] == '%' {
            like_match(p.skip(i + 1), s.skip(j)) || (j < s.len() && like_match(
                p.skip(i),
                s.skip(j + 1),
            ))
        } else {
            j < s.len() && (p[i] == '_' || fold_ascii(p[i]) == fold_ascii(s[j])) && like_match(
                p.skip(i + 1),
                s.skip(j + 1),
            )
        }),
{
    assert(p.skip(i).drop_first() =~= p.skip(i + 1));
    if j < s.len() {
        assert(s.skip(j).drop_first() =~= s.skip(j + 1));
    }
}

/// Folds one character as `fold_ascii` does.
pub fn fold_char(c: char) -> (r: u32)
    ensures
        r == fold_ascii(c),
{
    if 'A' <= c && c <= 'Z' {
        (c as u32) + 32
    } else {
        c as u32
    }
}

/// Decides `like_match(pattern, text)` by dynamic programming over the
/// suffixes of both, one pattern position at a time.  A row holds the
/// answers for the text suffixes that start at `0..n`; the answer for the
/// empty text suffix is kept beside it.
pub fn like_matches(pattern: &Vec<char>, text: &Vec<char>) -> (r: bool)
    ensures
        r == like_match(pattern@, text@),
{
    let m = pattern.len();
    let n = text.len();
    let mut next: Vec<bool> = Vec::new();
    let mut j: usize = 0;
    while j < n
        invariant
            n == text.len(),
            m == pattern.len(),
            j <= n,
            next@.len() == j,
            forall|k: int|
                0 <= k < j ==> next@[k] == like_match(pattern@.skip(m as int), text@.skip(k)),
        decreases n - j,
    {
        assert(text@.skip(j as int).len() > 0);
        next.push(false);
        j = j + 1;
    }
    let mut next_end: bool = true;
    assert(pattern@.skip(m as int).len() == 0 && text@.skip(n as int).len() == 0);
    let mut i: usize = m;
    while i > 0
        invariant
            m == pattern.len(),
            n == text.len(),
            i <= m,
            next@.len() == n,
            next_end == like_match(pattern@.skip(i as int), text@.skip(n as int)),
            forall|k: int|
                0 <= k < n ==> next@[k] == like_match(pattern@.skip(i as int), text@.skip(k)),
        decreases i,
    {
        let pi = i - 1;
        let pc = pattern[pi];
        proof {
            lemma_like_step(pattern@, text@, pi as int, n as int);
        }
        let cur_end: bool = if pc == '%' {
            next_end
        } else {
            false
        };
        let mut cur: Vec<bool> = Vec::new();
        let mut j: usize = 0;
        while j < n
            invariant
                n == text.len(),
                j <= n,
                cur@.len() == j,
            decreases n - j,
        {
            cur.push(false);
            j = j + 1;
        }
        let mut j: usize = n;
        while j > 0
            invariant
                m == pattern.len(),
                n == text.len(),
                pi < m,
                pc == pattern@[pi as int],
                j <= n,
                cur@.len() == n,
                next@.len() == n,
                next_end == like_match(pattern@.skip(pi + 1), text@.skip(n as int)),
                cur_end == like_match(pattern@.skip(pi as int), text@.skip(n as int)),
                forall|k: int|
                    0 <= k < n ==> next@[k] == like_match(pattern@.skip(pi + 1), text@.skip(k)),
                forall|k: int|
                    j <= k < n ==> cur@[k] == like_match(pattern@.skip(pi as int), text@.skip(k)),
            decreases j,
        {
            let jj = j - 1;
            proof {
                lemma_like_step(pattern@, text@, pi as int, jj as int);
            }
            let later = if jj + 1 < n {
                cur[jj + 1]
            } else {
                cur_end
            };
            let next_later = if jj + 1 < n {
                next[jj + 1]
            } else {
                next_end
            };
            let v = if pc == '%' {
                next[jj] || later
            } else {
                (pc == '_' || fold_char(pc) == fold_char(text[jj])) && next_later
            };
            cur.set(jj, v);
            j = jj;
        }
        next = cur;
        next_end = cur_end;
        i = pi;
    }
    assert(pattern@.skip(0) =~= pattern@);
    assert(text@.skip(0) =~= text@);
    if n == 0 {
        next_end
    } else {
        next[0]
    }
}

/// Decides `name LIKE '%' || needle || '%'`.
pub fn name_like(needle: &str, name: &str) -> (r: bool)
    ensures
        r == like_contains(needle@, name@),
{
    let inner = chars_of(needle);
    let mut pattern: Vec<char> = Vec::new();
    pattern.push('%');
    let mut i: usize = 0;
    while i < inner.len()
        invariant
            i <= inner.len(),
            pattern@ == seq!['%'] + inner@.subrange(0, i as int),
        decreases inner.len() - i,
    {
        pattern.push(inner[i]);
        i = i + 1;
        assert(pattern@ =~= seq!['%'] + inner@.subrange(0, i as int));
    }
    pattern.push('%');
    assert(pattern@ =~= seq!['%'] + needle@ + seq!['%']);
    let text = chars_of(name);
    like_matches(&pattern, &text)
}

/// The character of a decimal digit.
pub open spec fn digit_char(d: nat) -> char {
    if d == 0 {
        '0'
    } else if d == 1 {
        '1'
    } else if d == 2 {
        '2'
    } else if d == 3 {
        '3'
    } else if d == 4 {
        '4'
    } else if d == 5 {
        '5'
    } else if d == 6 {
        '6'
    } else if d == 7 {
        '7'
    } else if d == 8 {
        '8'
    } else {
        '9'
    }
}

/// The decimal numeral of `n`, without leading zeros.
pub open spec fn decimal(n: nat) -> Seq<char>
    decreases n,
{
    if n < 10 {
        seq![digit_char(n)]
    } else {
        decimal(n / 10) + seq![digit_char(n % 10)]
    }
}

fn digit_str(d: u32) -> (s: &'static str)
    requires
        d < 10,
    ensures
        s@ == seq![digit_char(d as nat)],
{
    proof {
        reveal_strlit("0");
        reveal_strlit("1");
        reveal_strlit("2");
        reveal_strlit("3");
        reveal_strlit("4");
        reveal_strlit("5");
        reveal_strlit("6");
        reveal_strlit("7");
        reveal_strlit("8");
        reveal_strlit("9");
    }
    let s = if d == 0 {
        "0"
    } else if d == 1 {
        "1"
    } else if d == 2 {
        "2"
    } else if d == 3 {
        "3"
    } else if d == 4 {
        "4"
    } else if d == 5 {
        "5"
    } else if d == 6 {
        "6"
    } else if d == 7 {
        "7"
    } else if d == 8 {
        "8"
    } else {
        "9"
    };
    assert(s@ =~= seq![digit_char(d as nat)]);
    s
}

/// Appends the decimal numeral of `n` to `out`.
pub fn push_decimal(out: &mut String, n: u32)
    ensures
        final(out)@ == old(out)@ + decimal(n as nat),
    decreases n,
{
    if n >= 10 {
        push_decimal(out, n / 10);
    }
    out.append(digit_str(n % 10));
    assert(out@ =~= old(out)@ + decimal(n as nat));
}

} // verus!
