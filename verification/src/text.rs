//! Whitespace handling: recognizing space characters, trimming a line, and
//! splitting text into whitespace-separated tokens or newline-separated lines.

use vstd::prelude::*;
use vstd::string::*;

verus! {

/// The whitespace characters this library recognizes: the Unicode
/// White_Space set, the same characters `str::trim` and
/// `str::split_whitespace` go by.
pub open spec fn is_space_char(c: char) -> bool {
    ||| c == ' '
    ||| c == '\t'
    ||| c == '\n'
    ||| c == '\u{b}'
    ||| c == '\u{c}'
    ||| c == '\r'
    ||| c == '\u{85}'
    ||| c == '\u{a0}'
    ||| c == '\u{1680}'
    ||| c == '\u{2000}'
    ||| c == '\u{2001}'
    ||| c == '\u{2002}'
    ||| c == '\u{2003}'
    ||| c == '\u{2004}'
    ||| c == '\u{2005}'
    ||| c == '\u{2006}'
    ||| c == '\u{2007}'
    ||| c == '\u{2008}'
    ||| c == '\u{2009}'
    ||| c == '\u{200a}'
    ||| c == '\u{2028}'
    ||| c == '\u{2029}'
    ||| c == '\u{202f}'
    ||| c == '\u{205f}'
    ||| c == '\u{3000}'
}

/// Executable test for [`is_space_char`].
pub fn is_space(c: char) -> (r: bool)
    ensures
        r == is_space_char(c),
{
    c == ' ' || c == '\t' || c == '\n' || c == '\u{b}' || c == '\u{c}' || c == '\r'
        || c == '\u{85}' || c == '\u{a0}' || c == '\u{1680}' || (c == '\u{2000}' || c == '\u{2001}'
        || c == '\u{2002}' || c == '\u{2003}' || c == '\u{2004}' || c == '\u{2005}' || c
        == '\u{2006}' || c == '\u{2007}' || c == '\u{2008}' || c == '\u{2009}' || c == '\u{200a}')
        || c == '\u{2028}' || c == '\u{2029}' || c == '\u{202f}' || c == '\u{205f}' || c
        == '\u{3000}'
}

/// Number of whitespace characters at the front of `s`.
pub open spec fn leading_spaces(s: Seq<char>) -> nat
    decreases s.len(),
{
    if s.len() == 0 || !is_space_char(s[0]) {
        0
    } else {
        1 + leading_spaces(s.drop_first())
    }
}

/// Number of whitespace characters at the back of `s`.
pub open spec fn trailing_spaces(s: Seq<char>) -> nat
    decreases s.len(),
{
    if s.len() == 0 || !is_space_char(s.last()) {
        0
    } else {
        1 + trailing_spaces(s.drop_last())
    }
}

/// `s` with leading and trailing whitespace removed.
pub open spec fn trim_spec(s: Seq<char>) -> Seq<char> {
    if leading_spaces(s) == s.len() {
        Seq::empty()
    } else {
        s.subrange(leading_spaces(s) as int, s.len() - trailing_spaces(s) as int)
    }
}

/// A nonempty string without whitespace, as produced by tokenization.
pub open spec fn token_seq(x: Seq<char>) -> bool {
    x.len() > 0 && forall|i: int| 0 <= i < x.len() ==> !is_space_char(#[trigger] x[i])
}

/// What `leading_spaces` counts really is a run of whitespace.
pub proof fn lemma_leading_spaces_props(s: Seq<char>)
    ensures
        leading_spaces(s) <= s.len(),
        forall|i: int| 0 <= i < leading_spaces(s) ==> is_space_char(s[i]),
        leading_spaces(s) < s.len() ==> !is_space_char(s[leading_spaces(s) as int]),
    decreases s.len(),
{
    if s.len() == 0 || !is_space_char(s[0]) {
    } else {
        lemma_leading_spaces_props(s.drop_first());
        assert forall|i: int| 0 <= i < leading_spaces(s) implies is_space_char(s[i]) by {
            if i > 0 {
                assert(s.drop_first()[i - 1] == s[i]);
            }
        }
        if leading_spaces(s) < s.len() {
            assert(s.drop_first()[leading_spaces(s) - 1] == s[leading_spaces(s) as int]);
        }
    }
}

/// What `trailing_spaces` counts really is a run of whitespace.
pub proof fn lemma_trailing_spaces_props(s: Seq<char>)
    ensures
        trailing_spaces(s) <= s.len(),
        forall|i: int| s.len() - trailing_spaces(s) <= i < s.len() ==> is_space_char(s[i]),
        trailing_spaces(s) < s.len() ==> !is_space_char(
            s[s.len() - trailing_spaces(s) - 1],
        ),
    decreases s.len(),
{
    if s.len() == 0 || !is_space_char(s.last()) {
    } else {
        lemma_trailing_spaces_props(s.drop_last());
        assert forall|i: int| s.len() - trailing_spaces(s) <= i < s.len()
            implies is_space_char(s[i]) by {
            if i < s.len() - 1 {
                assert(s.drop_last()[i] == s[i]);
            }
        }
    }
}

/// A nonempty trimmed string starts and ends with a non-space character, and
/// trimming whitespace-free text is the identity.
pub proof fn lemma_trim_props(s: Seq<char>)
    ensures
        trim_spec(s).len() > 0 ==> !is_space_char(trim_spec(s)[0]),
        trim_spec(s).len() > 0 ==> !is_space_char(trim_spec(s).last()),
        token_seq(s) ==> trim_spec(s) == s,
{
    lemma_leading_spaces_props(s);
    lemma_trailing_spaces_props(s);
    let a = leading_spaces(s);
    let b = trailing_spaces(s);
    if a < s.len() {
        if s.len() - b <= a {
            assert(is_space_char(s[a as int]));
        }
        assert(a < s.len() - b);
        if b == s.len() {
            assert(is_space_char(s[a as int]));
        }
        assert(trim_spec(s)[0] == s[a as int]);
        assert(trim_spec(s).last() == s[s.len() - b - 1]);
    }
    if token_seq(s) {
        assert(a == 0 && b == 0);
        assert(trim_spec(s) =~= s);
    }
}

/// `leading_spaces(s)` equals any index `a` such that everything before `a`
/// is whitespace and the character at `a` (if any) is not.
pub proof fn lemma_leading_spaces_is(s: Seq<char>, a: int)
    requires
        0 <= a <= s.len(),
        forall|i: int| 0 <= i < a ==> is_space_char(s[i]),
        a < s.len() ==> !is_space_char(s[a]),
    ensures
        leading_spaces(s) == a,
    decreases s.len(),
{
    if s.len() == 0 {
    } else if !is_space_char(s[0]) {
    } else {
        assert(a >= 1);
        assert forall|i: int| 0 <= i < a - 1 implies is_space_char(s.drop_first()[i]) by {
            assert(s.drop_first()[i] == s[i + 1]);
        }
        lemma_leading_spaces_is(s.drop_first(), a - 1);
    }
}

/// `trailing_spaces(s)` equals any count `t` such that the last `t`
/// characters are whitespace and the one before them (if any) is not.
pub proof fn lemma_trailing_spaces_is(s: Seq<char>, t: int)
    requires
        0 <= t <= s.len(),
        forall|i: int| s.len() - t <= i < s.len() ==> is_space_char(s[i]),
        t < s.len() ==> !is_space_char(s[s.len() - t - 1]),
    ensures
        trailing_spaces(s) == t,
    decreases s.len(),
{
    if s.len() == 0 {
    } else if !is_space_char(s.last()) {
        assert(t == 0);
    } else {
        assert(t >= 1);
        assert forall|i: int| s.drop_last().len() - (t - 1) <= i < s.drop_last().len()
            implies is_space_char(s.drop_last()[i]) by {
            assert(s.drop_last()[i] == s[i]);
        }
        lemma_trailing_spaces_is(s.drop_last(), t - 1);
    }
}

/// Returns the slice of `s` with surrounding whitespace removed.
pub fn trim_str<'a>(s: &'a str) -> (r: &'a str)
    ensures
        r@ == trim_spec(s@),
{
    let n = s.unicode_len();
    let mut a: usize = 0;
    while a < n && is_space(s.get_char(a))
        invariant
            a <= n,
            n == s@.len(),
            forall|i: int| 0 <= i < a ==> is_space_char(s@[i]),
        decreases n - a,
    {
        a = a + 1;
    }
    proof {
        lemma_leading_spaces_is(s@, a as int);
    }
    if a == n {
        let r = s.substring_char(n, n);
        proof {
            assert(r@ =~= trim_spec(s@));
        }
        r
    } else {
        let mut b: usize = n;
        while b > a && is_space(s.get_char(b - 1))
            invariant
                a <= b <= n,
                n == s@.len(),
                !is_space_char(s@[a as int]),
                forall|i: int| b <= i < n ==> is_space_char(s@[i]),
            decreases b,
        {
            b = b - 1;
        }
        proof {
            assert(b > a);
            lemma_trailing_spaces_is(s@, n - b);
        }
        let r = s.substring_char(a, b);
        proof {
            assert(r@ =~= trim_spec(s@));
        }
        r
    }
}

/// Tokens of `s` when the partial token `cur` has already been read.
pub open spec fn tokens_acc(s: Seq<char>, cur: Seq<char>) -> Seq<Seq<char>>
    decreases s.len(),
{
    if s.len() == 0 {
        if cur.len() == 0 {
            Seq::empty()
        } else {
            seq![cur]
        }
    } else if is_space_char(s[0]) {
        if cur.len() == 0 {
            tokens_acc(s.drop_first(), Seq::empty())
        } else {
            seq![cur] + tokens_acc(s.drop_first(), Seq::empty())
        }
    } else {
        tokens_acc(s.drop_first(), cur.push(s[0]))
    }
}

/// The maximal whitespace-free runs of `s`, in order.
pub open spec fn tokens(s: Seq<char>) -> Seq<Seq<char>> {
    tokens_acc(s, Seq::empty())
}

/// Reading a whitespace-free run of length `k` moves it into the accumulator.
pub proof fn lemma_tokens_acc_run(s: Seq<char>, cur: Seq<char>, k: int)
    requires
        0 <= k <= s.len(),
        forall|m: int| 0 <= m < k ==> !is_space_char(s[m]),
    ensures
        tokens_acc(s, cur) == tokens_acc(s.skip(k), cur + s.take(k)),
    decreases k,
{
    if k == 0 {
        assert(s.skip(0) =~= s);
        assert(cur + s.take(0) =~= cur);
    } else {
        lemma_tokens_acc_run(s.drop_first(), cur.push(s[0]), k - 1);
        assert(s.drop_first().skip(k - 1) =~= s.skip(k));
        assert(cur.push(s[0]) + s.drop_first().take(k - 1) =~= cur + s.take(k));
    }
}

/// A maximal leading run of `k` non-space characters is the first token.
pub proof fn lemma_tokens_take_run(s: Seq<char>, k: int)
    requires
        1 <= k <= s.len(),
        forall|m: int| 0 <= m < k ==> !is_space_char(s[m]),
        k < s.len() ==> is_space_char(s[k]),
    ensures
        tokens(s) == seq![s.take(k)] + tokens(s.skip(k)),
{
    lemma_tokens_acc_run(s, Seq::empty(), k);
    assert(Seq::empty() + s.take(k) =~= s.take(k));
    let rest = s.skip(k);
    if rest.len() == 0 {
        assert(seq![s.take(k)] + tokens(rest) =~= seq![s.take(k)]);
    } else {
        assert(rest[0] == s[k]);
    }
}

/// Every token is a nonempty whitespace-free run.
pub proof fn lemma_tokens_acc_clean(s: Seq<char>, cur: Seq<char>)
    requires
        forall|i: int| 0 <= i < cur.len() ==> !is_space_char(#[trigger] cur[i]),
    ensures
        forall|k: int|
            0 <= k < tokens_acc(s, cur).len() ==> token_seq(#[trigger] tokens_acc(s, cur)[k]),
    decreases s.len(),
{
    if s.len() == 0 {
        if cur.len() > 0 {
            assert forall|k: int| 0 <= k < tokens_acc(s, cur).len()
                implies token_seq(#[trigger] tokens_acc(s, cur)[k]) by {
                assert(tokens_acc(s, cur)[k] == cur);
                assert(token_seq(cur));
            }
        }
    } else if is_space_char(s[0]) {
        lemma_tokens_acc_clean(s.drop_first(), Seq::empty());
        let rest = tokens_acc(s.drop_first(), Seq::empty());
        if cur.len() > 0 {
            assert forall|k: int| 0 <= k < tokens_acc(s, cur).len()
                implies token_seq(#[trigger] tokens_acc(s, cur)[k]) by {
                if k > 0 {
                    assert(tokens_acc(s, cur)[k] == rest[k - 1]);
                    assert(token_seq(rest[k - 1]));
                } else {
                    assert(tokens_acc(s, cur)[0] == cur);
                    assert(token_seq(cur));
                }
            }
        } else {
            assert forall|k: int| 0 <= k < tokens_acc(s, cur).len()
                implies token_seq(#[trigger] tokens_acc(s, cur)[k]) by {
                assert(tokens_acc(s, cur)[k] == rest[k]);
                assert(token_seq(rest[k]));
            }
        }
    } else {
        assert forall|i: int| 0 <= i < cur.push(s[0]).len()
            implies !is_space_char(#[trigger] cur.push(s[0])[i]) by {
            if i < cur.len() {
                assert(cur.push(s[0])[i] == cur[i]);
            }
        }
        lemma_tokens_acc_clean(s.drop_first(), cur.push(s[0]));
        let rest = tokens_acc(s.drop_first(), cur.push(s[0]));
        assert forall|k: int| 0 <= k < tokens_acc(s, cur).len()
            implies token_seq(#[trigger] tokens_acc(s, cur)[k]) by {
            assert(tokens_acc(s, cur)[k] == rest[k]);
            assert(token_seq(rest[k]));
        }
    }
}

/// The first token extends the partial token already read.
pub proof fn lemma_tokens_acc_first(s: Seq<char>, cur: Seq<char>)
    requires
        cur.len() > 0,
    ensures
        tokens_acc(s, cur).len() >= 1,
        tokens_acc(s, cur)[0].len() >= cur.len(),
        tokens_acc(s, cur)[0].take(cur.len() as int) == cur,
    decreases s.len(),
{
    if s.len() == 0 {
        assert(seq![cur][0].take(cur.len() as int) =~= cur);
    } else if is_space_char(s[0]) {
        assert(tokens_acc(s, cur)[0] == cur);
        assert(cur.take(cur.len() as int) =~= cur);
    } else {
        lemma_tokens_acc_first(s.drop_first(), cur.push(s[0]));
        let first = tokens_acc(s, cur)[0];
        assert(first.take(cur.len() as int + 1) == cur.push(s[0]));
        assert(first.take(cur.len() as int) =~= first.take(cur.len() as int + 1).take(
            cur.len() as int));
        assert(first.take(cur.len() as int + 1).take(cur.len() as int) =~= cur.push(
            s[0],
        ).take(cur.len() as int));
        assert(cur.push(s[0]).take(cur.len() as int) =~= cur);
    }
}

/// Leading whitespace never adds a token.
pub proof fn lemma_tokens_acc_skip_spaces(s: Seq<char>, k: int)
    requires
        0 <= k <= s.len(),
        forall|m: int| 0 <= m < k ==> is_space_char(s[m]),
    ensures
        tokens_acc(s, Seq::empty()) == tokens_acc(s.skip(k), Seq::empty()),
    decreases k,
{
    if k == 0 {
        assert(s.skip(0) =~= s);
    } else {
        assert forall|m: int| 0 <= m < k - 1 implies is_space_char(s.drop_first()[m]) by {
            assert(s.drop_first()[m] == s[m + 1]);
        }
        lemma_tokens_acc_skip_spaces(s.drop_first(), k - 1);
        assert(s.drop_first().skip(k - 1) =~= s.skip(k));
    }
}

/// Whitespace after a partial token flushes it as one finished token.
pub proof fn lemma_tokens_acc_flush(s: Seq<char>, cur: Seq<char>, k: int)
    requires
        1 <= k <= s.len(),
        forall|m: int| 0 <= m < k ==> is_space_char(s[m]),
        cur.len() > 0,
    ensures
        tokens_acc(s, cur) == seq![cur] + tokens_acc(s.skip(k), Seq::empty()),
{
    assert(tokens_acc(s, cur) == seq![cur] + tokens_acc(s.drop_first(), Seq::empty()));
    assert forall|m: int| 0 <= m < k - 1 implies is_space_char(s.drop_first()[m]) by {
        assert(s.drop_first()[m] == s[m + 1]);
    }
    lemma_tokens_acc_skip_spaces(s.drop_first(), k - 1);
    assert(s.drop_first().skip(k - 1) =~= s.skip(k));
}

/// When text begins with a non-space character, its first token begins with
/// that character.
pub proof fn lemma_tokens_first_char(s: Seq<char>)
    requires
        s.len() > 0,
        !is_space_char(s[0]),
    ensures
        tokens(s).len() >= 1,
        tokens(s)[0].len() >= 1,
        tokens(s)[0][0] == s[0],
{
    lemma_tokens_acc_first(s.drop_first(), seq![s[0]]);
    assert(tokens(s) == tokens_acc(s.drop_first(), Seq::empty().push(s[0])));
    assert(Seq::empty().push(s[0]) =~= seq![s[0]]);
    assert(tokens(s)[0].take(1)[0] == tokens(s)[0][0]);
    assert(seq![s[0]][0] == s[0]);
}

/// Newline-separated segments of `s`, with the partial segment `cur` already
/// read.  Every text has one segment more than it has newlines.
pub open spec fn lines_acc(s: Seq<char>, cur: Seq<char>) -> Seq<Seq<char>>
    decreases s.len(),
{
    if s.len() == 0 {
        seq![cur]
    } else if s[0] == '\n' {
        seq![cur] + lines_acc(s.drop_first(), Seq::empty())
    } else {
        lines_acc(s.drop_first(), cur.push(s[0]))
    }
}

/// The newline-separated segments of `s`.
pub open spec fn split_lines_spec(s: Seq<char>) -> Seq<Seq<char>> {
    lines_acc(s, Seq::empty())
}

/// Reading a newline-free run of length `k` moves it into the accumulator.
pub proof fn lemma_lines_acc_run(s: Seq<char>, cur: Seq<char>, k: int)
    requires
        0 <= k <= s.len(),
        forall|m: int| 0 <= m < k ==> s[m] != '\n',
    ensures
        lines_acc(s, cur) == lines_acc(s.skip(k), cur + s.take(k)),
    decreases k,
{
    if k == 0 {
        assert(s.skip(0) =~= s);
        assert(cur + s.take(0) =~= cur);
    } else {
        lemma_lines_acc_run(s.drop_first(), cur.push(s[0]), k - 1);
        assert(s.drop_first().skip(k - 1) =~= s.skip(k));
        assert(cur.push(s[0]) + s.drop_first().take(k - 1) =~= cur + s.take(k));
    }
}

/// Splits `s` at every newline, keeping empty segments.
pub fn split_lines(s: &str) -> (r: Vec<String>)
    ensures
        r.deep_view() == split_lines_spec(s@),
{
    let n = s.unicode_len();
    let mut r: Vec<String> = Vec::new();
    let mut i: usize = 0;
    proof {
        assert(s@.skip(0) =~= s@);
        assert(r.deep_view() + split_lines_spec(s@) =~= split_lines_spec(s@));
    }
    loop
        invariant_except_break
            n == s@.len(),
            i <= n,
            split_lines_spec(s@) == r.deep_view() + lines_acc(s@.skip(i as int), Seq::empty()),
        ensures
            r.deep_view() == split_lines_spec(s@),
        decreases n - i,
    {
        let ghost prev = r.deep_view();
        let start = i;
        let mut j = i;
        while j < n && s.get_char(j) != '\n'
            invariant
                start <= j <= n,
                n == s@.len(),
                forall|m: int| start <= m < j ==> s@[m] != '\n',
            decreases n - j,
        {
            j = j + 1;
        }
        let seg = s.substring_char(start, j);
        r.push(String::from_str(seg));
        proof {
            let sub = s@.skip(start as int);
            assert forall|m: int| 0 <= m < j - start implies sub[m] != '\n' by {
                assert(sub[m] == s@[start + m]);
            }
            lemma_lines_acc_run(sub, Seq::empty(), j - start);
            assert(Seq::empty() + sub.take(j - start) =~= seg@);
            assert(sub.take(j - start) =~= seg@);
            assert(r.deep_view() =~= prev.push(seg@));
        }
        if j == n {
            proof {
                assert(s@.skip(j as int) =~= Seq::<char>::empty());
                assert(lines_acc(s@.skip(start as int).skip(j - start), seg@) =~= seq![seg@]);
                assert(prev + seq![seg@] =~= prev.push(seg@));
            }
            break;
        }
        proof {
            let rest = s@.skip(start as int).skip(j - start);
            assert(rest =~= s@.skip(j as int));
            assert(rest[0] == s@[j as int]);
            assert(lines_acc(rest, seg@) =~= seq![seg@] + lines_acc(rest.drop_first(),
                Seq::empty()));
            assert(rest.drop_first() =~= s@.skip(j as int + 1));
            assert(prev + (seq![seg@] + lines_acc(s@.skip(j as int + 1), Seq::empty()))
                =~= prev.push(seg@) + lines_acc(s@.skip(j as int + 1), Seq::empty()));
        }
        i = j + 1;
    }
    r
}

/// Splits `s` into its whitespace-separated tokens.
pub fn split_tokens(s: &str) -> (r: Vec<String>)
    ensures
        r.deep_view() == tokens(s@),
{
    let n = s.unicode_len();
    let mut r: Vec<String> = Vec::new();
    let mut i: usize = 0;
    proof {
        assert(s@.skip(0) =~= s@);
        assert(r.deep_view() + tokens(s@) =~= tokens(s@));
    }
    while i < n
        invariant
            i <= n,
            n == s@.len(),
            tokens(s@) == r.deep_view() + tokens(s@.skip(i as int)),
        decreases n - i,
    {
        let ghost prev = r.deep_view();
        let c = s.get_char(i);
        proof {
            assert(s@.skip(i as int)[0] == s@[i as int]);
        }
        if is_space(c) {
            proof {
                assert(s@.skip(i as int).drop_first() =~= s@.skip(i as int + 1));
            }
            i = i + 1;
        } else {
            let start = i;
            let mut j = i + 1;
            while j < n && !is_space(s.get_char(j))
                invariant
                    start < j <= n,
                    n == s@.len(),
                    forall|m: int| start <= m < j ==> !is_space_char(s@[m]),
                decreases n - j,
            {
                j = j + 1;
            }
            let tok = s.substring_char(start, j);
            r.push(String::from_str(tok));
            proof {
                let sub = s@.skip(start as int);
                assert forall|m: int| 0 <= m < j - start implies !is_space_char(sub[m]) by {
                    assert(sub[m] == s@[start + m]);
                }
                if j < n {
                    assert(sub[j - start] == s@[j as int]);
                }
                lemma_tokens_take_run(sub, j - start);
                assert(sub.take(j - start) =~= tok@);
                assert(sub.skip(j - start) =~= s@.skip(j as int));
                assert(r.deep_view() =~= prev.push(tok@));
                assert(prev + seq![tok@] + tokens(s@.skip(j as int)) =~= prev.push(tok@)
                    + tokens(s@.skip(j as int)));
            }
            i = j;
        }
    }
    proof {
        assert(s@.skip(n as int) =~= Seq::<char>::empty());
        assert(r.deep_view() =~= r.deep_view() + tokens(s@.skip(n as int)));
    }
    r
}

} // verus!
