//! Character-level text primitives shared by the request parser, the response
//! writer and the path resolver.
//!
//! Text is modelled as `Seq<char>`. The executable functions scan a `&[char]`
//! by index, so that every cut is a constant-time slice of the characters.

use vstd::prelude::*;

verus! {

/// `String::push`, believed as the standard library documents it and not
/// proved here: the character is appended at the end of the string, and what
/// the string held before stays as it was.
pub assume_specification[ String::push ](s: &mut String, ch: char)
    ensures
        final(s)@ == old(s)@.push(ch),
;

/// Whether `c` has the Unicode `White_Space` property.
pub open spec fn is_whitespace(c: char) -> bool {
    let u: u32 = c as u32;
    ||| 0x09 <= u <= 0x0D
    ||| u == 0x20
    ||| u == 0x85
    ||| u == 0xA0
    ||| u == 0x1680
    ||| 0x2000 <= u <= 0x200A
    ||| u == 0x2028
    ||| u == 0x2029
    ||| u == 0x202F
    ||| u == 0x205F
    ||| u == 0x3000
}

/// The predicate "is whitespace".
pub open spec fn space() -> spec_fn(char) -> bool {
    |c: char| is_whitespace(c)
}

/// The predicate "is not whitespace".
pub open spec fn non_space() -> spec_fn(char) -> bool {
    |c: char| !is_whitespace(c)
}

/// The predicate "differs from `x`".
pub open spec fn other_than<T>(x: T) -> spec_fn(T) -> bool {
    |c: T| c != x
}

/// How many items at the front of `s` satisfy `p` without interruption.
pub open spec fn span<T>(s: Seq<T>, p: spec_fn(T) -> bool) -> nat
    decreases s.len(),
{
    if s.len() > 0 && p(s[0]) {
        1 + span(s.drop_first(), p)
    } else {
        0
    }
}

/// How many items at the back of `s` satisfy `p` without interruption.
pub open spec fn span_back<T>(s: Seq<T>, p: spec_fn(T) -> bool) -> nat
    decreases s.len(),
{
    if s.len() > 0 && p(s.last()) {
        1 + span_back(s.drop_last(), p)
    } else {
        0
    }
}

/// `s` without its leading and trailing whitespace.
pub open spec fn trim(s: Seq<char>) -> Seq<char> {
    let t: Seq<char> = s.skip(span(s, space()) as int);
    t.take(t.len() - span_back(t, space()))
}

/// The length of the first line of `s`: up to and including the first line
/// feed, or all of `s` where it holds none.
pub open spec fn line_len(s: Seq<char>) -> nat {
    let n: nat = span(s, other_than('\n'));
    if n < s.len() {
        n + 1
    } else {
        s.len()
    }
}

/// The first line of `s`, its line feed included.
pub open spec fn first_line(s: Seq<char>) -> Seq<char> {
    s.take(line_len(s) as int)
}

/// A line that ends the header block: nothing at all, or only a line
/// terminator.
pub open spec fn is_blank(line: Seq<char>) -> bool {
    ||| line =~= Seq::<char>::empty()
    ||| line =~= seq!['\n']
    ||| line =~= seq!['\r', '\n']
}

/// `span(s, p)` is `n` once the first `n` items satisfy `p` and the next one,
/// if any, does not.
pub proof fn lemma_span_is<T>(s: Seq<T>, p: spec_fn(T) -> bool, n: int)
    requires
        0 <= n <= s.len(),
        forall|i: int| 0 <= i < n ==> p(#[trigger] s[i]),
        n < s.len() ==> !p(s[n]),
    ensures
        span(s, p) == n,
    decreases n,
{
    if n > 0 {
        let t: Seq<T> = s.drop_first();
        assert(p(s[0]));
        assert forall|i: int| 0 <= i < n - 1 implies p(#[trigger] t[i]) by {
            assert(t[i] == s[i + 1]);
        }
        if n - 1 < t.len() {
            assert(t[n - 1] == s[n]);
        }
        lemma_span_is(t, p, n - 1);
    }
}

/// What `span(s, p)` counts: a prefix that satisfies `p`, ended by the end of
/// `s` or by an item that does not.
pub proof fn lemma_span_bounds<T>(s: Seq<T>, p: spec_fn(T) -> bool)
    ensures
        span(s, p) <= s.len(),
        forall|i: int| 0 <= i < span(s, p) ==> p(#[trigger] s[i]),
        span(s, p) < s.len() ==> !p(s[span(s, p) as int]),
    decreases s.len(),
{
    if s.len() > 0 && p(s[0]) {
        let t: Seq<T> = s.drop_first();
        lemma_span_bounds(t, p);
        assert forall|i: int| 0 <= i < span(s, p) implies p(#[trigger] s[i]) by {
            if i > 0 {
                assert(s[i] == t[i - 1]);
            }
        }
        if span(s, p) < s.len() {
            assert(s[span(s, p) as int] == t[span(t, p) as int]);
        }
    }
}

/// `span_back(s, p)` is `n` once the last `n` items satisfy `p` and the one
/// before them, if any, does not.
pub proof fn lemma_span_back_is<T>(s: Seq<T>, p: spec_fn(T) -> bool, n: int)
    requires
        0 <= n <= s.len(),
        forall|i: int| s.len() - n <= i < s.len() ==> p(#[trigger] s[i]),
        n < s.len() ==> !p(s[s.len() - n - 1]),
    ensures
        span_back(s, p) == n,
    decreases n,
{
    if n > 0 {
        let t: Seq<T> = s.drop_last();
        assert(p(s[s.len() - 1]));
        assert forall|i: int| t.len() - (n - 1) <= i < t.len() implies p(#[trigger] t[i]) by {
            assert(t[i] == s[i]);
        }
        if n - 1 < t.len() {
            assert(t[t.len() - (n - 1) - 1] == s[s.len() - n - 1]);
        }
        lemma_span_back_is(t, p, n - 1);
    }
}

/// What `span_back(s, p)` counts: a suffix that satisfies `p`, begun at the
/// start of `s` or after an item that does not.
pub proof fn lemma_span_back_bounds<T>(s: Seq<T>, p: spec_fn(T) -> bool)
    ensures
        span_back(s, p) <= s.len(),
        forall|i: int| s.len() - span_back(s, p) <= i < s.len() ==> p(#[trigger] s[i]),
        span_back(s, p) < s.len() ==> !p(s[s.len() - span_back(s, p) - 1]),
    decreases s.len(),
{
    if s.len() > 0 && p(s.last()) {
        let t: Seq<T> = s.drop_last();
        lemma_span_back_bounds(t, p);
        assert forall|i: int| s.len() - span_back(s, p) <= i < s.len() implies p(
            #[trigger] s[i],
        ) by {
            if i < s.len() - 1 {
                assert(s[i] == t[i]);
            }
        }
        if span_back(s, p) < s.len() {
            assert(s[s.len() - span_back(s, p) - 1] == t[t.len() - span_back(t, p) - 1]);
        }
    }
}

/// Whether `c` is whitespace.
pub fn is_space(c: char) -> (r: bool)
    ensures
        r == is_whitespace(c),
{
    let u: u32 = c as u32;
    (0x09 <= u && u <= 0x0D) || u == 0x20 || u == 0x85 || u == 0xA0 || u == 0x1680 || (0x2000 <= u
        && u <= 0x200A) || u == 0x2028 || u == 0x2029 || u == 0x202F || u == 0x205F || u == 0x3000
}

/// The characters of `s`, one item each.
pub fn chars_of(s: &str) -> (v: Vec<char>)
    ensures
        v@ == s@,
{
    let mut v: Vec<char> = Vec::new();
    for c in it: s.chars()
        invariant
            v@ == it.seq().take(it.index()),
            it.seq() == s@,
    {
        v.push(c);
    }
    v
}

/// The string made of the characters of `s`.
pub fn string_of(s: &[char]) -> (r: String)
    ensures
        r@ == s@,
{
    let mut r = String::new();
    let mut i: usize = 0;
    while i < s.len()
        invariant
            i <= s.len(),
            r@ == s@.take(i as int),
        decreases s.len() - i,
    {
        r.push(s[i]);
        i += 1;
    }
    r
}

/// Whether the characters of `s` spell `lit`.
pub fn spells(s: &[char], lit: &str) -> (r: bool)
    ensures
        r == (s@ == lit@),
{
    let want = chars_of(lit);
    if s.len() != want.len() {
        return false;
    }
    let mut i: usize = 0;
    while i < s.len()
        invariant
            i <= s.len(),
            s.len() == want.len(),
            want@ == lit@,
            s@.take(i as int) == want@.take(i as int),
        decreases s.len() - i,
    {
        if s[i] != want[i] {
            return false;
        }
        assert(s@.take(i + 1) == s@.take(i as int).push(s@[i as int]));
        assert(want@.take(i + 1) == want@.take(i as int).push(want@[i as int]));
        i += 1;
    }
    assert(s@ == s@.take(s.len() as int));
    assert(want@ == want@.take(want.len() as int));
    true
}

/// The index of the first non-whitespace character of `s` at or after `from`,
/// or the length of `s`.
pub(crate) fn skip_spaces(s: &[char], from: usize) -> (to: usize)
    requires
        from <= s.len(),
    ensures
        to == from + span(s@.skip(from as int), space()),
        from <= to <= s.len(),
{
    let mut i: usize = from;
    while i < s.len() && is_space(s[i])
        invariant
            from <= i <= s.len(),
            forall|k: int| from <= k < i ==> is_whitespace(#[trigger] s@[k]),
        decreases s.len() - i,
    {
        i += 1;
    }
    proof {
        let t: Seq<char> = s@.skip(from as int);
        assert forall|k: int| 0 <= k < i - from implies space()(#[trigger] t[k]) by {
            assert(t[k] == s@[from + k]);
        }
        lemma_span_is(t, space(), i - from);
    }
    i
}

/// The index of the first whitespace character of `s` at or after `from`, or
/// the length of `s`.
pub(crate) fn skip_word(s: &[char], from: usize) -> (to: usize)
    requires
        from <= s.len(),
    ensures
        to == from + span(s@.skip(from as int), non_space()),
        from <= to <= s.len(),
{
    let mut i: usize = from;
    while i < s.len() && !is_space(s[i])
        invariant
            from <= i <= s.len(),
            forall|k: int| from <= k < i ==> !is_whitespace(#[trigger] s@[k]),
        decreases s.len() - i,
    {
        i += 1;
    }
    proof {
        let t: Seq<char> = s@.skip(from as int);
        assert forall|k: int| 0 <= k < i - from implies non_space()(#[trigger] t[k]) by {
            assert(t[k] == s@[from + k]);
        }
        lemma_span_is(t, non_space(), i - from);
    }
    i
}

/// The index of the first `c` in `s` at or after `from`, or the length of
/// `s`.
pub(crate) fn find_char(s: &[char], from: usize, c: char) -> (to: usize)
    requires
        from <= s.len(),
    ensures
        to == from + span(s@.skip(from as int), other_than(c)),
        from <= to <= s.len(),
{
    let mut i: usize = from;
    while i < s.len() && s[i] != c
        invariant
            from <= i <= s.len(),
            forall|k: int| from <= k < i ==> #[trigger] s@[k] != c,
        decreases s.len() - i,
    {
        i += 1;
    }
    proof {
        let t: Seq<char> = s@.skip(from as int);
        assert forall|k: int| 0 <= k < i - from implies other_than(c)(#[trigger] t[k]) by {
            assert(t[k] == s@[from + k]);
        }
        lemma_span_is(t, other_than(c), i - from);
    }
    i
}

/// The bounds of `s[from..]` without its leading and trailing whitespace.
pub(crate) fn trim_bounds(s: &[char], from: usize) -> (r: (usize, usize))
    requires
        from <= s.len(),
    ensures
        from <= r.0 <= r.1 <= s.len(),
        s@.subrange(r.0 as int, r.1 as int) == trim(s@.skip(from as int)),
{
    let a: usize = skip_spaces(s, from);
    let mut b: usize = s.len();
    while b > a && is_space(s[b - 1])
        invariant
            a <= b <= s.len(),
            forall|k: int| b <= k < s.len() ==> is_whitespace(#[trigger] s@[k]),
        decreases b,
    {
        b -= 1;
    }
    proof {
        let u: Seq<char> = s@.skip(from as int);
        let t: Seq<char> = u.skip(span(u, space()) as int);
        assert(t == s@.skip(a as int));
        assert forall|k: int| t.len() - (s.len() - b) <= k < t.len() implies space()(
            #[trigger] t[k],
        ) by {
            assert(t[k] == s@[a + k]);
        }
        if s.len() - b < t.len() {
            assert(t[t.len() - (s.len() - b) - 1] == s@[b - 1]);
        }
        lemma_span_back_is(t, space(), s.len() - b);
        assert(t.take(t.len() - span_back(t, space())) == s@.subrange(a as int, b as int));
    }
    (a, b)
}

/// The index just behind the first line of `s[from..]`.
pub(crate) fn line_end(s: &[char], from: usize) -> (to: usize)
    requires
        from <= s.len(),
    ensures
        to == from + line_len(s@.skip(from as int)),
        from <= to <= s.len(),
        from < s.len() ==> from < to,
        s@.subrange(from as int, to as int) == first_line(s@.skip(from as int)),
{
    let n: usize = find_char(s, from, '\n');
    let to: usize = if n < s.len() {
        n + 1
    } else {
        n
    };
    assert(s@.subrange(from as int, to as int) == s@.skip(from as int).take(to - from));
    to
}

/// The index just behind the last `c` in `s[from..]`, or `from` where it
/// holds none.
pub(crate) fn after_last(s: &[char], from: usize, c: char) -> (at: usize)
    requires
        from <= s.len(),
    ensures
        at == s.len() - span_back(s@.skip(from as int), other_than(c)),
        from <= at <= s.len(),
{
    let mut i: usize = s.len();
    while i > from && s[i - 1] != c
        invariant
            from <= i <= s.len(),
            forall|k: int| i <= k < s.len() ==> #[trigger] s@[k] != c,
        decreases i,
    {
        i -= 1;
    }
    proof {
        let t: Seq<char> = s@.skip(from as int);
        assert forall|k: int| t.len() - (s.len() - i) <= k < t.len() implies other_than(c)(
            #[trigger] t[k],
        ) by {
            assert(t[k] == s@[from + k]);
        }
        if s.len() - i < t.len() {
            assert(t[t.len() - (s.len() - i) - 1] == s@[i - 1]);
        }
        lemma_span_back_is(t, other_than(c), s.len() - i);
    }
    i
}

/// The decimal digit of `d`, for `d` below ten.
pub open spec fn digit(d: nat) -> char {
    ((48 + d) as u8) as char
}

/// `n` written in decimal, without leading zeros.
pub open spec fn decimal(n: nat) -> Seq<char>
    decreases n,
{
    if n < 10 {
        seq![digit(n)]
    } else {
        decimal(n / 10).push(digit(n % 10))
    }
}

/// Appends `n` in decimal to `out`.
pub fn push_decimal(out: &mut String, n: u64)
    ensures
        final(out)@ == old(out)@ + decimal(n as nat),
    decreases n,
{
    if n >= 10 {
        push_decimal(out, n / 10);
    }
    let d: u8 = (n % 10) as u8;
    let c: char = (48u8 + d) as char;
    out.push(c);
    proof {
        assert(c == digit((n % 10) as nat));
        if n >= 10 {
            assert(old(out)@ + decimal(n as nat) == (old(out)@ + decimal((n / 10) as nat)).push(
                c,
            ));
        } else {
            assert(old(out)@ + decimal(n as nat) == old(out)@.push(c));
        }
    }
}

/// `n` written in decimal.
pub fn to_decimal(n: u64) -> (r: String)
    ensures
        r@ == decimal(n as nat),
{
    let mut r = String::new();
    push_decimal(&mut r, n);
    assert(Seq::<char>::empty() + decimal(n as nat) == decimal(n as nat));
    r
}

/// The segment that names the directory itself.
pub open spec fn dot() -> Seq<char> {
    seq!['.']
}

/// The segment that names the parent directory.
pub open spec fn dot_dot() -> Seq<char> {
    seq!['.', '.']
}

/// No item of `s` is `c`.
pub open spec fn free_of(s: Seq<char>, c: char) -> bool {
    forall|i: int| 0 <= i < s.len() ==> #[trigger] s[i] != c
}

/// Every item of `s` is whitespace.
pub open spec fn all_space(s: Seq<char>) -> bool {
    forall|i: int| 0 <= i < s.len() ==> is_whitespace(#[trigger] s[i])
}

/// No item of `s` is whitespace.
pub open spec fn no_space(s: Seq<char>) -> bool {
    forall|i: int| 0 <= i < s.len() ==> !is_whitespace(#[trigger] s[i])
}

/// A line that ends in the only line feed it holds is the first line of
/// whatever it stands before.
pub proof fn lemma_first_line(body: Seq<char>, rest: Seq<char>)
    requires
        free_of(body, '\n'),
    ensures
        first_line(body.push('\n') + rest) == body.push('\n'),
        (body.push('\n') + rest).skip(body.len() as int + 1) == rest,
{
    let s: Seq<char> = body.push('\n') + rest;
    assert forall|i: int| 0 <= i < body.len() implies other_than('\n')(#[trigger] s[i]) by {
        assert(s[i] == body[i]);
    }
    assert(s[body.len() as int] == '\n');
    lemma_span_is(s, other_than('\n'), body.len() as int);
    assert(s.take(body.len() as int + 1) == body.push('\n'));
    assert(s.skip(body.len() as int + 1) == rest);
}

/// Whitespace around a text does not show in what is trimmed from it.
pub proof fn lemma_trim_padded(a: Seq<char>, v: Seq<char>, b: Seq<char>)
    requires
        all_space(a),
        all_space(b),
    ensures
        trim(a + v + b) == trim(v),
{
    let s: Seq<char> = a + v + b;
    lemma_span_bounds(v, space());
    let l: int = span(v, space()) as int;
    if l == v.len() {
        assert forall|i: int| 0 <= i < s.len() implies space()(#[trigger] s[i]) by {
            if i < a.len() {
                assert(s[i] == a[i]);
            } else if i < a.len() + v.len() {
                assert(s[i] == v[i - a.len()]);
            } else {
                assert(s[i] == b[i - a.len() - v.len()]);
            }
        }
        lemma_span_is(s, space(), s.len() as int);
        assert(s.skip(s.len() as int) == v.skip(v.len() as int));
    } else {
        assert forall|i: int| 0 <= i < a.len() + l implies space()(#[trigger] s[i]) by {
            if i < a.len() {
                assert(s[i] == a[i]);
            } else {
                assert(s[i] == v[i - a.len()]);
            }
        }
        assert(s[a.len() + l] == v[l]);
        lemma_span_is(s, space(), a.len() + l);
        let t: Seq<char> = s.skip(a.len() + l);
        let tv: Seq<char> = v.skip(l);
        assert(t == tv + b);
        lemma_span_back_bounds(tv, space());
        let r: int = span_back(tv, space()) as int;
        assert(tv[0] == v[l]);
        assert(r < tv.len());
        assert forall|i: int| t.len() - (b.len() + r) <= i < t.len() implies space()(
            #[trigger] t[i],
        ) by {
            if i < tv.len() {
                assert(t[i] == tv[i]);
            } else {
                assert(t[i] == b[i - tv.len()]);
            }
        }
        assert(t[t.len() - (b.len() + r) - 1] == tv[tv.len() - r - 1]);
        lemma_span_back_is(t, space(), b.len() + r);
        assert(t.take(t.len() - (b.len() + r)) == tv.take(tv.len() - r));
    }
}

/// A text without whitespace at its ends is what is trimmed from it.
pub proof fn lemma_trim_plain(v: Seq<char>)
    requires
        v.len() > 0 ==> !is_whitespace(v[0]) && !is_whitespace(v.last()),
    ensures
        trim(v) == v,
{
    lemma_span_is(v, space(), 0);
    assert(v.skip(0) == v);
    lemma_span_back_is(v, space(), 0);
    assert(v.take(v.len() as int) == v);
}

} // verus!
