//! Characters, whitespace, trimming, and splitting text into lines
//! and whitespace-separated tokens.

use vstd::prelude::*;
use vstd::string::StrSliceExecFns;

verus! {

/// A character with the Unicode `White_Space` property: the set that
/// governs blank-line detection, name trimming and token separation
/// in the `.gpl` grammar.
pub open spec fn is_space(c: char) -> bool {
    let u = c as u32;
    ||| u == 0x20
    ||| (0x09 <= u && u <= 0x0D)
    ||| u == 0x85
    ||| u == 0xA0
    ||| u == 0x1680
    ||| (0x2000 <= u && u <= 0x200A)
    ||| u == 0x2028
    ||| u == 0x2029
    ||| u == 0x202F
    ||| u == 0x205F
    ||| u == 0x3000
}

/// Decides [`is_space`] on a concrete character.
pub fn space_char(c: char) -> (r: bool)
    ensures
        r == is_space(c),
{
    let u = c as u32;
    u == 0x20 || (0x09 <= u && u <= 0x0D) || u == 0x85 || u == 0xA0 || u == 0x1680 || (0x2000 <= u
        && u <= 0x200A) || u == 0x2028 || u == 0x2029 || u == 0x202F || u == 0x205F || u == 0x3000
}

/// The sequence with its leading whitespace removed.
pub open spec fn trim_front(s: Seq<char>) -> Seq<char>
    decreases s.len(),
{
    if s.len() > 0 && is_space(s[0]) {
        trim_front(s.skip(1))
    } else {
        s
    }
}

/// The sequence with its trailing whitespace removed.
pub open spec fn trim_back(s: Seq<char>) -> Seq<char>
    decreases s.len(),
{
    if s.len() > 0 && is_space(s.last()) {
        trim_back(s.drop_last())
    } else {
        s
    }
}

/// The sequence with leading and trailing whitespace removed.
pub open spec fn trim(s: Seq<char>) -> Seq<char> {
    trim_back(trim_front(s))
}

/// Skipping leading whitespace is the same as dropping every position
/// before the first non-space one.
pub proof fn lemma_trim_front_skip(s: Seq<char>, k: int)
    requires
        0 <= k <= s.len(),
        forall|j: int| 0 <= j < k ==> is_space(s[j]),
        k < s.len() ==> !is_space(s[k]),
    ensures
        trim_front(s) == s.skip(k),
    decreases k,
{
    if k == 0 {
        assert(s.skip(0) =~= s);
    } else {
        assert(is_space(s[0]));
        lemma_trim_front_skip(s.skip(1), k - 1);
        assert(s.skip(1).skip(k - 1) =~= s.skip(k));
    }
}

/// Trimming trailing whitespace is the same as keeping every position
/// up to the last non-space one.
pub proof fn lemma_trim_back_take(s: Seq<char>, k: int)
    requires
        0 <= k <= s.len(),
        forall|j: int| k <= j < s.len() ==> is_space(s[j]),
        k > 0 ==> !is_space(s[k - 1]),
    ensures
        trim_back(s) == s.take(k),
    decreases s.len(),
{
    if k == s.len() {
        assert(s.take(k) =~= s);
    } else {
        assert(is_space(s.last()));
        lemma_trim_back_take(s.drop_last(), k);
        assert(s.drop_last().take(k) =~= s.take(k));
    }
}

/// The first position holding a non-space character, or the length
/// when the whole sequence is whitespace.
pub proof fn first_non_space_idx(s: Seq<char>) -> (a: int)
    ensures
        0 <= a <= s.len(),
        forall|j: int| 0 <= j < a ==> is_space(s[j]),
        a < s.len() ==> !is_space(s[a]),
    decreases s.len(),
{
    if s.len() == 0 {
        0
    } else if !is_space(s[0]) {
        0
    } else {
        let a = 1 + first_non_space_idx(s.skip(1));
        assert(forall|j: int| 1 <= j < a ==> is_space(s.skip(1)[j - 1]) && s[j] == s.skip(1)[j
            - 1]);
        assert(a < s.len() ==> !is_space(s.skip(1)[a - 1]) && s[a] == s.skip(1)[a - 1]);
        a
    }
}

/// The position after the last non-space character, or zero when the
/// whole sequence is whitespace.
pub proof fn last_non_space_end(s: Seq<char>) -> (b: int)
    ensures
        0 <= b <= s.len(),
        forall|j: int| b <= j < s.len() ==> is_space(s[j]),
        b > 0 ==> !is_space(s[b - 1]),
    decreases s.len(),
{
    if s.len() == 0 {
        0
    } else if !is_space(s.last()) {
        s.len() as int
    } else {
        let b = last_non_space_end(s.drop_last());
        assert(forall|j: int| b <= j < s.len() - 1 ==> is_space(s.drop_last()[j]) && s[j]
            == s.drop_last()[j]);
        assert(b > 0 ==> !is_space(s.drop_last()[b - 1]) && s[b - 1] == s.drop_last()[b - 1]);
        b
    }
}

/// The trim of a sequence whose whitespace ends at `a` from the left
/// and begins at `b` from the right.
pub proof fn lemma_trim_subrange(s: Seq<char>, a: int, b: int)
    requires
        0 <= a <= b <= s.len(),
        forall|j: int| 0 <= j < a ==> is_space(s[j]),
        forall|j: int| b <= j < s.len() ==> is_space(s[j]),
        a < b ==> !is_space(s[a]) && !is_space(s[b - 1]),
        a == b ==> a == 0,
    ensures
        trim(s) == s.subrange(a, b),
    decreases s.len(),
{
    if a == b {
        lemma_trim_front_skip(s, s.len() as int);
        assert(trim_front(s) =~= Seq::<char>::empty());
        assert(trim(s) =~= s.subrange(a, b));
    } else {
        lemma_trim_front_skip(s, a);
        lemma_trim_back_take(s.skip(a), b - a);
        assert(s.skip(a).take(b - a) =~= s.subrange(a, b));
    }
}

/// Dropping one trailing carriage return (itself whitespace) does
/// not change the trim of a line.
pub proof fn lemma_trim_strip_cr(s: Seq<char>)
    ensures
        trim(strip_cr(s)) == trim(s),
{
    if s.len() > 0 && s.last() == '\r' {
        let t = s.drop_last();
        let b = last_non_space_end(t);
        assert(is_space(s.last()));
        assert forall|j: int| b <= j < s.len() implies is_space(s[j]) by {
            if j < s.len() - 1 {
                assert(is_space(t[j]));
                assert(t[j] == s[j]);
            } else {
                assert(s[j] == s.last());
            }
        };
        if b == 0 {
            lemma_trim_subrange(s, 0, 0);
            lemma_trim_subrange(t, 0, 0);
            assert(s.subrange(0, 0) =~= t.subrange(0, 0));
        } else {
            let a = first_non_space_idx(s);
            assert(!is_space(s[b - 1]));
            assert(a <= b - 1);
            lemma_trim_subrange(s, a, b);
            assert(forall|j: int| 0 <= j < a ==> is_space(t[j]));
            lemma_trim_subrange(t, a, b);
            assert(s.subrange(a, b) =~= t.subrange(a, b));
        }
    }
}

/// Leading whitespace does not change the trim.
pub proof fn lemma_trim_space_prefix(c: char, x: Seq<char>)
    requires
        is_space(c),
    ensures
        trim(seq![c] + x) == trim(x),
{
    let s = seq![c] + x;
    assert(s[0] == c);
    assert(s.skip(1) =~= x);
    assert(trim_front(s) == trim_front(x));
}

/// The sequence with one trailing carriage return removed, if it has
/// one: how a raw line is normalised before the grammar looks at it.
pub open spec fn strip_cr(s: Seq<char>) -> Seq<char> {
    if s.len() > 0 && s.last() == '\r' {
        s.drop_last()
    } else {
        s
    }
}

/// The lines of a text, split at every newline character: one line
/// more than there are newlines, and a final empty line when the text
/// ends with a newline.
pub open spec fn split_lines(s: Seq<char>) -> Seq<Seq<char>>
    decreases s.len(),
{
    if s.len() == 0 {
        seq![Seq::<char>::empty()]
    } else if s[0] == '\n' {
        seq![Seq::<char>::empty()] + split_lines(s.skip(1))
    } else {
        let r = split_lines(s.skip(1));
        seq![seq![s[0]] + r[0]] + r.skip(1)
    }
}

/// A text always splits into at least one line.
pub proof fn lemma_split_lines_len(s: Seq<char>)
    ensures
        split_lines(s).len() >= 1,
    decreases s.len(),
{
    if s.len() == 0 {
    } else {
        lemma_split_lines_len(s.skip(1));
    }
}

/// Prepending newline-free text extends the first line and leaves the
/// others alone.
pub proof fn lemma_split_lines_prefix(a: Seq<char>, rest: Seq<char>)
    requires
        forall|j: int| 0 <= j < a.len() ==> a[j] != '\n',
    ensures
        split_lines(a + rest) == seq![a + split_lines(rest)[0]] + split_lines(rest).skip(1),
    decreases a.len(),
{
    lemma_split_lines_len(rest);
    if a.len() == 0 {
        assert(a + rest =~= rest);
        assert(a + split_lines(rest)[0] =~= split_lines(rest)[0]);
        assert(seq![split_lines(rest)[0]] + split_lines(rest).skip(1) =~= split_lines(rest));
    } else {
        let s = a + rest;
        assert(s[0] == a[0]);
        assert(s.skip(1) =~= a.skip(1) + rest);
        lemma_split_lines_prefix(a.skip(1), rest);
        let r = split_lines(s.skip(1));
        assert(r[0] == a.skip(1) + split_lines(rest)[0]);
        assert(seq![s[0]] + r[0] =~= a + split_lines(rest)[0]);
        assert(r.skip(1) =~= split_lines(rest).skip(1));
        assert(split_lines(s) =~= seq![a + split_lines(rest)[0]] + split_lines(rest).skip(1));
    }
}

/// A newline-free line followed by a newline is split off whole.
pub proof fn lemma_split_lines_line(a: Seq<char>, rest: Seq<char>)
    requires
        forall|j: int| 0 <= j < a.len() ==> a[j] != '\n',
    ensures
        split_lines(a + seq!['\n'] + rest) == seq![a] + split_lines(rest),
{
    let nl = seq!['\n'] + rest;
    assert(nl[0] == '\n');
    assert(nl.skip(1) =~= rest);
    assert(split_lines(nl) == seq![Seq::<char>::empty()] + split_lines(rest));
    assert(a + seq!['\n'] + rest =~= a + nl);
    lemma_split_lines_prefix(a, nl);
    lemma_split_lines_len(rest);
    assert(a + split_lines(nl)[0] =~= a);
    assert(split_lines(nl).skip(1) =~= split_lines(rest));
    assert(split_lines(a + nl) =~= seq![a] + split_lines(rest));
}

/// The whitespace-separated tokens of a line: maximal runs of
/// non-space characters, in order.
pub open spec fn tokens(s: Seq<char>) -> Seq<Seq<char>>
    decreases s.len(),
{
    if s.len() == 0 {
        Seq::<Seq<char>>::empty()
    } else if is_space(s[0]) {
        tokens(s.skip(1))
    } else if s.len() > 1 && !is_space(s[1]) {
        let r = tokens(s.skip(1));
        seq![seq![s[0]] + r[0]] + r.skip(1)
    } else {
        seq![seq![s[0]]] + tokens(s.skip(1))
    }
}

/// All-whitespace text has no tokens.
pub proof fn lemma_tokens_all_space(s: Seq<char>)
    requires
        forall|j: int| 0 <= j < s.len() ==> is_space(s[j]),
    ensures
        tokens(s) == Seq::<Seq<char>>::empty(),
    decreases s.len(),
{
    if s.len() > 0 {
        lemma_tokens_all_space(s.skip(1));
    }
}

/// Leading whitespace does not change the tokens.
pub proof fn lemma_tokens_space_prefix(sp: Seq<char>, rest: Seq<char>)
    requires
        forall|j: int| 0 <= j < sp.len() ==> is_space(sp[j]),
    ensures
        tokens(sp + rest) == tokens(rest),
    decreases sp.len(),
{
    if sp.len() == 0 {
        assert(sp + rest =~= rest);
    } else {
        let s = sp + rest;
        assert(s[0] == sp[0]);
        assert(s.skip(1) =~= sp.skip(1) + rest);
        lemma_tokens_space_prefix(sp.skip(1), rest);
    }
}

/// A run of non-space characters followed by a space (or the end of
/// the line) is one whole token.
pub proof fn lemma_tokens_word(w: Seq<char>, rest: Seq<char>)
    requires
        w.len() > 0,
        forall|j: int| 0 <= j < w.len() ==> !is_space(w[j]),
        rest.len() == 0 || is_space(rest[0]),
    ensures
        tokens(w + rest) == seq![w] + tokens(rest),
    decreases w.len(),
{
    let s = w + rest;
    assert(s[0] == w[0]);
    assert(s.skip(1) =~= w.skip(1) + rest);
    if w.len() == 1 {
        assert(s.skip(1) =~= rest);
        if rest.len() == 0 {
            assert(tokens(s) =~= seq![seq![s[0]]] + tokens(rest));
        } else {
            assert(s.len() > 1 && is_space(s[1]));
            assert(tokens(s) == seq![seq![s[0]]] + tokens(rest));
        }
        assert(seq![s[0]] =~= w);
        assert(seq![seq![s[0]]] + tokens(rest) =~= seq![w] + tokens(rest));
        assert(tokens(s) =~= seq![w] + tokens(rest));
    } else {
        assert(s[1] == w[1]);
        assert(!is_space(s[1]));
        lemma_tokens_word(w.skip(1), rest);
        let r = tokens(s.skip(1));
        assert(r[0] == w.skip(1));
        assert(seq![s[0]] + r[0] =~= w);
        assert(r.skip(1) =~= tokens(rest));
        assert(tokens(s) =~= seq![w] + tokens(rest));
    }
}

/// Relies on `String::push`: appends the given character at the end
/// of the string.
#[verifier::external_body]
pub(crate) fn push_char(s: &mut String, c: char)
    ensures
        final(s)@ == old(s)@.push(c),
{
    s.push(c);
}

/// Collects the characters of a string slice into a vector.
pub fn chars_of(s: &str) -> (v: Vec<char>)
    ensures
        v@ == s@,
{
    let n = s.unicode_len();
    let mut v: Vec<char> = Vec::new();
    let mut i: usize = 0;
    while i < n
        invariant
            i <= n,
            n == s@.len(),
            v@ == s@.take(i as int),
        decreases n - i,
    {
        let c = s.get_char(i);
        v.push(c);
        i = i + 1;
        assert(v@ =~= s@.take(i as int));
    }
    assert(v@ =~= s@);
    v
}

/// Builds a string whose characters are exactly those of the vector.
pub fn string_of_chars(v: &Vec<char>) -> (s: String)
    ensures
        s@ == v@,
{
    let mut s = String::new();
    let mut i: usize = 0;
    while i < v.len()
        invariant
            i <= v@.len(),
            s@ == v@.take(i as int),
        decreases v@.len() - i,
    {
        push_char(&mut s, v[i]);
        i = i + 1;
        assert(s@ =~= v@.take(i as int));
    }
    assert(s@ =~= v@);
    s
}

/// The first position of `[from, to)` holding a non-space character,
/// or `to` when there is none.
pub fn scan_while_space(v: &Vec<char>, from: usize, to: usize) -> (r: usize)
    requires
        from <= to <= v@.len(),
    ensures
        from <= r <= to,
        forall|j: int| from <= j < r ==> is_space(v@[j]),
        r < to ==> !is_space(v@[r as int]),
{
    let mut i = from;
    while i < to
        invariant
            from <= i <= to <= v@.len(),
            forall|j: int| from <= j < i ==> is_space(v@[j]),
        decreases to - i,
    {
        if !space_char(v[i]) {
            return i;
        }
        i = i + 1;
    }
    i
}

/// The first position of `[from, to)` holding a space character, or
/// `to` when there is none.
pub fn scan_while_non_space(v: &Vec<char>, from: usize, to: usize) -> (r: usize)
    requires
        from <= to <= v@.len(),
    ensures
        from <= r <= to,
        forall|j: int| from <= j < r ==> !is_space(v@[j]),
        r < to ==> is_space(v@[r as int]),
{
    let mut i = from;
    while i < to
        invariant
            from <= i <= to <= v@.len(),
            forall|j: int| from <= j < i ==> !is_space(v@[j]),
        decreases to - i,
    {
        if space_char(v[i]) {
            return i;
        }
        i = i + 1;
    }
    i
}

/// The position after the last non-space character of `[from, to)`,
/// or `from` when the whole range is whitespace.
pub fn scan_back_while_space(v: &Vec<char>, from: usize, to: usize) -> (r: usize)
    requires
        from <= to <= v@.len(),
    ensures
        from <= r <= to,
        forall|j: int| r <= j < to ==> is_space(v@[j]),
        r > from ==> !is_space(v@[r - 1]),
{
    let mut b = to;
    while b > from
        invariant
            from <= b <= to <= v@.len(),
            forall|j: int| b <= j < to ==> is_space(v@[j]),
        decreases b,
    {
        if !space_char(v[b - 1]) {
            return b;
        }
        b = b - 1;
    }
    b
}

/// Compares a character vector against a string slice.
pub fn line_eq_str(v: &Vec<char>, s: &str) -> (r: bool)
    ensures
        r == (v@ == s@),
{
    let n = s.unicode_len();
    if v.len() != n {
        return false;
    }
    let mut i: usize = 0;
    while i < n
        invariant
            i <= n,
            n == s@.len(),
            n == v@.len(),
            forall|j: int| 0 <= j < i ==> v@[j] == s@[j],
        decreases n - i,
    {
        if v[i] != s.get_char(i) {
            return false;
        }
        i = i + 1;
    }
    proof {
        assert(v@ =~= s@);
    }
    true
}

/// Decides whether a character vector begins with the characters of
/// a string slice.
pub fn line_starts_with(v: &Vec<char>, s: &str) -> (r: bool)
    ensures
        r == (v@.len() >= s@.len() && v@.take(s@.len() as int) == s@),
{
    let n = s.unicode_len();
    if v.len() < n {
        return false;
    }
    let mut i: usize = 0;
    while i < n
        invariant
            i <= n,
            n == s@.len(),
            n <= v@.len(),
            forall|j: int| 0 <= j < i ==> v@[j] == s@[j],
        decreases n - i,
    {
        if v[i] != s.get_char(i) {
            assert(v@.take(n as int)[i as int] != s@[i as int]);
            return false;
        }
        i = i + 1;
    }
    proof {
        assert(v@.take(n as int) =~= s@);
    }
    true
}

/// Copies the characters of the half-open range `[a, b)`.
pub fn copy_range(v: &Vec<char>, a: usize, b: usize) -> (r: Vec<char>)
    requires
        a <= b <= v@.len(),
    ensures
        r@ == v@.subrange(a as int, b as int),
{
    let mut r: Vec<char> = Vec::new();
    let mut i = a;
    while i < b
        invariant
            a <= i <= b <= v@.len(),
            r@ == v@.subrange(a as int, i as int),
        decreases b - i,
    {
        r.push(v[i]);
        i = i + 1;
        assert(r@ =~= v@.subrange(a as int, i as int));
    }
    r
}

/// Copies the range `[from, to)` with its leading and trailing
/// whitespace removed.
pub fn trim_range(v: &Vec<char>, from: usize, to: usize) -> (r: Vec<char>)
    requires
        from <= to <= v@.len(),
    ensures
        r@ == trim(v@.subrange(from as int, to as int)),
{
    let ghost s = v@.subrange(from as int, to as int);
    let a = scan_while_space(v, from, to);
    let b = scan_back_while_space(v, a, to);
    proof {
        lemma_trim_front_skip(s, a - from);
        assert(s.skip(a - from) =~= v@.subrange(a as int, to as int));
        lemma_trim_back_take(v@.subrange(a as int, to as int), b - a);
        assert(v@.subrange(a as int, to as int).take(b - a) =~= v@.subrange(a as int, b as int));
    }
    copy_range(v, a, b)
}

/// Splits a character vector into its lines, stripping one trailing
/// carriage return from each.
pub fn split_to_lines(v: &Vec<char>) -> (r: Vec<Vec<char>>)
    ensures
        r@.len() == split_lines(v@).len(),
        forall|k: int| 0 <= k < r@.len() ==> r@[k]@ == strip_cr(split_lines(v@)[k]),
{
    let mut out: Vec<Vec<char>> = Vec::new();
    let mut cur: Vec<char> = Vec::new();
    let ghost mut done: Seq<Seq<char>> = Seq::empty();
    let mut i: usize = 0;
    proof {
        lemma_split_lines_len(v@.skip(0));
        assert(v@.skip(0) =~= v@);
    }
    while i < v.len()
        invariant
            i <= v@.len(),
            split_lines(v@) == done + seq![cur@ + split_lines(v@.skip(i as int))[0]] + split_lines(
                v@.skip(i as int),
            ).skip(1),
            out@.len() == done.len(),
            forall|k: int| 0 <= k < done.len() ==> out@[k]@ == strip_cr(done[k]),
        decreases v@.len() - i,
    {
        let ghost tail = v@.skip(i as int);
        let ghost next = split_lines(v@.skip(i as int + 1));
        proof {
            assert(tail[0] == v@[i as int]);
            assert(tail.skip(1) =~= v@.skip(i as int + 1));
            lemma_split_lines_len(v@.skip(i as int + 1));
        }
        let c = v[i];
        if c == '\n' {
            proof {
                assert(split_lines(tail) == seq![Seq::<char>::empty()] + next);
                assert(cur@ + split_lines(tail)[0] =~= cur@);
                assert(split_lines(tail).skip(1) =~= next);
            }
            let ghost raw = cur@;
            let mut line = cur;
            if line.len() > 0 && line[line.len() - 1] == '\r' {
                line.pop();
                assert(line@ =~= raw.drop_last());
            }
            assert(line@ == strip_cr(raw));
            out.push(line);
            cur = Vec::new();
            proof {
                done = done.push(raw);
                assert(cur@ + next[0] =~= next[0]);
                assert(split_lines(v@) =~= done + seq![cur@ + next[0]] + next.skip(1));
            }
        } else {
            proof {
                assert(split_lines(tail) == seq![seq![tail[0]] + next[0]] + next.skip(1));
                assert(cur@ + split_lines(tail)[0] =~= cur@.push(c) + next[0]);
                assert(split_lines(tail).skip(1) =~= next.skip(1));
            }
            cur.push(c);
            proof {
                assert(split_lines(v@) =~= done + seq![cur@ + next[0]] + next.skip(1));
            }
        }
        i = i + 1;
    }
    proof {
        assert(v@.skip(i as int) =~= Seq::<char>::empty());
        assert(split_lines(v@.skip(i as int)) == seq![Seq::<char>::empty()]);
        assert(cur@ + split_lines(v@.skip(i as int))[0] =~= cur@);
        assert(split_lines(v@.skip(i as int)).skip(1) =~= Seq::<Seq<char>>::empty());
        assert(split_lines(v@) =~= done.push(cur@));
    }
    let ghost raw = cur@;
    let mut line = cur;
    if line.len() > 0 && line[line.len() - 1] == '\r' {
        line.pop();
        assert(line@ =~= raw.drop_last());
    }
    assert(line@ == strip_cr(raw));
    out.push(line);
    proof {
        done = done.push(raw);
        assert(out@.len() == done.len());
        assert(forall|k: int|
            0 <= k < done.len() ==> out@[k]@ == strip_cr(
                #[trigger] done[k],
            ));
    }
    out
}

} // verus!
