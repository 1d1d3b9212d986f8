use vstd::prelude::*;

verus! {

/// Appends one character to a string (`String::push`).
#[verifier::external_body]
pub(crate) fn push_char(s: &mut String, c: char)
    ensures
        final(s)@ == old(s)@.push(c),
{
    s.push(c);
}

/// The characters of a string slice, in order.
pub fn chars_of(s: &str) -> (v: Vec<char>)
    ensures
        v@ == s@,
{
    let mut v: Vec<char> = Vec::new();
    for c in it: s.chars()
        invariant
            v@ == it.seq().take(it.index() as int),
            it.seq() == s@,
    {
        v.push(c);
    }
    v
}

/// The string made of the given characters, in order.
pub fn string_of(v: &Vec<char>) -> (s: String)
    ensures
        s@ == v@,
{
    let mut s = String::new();
    let mut i: usize = 0;
    while i < v.len()
        invariant
            i <= v.len(),
            s@ == v@.take(i as int),
        decreases v.len() - i,
    {
        push_char(&mut s, v[i]);
        i = i + 1;
        assert(s@ =~= v@.take(i as int));
    }
    assert(v@.take(v.len() as int) =~= v@);
    s
}

/// Unicode `White_Space`: the characters that `char::is_whitespace` accepts.
pub open spec fn is_ws(c: char) -> bool {
    let u = c as u32;
    ||| 0x9 <= u <= 0xd
    ||| u == 0x20
    ||| u == 0x85
    ||| u == 0xa0
    ||| u == 0x1680
    ||| 0x2000 <= u <= 0x200a
    ||| u == 0x2028
    ||| u == 0x2029
    ||| u == 0x202f
    ||| u == 0x205f
    ||| u == 0x3000
}

/// Whether `c` is a whitespace character.
pub fn is_whitespace(c: char) -> (b: bool)
    ensures
        b == is_ws(c),
{
    let u = c as u32;
    (0x9 <= u && u <= 0xd) || u == 0x20 || u == 0x85 || u == 0xa0 || u == 0x1680 || (0x2000 <= u
        && u <= 0x200a) || u == 0x2028 || u == 0x2029 || u == 0x202f || u == 0x205f || u == 0x3000
}

/// The maximal runs of non-whitespace characters of `s`, in order
/// (what `str::split_whitespace` yields).
pub open spec fn words(s: Seq<char>) -> Seq<Seq<char>>
    decreases s.len(),
{
    if s.len() == 0 {
        seq![]
    } else {
        let w = words(s.drop_last());
        let c = s.last();
        if is_ws(c) {
            w
        } else if s.len() >= 2 && !is_ws(s[s.len() - 2]) {
            w.update(w.len() - 1, w.last().push(c))
        } else {
            w.push(seq![c])
        }
    }
}

/// A nonempty sequence whose last character is not whitespace has a last word.
proof fn lemma_words_nonempty(s: Seq<char>)
    requires
        s.len() > 0,
        !is_ws(s.last()),
    ensures
        words(s).len() > 0,
    decreases s.len(),
{
    if s.len() >= 2 && !is_ws(s[s.len() - 2]) {
        assert(s.drop_last().last() == s[s.len() - 2]);
        lemma_words_nonempty(s.drop_last());
    }
}

/// The character sequences held by a vector of character vectors.
pub open spec fn char_seqs(v: Seq<Vec<char>>) -> Seq<Seq<char>> {
    v.map_values(|w: Vec<char>| w@)
}

/// Splits `s` at whitespace into its words.
pub fn split_words(s: &Vec<char>) -> (out: Vec<Vec<char>>)
    ensures
        char_seqs(out@) == words(s@),
{
    let mut out: Vec<Vec<char>> = Vec::new();
    let mut cur: Vec<char> = Vec::new();
    let mut in_word = false;
    let mut i: usize = 0;
    while i < s.len()
        invariant
            i <= s.len(),
            in_word == (i > 0 && !is_ws(s@[i - 1])),
            !in_word ==> cur@.len() == 0,
            words(s@.take(i as int)) == if in_word {
                char_seqs(out@).push(cur@)
            } else {
                char_seqs(out@)
            },
        decreases s.len() - i,
    {
        let c = s[i];
        let ghost pre = s@.take(i as int);
        let ghost post = s@.take(i + 1);
        assert(post.drop_last() =~= pre);
        assert(post.last() == c);
        if is_whitespace(c) {
            if in_word {
                let ghost d = char_seqs(out@);
                out.push(cur);
                assert(char_seqs(out@) =~= d.push(cur@));
                cur = Vec::new();
                in_word = false;
            }
        } else {
            if in_word {
                assert(post[post.len() - 2] == s@[i - 1]);
                let ghost d = char_seqs(out@);
                cur.push(c);
                assert(d.push(cur@.drop_last()).update(d.len() as int, cur@) =~= d.push(cur@));
            } else {
                cur.push(c);
                assert(cur@ =~= seq![c]);
            }
            in_word = true;
        }
        i = i + 1;
    }
    assert(s@.take(s.len() as int) =~= s@);
    if in_word {
        let ghost d = char_seqs(out@);
        out.push(cur);
        assert(char_seqs(out@) =~= d.push(cur@));
    }
    out
}

/// `t` without its leading double quotes.
pub open spec fn trim_start_quotes(t: Seq<char>) -> Seq<char>
    decreases t.len(),
{
    if t.len() > 0 && t[0] == '"' {
        trim_start_quotes(t.drop_first())
    } else {
        t
    }
}

/// `t` without its trailing double quotes.
pub open spec fn trim_end_quotes(t: Seq<char>) -> Seq<char>
    decreases t.len(),
{
    if t.len() > 0 && t.last() == '"' {
        trim_end_quotes(t.drop_last())
    } else {
        t
    }
}

/// `t` without its leading and trailing double quotes (`str::trim_matches('"')`).
pub open spec fn trim_quotes(t: Seq<char>) -> Seq<char> {
    trim_end_quotes(trim_start_quotes(t))
}

/// Removes the leading and trailing double quotes of `t`.
pub fn strip_quotes(t: &Vec<char>) -> (r: Vec<char>)
    ensures
        r@ == trim_quotes(t@),
{
    let n = t.len();
    let mut start: usize = 0;
    assert(t@.subrange(0, n as int) =~= t@);
    while start < n && t[start] == '"'
        invariant
            start <= n == t@.len(),
            trim_start_quotes(t@) == trim_start_quotes(t@.subrange(start as int, n as int)),
        decreases n - start,
    {
        assert(t@.subrange(start as int, n as int).drop_first() =~= t@.subrange(
            start + 1,
            n as int,
        ));
        start = start + 1;
    }
    let mut end: usize = n;
    while end > start && t[end - 1] == '"'
        invariant
            start <= end <= n == t@.len(),
            trim_end_quotes(t@.subrange(start as int, n as int)) == trim_end_quotes(
                t@.subrange(start as int, end as int),
            ),
        decreases end,
    {
        assert(t@.subrange(start as int, end as int).drop_last() =~= t@.subrange(
            start as int,
            end - 1,
        ));
        end = end - 1;
    }
    let mut r: Vec<char> = Vec::new();
    let mut k: usize = start;
    while k < end
        invariant
            start <= k <= end <= n == t@.len(),
            r@ == t@.subrange(start as int, k as int),
        decreases end - k,
    {
        r.push(t[k]);
        k = k + 1;
        assert(r@ =~= t@.subrange(start as int, k as int));
    }
    r
}

/// The character of decimal digit `d`.
pub open spec fn digit(d: nat) -> char {
    (d + 48) as char
}

/// The decimal representation of `n`, without leading zeros.
pub open spec fn decimal(n: nat) -> Seq<char>
    decreases n,
{
    if n < 10 {
        seq![digit(n)]
    } else {
        decimal(n / 10).push(digit(n % 10))
    }
}

/// The decimal representation of `n`, with a minus sign when it is negative.
pub open spec fn signed_decimal(n: int) -> Seq<char> {
    if n < 0 {
        seq!['-'] + decimal((-n) as nat)
    } else {
        decimal(n as nat)
    }
}

/// Appends the decimal representation of `n`.
pub fn push_decimal(s: &mut String, n: u64)
    ensures
        final(s)@ == old(s)@ + decimal(n as nat),
    decreases n,
{
    if n >= 10 {
        push_decimal(s, n / 10);
    }
    let d = (n % 10) as u8;
    let c = (d + 48u8) as char;
    assert(c == digit((n % 10) as nat));
    push_char(s, c);
    assert(s@ =~= old(s)@ + decimal(n as nat));
}

/// Appends the decimal representation of `n`, with a minus sign when it is negative.
pub fn push_signed_decimal(s: &mut String, n: i32)
    ensures
        final(s)@ == old(s)@ + signed_decimal(n as int),
{
    if n < 0 {
        push_char(s, '-');
        let m: u64 = (0i64 - n as i64) as u64;
        push_decimal(s, m);
        assert(s@ =~= old(s)@ + signed_decimal(n as int));
    } else {
        push_decimal(s, n as u64);
    }
}

/// Whether `w` holds no whitespace character.
pub open spec fn no_ws(w: Seq<char>) -> bool {
    forall|i: int| 0 <= i < w.len() ==> !is_ws(#[trigger] w[i])
}

/// Every word is nonempty and holds no whitespace.
pub proof fn lemma_words_are_nonblank(s: Seq<char>)
    ensures
        forall|k: int|
            0 <= k < words(s).len() ==> #[trigger] no_ws(words(s)[k]) && words(s)[k].len() > 0,
    decreases s.len(),
{
    if s.len() > 0 {
        lemma_words_are_nonblank(s.drop_last());
        let w = words(s.drop_last());
        let c = s.last();
        if !is_ws(c) {
            if s.len() >= 2 && !is_ws(s[s.len() - 2]) {
                assert(s.drop_last().last() == s[s.len() - 2]);
                lemma_words_nonempty(s.drop_last());
                let nw = w.last().push(c);
                assert(no_ws(w[w.len() - 1]));
                assert(no_ws(nw));
                assert forall|k: int| 0 <= k < words(s).len() implies #[trigger] no_ws(
                    words(s)[k],
                ) && words(s)[k].len() > 0 by {
                    if k < w.len() - 1 {
                        assert(words(s)[k] == w[k]);
                    }
                }
            } else {
                assert(no_ws(seq![c]));
                assert forall|k: int| 0 <= k < words(s).len() implies #[trigger] no_ws(
                    words(s)[k],
                ) && words(s)[k].len() > 0 by {
                    if k < w.len() {
                        assert(words(s)[k] == w[k]);
                    }
                }
            }
        }
    }
}

/// Removing quotes keeps a word free of whitespace.
pub proof fn lemma_trim_keeps_no_ws(t: Seq<char>)
    requires
        no_ws(t),
    ensures
        no_ws(trim_quotes(t)),
{
    lemma_trim_start_keeps_no_ws(t);
    lemma_trim_end_keeps_no_ws(trim_start_quotes(t));
}

proof fn lemma_trim_start_keeps_no_ws(t: Seq<char>)
    requires
        no_ws(t),
    ensures
        no_ws(trim_start_quotes(t)),
    decreases t.len(),
{
    if t.len() > 0 && t[0] == '"' {
        assert(no_ws(t.drop_first())) by {
            assert forall|i: int| 0 <= i < t.drop_first().len() implies !is_ws(
                #[trigger] t.drop_first()[i],
            ) by {
                assert(t.drop_first()[i] == t[i + 1]);
            }
        }
        lemma_trim_start_keeps_no_ws(t.drop_first());
    }
}

proof fn lemma_trim_end_keeps_no_ws(t: Seq<char>)
    requires
        no_ws(t),
    ensures
        no_ws(trim_end_quotes(t)),
    decreases t.len(),
{
    if t.len() > 0 && t.last() == '"' {
        assert(no_ws(t.drop_last())) by {
            assert forall|i: int| 0 <= i < t.drop_last().len() implies !is_ws(
                #[trigger] t.drop_last()[i],
            ) by {
                assert(t.drop_last()[i] == t[i]);
            }
        }
        lemma_trim_end_keeps_no_ws(t.drop_last());
    }
}

/// A whitespace character added at the end starts no word.
pub proof fn lemma_words_push_ws(p: Seq<char>, c: char)
    requires
        is_ws(c),
    ensures
        words(p.push(c)) == words(p),
{
    assert(p.push(c).drop_last() =~= p);
}

/// A word added after whitespace (or at the start) becomes the last word.
pub proof fn lemma_words_append_word(p: Seq<char>, w: Seq<char>)
    requires
        p.len() == 0 || is_ws(p.last()),
        w.len() > 0,
        no_ws(w),
    ensures
        words(p + w) == words(p).push(w),
    decreases w.len(),
{
    let c = w.last();
    assert((p + w).drop_last() =~= p + w.drop_last());
    assert((p + w).last() == c);
    if w.len() == 1 {
        assert(p + w.drop_last() =~= p);
        assert(w =~= seq![c]);
        if p.len() > 0 {
            assert((p + w)[(p + w).len() - 2] == p.last());
        }
    } else {
        let v = w.drop_last();
        assert(no_ws(v)) by {
            assert forall|i: int| 0 <= i < v.len() implies !is_ws(#[trigger] v[i]) by {
                assert(v[i] == w[i]);
            }
        }
        lemma_words_append_word(p, v);
        assert((p + w)[(p + w).len() - 2] == w[w.len() - 2]);
        assert(v.push(c) =~= w);
        assert(words(p).push(v).update(words(p).len() as int, v.push(c)) =~= words(p).push(w));
    }
}

/// Whether `w` neither starts nor ends with a double quote.
pub open spec fn unquoted(w: Seq<char>) -> bool {
    w.len() > 0 ==> w[0] != '"' && w.last() != '"'
}

proof fn lemma_trim_start_unquoted(t: Seq<char>)
    ensures
        trim_start_quotes(t).len() > 0 ==> trim_start_quotes(t)[0] != '"',
    decreases t.len(),
{
    if t.len() > 0 && t[0] == '"' {
        lemma_trim_start_unquoted(t.drop_first());
    }
}

proof fn lemma_trim_end_prefix(t: Seq<char>)
    ensures
        trim_end_quotes(t) == t.take(trim_end_quotes(t).len() as int),
        trim_end_quotes(t).len() <= t.len(),
        trim_end_quotes(t).len() > 0 ==> trim_end_quotes(t).last() != '"',
    decreases t.len(),
{
    if t.len() > 0 && t.last() == '"' {
        lemma_trim_end_prefix(t.drop_last());
        let r = trim_end_quotes(t.drop_last());
        assert(t.drop_last().take(r.len() as int) =~= t.take(r.len() as int));
    } else {
        assert(t.take(t.len() as int) =~= t);
    }
}

/// A word with its surrounding quotes removed neither starts nor ends with one.
pub proof fn lemma_trim_unquoted(t: Seq<char>)
    ensures
        unquoted(trim_quotes(t)),
{
    let r = trim_start_quotes(t);
    lemma_trim_start_unquoted(t);
    lemma_trim_end_prefix(r);
    let q = trim_end_quotes(r);
    if q.len() > 0 {
        assert(q[0] == r.take(q.len() as int)[0]);
    }
}

proof fn lemma_trim_start_suffix(t: Seq<char>)
    ensures
        trim_start_quotes(t).len() <= t.len(),
        trim_start_quotes(t) == t.subrange(t.len() - trim_start_quotes(t).len(), t.len() as int),
        forall|i: int| 0 <= i < t.len() - trim_start_quotes(t).len() ==> #[trigger] t[i] == '"',
    decreases t.len(),
{
    if t.len() > 0 && t[0] == '"' {
        lemma_trim_start_suffix(t.drop_first());
        let r = trim_start_quotes(t.drop_first());
        assert(t.drop_first().subrange(t.len() - 1 - r.len(), t.len() - 1) =~= t.subrange(
            t.len() - r.len(),
            t.len() as int,
        ));
        assert forall|i: int| 0 <= i < t.len() - r.len() implies #[trigger] t[i] == '"' by {
            if i > 0 {
                assert(t[i] == t.drop_first()[i - 1]);
            }
        }
    } else {
        assert(t.subrange(0, t.len() as int) =~= t);
    }
}

proof fn lemma_trim_end_tail_quotes(t: Seq<char>)
    ensures
        forall|i: int| trim_end_quotes(t).len() <= i < t.len() ==> #[trigger] t[i] == '"',
    decreases t.len(),
{
    if t.len() > 0 && t.last() == '"' {
        lemma_trim_end_tail_quotes(t.drop_last());
        lemma_trim_end_prefix(t.drop_last());
        assert forall|i: int| trim_end_quotes(t).len() <= i < t.len() implies #[trigger] t[i]
            == '"' by {
            if i < t.len() - 1 {
                assert(t[i] == t.drop_last()[i]);
            }
        }
    }
}

/// Removing surrounding quotes removes only quotes, and only at the ends: the
/// result is a contiguous piece of the word, everything before and after it is
/// a double quote, and it neither starts nor ends with one.
pub proof fn lemma_trim_removes_only_outer_quotes(t: Seq<char>)
    ensures
        exists|a: int, b: int|
            0 <= a <= b <= t.len() && trim_quotes(t) == t.subrange(a, b) && (forall|i: int|
                0 <= i < a ==> #[trigger] t[i] == '"') && (forall|i: int|
                b <= i < t.len() ==> #[trigger] t[i] == '"'),
        unquoted(trim_quotes(t)),
{
    lemma_trim_unquoted(t);
    let r = trim_start_quotes(t);
    lemma_trim_start_suffix(t);
    lemma_trim_end_prefix(r);
    lemma_trim_end_tail_quotes(r);
    let q = trim_end_quotes(r);
    let a = t.len() - r.len();
    let b = a + q.len();
    assert(t.subrange(a, b) =~= q) by {
        assert forall|i: int| 0 <= i < q.len() implies t.subrange(a, b)[i] == q[i] by {
            assert(q[i] == r.take(q.len() as int)[i]);
            assert(r[i] == t.subrange(a, t.len() as int)[i]);
        }
    }
    assert forall|i: int| b <= i < t.len() implies #[trigger] t[i] == '"' by {
        assert(t[i] == r[i - a]);
    }
}

} // verus!
