use vstd::prelude::*;

verus! {

/// The characters of `s`, in order.
pub fn chars_of(s: &str) -> (r: Vec<char>)
    ensures
        r@ == s@,
{
    let mut r: Vec<char> = Vec::new();
    for c in it: s.chars()
        invariant
            r@ == it.seq().take(it.index() as int),
            it.seq() == s@,
    {
        r.push(c);
    }
    r
}

/// Appends `c` to `s` with `String::push`, which std documents as appending
/// the character to the end of the string: the contract claims that the
/// characters afterwards are the old ones followed by `c`.
#[verifier::external_body]
fn push_char(s: &mut String, c: char)
    ensures
        final(s)@ == old(s)@.push(c),
{
    s.push(c);
}

/// The string made of the characters of `v`, in order.
pub fn string_of(v: &Vec<char>) -> (r: String)
    ensures
        r@ == v@,
{
    let mut r = String::new();
    let mut i: usize = 0;
    while i < v.len()
        invariant
            i <= v@.len(),
            r@ == v@.take(i as int),
        decreases v@.len() - i,
    {
        push_char(&mut r, v[i]);
        assert(v@.take(i + 1) =~= v@.take(i as int).push(v@[i as int]));
        i = i + 1;
    }
    assert(v@.take(v@.len() as int) =~= v@);
    r
}


/// Whether `c` has the Unicode `White_Space` property, which is what
/// `char::is_whitespace` tests and what `str::trim` and
/// `str::split_whitespace` split on.
pub open spec fn is_white_space(c: char) -> bool {
    ||| ('\t' <= c && c <= '\r')
    ||| c == ' '
    ||| c == '\u{85}'
    ||| c == '\u{a0}'
    ||| c == '\u{1680}'
    ||| ('\u{2000}' <= c && c <= '\u{200a}')
    ||| c == '\u{2028}'
    ||| c == '\u{2029}'
    ||| c == '\u{202f}'
    ||| c == '\u{205f}'
    ||| c == '\u{3000}'
}

/// Executable test of `is_white_space`.
pub fn is_whitespace(c: char) -> (r: bool)
    ensures
        r == is_white_space(c),
{
    ('\t' <= c && c <= '\r') || c == ' ' || c == '\u{85}' || c == '\u{a0}' || c == '\u{1680}'
        || ('\u{2000}' <= c && c <= '\u{200a}') || c == '\u{2028}' || c == '\u{2029}'
        || c == '\u{202f}' || c == '\u{205f}' || c == '\u{3000}'
}

/// `s` without its leading white space.
pub open spec fn trim_start(s: Seq<char>) -> Seq<char>
    decreases s.len(),
{
    if s.len() > 0 && is_white_space(s[0]) {
        trim_start(s.drop_first())
    } else {
        s
    }
}

/// `s` without its trailing white space.
pub open spec fn trim_end(s: Seq<char>) -> Seq<char>
    decreases s.len(),
{
    if s.len() > 0 && is_white_space(s.last()) {
        trim_end(s.drop_last())
    } else {
        s
    }
}

/// `s` without leading and trailing white space (`str::trim`).
pub open spec fn trim(s: Seq<char>) -> Seq<char> {
    trim_end(trim_start(s))
}

/// Whether `s` begins with `prefix` (`str::starts_with`).
pub open spec fn has_prefix(s: Seq<char>, prefix: Seq<char>) -> bool {
    prefix.len() <= s.len() && s.take(prefix.len() as int) == prefix
}

/// The pieces of `s` between occurrences of `sep`, the first piece being
/// continued from `cur` (`str::split` on one character).
pub open spec fn split_from(cur: Seq<char>, s: Seq<char>, sep: char) -> Seq<Seq<char>>
    decreases s.len(),
{
    if s.len() == 0 {
        seq![cur]
    } else if s[0] == sep {
        seq![cur] + split_from(Seq::empty(), s.drop_first(), sep)
    } else {
        split_from(cur.push(s[0]), s.drop_first(), sep)
    }
}

/// The pieces of `s` between occurrences of `sep`, empty pieces included.
pub open spec fn split_on(s: Seq<char>, sep: char) -> Seq<Seq<char>> {
    split_from(Seq::empty(), s, sep)
}

/// The white-space separated words of `s`, the first continued from `cur`.
pub open spec fn words_from(cur: Seq<char>, s: Seq<char>) -> Seq<Seq<char>>
    decreases s.len(),
{
    if s.len() == 0 {
        if cur.len() == 0 { Seq::empty() } else { seq![cur] }
    } else if is_white_space(s[0]) {
        (if cur.len() == 0 { Seq::empty() } else { seq![cur] }) + words_from(Seq::empty(), s.drop_first())
    } else {
        words_from(cur.push(s[0]), s.drop_first())
    }
}

/// The white-space separated, non-empty words of `s` (`str::split_whitespace`).
pub open spec fn words(s: Seq<char>) -> Seq<Seq<char>> {
    words_from(Seq::empty(), s)
}

/// Whether `s` ends with `suffix` (`str::ends_with`).
pub open spec fn has_suffix(s: Seq<char>, suffix: Seq<char>) -> bool {
    suffix.len() <= s.len() && s.skip(s.len() - suffix.len()) == suffix
}

/// `s` ends with `suffix` exactly when it is some text followed by `suffix`.
pub proof fn lemma_has_suffix_iff(s: Seq<char>, suffix: Seq<char>)
    ensures
        has_suffix(s, suffix) <==> exists|p: Seq<char>| s == #[trigger] (p + suffix),
{
    if has_suffix(s, suffix) {
        let p = s.take(s.len() - suffix.len());
        assert(s =~= p + suffix);
    }
    if exists|p: Seq<char>| s == #[trigger] (p + suffix) {
        let p = choose|p: Seq<char>| s == #[trigger] (p + suffix);
        assert(s.skip(s.len() - suffix.len()) =~= suffix);
    }
}

/// `s` begins with `prefix` exactly when it is `prefix` followed by some text.
pub proof fn lemma_has_prefix_iff(s: Seq<char>, prefix: Seq<char>)
    ensures
        has_prefix(s, prefix) <==> exists|r: Seq<char>| s == #[trigger] (prefix + r),
{
    if has_prefix(s, prefix) {
        let r = s.skip(prefix.len() as int);
        assert(s =~= prefix + r);
    }
    if exists|r: Seq<char>| s == #[trigger] (prefix + r) {
        let r = choose|r: Seq<char>| s == #[trigger] (prefix + r);
        assert(s.take(prefix.len() as int) =~= prefix);
    }
}

/// The pieces `pieces` joined with `sep` between each two.
pub open spec fn join_with(pieces: Seq<Seq<char>>, sep: char) -> Seq<char>
    decreases pieces.len(),
{
    if pieces.len() == 0 {
        Seq::empty()
    } else if pieces.len() == 1 {
        pieces[0]
    } else {
        pieces[0] + seq![sep] + join_with(pieces.drop_first(), sep)
    }
}

proof fn lemma_split_from_join(cur: Seq<char>, s: Seq<char>, sep: char)
    requires
        forall|i: int| 0 <= i < cur.len() ==> #[trigger] cur[i] != sep,
    ensures
        join_with(split_from(cur, s, sep), sep) == cur + s,
        forall|k: int, i: int|
            0 <= k < split_from(cur, s, sep).len() && 0 <= i < split_from(cur, s, sep)[k].len()
                ==> #[trigger] split_from(cur, s, sep)[k][i] != sep,
    decreases s.len(),
{
    if s.len() == 0 {
        assert(cur + s =~= cur);
        assert(split_from(cur, s, sep) =~= seq![cur]);
        assert(split_from(cur, s, sep)[0] == cur);
    } else if s[0] == sep {
        let rest = split_from(Seq::empty(), s.drop_first(), sep);
        lemma_split_from_join(Seq::empty(), s.drop_first(), sep);
        lemma_split_from_nonempty(Seq::empty(), s.drop_first(), sep);
        let all = seq![cur] + rest;
        assert(all[0] == cur);
        assert(all.drop_first() =~= rest);
        assert(cur + seq![sep] + (Seq::<char>::empty() + s.drop_first()) =~= cur + s);
        assert forall|k: int, i: int| 0 <= k < all.len() && 0 <= i < all[k].len() implies #[trigger] all[k][i]
            != sep by {
            if k > 0 {
                assert(all[k] == rest[k - 1]);
            }
        }
    } else {
        lemma_split_from_join(cur.push(s[0]), s.drop_first(), sep);
        assert(cur.push(s[0]) + s.drop_first() =~= cur + s);
    }
}

/// Splitting at a separator cuts the text into pieces without the separator
/// that, joined again with it, give the text back.
pub proof fn lemma_split_on_join(s: Seq<char>, sep: char)
    ensures
        join_with(split_on(s, sep), sep) == s,
        forall|k: int, i: int|
            0 <= k < split_on(s, sep).len() && 0 <= i < split_on(s, sep)[k].len()
                ==> #[trigger] split_on(s, sep)[k][i] != sep,
{
    lemma_split_from_join(Seq::empty(), s, sep);
    assert(Seq::<char>::empty() + s =~= s);
}

proof fn lemma_trim_start_shape(s: Seq<char>) -> (a: int)
    ensures
        0 <= a <= s.len(),
        trim_start(s) == s.skip(a),
        forall|i: int| 0 <= i < a ==> is_white_space(#[trigger] s[i]),
        a < s.len() ==> !is_white_space(s[a]),
    decreases s.len(),
{
    if s.len() > 0 && is_white_space(s[0]) {
        let a = lemma_trim_start_shape(s.drop_first());
        assert(s.drop_first().skip(a) =~= s.skip(a + 1));
        assert forall|i: int| 0 <= i < a + 1 implies is_white_space(#[trigger] s[i]) by {
            if i > 0 {
                assert(s[i] == s.drop_first()[i - 1]);
            }
        }
        assert(a + 1 < s.len() ==> s[a + 1] == s.drop_first()[a]);
        a + 1
    } else {
        assert(s.skip(0) =~= s);
        0
    }
}

proof fn lemma_trim_end_shape(s: Seq<char>) -> (b: int)
    ensures
        0 <= b <= s.len(),
        trim_end(s) == s.take(b),
        forall|i: int| b <= i < s.len() ==> is_white_space(#[trigger] s[i]),
        b > 0 ==> !is_white_space(s[b - 1]),
    decreases s.len(),
{
    if s.len() > 0 && is_white_space(s.last()) {
        let b = lemma_trim_end_shape(s.drop_last());
        assert(s.drop_last().take(b) =~= s.take(b));
        assert forall|i: int| b <= i < s.len() implies is_white_space(#[trigger] s[i]) by {
            if i < s.len() - 1 {
                assert(s[i] == s.drop_last()[i]);
            }
        }
        assert(b > 0 ==> s[b - 1] == s.drop_last()[b - 1]);
        b
    } else {
        assert(s.take(s.len() as int) =~= s);
        s.len() as int
    }
}

/// Trimming removes exactly the white space at both ends: the result is a
/// stretch of the text with only white space before and after it, and it
/// neither begins nor ends with white space.
pub proof fn lemma_trim_shape(s: Seq<char>)
    ensures
        exists|a: int, b: int|
            0 <= a <= b <= s.len() && trim(s) == s.subrange(a, b) && (forall|i: int|
                0 <= i < a ==> is_white_space(#[trigger] s[i])) && (forall|i: int|
                b <= i < s.len() ==> is_white_space(#[trigger] s[i])),
        trim(s).len() > 0 ==> !is_white_space(trim(s)[0]) && !is_white_space(trim(s).last()),
{
    let a = lemma_trim_start_shape(s);
    let t = s.skip(a);
    let b = lemma_trim_end_shape(t);
    assert(trim(s) == t.take(b));
    assert(t.take(b) =~= s.subrange(a, a + b));
    assert forall|i: int| a + b <= i < s.len() implies is_white_space(#[trigger] s[i]) by {
        assert(s[i] == t[i - a]);
    }
    if trim(s).len() > 0 {
        assert(trim(s)[0] == s[a]);
        assert(trim(s).last() == t[b - 1]);
    }
}

proof fn lemma_words_from_shape(cur: Seq<char>, s: Seq<char>)
    requires
        forall|i: int| 0 <= i < cur.len() ==> !is_white_space(#[trigger] cur[i]),
    ensures
        forall|k: int| 0 <= k < words_from(cur, s).len() ==> (#[trigger] words_from(cur, s)[k]).len() > 0,
        forall|k: int, i: int|
            0 <= k < words_from(cur, s).len() && 0 <= i < words_from(cur, s)[k].len()
                ==> !is_white_space(#[trigger] words_from(cur, s)[k][i]),
        (forall|i: int| 0 <= i < s.len() ==> !is_white_space(#[trigger] s[i])) && cur.len() + s.len() > 0
            ==> words_from(cur, s) == seq![cur + s],
        (forall|i: int| 0 <= i < s.len() ==> is_white_space(#[trigger] s[i])) && cur.len() == 0
            ==> words_from(cur, s).len() == 0,
    decreases s.len(),
{
    if s.len() == 0 {
        assert(cur + s =~= cur);
        if cur.len() > 0 {
            assert(words_from(cur, s) =~= seq![cur]);
            assert(words_from(cur, s)[0] == cur);
        }
    } else if is_white_space(s[0]) {
        let rest = words_from(Seq::empty(), s.drop_first());
        lemma_words_from_shape(Seq::empty(), s.drop_first());
        if cur.len() > 0 {
            let all = seq![cur] + rest;
            assert(words_from(cur, s) == all);
            assert forall|k: int| 0 <= k < all.len() implies (#[trigger] all[k]).len() > 0 by {
                if k > 0 {
                    assert(all[k] == rest[k - 1]);
                }
            }
            assert forall|k: int, i: int| 0 <= k < all.len() && 0 <= i < all[k].len() implies !is_white_space(
                #[trigger] all[k][i],
            ) by {
                if k > 0 {
                    assert(all[k] == rest[k - 1]);
                }
            }
        } else {
            assert(words_from(cur, s) =~= rest);
            if forall|i: int| 0 <= i < s.len() ==> is_white_space(#[trigger] s[i]) {
                assert forall|i: int| 0 <= i < s.drop_first().len() implies is_white_space(
                    #[trigger] s.drop_first()[i],
                ) by {
                    assert(s.drop_first()[i] == s[i + 1]);
                }
            }
        }
    } else {
        lemma_words_from_shape(cur.push(s[0]), s.drop_first());
        assert(words_from(cur, s) == words_from(cur.push(s[0]), s.drop_first()));
        assert(cur.push(s[0]) + s.drop_first() =~= cur + s);
        if forall|i: int| 0 <= i < s.len() ==> !is_white_space(#[trigger] s[i]) {
            assert forall|i: int| 0 <= i < s.drop_first().len() implies !is_white_space(
                #[trigger] s.drop_first()[i],
            ) by {
                assert(s.drop_first()[i] == s[i + 1]);
            }
        }
    }
}

/// The words of a text are never empty and hold no white space; a non-empty
/// text without white space is one word, and white space alone has none.
pub proof fn lemma_words_shape(s: Seq<char>)
    ensures
        forall|k: int| 0 <= k < words(s).len() ==> (#[trigger] words(s)[k]).len() > 0,
        forall|k: int, i: int|
            0 <= k < words(s).len() && 0 <= i < words(s)[k].len() ==> !is_white_space(
                #[trigger] words(s)[k][i],
            ),
        (forall|i: int| 0 <= i < s.len() ==> !is_white_space(#[trigger] s[i])) && s.len() > 0
            ==> words(s) == seq![s],
        (forall|i: int| 0 <= i < s.len() ==> is_white_space(#[trigger] s[i])) ==> words(s).len()
            == 0,
{
    lemma_words_from_shape(Seq::empty(), s);
    assert(Seq::<char>::empty() + s =~= s);
}

/// A non-empty sequence begins with the one-character prefix `[c]` exactly
/// when its first character is `c`.
pub proof fn lemma_prefix_one(s: Seq<char>, c: char)
    requires
        s.len() > 0,
    ensures
        has_prefix(s, seq![c]) == (s[0] == c),
{
    assert(s.take(1) =~= seq![s[0]]);
    if s.take(1) == seq![c] {
        assert(s.take(1)[0] == seq![c][0]);
    }
    if s[0] == c {
        assert(s.take(1) =~= seq![c]);
    }
}

/// Splitting text that has a separator after its part `a` gives the pieces
/// of `a` followed by the pieces of the rest.
pub proof fn lemma_split_from_concat(cur: Seq<char>, a: Seq<char>, b: Seq<char>, sep: char)
    ensures
        split_from(cur, a + seq![sep] + b, sep) == split_from(cur, a, sep) + split_on(b, sep),
    decreases a.len(),
{
    let s = a + seq![sep] + b;
    if a.len() == 0 {
        assert(s[0] == sep);
        assert(s.drop_first() =~= b);
    } else {
        assert(s[0] == a[0]);
        assert(s.drop_first() =~= a.drop_first() + seq![sep] + b);
        if a[0] == sep {
            lemma_split_from_concat(Seq::empty(), a.drop_first(), b, sep);
            assert(seq![cur] + (split_from(Seq::empty(), a.drop_first(), sep) + split_on(b, sep))
                =~= seq![cur] + split_from(Seq::empty(), a.drop_first(), sep) + split_on(b, sep));
        } else {
            lemma_split_from_concat(cur.push(a[0]), a.drop_first(), b, sep);
        }
    }
}

/// Text without the separator is a single piece.
pub proof fn lemma_split_from_single(cur: Seq<char>, a: Seq<char>, sep: char)
    requires
        forall|i: int| 0 <= i < a.len() ==> #[trigger] a[i] != sep,
    ensures
        split_from(cur, a, sep) == seq![cur + a],
    decreases a.len(),
{
    if a.len() == 0 {
        assert(cur + a =~= cur);
    } else {
        assert(a[0] != sep);
        lemma_split_from_single(cur.push(a[0]), a.drop_first(), sep);
        assert(cur.push(a[0]) + a.drop_first() =~= cur + a);
    }
}

/// Splitting always gives at least one piece.
pub proof fn lemma_split_from_nonempty(cur: Seq<char>, s: Seq<char>, sep: char)
    ensures
        split_from(cur, s, sep).len() >= 1,
    decreases s.len(),
{
    if s.len() > 0 {
        if s[0] == sep {
            lemma_split_from_nonempty(Seq::empty(), s.drop_first(), sep);
        } else {
            lemma_split_from_nonempty(cur.push(s[0]), s.drop_first(), sep);
        }
    }
}

/// Splitting a sequence that holds the separator gives at least two pieces.
pub proof fn lemma_split_from_two(cur: Seq<char>, s: Seq<char>, sep: char, i: int)
    requires
        0 <= i < s.len(),
        s[i] == sep,
    ensures
        split_from(cur, s, sep).len() >= 2,
    decreases s.len(),
{
    if s[0] == sep {
        lemma_split_from_nonempty(Seq::empty(), s.drop_first(), sep);
    } else {
        lemma_split_from_two(cur.push(s[0]), s.drop_first(), sep, i - 1);
    }
}

/// `v@[a..b]` as a vector.
pub fn sub_vec(v: &Vec<char>, a: usize, b: usize) -> (r: Vec<char>)
    requires
        a <= b <= v@.len(),
    ensures
        r@ == v@.subrange(a as int, b as int),
{
    let mut r: Vec<char> = Vec::new();
    let mut i: usize = a;
    while i < b
        invariant
            a <= i <= b <= v@.len(),
            r@ == v@.subrange(a as int, i as int),
        decreases b - i,
    {
        r.push(v[i]);
        assert(v@.subrange(a as int, i + 1) =~= v@.subrange(a as int, i as int).push(v@[i as int]));
        i = i + 1;
    }
    r
}

proof fn lemma_trim_start_skip(s: Seq<char>, i: int)
    requires
        0 <= i < s.len(),
        is_white_space(s[i]),
    ensures
        trim_start(s.skip(i)) == trim_start(s.skip(i + 1)),
{
    assert(s.skip(i).drop_first() =~= s.skip(i + 1));
}

proof fn lemma_trim_end_take(s: Seq<char>, j: int)
    requires
        0 < j <= s.len(),
        is_white_space(s[j - 1]),
    ensures
        trim_end(s.take(j)) == trim_end(s.take(j - 1)),
{
    assert(s.take(j).drop_last() =~= s.take(j - 1));
}

/// `v` without leading and trailing white space.
pub fn trim_vec(v: &Vec<char>) -> (r: Vec<char>)
    ensures
        r@ == trim(v@),
{
    let mut i: usize = 0;
    assert(v@.skip(0) =~= v@);
    while i < v.len() && is_whitespace(v[i])
        invariant
            i <= v@.len(),
            trim_start(v@) == trim_start(v@.skip(i as int)),
        decreases v@.len() - i,
    {
        proof { lemma_trim_start_skip(v@, i as int); }
        i = i + 1;
    }
    let ghost t = v@.skip(i as int);
    assert(trim_start(v@) == t);
    let mut j: usize = v.len();
    assert(t.take(t.len() as int) =~= t);
    while j > i && is_whitespace(v[j - 1])
        invariant
            i <= j <= v@.len(),
            t == v@.skip(i as int),
            trim_end(t) == trim_end(t.take(j - i)),
        decreases j,
    {
        proof { lemma_trim_end_take(t, j - i); }
        j = j - 1;
    }
    assert(trim_end(t.take(j - i)) == t.take(j - i));
    assert(t.take(j - i) =~= v@.subrange(i as int, j as int));
    sub_vec(v, i, j)
}

/// Whether `s` begins with `prefix`.
pub fn starts_with(s: &Vec<char>, prefix: &Vec<char>) -> (r: bool)
    ensures
        r == has_prefix(s@, prefix@),
{
    if prefix.len() > s.len() {
        return false;
    }
    let mut i: usize = 0;
    while i < prefix.len()
        invariant
            prefix@.len() <= s@.len(),
            i <= prefix@.len(),
            forall|j: int| 0 <= j < i ==> s@[j] == prefix@[j],
        decreases prefix@.len() - i,
    {
        if s[i] != prefix[i] {
            assert(s@.take(prefix@.len() as int)[i as int] != prefix@[i as int]);
            return false;
        }
        i = i + 1;
    }
    assert(s@.take(prefix@.len() as int) =~= prefix@);
    true
}

/// Whether `s` ends with `suffix`.
pub fn ends_with(s: &Vec<char>, suffix: &Vec<char>) -> (r: bool)
    ensures
        r == has_suffix(s@, suffix@),
{
    if suffix.len() > s.len() {
        return false;
    }
    let start: usize = s.len() - suffix.len();
    let mut i: usize = 0;
    while i < suffix.len()
        invariant
            start + suffix@.len() == s@.len(),
            s@.len() == s.len(),
            i <= suffix@.len(),
            forall|j: int| 0 <= j < i ==> s@[start + j] == suffix@[j],
        decreases suffix@.len() - i,
    {
        if s[start + i] != suffix[i] {
            assert(s@.skip(start as int)[i as int] != suffix@[i as int]);
            return false;
        }
        i = i + 1;
    }
    assert(s@.skip(start as int) =~= suffix@);
    true
}

/// Whether the two character sequences are equal.
pub fn chars_eq(a: &Vec<char>, b: &Vec<char>) -> (r: bool)
    ensures
        r == (a@ == b@),
{
    if a.len() != b.len() {
        return false;
    }
    let r = starts_with(a, b);
    assert(a@.take(b@.len() as int) =~= a@);
    r
}

/// The pieces of `v` between occurrences of `sep`.
pub fn split_vec(v: &Vec<char>, sep: char) -> (r: Vec<Vec<char>>)
    ensures
        r@.len() == split_on(v@, sep).len(),
        forall|k: int| 0 <= k < r@.len() ==> #[trigger] r@[k]@ == split_on(v@, sep)[k],
{
    let mut done: Vec<Vec<char>> = Vec::new();
    let mut cur: Vec<char> = Vec::new();
    let mut i: usize = 0;
    let ghost done_v: Seq<Seq<char>> = Seq::empty();
    assert(v@.skip(0) =~= v@);
    while i < v.len()
        invariant
            i <= v@.len(),
            done@.len() == done_v.len(),
            forall|k: int| 0 <= k < done@.len() ==> #[trigger] done@[k]@ == done_v[k],
            split_on(v@, sep) == done_v + split_from(cur@, v@.skip(i as int), sep),
        decreases v@.len() - i,
    {
        let c = v[i];
        assert(v@.skip(i as int).drop_first() =~= v@.skip(i + 1));
        if c == sep {
            let piece = cur;
            cur = Vec::new();
            proof {
                assert(done_v + (seq![piece@] + split_from(Seq::empty(), v@.skip(i + 1), sep))
                    =~= done_v.push(piece@) + split_from(Seq::empty(), v@.skip(i + 1), sep));
                done_v = done_v.push(piece@);
            }
            done.push(piece);
        } else {
            cur.push(c);
        }
        i = i + 1;
    }
    proof {
        assert(done_v + seq![cur@] =~= done_v.push(cur@));
        done_v = done_v.push(cur@);
    }
    done.push(cur);
    done
}

/// The white-space separated words of `v`.
pub fn words_vec(v: &Vec<char>) -> (r: Vec<Vec<char>>)
    ensures
        r@.len() == words(v@).len(),
        forall|k: int| 0 <= k < r@.len() ==> #[trigger] r@[k]@ == words(v@)[k],
{
    let mut done: Vec<Vec<char>> = Vec::new();
    let mut cur: Vec<char> = Vec::new();
    let mut i: usize = 0;
    let ghost done_v: Seq<Seq<char>> = Seq::empty();
    assert(v@.skip(0) =~= v@);
    while i < v.len()
        invariant
            i <= v@.len(),
            done@.len() == done_v.len(),
            forall|k: int| 0 <= k < done@.len() ==> #[trigger] done@[k]@ == done_v[k],
            words(v@) == done_v + words_from(cur@, v@.skip(i as int)),
        decreases v@.len() - i,
    {
        let c = v[i];
        assert(v@.skip(i as int).drop_first() =~= v@.skip(i + 1));
        assert(v@.skip(i as int)[0] == c);
        if is_whitespace(c) {
            if cur.len() > 0 {
                let piece = cur;
                cur = Vec::new();
                proof {
                    assert(words_from(piece@, v@.skip(i as int)) == seq![piece@] + words_from(Seq::empty(), v@.skip(i + 1)));
                    assert(done_v + (seq![piece@] + words_from(Seq::empty(), v@.skip(i + 1)))
                        =~= done_v.push(piece@) + words_from(Seq::empty(), v@.skip(i + 1)));
                    done_v = done_v.push(piece@);
                }
                done.push(piece);
            } else {
                assert(cur@ =~= Seq::<char>::empty());
                assert(words_from(cur@, v@.skip(i as int)) == Seq::<Seq<char>>::empty() + words_from(Seq::empty(), v@.skip(i + 1)));
                assert(done_v + (Seq::<Seq<char>>::empty() + words_from(Seq::empty(), v@.skip(i + 1)))
                    =~= done_v + words_from(Seq::empty(), v@.skip(i + 1)));
            }
        } else {
            assert(words_from(cur@, v@.skip(i as int)) == words_from(cur@.push(c), v@.skip(i + 1)));
            cur.push(c);
        }
        i = i + 1;
    }
    if cur.len() > 0 {
        proof {
            assert(done_v + seq![cur@] =~= done_v.push(cur@));
            done_v = done_v.push(cur@);
        }
        done.push(cur);
    } else {
        assert(done_v + Seq::<Seq<char>>::empty() =~= done_v);
    }
    done
}

} // verus!
