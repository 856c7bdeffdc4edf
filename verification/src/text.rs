use vstd::prelude::*;

verus! {

/// Names the result of `str::to_uppercase` on a string with these characters.
pub uninterp spec fn str_upper(s: Seq<char>) -> Seq<char>;

/// Names the result of `str::to_lowercase` on a string with these characters.
pub uninterp spec fn str_lower(s: Seq<char>) -> Seq<char>;

/// A character of the Unicode `White_Space` property, the whitespace that
/// `str::trim` removes: U+0009 to U+000D, U+0020, U+0085, U+00A0, U+1680,
/// U+2000 to U+200A, U+2028, U+2029, U+202F, U+205F and U+3000.
pub open spec fn white_space(c: char) -> bool {
    let n = c as u32;
    ||| 0x9 <= n <= 0xD
    ||| n == 0x20
    ||| n == 0x85
    ||| n == 0xA0
    ||| n == 0x1680
    ||| 0x2000 <= n <= 0x200A
    ||| n == 0x2028
    ||| n == 0x2029
    ||| n == 0x202F
    ||| n == 0x205F
    ||| n == 0x3000
}

/// `s` without its leading whitespace.
pub open spec fn trim_start(s: Seq<char>) -> Seq<char>
    decreases s.len(),
{
    if s.len() > 0 && white_space(s[0]) {
        trim_start(s.drop_first())
    } else {
        s
    }
}

/// `s` without its trailing whitespace.
pub open spec fn trim_end(s: Seq<char>) -> Seq<char>
    decreases s.len(),
{
    if s.len() > 0 && white_space(s.last()) {
        trim_end(s.drop_last())
    } else {
        s
    }
}

/// `s` without its leading and trailing whitespace.
pub open spec fn trimmed(s: Seq<char>) -> Seq<char> {
    trim_end(trim_start(s))
}

/// `str::to_uppercase`: the Unicode upper case of `s`. Its result is named
/// `str_upper` and depends on `s` alone; no more is claimed of it.
#[verifier::external_body]
pub(crate) fn upper_text(s: &str) -> (r: String)
    ensures
        r@ == str_upper(s@),
{
    s.to_uppercase()
}

/// `str::to_lowercase`: the Unicode lower case of `s`. Its result is named
/// `str_lower` and depends on `s` alone; no more is claimed of it.
#[verifier::external_body]
pub(crate) fn lower_text(s: &str) -> (r: String)
    ensures
        r@ == str_lower(s@),
{
    s.to_lowercase()
}

fn is_white_space(c: char) -> (r: bool)
    ensures
        r == white_space(c),
{
    let n = c as u32;
    (0x9 <= n && n <= 0xD) || n == 0x20 || n == 0x85 || n == 0xA0 || n == 0x1680 || (0x2000 <= n && n <= 0x200A)
        || n == 0x2028 || n == 0x2029 || n == 0x202F || n == 0x205F || n == 0x3000
}

/// Leading whitespace up to `a` is what `trim_start` removes.
proof fn lemma_trim_start_skip(s: Seq<char>, a: int)
    requires
        0 <= a <= s.len(),
        forall|i: int| 0 <= i < a ==> white_space(#[trigger] s[i]),
        a < s.len() ==> !white_space(s[a]),
    ensures
        trim_start(s) == s.skip(a),
    decreases a,
{
    if a == 0 {
        assert(s.skip(0) =~= s);
    } else {
        assert(white_space(s[0]));
        assert forall|i: int| 0 <= i < a - 1 implies white_space(#[trigger] s.drop_first()[i]) by {
            assert(s.drop_first()[i] == s[i + 1]);
        }
        lemma_trim_start_skip(s.drop_first(), a - 1);
        assert(s.drop_first().skip(a - 1) =~= s.skip(a));
    }
}

/// Trailing whitespace from `e` on is what `trim_end` removes.
proof fn lemma_trim_end_take(t: Seq<char>, e: int)
    requires
        0 <= e <= t.len(),
        forall|i: int| e <= i < t.len() ==> white_space(#[trigger] t[i]),
        e > 0 ==> !white_space(t[e - 1]),
    ensures
        trim_end(t) == t.take(e),
    decreases t.len() - e,
{
    if e == t.len() {
        assert(t.take(e) =~= t);
        if t.len() > 0 {
            assert(t.last() == t[e - 1]);
        }
    } else {
        assert(white_space(t.last()));
        lemma_trim_end_take(t.drop_last(), e);
        assert(t.drop_last().take(e) =~= t.take(e));
    }
}

/// `s` without leading and trailing whitespace, as `str::trim` gives it,
/// whitespace being the Unicode `White_Space` property (see `white_space`).
pub(crate) fn trim_text(s: &str) -> (r: &str)
    ensures
        r@ == trimmed(s@),
{
    let n = s.unicode_len();
    let mut a: usize = 0;
    while a < n && is_white_space(s.get_char(a))
        invariant
            n == s@.len(),
            a <= n,
            forall|i: int| 0 <= i < a ==> white_space(#[trigger] s@[i]),
        decreases n - a,
    {
        a += 1;
    }
    let mut e: usize = n;
    while e > a && is_white_space(s.get_char(e - 1))
        invariant
            n == s@.len(),
            a <= e <= n,
            forall|i: int| e <= i < n ==> white_space(#[trigger] s@[i]),
        decreases e,
    {
        e -= 1;
    }
    proof {
        lemma_trim_start_skip(s@, a as int);
        let t = s@.skip(a as int);
        assert forall|i: int| e - a <= i < t.len() implies white_space(#[trigger] t[i]) by {
            assert(t[i] == s@[i + a]);
        }
        if e > a {
            assert(t[e - a - 1] == s@[e - 1]);
        }
        lemma_trim_end_take(t, e - a);
        assert(t.take(e - a) =~= s@.subrange(a as int, e as int));
    }
    s.substring_char(a, e)
}

/// `String: FromIterator<char>`: the string made of the characters `cs`, in order.
#[verifier::external_body]
pub(crate) fn text_from_chars(cs: &Vec<char>) -> (r: String)
    ensures
        r@ == cs@,
{
    cs.iter().collect()
}

/// How many times `c` occurs in `s`.
pub open spec fn count_char(s: Seq<char>, c: char) -> int
    decreases s.len(),
{
    if s.len() == 0 {
        0
    } else {
        count_char(s.drop_last(), c) + if s.last() == c { 1int } else { 0int }
    }
}

/// The position of the first `c` in `s`, or the length of `s` when there is none.
pub open spec fn first_index_of(s: Seq<char>, c: char) -> int
    decreases s.len(),
{
    if s.len() == 0 {
        0
    } else if s[0] == c {
        0
    } else {
        1 + first_index_of(s.drop_first(), c)
    }
}

proof fn lemma_count_char_take(s: Seq<char>, c: char, i: int)
    requires
        0 <= i < s.len(),
    ensures
        count_char(s.take(i + 1), c) == count_char(s.take(i), c) + if s[i] == c { 1int } else { 0int },
{
    assert(s.take(i + 1).drop_last() =~= s.take(i));
}

proof fn lemma_first_index(s: Seq<char>, c: char)
    ensures
        0 <= first_index_of(s, c) <= s.len(),
        forall|k: int| 0 <= k < first_index_of(s, c) ==> s[k] != c,
        first_index_of(s, c) < s.len() ==> s[first_index_of(s, c)] == c,
        s.contains(c) <==> first_index_of(s, c) < s.len(),
    decreases s.len(),
{
    if s.len() > 0 && s[0] != c {
        lemma_first_index(s.drop_first(), c);
        assert forall|k: int| 0 <= k < first_index_of(s, c) implies s[k] != c by {
            if k > 0 {
                assert(s[k] == s.drop_first()[k - 1]);
            }
        }
        if s.contains(c) {
            let j = choose|j: int| 0 <= j < s.len() && s[j] == c;
            assert(s.drop_first()[j - 1] == c);
        }
        if first_index_of(s, c) < s.len() {
            assert(s[first_index_of(s, c)] == s.drop_first()[first_index_of(s, c) - 1]);
        }
    }
}

/// Appending whitespace leaves the trimmed text as it was.
pub(crate) proof fn lemma_trimmed_push_ws(s: Seq<char>, w: char)
    requires
        white_space(w),
    ensures
        trimmed(s.push(w)) == trimmed(s),
{
    lemma_trim_start_push(s, w);
    let t = trim_start(s);
    if t.len() > 0 {
        assert(t.push(w).drop_last() =~= t);
    } else {
        assert(t =~= Seq::<char>::empty());
    }
}

proof fn lemma_trim_start_push(s: Seq<char>, w: char)
    requires
        white_space(w),
    ensures
        trim_start(s.push(w)) == if trim_start(s).len() == 0 {
            Seq::<char>::empty()
        } else {
            trim_start(s).push(w)
        },
    decreases s.len(),
{
    if s.len() == 0 {
        reveal_with_fuel(trim_start, 2);
        assert(s.push(w).drop_first() =~= Seq::<char>::empty());
        assert(s.push(w)[0] == w);
    } else if white_space(s[0]) {
        assert(s.push(w)[0] == s[0]);
        assert(s.push(w).drop_first() =~= s.drop_first().push(w));
        lemma_trim_start_push(s.drop_first(), w);
    } else {
        assert(s.push(w)[0] == s[0]);
    }
}

/// Putting whitespace in front leaves the trimmed text as it was.
pub(crate) proof fn lemma_trimmed_prepend_ws(s: Seq<char>, w: char)
    requires
        white_space(w),
    ensures
        trimmed(seq![w] + s) == trimmed(s),
{
    assert((seq![w] + s).drop_first() =~= s);
}

/// Counting in a concatenation adds the counts.
pub(crate) proof fn lemma_count_char_concat(a: Seq<char>, b: Seq<char>, c: char)
    ensures
        count_char(a + b, c) == count_char(a, c) + count_char(b, c),
    decreases b.len(),
{
    if b.len() == 0 {
        assert(a + b =~= a);
    } else {
        lemma_count_char_concat(a, b.drop_last(), c);
        assert((a + b).drop_last() =~= a + b.drop_last());
    }
}

/// A character that does not occur is counted zero times.
pub(crate) proof fn lemma_count_char_absent(s: Seq<char>, c: char)
    requires
        !s.contains(c),
    ensures
        count_char(s, c) == 0,
    decreases s.len(),
{
    if s.len() > 0 {
        assert(!s.drop_last().contains(c)) by {
            if s.drop_last().contains(c) {
                let j = choose|j: int| 0 <= j < s.drop_last().len() && s.drop_last()[j] == c;
                assert(s[j] == c);
            }
        }
        lemma_count_char_absent(s.drop_last(), c);
        assert(s[s.len() - 1] == s.last());
    }
}

/// Before its first occurrence in a concatenation, `c` is looked for past
/// the part that does not hold it.
pub(crate) proof fn lemma_first_index_concat(a: Seq<char>, b: Seq<char>, c: char)
    requires
        !a.contains(c),
    ensures
        first_index_of(a + b, c) == a.len() + first_index_of(b, c),
    decreases a.len(),
{
    if a.len() == 0 {
        assert(a + b =~= b);
    } else {
        assert(a[0] != c);
        assert((a + b)[0] == a[0]);
        assert((a + b).drop_first() =~= a.drop_first() + b);
        assert(!a.drop_first().contains(c)) by {
            if a.drop_first().contains(c) {
                let j = choose|j: int| 0 <= j < a.drop_first().len() && a.drop_first()[j] == c;
                assert(a[j + 1] == c);
            }
        }
        lemma_first_index_concat(a.drop_first(), b, c);
    }
}

/// A character in neither part is not in their concatenation.
pub(crate) proof fn lemma_concat_absent(a: Seq<char>, b: Seq<char>, c: char)
    requires
        !a.contains(c),
        !b.contains(c),
    ensures
        !(a + b).contains(c),
{
    if (a + b).contains(c) {
        let j = choose|j: int| 0 <= j < (a + b).len() && (a + b)[j] == c;
        if j < a.len() {
            assert(a[j] == c);
        } else {
            assert(b[j - a.len()] == c);
        }
    }
}

/// Scans `s` once: the number of times `c` occurs and the position of its first occurrence.
pub fn find_char(s: &str, c: char) -> (r: (usize, usize))
    ensures
        r.0 as int == count_char(s@, c),
        r.1 as int == first_index_of(s@, c),
        s@.contains(c) <==> r.1 < s@.len(),
{
    proof {
        lemma_first_index(s@, c);
    }
    let n = s.unicode_len();
    let mut count: usize = 0;
    let mut first: usize = n;
    let mut i: usize = 0;
    while i < n
        invariant
            n == s@.len(),
            i <= n,
            count <= i,
            count as int == count_char(s@.take(i as int), c),
            first == if first_index_of(s@, c) < i { first_index_of(s@, c) } else { n as int },
            0 <= first_index_of(s@, c) <= s@.len(),
            forall|k: int| 0 <= k < first_index_of(s@, c) ==> s@[k] != c,
            first_index_of(s@, c) < s@.len() ==> s@[first_index_of(s@, c)] == c,
        decreases n - i,
    {
        proof {
            lemma_count_char_take(s@, c, i as int);
        }
        if s.get_char(i) == c {
            count += 1;
            if first == n {
                first = i;
            }
        }
        i += 1;
    }
    assert(s@.take(n as int) =~= s@);
    (count, first)
}

/// The lower case of an ASCII letter; any other character is left alone.
pub open spec fn ascii_lower(c: char) -> char {
    if 'A' <= c <= 'Z' {
        ((c as u32) + 32) as char
    } else {
        c
    }
}

/// `char::to_ascii_lowercase`.
pub fn to_ascii_lower(c: char) -> (r: char)
    ensures
        r == ascii_lower(c),
{
    if 'A' <= c && c <= 'Z' {
        ((c as u8) + 32) as char
    } else {
        c
    }
}

} // verus!
