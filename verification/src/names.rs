use vstd::prelude::*;

verus! {

// Character-level model of the identifier forms the registry compares:
// `normalized` keeps only ASCII alphanumerics, lowercased, and `kebab_of`
// turns CamelCase / snake_case declared names into hyphenated command names.

pub open spec fn is_ascii_digit_char(c: char) -> bool {
    '0' <= c && c <= '9'
}

pub open spec fn is_ascii_lower_char(c: char) -> bool {
    'a' <= c && c <= 'z'
}

pub open spec fn is_ascii_upper_char(c: char) -> bool {
    'A' <= c && c <= 'Z'
}

pub open spec fn is_ascii_alnum_char(c: char) -> bool {
    is_ascii_digit_char(c) || is_ascii_lower_char(c) || is_ascii_upper_char(c)
}

pub open spec fn to_lower_char(c: char) -> char {
    if is_ascii_upper_char(c) {
        (((c as u8) + 32) as char)
    } else {
        c
    }
}

/// What one character contributes to the normalized form of a name.
pub open spec fn norm_char(c: char) -> Seq<char> {
    if is_ascii_alnum_char(c) {
        seq![to_lower_char(c)]
    } else {
        Seq::empty()
    }
}

/// The normalized form of a name: ASCII alphanumerics only, lowercased.
pub open spec fn normalized(s: Seq<char>) -> Seq<char>
    decreases s.len(),
{
    if s.len() == 0 {
        Seq::empty()
    } else {
        normalized(s.drop_last()) + norm_char(s.last())
    }
}

/// What one character contributes to the hyphenated form of a name.
/// `at_start` is true for the first character, which never gains a hyphen.
pub open spec fn kebab_char(c: char, at_start: bool) -> Seq<char> {
    if is_ascii_upper_char(c) {
        if at_start {
            seq![to_lower_char(c)]
        } else {
            seq!['-', to_lower_char(c)]
        }
    } else if c == '_' {
        seq!['-']
    } else {
        seq![c]
    }
}

/// The hyphenated command form of a declared name: an uppercase letter
/// becomes a hyphen (except at the start) plus its lowercase form, an
/// underscore becomes a hyphen, and every other character is kept.
pub open spec fn kebab_of(s: Seq<char>) -> Seq<char>
    decreases s.len(),
{
    if s.len() == 0 {
        Seq::empty()
    } else {
        kebab_of(s.drop_last()) + kebab_char(s.last(), s.len() == 1)
    }
}

pub proof fn lemma_normalized_push(s: Seq<char>, c: char)
    ensures
        normalized(s.push(c)) == normalized(s) + norm_char(c),
{
    assert(s.push(c).drop_last() =~= s);
    assert(s.push(c).last() == c);
}

pub proof fn lemma_kebab_push(s: Seq<char>, c: char)
    ensures
        kebab_of(s.push(c)) == kebab_of(s) + kebab_char(c, s.len() == 0),
{
    assert(s.push(c).drop_last() =~= s);
    assert(s.push(c).last() == c);
}

/// Normalization distributes over concatenation.
pub proof fn lemma_normalized_add(a: Seq<char>, b: Seq<char>)
    ensures
        normalized(a + b) == normalized(a) + normalized(b),
    decreases b.len(),
{
    if b.len() == 0 {
        assert(a + b =~= a);
        assert(normalized(a) + normalized(b) =~= normalized(a));
    } else {
        lemma_normalized_add(a, b.drop_last());
        assert((a + b).drop_last() =~= a + b.drop_last());
        assert((a + b).last() == b.last());
        assert(normalized(b) == normalized(b.drop_last()) + norm_char(b.last()));
        assert(normalized(a) + (normalized(b.drop_last()) + norm_char(b.last())) =~= (normalized(
            a,
        ) + normalized(b.drop_last())) + norm_char(b.last()));
    }
}

pub proof fn lemma_normalized_single(c: char)
    ensures
        normalized(seq![c]) == norm_char(c),
{
    let s = seq![c];
    assert(s.last() == c);
    assert(s.drop_last() =~= Seq::<char>::empty());
    assert(normalized(Seq::<char>::empty()) == Seq::<char>::empty());
    assert(normalized(s) == normalized(s.drop_last()) + norm_char(c));
    assert(Seq::<char>::empty() + norm_char(c) =~= norm_char(c));
}

/// Hyphenating a name does not change its normalized form: the hyphens that
/// `kebab_of` inserts are stripped again by `normalized`, and lowercasing is
/// idempotent. This is why a declared name and its hyphenated command form
/// always resolve to the same service or method.
pub proof fn lemma_normalized_kebab(s: Seq<char>)
    ensures
        normalized(kebab_of(s)) == normalized(s),
    decreases s.len(),
{
    if s.len() == 0 {
    } else {
        let c = s.last();
        lemma_normalized_kebab(s.drop_last());
        lemma_normalized_add(kebab_of(s.drop_last()), kebab_char(c, s.len() == 1));
        assert(normalized(kebab_char(c, s.len() == 1)) == norm_char(c)) by {
            let k = kebab_char(c, s.len() == 1);
            if is_ascii_upper_char(c) {
                lemma_normalized_single(to_lower_char(c));
                assert(norm_char(to_lower_char(c)) =~= norm_char(c));
                if s.len() == 1 {
                    assert(k == seq![to_lower_char(c)]);
                } else {
                    assert(k =~= seq!['-'] + seq![to_lower_char(c)]);
                    lemma_normalized_add(seq!['-'], seq![to_lower_char(c)]);
                    lemma_normalized_single('-');
                    assert(norm_char('-') =~= Seq::<char>::empty());
                    assert(Seq::<char>::empty() + norm_char(c) =~= norm_char(c));
                }
            } else if c == '_' {
                lemma_normalized_single('-');
                assert(k == seq!['-']);
                assert(norm_char('-') =~= norm_char(c));
            } else {
                lemma_normalized_single(c);
                assert(k == seq![c]);
            }
        }
        assert(normalized(s) == normalized(s.drop_last()) + norm_char(c));
    }
}

/// Relies on `String`'s `FromIterator<char>` impl: collecting characters
/// yields a string holding exactly those characters in order.
#[verifier::external_body]
pub(crate) fn chars_to_string(chars: &Vec<char>) -> (r: String)
    ensures
        r@ == chars@,
{
    chars.iter().collect()
}

/// Reduces a name to its normalized form: every character that is not an
/// ASCII letter or digit is dropped, and letters are lowercased.
pub fn normalize(value: &str) -> (r: String)
    ensures
        r@ == normalized(value@),
{
    let n: usize = value.unicode_len();
    let mut out: Vec<char> = Vec::new();
    let mut i: usize = 0;
    while i < n
        invariant
            n == value@.len(),
            i <= n,
            out@ == normalized(value@.take(i as int)),
        decreases n - i,
    {
        let c = value.get_char(i);
        proof {
            assert(value@.take(i + 1).drop_last() =~= value@.take(i as int));
            lemma_normalized_push(value@.take(i as int), c);
            assert(value@.take(i + 1) =~= value@.take(i as int).push(c));
        }
        if ('0' <= c && c <= '9') || ('a' <= c && c <= 'z') {
            out.push(c);
        } else if 'A' <= c && c <= 'Z' {
            out.push(((c as u8) + 32) as char);
        }
        i += 1;
    }
    proof {
        assert(value@.take(n as int) =~= value@);
    }
    chars_to_string(&out)
}

/// Two names match when their normalized forms are equal: matching is
/// case-insensitive and ignores every non-alphanumeric character.
pub fn names_match(candidate: &str, input: &str) -> (r: bool)
    ensures
        r == (normalized(candidate@) == normalized(input@)),
{
    let a = normalize(candidate);
    let b = normalize(input);
    a == b
}

/// Converts a declared CamelCase or snake_case name to its hyphenated
/// command form.
pub fn to_kebab(value: &str) -> (r: String)
    ensures
        r@ == kebab_of(value@),
{
    let n: usize = value.unicode_len();
    let mut out: Vec<char> = Vec::new();
    let mut i: usize = 0;
    while i < n
        invariant
            n == value@.len(),
            i <= n,
            out@ == kebab_of(value@.take(i as int)),
        decreases n - i,
    {
        let c = value.get_char(i);
        proof {
            lemma_kebab_push(value@.take(i as int), c);
            assert(value@.take(i + 1) =~= value@.take(i as int).push(c));
        }
        if 'A' <= c && c <= 'Z' {
            if i > 0 {
                out.push('-');
            }
            out.push(((c as u8) + 32) as char);
        } else if c == '_' {
            out.push('-');
        } else {
            out.push(c);
        }
        i += 1;
    }
    proof {
        assert(value@.take(n as int) =~= value@);
    }
    chars_to_string(&out)
}


/// ASCII whitespace, as trimming recognizes it.
pub open spec fn is_ws_char(c: char) -> bool {
    c == ' ' || c == '\t' || c == '\n' || c == '\r'
}

/// The index of the first non-whitespace character, or the length.
pub open spec fn ws_prefix_len(s: Seq<char>) -> int
    decreases s.len(),
{
    if s.len() == 0 {
        0
    } else if is_ws_char(s[0]) {
        1 + ws_prefix_len(s.drop_first())
    } else {
        0
    }
}

/// `s` with leading and trailing ASCII whitespace removed.
pub open spec fn trimmed(s: Seq<char>) -> Seq<char>
    decreases s.len(),
{
    if s.len() == 0 {
        Seq::empty()
    } else if is_ws_char(s[0]) {
        trimmed(s.drop_first())
    } else if is_ws_char(s.last()) {
        trimmed(s.drop_last())
    } else {
        s
    }
}

fn ws_char(c: char) -> (r: bool)
    ensures
        r == is_ws_char(c),
{
    c == ' ' || c == '\t' || c == '\n' || c == '\r'
}

/// Removes leading and trailing ASCII whitespace.
pub fn trim_ascii(value: &str) -> (r: String)
    ensures
        r@ == trimmed(value@),
{
    let n: usize = value.unicode_len();
    let mut lo: usize = 0;
    proof {
        assert(value@.skip(0) =~= value@);
    }
    while lo < n && ws_char(value.get_char(lo))
        invariant
            n == value@.len(),
            lo <= n,
            trimmed(value@) == trimmed(value@.skip(lo as int)),
        decreases n - lo,
    {
        proof {
            assert(value@.skip(lo as int)[0] == value@[lo as int]);
            assert(value@.skip(lo as int).drop_first() =~= value@.skip(lo + 1));
        }
        lo += 1;
    }
    let mut hi: usize = n;
    proof {
        assert(value@.skip(lo as int).take(n - lo) =~= value@.skip(lo as int));
    }
    while hi > lo && ws_char(value.get_char(hi - 1))
        invariant
            n == value@.len(),
            lo <= hi <= n,
            trimmed(value@) == trimmed(value@.skip(lo as int).take(hi - lo)),
            lo < n ==> !is_ws_char(value@[lo as int]),
        decreases hi,
    {
        proof {
            let t = value@.skip(lo as int).take(hi - lo);
            assert(t.len() > 0);
            assert(t.last() == value@[hi - 1]);
            assert(t[0] == value@[lo as int]);
            assert(t.drop_last() =~= value@.skip(lo as int).take(hi - 1 - lo));
        }
        hi -= 1;
    }
    let mut out: Vec<char> = Vec::new();
    let mut i: usize = lo;
    while i < hi
        invariant
            n == value@.len(),
            lo <= i <= hi <= n,
            out@ == value@.subrange(lo as int, i as int),
        decreases hi - i,
    {
        out.push(value.get_char(i));
        proof {
            assert(value@.subrange(lo as int, i + 1) =~= value@.subrange(lo as int, i as int).push(
                value@[i as int],
            ));
        }
        i += 1;
    }
    proof {
        let t = value@.skip(lo as int).take(hi - lo);
        assert(out@ =~= t);
        if hi - lo > 0 {
            assert(t[0] == value@[lo as int]);
            assert(t.last() == value@[hi - 1]);
            assert(!is_ws_char(t[0]));
            assert(!is_ws_char(t.last()));
            assert(trimmed(t) == t);
        } else {
            assert(t.len() == 0);
            assert(trimmed(t) == Seq::<char>::empty());
        }
    }
    chars_to_string(&out)
}

/// Lowercases the ASCII letters of a string, leaving all else unchanged.
pub fn ascii_lower(value: &str) -> (r: String)
    ensures
        r@ == value@.map_values(|c: char| to_lower_char(c)),
{
    let n: usize = value.unicode_len();
    let mut out: Vec<char> = Vec::new();
    let mut i: usize = 0;
    while i < n
        invariant
            n == value@.len(),
            i <= n,
            out@ == value@.take(i as int).map_values(|c: char| to_lower_char(c)),
        decreases n - i,
    {
        let c = value.get_char(i);
        if 'A' <= c && c <= 'Z' {
            out.push(((c as u8) + 32) as char);
        } else {
            out.push(c);
        }
        proof {
            assert(out@ =~= value@.take(i + 1).map_values(|c: char| to_lower_char(c)));
        }
        i += 1;
    }
    proof {
        assert(value@.take(n as int) =~= value@);
    }
    chars_to_string(&out)
}

} // verus!
