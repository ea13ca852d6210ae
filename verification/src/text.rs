//! Character-level operations on text, stated over `Seq<char>`.

use vstd::prelude::*;
use vstd::std_specs::iter::IteratorSpec;

verus! {

/// Whether `c` is white space: one of the code points that carry the Unicode
/// `White_Space` property.
pub open spec fn is_whitespace(c: char) -> bool {
    let n = c as u32;
    ||| 0x09 <= n <= 0x0D
    ||| n == 0x20
    ||| n == 0x85
    ||| n == 0xA0
    ||| n == 0x1680
    ||| 0x2000 <= n <= 0x200A
    ||| n == 0x2028
    ||| n == 0x2029
    ||| n == 0x202F
    ||| n == 0x205F
    ||| n == 0x3000
}

/// `s` without its leading white space.
pub open spec fn trim_start(s: Seq<char>) -> Seq<char>
    decreases s.len(),
{
    if s.len() > 0 && is_whitespace(s.first()) {
        trim_start(s.drop_first())
    } else {
        s
    }
}

/// `s` without its trailing white space.
pub open spec fn trim_end(s: Seq<char>) -> Seq<char>
    decreases s.len(),
{
    if s.len() > 0 && is_whitespace(s.last()) {
        trim_end(s.drop_last())
    } else {
        s
    }
}

/// `s` without the white space that surrounds it.
pub open spec fn trimmed(s: Seq<char>) -> Seq<char> {
    trim_end(trim_start(s))
}

/// `s` without one leading occurrence of `prefix`; `s` itself where it does
/// not start with `prefix`.
pub open spec fn without_prefix(s: Seq<char>, prefix: Seq<char>) -> Seq<char> {
    if prefix.is_prefix_of(s) {
        s.skip(prefix.len() as int)
    } else {
        s
    }
}

/// Skipping `k` white space characters at the front changes nothing about
/// what `trim_start` leaves.
pub proof fn lemma_trim_start_skips(s: Seq<char>, k: int)
    requires
        0 <= k <= s.len(),
        forall|i: int| 0 <= i < k ==> is_whitespace(#[trigger] s[i]),
    ensures
        trim_start(s) == trim_start(s.skip(k)),
    decreases k,
{
    if k == 0 {
        assert(s.skip(0) =~= s);
    } else {
        assert(is_whitespace(s[0]));
        let rest = s.drop_first();
        assert forall|i: int| 0 <= i < k - 1 implies is_whitespace(#[trigger] rest[i]) by {
            assert(rest[i] == s[i + 1]);
        }
        lemma_trim_start_skips(rest, k - 1);
        assert(rest.skip(k - 1) =~= s.skip(k));
    }
}

/// Dropping white space characters at the back, down to length `k`, changes
/// nothing about what `trim_end` leaves.
pub proof fn lemma_trim_end_takes(s: Seq<char>, k: int)
    requires
        0 <= k <= s.len(),
        forall|i: int| k <= i < s.len() ==> is_whitespace(#[trigger] s[i]),
    ensures
        trim_end(s) == trim_end(s.take(k)),
    decreases s.len() - k,
{
    if k == s.len() {
        assert(s.take(k) =~= s);
    } else {
        assert(is_whitespace(s[s.len() - 1]));
        let rest = s.drop_last();
        assert forall|i: int| k <= i < rest.len() implies is_whitespace(#[trigger] rest[i]) by {
            assert(rest[i] == s[i]);
        }
        lemma_trim_end_takes(rest, k);
        assert(rest.take(k) =~= s.take(k));
    }
}

/// What trimming leaves is one stretch of the text: everything before it and
/// everything after it is white space, and unless it is empty it begins and
/// ends with a character that is not.
pub proof fn lemma_trimmed_is_the_core(s: Seq<char>) -> (bounds: (int, int))
    ensures
        0 <= bounds.0 <= bounds.1 <= s.len(),
        trimmed(s) == s.subrange(bounds.0, bounds.1),
        forall|i: int| 0 <= i < bounds.0 ==> is_whitespace(#[trigger] s[i]),
        forall|i: int| bounds.1 <= i < s.len() ==> is_whitespace(#[trigger] s[i]),
        bounds.0 < bounds.1 ==> !is_whitespace(s[bounds.0]) && !is_whitespace(s[bounds.1 - 1]),
    decreases s.len(),
{
    if s.len() > 0 && is_whitespace(s.first()) {
        let rest = s.drop_first();
        let inner = lemma_trimmed_is_the_core(rest);
        assert(rest.subrange(inner.0, inner.1) =~= s.subrange(inner.0 + 1, inner.1 + 1));
        assert forall|i: int| 0 <= i < inner.0 + 1 implies is_whitespace(#[trigger] s[i]) by {
            if i > 0 {
                assert(s[i] == rest[i - 1]);
            }
        }
        assert forall|i: int| inner.1 + 1 <= i < s.len() implies is_whitespace(
            #[trigger] s[i],
        ) by {
            assert(s[i] == rest[i - 1]);
        }
        (inner.0 + 1, inner.1 + 1)
    } else if s.len() > 0 && is_whitespace(s.last()) {
        let rest = s.drop_last();
        assert(trim_start(rest) == rest);
        let inner = lemma_trimmed_is_the_core(rest);
        assert(rest.subrange(inner.0, inner.1) =~= s.subrange(inner.0, inner.1));
        assert(inner.0 == 0) by {
            if inner.0 > 0 {
                assert(is_whitespace(rest[0]));
            }
        }
        assert forall|i: int| inner.1 <= i < s.len() implies is_whitespace(#[trigger] s[i]) by {
            if i < rest.len() {
                assert(s[i] == rest[i]);
            }
        }
        inner
    } else {
        assert(s.subrange(0, s.len() as int) =~= s);
        (0, s.len() as int)
    }
}

/// Whether `c` is white space.
pub fn is_whitespace_char(c: char) -> (b: bool)
    ensures
        b == is_whitespace(c),
{
    let n: u32 = c as u32;
    (0x09 <= n && n <= 0x0D) || n == 0x20 || n == 0x85 || n == 0xA0 || n == 0x1680 || (0x2000 <= n
        && n <= 0x200A) || n == 0x2028 || n == 0x2029 || n == 0x202F || n == 0x205F || n == 0x3000
}

/// The characters of `s`, in order.
pub fn chars_of(s: &str) -> (v: Vec<char>)
    ensures
        v@ == s@,
{
    let mut v: Vec<char> = Vec::new();
    for c in it: s.chars()
        invariant
            v@ == it.seq().take(it.index() as int),
            it.seq() == s@,
    {
        v.push(c);
    }
    v
}

/// Removes the white space around `s`.
pub fn trim(s: &str) -> (t: String)
    ensures
        t@ == trimmed(s@),
{
    let chars = chars_of(s);
    let n: usize = chars.len();
    let mut start: usize = 0;
    while start < n && is_whitespace_char(chars[start])
        invariant
            start <= n,
            n == chars@.len(),
            forall|i: int| 0 <= i < start ==> is_whitespace(#[trigger] chars@[i]),
        decreases n - start,
    {
        start += 1;
    }
    let mut end: usize = n;
    while end > start && is_whitespace_char(chars[end - 1])
        invariant
            start <= end <= n,
            n == chars@.len(),
            forall|i: int| end <= i < n ==> is_whitespace(#[trigger] chars@[i]),
        decreases end,
    {
        end -= 1;
    }
    proof {
        let front = s@.skip(start as int);
        lemma_trim_start_skips(s@, start as int);
        assert(trim_start(front) == front) by {
            if front.len() > 0 {
                assert(front.first() == chars@[start as int]);
            }
        }
        let kept = end - start;
        assert forall|i: int| kept <= i < front.len() implies is_whitespace(#[trigger] front[i]) by {
            assert(front[i] == chars@[start + i]);
        }
        lemma_trim_end_takes(front, kept);
        let core = front.take(kept);
        assert(trim_end(core) == core) by {
            if core.len() > 0 {
                assert(core.last() == chars@[end - 1]);
            }
        }
        assert(core =~= s@.subrange(start as int, end as int));
    }
    s.substring_char(start, end).to_owned()
}

/// Removes one leading occurrence of `prefix` from `s`, if there is one.
pub fn strip_prefix(s: &str, prefix: &str) -> (t: String)
    ensures
        t@ == without_prefix(s@, prefix@),
{
    let chars = chars_of(s);
    let lead = chars_of(prefix);
    if starts_with_chars(&chars, &lead) {
        s.substring_char(lead.len(), chars.len()).to_owned()
    } else {
        s.to_owned()
    }
}

/// Whether `chars` begins with `lead`.
pub fn starts_with_chars(chars: &Vec<char>, lead: &Vec<char>) -> (b: bool)
    ensures
        b == lead@.is_prefix_of(chars@),
{
    if lead.len() > chars.len() {
        return false;
    }
    let mut i: usize = 0;
    while i < lead.len()
        invariant
            i <= lead.len() <= chars.len(),
            forall|k: int| 0 <= k < i ==> lead@[k] == chars@[k],
        decreases lead.len() - i,
    {
        if lead[i] != chars[i] {
            assert(chars@.subrange(0, lead@.len() as int)[i as int] == chars@[i as int]);
            return false;
        }
        i += 1;
    }
    assert(lead@ =~= chars@.subrange(0, lead@.len() as int));
    true
}

/// Whether `chars` ends with `tail`.
pub fn ends_with_chars(chars: &Vec<char>, tail: &Vec<char>) -> (b: bool)
    ensures
        b == tail@.is_suffix_of(chars@),
{
    if tail.len() > chars.len() {
        return false;
    }
    let shift: usize = chars.len() - tail.len();
    let mut i: usize = 0;
    while i < tail.len()
        invariant
            i <= tail.len(),
            shift + tail.len() == chars.len(),
            forall|k: int| 0 <= k < i ==> tail@[k] == chars@[shift + k],
        decreases tail.len() - i,
    {
        if tail[i] != chars[shift + i] {
            assert(chars@.subrange(shift as int, chars@.len() as int)[i as int] == chars@[shift
                + i]);
            return false;
        }
        i += 1;
    }
    assert(tail@ =~= chars@.subrange(shift as int, chars@.len() as int));
    true
}

} // verus!
