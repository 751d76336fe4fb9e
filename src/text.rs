use vstd::prelude::*;
use vstd::string::StrSliceExecFns;

verus! {

/// Relies on `String::push`: appends one character.
#[verifier::external_body]
pub(crate) fn push_char(s: &mut String, c: char)
    ensures
        final(s)@ == old(s)@.push(c),
{
    s.push(c)
}

/// The character of digit `d` (below 16), upper-case for 10 to 15.
pub open spec fn digit_char(d: nat) -> char {
    if d < 10 {
        ((48 + d) as u8) as char
    } else {
        ((55 + d) as u8) as char
    }
}

/// Decimal notation of `n`, without leading zeros.
pub open spec fn decimal(n: nat) -> Seq<char>
    decreases n,
{
    if n < 10 {
        seq![digit_char(n)]
    } else {
        decimal(n / 10).push(digit_char(n % 10))
    }
}

/// Four upper-case hexadecimal digits of `v`.
pub open spec fn hex4(v: u16) -> Seq<char> {
    seq![
        digit_char(((v / 4096) % 16) as nat),
        digit_char(((v / 256) % 16) as nat),
        digit_char(((v / 16) % 16) as nat),
        digit_char((v % 16) as nat),
    ]
}

/// `needle` occurs in `hay` at position `i`.
pub open spec fn occurs_at(hay: Seq<char>, needle: Seq<char>, i: int) -> bool {
    0 <= i && i + needle.len() <= hay.len() && hay.subrange(i, i + needle.len()) == needle
}

/// `needle` occurs somewhere in `hay`.
pub open spec fn occurs_in(hay: Seq<char>, needle: Seq<char>) -> bool {
    exists|i: int| occurs_at(hay, needle, i)
}

fn digit(d: u64) -> (c: char)
    requires
        d < 16,
    ensures
        c == digit_char(d as nat),
{
    if d < 10 {
        ((48 + d) as u8) as char
    } else {
        ((55 + d) as u8) as char
    }
}

/// Appends the decimal notation of `n`.
pub fn push_decimal(s: &mut String, n: u64)
    ensures
        final(s)@ == old(s)@ + decimal(n as nat),
    decreases n,
{
    if n >= 10 {
        push_decimal(s, n / 10);
        push_char(s, digit(n % 10));
        proof {
            assert(decimal(n as nat) == decimal((n / 10) as nat).push(digit_char((n % 10) as nat)));
        }
        assert(s@ =~= old(s)@ + decimal(n as nat));
    } else {
        push_char(s, digit(n));
        assert(s@ =~= old(s)@ + decimal(n as nat));
    }
}

/// Appends four upper-case hexadecimal digits of `v`.
pub fn push_hex4(s: &mut String, v: u16)
    ensures
        final(s)@ == old(s)@ + hex4(v),
{
    let w = v as u64;
    push_char(s, digit((w / 4096) % 16));
    push_char(s, digit((w / 256) % 16));
    push_char(s, digit((w / 16) % 16));
    push_char(s, digit(w % 16));
    assert(s@ =~= old(s)@ + hex4(v));
}

/// Whether `needle` occurs at position `i` of `hay`.
pub fn occurs_at_exec(hay: &str, needle: &str, i: usize, hay_len: usize, needle_len: usize) -> (r:
    bool)
    requires
        hay_len == hay@.len(),
        needle_len == needle@.len(),
    ensures
        r == occurs_at(hay@, needle@, i as int),
{
    if i > hay_len || needle_len > hay_len - i {
        return false;
    }
    let mut j: usize = 0;
    while j < needle_len
        invariant
            i + needle_len <= hay_len,
            hay_len == hay@.len(),
            needle_len == needle@.len(),
            j <= needle_len,
            forall|m: int| 0 <= m < j ==> #[trigger] hay@[i + m] == needle@[m],
        decreases needle_len - j,
    {
        if hay.get_char(i + j) != needle.get_char(j) {
            assert(hay@.subrange(i as int, i + needle@.len())[j as int] != needle@[j as int]);
            return false;
        }
        j = j + 1;
    }
    assert forall|m: int| 0 <= m < needle@.len() implies hay@.subrange(
        i as int,
        i + needle@.len(),
    )[m] == needle@[m] by {
        assert(hay@[i + m] == needle@[m]);
    }
    assert(hay@.subrange(i as int, i + needle@.len()) =~= needle@);
    true
}

/// Whether `needle` occurs in `hay`.
pub fn contains_str(hay: &str, needle: &str) -> (r: bool)
    ensures
        r == occurs_in(hay@, needle@),
{
    let hay_len = hay.unicode_len();
    let needle_len = needle.unicode_len();
    if needle_len > hay_len {
        assert forall|i: int| !occurs_at(hay@, needle@, i) by {}
        return false;
    }
    let last = hay_len - needle_len;
    let mut i: usize = 0;
    loop
        invariant
            hay_len == hay@.len(),
            needle_len == needle@.len(),
            last == hay_len - needle_len,
            i <= last,
            forall|m: int| 0 <= m < i ==> !#[trigger] occurs_at(hay@, needle@, m),
        ensures
            forall|m: int| 0 <= m <= last ==> !#[trigger] occurs_at(hay@, needle@, m),
        decreases last - i,
    {
        if occurs_at_exec(hay, needle, i, hay_len, needle_len) {
            return true;
        }
        if i == last {
            break;
        }
        i = i + 1;
    }
    assert forall|m: int| !#[trigger] occurs_at(hay@, needle@, m) by {
        if 0 <= m <= last {
        }
    }
    false
}

} // verus!
