//! Whether guest memory is backed by 2M huge pages.

use crate::text::{all_digits, decimal, digits_value, is_digit, lemma_digits_value_prefix, message, push_decimal};
use vstd::prelude::*;
use vstd::string::{StrSliceExecFns, StringExecFns};

verus! {

/// `c` has the Unicode property `White_Space`.
pub open spec fn is_whitespace(c: char) -> bool {
    let v = c as int;
    ||| 0x9 <= v <= 0xd
    ||| v == 0x20
    ||| v == 0x85
    ||| v == 0xa0
    ||| v == 0x1680
    ||| 0x2000 <= v <= 0x200a
    ||| v == 0x2028
    ||| v == 0x2029
    ||| v == 0x202f
    ||| v == 0x205f
    ||| v == 0x3000
}

/// `s` without the whitespace at its front.
pub open spec fn trim_front(s: Seq<char>) -> Seq<char>
    decreases s.len(),
{
    if s.len() > 0 && is_whitespace(s[0]) {
        trim_front(s.skip(1))
    } else {
        s
    }
}

/// `s` without the whitespace at its back.
pub open spec fn trim_back(s: Seq<char>) -> Seq<char>
    decreases s.len(),
{
    if s.len() > 0 && is_whitespace(s.last()) {
        trim_back(s.drop_last())
    } else {
        s
    }
}

/// The number that `s` writes: decimal digits, after an optional plus sign, that fit in `usize`.
pub open spec fn number(s: Seq<char>) -> Option<usize> {
    let digits = if s.len() > 0 && s[0] == '+' {
        s.skip(1)
    } else {
        s
    };
    if digits.len() > 0 && all_digits(digits) && digits_value(digits) <= usize::MAX {
        Some(digits_value(digits) as usize)
    } else {
        None
    }
}

fn whitespace(c: char) -> (res: bool)
    ensures
        res == is_whitespace(c),
{
    let v = c as u32;
    (0x9 <= v && v <= 0xd) || v == 0x20 || v == 0x85 || v == 0xa0 || v == 0x1680 || (0x2000 <= v
        && v <= 0x200a) || v == 0x2028 || v == 0x2029 || v == 0x202f || v == 0x205f || v == 0x3000
}

fn parse_digits(s: &str, from: usize, to: usize) -> (res: Option<usize>)
    requires
        from <= to <= s@.len(),
    ensures
        res == ({
            let digits = s@.subrange(from as int, to as int);
            if all_digits(digits) && digits_value(digits) <= usize::MAX {
                Some(digits_value(digits) as usize)
            } else {
                None
            }
        }),
{
    let ghost digits = s@.subrange(from as int, to as int);
    let mut n: usize = 0;
    let mut i: usize = from;
    assert(digits.take(0) =~= Seq::empty());
    while i < to
        invariant
            from <= i <= to <= s@.len(),
            digits == s@.subrange(from as int, to as int),
            forall|k: int| 0 <= k < i - from ==> is_digit(#[trigger] digits[k]),
            n == digits_value(digits.take(i - from)),
        decreases to - i,
    {
        let c = s.get_char(i);
        proof {
            assert(digits[i - from] == c);
            assert(digits.take(i - from + 1).drop_last() =~= digits.take(i - from));
            lemma_digits_value_prefix(digits, (i - from + 1) as nat);
        }
        if c < '0' || c > '9' {
            assert(!is_digit(digits[i - from]));
            return None;
        }
        let d = (c as u32 - 0x30) as usize;
        if n > usize::MAX / 10 || n * 10 > usize::MAX - d {
            return None;
        }
        n = n * 10 + d;
        i = i + 1;
    }
    assert(digits.take(to - from) =~= digits);
    Some(n)
}

/// The number of free 2M huge pages, given what the kernel's counter of them reads: `None` if there
/// is no such counter (no hugetlbfs support or reservation at all) or it does not parse.
pub fn free_hugepages_2m(counter: Option<&str>) -> (res: Option<usize>)
    ensures
        res == match counter {
            Some(text) => number(trim_back(trim_front(text@))),
            None => None,
        },
{
    let text = match counter {
        Some(text) => text,
        None => return None,
    };
    let n = text.unicode_len();
    let mut from: usize = 0;
    assert(text@.skip(0) =~= text@);
    while from < n && whitespace(text.get_char(from))
        invariant
            from <= n,
            n == text@.len(),
            trim_front(text@) == trim_front(text@.skip(from as int)),
        decreases n - from,
    {
        assert(text@.skip(from as int).skip(1) =~= text@.skip(from + 1));
        from = from + 1;
    }
    let ghost front = trim_front(text@);
    assert(front == text@.skip(from as int));
    let mut to: usize = n;
    assert(text@.subrange(from as int, to as int) =~= front);
    while to > from && whitespace(text.get_char(to - 1))
        invariant
            from <= to <= n,
            n == text@.len(),
            trim_back(front) == trim_back(text@.subrange(from as int, to as int)),
        decreases to - from,
    {
        let ghost now = text@.subrange(from as int, to as int);
        assert(now.drop_last() =~= text@.subrange(from as int, to - 1));
        to = to - 1;
    }
    let ghost trimmed = text@.subrange(from as int, to as int);
    proof {
        if to > from {
            assert(trimmed.last() == text@[to - 1]);
        }
        assert(trim_back(front) == trimmed);
    }
    if from < to && text.get_char(from) == '+' {
        from = from + 1;
        assert(text@.subrange(from as int, to as int) =~= trimmed.skip(1));
    }
    if from == to {
        return None;
    }
    parse_digits(text, from, to)
}

/// Whether guest memory of `mem_size_mib` MiB is backed by 2M huge pages, of which `free` are free
/// on this host, and what is said if it is not. `disabled` is whether the user wants none.
pub open spec fn huge_pages(disabled: bool, mem_size_mib: usize, free: Option<usize>) -> (
    bool,
    Option<Seq<char>>,
) {
    let required = mem_size_mib as nat / 2;
    if disabled {
        (false, None)
    } else if mem_size_mib % 2 != 0 {
        (
            false,
            Some(
                "[joos-fire] huge-pages: mem_size_mib ("@ + decimal(mem_size_mib as nat)
                    + ") isn't a multiple of 2 - using 4K pages"@,
            ),
        )
    } else {
        match free {
            None => (false, None),
            Some(free) => if free >= required {
                (true, None)
            } else {
                (
                    false,
                    Some(
                        "[joos-fire] huge-pages: "@ + decimal(free as nat)
                            + " free 2M hugepages, need "@ + decimal(required)
                            + " to cover the full "@ + decimal(mem_size_mib as nat)
                            + "MiB guest - using 4K pages"@,
                    ),
                )
            },
        }
    }
}

/// Decides whether guest memory of `mem_size_mib` MiB is backed by 2M huge pages, of which `free`
/// are free on this host. The second value is what to tell the user.
pub fn choose_huge_pages(disabled: bool, mem_size_mib: usize, free: Option<usize>) -> (res: (
    bool,
    Option<String>,
))
    ensures
        res.0 == huge_pages(disabled, mem_size_mib, free).0,
        match res.1 {
            Some(m) => huge_pages(disabled, mem_size_mib, free).1 == Some(m@),
            None => huge_pages(disabled, mem_size_mib, free).1 is None,
        },
{
    if disabled {
        return (false, None);
    }
    if mem_size_mib % 2 != 0 {
        let mut m = message("[joos-fire] huge-pages: mem_size_mib (");
        push_decimal(&mut m, mem_size_mib as u64);
        m.append(") isn't a multiple of 2 - using 4K pages");
        return (false, Some(m));
    }
    let required = mem_size_mib / 2;
    match free {
        None => (false, None),
        Some(free) => {
            if free >= required {
                return (true, None);
            }
            let mut m = message("[joos-fire] huge-pages: ");
            push_decimal(&mut m, free as u64);
            m.append(" free 2M hugepages, need ");
            push_decimal(&mut m, required as u64);
            m.append(" to cover the full ");
            push_decimal(&mut m, mem_size_mib as u64);
            m.append("MiB guest - using 4K pages");
            (false, Some(m))
        },
    }
}

/// Guest memory is backed by huge pages exactly if the user has not disabled them, it consists of
/// whole huge pages, and the free ones are known to cover all of it.
pub proof fn law_huge_pages_cover_guest(disabled: bool, mem_size_mib: usize, free: Option<usize>)
    ensures
        huge_pages(disabled, mem_size_mib, free).0 <==> {
            &&& !disabled
            &&& mem_size_mib % 2 == 0
            &&& free matches Some(free) && 2 * free >= mem_size_mib
        },
{
}

/// The characters that count as whitespace: those with the Unicode property, and no others.
pub proof fn law_whitespace(c: char)
    ensures
        is_whitespace(c) <==> {
            ||| '\u{9}' <= c <= '\u{d}'
            ||| c == ' '
            ||| c == '\u{85}'
            ||| c == '\u{a0}'
            ||| c == '\u{1680}'
            ||| '\u{2000}' <= c <= '\u{200a}'
            ||| c == '\u{2028}'
            ||| c == '\u{2029}'
            ||| c == '\u{202f}'
            ||| c == '\u{205f}'
            ||| c == '\u{3000}'
        },
{
}

proof fn lemma_trim_front(s: Seq<char>) -> (n: int)
    ensures
        0 <= n <= s.len(),
        trim_front(s) == s.skip(n),
        forall|i: int| 0 <= i < n ==> is_whitespace(#[trigger] s[i]),
        n < s.len() ==> !is_whitespace(s[n]),
    decreases s.len(),
{
    if s.len() > 0 && is_whitespace(s[0]) {
        let t = s.skip(1);
        let n = lemma_trim_front(t);
        assert(t.skip(n) =~= s.skip(n + 1));
        assert forall|i: int| 0 <= i < n + 1 implies is_whitespace(#[trigger] s[i]) by {
            if i > 0 {
                assert(t[i - 1] == s[i]);
            }
        }
        n + 1
    } else {
        assert(s.skip(0) =~= s);
        0
    }
}

proof fn lemma_trim_back(s: Seq<char>) -> (n: int)
    ensures
        0 <= n <= s.len(),
        trim_back(s) == s.take(n),
        forall|i: int| n <= i < s.len() ==> is_whitespace(#[trigger] s[i]),
        n > 0 ==> !is_whitespace(s[n - 1]),
    decreases s.len(),
{
    if s.len() > 0 && is_whitespace(s.last()) {
        let t = s.drop_last();
        let n = lemma_trim_back(t);
        assert(t.take(n) =~= s.take(n));
        assert forall|i: int| n <= i < s.len() implies is_whitespace(#[trigger] s[i]) by {
            if i < t.len() {
                assert(t[i] == s[i]);
            }
        }
        n
    } else {
        assert(s.take(s.len() as int) =~= s);
        s.len() as int
    }
}

/// `t` is `s` without whitespace around it: between whitespace, and with none at its own ends.
pub open spec fn is_trimmed(s: Seq<char>, t: Seq<char>) -> bool {
    &&& exists|a: int, b: int|
        {
            &&& 0 <= a <= b <= s.len()
            &&& t == #[trigger] s.subrange(a, b)
            &&& forall|i: int| 0 <= i < a ==> is_whitespace(#[trigger] s[i])
            &&& forall|i: int| b <= i < s.len() ==> is_whitespace(#[trigger] s[i])
        }
    &&& t.len() > 0 ==> !is_whitespace(t[0]) && !is_whitespace(t.last())
}

/// Trimming takes the whitespace at both ends, all of it and nothing else.
pub proof fn law_trimming(s: Seq<char>)
    ensures
        is_trimmed(s, trim_back(trim_front(s))),
{
    let a = lemma_trim_front(s);
    let f = s.skip(a);
    let n = lemma_trim_back(f);
    let t = trim_back(f);
    assert(t =~= s.subrange(a, a + n));
    assert forall|i: int| a + n <= i < s.len() implies is_whitespace(#[trigger] s[i]) by {
        assert(f[i - a] == s[i]);
    }
    if t.len() > 0 {
        assert(t[0] == s[a]);
        assert(t.last() == f[n - 1]);
    }
}

/// A text is a number exactly if it consists of decimal digits, at least one and possibly behind a plus
/// sign, whose value fits in `usize`; and it is that number.
pub proof fn law_numbers(s: Seq<char>, n: usize)
    ensures
        number(s) == Some(n) <==> exists|d: Seq<char>|
            {
                &&& d.len() > 0
                &&& #[trigger] all_digits(d)
                &&& digits_value(d) == n
                &&& s == d || s == seq!['+'] + d
            },
{
    if number(s) == Some(n) {
        let d = if s[0] == '+' {
            s.skip(1)
        } else {
            s
        };
        assert(all_digits(d));
        if s[0] == '+' {
            assert(s =~= seq!['+'] + d);
        }
    }
    if exists|d: Seq<char>|
        {
            &&& d.len() > 0
            &&& #[trigger] all_digits(d)
            &&& digits_value(d) == n
            &&& s == d || s == seq!['+'] + d
        } {
        let d = choose|d: Seq<char>|
            {
                &&& d.len() > 0
                &&& #[trigger] all_digits(d)
                &&& digits_value(d) == n
                &&& s == d || s == seq!['+'] + d
            };
        assert(is_digit(d[0]));
        if s != d {
            assert(s.skip(1) =~= d);
        }
    }
}

/// A number that the kernel prints is read as that number.
pub proof fn law_printed_counter_reads_back(n: usize)
    ensures
        number(decimal(n as nat)) == Some(n),
{
    crate::text::law_decimal_reads_back(n as nat);
    crate::field_laws::law_decimal_has_no_leading_zero(n as nat);
    law_numbers(decimal(n as nat), n);
    assert(all_digits(decimal(n as nat)));
}

/// The user is told why huge pages are not used exactly if they are not disabled and either the guest
/// does not consist of whole huge pages, or those that are free are known not to cover it.
pub proof fn law_what_the_user_is_told(disabled: bool, mem_size_mib: usize, free: Option<usize>)
    ensures
        huge_pages(disabled, mem_size_mib, free).1 is Some <==> !disabled && (mem_size_mib % 2 == 1
            || (free matches Some(free) && 2 * free < mem_size_mib)),
        !disabled && mem_size_mib % 2 == 1 ==> huge_pages(disabled, mem_size_mib, free).1 == Some(
            "[joos-fire] huge-pages: mem_size_mib ("@ + decimal(mem_size_mib as nat)
                + ") isn't a multiple of 2 - using 4K pages"@,
        ),
        forall|half: nat, free: usize|
            !disabled && mem_size_mib == 2 * half && free < half ==> #[trigger] huge_pages(
                disabled,
                mem_size_mib,
                Some(free),
            ).1 == Some(
                "[joos-fire] huge-pages: "@ + decimal(free as nat) + " free 2M hugepages, need "@
                    + #[trigger] decimal(half) + " to cover the full "@ + decimal(
                    mem_size_mib as nat,
                ) + "MiB guest - using 4K pages"@,
            ),
{
}

} // verus!
