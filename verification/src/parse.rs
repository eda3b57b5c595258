//! Parsing of a sensor or actuator value file's content: an ASCII decimal
//! with optional trailing whitespace (sysfs-style files end in a newline)
//! and an optional leading `+`, read as a `u32`. The file read itself is
//! the surrounding process's business; the library only parses what was
//! read.
use vstd::prelude::*;

verus! {

/// ASCII whitespace as it trails a value file: space, tab, line feed,
/// carriage return.
pub open spec fn is_space(b: u8) -> bool {
    b == 32 || b == 9 || b == 10 || b == 13
}

pub open spec fn is_digit(b: u8) -> bool {
    48 <= b <= 57
}

/// The content with trailing whitespace removed.
pub open spec fn trim_trailing(s: Seq<u8>) -> Seq<u8>
    decreases s.len(),
{
    if s.len() > 0 && is_space(s.last()) {
        trim_trailing(s.drop_last())
    } else {
        s
    }
}

/// The digits proper: a single leading `+` sign is accepted and skipped.
pub open spec fn unsigned_body(s: Seq<u8>) -> Seq<u8> {
    if s.len() > 0 && s[0] == 43 {
        s.drop_first()
    } else {
        s
    }
}

pub open spec fn all_digits(s: Seq<u8>) -> bool {
    forall|i: int| 0 <= i < s.len() ==> is_digit(#[trigger] s[i])
}

/// The value of a digit string, most significant first.
pub open spec fn digits_val(s: Seq<u8>) -> int
    decreases s.len(),
{
    if s.len() == 0 {
        0
    } else {
        digits_val(s.drop_last()) * 10 + (s.last() - 48)
    }
}

/// What parsing the content yields: the digits' value when, after trimming
/// and the optional sign, at least one digit and nothing else remains and
/// the value fits a `u32`; nothing otherwise.
pub open spec fn spec_parse_u32(s: Seq<u8>) -> Option<u32> {
    let d = unsigned_body(trim_trailing(s));
    if d.len() >= 1 && all_digits(d) && digits_val(d) <= u32::MAX {
        Some(digits_val(d) as u32)
    } else {
        None
    }
}

proof fn lemma_digits_val_nonneg(s: Seq<u8>)
    requires
        all_digits(s),
    ensures
        digits_val(s) >= 0,
    decreases s.len(),
{
    if s.len() > 0 {
        assert(forall|i: int|
            0 <= i < s.drop_last().len() ==> is_digit(#[trigger] s.drop_last()[i]));
        lemma_digits_val_nonneg(s.drop_last());
    }
}

fn is_space_byte(b: u8) -> (r: bool)
    ensures
        r == is_space(b),
{
    b == 32 || b == 9 || b == 10 || b == 13
}

/// The value held in a sensor or actuator value file, given the file's raw
/// content (`None` when the read itself already failed): trailing
/// whitespace is trimmed and the rest is parsed as an unsigned decimal.
/// Anything else — an empty rest, a stray character, a value beyond
/// `u32::MAX` — yields nothing.
pub fn read_file_to_u32(content: Option<&[u8]>) -> (r: Option<u32>)
    ensures
        r == match content {
            None => None::<u32>,
            Some(s) => spec_parse_u32(s@),
        },
{
    let s: &[u8] = match content {
        None => { return None },
        Some(s) => s,
    };
    let mut end: usize = s.len();
    proof {
        assert(s@.subrange(0, s@.len() as int) =~= s@);
    }
    while end > 0 && is_space_byte(s[end - 1])
        invariant
            end <= s@.len(),
            trim_trailing(s@) == trim_trailing(s@.subrange(0, end as int)),
        decreases end,
    {
        proof {
            assert(s@.subrange(0, end as int).last() == s@[end - 1]);
            assert(s@.subrange(0, end as int).drop_last() =~= s@.subrange(0, end - 1));
        }
        end = end - 1;
    }
    proof {
        assert(trim_trailing(s@) == s@.subrange(0, end as int));
    }
    let mut start: usize = 0;
    if end > 0 && s[0] == 43 {
        proof {
            assert(s@.subrange(0, end as int)[0] == s@[0]);
            assert(s@.subrange(0, end as int).drop_first() =~= s@.subrange(1, end as int));
        }
        start = 1;
    }
    let ghost d = s@.subrange(start as int, end as int);
    proof {
        assert(unsigned_body(trim_trailing(s@)) == d);
    }
    if start >= end {
        return None;
    }
    let mut val: u64 = 0;
    let mut overflow: bool = false;
    let mut i: usize = start;
    while i < end
        invariant
            content == Some(s),
            start <= i <= end <= s@.len(),
            d == s@.subrange(start as int, end as int),
            d == unsigned_body(trim_trailing(s@)),
            forall|k: int| start <= k < i ==> is_digit(#[trigger] s@[k]),
            !overflow ==> val == digits_val(s@.subrange(start as int, i as int)) && val
                <= u32::MAX,
            overflow ==> digits_val(s@.subrange(start as int, i as int)) > u32::MAX,
        decreases end - i,
    {
        let b = s[i];
        if b < 48 || b > 57 {
            proof {
                assert(d[i - start] == s@[i as int]);
                assert(!all_digits(d));
            }
            return None;
        }
        proof {
            let pre = s@.subrange(start as int, i as int);
            let post = s@.subrange(start as int, i as int + 1);
            assert(post.drop_last() =~= pre);
            assert(post.last() == s@[i as int]);
            assert(digits_val(post) == digits_val(pre) * 10 + (s@[i as int] - 48));
            if overflow {
                assert(forall|k: int| 0 <= k < pre.len() ==> is_digit(#[trigger] pre[k]));
                lemma_digits_val_nonneg(pre);
            }
        }
        if !overflow {
            let next: u64 = val * 10 + (b - 48) as u64;
            if next > u32::MAX as u64 {
                overflow = true;
            } else {
                val = next;
            }
        }
        i = i + 1;
    }
    proof {
        assert forall|j: int| 0 <= j < d.len() implies is_digit(#[trigger] d[j]) by {
            assert(d[j] == s@[start + j]);
        }
    }
    if overflow {
        return None;
    }
    proof {
        lemma_digits_val_nonneg(d);
    }
    Some(val as u32)
}

} // verus!
