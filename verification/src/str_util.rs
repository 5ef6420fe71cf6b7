use vstd::prelude::*;

verus! {

/// Character-by-character equality of two string slices.
pub fn str_eq(a: &str, b: &str) -> (r: bool)
    ensures
        r == (a@ == b@),
{
    let alen = a.unicode_len();
    let blen = b.unicode_len();
    if alen != blen {
        assert(a@ != b@) by {
            assert(a@.len() != b@.len());
        }
        return false;
    }
    let mut i: usize = 0;
    while i < alen
        invariant
            0 <= i <= alen,
            alen == a@.len() && alen == b@.len(),
            forall|j: int| 0 <= j < i ==> a@[j] == b@[j],
        decreases alen - i,
    {
        if a.get_char(i) != b.get_char(i) {
            return false;
        }
        i += 1;
    }
    assert(a@ =~= b@);
    true
}

/// True when `c` occurs in `s`.
pub open spec fn spec_contains_char(s: Seq<char>, c: char) -> bool {
    exists|i: int| 0 <= i < s.len() && s[i] == c
}

pub fn contains_char(s: &str, c: char) -> (r: bool)
    ensures
        r == spec_contains_char(s@, c),
{
    let len = s.unicode_len();
    let mut i: usize = 0;
    while i < len
        invariant
            0 <= i <= len,
            len == s@.len(),
            forall|j: int| 0 <= j < i ==> s@[j] != c,
        decreases len - i,
    {
        if s.get_char(i) == c {
            return true;
        }
        i += 1;
    }
    false
}

/// Position of the first occurrence of `c` at or after `from`.
pub open spec fn find_char(s: Seq<char>, from: int, c: char) -> Option<int>
    decreases s.len() - from,
{
    if from < 0 || from >= s.len() {
        None
    } else if s[from] == c {
        Some(from)
    } else {
        find_char(s, from + 1, c)
    }
}

pub proof fn lemma_find_char(s: Seq<char>, from: int, c: char)
    requires
        from >= 0,
    ensures
        match find_char(s, from, c) {
            Some(i) => from <= i < s.len() && s[i] == c && forall|j: int|
                from <= j < i ==> s[j] != c,
            None => forall|j: int| from <= j < s.len() ==> s[j] != c,
        },
    decreases s.len() - from,
{
    if from >= s.len() {
    } else if s[from] == c {
    } else {
        lemma_find_char(s, from + 1, c);
    }
}

/// Exec scan for the first occurrence of `c` at or after `from`.
pub fn find_char_from(s: &str, from: usize, c: char) -> (r: Option<usize>)
    requires
        from <= s@.len(),
    ensures
        match r {
            Some(i) => find_char(s@, from as int, c) == Some(i as int) && from <= i < s@.len(),
            None => find_char(s@, from as int, c) is None,
        },
{
    let len = s.unicode_len();
    let mut i: usize = from;
    proof {
        lemma_find_char(s@, from as int, c);
    }
    while i < len
        invariant
            from <= i <= len,
            len == s@.len(),
            forall|j: int| from <= j < i ==> s@[j] != c,
            (match find_char(s@, from as int, c) {
                Some(k) => from <= k < s@.len() && s@[k] == c && forall|j: int|
                    from <= j < k ==> s@[j] != c,
                None => forall|j: int| from <= j < s@.len() ==> s@[j] != c,
            }),
        decreases len - i,
    {
        if s.get_char(i) == c {
            return Some(i);
        }
        i += 1;
    }
    None
}

/// The lines of `s`, split on newline characters: one entry more than
/// there are newlines, in order, the newlines themselves dropped.
pub open spec fn spec_split_lines(s: Seq<char>) -> Seq<Seq<char>>
    decreases s.len(),
{
    match find_char(s, 0, '\n') {
        None => seq![s],
        Some(k) => if 0 <= k < s.len() {
            seq![s.subrange(0, k)] + spec_split_lines(s.subrange(k + 1, s.len() as int))
        } else {
            seq![s]
        },
    }
}

/// Splits `s` into its lines on `\n`.
pub fn split_lines(s: &str) -> (r: Vec<String>)
    ensures
        r@.map_values(|t: String| t@) == spec_split_lines(s@),
{
    let len = s.unicode_len();
    let mut out: Vec<String> = Vec::new();
    let mut start: usize = 0;
    proof {
        assert(s@.subrange(0, s@.len() as int) =~= s@);
    }
    loop
        invariant
            start <= len,
            len == s@.len(),
            spec_split_lines(s@) == out@.map_values(|t: String| t@) + spec_split_lines(
                s@.subrange(start as int, s@.len() as int),
            ),
        decreases len - start,
    {
        let ghost suffix = s@.subrange(start as int, s@.len() as int);
        let ghost done = out@.map_values(|t: String| t@);
        match find_char_from(s, start, '\n') {
            Some(k) => {
                proof {
                    lemma_find_char(s@, start as int, '\n');
                    assert forall|j: int| 0 <= j < suffix.len() implies suffix[j] == s@[start + j]
                        by {}
                    if find_char(suffix, 0, '\n') is None {
                        lemma_find_char(suffix, 0, '\n');
                        assert(suffix[k - start] == '\n');
                        assert(false);
                    }
                    let k2 = find_char(suffix, 0, '\n')->Some_0;
                    lemma_find_char(suffix, 0, '\n');
                    assert(s@[start + k2] == '\n');
                    assert(k2 + start >= k) by {
                        if k2 + start < k {
                            assert(s@[start + k2] != '\n');
                        }
                    }
                    assert(k2 + start <= k) by {
                        if k2 + start > k {
                            assert(suffix[k - start] != '\n');
                            assert(suffix[k - start] == s@[k as int]);
                        }
                    }
                    assert(suffix.subrange(0, k - start) =~= s@.subrange(start as int, k as int));
                    assert(suffix.subrange(k - start + 1, suffix.len() as int) =~= s@.subrange(
                        k + 1,
                        s@.len() as int,
                    ));
                }
                let piece = String::from_str(s.substring_char(start, k));
                let ghost old_out = out@;
                out.push(piece);
                proof {
                    assert(out@.map_values(|t: String| t@) =~= done.push(
                        s@.subrange(start as int, k as int),
                    ));
                    assert(out@.map_values(|t: String| t@) + spec_split_lines(
                        s@.subrange(k + 1, s@.len() as int),
                    ) =~= done + spec_split_lines(suffix));
                }
                start = k + 1;
            },
            None => {
                proof {
                    lemma_find_char(s@, start as int, '\n');
                    if find_char(suffix, 0, '\n') is Some {
                        let k2 = find_char(suffix, 0, '\n')->Some_0;
                        lemma_find_char(suffix, 0, '\n');
                        assert(suffix[k2] == s@[start + k2]);
                        assert(false);
                    }
                    assert(spec_split_lines(suffix) == seq![suffix]);
                }
                let piece = String::from_str(s.substring_char(start, len));
                let ghost done2 = out@.map_values(|t: String| t@);
                out.push(piece);
                proof {
                    assert(out@.map_values(|t: String| t@) =~= done2.push(suffix));
                    assert(done2.push(suffix) =~= done2 + seq![suffix]);
                }
                return out;
            },
        }
    }
}

pub open spec fn is_digit(c: char) -> bool {
    '0' <= c && c <= '9'
}

pub open spec fn digit_val(c: char) -> int {
    c as int - '0' as int
}

/// The number denoted by a sequence of decimal digits, most significant
/// first.
pub open spec fn digits_val(s: Seq<char>) -> int
    decreases s.len(),
{
    if s.len() == 0 {
        0
    } else {
        digits_val(s.drop_last()) * 10 + digit_val(s.last())
    }
}

/// A valid unsigned decimal numeral: non-empty and all digits.
pub open spec fn is_numeral(s: Seq<char>) -> bool {
    s.len() > 0 && forall|i: int| 0 <= i < s.len() ==> is_digit(s[i])
}

proof fn lemma_digits_val_nonneg(s: Seq<char>)
    requires
        forall|i: int| 0 <= i < s.len() ==> is_digit(s[i]),
    ensures
        digits_val(s) >= 0,
    decreases s.len(),
{
    if s.len() > 0 {
        lemma_digits_val_nonneg(s.drop_last());
    }
}

/// Parses the characters `from .. to` of `s` as an unsigned decimal
/// numeral; `None` when the range is empty, holds a non-digit, or the
/// value does not fit in `u32`.
pub fn parse_u32_range(s: &str, from: usize, to: usize) -> (r: Option<u32>)
    requires
        from <= to <= s@.len(),
    ensures
        r matches Some(v) ==> is_numeral(s@.subrange(from as int, to as int))
            && v == digits_val(s@.subrange(from as int, to as int)),
        r is None ==> !is_numeral(s@.subrange(from as int, to as int))
            || digits_val(s@.subrange(from as int, to as int)) > u32::MAX,
{
    let ghost whole = s@.subrange(from as int, to as int);
    if from == to {
        return None;
    }
    let mut acc: u32 = 0;
    let mut i: usize = from;
    while i < to
        invariant
            from <= i <= to <= s@.len(),
            whole == s@.subrange(from as int, to as int),
            forall|j: int| from <= j < i ==> is_digit(s@[j]),
            acc == digits_val(s@.subrange(from as int, i as int)),
        decreases to - i,
    {
        let c = s.get_char(i);
        if !('0' <= c && c <= '9') {
            assert(!is_numeral(whole)) by {
                assert(whole[i - from] == s@[i as int]);
            }
            return None;
        }
        let d: u32 = (c as u32) - ('0' as u32);
        let wide: u64 = (acc as u64) * 10 + (d as u64);
        proof {
            let grown = s@.subrange(from as int, (i + 1) as int);
            assert(grown.drop_last() =~= s@.subrange(from as int, i as int));
            assert(grown.last() == s@[i as int]);
            assert(wide == digits_val(grown));
        }
        if wide > u32::MAX as u64 {
            proof {
                if is_numeral(whole) {
                    lemma_digits_prefix_bound(whole, (i + 1 - from) as int);
                    assert(whole.subrange(0, (i + 1 - from) as int) =~= s@.subrange(
                        from as int,
                        (i + 1) as int,
                    ));
                }
            }
            return None;
        }
        acc = wide as u32;
        i += 1;
    }
    proof {
        assert(s@.subrange(from as int, to as int) =~= whole);
    }
    Some(acc)
}

/// A numeral's value never shrinks when more digits follow: the value of
/// the first `k` digits is at most the value of the whole.
proof fn lemma_digits_prefix_bound(s: Seq<char>, k: int)
    requires
        0 <= k <= s.len(),
        forall|i: int| 0 <= i < s.len() ==> is_digit(s[i]),
    ensures
        digits_val(s.subrange(0, k)) <= digits_val(s),
    decreases s.len() - k,
{
    if k == s.len() {
        assert(s.subrange(0, k) =~= s);
    } else {
        lemma_digits_prefix_bound(s, k + 1);
        let p = s.subrange(0, k + 1);
        assert(p.drop_last() =~= s.subrange(0, k));
        lemma_digits_val_nonneg(s.subrange(0, k));
        assert(digits_val(s.subrange(0, k)) * 10 + digit_val(p.last()) == digits_val(p));
        assert(digits_val(s.subrange(0, k)) <= digits_val(s.subrange(0, k)) * 10 + digit_val(
            p.last(),
        ));
    }
}

/// Parses a whole string slice as an unsigned decimal numeral.
pub fn parse_u32(s: &str) -> (r: Option<u32>)
    ensures
        r matches Some(v) ==> is_numeral(s@) && v == digits_val(s@),
        r is None ==> !is_numeral(s@) || digits_val(s@) > u32::MAX,
{
    let len = s.unicode_len();
    let r = parse_u32_range(s, 0, len);
    proof {
        assert(s@.subrange(0, s@.len() as int) =~= s@);
    }
    r
}

/// Parses a whole string slice as a `u16` numeral.
pub fn parse_u16(s: &str) -> (r: Option<u16>)
    ensures
        r matches Some(v) ==> is_numeral(s@) && v == digits_val(s@),
        r is None ==> !is_numeral(s@) || digits_val(s@) > u16::MAX,
{
    match parse_u32(s) {
        Some(v) => {
            if v <= u16::MAX as u32 {
                Some(v as u16)
            } else {
                None
            }
        },
        None => {
            proof {
                if is_numeral(s@) {
                    lemma_digits_val_nonneg(s@);
                }
            }
            None
        },
    }
}

} // verus!
