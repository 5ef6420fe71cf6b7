use vstd::prelude::*;
use crate::store::{Store, store_get};

verus! {

/// Failure of a templated read: the derivation's key is not in the
/// bound store.
#[derive(Debug)]
pub enum AttrError {
    MissingKey { key: String },
}

/// The association of an attribute with one store key: the key between
/// the first `{{` and `}}` markers, and the char range `start..end` of
/// the full marker in the literal, absolute from the start of the
/// string.
pub struct AttrDerive {
    pub derive_from: String,
    pub start: usize,
    pub end: usize,
    pub store: Option<Store>,
}

/// A parsed markup value: a literal, plus at most one derivation for
/// the first unescaped `{{key}}` marker. The escape character that
/// suppresses a derivation is kept in the literal, not stripped.
pub struct Attribute {
    pub value: String,
    pub derive: Option<AttrDerive>,
}

/// Two adjacent occurrences of `c` at position `i` of `s`.
pub open spec fn pair_at(s: Seq<char>, i: int, c: char) -> bool {
    0 <= i && i + 2 <= s.len() && s[i] == c && s[i + 1] == c
}

/// Position of the first pair of `c` at or after `from`.
pub open spec fn find_pair(s: Seq<char>, from: int, c: char) -> Option<int>
    decreases s.len() - from,
{
    if from < 0 || from + 2 > s.len() {
        None
    } else if s[from] == c && s[from + 1] == c {
        Some(from)
    } else {
        find_pair(s, from + 1, c)
    }
}

proof fn lemma_find_pair(s: Seq<char>, from: int, c: char)
    requires
        from >= 0,
    ensures
        match find_pair(s, from, c) {
            Some(i) => from <= i && pair_at(s, i, c) && forall|j: int|
                from <= j < i ==> !pair_at(s, j, c),
            None => forall|j: int| from <= j ==> !pair_at(s, j, c),
        },
    decreases s.len() - from,
{
    if from + 2 > s.len() {
    } else if s[from] == c && s[from + 1] == c {
    } else {
        lemma_find_pair(s, from + 1, c);
    }
}

/// Exec scan for the first pair of `c` at or after `from`.
fn find_double(s: &str, from: usize, c: char) -> (r: Option<usize>)
    requires
        from <= s@.len(),
    ensures
        match r {
            Some(i) => find_pair(s@, from as int, c) == Some(i as int) && i < s@.len(),
            None => find_pair(s@, from as int, c) is None,
        },
{
    let len = s.unicode_len();
    let mut i: usize = from;
    proof {
        lemma_find_pair(s@, from as int, c);
    }
    while i < len && i + 1 < len
        invariant
            from <= i <= len,
            len == s@.len(),
            forall|j: int| from <= j < i ==> !pair_at(s@, j, c),
            (match find_pair(s@, from as int, c) {
                Some(k) => from <= k && pair_at(s@, k, c) && forall|j: int|
                    from <= j < k ==> !pair_at(s@, j, c),
                None => forall|j: int| from <= j ==> !pair_at(s@, j, c),
            }),
        decreases len - i,
    {
        if s.get_char(i) == c && s.get_char(i + 1) == c {
            assert(pair_at(s@, i as int, c));
            return Some(i);
        }
        assert(!pair_at(s@, i as int, c));
        i += 1;
    }
    assert(forall|j: int| from <= j ==> !pair_at(s@, j, c)) by {
        assert(forall|j: int| j + 2 > s@.len() ==> !pair_at(s@, j, c));
    }
    None
}

/// The derivation that a raw value denotes: the first `{{` marker, when
/// it is unescaped and a `}}` follows, gives the key and the char range
/// of the whole marker.
pub open spec fn spec_derivation(s: Seq<char>) -> Option<(Seq<char>, int, int)> {
    match find_pair(s, 0, '{') {
        None => None,
        Some(i) => if i > 0 && s[i - 1] == '\\' {
            None
        } else {
            match find_pair(s, i + 2, '}') {
                None => None,
                Some(j) => Some((s.subrange(i + 2, j), i, j + 2)),
            }
        },
    }
}

/// A derivation's recorded range lies within the literal and spans at
/// least the four marker characters.
pub open spec fn attr_wf(a: Attribute) -> bool {
    a.derive matches Some(d) ==> d.start + 4 <= d.end <= a.value@.len()
        && d.derive_from@ == a.value@.subrange(d.start + 2, d.end - 2)
}

/// Splicing `v` over the range `start..end` of `lit`.
pub open spec fn spec_splice(lit: Seq<char>, start: int, end: int, v: Seq<char>) -> Seq<char> {
    lit.subrange(0, start) + v + lit.subrange(end, lit.len() as int)
}

/// What a read returns, given the literal, its derivation state and the
/// outcome `lk` of the store lookup: the spliced value on a hit, the
/// missing key on a miss, and the literal unchanged when there is no
/// bound derivation.
pub open spec fn spec_apply(a: Attribute, lk: Option<Seq<char>>) -> Result<Seq<char>, Seq<char>> {
    if a.derive matches Some(d) && d.store is Some {
        let d = a.derive->Some_0;
        match lk {
            None => Err(d.derive_from@),
            Some(v) => Ok(spec_splice(a.value@, d.start as int, d.end as int, v)),
        }
    } else {
        Ok(a.value@)
    }
}

/// `r` is what `spec_apply` prescribes for lookup outcome `lk`.
pub open spec fn read_matches(a: Attribute, lk: Option<Seq<char>>, r: Result<String, AttrError>) -> bool {
    match spec_apply(a, lk) {
        Ok(s) => r matches Ok(v) && v@ == s,
        Err(k) => r matches Err(e) && e matches AttrError::MissingKey { key } && key@ == k,
    }
}

impl Attribute {
    /// Scans `value` for the first `{{` marker and, when one is found,
    /// the first `}}` after it. An unescaped marker (not preceded by a
    /// backslash, or at position 0) records a derivation over the
    /// enclosed key and the char range of the whole marker; otherwise
    /// the value is a pure literal, the escape character kept.
    pub fn create(value: String, store: Option<Store>) -> (a: Attribute)
        ensures
            a.value@ == value@,
            attr_wf(a),
            (match spec_derivation(value@) {
                None => a.derive is None,
                Some(t) => a.derive matches Some(d) && d.derive_from@ == t.0 && d.start == t.1
                    && d.end == t.2 && (d.store is Some <==> store is Some),
            }),
    {
        // the exec length pins the view's length below usize::MAX,
        // which the marker-offset arithmetic below needs
        let n = value.as_str().unicode_len();
        let open = find_double(value.as_str(), 0, '{');
        proof {
            lemma_find_pair(value@, 0, '{');
        }
        match open {
            None => Attribute { value, derive: None },
            Some(i) => {
                let escaped = i > 0 && value.as_str().get_char(i - 1) == '\\';
                if escaped {
                    Attribute { value, derive: None }
                } else {
                    assert(pair_at(value@, i as int, '{'));
                    match find_double(value.as_str(), i + 2, '}') {
                        None => Attribute { value, derive: None },
                        Some(j) => {
                            proof {
                                lemma_find_pair(value@, i + 2, '}');
                            }
                            let key = String::from_str(
                                value.as_str().substring_char(i + 2, j),
                            );
                            Attribute {
                                value,
                                derive: Some(
                                    AttrDerive { derive_from: key, start: i, end: j + 2, store },
                                ),
                            }
                        },
                    }
                }
            },
        }
    }

    /// The read that `lk` (the outcome of the store lookup) leads to:
    /// the literal with the looked-up value spliced over the marker, the
    /// missing-key error on a miss, or the literal unchanged when no
    /// derivation is bound. Verified for every possible lookup outcome.
    pub fn apply_lookup(&self, lk: Option<&String>) -> (r: Result<String, AttrError>)
        requires
            attr_wf(*self),
        ensures
            read_matches(*self, (match lk {
                None => None,
                Some(v) => Some(v@),
            }), r),
    {
        match &self.derive {
            Some(d) if d.store.is_some() => {
                match lk {
                    None => Err(AttrError::MissingKey { key: d.derive_from.clone() }),
                    Some(v) => {
                        let n = self.value.as_str().unicode_len();
                        let head = self.value.as_str().substring_char(0, d.start);
                        let tail = self.value.as_str().substring_char(d.end, n);
                        let mut out = String::from_str(head);
                        out.append(v.as_str());
                        out.append(tail);
                        Ok(out)
                    },
                }
            },
            _ => Ok(self.value.clone()),
        }
    }

    /// Returns the literal, or — when a derivation and a bound store
    /// are both present — looks the key up in the store and splices the
    /// value over the recorded range; a missing key fails, naming it.
    /// The store is shared, so the lookup's outcome is not fixed by the
    /// attribute alone: every outcome obeys `read_matches`.
    pub fn read(&self) -> (r: Result<String, AttrError>)
        requires
            attr_wf(*self),
        ensures
            exists|lk: Option<Seq<char>>| read_matches(*self, lk, r),
            !(self.derive matches Some(d) && d.store is Some) ==> (r matches Ok(v) && v@
                == self.value@),
    {
        match &self.derive {
            Some(d) if d.store.is_some() => {
                let looked = store_get(d.store.as_ref().unwrap(), d.derive_from.as_str());
                let r = self.apply_lookup(looked.as_ref());
                proof {
                    let lkg: Option<Seq<char>> = match looked {
                        None => None,
                        Some(v) => Some(v@),
                    };
                    assert(read_matches(*self, lkg, r));
                }
                r
            },
            _ => {
                let r = self.apply_lookup(None);
                proof {
                    assert(read_matches(*self, None, r));
                }
                r
            },
        }
    }
}

} // verus!
