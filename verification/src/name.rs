//! Normalized package names.
//!
//! A package name is the primary key of both library components. Equality is
//! taken on the normalized form, so that lookups are consistent regardless of
//! the casing and separator style of the input: letters are lowercased and
//! every run of `-`, `_` and `.` collapses to a single `-`.

use vstd::prelude::*;

verus! {

pub const DASH: u8 = 45u8;

pub const DOT: u8 = 46u8;

pub const UNDERSCORE: u8 = 95u8;

/// Is `c` an ASCII letter or digit?
pub open spec fn is_alnum(c: u8) -> bool {
    (48 <= c <= 57) || (65 <= c <= 90) || (97 <= c <= 122)
}

/// Is `c` one of the interchangeable separators `-`, `_`, `.`?
pub open spec fn is_sep(c: u8) -> bool {
    c == DASH || c == DOT || c == UNDERSCORE
}

/// The lowercase form of an ASCII byte.
pub open spec fn lower(c: u8) -> u8 {
    if 65 <= c <= 90 {
        (c + 32) as u8
    } else {
        c
    }
}

/// A raw spelling is acceptable when it is nonempty, uses only letters,
/// digits and separators, and begins and ends with a letter or digit.
pub open spec fn valid_raw_name(s: Seq<u8>) -> bool {
    &&& s.len() > 0
    &&& forall|i: int| 0 <= i < s.len() ==> is_alnum(s[i]) || is_sep(s[i])
    &&& is_alnum(s[0])
    &&& is_alnum(s[s.len() - 1])
}

/// The normalized form: letters lowercased, each run of separators replaced
/// by a single `-`. Of a run only its last separator is kept, as a `-`.
pub open spec fn normalize(s: Seq<u8>) -> Seq<u8>
    decreases s.len(),
{
    if s.len() == 0 {
        Seq::empty()
    } else if is_sep(s[0]) {
        if s.len() > 1 && is_sep(s[1]) {
            normalize(s.skip(1))
        } else {
            seq![DASH] + normalize(s.skip(1))
        }
    } else {
        seq![lower(s[0])] + normalize(s.skip(1))
    }
}

/// A normalized, case- and separator-insensitive package name.
#[derive(Debug)]
pub struct PackageName {
    pub bytes: Vec<u8>,
}

impl View for PackageName {
    type V = Seq<u8>;

    open spec fn view(&self) -> Seq<u8> {
        self.bytes@
    }
}

impl Clone for PackageName {
    fn clone(&self) -> (r: Self)
        ensures
            r@ == self@,
    {
        let r = PackageName { bytes: self.bytes.clone() };
        proof {
            assert(r.bytes@ =~= self.bytes@);
        }
        r
    }
}

impl PackageName {
    /// Validates and normalizes a raw spelling. Returns the name exactly when
    /// the spelling is acceptable, with its view the normalized form.
    pub fn new(raw: &Vec<u8>) -> (r: Option<PackageName>)
        ensures
            r is Some <==> valid_raw_name(raw@),
            r matches Some(pn) ==> pn@ == normalize(raw@),
    {
        if raw.len() == 0 {
            return None;
        }
        let mut i: usize = 0;
        while i < raw.len()
            invariant
                i <= raw.len(),
                raw.len() > 0,
                forall|j: int| 0 <= j < i ==> is_alnum(raw@[j]) || is_sep(raw@[j]),
            decreases raw.len() - i,
        {
            let c = raw[i];
            let ok = (48 <= c && c <= 57) || (65 <= c && c <= 90) || (97 <= c && c <= 122)
                || c == DASH || c == DOT || c == UNDERSCORE;
            if !ok {
                return None;
            }
            i = i + 1;
        }
        let first = raw[0];
        if !((48 <= first && first <= 57) || (65 <= first && first <= 90)
            || (97 <= first && first <= 122)) {
            return None;
        }
        let last = raw[raw.len() - 1];
        if !((48 <= last && last <= 57) || (65 <= last && last <= 90)
            || (97 <= last && last <= 122)) {
            return None;
        }
        let mut out: Vec<u8> = Vec::new();
        let mut k: usize = 0;
        proof {
            assert(raw@.skip(0) =~= raw@);
            assert(normalize(raw@) =~= Seq::<u8>::empty() + normalize(raw@));
        }
        while k < raw.len()
            invariant
                k <= raw.len(),
                normalize(raw@) == out@ + normalize(raw@.skip(k as int)),
            decreases raw.len() - k,
        {
            proof {
                assert(raw@.skip(k as int)[0] == raw@[k as int]);
                assert(raw@.skip(k as int).skip(1) =~= raw@.skip(k + 1));
            }
            let c = raw[k];
            if c == DASH || c == DOT || c == UNDERSCORE {
                let run_continues = k + 1 < raw.len()
                    && (raw[k + 1] == DASH || raw[k + 1] == DOT || raw[k + 1] == UNDERSCORE);
                if !run_continues {
                    out.push(DASH);
                }
            } else if 65 <= c && c <= 90 {
                out.push(c + 32);
            } else {
                out.push(c);
            }
            proof {
                assert(normalize(raw@) =~= out@ + normalize(raw@.skip(k + 1)));
            }
            k = k + 1;
        }
        proof {
            assert(raw@.skip(raw@.len() as int) =~= Seq::<u8>::empty());
            assert(out@ =~= out@ + normalize(raw@.skip(raw@.len() as int)));
        }
        Some(PackageName { bytes: out })
    }

    /// Wraps bytes that are already in normalized form, unchanged. The
    /// caller owes a spelling that normalization would leave as it is;
    /// otherwise two spellings of one name would compare unequal, against
    /// the rule that name equality is taken on the normalized form.
    pub fn from_normalized(bytes: Vec<u8>) -> (r: PackageName)
        requires
            normalize(bytes@) == bytes@,
        ensures
            r@ == bytes@,
    {
        PackageName { bytes }
    }

    /// Name equality: equality of the normalized bytes.
    pub fn eq_name(&self, other: &PackageName) -> (r: bool)
        ensures
            r == (self@ == other@),
    {
        crate::bytes::bytes_eq(&self.bytes, &other.bytes)
    }
}

} // verus!
