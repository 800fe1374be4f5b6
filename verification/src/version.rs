use vstd::prelude::*;
use vstd::string::StringExecFns;

use crate::error::PuffError;
use crate::text::{
    chars_eq, chars_to_string, dec_rep, is_digit, is_u16_numeral, lemma_dec_rep_u16,
    lemma_numeral_canonical, numeral_val, parse_u16, push_dec, str_to_chars,
};

verus! {

/// A split of a version string into three numerals at two dot positions.
pub open spec fn version_split_at(s: Seq<char>, p1: int, p2: int) -> bool {
    &&& 0 <= p1 < p2 < s.len()
    &&& s[p1] == '.'
    &&& s[p2] == '.'
    &&& is_u16_numeral(s.subrange(0, p1))
    &&& is_u16_numeral(s.subrange(p1 + 1, p2))
    &&& is_u16_numeral(s.subrange(p2 + 1, s.len() as int))
}

/// A string of the form `major.minor.patch`, each a canonical numeral.
pub open spec fn is_version_str(s: Seq<char>) -> bool {
    exists|p1: int, p2: int| version_split_at(s, p1, p2)
}

/// The version that a version string denotes.
pub open spec fn version_str_val(s: Seq<char>) -> Version {
    let (p1, p2) = choose|p1: int, p2: int| version_split_at(s, p1, p2);
    Version(
        numeral_val(s.subrange(0, p1)) as u16,
        numeral_val(s.subrange(p1 + 1, p2)) as u16,
        numeral_val(s.subrange(p2 + 1, s.len() as int)) as u16,
    )
}

/// An ordered triple of numbers; ordering is lexicographic. Two sentinels:
/// the lowest version `0.0.0` and the highest version, printed `latest`.
#[derive(Debug, Clone, Copy, PartialEq, Eq, Structural, Hash)]
pub struct Version(pub u16, pub u16, pub u16);

/// A closed interval of acceptable versions. A concrete artifact's range is
/// degenerate: its two ends are equal.
#[derive(Debug, Clone, Copy, PartialEq, Eq, Structural, Hash)]
pub struct VersionRange {
    pub min: Version,
    pub max: Version,
}

impl Version {
    pub open spec fn spec_is_lowest(self) -> bool {
        self.0 == 0 && self.1 == 0 && self.2 == 0
    }

    pub open spec fn spec_is_highest(self) -> bool {
        self.0 == 65535 && self.1 == 65535 && self.2 == 65535
    }

    /// Lexicographic order on the triple.
    pub open spec fn spec_le(self, other: Version) -> bool {
        ||| self.0 < other.0
        ||| (self.0 == other.0 && self.1 < other.1)
        ||| (self.0 == other.0 && self.1 == other.1 && self.2 <= other.2)
    }

    /// The canonical `major.minor.patch` rendering.
    pub open spec fn spec_chars(self) -> Seq<char> {
        dec_rep(self.0 as nat) + seq!['.'] + dec_rep(self.1 as nat) + seq!['.'] + dec_rep(
            self.2 as nat,
        )
    }

    /// The display rendering: the highest version prints as `latest`.
    pub open spec fn spec_display(self) -> Seq<char> {
        if self.spec_is_highest() {
            seq!['l', 'a', 't', 'e', 's', 't']
        } else {
            self.spec_chars()
        }
    }

    pub fn new(major: u16, minor: u16, patch: u16) -> (r: Version)
        ensures
            r == Version(major, minor, patch),
    {
        Version(major, minor, patch)
    }

    pub fn lowest() -> (r: Version)
        ensures
            r == Version(0u16, 0u16, 0u16),
            r.spec_is_lowest(),
    {
        Version(0, 0, 0)
    }

    pub fn highest() -> (r: Version)
        ensures
            r == Version(65535u16, 65535u16, 65535u16),
            r.spec_is_highest(),
    {
        Version(65535, 65535, 65535)
    }

    pub fn is_lowest(&self) -> (r: bool)
        ensures
            r == self.spec_is_lowest(),
    {
        self.0 == 0 && self.1 == 0 && self.2 == 0
    }

    pub fn is_highest(&self) -> (r: bool)
        ensures
            r == self.spec_is_highest(),
    {
        self.0 == 65535 && self.1 == 65535 && self.2 == 65535
    }

    pub fn le(&self, other: &Version) -> (r: bool)
        ensures
            r == self.spec_le(*other),
    {
        self.0 < other.0 || (self.0 == other.0 && self.1 < other.1) || (self.0 == other.0 && self.1
            == other.1 && self.2 <= other.2)
    }

    /// Parses the span `[from, to)` of `s` as a `major.minor.patch` triple of
    /// canonical decimal numerals.
    pub fn from_chars(s: &Vec<char>, from: usize, to: usize) -> (r: Result<Version, PuffError>)
        requires
            from <= to <= s@.len(),
        ensures
            r is Ok <==> is_version_str(s@.subrange(from as int, to as int)),
            r matches Ok(v) ==> v == version_str_val(s@.subrange(from as int, to as int)),
            r matches Err(e) ==> e == PuffError::InvalidVersion,
    {
        let ghost sub = s@.subrange(from as int, to as int);
        let mut p1: usize = from;
        while p1 < to && s[p1] != '.'
            invariant
                from <= p1 <= to <= s@.len(),
                forall|j: int| from <= j < p1 ==> s@[j] != '.',
            decreases to - p1,
        {
            p1 += 1;
        }
        if p1 == to {
            proof {
                assert forall|q1: int, q2: int| !version_split_at(sub, q1, q2) by {
                    if version_split_at(sub, q1, q2) {
                        assert(sub[q1] == s@[from + q1]);
                    }
                }
            }
            return Err(PuffError::InvalidVersion);
        }
        let mut p2: usize = p1 + 1;
        while p2 < to && s[p2] != '.'
            invariant
                from <= p1 < p2 <= to <= s@.len(),
                forall|j: int| p1 < j < p2 ==> s@[j] != '.',
            decreases to - p2,
        {
            p2 += 1;
        }
        if p2 == to {
            proof {
                assert forall|q1: int, q2: int| !version_split_at(sub, q1, q2) by {
                    if version_split_at(sub, q1, q2) {
                        lemma_forced_split(sub, p1 - from, q1, q2);
                    }
                }
            }
            return Err(PuffError::InvalidVersion);
        }
        let r0 = parse_u16(s, from, p1);
        let r1 = parse_u16(s, p1 + 1, p2);
        let r2 = parse_u16(s, p2 + 1, to);
        proof {
            assert(s@.subrange(from as int, p1 as int) =~= sub.subrange(0, p1 - from));
            assert(s@.subrange(p1 + 1, p2 as int) =~= sub.subrange(p1 - from + 1, p2 - from));
            assert(s@.subrange(p2 + 1, to as int) =~= sub.subrange(p2 - from + 1, sub.len() as int));
            assert(sub[p1 - from] == s@[p1 as int]);
            assert(sub[p2 - from] == s@[p2 as int]);
        }
        match (r0, r1, r2) {
            (Some(a), Some(b), Some(c)) => {
                proof {
                    assert(version_split_at(sub, p1 - from, p2 - from));
                    lemma_version_split_val(sub, p1 - from, p2 - from);
                }
                Ok(Version(a, b, c))
            },
            _ => {
                proof {
                    assert forall|q1: int, q2: int| !version_split_at(sub, q1, q2) by {
                        if version_split_at(sub, q1, q2) {
                            lemma_full_split(sub, p1 - from, p2 - from, q1, q2);
                        }
                    }
                }
                Err(PuffError::InvalidVersion)
            },
        }
    }

    pub fn from_str(s: &str) -> (r: Result<Version, PuffError>)
        ensures
            r is Ok <==> is_version_str(s@),
            r matches Ok(v) ==> v == version_str_val(s@),
            r matches Err(e) ==> e == PuffError::InvalidVersion,
    {
        let chars = str_to_chars(s);
        let n = chars.len();
        let r = Self::from_chars(&chars, 0, n);
        proof {
            assert(chars@.subrange(0, n as int) =~= s@);
        }
        r
    }

    /// Appends the canonical `major.minor.patch` rendering to `out`.
    pub fn push_chars(&self, out: &mut Vec<char>)
        ensures
            final(out)@ == old(out)@ + self.spec_chars(),
    {
        push_dec(self.0, out);
        out.push('.');
        push_dec(self.1, out);
        out.push('.');
        push_dec(self.2, out);
        proof {
            assert(out@ =~= old(out)@ + self.spec_chars());
        }
    }

    /// Appends the display rendering (`latest` for the highest version).
    pub fn push_display(&self, out: &mut Vec<char>)
        ensures
            final(out)@ == old(out)@ + self.spec_display(),
    {
        if self.is_highest() {
            out.push('l');
            out.push('a');
            out.push('t');
            out.push('e');
            out.push('s');
            out.push('t');
            proof {
                assert(out@ =~= old(out)@ + self.spec_display());
            }
        } else {
            self.push_chars(out);
        }
    }

    pub fn to_string(&self) -> (r: String)
        ensures
            r@ == self.spec_display(),
    {
        let mut out: Vec<char> = Vec::new();
        self.push_display(&mut out);
        chars_to_string(&out)
    }
}

/// Any valid split of a version string must place its first dot where the
/// scan found the first dot, and its second where the scan found the second.
proof fn lemma_forced_split(s: Seq<char>, p1: int, q1: int, q2: int)
    requires
        0 <= p1 < s.len(),
        s[p1] == '.',
        forall|j: int| 0 <= j < p1 ==> s[j] != '.',
        version_split_at(s, q1, q2),
    ensures
        q1 == p1,
        q2 > p1,
{
    if q1 < p1 {
        assert(s[q1] == '.');
    }
    if q1 > p1 {
        assert(is_digit(s.subrange(0, q1)[p1]));
        assert(s.subrange(0, q1)[p1] == s[p1]);
    }
}

proof fn lemma_full_split(s: Seq<char>, p1: int, p2: int, q1: int, q2: int)
    requires
        0 <= p1 < p2 < s.len(),
        s[p1] == '.',
        s[p2] == '.',
        forall|j: int| 0 <= j < p1 ==> s[j] != '.',
        forall|j: int| p1 < j < p2 ==> s[j] != '.',
        version_split_at(s, q1, q2),
    ensures
        q1 == p1,
        q2 == p2,
{
    lemma_forced_split(s, p1, q1, q2);
    if q2 < p2 {
        assert(s[q2] == '.');
    }
    if q2 > p2 {
        assert(is_digit(s.subrange(q1 + 1, q2)[p2 - q1 - 1]));
        assert(s.subrange(q1 + 1, q2)[p2 - q1 - 1] == s[p2]);
    }
}

/// At a valid split, the parsed value is the value that `version_str_val`
/// denotes.
proof fn lemma_version_split_val(s: Seq<char>, p1: int, p2: int)
    requires
        version_split_at(s, p1, p2),
    ensures
        version_str_val(s) == Version(
            numeral_val(s.subrange(0, p1)) as u16,
            numeral_val(s.subrange(p1 + 1, p2)) as u16,
            numeral_val(s.subrange(p2 + 1, s.len() as int)) as u16,
        ),
{
    let (q1, q2) = choose|q1: int, q2: int| version_split_at(s, q1, q2);
    assert forall|j: int| 0 <= j < p1 implies s[j] != '.' by {
        assert(is_digit(s.subrange(0, p1)[j]));
        assert(s.subrange(0, p1)[j] == s[j]);
    }
    assert forall|j: int| p1 < j < p2 implies s[j] != '.' by {
        assert(is_digit(s.subrange(p1 + 1, p2)[j - p1 - 1]));
        assert(s.subrange(p1 + 1, p2)[j - p1 - 1] == s[j]);
    }
    lemma_full_split(s, p1, p2, q1, q2);
}

/// Rendering a version and parsing the result gives the version back.
pub proof fn lemma_version_chars_round_trip(v: Version)
    ensures
        is_version_str(v.spec_chars()),
        version_str_val(v.spec_chars()) == v,
{
    let s = v.spec_chars();
    let a = dec_rep(v.0 as nat);
    let b = dec_rep(v.1 as nat);
    let c = dec_rep(v.2 as nat);
    lemma_dec_rep_u16(v.0 as nat);
    lemma_dec_rep_u16(v.1 as nat);
    lemma_dec_rep_u16(v.2 as nat);
    let p1 = a.len() as int;
    let p2 = p1 + 1 + b.len() as int;
    assert(s.subrange(0, p1) =~= a);
    assert(s.subrange(p1 + 1, p2) =~= b);
    assert(s.subrange(p2 + 1, s.len() as int) =~= c);
    assert(s[p1] == '.');
    assert(s[p2] == '.');
    assert(version_split_at(s, p1, p2));
    lemma_version_split_val(s, p1, p2);
    assert(numeral_val(a) == v.0 as nat);
    assert(numeral_val(b) == v.1 as nat);
    assert(numeral_val(c) == v.2 as nat);
}

/// Parsing a version string and rendering the result gives the string back.
pub proof fn lemma_version_str_canonical(s: Seq<char>)
    requires
        is_version_str(s),
    ensures
        version_str_val(s).spec_chars() == s,
{
    let (p1, p2) = choose|p1: int, p2: int| version_split_at(s, p1, p2);
    assert(version_split_at(s, p1, p2));
    lemma_version_split_val(s, p1, p2);
    let a = s.subrange(0, p1);
    let b = s.subrange(p1 + 1, p2);
    let c = s.subrange(p2 + 1, s.len() as int);
    lemma_numeral_canonical(a);
    lemma_numeral_canonical(b);
    lemma_numeral_canonical(c);
    let v = version_str_val(s);
    assert(v.0 as nat == numeral_val(a) && v.1 as nat == numeral_val(b) && v.2 as nat
        == numeral_val(c)) by {
        assert(numeral_val(a) <= 65535 && numeral_val(b) <= 65535 && numeral_val(c) <= 65535);
    }
    assert(v.spec_chars() =~= s);
}

impl Default for Version {
    /// The default version is the lowest version.
    fn default() -> (r: Version)
        ensures
            r == Version(0u16, 0u16, 0u16),
    {
        Version::lowest()
    }
}

impl VersionRange {
    /// The full range, from the lowest version to the highest.
    pub open spec fn spec_full() -> VersionRange {
        VersionRange { min: Version(0u16, 0u16, 0u16), max: Version(65535u16, 65535u16, 65535u16) }
    }

    /// Lexicographic order on the pair of ends.
    pub open spec fn spec_le(self, other: VersionRange) -> bool {
        ||| (self.min.spec_le(other.min) && self.min != other.min)
        ||| (self.min == other.min && self.max.spec_le(other.max))
    }

    /// The display rendering: `=X` for a degenerate range, `^X` for a range
    /// reaching the highest version, `X..Y` otherwise.
    pub open spec fn spec_display(self) -> Seq<char> {
        if self.min == self.max {
            seq!['='] + self.min.spec_display()
        } else if self.max.spec_is_highest() {
            seq!['^'] + self.min.spec_display()
        } else {
            self.min.spec_display() + seq!['.', '.'] + self.max.spec_display()
        }
    }

    pub fn latest() -> (r: VersionRange)
        ensures
            r == VersionRange::spec_full(),
    {
        VersionRange { min: Version::lowest(), max: Version::highest() }
    }

    pub fn le(&self, other: &VersionRange) -> (r: bool)
        ensures
            r == self.spec_le(*other),
    {
        (self.min.le(&other.min) && !(self.min == other.min)) || (self.min == other.min
            && self.max.le(&other.max))
    }

    /// Parses the span `[from, to)` of `s` under the range grammar: `any` and
    /// `latest` give the full range, `=X` the degenerate range at `X`, `<X`
    /// everything up to `X`, and `^X` or a bare `X` everything from `X` up.
    pub fn from_chars(s: &Vec<char>, from: usize, to: usize) -> (r: Result<
        VersionRange,
        PuffError,
    >)
        requires
            from <= to <= s@.len(),
        ensures
            r is Ok <==> range_of_str(s@.subrange(from as int, to as int)) is Some,
            r matches Ok(v) ==> range_of_str(s@.subrange(from as int, to as int)) == Some(v),
            r matches Err(e) ==> e == PuffError::InvalidVersion,
    {
        let ghost sub = s@.subrange(from as int, to as int);
        proof {
            reveal_strlit("any");
            reveal_strlit("latest");
            assert("any"@ =~= seq!['a', 'n', 'y']);
            assert("latest"@ =~= seq!['l', 'a', 't', 'e', 's', 't']);
        }
        if chars_eq(s, from, to, "any") || chars_eq(s, from, to, "latest") {
            return Ok(VersionRange::latest());
        }
        if from < to {
            let head = s[from];
            if head == '=' {
                proof {
                    assert(s@.subrange(from + 1, to as int) =~= sub.skip(1));
                }
                let v = Version::from_chars(s, from + 1, to)?;
                return Ok(VersionRange { min: v, max: v });
            }
            if head == '<' {
                proof {
                    assert(s@.subrange(from + 1, to as int) =~= sub.skip(1));
                }
                let v = Version::from_chars(s, from + 1, to)?;
                return Ok(VersionRange { min: Version::lowest(), max: v });
            }
            if head == '^' {
                proof {
                    assert(s@.subrange(from + 1, to as int) =~= sub.skip(1));
                }
                let v = Version::from_chars(s, from + 1, to)?;
                return Ok(VersionRange { min: v, max: Version::highest() });
            }
        }
        let v = Version::from_chars(s, from, to)?;
        Ok(VersionRange { min: v, max: Version::highest() })
    }

    pub fn from_str(s: &str) -> (r: Result<VersionRange, PuffError>)
        ensures
            r is Ok <==> range_of_str(s@) is Some,
            r matches Ok(v) ==> range_of_str(s@) == Some(v),
            r matches Err(e) ==> e == PuffError::InvalidVersion,
    {
        let chars = str_to_chars(s);
        let n = chars.len();
        let r = Self::from_chars(&chars, 0, n);
        proof {
            assert(chars@.subrange(0, n as int) =~= s@);
        }
        r
    }

    /// Appends the display rendering to `out`.
    pub fn push_display(&self, out: &mut Vec<char>)
        ensures
            final(out)@ == old(out)@ + self.spec_display(),
    {
        if self.min == self.max {
            out.push('=');
            self.min.push_display(out);
        } else if self.max.is_highest() {
            out.push('^');
            self.min.push_display(out);
        } else {
            self.min.push_display(out);
            out.push('.');
            out.push('.');
            self.max.push_display(out);
        }
        proof {
            assert(out@ =~= old(out)@ + self.spec_display());
        }
    }

    pub fn to_string(&self) -> (r: String)
        ensures
            r@ == self.spec_display(),
    {
        let mut out: Vec<char> = Vec::new();
        self.push_display(&mut out);
        chars_to_string(&out)
    }
}

impl Default for VersionRange {
    /// The default range is the full range.
    fn default() -> (r: VersionRange)
        ensures
            r == VersionRange::spec_full(),
    {
        VersionRange::latest()
    }
}

/// The meaning of a range string: the parsed range, or nothing where the
/// string does not follow the grammar.
pub open spec fn range_of_str(s: Seq<char>) -> Option<VersionRange> {
    if s == seq!['a', 'n', 'y'] || s == seq!['l', 'a', 't', 'e', 's', 't'] {
        Some(VersionRange::spec_full())
    } else if s.len() >= 1 && s[0] == '=' {
        if is_version_str(s.skip(1)) {
            let v = version_str_val(s.skip(1));
            Some(VersionRange { min: v, max: v })
        } else {
            None
        }
    } else if s.len() >= 1 && s[0] == '<' {
        if is_version_str(s.skip(1)) {
            Some(VersionRange { min: Version(0u16, 0u16, 0u16), max: version_str_val(s.skip(1)) })
        } else {
            None
        }
    } else if s.len() >= 1 && s[0] == '^' {
        if is_version_str(s.skip(1)) {
            Some(
                VersionRange {
                    min: version_str_val(s.skip(1)),
                    max: Version(65535u16, 65535u16, 65535u16),
                },
            )
        } else {
            None
        }
    } else {
        if is_version_str(s) {
            Some(VersionRange { min: version_str_val(s), max: Version(65535u16, 65535u16, 65535u16) })
        } else {
            None
        }
    }
}

} // verus!
