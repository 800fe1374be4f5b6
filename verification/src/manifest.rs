use vstd::prelude::*;

use crate::distribution::{distribution_of_str, Distribution};
use crate::error::PuffError;
use crate::text::{chars_to_string, first_pos, lemma_first_pos_at, str_to_chars};
use crate::version::{range_of_str, VersionRange};

verus! {

/// One declared need: the acceptable version range and the wanted
/// distribution.
#[derive(Debug, Clone, Copy, PartialEq, Eq, Structural, Hash)]
pub struct ManifestDependencyData {
    pub version: VersionRange,
    pub distribution: Distribution,
}

/// The meaning of a need string `range[@distribution]`: without the `@` part
/// the distribution defaults to shared linkage.
pub open spec fn mdd_of_str(s: Seq<char>) -> Option<ManifestDependencyData> {
    let i = first_pos(s, '@');
    if i == s.len() {
        match range_of_str(s) {
            Some(v) => Some(
                ManifestDependencyData { version: v, distribution: Distribution::Shared },
            ),
            None => None,
        }
    } else {
        match (range_of_str(s.subrange(0, i as int)), distribution_of_str(s.skip(i + 1 as int))) {
            (Some(v), Some(d)) => Some(ManifestDependencyData { version: v, distribution: d }),
            _ => None,
        }
    }
}

impl ManifestDependencyData {
    /// Parses a need string `range[@distribution]`.
    pub fn from_str(s: &str) -> (r: Result<ManifestDependencyData, PuffError>)
        ensures
            r is Ok <==> mdd_of_str(s@) is Some,
            r matches Ok(d) ==> mdd_of_str(s@) == Some(d),
            r matches Err(e) ==> e == PuffError::InvalidVersion || e
                == PuffError::UnknownDistribution,
    {
        let v = str_to_chars(s);
        let n = v.len();
        proof {
            assert(v@.subrange(0, n as int) =~= s@);
        }
        let mut i: usize = 0;
        while i < n && v[i] != '@'
            invariant
                0 <= i <= n,
                n == v@.len(),
                forall|m: int| 0 <= m < i ==> v@[m] != '@',
            decreases n - i,
        {
            i += 1;
        }
        proof {
            lemma_first_pos_at(s@, '@', i as int);
        }
        if i == n {
            let version = VersionRange::from_chars(&v, 0, n)?;
            Ok(ManifestDependencyData { version, distribution: Distribution::Shared })
        } else {
            proof {
                assert(v@.subrange(0, i as int) =~= s@.subrange(0, i as int));
            }
            let version = VersionRange::from_chars(&v, 0, i)?;
            let mut rest: Vec<char> = Vec::new();
            let mut k = i + 1;
            while k < n
                invariant
                    i + 1 <= k <= n,
                    n == v@.len(),
                    rest@ == v@.subrange(i + 1, k as int),
                decreases n - k,
            {
                rest.push(v[k]);
                proof {
                    assert(rest@ =~= v@.subrange(i + 1, k + 1));
                }
                k += 1;
            }
            proof {
                assert(rest@ =~= s@.skip(i + 1));
            }
            let rest_str = chars_to_string(&rest);
            match Distribution::from_str(rest_str.as_str()) {
                Ok(distribution) => Ok(ManifestDependencyData { version, distribution }),
                Err(e) => Err(e),
            }
        }
    }

    /// The display form `range@distribution`.
    pub fn to_string(&self) -> (r: String)
        ensures
            r@ == self.version.spec_display() + "@"@ + self.distribution.spec_str(),
    {
        let mut out: Vec<char> = Vec::new();
        self.version.push_display(&mut out);
        out.push('@');
        self.distribution.push_token(&mut out);
        proof {
            reveal_strlit("@");
            assert("@"@ =~= seq!['@']);
            assert(out@ =~= self.version.spec_display() + "@"@ + self.distribution.spec_str());
        }
        chars_to_string(&out)
    }
}

/// A package's own identity, as its manifest declares it.
#[derive(Debug)]
pub struct ManifestSectionThis {
    pub name: String,
    pub version: VersionRange,
    pub description: Option<String>,
    pub authors: Option<Vec<String>>,
    pub license: Option<String>,
}

/// A package's declared identity and dependency ranges, with the syntax
/// already stripped away: needs and build requisites are kept in declaration
/// order under unique names.
#[derive(Debug)]
pub struct Manifest {
    pub this: ManifestSectionThis,
    pub needs: Option<Vec<(String, ManifestDependencyData)>>,
    pub build: Option<Vec<(String, VersionRange)>>,
}

} // verus!
