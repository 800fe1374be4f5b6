use vstd::prelude::*;

use crate::dependency::{Dependency, DepView};
use crate::error::PuffError;
use crate::text::{chars_eq, chars_to_string, dec_rep, push_dec, push_str_chars, str_to_chars};

verus! {

/// The index of the first closing brace of `p`, or `p.len()` when there is
/// none.
pub open spec fn first_close(p: Seq<char>) -> nat
    decreases p.len(),
{
    if p.len() == 0 {
        0
    } else if p[0] == '}' {
        0
    } else {
        1 + first_close(p.skip(1))
    }
}

proof fn lemma_first_close_bounds(p: Seq<char>)
    ensures
        first_close(p) <= p.len(),
        first_close(p) < p.len() ==> p[first_close(p) as int] == '}',
        forall|m: int| 0 <= m < first_close(p) ==> p[m] != '}',
    decreases p.len(),
{
    if p.len() != 0 && p[0] != '}' {
        lemma_first_close_bounds(p.skip(1));
        assert forall|m: int| 0 <= m < first_close(p) implies p[m] != '}' by {
            if m > 0 {
                assert(p.skip(1)[m - 1] == p[m]);
            }
        }
        if first_close(p) < p.len() {
            assert(p.skip(1)[first_close(p) - 1] == p[first_close(p) as int]);
        }
    }
}

/// A scan that stops at position `k` on a closing brace, having seen none
/// before, has found the first closing brace.
proof fn lemma_first_close_at(p: Seq<char>, k: int)
    requires
        0 <= k <= p.len(),
        forall|m: int| 0 <= m < k ==> p[m] != '}',
        k < p.len() ==> p[k] == '}',
    ensures
        first_close(p) == k,
    decreases k,
{
    if k == 0 {
        if p.len() > 0 && p[0] != '}' {
            lemma_first_close_bounds(p);
        }
    } else {
        assert forall|m: int| 0 <= m < k - 1 implies p.skip(1)[m] != '}' by {
            assert(p.skip(1)[m] == p[m + 1]);
        }
        assert(k - 1 < p.skip(1).len() ==> p.skip(1)[k - 1] == p[k]);
        lemma_first_close_at(p.skip(1), k - 1);
    }
}

/// The value that a placeholder key denotes for a dependency, drawn from the
/// dependency's lower version bound.
pub open spec fn placeholder_val(key: Seq<char>, d: DepView) -> Option<Seq<char>> {
    if key == "name"@ {
        Some(d.name)
    } else if key == "major"@ {
        Some(dec_rep(d.version.min.0 as nat))
    } else if key == "minor"@ {
        Some(dec_rep(d.version.min.1 as nat))
    } else if key == "patch"@ {
        Some(dec_rep(d.version.min.2 as nat))
    } else if key == "arch"@ {
        Some(d.arch.spec_str())
    } else if key == "platform"@ {
        Some(d.os.spec_str())
    } else if key == "dist"@ {
        Some(d.distribution.spec_str())
    } else {
        None
    }
}

/// The result of substituting every `{placeholder}` of the pattern, or
/// nothing where the pattern holds an unmatched brace or an unknown key.
pub open spec fn subst_url(p: Seq<char>, d: DepView) -> Option<Seq<char>>
    decreases p.len(),
{
    if p.len() == 0 {
        Some(Seq::empty())
    } else if p[0] == '}' {
        None
    } else if p[0] == '{' {
        let rest = p.skip(1);
        let j = first_close(rest);
        if j >= rest.len() {
            None
        } else {
            let key = rest.subrange(0, j as int);
            let tail = rest.skip(j + 1 as int);
            match placeholder_val(key, d) {
                None => None,
                Some(val) => match subst_url(tail, d) {
                    None => None,
                    Some(out) => Some(val + out),
                },
            }
        }
    } else {
        match subst_url(p.skip(1), d) {
            None => None,
            Some(out) => Some(seq![p[0]] + out),
        }
    }
}

/// Builds a URL from a pattern, substituting the placeholders `{name}`,
/// `{major}`, `{minor}`, `{patch}`, `{arch}`, `{platform}` and `{dist}` with
/// the dependency's fields.
pub fn format_url(pattern: &str, d: &Dependency) -> (r: Result<String, PuffError>)
    ensures
        r is Ok <==> subst_url(pattern@, d@) is Some,
        r matches Ok(u) ==> Some(u@) == subst_url(pattern@, d@),
        r matches Err(e) ==> e == PuffError::UrlFormatError,
{
    let p = str_to_chars(pattern);
    let n = p.len();
    let mut out: Vec<char> = Vec::new();
    let mut i: usize = 0;
    proof {
        assert(p@.skip(0) =~= p@);
        assert(p@ == pattern@);
    }
    while i < n
        invariant
            i <= n,
            n == p@.len(),
            p@ == pattern@,
            match subst_url(p@.skip(i as int), d@) {
                Some(rest) => subst_url(p@, d@) == Some(out@ + rest),
                None => subst_url(p@, d@) is None,
            },
        decreases n - i,
    {
        let ghost cur = p@.skip(i as int);
        proof {
            assert(cur[0] == p@[i as int]);
            assert(cur.skip(1) =~= p@.skip(i + 1));
        }
        let c = p[i];
        if c == '}' {
            return Err(PuffError::UrlFormatError);
        }
        if c == '{' {
            let mut j = i + 1;
            while j < n && p[j] != '}'
                invariant
                    i + 1 <= j <= n,
                    n == p@.len(),
                    forall|m: int| i + 1 <= m < j ==> p@[m] != '}',
                decreases n - j,
            {
                j += 1;
            }
            let ghost rest = p@.skip(i + 1);
            proof {
                assert forall|m: int| 0 <= m < j - i - 1 implies rest[m] != '}' by {
                    assert(rest[m] == p@[m + i + 1]);
                }
                if j < n {
                    assert(rest[j - i - 1] == p@[j as int]);
                }
                lemma_first_close_at(rest, j - i - 1);
            }
            if j == n {
                return Err(PuffError::UrlFormatError);
            }
            proof {
                assert(rest.subrange(0, j - i - 1) =~= p@.subrange(i + 1, j as int));
                assert(rest.skip(j - i - 1 + 1) =~= p@.skip(j + 1));
            }
            let ghost key = p@.subrange(i + 1, j as int);
            let ghost out0 = out@;
            if chars_eq(&p, i + 1, j, "name") {
                push_str_chars(&mut out, d.name.as_str());
            } else if chars_eq(&p, i + 1, j, "major") {
                push_dec(d.version.min.0, &mut out);
            } else if chars_eq(&p, i + 1, j, "minor") {
                push_dec(d.version.min.1, &mut out);
            } else if chars_eq(&p, i + 1, j, "patch") {
                push_dec(d.version.min.2, &mut out);
            } else if chars_eq(&p, i + 1, j, "arch") {
                d.arch.push_token(&mut out);
            } else if chars_eq(&p, i + 1, j, "platform") {
                d.os.push_token(&mut out);
            } else if chars_eq(&p, i + 1, j, "dist") {
                d.distribution.push_token(&mut out);
            } else {
                proof {
                    assert(placeholder_val(key, d@) is None);
                    assert(subst_url(cur, d@) is None);
                }
                return Err(PuffError::UrlFormatError);
            }
            proof {
                let val = placeholder_val(key, d@)->0;
                assert(out@ == out0 + val);
                match subst_url(p@.skip(j + 1), d@) {
                    Some(r2) => {
                        assert(subst_url(cur, d@) == Some(val + r2));
                        assert(out0 + (val + r2) =~= out@ + r2);
                    },
                    None => {
                        assert(subst_url(cur, d@) is None);
                    },
                }
            }
            i = j + 1;
        } else {
            let ghost out0 = out@;
            out.push(c);
            proof {
                match subst_url(p@.skip(i + 1), d@) {
                    Some(r2) => {
                        assert(subst_url(cur, d@) == Some(seq![cur[0]] + r2));
                        assert(out0 + (seq![cur[0]] + r2) =~= out@ + r2);
                    },
                    None => {},
                }
            }
            i += 1;
        }
    }
    proof {
        assert(p@.skip(n as int) =~= Seq::<char>::empty());
        assert(subst_url(Seq::<char>::empty(), d@) == Some(Seq::<char>::empty()));
        assert(out@ + Seq::<char>::empty() =~= out@);
    }
    Ok(chars_to_string(&out))
}

} // verus!
