//! Resolving a column selector — a regular expression — to exactly one
//! column index, by searching every header.
use vstd::prelude::*;
use crate::errors::CalcError;

verus! {

/// Whether `pattern` is a regular expression that the regex engine
/// accepts: what `regex::Regex::new` decides from the pattern text alone.
pub uninterp spec fn regex_ok(pattern: Seq<char>) -> bool;

/// Whether the regular expression `pattern` matches anywhere inside
/// `text` (search, not full-string match): what `regex::Regex::is_match`
/// computes, a function of the two texts alone.
pub uninterp spec fn re_match(pattern: Seq<char>, text: Seq<char>) -> bool;

#[verifier::external_type_specification]
#[verifier::external_body]
pub struct ExRegexError(regex::Error);

/// Relies on `regex::Regex::new` and `regex::Regex::is_match`: compiling
/// succeeds or fails on the pattern text alone, and a compiled pattern
/// matches a haystack as a function of pattern and haystack text alone.
#[verifier::external_body]
fn regex_search(pattern: &str, text: &str) -> (r: Result<bool, regex::Error>)
    ensures
        r is Ok <==> regex_ok(pattern@),
        r matches Ok(b) ==> b == re_match(pattern@, text@),
{
    match regex::Regex::new(pattern) {
        Ok(re) => Ok(re.is_match(text)),
        Err(e) => Err(e),
    }
}

/// Relies on `regex::Error`'s `Display` impl for the diagnostic text of
/// an invalid pattern.
#[verifier::external_body]
fn regex_error_message(e: &regex::Error) -> String {
    format!("{}", e)
}

/// The selector matches the header at position `i`.
pub open spec fn col_match(headers: Seq<Seq<char>>, p: Seq<char>, i: int) -> bool {
    0 <= i < headers.len() && re_match(p, headers[i])
}

/// The selector matches the header at position `i` and no other.
pub open spec fn unique_col_match(headers: Seq<Seq<char>>, p: Seq<char>, i: int) -> bool {
    col_match(headers, p, i) && (forall|j: int| #[trigger] col_match(headers, p, j) ==> j == i)
}

/// The selector matches at least one header.
pub open spec fn any_col_match(headers: Seq<Seq<char>>, p: Seq<char>) -> bool {
    exists|i: int| col_match(headers, p, i)
}

/// The selector matches two or more headers.
pub open spec fn ambiguous_col_match(headers: Seq<Seq<char>>, p: Seq<char>) -> bool {
    exists|i: int, j: int|
        i != j && #[trigger] col_match(headers, p, i) && #[trigger] col_match(headers, p, j)
}

/// The selector compiles and singles out exactly one column.
pub open spec fn resolves(headers: Seq<Seq<char>>, p: Seq<char>) -> bool {
    regex_ok(p) && (exists|i: int| unique_col_match(headers, p, i))
}

/// `cands` lists, in increasing column order, exactly the headers that
/// the selector matches, each with its index.
pub open spec fn lists_matches(
    cands: Seq<(usize, String)>,
    headers: Seq<Seq<char>>,
    p: Seq<char>,
) -> bool {
    &&& forall|j: int|
        0 <= j < cands.len() ==> col_match(headers, p, (#[trigger] cands[j]).0 as int)
            && cands[j].1@ == headers[cands[j].0 as int]
    &&& forall|j1: int, j2: int|
        0 <= j1 < j2 < cands.len() ==> (#[trigger] cands[j1]).0 < (#[trigger] cands[j2]).0
    &&& forall|i: int|
        #[trigger] col_match(headers, p, i) ==> exists|j: int|
            0 <= j < cands.len() && (#[trigger] cands[j]).0 == i
}

/// Resolves a column selector against the headers: the pattern must
/// compile and match exactly one header, whose index is returned. Zero
/// matches, several matches and an invalid pattern each fail with the
/// error that names the selector (and, for several matches, every
/// matching column).
pub fn column_index(column_header: &Vec<String>, pattern: &str) -> (r: Result<usize, CalcError>)
    ensures
        r is Ok <==> resolves(column_header.deep_view(), pattern@),
        r matches Ok(i) ==> unique_col_match(column_header.deep_view(), pattern@, i as int),
        !regex_ok(pattern@) ==> (r matches Err(CalcError::InvalidPattern { pattern: p, message })
            && p@ == pattern@),
        regex_ok(pattern@) && !any_col_match(column_header.deep_view(), pattern@) ==> (r matches Err(
            CalcError::ColumnNotFound { pattern: p },
        ) && p@ == pattern@),
        regex_ok(pattern@) && ambiguous_col_match(column_header.deep_view(), pattern@) ==> (r
            matches Err(CalcError::AmbiguousColumn { pattern: p, candidates }) && p@ == pattern@
            && candidates@.len() >= 2 && lists_matches(
            candidates@,
            column_header.deep_view(),
            pattern@,
        )),
{
    let ghost hv = column_header.deep_view();
    // compile check up front, so an invalid selector fails the same way
    // whether or not there is any header to search
    match regex_search(pattern, "") {
        Err(e) => {
            let msg = regex_error_message(&e);
            return Err(CalcError::InvalidPattern { pattern: pattern.to_owned(), message: msg });
        },
        Ok(_) => {},
    }
    let mut cands: Vec<(usize, String)> = Vec::new();
    let mut i: usize = 0;
    while i < column_header.len()
        invariant
            regex_ok(pattern@),
            hv == column_header.deep_view(),
            i <= column_header.len(),
            forall|j: int|
                0 <= j < cands@.len() ==> col_match(hv, pattern@, (#[trigger] cands@[j]).0 as int)
                    && cands@[j].1@ == hv[cands@[j].0 as int] && cands@[j].0 < i,
            forall|j1: int, j2: int|
                0 <= j1 < j2 < cands@.len() ==> (#[trigger] cands@[j1]).0 < (
                #[trigger] cands@[j2]).0,
            forall|p2: int|
                0 <= p2 < i && #[trigger] re_match(pattern@, hv[p2]) ==> exists|j: int|
                    0 <= j < cands@.len() && (#[trigger] cands@[j]).0 == p2,
        decreases column_header.len() - i,
    {
        let ghost cands0 = cands@;
        let h = &column_header[i];
        let m = match regex_search(pattern, h.as_str()) {
            Ok(b) => b,
            Err(_) => {
                proof {
                    assert(false);
                }
                unreached()
            },
        };
        proof {
            assert(hv[i as int] == column_header@[i as int]@);
        }
        if m {
            cands.push((i, h.clone()));
        }
        proof {
            assert forall|p2: int|
                0 <= p2 < i + 1 && #[trigger] re_match(pattern@, hv[p2]) implies exists|j: int|
                0 <= j < cands@.len() && (#[trigger] cands@[j]).0 == p2 by {
                if p2 < i {
                    let j = choose|j: int|
                        0 <= j < cands0.len() && (#[trigger] cands0[j]).0 == p2;
                    assert(cands@[j] == cands0[j]);
                    assert(0 <= j < cands@.len() && (cands@[j]).0 == p2);
                } else {
                    assert(m);
                    assert((cands@[cands@.len() - 1]).0 == i);
                }
            }
        }
        i += 1;
    }
    if cands.len() == 0 {
        proof {
            assert forall|w: int| !col_match(hv, pattern@, w) by {
                if col_match(hv, pattern@, w) {
                    assert(re_match(pattern@, hv[w]));
                    assert(exists|j: int| 0 <= j < cands@.len() && (#[trigger] cands@[j]).0 == w);
                }
            }
            assert(!any_col_match(hv, pattern@));
            assert forall|w: int| !unique_col_match(hv, pattern@, w) by {
                if unique_col_match(hv, pattern@, w) {
                    assert(col_match(hv, pattern@, w));
                }
            }
        }
        Err(CalcError::ColumnNotFound { pattern: pattern.to_owned() })
    } else if cands.len() == 1 {
        let idx = cands[0].0;
        proof {
            assert(col_match(hv, pattern@, idx as int));
            assert forall|j: int| #[trigger] col_match(hv, pattern@, j) implies j == idx as int by {
                assert(re_match(pattern@, hv[j]));
                assert(exists|jj: int| 0 <= jj < cands@.len() && (#[trigger] cands@[jj]).0 == j);
                let jj = choose|jj: int| 0 <= jj < cands@.len() && (#[trigger] cands@[jj]).0 == j;
                assert(jj == 0);
            }
            assert(unique_col_match(hv, pattern@, idx as int));
        }
        Ok(idx)
    } else {
        proof {
            let c0 = cands@[0].0 as int;
            let c1 = cands@[1].0 as int;
            assert(col_match(hv, pattern@, c0));
            assert(col_match(hv, pattern@, c1));
            assert(cands@[0].0 < cands@[1].0);
            assert(ambiguous_col_match(hv, pattern@));
            assert forall|w: int| !unique_col_match(hv, pattern@, w) by {
                if unique_col_match(hv, pattern@, w) {
                    assert(col_match(hv, pattern@, c0));
                    assert(col_match(hv, pattern@, c1));
                    assert(c0 == w && c1 == w);
                }
            }
            assert(lists_matches(cands@, hv, pattern@));
        }
        Err(CalcError::AmbiguousColumn { pattern: pattern.to_owned(), candidates: cands })
    }
}

} // verus!
