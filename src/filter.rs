//! Narrowing a list of paths by a literal substring.
use vstd::prelude::*;

verus! {

/// `p` occurs in `s` as a run of consecutive characters; the empty pattern
/// occurs in every string.
pub open spec fn has_substring(s: Seq<char>, p: Seq<char>) -> bool {
    exists|i: int| 0 <= i && i + p.len() <= s.len() && #[trigger] s.subrange(i, i + p.len()) == p
}

/// Relies on str::contains with a `&str` pattern: true exactly when the
/// pattern occurs in the text.
#[verifier::external_body]
fn text_contains(text: &str, pattern: &str) -> (r: bool)
    ensures
        r == has_substring(text@, pattern@),
{
    text.contains(pattern)
}

/// The paths that hold `pattern`, in order.
pub open spec fn matching(files: Seq<String>, pattern: Seq<char>) -> Seq<String> {
    files.filter(|f: String| has_substring(f@, pattern))
}

/// Keeps the paths that contain `pattern`, in their order; the empty pattern
/// keeps them all.
pub fn find(files: Vec<String>, pattern: &str) -> (r: Vec<String>)
    ensures
        r@ == matching(files@, pattern@),
        pattern@.len() == 0 ==> r@ == files@,
{
    let mut matches: Vec<String> = Vec::new();
    let n = files.len();
    let mut i: usize = 0;
    while i < n
        invariant
            n == files@.len(),
            i <= n,
            matches@ == matching(files@.take(i as int), pattern@),
        decreases n - i,
    {
        let file = &files[i];
        assert(files@.take(i as int + 1).drop_last() =~= files@.take(i as int));
        if text_contains(file.as_str(), pattern) {
            matches.push(file.clone());
        }
        proof {
            reveal(Seq::filter);
        }
        i = i + 1;
    }
    assert(files@.take(n as int) =~= files@);
    proof {
        if pattern@.len() == 0 {
            assert forall|k: int| 0 <= k < files@.len() implies has_substring(
                files@[k]@,
                pattern@,
            ) by {
                assert(files@[k]@.subrange(0, 0 + pattern@.len() as int) =~= pattern@);
            }
            assert(matches@ =~= files@) by {
                lemma_filter_all(files@, |f: String| has_substring(f@, pattern@));
            }
        }
    }
    matches
}

proof fn lemma_filter_all(s: Seq<String>, pred: spec_fn(String) -> bool)
    requires
        forall|k: int| 0 <= k < s.len() ==> pred(#[trigger] s[k]),
    ensures
        s.filter(pred) == s,
    decreases s.len(),
{
    reveal(Seq::filter);
    if s.len() > 0 {
        lemma_filter_all(s.drop_last(), pred);
        assert(s.drop_last().push(s.last()) =~= s);
    } else {
        assert(s.filter(pred) =~= s);
    }
}

/// The paths of a session as the report shows them: all of them, unchanged.
pub fn filter_session_matched(matches: Vec<String>) -> (r: Vec<String>)
    ensures
        r@ == matches@,
{
    matches
}

} // verus!
