//! The operations of the internal control API on the list of registered mocks.
use vstd::prelude::*;
use vstd::string::*;
use crate::model::MockConfig;
use crate::text::{decimal, decimal_string, str_eq};

verus! {

/// An HTTP status code and a text body.
pub struct Reply {
    pub status: u16,
    pub body: String,
}

/// Registers a new mock after the existing ones.
pub fn set_mock(mocks: &mut Vec<MockConfig>, mock: MockConfig) -> (r: &'static str)
    ensures
        final(mocks)@ == old(mocks)@.push(mock),
        r@ == "Mock configured"@,
{
    mocks.push(mock);
    "Mock configured"
}

/// The message for a deletion index past the end of the list.
pub open spec fn index_out_of_range_message(index: nat, len: nat) -> Seq<char> {
    "Mock index "@ + decimal(index) + " out of range (have "@ + decimal(len) + ")"@
}

/// Deletes the mock at `index` (0-based); 404 when there is none.
pub fn delete_mock(mocks: &mut Vec<MockConfig>, index: usize) -> (r: Reply)
    ensures
        index < old(mocks)@.len() ==> final(mocks)@ == old(mocks)@.remove(index as int)
            && r.status == 200 && r.body@ == "Mock deleted"@,
        index >= old(mocks)@.len() ==> final(mocks)@ == old(mocks)@ && r.status == 404
            && r.body@ == index_out_of_range_message(index as nat, old(mocks)@.len()),
{
    let len = mocks.len();
    if index >= len {
        let body = String::from_str("Mock index ").concat(decimal_string(index).as_str()).concat(
            " out of range (have ",
        ).concat(decimal_string(len).as_str()).concat(")");
        return Reply { status: 404, body };
    }
    mocks.remove(index);
    Reply { status: 200, body: String::from_str("Mock deleted") }
}

/// Deletes every mock.
pub fn delete_all_mocks(mocks: &mut Vec<MockConfig>) -> (r: &'static str)
    ensures
        final(mocks)@ == Seq::<MockConfig>::empty(),
        r@ == "All mocks deleted"@,
{
    mocks.clear();
    "All mocks deleted"
}

/// The mocks whose path pattern differs from `pattern`, in their order.
pub open spec fn without_pattern(ms: Seq<MockConfig>, pattern: Seq<char>) -> Seq<MockConfig>
    decreases ms.len(),
{
    if ms.len() == 0 {
        Seq::empty()
    } else {
        let rest = without_pattern(ms.drop_last(), pattern);
        if ms.last().path_pattern@ == pattern {
            rest
        } else {
            rest.push(ms.last())
        }
    }
}

/// The message for a deletion by pattern that removes at least one mock.
pub open spec fn removed_message(removed: nat) -> Seq<char> {
    decimal(removed) + " mock(s) deleted"@
}

/// The message for a deletion by pattern that removes nothing.
pub open spec fn pattern_not_found_message(pattern: Seq<char>) -> Seq<char> {
    "No mocks found with path pattern '"@ + pattern + "'"@
}

proof fn lemma_without_pattern_len(ms: Seq<MockConfig>, pattern: Seq<char>)
    ensures
        without_pattern(ms, pattern).len() <= ms.len(),
    decreases ms.len(),
{
    if ms.len() > 0 {
        lemma_without_pattern_len(ms.drop_last(), pattern);
    }
}

/// Deletes every mock whose path pattern equals `path_pattern`; 404 when
/// there is none, otherwise the number deleted.
pub fn delete_mocks_by_pattern(mocks: &mut Vec<MockConfig>, path_pattern: &str) -> (r: Reply)
    ensures
        final(mocks)@ == without_pattern(old(mocks)@, path_pattern@),
        final(mocks)@.len() == old(mocks)@.len() ==> r.status == 404 && r.body@
            == pattern_not_found_message(path_pattern@),
        final(mocks)@.len() < old(mocks)@.len() ==> r.status == 200 && r.body@ == removed_message(
            (old(mocks)@.len() - final(mocks)@.len()) as nat,
        ),
{
    let before = mocks.len();
    let ghost orig = mocks@;
    let mut rest: Vec<MockConfig> = Vec::new();
    std::mem::swap(mocks, &mut rest);
    let mut k: usize = 0;
    assert(orig.take(0) =~= Seq::<MockConfig>::empty());
    assert(orig.skip(0) =~= orig);
    while rest.len() > 0
        invariant
            k + rest@.len() == orig.len(),
            before == orig.len(),
            rest@ == orig.skip(k as int),
            mocks@ == without_pattern(orig.take(k as int), path_pattern@),
        decreases rest@.len(),
    {
        let m = rest.remove(0);
        assert(m == orig[k as int]);
        assert(rest@ =~= orig.skip(k + 1));
        assert(orig.take(k + 1).drop_last() =~= orig.take(k as int));
        assert(orig.take(k + 1).last() == m);
        if !str_eq(m.path_pattern.as_str(), path_pattern) {
            mocks.push(m);
        }
        k = k + 1;
    }
    assert(orig.take(k as int) =~= orig);
    proof {
        lemma_without_pattern_len(orig, path_pattern@);
    }
    let removed = before - mocks.len();
    if removed == 0 {
        let body = String::from_str("No mocks found with path pattern '").concat(
            path_pattern,
        ).concat("'");
        Reply { status: 404, body }
    } else {
        let body = decimal_string(removed).concat(" mock(s) deleted");
        Reply { status: 200, body }
    }
}

/// Law: after a deletion by pattern no remaining mock has that pattern, and
/// every mock with another pattern remains.
pub proof fn law_delete_by_pattern_exact(ms: Seq<MockConfig>, pattern: Seq<char>)
    ensures
        forall|i: int|
            0 <= i < without_pattern(ms, pattern).len() ==> (#[trigger] without_pattern(
                ms,
                pattern,
            )[i]).path_pattern@ != pattern,
        forall|i: int|
            0 <= i < ms.len() && (#[trigger] ms[i]).path_pattern@ != pattern ==> without_pattern(
                ms,
                pattern,
            ).contains(ms[i]),
    decreases ms.len(),
{
    if ms.len() > 0 {
        law_delete_by_pattern_exact(ms.drop_last(), pattern);
        let rest = without_pattern(ms.drop_last(), pattern);
        assert forall|i: int|
            0 <= i < ms.len() && (#[trigger] ms[i]).path_pattern@ != pattern implies without_pattern(
            ms,
            pattern,
        ).contains(ms[i]) by {
            if i < ms.len() - 1 {
                assert(ms.drop_last()[i] == ms[i]);
                assert(rest.contains(ms[i]));
                let j = choose|j: int| 0 <= j < rest.len() && rest[j] == ms[i];
                assert(without_pattern(ms, pattern)[j] == ms[i]);
            } else {
                assert(without_pattern(ms, pattern).last() == ms[i]);
            }
        }
    }
}

} // verus!
