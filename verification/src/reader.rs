//! What the command that reads both neighbour tables prints, taken apart.
//!
//! The command prints the ARP table, then a line that holds the mark, then
//! the neighbour table.

use crate::device::DeviceView;
use crate::parser::{all_admitted, both_tables, filter_text, filter_to_chars, read_tables};
use crate::snapshot::Snapshot;
use crate::text::{chars_of, contains, copy_range, find, occurs_at};
use vstd::prelude::*;

verus! {

/// The mark that stands between the two tables.
pub const SPLIT_MARK: &'static str = "===SPLIT===";

/// The index at which `pattern` first stands in `text`, or the length of
/// `text` where it stands nowhere.
pub open spec fn first_index(text: Seq<char>, pattern: Seq<char>) -> int
    decreases text.len(),
{
    if text.len() == 0 || occurs_at(text, pattern, 0) {
        0
    } else {
        1 + first_index(text.skip(1), pattern)
    }
}

/// The two tables in what the command printed: what stands before the
/// first mark, and what stands behind it up to the next mark or to the end.
/// Without a mark there are no tables.
pub open spec fn table_blocks(output: Seq<char>) -> Option<(Seq<char>, Seq<char>)> {
    let at = first_index(output, SPLIT_MARK@);
    if occurs_at(output, SPLIT_MARK@, at) {
        let rest = output.skip(at + SPLIT_MARK@.len());
        Some((output.take(at), rest.take(first_index(rest, SPLIT_MARK@))))
    } else {
        None
    }
}

/// The devices that the command's output lists. A command that failed
/// lists none, and neither does output without a mark.
pub open spec fn output_devices(
    succeeded: bool,
    output: Seq<char>,
    filter: Option<Seq<char>>,
) -> Seq<DeviceView> {
    match table_blocks(output) {
        Some((arp, neigh)) if succeeded => both_tables(arp, neigh, filter),
        _ => Seq::empty(),
    }
}

/// `first_index` is the least index at which the pattern stands.
pub proof fn lemma_first_index(text: Seq<char>, pattern: Seq<char>)
    requires
        pattern.len() > 0,
    ensures
        0 <= first_index(text, pattern) <= text.len(),
        forall|j: int| 0 <= j < first_index(text, pattern) ==> !occurs_at(text, pattern, j),
        contains(text, pattern) <==> occurs_at(text, pattern, first_index(text, pattern)),
        first_index(text, pattern) == text.len() || occurs_at(
            text,
            pattern,
            first_index(text, pattern),
        ),
    decreases text.len(),
{
    if text.len() == 0 {
        assert forall|j: int| !occurs_at(text, pattern, j) by {}
    } else if occurs_at(text, pattern, 0) {
    } else {
        let rest = text.skip(1);
        lemma_first_index(rest, pattern);
        assert forall|j: int| occurs_at(rest, pattern, j) == occurs_at(text, pattern, j + 1) by {
            if 0 <= j && j + pattern.len() <= rest.len() {
                assert(rest.subrange(j, j + pattern.len()) == text.subrange(
                    j + 1,
                    j + 1 + pattern.len(),
                ));
            }
        }
        assert forall|j: int| 0 <= j < first_index(text, pattern) implies !occurs_at(
            text,
            pattern,
            j,
        ) by {
            if j > 0 {
                assert(occurs_at(rest, pattern, j - 1) == occurs_at(text, pattern, j));
            }
        }
        if contains(text, pattern) {
            let j = choose|j: int| occurs_at(text, pattern, j);
            assert(occurs_at(rest, pattern, j - 1) == occurs_at(text, pattern, j));
        }
        assert(occurs_at(rest, pattern, first_index(rest, pattern)) == occurs_at(
            text,
            pattern,
            first_index(rest, pattern) + 1,
        ));
    }
}

/// Where `pattern` first stands in `text`, or the length of `text`.
fn index_of(text: &Vec<char>, pattern: &Vec<char>) -> (at: usize)
    requires
        pattern.len() > 0,
    ensures
        at == first_index(text@, pattern@),
        at <= text.len(),
{
    proof {
        lemma_first_index(text@, pattern@);
    }
    match find(text, pattern) {
        Some(at) => {
            assert(at == first_index(text@, pattern@)) by {
                let first = first_index(text@, pattern@);
                assert(occurs_at(text@, pattern@, first));
            }
            at
        },
        None => text.len(),
    }
}

/// Takes apart what the command printed.
pub fn split_output(output: &Vec<char>) -> (blocks: Option<(Vec<char>, Vec<char>)>)
    ensures
        match blocks {
            Some((arp, neigh)) => table_blocks(output@) == Some((arp@, neigh@)),
            None => table_blocks(output@) is None,
        },
{
    let mark = chars_of(SPLIT_MARK);
    proof {
        reveal_strlit("===SPLIT===");
    }
    let at = index_of(output, &mark);
    proof {
        lemma_first_index(output@, mark@);
    }
    if at == output.len() {
        return None;
    }
    let arp = copy_range(output, 0, at);
    let rest = copy_range(output, at + mark.len(), output.len());
    assert(rest@ == output@.skip(at + mark@.len()));
    let end = index_of(&rest, &mark);
    let neigh = copy_range(&rest, 0, end);
    Some((arp, neigh))
}

/// The snapshot of one poll, from what the command printed and whether it
/// succeeded.
pub fn snapshot_from_output(
    succeeded: bool,
    output: &str,
    interface_filter: Option<&str>,
) -> (snapshot: Snapshot)
    ensures
        snapshot@ == output_devices(succeeded, output@, filter_text(interface_filter)),
        all_admitted(snapshot@, filter_text(interface_filter)),
{
    if !succeeded {
        return Snapshot::new();
    }
    match split_output(&chars_of(output)) {
        Some((arp, neigh)) => read_tables(&arp, &neigh, &filter_to_chars(interface_filter)),
        None => Snapshot::new(),
    }
}

} // verus!
