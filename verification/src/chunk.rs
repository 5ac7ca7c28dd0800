use crate::wire::{entry_views, Entry, EntryView};
use crate::MAX_BATCH_SIZE;
use vstd::prelude::*;

verus! {

/// The size of group `g` when `n` entries are chunked: every group is full
/// except possibly the last.
pub open spec fn group_size(n: int, g: int) -> int {
    if n - g * (MAX_BATCH_SIZE as int) >= MAX_BATCH_SIZE as int {
        MAX_BATCH_SIZE as int
    } else {
        n - g * (MAX_BATCH_SIZE as int)
    }
}

/// `groups` is exactly the partition of `s` into consecutive runs of
/// `MAX_BATCH_SIZE` entries, in order, the last run possibly shorter.
pub open spec fn chunked(s: Seq<EntryView>, groups: Seq<Seq<EntryView>>) -> bool {
    &&& (groups.len() == 0 <==> s.len() == 0)
    &&& s.len() <= groups.len() * (MAX_BATCH_SIZE as int)
    &&& s.len() > (groups.len() - 1) * (MAX_BATCH_SIZE as int)
    &&& forall|g: int|
        0 <= g < groups.len() ==> (#[trigger] groups[g]).len() == group_size(s.len() as int, g)
    &&& forall|g: int, j: int|
        0 <= g < groups.len() && 0 <= j < groups[g].len() ==> #[trigger] groups[g][j] == s[g
            * (MAX_BATCH_SIZE as int) + j]
}

/// The views of a sequence of groups.
pub open spec fn group_views(gs: Seq<Vec<Entry>>) -> Seq<Seq<EntryView>> {
    gs.map_values(|g: Vec<Entry>| entry_views(g@))
}

/// Splits the ordered entries into groups no larger than the store's hard
/// per-call ceiling, preserving order within and across groups; the last
/// group may be smaller; an empty input yields zero groups.
pub fn chunk(entries: &Vec<Entry>) -> (groups: Vec<Vec<Entry>>)
    ensures
        chunked(entry_views(entries@), group_views(groups@)),
{
    let ghost s = entry_views(entries@);
    let mut groups: Vec<Vec<Entry>> = Vec::new();
    let mut i: usize = 0;
    while i < entries.len()
        invariant
            i <= entries.len(),
            i < entries.len() ==> i == groups@.len() * (MAX_BATCH_SIZE as int),
            s == entry_views(entries@),
            chunked(s.take(i as int), group_views(groups@)),
        decreases entries.len() - i,
    {
        proof {
            assert(i == groups@.len() * (MAX_BATCH_SIZE as int));
        }
        let width: usize = if entries.len() - i >= MAX_BATCH_SIZE {
            MAX_BATCH_SIZE
        } else {
            entries.len() - i
        };
        let mut group: Vec<Entry> = Vec::new();
        let mut k: usize = 0;
        while k < width
            invariant
                k <= width,
                1 <= width <= MAX_BATCH_SIZE,
                i + width <= entries.len(),
                group@.len() == k as int,
                s == entry_views(entries@),
                forall|j: int| 0 <= j < k ==> (#[trigger] group@[j])@ == s[i + j],
            decreases width - k,
        {
            group.push(entries[i + k].duplicate());
            k += 1;
        }
        let ghost old_groups = group_views(groups@);
        groups.push(group);
        i += width;
        proof {
            let gv = group_views(groups@);
            assert(gv =~= old_groups.push(entry_views(group@)));
            assert forall|g: int| 0 <= g < gv.len() implies (#[trigger] gv[g]).len() == group_size(
                i as int,
                g,
            ) by {
                if g < gv.len() - 1 {
                    assert(old_groups[g].len() == group_size((i - width) as int, g));
                }
            }
            assert forall|g: int, j: int|
                0 <= g < gv.len() && 0 <= j < gv[g].len() implies #[trigger] gv[g][j] == s.take(
                i as int,
            )[g * (MAX_BATCH_SIZE as int) + j] by {
                if g < gv.len() - 1 {
                    assert(old_groups[g][j] == s.take((i - width) as int)[g * (
                    MAX_BATCH_SIZE as int) + j]);
                }
            }
        }
    }
    proof {
        assert(s.take(i as int) =~= s);
    }
    groups
}

/// The number of groups that chunking `n` entries produces.
pub open spec fn group_count(n: int) -> int {
    if n == 0 {
        0
    } else {
        (n - 1) / (MAX_BATCH_SIZE as int) + 1
    }
}

/// The partition of `s` into consecutive runs of `MAX_BATCH_SIZE`, as a
/// function of the input alone.
pub open spec fn chunk_spec(s: Seq<EntryView>) -> Seq<Seq<EntryView>> {
    Seq::new(
        group_count(s.len() as int) as nat,
        |g: int|
            Seq::new(
                group_size(s.len() as int, g) as nat,
                |j: int| s[g * (MAX_BATCH_SIZE as int) + j],
            ),
    )
}

/// `chunk_spec` is the partition `chunked` describes.
pub proof fn lemma_chunk_spec_chunked(s: Seq<EntryView>)
    ensures
        chunked(s, chunk_spec(s)),
{
    let b = MAX_BATCH_SIZE as int;
    let n = s.len() as int;
    let gc = group_count(n);
    if n > 0 {
        assert(b * ((n - 1) / b) + ((n - 1) % b) == n - 1) by {
            vstd::arithmetic::div_mod::lemma_fundamental_div_mod(n - 1, b);
        }
        assert(0 <= (n - 1) % b < b) by {
            vstd::arithmetic::div_mod::lemma_mod_bound(n - 1, b);
        }
        assert(n <= gc * b);
        assert(n > (gc - 1) * b);
    }
    assert forall|g: int| 0 <= g < gc implies (#[trigger] chunk_spec(s)[g]).len() == group_size(
        n,
        g,
    ) by {
        assert(group_size(n, g) >= 0);
    }
}

/// Chunking is deterministic: any partition satisfying `chunked` is
/// `chunk_spec` of the input.
pub proof fn lemma_chunked_unique(s: Seq<EntryView>, groups: Seq<Seq<EntryView>>)
    requires
        chunked(s, groups),
    ensures
        groups == chunk_spec(s),
{
    let b = MAX_BATCH_SIZE as int;
    let n = s.len() as int;
    let gl = groups.len() as int;
    if n == 0 {
        assert(groups =~~= chunk_spec(s));
    } else {
        assert((n - 1) / b == gl - 1) by {
            let r = (n - 1) - (gl - 1) * b;
            assert(0 <= r < b);
            vstd::arithmetic::div_mod::lemma_fundamental_div_mod_converse_div(n - 1, b, gl - 1, r);
        }
        assert(groups.len() == chunk_spec(s).len());
        assert(groups =~~= chunk_spec(s));
    }
}

/// Chunking law: the groups, concatenated in order, are exactly the input
/// (so the total size equals the input size and the original order is kept),
/// and every group is non-empty and no larger than the store's ceiling.
pub proof fn lemma_chunked_flatten(s: Seq<EntryView>, groups: Seq<Seq<EntryView>>)
    requires
        chunked(s, groups),
    ensures
        groups.flatten() == s,
        forall|g: int|
            0 <= g < groups.len() ==> 1 <= (#[trigger] groups[g]).len() <= MAX_BATCH_SIZE as int,
    decreases groups.len(),
{
    let b = MAX_BATCH_SIZE as int;
    if groups.len() == 0 {
        assert(groups.flatten() =~= s);
    } else {
        let gl = groups.len() as int;
        let head = s.take((gl - 1) * b);
        let rest = groups.drop_last();
        assert(chunked(head, rest)) by {
            assert forall|g: int| 0 <= g < rest.len() implies (#[trigger] rest[g]).len()
                == group_size(head.len() as int, g) by {
                assert(groups[g].len() == group_size(s.len() as int, g));
            }
            assert forall|g: int, j: int|
                0 <= g < rest.len() && 0 <= j < rest[g].len() implies #[trigger] rest[g][j]
                == head[g * b + j] by {
                assert(groups[g][j] == s[g * b + j]);
            }
        }
        lemma_chunked_flatten(head, rest);
        assert(groups.last() =~= s.skip((gl - 1) * b)) by {
            assert(groups[gl - 1].len() == group_size(s.len() as int, gl - 1));
            assert forall|j: int| 0 <= j < groups.last().len() implies groups.last()[j] == s.skip(
                (gl - 1) * b,
            )[j] by {
                assert(groups[gl - 1][j] == s[(gl - 1) * b + j]);
            }
        }
        groups.lemma_flatten_and_flatten_alt_are_equivalent();
        rest.lemma_flatten_and_flatten_alt_are_equivalent();
        assert(groups.flatten_alt() == rest.flatten_alt() + groups.last());
        assert(head + s.skip((gl - 1) * b) =~= s);
    }
}

} // verus!
