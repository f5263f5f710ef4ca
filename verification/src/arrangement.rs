//! The order of the rows in the notes list: pinned notes newest first, and
//! within a folder the unpinned notes that match the search, by the chosen
//! sort. Rows that the sort cannot tell apart keep their order.

use crate::collation::{lemma_text_lt_transitive, lemma_text_trichotomy, text_less, text_lt};
use crate::folders::{last_with_id, search_matches, text_contains};
use crate::interop::{lowercase, to_lowercase};
use crate::notes::{Note, NoteSort, Timestamp};
use crate::text::chars_of;
use vstd::prelude::*;

verus! {

/// `a` is an earlier moment than `b`.
pub open spec fn stamp_lt(a: Timestamp, b: Timestamp) -> bool {
    a.seconds < b.seconds || (a.seconds == b.seconds && a.nanos < b.nanos)
}

/// Under `sort`, note `a` is listed strictly before note `b`: the more
/// recently updated or created first, or the lowercase title first.
pub open spec fn listed_before(a: Note, b: Note, sort: NoteSort) -> bool {
    match sort {
        NoteSort::Updated => stamp_lt(b.updated_at, a.updated_at),
        NoteSort::Created => stamp_lt(b.created_at, a.created_at),
        NoteSort::Title => text_lt(lowercase(a.title@), lowercase(b.title@)),
    }
}

/// The note that `id` stands for: the last one with that UUID.
pub open spec fn named(notes: Seq<Note>, id: u128) -> Note {
    last_with_id(notes, id).unwrap()
}

/// Every UUID of `ids` stands for a note of `notes`.
pub open spec fn all_named(notes: Seq<Note>, ids: Seq<u128>) -> bool {
    forall|i: int| 0 <= i < ids.len() ==> (#[trigger] last_with_id(notes, ids[i])) is Some
}

/// The note of `a` is listed strictly before the note of `b`.
pub open spec fn id_before(notes: Seq<Note>, sort: NoteSort, a: u128, b: u128) -> bool {
    listed_before(named(notes, a), named(notes, b), sort)
}

/// `out` lists the items of `input`, each once, as `pos` maps them: an item
/// comes before every item that it is listed before, and items that neither
/// is listed before keep their order from `input`.
pub open spec fn stably_arranged(
    out: Seq<u128>,
    input: Seq<u128>,
    pos: Seq<int>,
    notes: Seq<Note>,
    sort: NoteSort,
) -> bool {
    &&& out.len() == input.len()
    &&& pos.len() == input.len()
    &&& forall|k: int| 0 <= k < out.len() ==> 0 <= #[trigger] pos[k] < input.len() && out[k] == input[pos[k]]
    &&& forall|k: int, l: int|
        0 <= k < l < out.len() ==> id_before(notes, sort, #[trigger] out[k], #[trigger] out[l]) || (
        !id_before(notes, sort, out[l], out[k]) && pos[k] < pos[l])
}

/// The rows of a folder: its unpinned notes whose search text contains the
/// query, in the folder's order.
pub open spec fn folder_rows(notes: Seq<Note>, ids: Seq<u128>, query: Seq<char>) -> Seq<u128>
    decreases ids.len(),
{
    if ids.len() == 0 {
        Seq::empty()
    } else {
        let rest = folder_rows(notes, ids.drop_last(), query);
        let note = named(notes, ids.last());
        if !note.pinned && text_contains(note.search_text@, query) {
            rest.push(ids.last())
        } else {
            rest
        }
    }
}

/// The pinned rows: each UUID once, standing for the last note with it,
/// when that note is pinned and its search text contains the query; in the
/// order of those notes.
pub open spec fn pinned_rows(notes: Seq<Note>, query: Seq<char>) -> Seq<u128>
    decreases notes.len(),
{
    if notes.len() == 0 {
        Seq::empty()
    } else {
        let rest = pinned_rows(notes.drop_first(), query);
        let note = notes[0];
        if note.pinned && text_contains(note.search_text@, query) && (forall|j: int|
            1 <= j < notes.len() ==> #[trigger] notes[j].id != note.id) {
            seq![note.id] + rest
        } else {
            rest
        }
    }
}

proof fn lemma_listed_before_weak(a: Note, b: Note, c: Note, sort: NoteSort)
    ensures
        !listed_before(a, a, sort),
        listed_before(a, b, sort) ==> !listed_before(b, a, sort),
        listed_before(a, b, sort) && !listed_before(c, b, sort) ==> listed_before(a, c, sort),
{
    match sort {
        NoteSort::Title => {
            let (ka, kb, kc) = (lowercase(a.title@), lowercase(b.title@), lowercase(c.title@));
            lemma_text_trichotomy(ka, kb);
            lemma_text_trichotomy(kc, kb);
            if text_lt(ka, kb) && text_lt(kb, kc) {
                lemma_text_lt_transitive(ka, kb, kc);
            }
        },
        _ => {},
    }
}

/// Sorting by title compares the lowercase titles only: notes whose titles
/// have the same lowercase are never ordered apart, and a note whose
/// lowercase title comes first is listed first.
pub proof fn lemma_title_order_is_lowercase(a: Note, b: Note, c: Note)
    ensures
        lowercase(a.title@) == lowercase(b.title@) ==> !listed_before(a, b, NoteSort::Title)
            && !listed_before(b, a, NoteSort::Title),
        lowercase(a.title@) == lowercase(c.title@) ==> listed_before(a, b, NoteSort::Title)
            == listed_before(c, b, NoteSort::Title) && listed_before(b, a, NoteSort::Title)
            == listed_before(b, c, NoteSort::Title),
        text_lt(lowercase(a.title@), lowercase(b.title@)) ==> listed_before(a, b, NoteSort::Title),
{
    lemma_text_trichotomy(lowercase(a.title@), lowercase(b.title@));
}

/// Rows sorted by title come in ascending order of their lowercase titles:
/// no row's lowercase title is smaller than that of a row before it.
pub proof fn lemma_title_rows_ascending(out: Seq<u128>, input: Seq<u128>, pos: Seq<int>, notes: Seq<Note>)
    requires
        stably_arranged(out, input, pos, notes, NoteSort::Title),
    ensures
        forall|k: int, l: int|
            0 <= k < l < out.len() ==> !text_lt(
                lowercase(named(notes, #[trigger] out[l]).title@),
                lowercase(named(notes, #[trigger] out[k]).title@),
            ),
{
    assert forall|k: int, l: int| 0 <= k < l < out.len() implies !text_lt(
        lowercase(named(notes, #[trigger] out[l]).title@),
        lowercase(named(notes, #[trigger] out[k]).title@),
    ) by {
        lemma_listed_before_weak(named(notes, out[k]), named(notes, out[l]), named(notes, out[k]), NoteSort::Title);
    }
}

/// Rows sorted by update or creation time come newest first: no row is
/// more recent than a row before it.
pub proof fn lemma_time_rows_newest_first(
    out: Seq<u128>,
    input: Seq<u128>,
    pos: Seq<int>,
    notes: Seq<Note>,
    sort: NoteSort,
)
    requires
        sort != NoteSort::Title,
        stably_arranged(out, input, pos, notes, sort),
    ensures
        forall|k: int, l: int|
            0 <= k < l < out.len() ==> if sort == NoteSort::Updated {
                !stamp_lt(named(notes, #[trigger] out[k]).updated_at, named(notes, #[trigger] out[l]).updated_at)
            } else {
                !stamp_lt(named(notes, out[k]).created_at, named(notes, out[l]).created_at)
            },
{
    assert forall|k: int, l: int| 0 <= k < l < out.len() implies if sort == NoteSort::Updated {
        !stamp_lt(named(notes, #[trigger] out[k]).updated_at, named(notes, #[trigger] out[l]).updated_at)
    } else {
        !stamp_lt(named(notes, out[k]).created_at, named(notes, out[l]).created_at)
    } by {
        lemma_listed_before_weak(named(notes, out[k]), named(notes, out[l]), named(notes, out[k]), sort);
    }
}

/// The note with `id` at index `k`, with no later note of that UUID, is the
/// one that `id` stands for.
proof fn lemma_last_with_id_at(notes: Seq<Note>, k: int)
    requires
        0 <= k < notes.len(),
        forall|j: int| k < j < notes.len() ==> #[trigger] notes[j].id != notes[k].id,
    ensures
        last_with_id(notes, notes[k].id) == Some(notes[k]),
    decreases notes.len(),
{
    if k < notes.len() - 1 {
        assert(notes.last() == notes[notes.len() - 1]);
        lemma_last_with_id_at(notes.drop_last(), k);
    }
}

/// The index of the last note with UUID `id`.
fn last_index(notes: &[Note], id: u128) -> (found: Option<usize>)
    ensures
        found is Some ==> found->0 < notes@.len() && last_with_id(notes@, id) == Some(
            notes@[found->0 as int],
        ),
        found is None ==> last_with_id(notes@, id) is None,
{
    let mut k: usize = notes.len();
    assert(notes@.take(notes@.len() as int) =~= notes@);
    while k > 0
        invariant
            0 <= k <= notes.len(),
            last_with_id(notes@.take(k as int), id) == last_with_id(notes@, id),
        decreases k,
    {
        assert(notes@.take(k as int).drop_last() =~= notes@.take(k - 1));
        if notes[k - 1].id == id {
            assert(notes@.take(k as int).last() == notes@[k - 1]);
            return Some(k - 1);
        }
        k = k - 1;
    }
    assert(notes@.take(0) =~= Seq::<Note>::empty());
    None
}

fn stamp_less(a: Timestamp, b: Timestamp) -> (less: bool)
    ensures
        less == stamp_lt(a, b),
{
    a.seconds < b.seconds || (a.seconds == b.seconds && a.nanos < b.nanos)
}

/// Whether the note of `a` is listed strictly before the note of `b`.
fn precedes(notes: &[Note], sort: NoteSort, a: u128, b: u128) -> (before: bool)
    requires
        last_with_id(notes@, a) is Some,
        last_with_id(notes@, b) is Some,
    ensures
        before == id_before(notes@, sort, a, b),
{
    let ia = last_index(notes, a);
    let ib = last_index(notes, b);
    let (na, nb) = match (ia, ib) {
        (Some(i), Some(j)) => (&notes[i], &notes[j]),
        _ => {
            return false;
        },
    };
    match sort {
        NoteSort::Updated => stamp_less(nb.updated_at, na.updated_at),
        NoteSort::Created => stamp_less(nb.created_at, na.created_at),
        NoteSort::Title => {
            let la = to_lowercase(na.title.as_str());
            let lb = to_lowercase(nb.title.as_str());
            text_less(&chars_of(la.as_str()), &chars_of(lb.as_str()))
        },
    }
}

/// Sorts `input` by `sort` with an insertion sort, which keeps the order of
/// items that the sort cannot tell apart.
fn arrange(notes: &[Note], input: Vec<u128>, sort: NoteSort) -> (out: Vec<u128>)
    requires
        all_named(notes@, input@),
    ensures
        exists|pos: Seq<int>| stably_arranged(out@, input@, pos, notes@, sort),
{
    let mut out: Vec<u128> = Vec::new();
    let ghost mut pos: Seq<int> = Seq::empty();
    let mut m: usize = 0;
    while m < input.len()
        invariant
            0 <= m <= input.len(),
            all_named(notes@, input@),
            stably_arranged(out@, input@.take(m as int), pos, notes@, sort),
            forall|k: int| 0 <= k < out@.len() ==> (#[trigger] last_with_id(notes@, out@[k])) is Some,
        decreases input.len() - m,
    {
        let x = input[m];
        assert(last_with_id(notes@, input@[m as int]) is Some);
        let mut j: usize = 0;
        while j < out.len()
            invariant
                0 <= j <= out.len(),
                last_with_id(notes@, x) is Some,
                forall|k: int| 0 <= k < out@.len() ==> (#[trigger] last_with_id(notes@, out@[k])) is Some,
                forall|i: int| 0 <= i < j ==> !id_before(notes@, sort, x, #[trigger] out@[i]),
            ensures
                0 <= j <= out.len(),
                forall|i: int| 0 <= i < j ==> !id_before(notes@, sort, x, #[trigger] out@[i]),
                j < out.len() ==> id_before(notes@, sort, x, out@[j as int]),
            decreases out.len() - j,
        {
            assert(last_with_id(notes@, out@[j as int]) is Some);
            if precedes(notes, sort, x, out[j]) {
                break;
            }
            j = j + 1;
        }
        let ghost old_out = out@;
        let ghost old_pos = pos;
        let ghost prefix = input@.take(m as int);
        let ghost next = input@.take(m + 1);
        out.insert(j, x);
        proof {
            pos = old_pos.insert(j as int, m as int);
            assert(out@ == old_out.insert(j as int, x));
            assert forall|k: int| 0 <= k < out@.len() implies 0 <= #[trigger] pos[k] < next.len()
                && out@[k] == next[pos[k]] by {
                if k < j {
                    assert(pos[k] == old_pos[k]);
                    assert(out@[k] == old_out[k]);
                } else if k == j {
                    assert(pos[k] == m);
                } else {
                    assert(pos[k] == old_pos[k - 1]);
                    assert(out@[k] == old_out[k - 1]);
                }
            }
            assert forall|k: int, l: int| 0 <= k < l < out@.len() implies id_before(
                notes@,
                sort,
                #[trigger] out@[k],
                #[trigger] out@[l],
            ) || (!id_before(notes@, sort, out@[l], out@[k]) && pos[k] < pos[l]) by {
                if l < j {
                    assert(out@[k] == old_out[k] && out@[l] == old_out[l]);
                    assert(pos[k] == old_pos[k] && pos[l] == old_pos[l]);
                } else if l == j {
                    assert(out@[k] == old_out[k]);
                    assert(pos[k] == old_pos[k] && pos[l] == m);
                    assert(!id_before(notes@, sort, x, old_out[k]));
                } else if k > j {
                    assert(out@[k] == old_out[k - 1] && out@[l] == old_out[l - 1]);
                    assert(pos[k] == old_pos[k - 1] && pos[l] == old_pos[l - 1]);
                } else if k == j {
                    let y = old_out[l - 1];
                    let first = old_out[j as int];
                    assert(out@[l] == y);
                    assert(id_before(notes@, sort, x, first));
                    if l - 1 > j {
                        assert(id_before(notes@, sort, first, y) || !id_before(notes@, sort, y, first));
                        lemma_listed_before_weak(named(notes@, first), named(notes@, y), named(notes@, x), sort);
                        lemma_listed_before_weak(named(notes@, x), named(notes@, first), named(notes@, y), sort);
                    }
                } else {
                    assert(out@[k] == old_out[k] && out@[l] == old_out[l - 1]);
                    assert(pos[k] == old_pos[k] && pos[l] == old_pos[l - 1]);
                }
            }
            assert forall|k: int| 0 <= k < out@.len() implies (#[trigger] last_with_id(
                notes@,
                out@[k],
            )) is Some by {
                if k < j {
                    assert(out@[k] == old_out[k]);
                } else if k > j {
                    assert(out@[k] == old_out[k - 1]);
                }
            }
        }
        m = m + 1;
    }
    assert(input@.take(input@.len() as int) =~= input@);
    out
}

/// The rows that the notes list shows inside a folder: the unpinned notes
/// of `note_ids` whose search text contains the query, each standing for
/// the last note with its UUID, sorted by `sort`; rows that the sort cannot
/// tell apart keep the folder's order.
pub fn folder_note_order(
    notes: &[Note],
    note_ids: &Vec<u128>,
    sort: NoteSort,
    normalized_query: &str,
) -> (rows: Vec<u128>)
    requires
        all_named(notes@, note_ids@),
    ensures
        exists|pos: Seq<int>|
            stably_arranged(rows@, folder_rows(notes@, note_ids@, normalized_query@), pos, notes@, sort),
{
    let query = chars_of(normalized_query);
    let mut shown: Vec<u128> = Vec::new();
    let mut i: usize = 0;
    while i < note_ids.len()
        invariant
            0 <= i <= note_ids.len(),
            query@ == normalized_query@,
            all_named(notes@, note_ids@),
            shown@ == folder_rows(notes@, note_ids@.take(i as int), query@),
            all_named(notes@, shown@),
        decreases note_ids.len() - i,
    {
        let id = note_ids[i];
        assert(last_with_id(notes@, note_ids@[i as int]) is Some);
        assert(note_ids@.take(i + 1).drop_last() =~= note_ids@.take(i as int));
        assert(note_ids@.take(i + 1).last() == id);
        if let Some(k) = last_index(notes, id) {
            let note = &notes[k];
            if !note.pinned && search_matches(note, &query) {
                shown.push(id);
                proof {
                    assert forall|t: int| 0 <= t < shown@.len() implies (#[trigger] last_with_id(
                        notes@,
                        shown@[t],
                    )) is Some by {
                        if t < shown@.len() - 1 {
                            assert(shown@[t] == shown@.drop_last()[t]);
                        }
                    }
                }
            }
        }
        i = i + 1;
    }
    assert(note_ids@.take(note_ids@.len() as int) =~= note_ids@);
    arrange(notes, shown, sort)
}

/// The pinned rows at the top of the notes list: each UUID once, standing
/// for the last note with it, when that note is pinned and its search text
/// contains the query; the most recently updated first, and rows updated at
/// the same moment in the order of their notes.
pub fn pinned_note_order(notes: &[Note], normalized_query: &str) -> (rows: Vec<u128>)
    ensures
        exists|pos: Seq<int>|
            stably_arranged(
                rows@,
                pinned_rows(notes@, normalized_query@),
                pos,
                notes@,
                NoteSort::Updated,
            ),
{
    let query = chars_of(normalized_query);
    let mut shown: Vec<u128> = Vec::new();
    let mut i: usize = notes.len();
    assert(notes@.skip(notes@.len() as int) =~= Seq::<Note>::empty());
    while i > 0
        invariant
            0 <= i <= notes.len(),
            query@ == normalized_query@,
            shown@ == pinned_rows(notes@.skip(i as int), query@),
            all_named(notes@, shown@),
        decreases i,
    {
        let k = i - 1;
        let note = &notes[k];
        let ghost tail = notes@.skip(k as int);
        assert(tail.drop_first() =~= notes@.skip(i as int));
        assert(tail[0] == notes@[k as int]);
        let mut last = true;
        let mut j: usize = i;
        while j < notes.len()
            invariant
                i <= j <= notes.len(),
                k == i - 1,
                last ==> forall|t: int| i <= t < j ==> #[trigger] notes@[t].id != notes@[k as int].id,
                !last ==> exists|t: int| i <= t < j && #[trigger] notes@[t].id == notes@[k as int].id,
            decreases notes.len() - j,
        {
            if notes[j].id == notes[k].id {
                last = false;
            }
            j = j + 1;
        }
        proof {
            assert((forall|t: int| 1 <= t < tail.len() ==> #[trigger] tail[t].id != tail[0].id) == last) by {
                if last {
                    assert forall|t: int| 1 <= t < tail.len() implies #[trigger] tail[t].id != tail[0].id by {
                        assert(tail[t] == notes@[k + t]);
                    }
                } else {
                    let t0 = choose|t: int| i <= t < notes.len() && #[trigger] notes@[t].id == notes@[k as int].id;
                    assert(tail[t0 - k] == notes@[t0]);
                }
            }
        }
        if last && note.pinned && search_matches(note, &query) {
            shown.insert(0, note.id);
            proof {
                assert forall|t: int| k < t < notes@.len() implies #[trigger] notes@[t].id != notes@[k as int].id by {
                    assert(i <= t);
                }
                lemma_last_with_id_at(notes@, k as int);
                assert forall|t: int| 0 <= t < shown@.len() implies (#[trigger] last_with_id(
                    notes@,
                    shown@[t],
                )) is Some by {
                    if t > 0 {
                        assert(shown@[t] == shown@.drop_first()[t - 1]);
                    }
                }
            }
        }
        i = k;
    }
    assert(notes@.skip(0) =~= notes@);
    arrange(notes, shown, NoteSort::Updated)
}

} // verus!
