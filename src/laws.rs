use vstd::prelude::*;
use crate::models::NoteView;
use crate::service::{
    at_most, day_start, find_note, ids_distinct, in_order, lemma_newest_first_members,
    newest_first, precedes, selects, tally, Filter, NoteService,
};

verus! {

/// The note at index `k` is the one a lookup of its identity finds.
pub proof fn lemma_find_note_at(s: Seq<NoteView>, k: int)
    requires
        ids_distinct(s),
        0 <= k < s.len(),
        s[k].id is Some,
    ensures
        find_note(s, s[k].id->Some_0) == Some(s[k]),
{
    let i = s[k].id->Some_0;
    assert(s[k].id == Some(i));
    let c = choose|c: int| 0 <= c < s.len() && s[c].id == Some(i);
    if c != k {
        assert(s[c].id != s[k].id);
    }
}

/// A note that a well-formed repository holds is what a lookup of its
/// identity returns.
pub proof fn lemma_stored_note_found(svc: NoteService, n: NoteView)
    requires
        svc.wf(),
        svc.notes_view().contains(n),
    ensures
        n.id is Some,
        find_note(svc.notes_view(), n.id->Some_0) == Some(n),
{
    let s = svc.notes_view();
    svc.lemma_wf_notes();
    let k = choose|k: int| 0 <= k < s.len() && s[k] == n;
    assert(s[k].id is Some);
    lemma_find_note_at(s, k);
}

/// Once a note has been added, looking up the identity it received
/// returns that very note.
pub proof fn lemma_added_note_found(before: NoteService, after: NoteService, p: int, n: NoteView)
    requires
        after.wf(),
        0 <= p <= before.notes_view().len(),
        after.notes_view() == before.notes_view().insert(p, n),
        n.id == Some(before.next_identity()),
    ensures
        find_note(after.notes_view(), before.next_identity()) == Some(n),
{
    before.notes_view().insert_ensures(p, n);
    assert(after.notes_view()[p] == n);
    lemma_stored_note_found(after, n);
}

/// A search returns exactly the notes, not archived, whose identity the
/// full-text index matched.
pub proof fn lemma_search_exact(svc: NoteService, matches: Seq<i64>)
    ensures
        forall|x: NoteView| #[trigger] newest_first(svc.notes_view(), Filter::Matching(matches)).contains(x) <==> {
            &&& svc.notes_view().contains(x)
            &&& !x.is_archived
            &&& x.id matches Some(i) && matches.contains(i)
        },
{
    lemma_newest_first_members(svc.notes_view(), Filter::Matching(matches));
}

/// A listing of an ordered sequence runs from the newest note back.
pub proof fn lemma_newest_first_descends(s: Seq<NoteView>, f: Filter)
    requires
        in_order(s),
    ensures
        forall|i: int, j: int| 0 <= i < j < newest_first(s, f).len() ==>
            precedes(#[trigger] newest_first(s, f)[j], #[trigger] newest_first(s, f)[i]),
    decreases s.len(),
{
    if s.len() > 0 {
        let t = s.drop_first();
        assert(in_order(t)) by {
            assert forall|i: int, j: int| 0 <= i < j < t.len() implies precedes(#[trigger] t[i], #[trigger] t[j]) by {
                assert(t[i] == s[i + 1] && t[j] == s[j + 1]);
            }
        }
        lemma_newest_first_descends(t, f);
        lemma_newest_first_members(t, f);
        let rest = newest_first(t, f);
        if selects(f, s[0]) {
            let all = rest.push(s[0]);
            assert forall|i: int, j: int| 0 <= i < j < all.len() implies precedes(#[trigger] all[j], #[trigger] all[i]) by {
                if j == rest.len() {
                    assert(all[i] == rest[i] && all[j] == s[0]);
                    assert(rest.contains(rest[i]));
                    assert(t.contains(rest[i]));
                    let c = choose|c: int| 0 <= c < t.len() && t[c] == rest[i];
                    assert(t[c] == s[c + 1]);
                    assert(precedes(s[0], s[c + 1]));
                } else {
                    assert(all[i] == rest[i] && all[j] == rest[j]);
                }
            }
        }
    }
}

/// Today's listing holds only notes, not archived, created on or after the
/// start of the UTC day, newest first, and no more than the limit.
pub proof fn lemma_today_listing(svc: NoteService, limit: int, now: int)
    requires
        svc.wf(),
        0 <= limit,
    ensures
        ({
            let r = at_most(newest_first(svc.notes_view(), Filter::CreatedSince(day_start(now))), limit);
            &&& r.len() <= limit
            &&& forall|k: int| 0 <= k < r.len() ==> (#[trigger] r[k]).created_at >= day_start(now) && !r[k].is_archived
            &&& forall|i: int, j: int| 0 <= i < j < r.len() ==> precedes(#[trigger] r[j], #[trigger] r[i])
        }),
{
    svc.lemma_wf_notes();
    let f = Filter::CreatedSince(day_start(now));
    let all = newest_first(svc.notes_view(), f);
    let r = at_most(all, limit);
    lemma_newest_first_members(svc.notes_view(), f);
    lemma_newest_first_descends(svc.notes_view(), f);
    assert forall|k: int| 0 <= k < r.len() implies (#[trigger] r[k]).created_at >= day_start(now) && !r[k].is_archived by {
        assert(r[k] == all[k]);
        assert(all.contains(all[k]));
        assert(selects(f, all[k]));
    }
    assert forall|i: int, j: int| 0 <= i < j < r.len() implies precedes(#[trigger] r[j], #[trigger] r[i]) by {
        assert(r[i] == all[i] && r[j] == all[j]);
    }
}

/// After a note is deleted, looking up its identity finds nothing and no
/// listing of any kind holds it.
pub proof fn lemma_deleted_note_gone(before: NoteService, after: NoteService, id: i64, f: Filter)
    requires
        before.wf(),
        find_note(before.notes_view(), id) is None ==> after.notes_view() == before.notes_view(),
        find_note(before.notes_view(), id) is Some ==> exists|k: int|
            0 <= k < before.notes_view().len()
            && (#[trigger] before.notes_view()[k]).id == Some(id)
            && after.notes_view() == before.notes_view().remove(k),
    ensures
        find_note(after.notes_view(), id) is None,
        forall|x: NoteView| #[trigger] newest_first(after.notes_view(), f).contains(x) ==> x.id != Some(id),
{
    let s = before.notes_view();
    let t = after.notes_view();
    before.lemma_wf_notes();
    if find_note(s, id) is Some {
        let k = choose|k: int| 0 <= k < s.len() && (#[trigger] s[k]).id == Some(id) && t == s.remove(k);
        s.remove_ensures(k);
        assert forall|c: int| 0 <= c < t.len() implies (#[trigger] t[c]).id != Some(id) by {
            let a = if c < k { c } else { c + 1 };
            assert(t[c] == s[a]);
            assert(s[a].id != s[k].id);
        }
    }
    assert forall|c: int| 0 <= c < t.len() implies (#[trigger] t[c]).id != Some(id) by {
        if find_note(s, id) is Some {
        } else {
            assert(t[c] == s[c]);
        }
    }
    lemma_newest_first_members(t, f);
    assert forall|x: NoteView| #[trigger] newest_first(t, f).contains(x) implies x.id != Some(id) by {
        assert(t.contains(x));
        let c = choose|c: int| 0 <= c < t.len() && t[c] == x;
        assert(t[c].id != Some(id));
    }
}

/// The identities of the notes, not archived, that a lookup finds.
pub open spec fn found_ids(s: Seq<NoteView>) -> Set<i64> {
    Set::new(|i: i64| find_note(s, i) matches Some(v) && !v.is_archived)
}

/// The total count equals the number of identities for which a lookup
/// finds a note that is not archived.
pub proof fn lemma_total_counts_found(s: Seq<NoteView>)
    requires
        ids_distinct(s),
        forall|k: int| 0 <= k < s.len() ==> (#[trigger] s[k]).id is Some,
    ensures
        found_ids(s).finite(),
        found_ids(s).len() == tally(s, Filter::Unarchived),
    decreases s.len(),
{
    if s.len() == 0 {
        assert(found_ids(s) =~= Set::<i64>::empty());
    } else {
        let t = s.drop_first();
        let x = s[0];
        let i0 = x.id->Some_0;
        assert(ids_distinct(t)) by {
            assert forall|i: int, j: int| 0 <= i < t.len() && 0 <= j < t.len() && i != j implies (#[trigger] t[i]).id != (#[trigger] t[j]).id by {
                assert(t[i] == s[i + 1] && t[j] == s[j + 1]);
            }
        }
        assert forall|k: int| 0 <= k < t.len() implies (#[trigger] t[k]).id is Some by {
            assert(t[k] == s[k + 1]);
        }
        lemma_total_counts_found(t);
        assert(s[0].id is Some);
        lemma_find_note_at(s, 0);
        assert forall|k: int| 0 <= k < t.len() implies (#[trigger] t[k]).id != Some(i0) by {
            assert(t[k] == s[k + 1]);
            assert(s[k + 1].id != s[0].id);
        }
        assert(find_note(t, i0) is None);
        assert forall|i: i64| i != i0 implies find_note(s, i) == find_note(t, i) by {
            if exists|c: int| 0 <= c < t.len() && t[c].id == Some(i) {
                let c = choose|c: int| 0 <= c < t.len() && t[c].id == Some(i);
                assert(t[c] == s[c + 1]);
                lemma_find_note_at(t, c);
                lemma_find_note_at(s, c + 1);
            } else {
                assert forall|c: int| 0 <= c < s.len() implies s[c].id != Some(i) by {
                    if c > 0 {
                        assert(t[c - 1] == s[c]);
                    }
                }
            }
        }
        if !x.is_archived {
            assert(found_ids(s) =~= found_ids(t).insert(i0));
            assert(!found_ids(t).contains(i0));
        } else {
            assert(found_ids(s) =~= found_ids(t));
        }
    }
}

/// The statistics' total is the number of notes that a lookup finds and
/// that are not archived.
pub proof fn lemma_stats_total(svc: NoteService)
    requires
        svc.wf(),
    ensures
        found_ids(svc.notes_view()).finite(),
        tally(svc.notes_view(), Filter::Unarchived) == found_ids(svc.notes_view()).len(),
{
    svc.lemma_wf_notes();
    lemma_total_counts_found(svc.notes_view());
}

} // verus!
