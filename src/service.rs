use vstd::prelude::*;
use vstd::string::*;
use vstd::arithmetic::div_mod::lemma_mod_multiples_vanish;
use crate::models::{names, Note, NoteError, NoteView, Priority, Stats};

verus! {

/// Length of a UTC calendar day in microseconds.
pub const MICROS_PER_DAY: i64 = 86_400_000_000;

/// The identity of a stored note (0 stands for a missing one).
pub open spec fn note_id(n: NoteView) -> int {
    match n.id {
        Some(i) => i as int,
        None => 0,
    }
}

/// Creation order: by timestamp, and by identity between equal timestamps.
pub open spec fn precedes(a: NoteView, b: NoteView) -> bool {
    a.created_at < b.created_at || (a.created_at == b.created_at && note_id(a) < note_id(b))
}

/// Start of the UTC calendar day that holds instant `t` (microseconds).
pub open spec fn day_start(t: int) -> int {
    t - t % (MICROS_PER_DAY as int)
}

/// Which notes a listing or a count takes. Archived notes are never taken.
pub enum Filter {
    /// Every note that is not archived.
    Unarchived,
    /// Notes created at or after the instant.
    CreatedSince(int),
    /// Notes that carry the tag (exact, case-sensitive).
    Tagged(Seq<char>),
    /// Notes whose identity is among those given.
    Matching(Seq<i64>),
    /// Notes of the priority.
    WithPriority(Priority),
}

/// Whether the filter takes the note.
pub open spec fn selects(sel: Filter, n: NoteView) -> bool {
    !n.is_archived && match sel {
        Filter::Unarchived => true,
        Filter::CreatedSince(t) => n.created_at >= t,
        Filter::Tagged(name) => n.tags.contains(name),
        Filter::Matching(ids) => n.id matches Some(i) && ids.contains(i),
        Filter::WithPriority(p) => n.priority == p,
    }
}

/// A filter in executable form.
enum Selection {
    Unarchived,
    CreatedSince(i128),
    Tagged(String),
    Matching(Vec<i64>),
}

impl View for Selection {
    type V = Filter;

    closed spec fn view(&self) -> Filter {
        match self {
            Selection::Unarchived => Filter::Unarchived,
            Selection::CreatedSince(t) => Filter::CreatedSince(*t as int),
            Selection::Tagged(name) => Filter::Tagged(name@),
            Selection::Matching(ids) => Filter::Matching(ids@),
        }
    }
}

/// The selected notes of `s`, from the last one back to the first.
pub open spec fn newest_first(s: Seq<NoteView>, sel: Filter) -> Seq<NoteView>
    decreases s.len(),
{
    if s.len() == 0 {
        Seq::empty()
    } else {
        let rest = newest_first(s.drop_first(), sel);
        if selects(sel, s[0]) {
            rest.push(s[0])
        } else {
            rest
        }
    }
}

/// The first `limit` elements of `s`, or all of them when there are fewer.
pub open spec fn at_most(s: Seq<NoteView>, limit: int) -> Seq<NoteView> {
    if s.len() <= limit {
        s
    } else {
        s.take(limit)
    }
}

/// The note of `s` with the identity, if there is one.
pub open spec fn find_note(s: Seq<NoteView>, id: i64) -> Option<NoteView> {
    if exists|k: int| 0 <= k < s.len() && s[k].id == Some(id) {
        Some(s[choose|k: int| 0 <= k < s.len() && s[k].id == Some(id)])
    } else {
        None
    }
}

/// `s` without the notes of the identity.
pub open spec fn without_id(s: Seq<NoteView>, id: i64) -> Seq<NoteView>
    decreases s.len(),
{
    if s.len() == 0 {
        Seq::empty()
    } else {
        let rest = without_id(s.drop_last(), id);
        if s.last().id == Some(id) {
            rest
        } else {
            rest.push(s.last())
        }
    }
}

/// The views of a list of notes.
pub open spec fn views(s: Seq<Note>) -> Seq<NoteView> {
    s.map_values(|n: Note| n@)
}

/// Every note precedes, in creation order, the notes after it.
pub open spec fn in_order(s: Seq<NoteView>) -> bool {
    forall|i: int, j: int| 0 <= i < j < s.len() ==> precedes(#[trigger] s[i], #[trigger] s[j])
}

/// No two notes share an identity.
pub open spec fn ids_distinct(s: Seq<NoteView>) -> bool {
    forall|i: int, j: int|
        0 <= i < s.len() && 0 <= j < s.len() && i != j ==> (#[trigger] s[i]).id != (#[trigger] s[j]).id
}

proof fn lemma_insert_in_order(s: Seq<NoteView>, p: int, x: NoteView)
    requires
        0 <= p <= s.len(),
        in_order(s),
        ids_distinct(s),
        forall|k: int| 0 <= k < p ==> precedes(#[trigger] s[k], x),
        forall|k: int| p <= k < s.len() ==> precedes(x, #[trigger] s[k]),
        forall|k: int| 0 <= k < s.len() ==> (#[trigger] s[k]).id != x.id,
    ensures
        in_order(s.insert(p, x)),
        ids_distinct(s.insert(p, x)),
{
    s.insert_ensures(p, x);
    let t = s.insert(p, x);
    assert forall|i: int| p < i < t.len() implies t[i] == s[i - 1] by {
        assert(t[(i - 1) + 1] == s[i - 1]);
    }
    assert forall|i: int, j: int| 0 <= i < j < t.len() implies precedes(#[trigger] t[i], #[trigger] t[j]) by {
        if j < p {
            assert(precedes(s[i], s[j]));
        } else if j == p {
            assert(precedes(s[i], x));
        } else if i < p {
            assert(precedes(s[i], s[j - 1]));
        } else if i == p {
            assert(precedes(x, s[j - 1]));
        } else {
            assert(precedes(s[i - 1], s[j - 1]));
        }
    }
    assert forall|i: int, j: int| 0 <= i < t.len() && 0 <= j < t.len() && i != j implies (#[trigger] t[i]).id != (#[trigger] t[j]).id by {
        let a = if i < p { i } else { i - 1 };
        let b = if j < p { j } else { j - 1 };
        if i != p && j != p {
            assert(s[a].id != s[b].id);
        } else if i == p {
            assert(s[b].id != x.id);
        } else {
            assert(s[a].id != x.id);
        }
    }
}

proof fn lemma_remove_in_order(s: Seq<NoteView>, p: int)
    requires
        0 <= p < s.len(),
        in_order(s),
        ids_distinct(s),
    ensures
        in_order(s.remove(p)),
        ids_distinct(s.remove(p)),
        forall|i: int| 0 <= i < s.remove(p).len() ==> #[trigger] s.remove(p)[i] == s[if i < p { i } else { i + 1 }],
{
    s.remove_ensures(p);
    let t = s.remove(p);
    assert forall|i: int| 0 <= i < t.len() implies #[trigger] t[i] == s[if i < p { i } else { i + 1 }] by {}
    assert forall|i: int, j: int| 0 <= i < j < t.len() implies precedes(#[trigger] t[i], #[trigger] t[j]) by {
        let a = if i < p { i } else { i + 1 };
        let b = if j < p { j } else { j + 1 };
        assert(t[i] == s[a] && t[j] == s[b]);
        assert(precedes(s[a], s[b]));
    }
    assert forall|i: int, j: int| 0 <= i < t.len() && 0 <= j < t.len() && i != j implies (#[trigger] t[i]).id != (#[trigger] t[j]).id by {
        let a = if i < p { i } else { i + 1 };
        let b = if j < p { j } else { j + 1 };
        assert(t[i] == s[a] && t[j] == s[b]);
        assert(s[a].id != s[b].id);
    }
}

/// How many notes of `s` the filter takes.
pub open spec fn tally(s: Seq<NoteView>, f: Filter) -> int {
    newest_first(s, f).len() as int
}

/// A listing holds exactly the notes of `s` that the filter takes.
pub proof fn lemma_newest_first_members(s: Seq<NoteView>, f: Filter)
    ensures
        forall|x: NoteView| #[trigger] newest_first(s, f).contains(x) <==> (s.contains(x) && selects(f, x)),
        newest_first(s, f).len() <= s.len(),
    decreases s.len(),
{
    if s.len() > 0 {
        lemma_newest_first_members(s.drop_first(), f);
        let rest = newest_first(s.drop_first(), f);
        assert forall|x: NoteView| newest_first(s, f).contains(x) <==> (s.contains(x) && selects(f, x)) by {
            if s.contains(x) && x != s[0] {
                let k = choose|k: int| 0 <= k < s.len() && s[k] == x;
                assert(s.drop_first()[k - 1] == x);
            }
            if s.drop_first().contains(x) {
                let k = choose|k: int| 0 <= k < s.drop_first().len() && s.drop_first()[k] == x;
                assert(s[k + 1] == x);
            }
            if selects(f, s[0]) {
                assert(rest.push(s[0])[rest.len() as int] == s[0]);
                if rest.contains(x) {
                    let k = choose|k: int| 0 <= k < rest.len() && rest[k] == x;
                    assert(rest.push(s[0])[k] == x);
                }
                if rest.push(s[0]).contains(x) && x != s[0] {
                    let k = choose|k: int| 0 <= k < rest.len() + 1 && rest.push(s[0])[k] == x;
                    assert(rest[k] == x);
                }
            }
        }
    }
}

/// The note repository: notes with their tags, the table of tag names, and
/// the identity the next note receives.
pub struct NoteService {
    notes: Vec<Note>,
    tags: Vec<String>,
    next_id: i64,
}

fn copy_names(v: &Vec<String>) -> (r: Vec<String>)
    ensures
        names(r@) == names(v@),
{
    let mut r: Vec<String> = Vec::new();
    let mut i: usize = 0;
    while i < v.len()
        invariant
            i <= v.len(),
            r@ == v@.subrange(0, i as int),
        decreases v.len() - i,
    {
        r.push(v[i].clone());
        i += 1;
        proof {
            assert(r@ =~= v@.subrange(0, i as int));
        }
    }
    proof {
        assert(r@ =~= v@);
        assert(names(r@) =~= names(v@));
    }
    r
}

fn copy_note(n: &Note) -> (r: Note)
    ensures
        r@ == n@,
{
    Note {
        id: n.id,
        content: n.content.clone(),
        priority: n.priority,
        created_at: n.created_at,
        updated_at: n.updated_at,
        is_archived: n.is_archived,
        tags: copy_names(&n.tags),
    }
}

/// Whether the text `t` is among the names of `v`.
fn holds_name(v: &Vec<String>, t: &String) -> (r: bool)
    ensures
        r == names(v@).contains(t@),
{
    let mut i: usize = 0;
    while i < v.len()
        invariant
            i <= v.len(),
            forall|k: int| 0 <= k < i ==> v@[k]@ != t@,
        decreases v.len() - i,
    {
        if v[i] == *t {
            proof {
                assert(names(v@)[i as int] == t@);
            }
            return true;
        }
        i += 1;
    }
    proof {
        if names(v@).contains(t@) {
            let k = choose|k: int| 0 <= k < names(v@).len() && names(v@)[k] == t@;
            assert(v@[k]@ == t@);
        }
    }
    false
}

fn holds_id(v: &Vec<i64>, id: i64) -> (r: bool)
    ensures
        r == v@.contains(id),
{
    let mut i: usize = 0;
    while i < v.len()
        invariant
            i <= v.len(),
            forall|k: int| 0 <= k < i ==> v@[k] != id,
        decreases v.len() - i,
    {
        if v[i] == id {
            return true;
        }
        i += 1;
    }
    false
}

/// The tags with repeats dropped, first occurrences kept in order.
fn distinct_tags(tags: &Vec<String>) -> (r: Vec<String>)
    ensures
        names(r@).no_duplicates(),
        forall|t: Seq<char>| names(r@).contains(t) <==> names(tags@).contains(t),
{
    let mut out: Vec<String> = Vec::new();
    let mut i: usize = 0;
    while i < tags.len()
        invariant
            i <= tags.len(),
            names(out@).no_duplicates(),
            forall|b: int| 0 <= b < i ==> names(out@).contains(#[trigger] names(tags@)[b]),
            forall|a: int| 0 <= a < out@.len() ==> names(tags@).contains(#[trigger] names(out@)[a]),
        decreases tags.len() - i,
    {
        let ghost before = out@;
        if !holds_name(&out, &tags[i]) {
            let c = tags[i].clone();
            out.push(c);
            proof {
                assert(names(out@) =~= names(before).push(tags@[i as int]@));
                assert(names(out@)[before.len() as int] == names(tags@)[i as int]);
                assert forall|b: int| 0 <= b < i implies names(out@).contains(#[trigger] names(tags@)[b]) by {
                    let a = choose|a: int| 0 <= a < names(before).len() && names(before)[a] == names(tags@)[b];
                    assert(names(out@)[a] == names(tags@)[b]);
                }
                assert(names(tags@)[i as int] == tags@[i as int]@);
            }
        }
        i += 1;
    }
    proof {
        assert forall|t: Seq<char>| names(out@).contains(t) <==> names(tags@).contains(t) by {
            if names(tags@).contains(t) {
                let b = choose|b: int| 0 <= b < names(tags@).len() && names(tags@)[b] == t;
                assert(names(out@).contains(names(tags@)[b]));
            }
            if names(out@).contains(t) {
                let a = choose|a: int| 0 <= a < names(out@).len() && names(out@)[a] == t;
                assert(names(tags@).contains(names(out@)[a]));
            }
        }
    }
    out
}

fn is_selected(sel: &Selection, n: &Note) -> (r: bool)
    ensures
        r == selects(sel@, n@),
{
    if n.is_archived {
        return false;
    }
    match sel {
        Selection::Unarchived => true,
        Selection::CreatedSince(t) => n.created_at as i128 >= *t,
        Selection::Tagged(name) => holds_name(&n.tags, name),
        Selection::Matching(ids) => match n.id {
            Some(i) => holds_id(ids, i),
            None => false,
        },
    }
}

/// Start of the UTC day that holds instant `t`.
pub fn day_start_of(t: i64) -> (r: i128)
    ensures
        r == day_start(t as int),
{
    // A whole number of days that lifts every i64 instant above zero.
    let lift: i128 = 200_000_000 * (MICROS_PER_DAY as i128);
    let e: i128 = (t as i128 + lift) % (MICROS_PER_DAY as i128);
    proof {
        lemma_mod_multiples_vanish(200_000_000, t as int, MICROS_PER_DAY as int);
    }
    t as i128 - e
}

impl NoteService {
    /// The stored notes, oldest first in creation order.
    pub closed spec fn notes_view(&self) -> Seq<NoteView> {
        views(self.notes@)
    }

    /// The tag table: every tag name ever used, never pruned.
    pub closed spec fn tag_table(&self) -> Seq<Seq<char>> {
        names(self.tags@)
    }

    /// The identity the next added note receives.
    pub closed spec fn next_identity(&self) -> i64 {
        self.next_id
    }

    /// Identities are present, positive, below the next one and distinct;
    /// notes stand in creation order; each note's tags are distinct and
    /// listed in the tag table, whose names are distinct.
    pub closed spec fn wf(&self) -> bool {
        let s = self.notes_view();
        &&& 1 <= self.next_id
        &&& forall|k: int| 0 <= k < s.len() ==> ((#[trigger] s[k]).id matches Some(i) && 1 <= i < self.next_id)
        &&& in_order(s)
        &&& ids_distinct(s)
        &&& forall|k: int| 0 <= k < s.len() ==> (#[trigger] s[k]).tags.no_duplicates()
        &&& forall|k: int, m: int| 0 <= k < s.len() && 0 <= m < s[k].tags.len() ==> self.tag_table().contains(#[trigger] s[k].tags[m])
        &&& self.tag_table().no_duplicates()
    }

    /// An empty repository.
    pub fn new() -> (r: NoteService)
        ensures
            r.wf(),
            r.notes_view() == Seq::<NoteView>::empty(),
            r.tag_table() == Seq::<Seq<char>>::empty(),
            r.next_identity() == 1,
    {
        let r = NoteService { notes: Vec::new(), tags: Vec::new(), next_id: 1 };
        proof {
            assert(r.notes_view() =~= Seq::<NoteView>::empty());
            assert(r.tag_table() =~= Seq::<Seq<char>>::empty());
        }
        r
    }

    /// The selected notes, newest first, at most `limit` of them.
    fn collect(&self, sel: &Selection, limit: usize) -> (r: Vec<Note>)
        ensures
            views(r@) == at_most(newest_first(self.notes_view(), sel@), limit as int),
    {
        let ghost s = self.notes_view();
        let n = self.notes.len();
        let mut out: Vec<Note> = Vec::new();
        let mut j: usize = n;
        proof {
            assert(s.subrange(n as int, n as int) =~= Seq::<NoteView>::empty());
            assert(views(out@) =~= Seq::<NoteView>::empty());
        }
        while j > 0
            invariant
                s == self.notes_view(),
                n == self.notes@.len(),
                j <= n,
                views(out@) == at_most(newest_first(s.subrange(j as int, n as int), sel@), limit as int),
            decreases j,
        {
            j -= 1;
            let ghost before = newest_first(s.subrange(j + 1, n as int), sel@);
            proof {
                assert(s.subrange(j as int, n as int).drop_first() =~= s.subrange(j + 1, n as int));
                assert(s.subrange(j as int, n as int)[0] == self.notes@[j as int]@);
            }
            let take = is_selected(sel, &self.notes[j]);
            if out.len() < limit && take {
                let c = copy_note(&self.notes[j]);
                proof {
                    assert(views(out@.push(c)) =~= views(out@).push(c@));
                }
                out.push(c);
            } else {
                proof {
                    if take {
                        assert(before.push(self.notes@[j as int]@).take(limit as int) =~= before.take(limit as int));
                    }
                }
            }
        }
        proof {
            assert(s.subrange(0, n as int) =~= s);
        }
        out
    }

    /// The most recently created notes that are not archived, newest first,
    /// at most `limit` of them.
    pub fn list_recent(&self, limit: usize) -> (r: Vec<Note>)
        ensures
            views(r@) == at_most(newest_first(self.notes_view(), Filter::Unarchived), limit as int),
    {
        self.collect(&Selection::Unarchived, limit)
    }

    /// Like `list_recent`, restricted to notes created on or after the start
    /// of the UTC day that holds `now`.
    pub fn list_today(&self, limit: usize, now: i64) -> (r: Vec<Note>)
        ensures
            views(r@) == at_most(
                newest_first(self.notes_view(), Filter::CreatedSince(day_start(now as int))),
                limit as int,
            ),
    {
        let since = day_start_of(now);
        self.collect(&Selection::CreatedSince(since), limit)
    }

    /// Like `list_recent`, restricted to notes that carry the tag (exact,
    /// case-sensitive match).
    pub fn list_by_tag(&self, tag: &str, limit: usize) -> (r: Vec<Note>)
        ensures
            views(r@) == at_most(newest_first(self.notes_view(), Filter::Tagged(tag@)), limit as int),
    {
        self.collect(&Selection::Tagged(String::from_str(tag)), limit)
    }

    /// The note with the identity, with its tags.
    pub fn get_note(&self, id: i64) -> (r: Result<Note, NoteError>)
        requires
            self.wf(),
        ensures
            match find_note(self.notes_view(), id) {
                Some(v) => r matches Ok(n) && n@ == v,
                None => r == Err::<Note, NoteError>(NoteError::NotFound(id)),
            },
    {
        let ghost s = self.notes_view();
        let mut k: usize = 0;
        while k < self.notes.len()
            invariant
                self.wf(),
                s == self.notes_view(),
                k <= s.len(),
                forall|i: int| 0 <= i < k ==> s[i].id != Some(id),
            decreases self.notes.len() - k,
        {
            if self.notes[k].id == Some(id) {
                proof {
                    assert(s[k as int].id == Some(id));
                    let c = choose|c: int| 0 <= c < s.len() && s[c].id == Some(id);
                    if c != k {
                        assert(s[c].id != s[k as int].id);
                    }
                    assert(c == k);
                }
                return Ok(copy_note(&self.notes[k]));
            }
            k += 1;
        }
        Err(NoteError::NotFound(id))
    }

    /// The notes that the full-text index matched (their identities are
    /// given), not archived, newest first, all of them.
    pub fn search(&self, matches: &Vec<i64>) -> (r: Vec<Note>)
        ensures
            views(r@) == newest_first(self.notes_view(), Filter::Matching(matches@)),
    {
        proof {
            lemma_newest_first_members(self.notes_view(), Filter::Matching(matches@));
        }
        let mut ids: Vec<i64> = Vec::new();
        let mut i: usize = 0;
        while i < matches.len()
            invariant
                i <= matches.len(),
                ids@ == matches@.subrange(0, i as int),
            decreases matches.len() - i,
        {
            ids.push(matches[i]);
            i += 1;
            proof {
                assert(ids@ =~= matches@.subrange(0, i as int));
            }
        }
        proof {
            assert(ids@ =~= matches@);
        }
        self.collect(&Selection::Matching(ids), self.notes.len())
    }

    /// Counts over the notes that are not archived: all of them, those of
    /// the UTC day that holds `now`, of the seven and thirty days back from
    /// that day's start, and those of each priority.
    pub fn get_stats(&self, now: i64) -> (r: Stats)
        ensures
            r.total == tally(self.notes_view(), Filter::Unarchived),
            r.today == tally(self.notes_view(), Filter::CreatedSince(day_start(now as int))),
            r.week == tally(self.notes_view(), Filter::CreatedSince(day_start(now as int) - 7 * MICROS_PER_DAY)),
            r.month == tally(self.notes_view(), Filter::CreatedSince(day_start(now as int) - 30 * MICROS_PER_DAY)),
            r.urgent == tally(self.notes_view(), Filter::WithPriority(Priority::Urgent)),
            r.high == tally(self.notes_view(), Filter::WithPriority(Priority::High)),
            r.medium == tally(self.notes_view(), Filter::WithPriority(Priority::Medium)),
            r.low == tally(self.notes_view(), Filter::WithPriority(Priority::Low)),
    {
        let ghost s = self.notes_view();
        let today = day_start_of(now);
        let week = today - 7 * (MICROS_PER_DAY as i128);
        let month = today - 30 * (MICROS_PER_DAY as i128);
        let ghost f_today = Filter::CreatedSince(today as int);
        let ghost f_week = Filter::CreatedSince(week as int);
        let ghost f_month = Filter::CreatedSince(month as int);
        let ghost f_urgent = Filter::WithPriority(Priority::Urgent);
        let ghost f_high = Filter::WithPriority(Priority::High);
        let ghost f_medium = Filter::WithPriority(Priority::Medium);
        let ghost f_low = Filter::WithPriority(Priority::Low);
        let n = self.notes.len();
        let mut r = Stats { total: 0, today: 0, week: 0, month: 0, urgent: 0, high: 0, medium: 0, low: 0 };
        let mut j: usize = n;
        proof {
            assert(s.subrange(n as int, n as int) =~= Seq::<NoteView>::empty());
        }
        while j > 0
            invariant
                s == self.notes_view(),
                n == s.len(),
                j <= n,
                r.total == tally(s.subrange(j as int, n as int), Filter::Unarchived),
                r.today == tally(s.subrange(j as int, n as int), f_today),
                r.week == tally(s.subrange(j as int, n as int), f_week),
                r.month == tally(s.subrange(j as int, n as int), f_month),
                r.urgent == tally(s.subrange(j as int, n as int), f_urgent),
                r.high == tally(s.subrange(j as int, n as int), f_high),
                r.medium == tally(s.subrange(j as int, n as int), f_medium),
                r.low == tally(s.subrange(j as int, n as int), f_low),
                f_today == Filter::CreatedSince(today as int),
                f_week == Filter::CreatedSince(week as int),
                f_month == Filter::CreatedSince(month as int),
                f_urgent == Filter::WithPriority(Priority::Urgent),
                f_high == Filter::WithPriority(Priority::High),
                f_medium == Filter::WithPriority(Priority::Medium),
                f_low == Filter::WithPriority(Priority::Low),
            decreases j,
        {
            proof {
                lemma_newest_first_members(s.subrange(j as int, n as int), Filter::Unarchived);
                lemma_newest_first_members(s.subrange(j as int, n as int), f_today);
                lemma_newest_first_members(s.subrange(j as int, n as int), f_week);
                lemma_newest_first_members(s.subrange(j as int, n as int), f_month);
                lemma_newest_first_members(s.subrange(j as int, n as int), f_urgent);
                lemma_newest_first_members(s.subrange(j as int, n as int), f_high);
                lemma_newest_first_members(s.subrange(j as int, n as int), f_medium);
                lemma_newest_first_members(s.subrange(j as int, n as int), f_low);
            }
            j -= 1;
            proof {
                assert(s.subrange(j as int, n as int).drop_first() =~= s.subrange(j + 1, n as int));
                assert(s.subrange(j as int, n as int)[0] == self.notes@[j as int]@);
            }
            let note = &self.notes[j];
            if !note.is_archived {
                r.total = r.total + 1;
                let at = note.created_at as i128;
                if at >= today {
                    r.today = r.today + 1;
                }
                if at >= week {
                    r.week = r.week + 1;
                }
                if at >= month {
                    r.month = r.month + 1;
                }
                match note.priority {
                    Priority::Urgent => r.urgent = r.urgent + 1,
                    Priority::High => r.high = r.high + 1,
                    Priority::Medium => r.medium = r.medium + 1,
                    Priority::Low => r.low = r.low + 1,
                }
            }
        }
        proof {
            assert(s.subrange(0, n as int) =~= s);
        }
        r
    }

    /// Adds each of the names to the tag table that it lacks.
    fn register_tags(&mut self, add: &Vec<String>)
        requires
            old(self).wf(),
        ensures
            final(self).wf(),
            final(self).notes_view() == old(self).notes_view(),
            final(self).next_identity() == old(self).next_identity(),
            final(self).tag_table().subrange(0, old(self).tag_table().len() as int) == old(self).tag_table(),
            forall|t: Seq<char>| final(self).tag_table().contains(t) <==> (old(self).tag_table().contains(t) || names(add@).contains(t)),
    {
        let ghost start = self.tag_table();
        let mut i: usize = 0;
        proof {
            assert(self.tag_table().subrange(0, start.len() as int) =~= start);
        }
        while i < add.len()
            invariant
                i <= add.len(),
                self.wf(),
                self.notes_view() == old(self).notes_view(),
                self.next_identity() == old(self).next_identity(),
                start == old(self).tag_table(),
                self.tag_table().len() >= start.len(),
                self.tag_table().subrange(0, start.len() as int) == start,
                forall|b: int| 0 <= b < i ==> self.tag_table().contains(#[trigger] names(add@)[b]),
                forall|a: int| 0 <= a < self.tag_table().len() ==> (start.contains(#[trigger] self.tag_table()[a]) || names(add@).contains(self.tag_table()[a])),
            decreases add.len() - i,
        {
            let ghost before = self.tag_table();
            if !holds_name(&self.tags, &add[i]) {
                let c = add[i].clone();
                self.tags.push(c);
                proof {
                    let after = self.tag_table();
                    assert(after =~= before.push(add@[i as int]@));
                    assert(after[before.len() as int] == names(add@)[i as int]);
                    assert(after.subrange(0, start.len() as int) =~= before.subrange(0, start.len() as int));
                    assert forall|b: int| 0 <= b < i implies after.contains(#[trigger] names(add@)[b]) by {
                        let a = choose|a: int| 0 <= a < before.len() && before[a] == names(add@)[b];
                        assert(after[a] == names(add@)[b]);
                    }
                    assert forall|a: int| 0 <= a < after.len() implies (start.contains(#[trigger] after[a]) || names(add@).contains(after[a])) by {
                        if a == before.len() {
                            assert(names(add@)[i as int] == after[a]);
                        } else {
                            assert(after[a] == before[a]);
                        }
                    }
                    let s = self.notes_view();
                    assert forall|k: int, m: int| 0 <= k < s.len() && 0 <= m < s[k].tags.len() implies after.contains(#[trigger] s[k].tags[m]) by {
                        let a = choose|a: int| 0 <= a < before.len() && before[a] == s[k].tags[m];
                        assert(after[a] == before[a]);
                    }
                    assert(after.no_duplicates());
                }
            } else {
                proof {
                    assert(names(add@)[i as int] == add@[i as int]@);
                }
            }
            i += 1;
        }
        proof {
            let fin = self.tag_table();
            assert forall|t: Seq<char>| fin.contains(t) <==> (start.contains(t) || names(add@).contains(t)) by {
                if start.contains(t) {
                    let a = choose|a: int| 0 <= a < start.len() && start[a] == t;
                    assert(fin.subrange(0, start.len() as int)[a] == t);
                    assert(fin[a] == t);
                }
                if names(add@).contains(t) {
                    let b = choose|b: int| 0 <= b < names(add@).len() && names(add@)[b] == t;
                    assert(fin.contains(names(add@)[b]));
                }
                if fin.contains(t) {
                    let a = choose|a: int| 0 <= a < fin.len() && fin[a] == t;
                    assert(start.contains(fin[a]) || names(add@).contains(fin[a]));
                }
            }
        }
    }

    /// Stores a note whose identity is the next one, in creation order.
    fn place(&mut self, note: Note)
        requires
            old(self).wf(),
            note.id == Some(old(self).next_identity()),
            old(self).next_identity() < i64::MAX,
            note@.tags.no_duplicates(),
            forall|m: int| 0 <= m < note@.tags.len() ==> old(self).tag_table().contains(#[trigger] note@.tags[m]),
        ensures
            final(self).wf(),
            final(self).tag_table() == old(self).tag_table(),
            final(self).next_identity() == old(self).next_identity() + 1,
            exists|p: int| 0 <= p <= old(self).notes_view().len() && final(self).notes_view() == old(self).notes_view().insert(p, note@),
    {
        let ghost s = self.notes_view();
        let ghost x = note@;
        let mut j: usize = self.notes.len();
        while j > 0 && self.notes[j - 1].created_at > note.created_at
            invariant
                j <= self.notes@.len(),
                s == self.notes_view(),
                x == note@,
                forall|k: int| j <= k < s.len() ==> (#[trigger] s[k]).created_at > x.created_at,
            decreases j,
        {
            j -= 1;
        }
        proof {
            assert forall|k: int| 0 <= k < j implies precedes(#[trigger] s[k], x) by {
                assert(s[j - 1].created_at <= x.created_at);
                if k < j - 1 {
                    assert(precedes(s[k], s[j - 1]));
                }
                assert(note_id(s[k]) < note_id(x));
            }
            assert forall|k: int| j <= k < s.len() implies precedes(x, #[trigger] s[k]) by {}
            assert forall|k: int| 0 <= k < s.len() implies (#[trigger] s[k]).id != x.id by {
                assert(note_id(s[k]) < note_id(x));
            }
            lemma_insert_in_order(s, j as int, x);
            s.insert_ensures(j as int, x);
        }
        self.notes.insert(j, note);
        self.next_id = self.next_id + 1;
        proof {
            let t = self.notes_view();
            assert(t =~= s.insert(j as int, x));
            assert forall|i: int| j < i < t.len() implies t[i] == s[i - 1] by {
                assert(s.insert(j as int, x)[(i - 1) + 1] == s[i - 1]);
            }
            assert forall|k: int| 0 <= k < t.len() implies ((#[trigger] t[k]).id matches Some(i) && 1 <= i < self.next_id) by {
                if k != j {
                    let a = if k < j { k } else { k - 1 };
                    assert(t[k] == s[a]);
                }
            }
            assert forall|k: int| 0 <= k < t.len() implies (#[trigger] t[k]).tags.no_duplicates() by {
                if k != j {
                    let a = if k < j { k } else { k - 1 };
                    assert(t[k] == s[a]);
                }
            }
            assert forall|k: int, m: int| 0 <= k < t.len() && 0 <= m < t[k].tags.len() implies self.tag_table().contains(#[trigger] t[k].tags[m]) by {
                if k != j {
                    let a = if k < j { k } else { k - 1 };
                    assert(t[k] == s[a]);
                }
            }
        }
    }

    /// Adds a note created at `now`: rejects empty content; otherwise gives
    /// it the next identity, collapses repeated tags, records new tag names,
    /// and returns the stored note.
    pub fn add_note(&mut self, content: &str, tags: Vec<String>, priority: Priority, now: i64) -> (r: Result<Note, NoteError>)
        requires
            old(self).wf(),
        ensures
            final(self).wf(),
            content@.len() == 0 ==> r == Err::<Note, NoteError>(NoteError::EmptyContent) && *final(self) == *old(self),
            content@.len() > 0 && old(self).next_identity() == i64::MAX ==> r == Err::<Note, NoteError>(NoteError::IdsExhausted) && *final(self) == *old(self),
            content@.len() > 0 && old(self).next_identity() < i64::MAX ==> {
                &&& r matches Ok(n)
                &&& n@.id == Some(old(self).next_identity())
                &&& n@.content == content@
                &&& n@.priority == priority
                &&& n@.created_at == now
                &&& n@.updated_at == now
                &&& !n@.is_archived
                &&& n@.tags.no_duplicates()
                &&& forall|t: Seq<char>| n@.tags.contains(t) <==> names(tags@).contains(t)
                &&& exists|p: int| 0 <= p <= old(self).notes_view().len() && final(self).notes_view() == old(self).notes_view().insert(p, n@)
                &&& final(self).next_identity() == old(self).next_identity() + 1
                &&& final(self).tag_table().subrange(0, old(self).tag_table().len() as int) == old(self).tag_table()
                &&& forall|t: Seq<char>| final(self).tag_table().contains(t) <==> (old(self).tag_table().contains(t) || names(tags@).contains(t))
            },
    {
        if content.is_empty() {
            return Err(NoteError::EmptyContent);
        }
        if self.next_id == i64::MAX {
            return Err(NoteError::IdsExhausted);
        }
        let distinct = distinct_tags(&tags);
        self.register_tags(&distinct);
        let note = Note {
            id: Some(self.next_id),
            content: String::from_str(content),
            priority,
            created_at: now,
            updated_at: now,
            is_archived: false,
            tags: distinct,
        };
        let stored = copy_note(&note);
        proof {
            assert forall|m: int| 0 <= m < note@.tags.len() implies self.tag_table().contains(#[trigger] note@.tags[m]) by {
                assert(names(distinct@).contains(note@.tags[m]));
            }
        }
        self.place(note);
        Ok(stored)
    }

    /// Removes the note with the identity, if there is one; its tag names
    /// stay in the tag table.
    pub fn delete_note(&mut self, id: i64)
        requires
            old(self).wf(),
        ensures
            final(self).wf(),
            final(self).tag_table() == old(self).tag_table(),
            final(self).next_identity() == old(self).next_identity(),
            find_note(old(self).notes_view(), id) is None ==> final(self).notes_view() == old(self).notes_view(),
            find_note(old(self).notes_view(), id) is Some ==> exists|k: int|
                0 <= k < old(self).notes_view().len()
                && (#[trigger] old(self).notes_view()[k]).id == Some(id)
                && final(self).notes_view() == old(self).notes_view().remove(k),
    {
        let ghost s = self.notes_view();
        let mut k: usize = 0;
        while k < self.notes.len()
            invariant
                self.wf(),
                s == self.notes_view(),
                s == old(self).notes_view(),
                self.tag_table() == old(self).tag_table(),
                self.next_identity() == old(self).next_identity(),
                k <= s.len(),
                forall|i: int| 0 <= i < k ==> s[i].id != Some(id),
            decreases self.notes.len() - k,
        {
            if self.notes[k].id == Some(id) {
                proof {
                    lemma_remove_in_order(s, k as int);
                    assert(s[k as int].id == Some(id));
                }
                self.notes.remove(k);
                proof {
                    let t = self.notes_view();
                    assert(t =~= s.remove(k as int));
                    assert forall|i: int| 0 <= i < t.len() implies ((#[trigger] t[i]).id matches Some(d) && 1 <= d < self.next_id) by {
                        assert(t[i] == s[if i < k { i } else { i + 1 }]);
                    }
                    assert forall|i: int| 0 <= i < t.len() implies (#[trigger] t[i]).tags.no_duplicates() by {
                        assert(t[i] == s[if i < k { i } else { i + 1 }]);
                    }
                    assert forall|i: int, m: int| 0 <= i < t.len() && 0 <= m < t[i].tags.len() implies self.tag_table().contains(#[trigger] t[i].tags[m]) by {
                        assert(t[i] == s[if i < k { i } else { i + 1 }]);
                    }
                }
                return;
            }
            k += 1;
        }
    }

    /// Takes back a note read from storage. Its identity must be present,
    /// at least the next one and below `i64::MAX`, else the record is
    /// refused; repeated tags collapse and new tag names are recorded.
    pub fn restore_note(&mut self, note: Note) -> (r: Result<(), NoteError>)
        requires
            old(self).wf(),
        ensures
            final(self).wf(),
            match note.id {
                Some(i) => if old(self).next_identity() <= i < i64::MAX {
                    &&& r is Ok
                    &&& final(self).next_identity() == i + 1
                    &&& exists|p: int, v: NoteView| {
                        &&& 0 <= p <= old(self).notes_view().len()
                        &&& final(self).notes_view() == old(self).notes_view().insert(p, v)
                        &&& v == (NoteView { tags: v.tags, ..note@ })
                        &&& v.tags.no_duplicates()
                        &&& forall|t: Seq<char>| v.tags.contains(t) <==> note@.tags.contains(t)
                    }
                    &&& forall|t: Seq<char>| final(self).tag_table().contains(t) <==> (old(self).tag_table().contains(t) || note@.tags.contains(t))
                } else {
                    r == Err::<(), NoteError>(NoteError::CorruptRecord(i)) && *final(self) == *old(self)
                },
                None => r == Err::<(), NoteError>(NoteError::CorruptRecord(0)) && *final(self) == *old(self),
            },
    {
        let i = match note.id {
            Some(i) => i,
            None => {
                return Err(NoteError::CorruptRecord(0));
            },
        };
        if i < self.next_id || i == i64::MAX {
            return Err(NoteError::CorruptRecord(i));
        }
        let distinct = distinct_tags(&note.tags);
        self.register_tags(&distinct);
        self.next_id = i;
        let ghost src = note@;
        let kept = Note {
            id: note.id,
            content: note.content,
            priority: note.priority,
            created_at: note.created_at,
            updated_at: note.updated_at,
            is_archived: note.is_archived,
            tags: distinct,
        };
        proof {
            assert forall|m: int| 0 <= m < kept@.tags.len() implies self.tag_table().contains(#[trigger] kept@.tags[m]) by {
                assert(names(distinct@).contains(kept@.tags[m]));
            }
            assert(kept@ == (NoteView { tags: kept@.tags, ..src }));
        }
        self.place(kept);
        Ok(())
    }

    /// Records a tag name read from storage, if the table lacks it.
    pub fn restore_tag(&mut self, name: String)
        requires
            old(self).wf(),
        ensures
            final(self).wf(),
            final(self).notes_view() == old(self).notes_view(),
            final(self).next_identity() == old(self).next_identity(),
            forall|t: Seq<char>| final(self).tag_table().contains(t) <==> (old(self).tag_table().contains(t) || t == name@),
    {
        let ghost n = name@;
        let mut one: Vec<String> = Vec::new();
        one.push(name);
        proof {
            assert(names(one@)[0] == n);
            assert forall|t: Seq<char>| names(one@).contains(t) <==> t == n by {
                if names(one@).contains(t) {
                    let a = choose|a: int| 0 <= a < names(one@).len() && names(one@)[a] == t;
                    assert(a == 0);
                }
            }
        }
        self.register_tags(&one);
    }

    /// Makes every identity up to `last` count as handed out, so that a new
    /// note never receives one that was used before.
    pub fn reserve_identities(&mut self, last: i64)
        requires
            old(self).wf(),
        ensures
            final(self).wf(),
            final(self).notes_view() == old(self).notes_view(),
            final(self).tag_table() == old(self).tag_table(),
            final(self).next_identity() == if last < old(self).next_identity() {
                old(self).next_identity()
            } else if last == i64::MAX {
                i64::MAX
            } else {
                (last + 1) as i64
            },
    {
        if last >= self.next_id {
            self.next_id = if last == i64::MAX { i64::MAX } else { last + 1 };
        }
    }

    /// The tag names that the table holds, in the order they were recorded.
    pub fn tag_names(&self) -> (r: Vec<String>)
        ensures
            names(r@) == self.tag_table(),
    {
        copy_names(&self.tags)
    }

    /// What well-formedness says of the stored notes.
    pub proof fn lemma_wf_notes(&self)
        requires
            self.wf(),
        ensures
            in_order(self.notes_view()),
            ids_distinct(self.notes_view()),
            forall|k: int| 0 <= k < self.notes_view().len() ==> (#[trigger] self.notes_view()[k]).id is Some,
    {
        assert forall|k: int| 0 <= k < self.notes_view().len() implies (#[trigger] self.notes_view()[k]).id is Some by {
            assert(self.notes_view()[k].id matches Some(i) && 1 <= i < self.next_id);
        }
    }
}

} // verus!
