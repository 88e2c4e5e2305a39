//! The store of tracked titles, keyed by title, and its text form: a header
//! line, then one line per entry.

use vstd::prelude::*;
use crate::entry::{
    AnimeEntry, EntryError, EntryView, entry_of_line, lemma_line_round_trip, line_of, template_ok,
};
use crate::text::{chars_of, string_of};

verus! {

pub open spec fn entry_views(es: Seq<AnimeEntry>) -> Seq<EntryView> {
    es.map_values(|e: AnimeEntry| e@)
}

pub open spec fn has_title(v: Seq<EntryView>, t: Seq<char>) -> bool {
    exists|i: int| 0 <= i < v.len() && (#[trigger] v[i]).title == t
}

/// No two entries share a title.
pub open spec fn titles_unique(v: Seq<EntryView>) -> bool {
    forall|i: int, j: int|
        0 <= i < v.len() && 0 <= j < v.len() && i != j ==> (#[trigger] v[i]).title != (
        #[trigger] v[j]).title
}

/// `v` with `e` in place of the entry of the same title, or with `e` added
/// at the end when no entry has that title.
pub open spec fn insert_spec(v: Seq<EntryView>, e: EntryView) -> Seq<EntryView> {
    if has_title(v, e.title) {
        v.update(choose|i: int| 0 <= i < v.len() && (#[trigger] v[i]).title == e.title, e)
    } else {
        v.push(e)
    }
}

/// `v` after inserting, in order, the entry of each line of `lines` that
/// describes one.
pub open spec fn load_spec(v: Seq<EntryView>, lines: Seq<Seq<char>>) -> Seq<EntryView>
    decreases lines.len(),
{
    if lines.len() == 0 {
        v
    } else {
        let w = load_spec(v, lines.drop_last());
        match entry_of_line(lines.last()) {
            Ok(e) => insert_spec(w, e),
            Err(_) => w,
        }
    }
}

pub open spec fn header_spec() -> Seq<char> {
    seq![
        'c', 'a', 't', 'e', 'g', 'o', 'r', 'y', ',', 't', 'i', 't', 'l', 'e', ',', 'u', 'r', 'l',
        '_', 't', 'e', 'm', 'p', 'l', 'a', 't', 'e', ',', 'w', 'a', 't', 'c', 'h', 'e', 'd', ',',
        't', 'i', 'm', 'e', 's', 't', 'a', 'm', 'p', ',', 'n', 'o', 't', 'e',
    ]
}

pub open spec fn string_views(v: Seq<String>) -> Seq<Seq<char>> {
    v.map_values(|s: String| s@)
}

/// The stored lines of `v`, one per entry, in order.
pub open spec fn lines_of(v: Seq<EntryView>) -> Seq<Seq<char>> {
    v.map_values(|e: EntryView| line_of(e))
}

/// An entry whose line reads back as itself: no comma in a field but the
/// note, and an accepted template.
pub open spec fn storable(e: EntryView) -> bool {
    &&& !e.category.contains(',')
    &&& !e.title.contains(',')
    &&& !e.url_template.contains(',')
    &&& !e.watched.contains(',')
    &&& template_ok(e.url_template)
}

/// Loading the stored lines of a store into an empty one gives the same
/// entries in the same order, when titles are unique and every entry is
/// storable.
pub proof fn lemma_store_round_trip(v: Seq<EntryView>)
    requires
        titles_unique(v),
        forall|i: int| 0 <= i < v.len() ==> storable(#[trigger] v[i]),
    ensures
        load_spec(Seq::empty(), lines_of(v)) == v,
    decreases v.len(),
{
    if v.len() == 0 {
        assert(lines_of(v) =~= Seq::<Seq<char>>::empty());
        assert(v =~= Seq::<EntryView>::empty());
    } else {
        let w = v.drop_last();
        let e = v.last();
        assert forall|i: int, j: int|
            0 <= i < w.len() && 0 <= j < w.len() && i != j implies (#[trigger] w[i]).title != (
            #[trigger] w[j]).title by {
            assert(w[i] == v[i] && w[j] == v[j]);
        }
        assert forall|i: int| 0 <= i < w.len() implies storable(#[trigger] w[i]) by {
            assert(w[i] == v[i]);
        }
        lemma_store_round_trip(w);
        assert(lines_of(v).drop_last() =~= lines_of(w));
        assert(lines_of(v).last() == line_of(e));
        lemma_line_round_trip(e);
        assert(!has_title(w, e.title)) by {
            if has_title(w, e.title) {
                let i = choose|i: int| 0 <= i < w.len() && (#[trigger] w[i]).title == e.title;
                assert(v[i].title == v[v.len() - 1].title);
            }
        }
        assert(w.push(e) =~= v);
    }
}

/// `order` lists each index below `n` exactly once.
pub open spec fn is_order(order: Seq<usize>, n: nat) -> bool {
    &&& order.len() == n
    &&& order.no_duplicates()
    &&& forall|k: int| 0 <= k < order.len() ==> #[trigger] order[k] < n
}

/// The entries at `order` go from the latest timestamp to the earliest.
pub open spec fn newest_first(v: Seq<EntryView>, order: Seq<usize>) -> bool {
    forall|a: int, b: int|
        0 <= a < b < order.len() ==> v[#[trigger] order[a] as int].timestamp >= v[
            #[trigger] order[b] as int].timestamp
}

/// The tracked titles.
pub struct Memories {
    pub entries: Vec<AnimeEntry>,
}

impl View for Memories {
    type V = Seq<EntryView>;

    open spec fn view(&self) -> Seq<EntryView> {
        entry_views(self.entries@)
    }
}

impl Memories {
    pub open spec fn wf(&self) -> bool {
        titles_unique(self@)
    }

    pub fn new() -> (r: Memories)
        ensures
            r@ == Seq::<EntryView>::empty(),
            r.wf(),
    {
        let r = Memories { entries: Vec::new() };
        assert(r@ =~= Seq::<EntryView>::empty());
        r
    }

    /// Where the entry titled `title` stands.
    pub fn position(&self, title: &str) -> (r: Option<usize>)
        ensures
            match r {
                Some(i) => i < self@.len() && self@[i as int].title == title@,
                None => !has_title(self@, title@),
            },
    {
        let t = string_of(&chars_of(title));
        let mut i: usize = 0;
        while i < self.entries.len()
            invariant
                i <= self.entries.len(),
                t@ == title@,
                forall|j: int| 0 <= j < i ==> (#[trigger] self@[j]).title != title@,
            decreases self.entries.len() - i,
        {
            if self.entries[i].title == t {
                return Some(i);
            }
            i = i + 1;
        }
        None
    }

    /// The entry titled `title`.
    pub fn get(&self, title: &str) -> (r: Option<&AnimeEntry>)
        ensures
            r is Some <==> has_title(self@, title@),
            r is Some ==> exists|i: int|
                0 <= i < self@.len() && self@[i] == r->0@ && r->0@.title == title@,
    {
        match self.position(title) {
            Some(i) => Some(&self.entries[i]),
            None => None,
        }
    }

    /// Records a new watched range and note, changed at `now`, on the entry
    /// titled `title`; false when there is none.
    pub fn update_entry(&mut self, title: &str, eps: &str, note: &str, now: u64) -> (r: bool)
        requires
            old(self).wf(),
        ensures
            final(self).wf(),
            r == has_title(old(self)@, title@),
            !r ==> final(self)@ == old(self)@,
            r ==> exists|i: int|
                0 <= i < old(self)@.len() && old(self)@[i].title == title@ && final(self)@
                    == old(self)@.update(
                    i,
                    EntryView { watched: eps@, timestamp: now, note: note@, ..old(self)@[i] },
                ),
    {
        let ghost v = self@;
        match self.position(title) {
            Some(i) => {
                let mut e = self.entries[i].clone_entry();
                e.update(eps, note, now);
                self.entries.set(i, e);
                assert(self@ =~= v.update(
                    i as int,
                    EntryView { watched: eps@, timestamp: now, note: note@, ..v[i as int] },
                ));
                true
            },
            None => false,
        }
    }

    /// Adds a new entry made of `title`, `url` and `eps` at `now`, or puts it
    /// in place of the entry with that title. Nothing happens, and the result
    /// is `Ok(false)`, when one of the three is empty; an invalid template is
    /// refused.
    pub fn add_new(&mut self, title: &str, url: &str, eps: &str, now: u64) -> (r: Result<
        bool,
        EntryError,
    >)
        requires
            old(self).wf(),
        ensures
            final(self).wf(),
            (title@.len() == 0 || url@.len() == 0 || eps@.len() == 0) ==> r == Ok::<
                bool,
                EntryError,
            >(false) && final(self)@ == old(self)@,
            (title@.len() > 0 && url@.len() > 0 && eps@.len() > 0 && !template_ok(url@)) ==> r
                == Err::<bool, EntryError>(EntryError::BadTemplate) && final(self)@ == old(
                self,
            )@,
            (title@.len() > 0 && url@.len() > 0 && eps@.len() > 0 && template_ok(url@)) ==> r
                == Ok::<bool, EntryError>(true) && final(self)@ == insert_spec(
                old(self)@,
                EntryView {
                    category: seq!['N', 'A'],
                    title: title@,
                    url_template: url@,
                    watched: eps@,
                    timestamp: now,
                    note: Seq::empty(),
                },
            ),
    {
        let title_chars = chars_of(title);
        let eps_chars = chars_of(eps);
        if title_chars.len() == 0 || eps_chars.len() == 0 || chars_of(url).len() == 0 {
            return Ok(false);
        }
        match AnimeEntry::new(string_of(&title_chars), url, string_of(&eps_chars), now) {
            Ok(e) => {
                self.insert(e);
                Ok(true)
            },
            Err(err) => Err(err),
        }
    }

    /// Adds the entries of stored lines, the first of which is a header and
    /// is skipped; a line that describes no entry is skipped too.
    pub fn load_lines(&mut self, lines: &Vec<String>)
        requires
            old(self).wf(),
        ensures
            final(self).wf(),
            lines@.len() == 0 ==> final(self)@ == old(self)@,
            lines@.len() > 0 ==> final(self)@ == load_spec(
                old(self)@,
                string_views(lines@).drop_first(),
            ),
    {
        let ghost start = self@;
        let ghost ls = string_views(lines@);
        let mut i: usize = 1;
        if lines.len() == 0 {
            return;
        }
        while i < lines.len()
            invariant
                1 <= i <= lines.len(),
                ls == string_views(lines@),
                self.wf(),
                self@ == load_spec(start, ls.subrange(1, i as int)),
            decreases lines.len() - i,
        {
            let ghost done = ls.subrange(1, i + 1);
            assert(done.drop_last() =~= ls.subrange(1, i as int));
            assert(done.last() == lines@[i as int]@);
            match AnimeEntry::from_str(lines[i].as_str()) {
                Ok(e) => self.insert(e),
                Err(_) => {},
            }
            i = i + 1;
        }
        assert(ls.subrange(1, ls.len() as int) =~= ls.drop_first());
    }

    /// The stored form: a header line, then the line of each entry in order.
    pub fn save_lines(&self) -> (r: Vec<String>)
        ensures
            r@.len() == self@.len() + 1,
            r@[0]@ == header_spec(),
            forall|i: int| 0 <= i < self@.len() ==> r@[i + 1]@ == line_of(#[trigger] self@[i]),
            string_views(r@).drop_first() == lines_of(self@),
    {
        let header = string_of(
            &vec![
                'c', 'a', 't', 'e', 'g', 'o', 'r', 'y', ',', 't', 'i', 't', 'l', 'e', ',', 'u', 'r',
                'l', '_', 't', 'e', 'm', 'p', 'l', 'a', 't', 'e', ',', 'w', 'a', 't', 'c', 'h', 'e',
                'd', ',', 't', 'i', 'm', 'e', 's', 't', 'a', 'm', 'p', ',', 'n', 'o', 't', 'e',
            ],
        );
        assert(header@ =~= header_spec());
        let mut out: Vec<String> = Vec::new();
        out.push(header);
        let mut i: usize = 0;
        while i < self.entries.len()
            invariant
                i <= self.entries.len(),
                out@.len() == i + 1,
                out@[0]@ == header_spec(),
                forall|j: int| 0 <= j < i ==> out@[j + 1]@ == line_of(#[trigger] self@[j]),
            decreases self.entries.len() - i,
        {
            out.push(self.entries[i].to_line());
            i = i + 1;
        }
        assert(string_views(out@).drop_first() =~= lines_of(self@)) by {
            assert forall|j: int| 0 <= j < self@.len() implies string_views(out@).drop_first()[j]
                == lines_of(self@)[j] by {
                assert(out@[j + 1]@ == line_of(self@[j]));
            }
        }
        out
    }

    /// The indices of the entries, the most recently changed first.
    pub fn recency_order(&self) -> (r: Vec<usize>)
        ensures
            is_order(r@, self@.len()),
            newest_first(self@, r@),
    {
        let n = self.entries.len();
        let mut order: Vec<usize> = Vec::new();
        let mut i: usize = 0;
        while i < n
            invariant
                n == self.entries.len(),
                i <= n,
                is_order(order@, i as nat),
                newest_first(self@, order@),
            decreases n - i,
        {
            let ts = self.entries[i].timestamp;
            let mut pos: usize = 0;
            while pos < order.len() && self.entries[order[pos]].timestamp >= ts
                invariant
                    n == self.entries.len(),
                    i < n,
                    pos <= order.len(),
                    is_order(order@, i as nat),
                    ts == self@[i as int].timestamp,
                    forall|q: int| 0 <= q < pos ==> self@[#[trigger] order@[q] as int].timestamp >= ts,
                decreases order.len() - pos,
            {
                pos = pos + 1;
            }
            let ghost before = order@;
            order.insert(pos, i);
            assert(order@ =~= before.subrange(0, pos as int).push(i).add(
                before.subrange(pos as int, before.len() as int),
            ));
            assert forall|a: int, b: int| 0 <= a < b < order@.len() implies self@[#[trigger] order@[
                a] as int].timestamp >= self@[#[trigger] order@[b] as int].timestamp by {
                if b < pos {
                    assert(order@[a] == before[a] && order@[b] == before[b]);
                } else if b == pos {
                    assert(order@[a] == before[a]);
                } else if a < pos {
                    assert(order@[a] == before[a] && order@[b] == before[b - 1]);
                    assert(self@[before[pos as int] as int].timestamp < ts);
                } else if a == pos {
                    assert(order@[b] == before[b - 1]);
                    assert(self@[before[pos as int] as int].timestamp < ts);
                } else {
                    assert(order@[a] == before[a - 1] && order@[b] == before[b - 1]);
                }
            }
            assert forall|x: int, y: int| 0 <= x < order@.len() && 0 <= y < order@.len() && x
                != y implies order@[x] != order@[y] by {
                if x != pos as int && y != pos as int {
                    let bx = if x < pos { x } else { x - 1 };
                    let by_ = if y < pos { y } else { y - 1 };
                    assert(order@[x] == before[bx] && order@[y] == before[by_]);
                } else if x == pos as int {
                    let by_ = if y < pos { y } else { y - 1 };
                    assert(before[by_] < i);
                } else {
                    let bx = if x < pos { x } else { x - 1 };
                    assert(before[bx] < i);
                }
            }
            assert forall|k: int| 0 <= k < order@.len() implies #[trigger] order@[k] < i + 1 by {
                if k < pos {
                    assert(order@[k] == before[k]);
                } else if k > pos {
                    assert(order@[k] == before[k - 1]);
                }
            }
            i = i + 1;
        }
        order
    }

    /// The titles, the most recently changed first.
    pub fn titles_by_recency(&self) -> (r: Vec<String>)
        ensures
            exists|order: Seq<usize>|
                #![trigger is_order(order, self@.len())]
                is_order(order, self@.len()) && newest_first(self@, order) && r@.len()
                    == order.len() && forall|k: int|
                    0 <= k < order.len() ==> (#[trigger] r@[k])@ == self@[order[k] as int].title,
    {
        let order = self.recency_order();
        let mut out: Vec<String> = Vec::new();
        let mut k: usize = 0;
        while k < order.len()
            invariant
                k <= order.len(),
                is_order(order@, self@.len()),
                out@.len() == k,
                forall|j: int| 0 <= j < k ==> (#[trigger] out@[j])@ == self@[order@[j] as int].title,
            decreases order.len() - k,
        {
            out.push(self.entries[order[k]].title.clone());
            k = k + 1;
        }
        out
    }

    /// Puts `e` in place of the entry with its title, or adds it.
    pub fn insert(&mut self, e: AnimeEntry)
        requires
            old(self).wf(),
        ensures
            final(self).wf(),
            final(self)@ == insert_spec(old(self)@, e@),
    {
        let ghost v = self@;
        match self.position(e.title.as_str()) {
            Some(i) => {
                let ghost k = choose|k: int| 0 <= k < v.len() && (#[trigger] v[k]).title == e@.title;
                assert(k == i);
                self.entries.set(i, e);
                assert(self@ =~= v.update(i as int, e@));
            },
            None => {
                self.entries.push(e);
                assert(self@ =~= v.push(e@));
            },
        }
    }
}

} // verus!
