//! The frame map: named pixel rectangles of a sprite sheet, and the ordered
//! view of them that consumers read.

use vstd::prelude::*;

use crate::order::lemma_name_le_refl;
use crate::order::lemma_name_le_total;
use crate::order::lemma_name_le_trans;
use crate::order::name_le;
use crate::order::name_le_exec;

verus! {

/// The pixel-space frame of one sprite as the document states it: position
/// `x`, `y` and extents `w`, `h`, all non-negative integers.
#[derive(Clone, Copy, PartialEq, Eq, Structural, Debug)]
pub struct Frame {
    pub x: u64,
    pub y: u64,
    pub w: u64,
    pub h: u64,
}

/// A pixel rectangle handed to the consumer: top-left corner and extents.
#[derive(Clone, Copy, PartialEq, Eq, Structural, Debug)]
pub struct Rect {
    pub x: u64,
    pub y: u64,
    pub width: u64,
    pub height: u64,
}

/// The error of `parse`: the document is not structured as expected.
#[derive(Clone, Copy, PartialEq, Eq, Structural, Debug)]
pub struct MalformedDocument;

/// The rectangle that a frame maps to: the fields carry over unchanged.
pub open spec fn rect_of(f: Frame) -> Rect {
    Rect { x: f.x, y: f.y, width: f.w, height: f.h }
}

/// One entry of the map at the specification level: a name and its frame.
pub open spec fn entry_le(a: (Seq<u8>, Frame), b: (Seq<u8>, Frame)) -> bool {
    name_le(a.0, b.0)
}

/// The mathematical value of a vector of entries.
pub open spec fn entries_view(s: Seq<(Vec<u8>, Frame)>) -> Seq<(Seq<u8>, Frame)> {
    s.map_values(|p: (Vec<u8>, Frame)| (p.0@, p.1))
}

/// Entries arranged by name: each one sorts no later than those after it.
pub open spec fn entries_sorted(s: Seq<(Seq<u8>, Frame)>) -> bool {
    forall|i: int, j: int| 0 <= i < j < s.len() ==> entry_le(s[i], s[j])
}

/// No name appears twice among the entries.
pub open spec fn distinct_names(s: Seq<(Seq<u8>, Frame)>) -> bool {
    forall|i: int, j: int| 0 <= i < j < s.len() ==> s[i].0 != s[j].0
}

/// Stable insertion of an entry into a sorted run: the new entry goes before
/// the first entry whose name sorts strictly after it, so it lands after any
/// entry with the same name.
pub open spec fn insert_sorted(x: (Seq<u8>, Frame), s: Seq<(Seq<u8>, Frame)>) -> Seq<
    (Seq<u8>, Frame),
>
    decreases s.len(),
{
    if s.len() == 0 {
        seq![x]
    } else if !entry_le(s[0], x) {
        seq![x] + s
    } else {
        seq![s[0]] + insert_sorted(x, s.drop_first())
    }
}

/// The entries arranged by the name ordering: a stable insertion sort, taking
/// the entries in the order they stand.
pub open spec fn isort(s: Seq<(Seq<u8>, Frame)>) -> Seq<(Seq<u8>, Frame)>
    decreases s.len(),
{
    if s.len() == 0 {
        Seq::empty()
    } else {
        insert_sorted(s.last(), isort(s.drop_last()))
    }
}

/// The rectangles of a run of entries, one per entry, in the same order.
pub open spec fn rects_of_entries(s: Seq<(Seq<u8>, Frame)>) -> Seq<Rect> {
    s.map_values(|p: (Seq<u8>, Frame)| rect_of(p.1))
}

/// The ordered rectangles of a map value: its entries sorted by name, each
/// projected to its rectangle.
pub open spec fn ordered_rects(s: Seq<(Seq<u8>, Frame)>) -> Seq<Rect> {
    rects_of_entries(isort(s))
}

proof fn lemma_insert_sorted_multiset(x: (Seq<u8>, Frame), s: Seq<(Seq<u8>, Frame)>)
    ensures
        insert_sorted(x, s).to_multiset() == s.to_multiset().insert(x),
        insert_sorted(x, s).len() == s.len() + 1,
    decreases s.len(),
{
    broadcast use vstd::seq_lib::group_to_multiset_ensures;

    if s.len() == 0 {
        assert(seq![x] =~= Seq::empty().push(x));
        assert(seq![x].to_multiset() =~= s.to_multiset().insert(x));
    } else if !entry_le(s[0], x) {
        assert(seq![x] + s =~= (seq![x] + s.drop_last()).push(s.last()));
        lemma_multiset_prepend(x, s);
    } else {
        lemma_insert_sorted_multiset(x, s.drop_first());
        lemma_multiset_prepend(s[0], insert_sorted(x, s.drop_first()));
        lemma_multiset_prepend(s[0], s.drop_first());
        assert(seq![s[0]] + s.drop_first() =~= s);
        assert((seq![s[0]] + insert_sorted(x, s.drop_first())).to_multiset() =~= s.to_multiset().insert(x));
    }
}

proof fn lemma_multiset_prepend(x: (Seq<u8>, Frame), s: Seq<(Seq<u8>, Frame)>)
    ensures
        (seq![x] + s).to_multiset() == s.to_multiset().insert(x),
    decreases s.len(),
{
    broadcast use vstd::seq_lib::group_to_multiset_ensures;

    if s.len() == 0 {
        assert(seq![x] + s =~= Seq::empty().push(x));
    } else {
        assert(seq![x] + s =~= (seq![x] + s.drop_last()).push(s.last()));
        lemma_multiset_prepend(x, s.drop_last());
        assert(s =~= s.drop_last().push(s.last()));
        assert((seq![x] + s).to_multiset() =~= s.to_multiset().insert(x));
    }
}

/// Sorting keeps exactly the entries that were there: the result is a
/// permutation of the input, of the same length.
pub proof fn lemma_isort_permutes(s: Seq<(Seq<u8>, Frame)>)
    ensures
        isort(s).to_multiset() == s.to_multiset(),
        isort(s).len() == s.len(),
    decreases s.len(),
{
    broadcast use vstd::seq_lib::group_to_multiset_ensures;

    if s.len() > 0 {
        lemma_isort_permutes(s.drop_last());
        lemma_insert_sorted_multiset(s.last(), isort(s.drop_last()));
        assert(s =~= s.drop_last().push(s.last()));
        assert(isort(s).to_multiset() =~= s.to_multiset());
    }
}

proof fn lemma_insert_sorted_sorted(x: (Seq<u8>, Frame), s: Seq<(Seq<u8>, Frame)>)
    requires
        entries_sorted(s),
    ensures
        entries_sorted(insert_sorted(x, s)),
    decreases s.len(),
{
    broadcast use vstd::seq_lib::group_to_multiset_ensures;

    if s.len() == 0 {
    } else if !entry_le(s[0], x) {
        let r = seq![x] + s;
        lemma_name_le_total(s[0].0, x.0);
        assert forall|i: int, j: int| 0 <= i < j < r.len() implies entry_le(r[i], r[j]) by {
            if i == 0 {
                assert(r[j] == s[j - 1]);
                if j == 1 {
                    lemma_name_le_refl(s[0].0);
                } else {
                    assert(entry_le(s[0], s[j - 1]));
                }
                lemma_name_le_trans(x.0, s[0].0, r[j].0);
            }
        }
    } else {
        let t = insert_sorted(x, s.drop_first());
        lemma_insert_sorted_sorted(x, s.drop_first());
        lemma_insert_sorted_multiset(x, s.drop_first());
        let r = seq![s[0]] + t;
        assert forall|i: int, j: int| 0 <= i < j < r.len() implies entry_le(r[i], r[j]) by {
            if i == 0 {
                // r[j] is either x or an entry of s after the first; the
                // first entry of s sorts no later than either.
                assert(t.to_multiset().contains(t[j - 1]));
                if t[j - 1] == x {
                    assert(entry_le(s[0], x));
                } else {
                    assert(s.drop_first().to_multiset().contains(t[j - 1]));
                    let k = choose|k: int|
                        0 <= k < s.drop_first().len() && s.drop_first()[k] == t[j - 1];
                    assert(entry_le(s[0], s[k + 1]));
                }
            }
        }
    }
}

/// The sorted entries really are sorted by the name ordering.
pub proof fn lemma_isort_sorted(s: Seq<(Seq<u8>, Frame)>)
    ensures
        entries_sorted(isort(s)),
    decreases s.len(),
{
    if s.len() > 0 {
        lemma_isort_sorted(s.drop_last());
        lemma_insert_sorted_sorted(s.last(), isort(s.drop_last()));
    }
}

proof fn lemma_insert_sorted_at_end(x: (Seq<u8>, Frame), s: Seq<(Seq<u8>, Frame)>)
    requires
        forall|i: int| 0 <= i < s.len() ==> entry_le(s[i], x),
    ensures
        insert_sorted(x, s) == s.push(x),
    decreases s.len(),
{
    if s.len() == 0 {
        assert(seq![x] =~= s.push(x));
    } else {
        lemma_insert_sorted_at_end(x, s.drop_first());
        assert(seq![s[0]] + s.drop_first().push(x) =~= s.push(x));
    }
}

/// Sorting entries already in order leaves them exactly as they are; in
/// particular, sorting twice gives what sorting once gives.
pub proof fn lemma_isort_stable(s: Seq<(Seq<u8>, Frame)>)
    requires
        entries_sorted(s),
    ensures
        isort(s) == s,
    decreases s.len(),
{
    if s.len() > 0 {
        assert(entries_sorted(s.drop_last()));
        lemma_isort_stable(s.drop_last());
        assert forall|i: int| 0 <= i < s.drop_last().len() implies entry_le(
            s.drop_last()[i],
            s.last(),
        ) by {
            assert(entry_le(s[i], s[s.len() - 1]));
        }
        lemma_insert_sorted_at_end(s.last(), s.drop_last());
        assert(s.drop_last().push(s.last()) =~= s);
    }
}

proof fn lemma_rect_multiset_prepend(x: Rect, s: Seq<Rect>)
    ensures
        (seq![x] + s).to_multiset() == s.to_multiset().insert(x),
    decreases s.len(),
{
    broadcast use vstd::seq_lib::group_to_multiset_ensures;

    if s.len() == 0 {
        assert(seq![x] + s =~= Seq::empty().push(x));
    } else {
        assert(seq![x] + s =~= (seq![x] + s.drop_last()).push(s.last()));
        lemma_rect_multiset_prepend(x, s.drop_last());
        assert(s =~= s.drop_last().push(s.last()));
        assert((seq![x] + s).to_multiset() =~= s.to_multiset().insert(x));
    }
}

proof fn lemma_insert_sorted_rects(x: (Seq<u8>, Frame), s: Seq<(Seq<u8>, Frame)>)
    ensures
        rects_of_entries(insert_sorted(x, s)).to_multiset() == rects_of_entries(
            s,
        ).to_multiset().insert(rect_of(x.1)),
    decreases s.len(),
{
    broadcast use vstd::seq_lib::group_to_multiset_ensures;

    if s.len() == 0 {
        assert(rects_of_entries(seq![x]) =~= rects_of_entries(s).push(rect_of(x.1)));
    } else if !entry_le(s[0], x) {
        assert(rects_of_entries(seq![x] + s) =~= seq![rect_of(x.1)] + rects_of_entries(s));
        lemma_rect_multiset_prepend(rect_of(x.1), rects_of_entries(s));
    } else {
        let t = insert_sorted(x, s.drop_first());
        lemma_insert_sorted_rects(x, s.drop_first());
        assert(rects_of_entries(seq![s[0]] + t) =~= seq![rect_of(s[0].1)] + rects_of_entries(t));
        lemma_rect_multiset_prepend(rect_of(s[0].1), rects_of_entries(t));
        assert(rects_of_entries(s) =~= seq![rect_of(s[0].1)] + rects_of_entries(s.drop_first()));
        lemma_rect_multiset_prepend(rect_of(s[0].1), rects_of_entries(s.drop_first()));
        assert(rects_of_entries(insert_sorted(x, s)).to_multiset() =~= rects_of_entries(
            s,
        ).to_multiset().insert(rect_of(x.1)));
    }
}

/// The ordered rectangles are, as a multiset, exactly the rectangles of the
/// map's entries: each occurs as often as entries carry it.
pub proof fn lemma_ordered_rects_multiset(s: Seq<(Seq<u8>, Frame)>)
    ensures
        ordered_rects(s).to_multiset() == rects_of_entries(s).to_multiset(),
    decreases s.len(),
{
    broadcast use vstd::seq_lib::group_to_multiset_ensures;

    if s.len() > 0 {
        lemma_ordered_rects_multiset(s.drop_last());
        lemma_insert_sorted_rects(s.last(), isort(s.drop_last()));
        assert(rects_of_entries(s) =~= rects_of_entries(s.drop_last()).push(rect_of(s.last().1)));
        assert(ordered_rects(s).to_multiset() =~= rects_of_entries(s).to_multiset());
    }
}

/// Sorting is idempotent: sorting entries that are already sorted, such as
/// the result of an earlier sort, changes nothing.
pub proof fn lemma_isort_idempotent(s: Seq<(Seq<u8>, Frame)>)
    ensures
        isort(isort(s)) == isort(s),
{
    lemma_isort_sorted(s);
    lemma_isort_stable(isort(s));
}

/// The ordered rectangles cover the map exactly: there are as many as the
/// map has entries, each is the rectangle of the sorted entry at its place,
/// and the sorted entries are a permutation of the map's entries — nothing
/// duplicated, nothing left out.
pub proof fn lemma_ordered_rects_complete(s: Seq<(Seq<u8>, Frame)>)
    ensures
        ordered_rects(s).len() == s.len(),
        forall|k: int| 0 <= k < s.len() ==> ordered_rects(s)[k] == rect_of(isort(s)[k].1),
        isort(s).to_multiset() == s.to_multiset(),
        ordered_rects(s).to_multiset() == rects_of_entries(s).to_multiset(),
{
    lemma_isort_permutes(s);
    lemma_ordered_rects_multiset(s);
}

/// Reading the ordered rectangles is deterministic: two reads of the same
/// map are identical in order and values.
pub proof fn lemma_ordered_rects_deterministic(m: AsepriteData, r1: Seq<Rect>, r2: Seq<Rect>)
    requires
        r1 == ordered_rects(m@),
        r2 == ordered_rects(m@),
    ensures
        r1 == r2,
{
}

/// Last-write-wins insertion of one named frame: the first entry of the same
/// name is replaced in place, and a fresh name is appended.
pub open spec fn upsert(s: Seq<(Seq<u8>, Frame)>, name: Seq<u8>, f: Frame) -> Seq<
    (Seq<u8>, Frame),
>
    decreases s.len(),
{
    if s.len() == 0 {
        seq![(name, f)]
    } else if s[0].0 == name {
        seq![(name, f)] + s.drop_first()
    } else {
        seq![s[0]] + upsert(s.drop_first(), name, f)
    }
}

/// The map that a run of entries collapses to: each entry upserted in turn,
/// so a repeated name keeps only its last frame.
pub open spec fn collapse(s: Seq<(Seq<u8>, Frame)>) -> Seq<(Seq<u8>, Frame)>
    decreases s.len(),
{
    if s.len() == 0 {
        Seq::empty()
    } else {
        upsert(collapse(s.drop_last()), s.last().0, s.last().1)
    }
}

proof fn lemma_upsert_found(s: Seq<(Seq<u8>, Frame)>, name: Seq<u8>, f: Frame, i: int)
    requires
        0 <= i < s.len(),
        s[i].0 == name,
        forall|k: int| 0 <= k < i ==> s[k].0 != name,
    ensures
        upsert(s, name, f) == s.update(i, (name, f)),
    decreases i,
{
    if i == 0 {
        assert(seq![(name, f)] + s.drop_first() =~= s.update(0, (name, f)));
    } else {
        assert(s[0].0 != name);
        lemma_upsert_found(s.drop_first(), name, f, i - 1);
        assert(seq![s[0]] + s.drop_first().update(i - 1, (name, f)) =~= s.update(i, (name, f)));
    }
}

proof fn lemma_upsert_missing(s: Seq<(Seq<u8>, Frame)>, name: Seq<u8>, f: Frame)
    requires
        forall|k: int| 0 <= k < s.len() ==> s[k].0 != name,
    ensures
        upsert(s, name, f) == s.push((name, f)),
    decreases s.len(),
{
    if s.len() == 0 {
        assert(seq![(name, f)] =~= s.push((name, f)));
    } else {
        lemma_upsert_missing(s.drop_first(), name, f);
        assert(seq![s[0]] + s.drop_first().push((name, f)) =~= s.push((name, f)));
    }
}

/// The frame map of a sprite sheet: each frame name, unique within the map,
/// paired with its pixel rectangle. The order the entries are held in is an
/// implementation accident; the only meaningful order is the one
/// `rect_iter` computes.
#[derive(Clone)]
pub struct AsepriteData {
    frames: Vec<(Vec<u8>, Frame)>,
}

impl View for AsepriteData {
    type V = Seq<(Seq<u8>, Frame)>;

    closed spec fn view(&self) -> Seq<(Seq<u8>, Frame)> {
        entries_view(self.frames@)
    }
}

/// Copies a byte string.
pub(crate) fn copy_bytes(a: &Vec<u8>) -> (r: Vec<u8>)
    ensures
        r@ == a@,
{
    let mut r: Vec<u8> = Vec::new();
    let mut i: usize = 0;
    while i < a.len()
        invariant
            0 <= i <= a@.len(),
            r@ =~= a@.take(i as int),
        decreases a@.len() - i,
    {
        r.push(a[i]);
        proof {
            assert(a@.take(i as int).push(a@[i as int]) =~= a@.take(i as int + 1));
        }
        i = i + 1;
    }
    proof {
        assert(a@.take(a@.len() as int) =~= a@);
    }
    r
}

/// Upserts one named frame into a vector of entries, replacing the entry of
/// the same name if there is one and appending otherwise.
fn upsert_exec(frames: &mut Vec<(Vec<u8>, Frame)>, name: Vec<u8>, f: Frame)
    ensures
        entries_view(final(frames)@) == upsert(entries_view(old(frames)@), name@, f),
{
    let ghost s = entries_view(old(frames)@);
    let mut i: usize = 0;
    while i < frames.len()
        invariant
            frames@ == old(frames)@,
            s == entries_view(frames@),
            0 <= i <= s.len(),
            forall|k: int| 0 <= k < i ==> s[k].0 != name@,
        decreases s.len() - i,
    {
        if bytes_eq(&frames[i].0, &name) {
            proof {
                lemma_upsert_found(s, name@, f, i as int);
            }
            let _ = frames.remove(i);
            frames.insert(i, (name, f));
            proof {
                assert(entries_view(frames@) =~= s.update(i as int, (name@, f)));
            }
            return ;
        }
        i = i + 1;
    }
    proof {
        lemma_upsert_missing(s, name@, f);
    }
    frames.push((name, f));
    proof {
        assert(entries_view(frames@) =~= s.push((name@, f)));
    }
}

/// Decides whether two byte strings are equal.
pub(crate) fn bytes_eq(a: &Vec<u8>, b: &Vec<u8>) -> (r: bool)
    ensures
        r == (a@ == b@),
{
    if a.len() != b.len() {
        return false;
    }
    let mut i: usize = 0;
    while i < a.len()
        invariant
            a@.len() == b@.len(),
            0 <= i <= a@.len(),
            forall|k: int| 0 <= k < i ==> a@[k] == b@[k],
        decreases a@.len() - i,
    {
        if a[i] != b[i] {
            return false;
        }
        i = i + 1;
    }
    proof {
        assert(a@ =~= b@);
    }
    true
}

proof fn lemma_upsert_distinct(s: Seq<(Seq<u8>, Frame)>, name: Seq<u8>, f: Frame)
    requires
        distinct_names(s),
    ensures
        distinct_names(upsert(s, name, f)),
{
    if exists|i: int| 0 <= i < s.len() && s[i].0 == name {
        let i = choose|i: int|
            0 <= i < s.len() && s[i].0 == name && forall|k: int| 0 <= k < i ==> s[k].0 != name;
        assert(exists|i: int|
            0 <= i < s.len() && s[i].0 == name && forall|k: int| 0 <= k < i ==> s[k].0 != name) by {
            let j = choose|j: int| 0 <= j < s.len() && s[j].0 == name;
            lemma_first_match(s, name, j);
        }
        lemma_upsert_found(s, name, f, i);
    } else {
        lemma_upsert_missing(s, name, f);
    }
}

proof fn lemma_first_match(s: Seq<(Seq<u8>, Frame)>, name: Seq<u8>, j: int)
    requires
        0 <= j < s.len(),
        s[j].0 == name,
    ensures
        exists|i: int|
            0 <= i < s.len() && s[i].0 == name && forall|k: int| 0 <= k < i ==> s[k].0 != name,
    decreases j,
{
    if forall|k: int| 0 <= k < j ==> s[k].0 != name {
        assert(0 <= j < s.len() && s[j].0 == name && forall|k: int| 0 <= k < j ==> s[k].0 != name);
    } else {
        let j2 = choose|j2: int| 0 <= j2 < j && s[j2].0 == name;
        lemma_first_match(s, name, j2);
    }
}

proof fn lemma_insert_sorted_at(x: (Seq<u8>, Frame), s: Seq<(Seq<u8>, Frame)>, k: int)
    requires
        0 <= k < s.len(),
        forall|m: int| 0 <= m < k ==> entry_le(s[m], x),
        !entry_le(s[k], x),
    ensures
        insert_sorted(x, s) == s.insert(k, x),
    decreases k,
{
    if k == 0 {
        assert(seq![x] + s =~= s.insert(0, x));
    } else {
        assert(entry_le(s[0], x));
        lemma_insert_sorted_at(x, s.drop_first(), k - 1);
        assert(seq![s[0]] + s.drop_first().insert(k - 1, x) =~= s.insert(k, x));
    }
}

/// Copies a vector of entries.
fn copy_entries(v: &Vec<(Vec<u8>, Frame)>) -> (r: Vec<(Vec<u8>, Frame)>)
    ensures
        entries_view(r@) == entries_view(v@),
{
    let ghost t = entries_view(v@);
    let mut r: Vec<(Vec<u8>, Frame)> = Vec::new();
    let mut i: usize = 0;
    while i < v.len()
        invariant
            t == entries_view(v@),
            0 <= i <= t.len(),
            entries_view(r@) =~= t.take(i as int),
        decreases t.len() - i,
    {
        let name = copy_bytes(&v[i].0);
        r.push((name, v[i].1));
        proof {
            assert(t.take(i as int).push(t[i as int]) =~= t.take(i as int + 1));
            assert(entries_view(r@) =~= t.take(i as int + 1));
        }
        i = i + 1;
    }
    proof {
        assert(t.take(t.len() as int) =~= t);
    }
    r
}

/// Finds where a name is inserted into a sorted run of entries: just after
/// every entry whose name sorts no later than it.
fn insert_pos(r: &Vec<(Vec<u8>, Frame)>, name: &Vec<u8>) -> (k: usize)
    ensures
        0 <= k <= r@.len(),
        forall|m: int| 0 <= m < k ==> name_le(entries_view(r@)[m].0, name@),
        k < r@.len() ==> !name_le(entries_view(r@)[k as int].0, name@),
{
    let mut k: usize = 0;
    while k < r.len()
        invariant
            0 <= k <= r@.len(),
            forall|m: int| 0 <= m < k ==> name_le(entries_view(r@)[m].0, name@),
        decreases r@.len() - k,
    {
        if !name_le_exec(&r[k].0, name) {
            return k;
        }
        k = k + 1;
    }
    k
}

/// Sorts entries by the name ordering with a stable insertion sort.
fn sort_entries(entries: Vec<(Vec<u8>, Frame)>) -> (r: Vec<(Vec<u8>, Frame)>)
    ensures
        entries_view(r@) == isort(entries_view(entries@)),
{
    let ghost t = entries_view(entries@);
    let mut src = entries;
    let mut r: Vec<(Vec<u8>, Frame)> = Vec::new();
    let ghost mut done: int = 0;
    while src.len() > 0
        invariant
            0 <= done <= t.len(),
            entries_view(src@) =~= t.skip(done),
            entries_view(r@) == isort(t.take(done)),
        decreases src@.len(),
    {
        let ghost src_before = src@;
        let p = src.remove(0);
        proof {
            assert(entries_view(src@) =~= entries_view(src_before).drop_first());
            assert(t.skip(done).drop_first() =~= t.skip(done + 1));
            assert(p == src_before[0]);
            assert(entries_view(src_before)[0] == (src_before[0].0@, src_before[0].1));
            assert(entries_view(src_before)[0] == t.skip(done)[0]);
            assert(t.skip(done)[0] == t[done]);
            assert((p.0@, p.1) == t[done]);
        }
        let ghost before = entries_view(r@);
        let k = insert_pos(&r, &p.0);
        proof {
            if k < r.len() {
                lemma_insert_sorted_at((p.0@, p.1), before, k as int);
            } else {
                lemma_insert_sorted_at_end((p.0@, p.1), before);
                assert(before.push((p.0@, p.1)) =~= before.insert(before.len() as int, (p.0@, p.1)));
            }
            assert(t.take(done + 1).drop_last() =~= t.take(done));
            assert(t.take(done + 1).last() == t[done]);
        }
        r.insert(k, p);
        proof {
            assert(entries_view(r@) =~= before.insert(k as int, (t[done].0, t[done].1)));
            assert(entries_view(r@) == isort(t.take(done + 1)));
            done = done + 1;
        }
    }
    proof {
        assert(t.take(t.len() as int) =~= t);
        assert(t.skip(done).len() == 0);
    }
    r
}

impl AsepriteData {
    /// The map's invariant: no name appears twice.
    pub open spec fn wf(self) -> bool {
        distinct_names(self@)
    }

    /// Returns the rectangles of the map's frames, one per entry, arranged
    /// by the name ordering: shorter names first, names of equal length in
    /// byte-wise lexicographic order.
    pub fn rect_iter(&self) -> (r: Vec<Rect>)
        ensures
            r@ == ordered_rects(self@),
            r@.len() == self@.len(),
    {
        proof {
            lemma_isort_permutes(self@);
        }
        let copied = copy_entries(&self.frames);
        let sorted = sort_entries(copied);
        let ghost t = isort(self@);
        let mut r: Vec<Rect> = Vec::new();
        let mut i: usize = 0;
        while i < sorted.len()
            invariant
                entries_view(sorted@) == t,
                0 <= i <= sorted@.len(),
                r@.len() == i,
                forall|k: int| 0 <= k < i ==> r@[k] == rect_of(t[k].1),
            decreases sorted@.len() - i,
        {
            let f = sorted[i].1;
            r.push(Rect { x: f.x, y: f.y, width: f.w, height: f.h });
            proof {
                assert(t[i as int].1 == sorted@[i as int].1);
            }
            i = i + 1;
        }
        proof {
            assert(r@ =~= ordered_rects(self@));
        }
        r
    }

    /// Builds a frame map from named frames taken in order; a repeated name
    /// keeps only the frame it is last paired with.
    pub fn from_entries(entries: &Vec<(Vec<u8>, Frame)>) -> (r: AsepriteData)
        ensures
            r@ == collapse(entries_view(entries@)),
            r.wf(),
    {
        let ghost t = entries_view(entries@);
        let mut frames: Vec<(Vec<u8>, Frame)> = Vec::new();
        let mut i: usize = 0;
        while i < entries.len()
            invariant
                t == entries_view(entries@),
                0 <= i <= t.len(),
                entries_view(frames@) == collapse(t.take(i as int)),
                distinct_names(entries_view(frames@)),
            decreases t.len() - i,
        {
            let name = copy_bytes(&entries[i].0);
            let f = entries[i].1;
            proof {
                lemma_upsert_distinct(entries_view(frames@), name@, f);
                assert(t.take(i as int + 1).drop_last() =~= t.take(i as int));
                assert(t.take(i as int + 1).last() == t[i as int]);
            }
            upsert_exec(&mut frames, name, f);
            i = i + 1;
        }
        proof {
            assert(t.take(t.len() as int) =~= t);
        }
        AsepriteData { frames }
    }
}

} // verus!
